//! URL canonicalization, crawl-eligibility filtering and URL-to-path
//! mapping for the knowledge-base mirror.
//!
//! A canonical URL has the fixed form `https://mariadb.com/kb/<suffix>`:
//! no query string or fragment, no redundant leading `/`, `kb/`,
//! `mariadb.com/kb/` or full-root prefix, and no surrounding whitespace in
//! the suffix. `format_url` produces that form and is idempotent, which
//! `lemma_format_url_idempotent` proves.

use vstd::prelude::*;

use crate::paths::{has_extension, path_join, path_has_extension, join_path};
use crate::text::{
    absent, contains_seq, cut_at, drop_leading, drop_trailing, first_pos, match_at, strip_prefix,
    strip_prefix_all, trim_spec, lemma_first_pos, lemma_absent_concat, lemma_cut_absent,
    lemma_cut_all, lemma_take_absent, lemma_drop_leading_absent, lemma_strip_prefix_absent,
    lemma_trim_absent, lemma_trim_idempotent, contains_str, ends_with_str, find_char,
    strip_prefix_once, trim_char, trim_spaces, trim_start_char, trim_start_str,
};

verus! {

/// The canonical root every article URL starts with.
pub open spec fn base_url() -> Seq<char> {
    "https://mariadb.com/kb/"@
}

/// The suffix a raw link contributes after the canonical root: the link
/// truncated at the first `#` and the first `?`, stripped of leading `/`
/// characters, of one leading `kb/`, `mariadb.com/kb/` and full-root
/// prefix in that trial order, and trimmed of whitespace.
pub open spec fn format_url_suffix(s: Seq<char>) -> Seq<char> {
    let a = cut_at(cut_at(s, '#'), '?');
    let b = drop_leading(a, '/');
    let c = strip_prefix(b, "kb/"@);
    let d = strip_prefix(c, "mariadb.com/kb/"@);
    let e = strip_prefix(d, base_url());
    trim_spec(e)
}

/// The canonical form of a raw link.
pub open spec fn format_url_spec(s: Seq<char>) -> Seq<char> {
    base_url() + format_url_suffix(s)
}

/// Ground facts about the literals the normalizer strips.
pub proof fn lemma_base_facts()
    ensures
        base_url().len() == 23,
        base_url()[0] == 'h',
        absent(base_url(), '#'),
        absent(base_url(), '?'),
        "kb/"@.len() == 3,
        "kb/"@[0] == 'k',
        "mariadb.com/kb/"@.len() == 15,
        "mariadb.com/kb/"@[0] == 'm',
{
    reveal_strlit("https://mariadb.com/kb/");
    reveal_strlit("kb/");
    reveal_strlit("mariadb.com/kb/");
}

/// The canonical suffix holds no `#` or `?` and carries no surrounding
/// whitespace.
pub proof fn lemma_suffix_clean(s: Seq<char>)
    ensures
        absent(format_url_suffix(s), '#'),
        absent(format_url_suffix(s), '?'),
        trim_spec(format_url_suffix(s)) == format_url_suffix(s),
{
    let a1 = cut_at(s, '#');
    let a = cut_at(a1, '?');
    lemma_cut_absent(s, '#');
    lemma_cut_absent(a1, '?');
    lemma_first_pos(a1, '?');
    lemma_take_absent(a1, first_pos(a1, '?'), '#');
    let b = drop_leading(a, '/');
    lemma_drop_leading_absent(a, '/', '#');
    lemma_drop_leading_absent(a, '/', '?');
    let c = strip_prefix(b, "kb/"@);
    lemma_strip_prefix_absent(b, "kb/"@, '#');
    lemma_strip_prefix_absent(b, "kb/"@, '?');
    let d = strip_prefix(c, "mariadb.com/kb/"@);
    lemma_strip_prefix_absent(c, "mariadb.com/kb/"@, '#');
    lemma_strip_prefix_absent(c, "mariadb.com/kb/"@, '?');
    let e = strip_prefix(d, base_url());
    lemma_strip_prefix_absent(d, base_url(), '#');
    lemma_strip_prefix_absent(d, base_url(), '?');
    lemma_trim_absent(e, '#');
    lemma_trim_absent(e, '?');
    lemma_trim_idempotent(e);
}

/// Canonicalization is idempotent: normalizing a canonical URL returns it
/// unchanged.
pub proof fn lemma_format_url_idempotent(s: Seq<char>)
    ensures
        format_url_spec(format_url_spec(s)) == format_url_spec(s),
{
    lemma_base_facts();
    lemma_suffix_clean(s);
    let base = base_url();
    let u = format_url_suffix(s);
    let t = base + u;
    lemma_absent_concat(base, u, '#');
    lemma_absent_concat(base, u, '?');
    lemma_cut_all(t, '#');
    lemma_cut_all(t, '?');
    assert(cut_at(cut_at(t, '#'), '?') == t);
    assert(t[0] == 'h');
    assert(drop_leading(t, '/') == t);
    assert(!match_at(t, "kb/"@, 0)) by {
        if match_at(t, "kb/"@, 0) {
            assert(t.subrange(0, 3)[0] == t[0]);
        }
    }
    assert(!match_at(t, "mariadb.com/kb/"@, 0)) by {
        if match_at(t, "mariadb.com/kb/"@, 0) {
            assert(t.subrange(0, 15)[0] == t[0]);
        }
    }
    assert(match_at(t, base, 0)) by {
        assert(t.subrange(0, base.len() as int) =~= base);
    }
    assert(strip_prefix(t, base) =~= u);
    assert(format_url_suffix(t) == trim_spec(u));
    assert(format_url_spec(t) == t);
}

/// Canonicalize a raw link: truncate at the first `#` or `?`, strip
/// redundant root prefixes, trim whitespace, and re-prefix the canonical
/// root.
pub fn format_url(url: &str) -> (r: String)
    ensures
        r@ == format_url_spec(url@),
{
    let p1 = find_char(url, '#');
    proof {
        lemma_first_pos(url@, '#');
    }
    let a = url.substring_char(0, p1);
    assert(a@ =~= cut_at(url@, '#'));
    let p2 = find_char(a, '?');
    proof {
        lemma_first_pos(a@, '?');
    }
    let b = a.substring_char(0, p2);
    assert(b@ =~= cut_at(a@, '?'));
    let c = trim_start_char(b, '/');
    let d = strip_prefix_once(c, "kb/");
    let e = strip_prefix_once(d, "mariadb.com/kb/");
    let f = strip_prefix_once(e, "https://mariadb.com/kb/");
    let g = trim_spaces(f);
    let mut r = String::from_str("https://mariadb.com/kb/");
    r.append(g);
    r
}

/// A URL touches one of the administrative path segments that must not be
/// crawled.
pub open spec fn has_ignored_segment(s: Seq<char>) -> bool {
    ||| contains_seq(s, "/+change_order"@)
    ||| contains_seq(s, "/add/"@)
    ||| contains_seq(s, "/ask/"@)
    ||| contains_seq(s, "/remove/"@)
    ||| contains_seq(s, "/+history/"@)
    ||| contains_seq(s, "/+translate"@)
    ||| contains_seq(s, "/+flag"@)
    ||| contains_seq(s, "/post/"@)
}

/// `p` is a suffix of `s`.
pub open spec fn ends_with_seq(s: Seq<char>, p: Seq<char>) -> bool {
    p.len() <= s.len() && match_at(s, p, s.len() - p.len())
}

/// A URL ends in one of the administrative action suffixes that must not
/// be crawled.
pub open spec fn has_ignored_suffix(s: Seq<char>) -> bool {
    ||| ends_with_seq(s, "+flag"@)
    ||| ends_with_seq(s, "/ask"@)
    ||| ends_with_seq(s, "+search"@)
    ||| ends_with_seq(s, "/post"@)
    ||| ends_with_seq(s, "/remove"@)
    ||| ends_with_seq(s, "/flag"@)
    ||| ends_with_seq(s, "/add"@)
}

/// A canonical URL is worth crawling: it names an article (nonempty
/// suffix after the root) and touches no administrative segment or
/// suffix.
pub open spec fn valid_url_spec(s: Seq<char>) -> bool {
    &&& !has_ignored_segment(s)
    &&& !has_ignored_suffix(s)
    &&& strip_prefix_all(s, base_url()).len() != 0
}

/// Crawl-eligibility of a canonical URL.
pub fn valid_url(url: &str) -> (r: bool)
    ensures
        r == valid_url_spec(url@),
{
    if contains_str(url, "/+change_order") || contains_str(url, "/add/") || contains_str(
        url,
        "/ask/",
    ) || contains_str(url, "/remove/") || contains_str(url, "/+history/") || contains_str(
        url,
        "/+translate",
    ) || contains_str(url, "/+flag") || contains_str(url, "/post/") {
        return false;
    }
    if ends_with_str(url, "+flag") || ends_with_str(url, "/ask") || ends_with_str(url, "+search")
        || ends_with_str(url, "/post") || ends_with_str(url, "/remove") || ends_with_str(
        url,
        "/flag",
    ) || ends_with_str(url, "/add") {
        return false;
    }
    let rest = trim_start_str(url, "https://mariadb.com/kb/");
    !rest.is_empty()
}

/// Filter exclusion: a URL that touches an administrative path segment,
/// or ends in an administrative action suffix, is never crawl-eligible.
pub proof fn lemma_ignored_urls_rejected(s: Seq<char>)
    ensures
        has_ignored_segment(s) ==> !valid_url_spec(s),
        has_ignored_suffix(s) ==> !valid_url_spec(s),
{
}

/// The view of each string in a sequence.
pub open spec fn views(v: Seq<String>) -> Seq<Seq<char>> {
    v.map_values(|s: String| s@)
}

/// Canonicalize every raw link and keep the crawl-eligible ones, in
/// order.
pub open spec fn filter_urls_spec(urls: Seq<Seq<char>>) -> Seq<Seq<char>>
    decreases urls.len(),
{
    if urls.len() == 0 {
        Seq::empty()
    } else {
        let rest = filter_urls_spec(urls.drop_last());
        let f = format_url_spec(urls.last());
        if valid_url_spec(f) {
            rest.push(f)
        } else {
            rest
        }
    }
}

/// Canonicalize raw links and retain the crawl-eligible ones, keeping
/// their order.
pub fn filter_urls(urls: Vec<String>) -> (r: Vec<String>)
    ensures
        views(r@) == filter_urls_spec(views(urls@)),
{
    let mut r: Vec<String> = Vec::new();
    let n = urls.len();
    let mut i: usize = 0;
    while i < n
        invariant
            0 <= i <= n,
            n == urls@.len(),
            views(r@) == filter_urls_spec(views(urls@).take(i as int)),
        decreases n - i,
    {
        let f = format_url(urls[i].as_str());
        let ghost prev = r@;
        let ghost fv = f@;
        let keep = valid_url(f.as_str());
        if keep {
            r.push(f);
        }
        proof {
            assert(views(urls@).take(i + 1).drop_last() =~= views(urls@).take(i as int));
            assert(views(urls@).take(i + 1).last() == urls@[i as int]@);
            if keep {
                assert(views(r@) =~= views(prev).push(fv));
            }
        }
        i = i + 1;
    }
    proof {
        assert(views(urls@).take(n as int) =~= views(urls@));
    }
    r
}

/// Where a canonical URL is stored on disk: the suffix after `url_prefix`,
/// trimmed of surrounding `/`, joined onto `base_path`, with `.html`
/// appended when the result carries no extension.
pub open spec fn url_to_path_spec(base: Seq<char>, prefix: Seq<char>, url: Seq<char>) -> Seq<char> {
    let sfx = drop_trailing(drop_leading(strip_prefix_all(url, prefix), '/'), '/');
    let p = path_join(base, sfx);
    if has_extension(p) {
        p
    } else {
        p + ".html"@
    }
}

/// Map a URL to its storage path under `base_path`.
pub fn url_to_path(base_path: &str, url_prefix: &str, url: &str) -> (r: String)
    ensures
        r@ == url_to_path_spec(base_path@, url_prefix@, url@),
{
    let sfx = trim_char(trim_start_str(url, url_prefix), '/');
    let mut p = join_path(base_path, sfx);
    if !path_has_extension(p.as_str()) {
        p.append(".html");
    }
    p
}

} // verus!
