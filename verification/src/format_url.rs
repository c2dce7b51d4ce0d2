//! The crawl-side variant of URL canonicalization and filtering.
//!
//! Canonicalization is the same as in `kb_utils`; the eligibility filter
//! differs: every administrative segment is also rejected as a URL suffix
//! (without its trailing `/`), the change-permalink marker `/+r/` is
//! rejected too, and the nonempty-suffix test tolerates a root written
//! without its trailing slash.

use vstd::prelude::*;

use crate::kb_utils::{format_url_spec, views, ends_with_seq};
use crate::text::{
    contains_seq, contains_str, drop_leading, ends_with_str, strip_prefix_all, trim_start_char,
    trim_start_str,
};

verus! {

/// The URL touches one of the administrative markers, as a path segment
/// or as a suffix.
pub open spec fn has_ignored_marker(s: Seq<char>) -> bool {
    ||| contains_seq(s, "/+change_order/"@) || ends_with_seq(s, "/+change_order"@)
    ||| contains_seq(s, "/add/"@) || ends_with_seq(s, "/add"@)
    ||| contains_seq(s, "/ask/"@) || ends_with_seq(s, "/ask"@)
    ||| contains_seq(s, "/remove/"@) || ends_with_seq(s, "/remove"@)
    ||| contains_seq(s, "/+history/"@) || ends_with_seq(s, "/+history"@)
    ||| contains_seq(s, "/+translate/"@) || ends_with_seq(s, "/+translate"@)
    ||| contains_seq(s, "/+flag/"@) || ends_with_seq(s, "/+flag"@)
    ||| contains_seq(s, "/post/"@) || ends_with_seq(s, "/post"@)
    ||| contains_seq(s, "/+r/"@) || ends_with_seq(s, "/+r"@)
}

/// Crawl-eligibility: no administrative marker, and a nonempty article
/// suffix after the canonical root.
pub open spec fn valid_url_spec(s: Seq<char>) -> bool {
    &&& !has_ignored_marker(s)
    &&& drop_leading(strip_prefix_all(s, "https://mariadb.com/kb"@), '/').len() != 0
}

/// Canonicalize a raw link; same normal form as `kb_utils::format_url`.
pub fn format_url(url: &str) -> (r: String)
    ensures
        r@ == format_url_spec(url@),
{
    crate::kb_utils::format_url(url)
}

/// Crawl-eligibility of a canonical URL.
pub fn valid_url(url: &str) -> (r: bool)
    ensures
        r == valid_url_spec(url@),
{
    if contains_str(url, "/+change_order/") || ends_with_str(url, "/+change_order") {
        return false;
    }
    if contains_str(url, "/add/") || ends_with_str(url, "/add") {
        return false;
    }
    if contains_str(url, "/ask/") || ends_with_str(url, "/ask") {
        return false;
    }
    if contains_str(url, "/remove/") || ends_with_str(url, "/remove") {
        return false;
    }
    if contains_str(url, "/+history/") || ends_with_str(url, "/+history") {
        return false;
    }
    if contains_str(url, "/+translate/") || ends_with_str(url, "/+translate") {
        return false;
    }
    if contains_str(url, "/+flag/") || ends_with_str(url, "/+flag") {
        return false;
    }
    if contains_str(url, "/post/") || ends_with_str(url, "/post") {
        return false;
    }
    if contains_str(url, "/+r/") || ends_with_str(url, "/+r") {
        return false;
    }
    let rest = trim_start_char(trim_start_str(url, "https://mariadb.com/kb"), '/');
    !rest.is_empty()
}

/// Filter exclusion: a URL that touches an administrative marker is
/// never crawl-eligible under this module's filter.
pub proof fn lemma_marked_urls_rejected(s: Seq<char>)
    ensures
        has_ignored_marker(s) ==> !valid_url_spec(s),
{
}

/// Canonicalize every raw link and keep the crawl-eligible ones, in
/// order, under this module's filter.
pub open spec fn filter_urls_spec(urls: Seq<Seq<char>>) -> Seq<Seq<char>>
    decreases urls.len(),
{
    if urls.len() == 0 {
        Seq::empty()
    } else {
        let rest = filter_urls_spec(urls.drop_last());
        let f = format_url_spec(urls.last());
        if valid_url_spec(f) {
            rest.push(f)
        } else {
            rest
        }
    }
}

/// Canonicalize raw links and retain the crawl-eligible ones, keeping
/// their order.
pub fn filter_urls(urls: Vec<String>) -> (r: Vec<String>)
    ensures
        views(r@) == filter_urls_spec(views(urls@)),
{
    let mut r: Vec<String> = Vec::new();
    let n = urls.len();
    let mut i: usize = 0;
    while i < n
        invariant
            0 <= i <= n,
            n == urls@.len(),
            views(r@) == filter_urls_spec(views(urls@).take(i as int)),
        decreases n - i,
    {
        let f = format_url(urls[i].as_str());
        let ghost prev = r@;
        let ghost fv = f@;
        let keep = valid_url(f.as_str());
        if keep {
            r.push(f);
        }
        proof {
            assert(views(urls@).take(i + 1).drop_last() =~= views(urls@).take(i as int));
            assert(views(urls@).take(i + 1).last() == urls@[i as int]@);
            if keep {
                assert(views(r@) =~= views(prev).push(fv));
            }
        }
        i = i + 1;
    }
    proof {
        assert(views(urls@).take(n as int) =~= views(urls@));
    }
    r
}

} // verus!
