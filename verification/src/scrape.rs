//! Link extraction from raw page markup, and the crawl engine.
//!
//! The scanners recognize the fixed link shapes of the knowledge-base
//! markup directly on the page text: attribute values of the form
//! `="[https://][mariadb.com][/]kb/<capture>"`, the recent-changes
//! history items with their datetime spans, and the localized-versions
//! list of an article. Matching is specified position by position over
//! the page's character sequence.

use vstd::prelude::*;

use crate::date::{Date, is_digit, is_digit_char, parse_date_spec, parse_date};
use crate::format_url::{filter_urls, filter_urls_spec, valid_url_spec, valid_url, format_url};
use crate::kb_utils::{views, format_url_spec};
use crate::text::{
    cut_at, contains_seq, first_pos, match_at, sub_pos, lemma_first_pos, lemma_sub_pos,
    find_char, find_str, matches_at, remove_char, remove_char_str,
};

verus! {

/// Count of consecutive ASCII digits at the front of `s`.
pub open spec fn leading_digits(s: Seq<char>) -> int
    decreases s.len(),
{
    if s.len() > 0 && is_digit(s[0]) {
        1 + leading_digits(s.skip(1))
    } else {
        0
    }
}

pub proof fn lemma_leading_digits(s: Seq<char>, k: int)
    requires
        0 <= k <= s.len(),
        forall|i: int| 0 <= i < k ==> is_digit(s[i]),
        k < s.len() ==> !is_digit(s[k]),
    ensures
        leading_digits(s) == k,
    decreases k,
{
    if k == 0 {
    } else {
        lemma_leading_digits(s.skip(1), k - 1);
    }
}

/// Count of consecutive ASCII digits in `s` starting at `from`.
pub fn count_digits(s: &str, from: usize) -> (r: usize)
    requires
        from <= s@.len(),
    ensures
        r as int == leading_digits(s@.skip(from as int)),
        from + r <= s@.len(),
{
    let n = s.unicode_len();
    let mut i: usize = from;
    while i < n && is_digit_char(s.get_char(i))
        invariant
            from <= i <= n,
            n == s@.len(),
            forall|j: int| from <= j < i ==> is_digit(s@[j]),
        decreases n - i,
    {
        i = i + 1;
    }
    proof {
        let t = s@.skip(from as int);
        lemma_leading_digits(t, i - from);
    }
    i - from
}

/// One attempted link match at position `i`: the two characters `="`,
/// then an optional `https://mariadb.com` or `mariadb.com`, an optional
/// `/`, the root `kb/`, and a capture running to the next `"`. The result
/// is the capture's start and the position just past the closing quote.
pub open spec fn link_match_at(s: Seq<char>, i: int) -> Option<(int, int)> {
    if !(0 <= i && i + 2 <= s.len() && s[i] == '=' && s[i + 1] == '"') {
        None
    } else {
        let j0 = i + 2;
        let h: int = if match_at(s, "https://mariadb.com"@, j0) {
            19
        } else if match_at(s, "mariadb.com"@, j0) {
            11
        } else {
            0
        };
        let j1 = j0 + h;
        let j2: int = if j1 < s.len() && s[j1] == '/' {
            j1 + 1
        } else {
            j1
        };
        if !match_at(s, "kb/"@, j2) {
            None
        } else {
            let c = j2 + 3;
            let q = c + first_pos(s.skip(c), '"');
            if q == s.len() {
                None
            } else {
                Some((c, q + 1))
            }
        }
    }
}

/// Attempt a link match at character position `i`.
pub fn try_link_match(s: &str, i: usize) -> (r: Option<(usize, usize)>)
    requires
        i as int <= s@.len(),
    ensures
        match r {
            Some(ce) => link_match_at(s@, i as int) == Some((ce.0 as int, ce.1 as int)) && i
                < ce.1 <= s@.len() && i < ce.0 < ce.1,
            None => link_match_at(s@, i as int) is None,
        },
{
    proof {
        reveal_strlit("https://mariadb.com");
        reveal_strlit("mariadb.com");
        reveal_strlit("kb/");
    }
    let n = s.unicode_len();
    if n < 2 || i > n - 2 {
        return None;
    }
    if s.get_char(i) != '=' || s.get_char(i + 1) != '"' {
        return None;
    }
    let j0 = i + 2;
    let h: usize = if matches_at(s, "https://mariadb.com", j0) {
        19
    } else if matches_at(s, "mariadb.com", j0) {
        11
    } else {
        0
    };
    let j1 = j0 + h;
    let j2: usize = if j1 < n && s.get_char(j1) == '/' {
        j1 + 1
    } else {
        j1
    };
    if !matches_at(s, "kb/", j2) {
        return None;
    }
    let c = j2 + 3;
    let tail = s.substring_char(c, n);
    assert(tail@ =~= s@.skip(c as int));
    let qr = find_char(tail, '"');
    proof {
        lemma_first_pos(tail@, '"');
    }
    let q = c + qr;
    if q == n {
        return None;
    }
    Some((c, q + 1))
}

/// Every link capture in `s` from position `i` on, leftmost first,
/// non-overlapping.
pub open spec fn scan_links(s: Seq<char>, i: int) -> Seq<Seq<char>>
    decreases s.len() - i,
{
    if !(0 <= i && i < s.len()) {
        Seq::empty()
    } else {
        match link_match_at(s, i) {
            Some(ce) => {
                if i < ce.1 && ce.0 <= ce.1 - 1 && ce.1 <= s.len() {
                    seq![s.subrange(ce.0, ce.1 - 1)] + scan_links(s, ce.1)
                } else {
                    Seq::empty()
                }
            },
            None => scan_links(s, i + 1),
        }
    }
}

/// The raw link captures of a page, in the order found.
pub open spec fn scrape_raw_urls_spec(s: Seq<char>) -> Seq<Seq<char>> {
    scan_links(s, 0)
}

/// Extract every raw link capture from the page markup, leftmost first.
pub fn scrape_raw_urls(html: &str) -> (r: Vec<String>)
    ensures
        views(r@) == scrape_raw_urls_spec(html@),
{
    let n = html.unicode_len();
    let mut r: Vec<String> = Vec::new();
    let mut i: usize = 0;
    while i < n
        invariant
            0 <= i,
            n == html@.len(),
            scan_links(html@, 0) == views(r@) + scan_links(html@, i as int),
        decreases n - i,
    {
        let ghost prev = r@;
        match try_link_match(html, i) {
            Some(ce) => {
                let cap = html.substring_char(ce.0, ce.1 - 1);
                assert(cap@ =~= html@.subrange(ce.0 as int, ce.1 - 1));
                r.push(String::from_str(cap));
                proof {
                    assert(views(r@) =~= views(prev).push(cap@));
                    assert(views(prev) + scan_links(html@, i as int) =~= views(prev).push(cap@)
                        + scan_links(html@, ce.1 as int));
                }
                i = ce.1;
            },
            None => {
                i = i + 1;
            },
        }
    }
    proof {
        assert(scan_links(html@, i as int) =~= Seq::<Seq<char>>::empty());
        assert(views(r@) + Seq::<Seq<char>>::empty() =~= views(r@));
    }
    r
}

/// The crawl-eligible canonical URLs a page links to, in the order found,
/// duplicates kept.
pub open spec fn scrape_urls_spec(s: Seq<char>) -> Seq<Seq<char>> {
    filter_urls_spec(scrape_raw_urls_spec(s))
}

/// Extract, canonicalize and filter every link of a page.
pub fn scrape_urls(html: &str) -> (r: Vec<String>)
    ensures
        views(r@) == scrape_urls_spec(html@),
{
    filter_urls(scrape_raw_urls(html))
}

/// One attempted history-item match at position `i`: the list-item
/// opening with a numeric `value`, the `">Article <a href="` link
/// opening, an optional host prefix and `/`, the root `kb/`, and a
/// capture running to the next `"`, which must be followed by `>`. The
/// result is (capture start, capture end, match end).
pub open spec fn recent_match_at(s: Seq<char>, i: int) -> Option<(int, int, int)> {
    let l1 = "<li class=\"history_item\" value=\""@;
    if !match_at(s, l1, i) {
        None
    } else {
        let d0 = i + l1.len();
        let nd = leading_digits(s.skip(d0));
        if nd == 0 {
            None
        } else {
            let d1 = d0 + nd;
            let l2 = "\">Article <a href=\""@;
            if !match_at(s, l2, d1) {
                None
            } else {
                let j0 = d1 + l2.len();
                let h: int = if match_at(s, "https://mariadb.com"@, j0) {
                    19
                } else if match_at(s, "mariadb.com"@, j0) {
                    11
                } else {
                    0
                };
                let j1 = j0 + h;
                let j2: int = if j1 < s.len() && s[j1] == '/' {
                    j1 + 1
                } else {
                    j1
                };
                if !match_at(s, "kb/"@, j2) {
                    None
                } else {
                    let c = j2 + 3;
                    let q = c + first_pos(s.skip(c), '"');
                    if q + 1 < s.len() && s[q + 1] == '>' {
                        Some((c, q, q + 2))
                    } else {
                        None
                    }
                }
            }
        }
    }
}

/// Attempt a history-item match at character position `i`.
pub fn try_recent_match(s: &str, i: usize) -> (r: Option<(usize, usize, usize)>)
    requires
        i as int <= s@.len(),
    ensures
        match r {
            Some(m) => recent_match_at(s@, i as int) == Some(
                (m.0 as int, m.1 as int, m.2 as int),
            ) && i < m.2 <= s@.len() && i < m.0 <= m.1 < m.2,
            None => recent_match_at(s@, i as int) is None,
        },
{
    proof {
        reveal_strlit("https://mariadb.com");
        reveal_strlit("mariadb.com");
        reveal_strlit("kb/");
    }
    let n = s.unicode_len();
    let l1 = "<li class=\"history_item\" value=\"";
    if !matches_at(s, l1, i) {
        return None;
    }
    let d0 = i + l1.unicode_len();
    let nd = count_digits(s, d0);
    if nd == 0 {
        return None;
    }
    let d1 = d0 + nd;
    let l2 = "\">Article <a href=\"";
    if !matches_at(s, l2, d1) {
        return None;
    }
    let j0 = d1 + l2.unicode_len();
    let h: usize = if matches_at(s, "https://mariadb.com", j0) {
        19
    } else if matches_at(s, "mariadb.com", j0) {
        11
    } else {
        0
    };
    let j1 = j0 + h;
    let j2: usize = if j1 < n && s.get_char(j1) == '/' {
        j1 + 1
    } else {
        j1
    };
    if !matches_at(s, "kb/", j2) {
        return None;
    }
    let c = j2 + 3;
    let tail = s.substring_char(c, n);
    assert(tail@ =~= s@.skip(c as int));
    let qr = find_char(tail, '"');
    proof {
        lemma_first_pos(tail@, '"');
    }
    let q = c + qr;
    if q >= n {
        return None;
    }
    if q + 1 < n && s.get_char(q + 1) == '>' {
        Some((c, q, q + 2))
    } else {
        None
    }
}

/// One attempted datetime-span match at position `i`: the span opening,
/// a nonempty title capture to the next `"`, followed by `>`.
pub open spec fn datetime_match_at(s: Seq<char>, i: int) -> Option<(int, int, int)> {
    let l = "<span class=\"datetime\" title=\""@;
    if !match_at(s, l, i) {
        None
    } else {
        let c = i + l.len();
        let q = c + first_pos(s.skip(c), '"');
        if q > c && q + 1 < s.len() && s[q + 1] == '>' {
            Some((c, q, q + 2))
        } else {
            None
        }
    }
}

/// Attempt a datetime-span match at character position `i`.
pub fn try_datetime_match(s: &str, i: usize) -> (r: Option<(usize, usize, usize)>)
    requires
        i as int <= s@.len(),
    ensures
        match r {
            Some(m) => datetime_match_at(s@, i as int) == Some(
                (m.0 as int, m.1 as int, m.2 as int),
            ) && i < m.2 <= s@.len() && i < m.0 <= m.1 < m.2,
            None => datetime_match_at(s@, i as int) is None,
        },
{
    let n = s.unicode_len();
    let l = "<span class=\"datetime\" title=\"";
    if !matches_at(s, l, i) {
        return None;
    }
    let c = i + l.unicode_len();
    proof {
        reveal_strlit("<span class=\"datetime\" title=\"");
    }
    let tail = s.substring_char(c, n);
    assert(tail@ =~= s@.skip(c as int));
    let qr = find_char(tail, '"');
    proof {
        lemma_first_pos(tail@, '"');
    }
    let q = c + qr;
    if q >= n {
        return None;
    }
    if q > c && q + 1 < n && s.get_char(q + 1) == '>' {
        Some((c, q, q + 2))
    } else {
        None
    }
}

/// One attempted `href="..."` match at position `i`, the capture
/// nonempty.
pub open spec fn href_match_at(s: Seq<char>, i: int) -> Option<(int, int, int)> {
    let l = "href=\""@;
    if !match_at(s, l, i) {
        None
    } else {
        let c = i + l.len();
        let q = c + first_pos(s.skip(c), '"');
        if q > c && q < s.len() {
            Some((c, q, q + 1))
        } else {
            None
        }
    }
}

/// Attempt an `href` match at character position `i`.
pub fn try_href_match(s: &str, i: usize) -> (r: Option<(usize, usize, usize)>)
    requires
        i as int <= s@.len(),
    ensures
        match r {
            Some(m) => href_match_at(s@, i as int) == Some((m.0 as int, m.1 as int, m.2 as int))
                && i < m.2 <= s@.len() && i < m.0 <= m.1 < m.2,
            None => href_match_at(s@, i as int) is None,
        },
{
    let n = s.unicode_len();
    let l = "href=\"";
    if !matches_at(s, l, i) {
        return None;
    }
    let c = i + l.unicode_len();
    proof {
        reveal_strlit("href=\"");
    }
    let tail = s.substring_char(c, n);
    assert(tail@ =~= s@.skip(c as int));
    let qr = find_char(tail, '"');
    proof {
        lemma_first_pos(tail@, '"');
    }
    let q = c + qr;
    if q > c && q < n {
        Some((c, q, q + 1))
    } else {
        None
    }
}

/// Every history-item URL capture from position `i` on.
pub open spec fn scan_recent_urls(s: Seq<char>, i: int) -> Seq<Seq<char>>
    decreases s.len() - i,
{
    if !(0 <= i && i < s.len()) {
        Seq::empty()
    } else {
        match recent_match_at(s, i) {
            Some(m) => {
                if i < m.2 && m.0 <= m.1 && m.2 <= s.len() {
                    seq![s.subrange(m.0, m.1)] + scan_recent_urls(s, m.2)
                } else {
                    Seq::empty()
                }
            },
            None => scan_recent_urls(s, i + 1),
        }
    }
}

/// Every datetime title capture from position `i` on.
pub open spec fn scan_datetimes(s: Seq<char>, i: int) -> Seq<Seq<char>>
    decreases s.len() - i,
{
    if !(0 <= i && i < s.len()) {
        Seq::empty()
    } else {
        match datetime_match_at(s, i) {
            Some(m) => {
                if i < m.2 && m.0 <= m.1 && m.2 <= s.len() {
                    seq![s.subrange(m.0, m.1)] + scan_datetimes(s, m.2)
                } else {
                    Seq::empty()
                }
            },
            None => scan_datetimes(s, i + 1),
        }
    }
}

/// Every `href` capture from position `i` on.
pub open spec fn scan_hrefs(s: Seq<char>, i: int) -> Seq<Seq<char>>
    decreases s.len() - i,
{
    if !(0 <= i && i < s.len()) {
        Seq::empty()
    } else {
        match href_match_at(s, i) {
            Some(m) => {
                if i < m.2 && m.0 <= m.1 && m.2 <= s.len() {
                    seq![s.subrange(m.0, m.1)] + scan_hrefs(s, m.2)
                } else {
                    Seq::empty()
                }
            },
            None => scan_hrefs(s, i + 1),
        }
    }
}

/// Collect the history-item URL captures of a page.
pub fn recent_url_captures(html: &str) -> (r: Vec<String>)
    ensures
        views(r@) == scan_recent_urls(html@, 0),
{
    let n = html.unicode_len();
    let mut r: Vec<String> = Vec::new();
    let mut i: usize = 0;
    while i < n
        invariant
            0 <= i,
            n == html@.len(),
            scan_recent_urls(html@, 0) == views(r@) + scan_recent_urls(html@, i as int),
        decreases n - i,
    {
        let ghost prev = r@;
        match try_recent_match(html, i) {
            Some(m) => {
                let cap = html.substring_char(m.0, m.1);
                assert(cap@ =~= html@.subrange(m.0 as int, m.1 as int));
                r.push(String::from_str(cap));
                proof {
                    assert(views(r@) =~= views(prev).push(cap@));
                    assert(views(prev) + scan_recent_urls(html@, i as int) =~= views(prev).push(
                        cap@,
                    ) + scan_recent_urls(html@, m.2 as int));
                }
                i = m.2;
            },
            None => {
                i = i + 1;
            },
        }
    }
    proof {
        assert(scan_recent_urls(html@, i as int) =~= Seq::<Seq<char>>::empty());
        assert(views(r@) + Seq::<Seq<char>>::empty() =~= views(r@));
    }
    r
}

/// Collect the datetime title captures of a page.
pub fn datetime_captures(html: &str) -> (r: Vec<String>)
    ensures
        views(r@) == scan_datetimes(html@, 0),
{
    let n = html.unicode_len();
    let mut r: Vec<String> = Vec::new();
    let mut i: usize = 0;
    while i < n
        invariant
            0 <= i,
            n == html@.len(),
            scan_datetimes(html@, 0) == views(r@) + scan_datetimes(html@, i as int),
        decreases n - i,
    {
        let ghost prev = r@;
        match try_datetime_match(html, i) {
            Some(m) => {
                let cap = html.substring_char(m.0, m.1);
                assert(cap@ =~= html@.subrange(m.0 as int, m.1 as int));
                r.push(String::from_str(cap));
                proof {
                    assert(views(r@) =~= views(prev).push(cap@));
                    assert(views(prev) + scan_datetimes(html@, i as int) =~= views(prev).push(cap@)
                        + scan_datetimes(html@, m.2 as int));
                }
                i = m.2;
            },
            None => {
                i = i + 1;
            },
        }
    }
    proof {
        assert(scan_datetimes(html@, i as int) =~= Seq::<Seq<char>>::empty());
        assert(views(r@) + Seq::<Seq<char>>::empty() =~= views(r@));
    }
    r
}

/// Collect the `href` captures of a markup region.
pub fn href_captures(html: &str) -> (r: Vec<String>)
    ensures
        views(r@) == scan_hrefs(html@, 0),
{
    let n = html.unicode_len();
    let mut r: Vec<String> = Vec::new();
    let mut i: usize = 0;
    while i < n
        invariant
            0 <= i,
            n == html@.len(),
            scan_hrefs(html@, 0) == views(r@) + scan_hrefs(html@, i as int),
        decreases n - i,
    {
        let ghost prev = r@;
        match try_href_match(html, i) {
            Some(m) => {
                let cap = html.substring_char(m.0, m.1);
                assert(cap@ =~= html@.subrange(m.0 as int, m.1 as int));
                r.push(String::from_str(cap));
                proof {
                    assert(views(r@) =~= views(prev).push(cap@));
                    assert(views(prev) + scan_hrefs(html@, i as int) =~= views(prev).push(cap@)
                        + scan_hrefs(html@, m.2 as int));
                }
                i = m.2;
            },
            None => {
                i = i + 1;
            },
        }
    }
    proof {
        assert(scan_hrefs(html@, i as int) =~= Seq::<Seq<char>>::empty());
        assert(views(r@) + Seq::<Seq<char>>::empty() =~= views(r@));
    }
    r
}

/// The date a datetime span's title carries: the title up to the first
/// space, parsed as an ISO date.
pub open spec fn title_date(t: Seq<char>) -> Option<Date> {
    parse_date_spec(cut_at(t, ' '))
}

/// Parse the date of a datetime title.
pub fn title_date_of(t: &str) -> (r: Option<Date>)
    ensures
        r == title_date(t@),
{
    let p = find_char(t, ' ');
    proof {
        lemma_first_pos(t@, ' ');
    }
    let head = t.substring_char(0, p);
    assert(head@ =~= cut_at(t@, ' '));
    parse_date(head)
}

/// The view of each (URL, date) entry in a sequence.
pub open spec fn entry_views(v: Seq<(String, Date)>) -> Seq<(Seq<char>, Date)> {
    v.map_values(|p: (String, Date)| (p.0@, p.1))
}

/// URL captures paired positionally with the parsed dates of the
/// datetime titles; entries whose title carries no parseable date are
/// dropped.
pub open spec fn zip_dated(urls: Seq<Seq<char>>, titles: Seq<Seq<char>>) -> Seq<(Seq<char>, Date)>
    decreases urls.len(),
{
    if urls.len() == 0 || titles.len() == 0 {
        Seq::empty()
    } else {
        let rest = zip_dated(urls.skip(1), titles.skip(1));
        match title_date(titles[0]) {
            Some(d) => seq![(urls[0], d)] + rest,
            None => rest,
        }
    }
}

/// The raw (URL capture, date) pairs of a recent-changes page, in page
/// order.
pub open spec fn scrape_recent_raw_spec(s: Seq<char>) -> Seq<(Seq<char>, Date)> {
    zip_dated(scan_recent_urls(s, 0), scan_datetimes(s, 0))
}

/// Read the URL and date of each history item on a recent-changes page.
pub fn scrape_recent_article_urls_raw(html: &str) -> (r: Vec<(String, Date)>)
    ensures
        entry_views(r@) == scrape_recent_raw_spec(html@),
{
    let u_vec = recent_url_captures(html);
    let t_vec = datetime_captures(html);
    let nu = u_vec.len();
    let nt = t_vec.len();
    let m = if nu < nt {
        nu
    } else {
        nt
    };
    let ghost uv = views(u_vec@);
    let ghost tv = views(t_vec@);
    let mut r: Vec<(String, Date)> = Vec::new();
    proof {
        assert(uv.skip(0) =~= uv);
        assert(tv.skip(0) =~= tv);
        assert(entry_views(r@) + zip_dated(uv, tv) =~= zip_dated(uv, tv));
    }
    let mut i: usize = 0;
    while i < m
        invariant
            0 <= i <= m,
            m <= u_vec@.len(),
            m <= t_vec@.len(),
            m == u_vec@.len() || m == t_vec@.len(),
            uv == views(u_vec@),
            tv == views(t_vec@),
            zip_dated(uv, tv) == entry_views(r@) + zip_dated(uv.skip(i as int), tv.skip(i as int)),
        decreases m - i,
    {
        let ghost prev = r@;
        let d_opt = title_date_of(t_vec[i].as_str());
        match d_opt {
            Some(d) => {
                r.push((u_vec[i].clone(), d));
            },
            None => {},
        }
        proof {
            assert(uv.skip(i as int).skip(1) =~= uv.skip(i + 1));
            assert(tv.skip(i as int).skip(1) =~= tv.skip(i + 1));
            assert(uv.skip(i as int)[0] == uv[i as int]);
            assert(tv.skip(i as int)[0] == tv[i as int]);
            match d_opt {
                Some(d) => {
                    assert(entry_views(r@) =~= entry_views(prev).push((uv[i as int], d)));
                    assert(entry_views(prev) + zip_dated(uv.skip(i as int), tv.skip(i as int))
                        =~= entry_views(r@) + zip_dated(uv.skip(i + 1), tv.skip(i + 1)));
                },
                None => {},
            }
        }
        i = i + 1;
    }
    proof {
        assert(zip_dated(uv.skip(m as int), tv.skip(m as int)) =~= Seq::<(Seq<char>, Date)>::empty());
        assert(entry_views(r@) + Seq::<(Seq<char>, Date)>::empty() =~= entry_views(r@));
    }
    r
}

/// Canonicalize the URLs of raw (URL, date) pairs and keep the
/// crawl-eligible ones, in order.
pub open spec fn filter_valid_dated(entries: Seq<(Seq<char>, Date)>) -> Seq<(Seq<char>, Date)>
    decreases entries.len(),
{
    if entries.len() == 0 {
        Seq::empty()
    } else {
        let rest = filter_valid_dated(entries.drop_last());
        let e = entries.last();
        let f = format_url_spec(e.0);
        if valid_url_spec(f) {
            rest.push((f, e.1))
        } else {
            rest
        }
    }
}

/// The crawl-eligible (canonical URL, date) pairs of a recent-changes
/// page, in page order.
pub open spec fn recent_articles_spec(s: Seq<char>) -> Seq<(Seq<char>, Date)> {
    filter_valid_dated(scrape_recent_raw_spec(s))
}

/// Read, canonicalize and filter the article entries of a recent-changes
/// page.
pub fn scrape_recent_article_urls(html: &str) -> (r: Vec<(String, Date)>)
    ensures
        entry_views(r@) == recent_articles_spec(html@),
{
    let raw = scrape_recent_article_urls_raw(html);
    let n = raw.len();
    let mut r: Vec<(String, Date)> = Vec::new();
    let mut i: usize = 0;
    while i < n
        invariant
            0 <= i <= n,
            n == raw@.len(),
            entry_views(r@) == filter_valid_dated(entry_views(raw@).take(i as int)),
        decreases n - i,
    {
        let f = format_url(raw[i].0.as_str());
        let ghost prev = r@;
        let ghost fv = f@;
        let ghost d = raw@[i as int].1;
        let keep = valid_url(f.as_str());
        if keep {
            let date = raw[i].1;
            r.push((f, date));
        }
        proof {
            assert(entry_views(raw@).take(i + 1).drop_last() =~= entry_views(raw@).take(i as int));
            assert(entry_views(raw@).take(i + 1).last() == (raw@[i as int].0@, raw@[i as int].1));
            if keep {
                assert(entry_views(r@) =~= entry_views(prev).push((fv, d)));
            }
        }
        i = i + 1;
    }
    proof {
        assert(entry_views(raw@).take(n as int) =~= entry_views(raw@));
    }
    r
}

/// The localized-versions links of an article page: with newlines
/// removed, the `href` captures between the `<ul>` that follows the
/// "Localized Versions" heading and the next `</ul>`, canonicalized and
/// filtered.
pub open spec fn lang_urls_spec(html: Seq<char>) -> Seq<Seq<char>> {
    let h = remove_char(html, '\n');
    if !contains_seq(h, "Localized Versions"@) {
        Seq::empty()
    } else {
        let t = h.skip(sub_pos(h, "Localized Versions"@));
        if !contains_seq(t, "<ul>"@) {
            Seq::empty()
        } else {
            let u = t.skip(sub_pos(t, "<ul>"@) + 4);
            let region = u.take(sub_pos(u, "</ul>"@));
            filter_urls_spec(scan_hrefs(region, 0))
        }
    }
}

/// Extract the localized-versions links of an article page.
pub fn get_lang_urls(html: &str) -> (r: Vec<String>)
    ensures
        views(r@) == lang_urls_spec(html@),
{
    proof {
        reveal_strlit("Localized Versions");
        reveal_strlit("<ul>");
        reveal_strlit("</ul>");
    }
    let hs = remove_char_str(html, '\n');
    let h = hs.as_str();
    let n = h.unicode_len();
    let marker = "Localized Versions";
    let m = find_str(h, marker);
    proof {
        lemma_sub_pos(h@, marker@);
        if m as int == n as int {
            if contains_seq(h@, marker@) {
                let w = choose|w: int| match_at(h@, marker@, w);
                assert(w < n);
            }
        }
    }
    if m == n {
        return Vec::new();
    }
    assert(contains_seq(h@, marker@)) by {
        assert(match_at(h@, marker@, m as int));
    }
    let t = h.substring_char(m, n);
    assert(t@ =~= h@.skip(m as int));
    let tn = t.unicode_len();
    let u_pos = find_str(t, "<ul>");
    proof {
        lemma_sub_pos(t@, "<ul>"@);
        if u_pos as int == tn as int {
            if contains_seq(t@, "<ul>"@) {
                let w = choose|w: int| match_at(t@, "<ul>"@, w);
                assert(w < tn);
            }
        }
    }
    if u_pos == tn {
        return Vec::new();
    }
    assert(contains_seq(t@, "<ul>"@)) by {
        assert(match_at(t@, "<ul>"@, u_pos as int));
    }
    assert(u_pos + 4 <= tn) by {
        assert(match_at(t@, "<ul>"@, u_pos as int));
    }
    let u = t.substring_char(u_pos + 4, tn);
    assert(u@ =~= t@.skip(u_pos + 4));
    let e = find_str(u, "</ul>");
    proof {
        lemma_sub_pos(u@, "</ul>"@);
    }
    let region = u.substring_char(0, e);
    assert(region@ =~= u@.take(e as int));
    let caps = href_captures(region);
    filter_urls(caps)
}

/// The traversal strategy of one crawl run.
#[derive(Debug, Clone, Copy, PartialEq, Eq, Structural)]
pub enum ScrapeMethod {
    Standard,
    Resume,
    RecentChanges,
    Pdf,
    PdfLangs,
}

/// The view of each (URL, path) entry of the location index.
pub open spec fn pair_views(v: Seq<(String, String)>) -> Seq<(Seq<char>, Seq<char>)> {
    v.map_values(|p: (String, String)| (p.0@, p.1@))
}

/// The path stored for `url`: the value of the first entry with that
/// key, or nothing.
pub open spec fn lookup(locs: Seq<(String, String)>, url: Seq<char>) -> Option<Seq<char>>
    decreases locs.len(),
{
    if locs.len() == 0 {
        None
    } else if locs[0].0@ == url {
        Some(locs[0].1@)
    } else {
        lookup(locs.skip(1), url)
    }
}

pub proof fn lemma_lookup_some_iff_key(locs: Seq<(String, String)>, k: Seq<char>)
    ensures
        (lookup(locs, k) is Some) == (exists|i: int| 0 <= i < locs.len() && locs[i].0@ == k),
    decreases locs.len(),
{
    if locs.len() == 0 {
    } else if locs[0].0@ == k {
    } else {
        lemma_lookup_some_iff_key(locs.skip(1), k);
        if lookup(locs.skip(1), k) is Some {
            let w = choose|w: int| 0 <= w < locs.skip(1).len() && locs.skip(1)[w].0@ == k;
            assert(locs[w + 1].0@ == k);
        }
        if exists|i: int| 0 <= i < locs.len() && locs[i].0@ == k {
            let w = choose|w: int| 0 <= w < locs.len() && locs[w].0@ == k;
            assert(locs.skip(1)[w - 1].0@ == k);
        }
    }
}

pub proof fn lemma_lookup_set(locs: Seq<(String, String)>, i: int, e: (String, String), k: Seq<
    char,
>)
    requires
        0 <= i < locs.len(),
        forall|j: int| 0 <= j < i ==> locs[j].0@ != e.0@,
        locs[i].0@ == e.0@,
    ensures
        lookup(locs.update(i, e), k) == if k == e.0@ {
            Some(e.1@)
        } else {
            lookup(locs, k)
        },
    decreases i,
{
    let u = locs.update(i, e);
    if i == 0 {
        if k == e.0@ {
        } else {
            assert(u.skip(1) =~= locs.skip(1));
        }
    } else {
        assert(u[0] == locs[0]);
        assert(u.skip(1) =~= locs.skip(1).update(i - 1, e));
        lemma_lookup_set(locs.skip(1), i - 1, e, k);
        if locs[0].0@ == k {
            assert(k != e.0@);
        }
    }
}

pub proof fn lemma_lookup_push(locs: Seq<(String, String)>, e: (String, String), k: Seq<char>)
    requires
        forall|j: int| 0 <= j < locs.len() ==> locs[j].0@ != e.0@,
    ensures
        lookup(locs.push(e), k) == if k == e.0@ {
            Some(e.1@)
        } else {
            lookup(locs, k)
        },
    decreases locs.len(),
{
    let u = locs.push(e);
    if locs.len() == 0 {
        assert(u[0] == e);
        if k != e.0@ {
            assert(u.skip(1) =~= Seq::<(String, String)>::empty());
        }
    } else {
        assert(u[0] == locs[0]);
        assert(u.skip(1) =~= locs.skip(1).push(e));
        assert(forall|j: int|
            0 <= j < locs.skip(1).len() ==> locs.skip(1)[j].0@ != e.0@);
        lemma_lookup_push(locs.skip(1), e, k);
        if locs[0].0@ == k {
            assert(k != e.0@);
        }
    }
}

/// Whether `v` holds a string whose view is `x`.
pub fn contains_string(v: &Vec<String>, x: &str) -> (r: bool)
    ensures
        r == views(v@).contains(x@),
{
    let n = v.len();
    let mut i: usize = 0;
    while i < n
        invariant
            0 <= i <= n,
            n == v@.len(),
            forall|j: int| 0 <= j < i ==> views(v@)[j] != x@,
        decreases n - i,
    {
        if crate::text::str_eq(v[i].as_str(), x) {
            assert(views(v@)[i as int] == x@);
            return true;
        }
        i = i + 1;
    }
    assert(!views(v@).contains(x@));
    false
}

/// Store `path` for `url` in the index, overwriting the value of an
/// existing entry with that key.
fn index_upsert(locs: &mut Vec<(String, String)>, url: String, path: String)
    ensures
        lookup(final(locs)@, url@) == Some(path@),
        forall|k: Seq<char>| k != url@ ==> lookup(final(locs)@, k) == lookup(old(locs)@, k),
        final(locs)@.len() <= old(locs)@.len() + 1,
{
    let ghost url_v = url@;
    let ghost path_v = path@;
    let n = locs.len();
    let mut i: usize = 0;
    while i < n
        invariant
            0 <= i <= n,
            n == locs@.len(),
            locs@ == old(locs)@,
            forall|j: int| 0 <= j < i ==> locs@[j].0@ != url_v,
            url@ == url_v,
            path@ == path_v,
        decreases n - i,
    {
        if crate::text::str_eq(locs[i].0.as_str(), url.as_str()) {
            proof {
                lemma_lookup_set(locs@, i as int, (url, path), url_v);
            }
            let ghost pre = locs@;
            locs.set(i, (url, path));
            proof {
                assert forall|k: Seq<char>| k != url_v implies lookup(locs@, k) == lookup(
                    old(locs)@,
                    k,
                ) by {
                    lemma_lookup_set(pre, i as int, locs@[i as int], k);
                }
                lemma_lookup_set(pre, i as int, locs@[i as int], url_v);
            }
            return;
        }
        i = i + 1;
    }
    proof {
        lemma_lookup_push(locs@, (url, path), url_v);
    }
    let ghost pre = locs@;
    locs.push((url, path));
    proof {
        assert(locs@ == pre.push(locs@[pre.len() as int]));
        assert forall|k: Seq<char>| k != url_v implies lookup(locs@, k) == lookup(old(locs)@, k) by {
            lemma_lookup_push(pre, locs@[pre.len() as int], k);
        }
        lemma_lookup_push(pre, locs@[pre.len() as int], url_v);
    }
}

/// One parsed index line: the text before the first space is the URL,
/// the rest the path; a line without a space is damaged and yields
/// nothing.
pub open spec fn parse_line(line: Seq<char>) -> Option<(Seq<char>, Seq<char>)> {
    let p = first_pos(line, ' ');
    if p == line.len() {
        None
    } else {
        Some((line.take(p), line.skip(p + 1)))
    }
}

/// The entries of a persisted location index: one per line, in order,
/// damaged lines treated as absent.
pub open spec fn parse_locations_spec(text: Seq<char>) -> Seq<(Seq<char>, Seq<char>)>
    decreases text.len(),
{
    if text.len() == 0 {
        Seq::empty()
    } else {
        let p = first_pos(text, '\n');
        if !(0 <= p <= text.len()) {
            Seq::empty()
        } else {
            let head = match parse_line(text.take(p)) {
                Some(e) => seq![e],
                None => Seq::empty(),
            };
            if p == text.len() {
                head
            } else {
                head + parse_locations_spec(text.skip(p + 1))
            }
        }
    }
}

/// Parse a persisted location index.
pub fn parse_url_locations(text: &str) -> (r: Vec<(String, String)>)
    ensures
        pair_views(r@) == parse_locations_spec(text@),
{
    let mut r: Vec<(String, String)> = Vec::new();
    let mut cur: &str = text;
    proof {
        assert(pair_views(r@) + parse_locations_spec(text@) =~= parse_locations_spec(text@));
    }
    while cur.unicode_len() > 0
        invariant
            parse_locations_spec(text@) == pair_views(r@) + parse_locations_spec(cur@),
        decreases cur@.len(),
    {
        let n = cur.unicode_len();
        let p = find_char(cur, '\n');
        proof {
            lemma_first_pos(cur@, '\n');
        }
        let line = cur.substring_char(0, p);
        assert(line@ =~= cur@.take(p as int));
        let ghost prev = r@;
        let ghost cur0 = cur@;
        let ln = line.unicode_len();
        let q = find_char(line, ' ');
        proof {
            lemma_first_pos(line@, ' ');
        }
        if q < ln {
            let key = line.substring_char(0, q);
            let val = line.substring_char(q + 1, ln);
            assert(key@ =~= line@.take(q as int));
            assert(val@ =~= line@.skip(q + 1));
            r.push((String::from_str(key), String::from_str(val)));
            proof {
                assert(parse_line(cur0.take(p as int)) == Some((key@, val@)));
                assert(pair_views(r@) =~= pair_views(prev).push((key@, val@)));
            }
        } else {
            proof {
                assert(parse_line(cur0.take(p as int)) is None);
            }
        }
        if p == n {
            let e = cur.substring_char(n, n);
            assert(e@ =~= cur0.skip(n as int));
            cur = e;
            proof {
                assert(parse_locations_spec(cur@) =~= Seq::<(Seq<char>, Seq<char>)>::empty());
                assert(pair_views(r@) + parse_locations_spec(cur@) =~= pair_views(r@));
                match parse_line(cur0.take(p as int)) {
                    Some(e2) => {
                        assert(parse_locations_spec(cur0) =~= seq![e2]);
                        assert(pair_views(prev) + parse_locations_spec(cur0) =~= pair_views(r@));
                    },
                    None => {
                        assert(parse_locations_spec(cur0) =~= Seq::<(Seq<char>, Seq<char>)>::empty());
                    },
                }
            }
        } else {
            let rest = cur.substring_char(p + 1, n);
            assert(rest@ =~= cur0.skip(p + 1));
            cur = rest;
            proof {
                match parse_line(cur0.take(p as int)) {
                    Some(e2) => {
                        assert(parse_locations_spec(cur0) =~= seq![e2] + parse_locations_spec(
                            cur@,
                        ));
                        assert(pair_views(prev) + parse_locations_spec(cur0) =~= pair_views(r@)
                            + parse_locations_spec(cur@));
                    },
                    None => {
                        assert(parse_locations_spec(cur0) =~= parse_locations_spec(cur@));
                    },
                }
            }
        }
    }
    proof {
        assert(parse_locations_spec(cur@) =~= Seq::<(Seq<char>, Seq<char>)>::empty());
        assert(pair_views(r@) + Seq::<(Seq<char>, Seq<char>)>::empty() =~= pair_views(r@));
    }
    r
}

/// One rendered index line: URL, one space, path.
pub open spec fn render_line(e: (Seq<char>, Seq<char>)) -> Seq<char> {
    e.0 + seq![' '] + e.1
}

/// The persisted text of the location index: its lines joined with
/// newlines.
pub open spec fn render_locations_spec(locs: Seq<(Seq<char>, Seq<char>)>) -> Seq<char>
    decreases locs.len(),
{
    if locs.len() == 0 {
        Seq::empty()
    } else if locs.len() == 1 {
        render_line(locs[0])
    } else {
        render_line(locs[0]) + seq!['\n'] + render_locations_spec(locs.skip(1))
    }
}

/// Render the location index for persistence.
pub fn render_url_locations(locs: &Vec<(String, String)>) -> (r: String)
    ensures
        r@ == render_locations_spec(pair_views(locs@)),
{
    let ghost whole = pair_views(locs@);
    let n = locs.len();
    let mut r = String::new();
    let mut i: usize = 0;
    while i < n
        invariant
            0 <= i <= n,
            n == locs@.len(),
            whole == pair_views(locs@),
            i == 0 ==> r@.len() == 0,
            (0 < i && i < n) ==> render_locations_spec(whole) == r@ + seq!['\n']
                + render_locations_spec(whole.skip(i as int)),
            i == n && n > 0 ==> r@ == render_locations_spec(whole),
        decreases n - i,
    {
        let ghost prev = r@;
        if i > 0 {
            r.append("\n");
            proof {
                reveal_strlit("\n");
                assert(r@ =~= prev + seq!['\n']);
            }
        }
        let ghost mid = r@;
        r.append(locs[i].0.as_str());
        r.append(" ");
        r.append(locs[i].1.as_str());
        proof {
            reveal_strlit(" ");
            assert(r@ =~= mid + render_line(whole[i as int]));
            assert(whole.skip(i as int)[0] == whole[i as int]);
            assert(whole.skip(i as int).skip(1) =~= whole.skip(i + 1));
            if i == 0 {
                if n == 1 {
                    assert(whole.skip(0) =~= whole);
                    assert(r@ =~= render_locations_spec(whole));
                } else {
                    assert(whole.skip(0) =~= whole);
                    assert(render_locations_spec(whole) =~= render_line(whole[0]) + seq!['\n']
                        + render_locations_spec(whole.skip(1)));
                    assert(r@ =~= render_line(whole[0]));
                }
            } else {
                if i + 1 == n {
                    assert(whole.skip(i as int).len() == 1);
                    assert(render_locations_spec(whole.skip(i as int)) == render_line(
                        whole[i as int],
                    ));
                    assert(r@ =~= prev + seq!['\n'] + render_line(whole[i as int]));
                    assert(render_locations_spec(whole) == r@);
                } else {
                    assert(whole.skip(i as int).len() > 1);
                    assert(render_locations_spec(whole.skip(i as int)) =~= render_line(
                        whole[i as int],
                    ) + seq!['\n'] + render_locations_spec(whole.skip(i + 1)));
                    assert(render_locations_spec(whole) =~= r@ + seq!['\n']
                        + render_locations_spec(whole.skip(i + 1)));
                }
            }
        }
        i = i + 1;
    }
    r
}

/// Index of the first queued URL not yet completed, or the queue's
/// length when every queued URL is completed.
pub open spec fn first_pending(q: Seq<Seq<char>>, completed: Seq<Seq<char>>) -> int
    decreases q.len(),
{
    if q.len() == 0 {
        0
    } else if !completed.contains(q[0]) {
        0
    } else {
        1 + first_pending(q.skip(1), completed)
    }
}

pub proof fn lemma_first_pending(q: Seq<Seq<char>>, completed: Seq<Seq<char>>)
    ensures
        0 <= first_pending(q, completed) <= q.len(),
        first_pending(q, completed) < q.len() ==> !completed.contains(
            q[first_pending(q, completed)],
        ),
        forall|i: int| 0 <= i < first_pending(q, completed) ==> completed.contains(q[i]),
    decreases q.len(),
{
    if q.len() == 0 {
    } else if !completed.contains(q[0]) {
    } else {
        lemma_first_pending(q.skip(1), completed);
        assert forall|i: int| 0 <= i < first_pending(q, completed) implies completed.contains(
            q[i],
        ) by {
            if i > 0 {
                assert(q.skip(1)[i - 1] == q[i]);
            }
        }
    }
}

/// New links found on a page that are not yet completed, in page order;
/// these are what joins the queue.
pub open spec fn pending_links(links: Seq<Seq<char>>, completed: Seq<Seq<char>>) -> Seq<Seq<char>>
    decreases links.len(),
{
    if links.len() == 0 {
        Seq::empty()
    } else {
        let rest = pending_links(links.drop_last(), completed);
        if !completed.contains(links.last()) {
            rest.push(links.last())
        } else {
            rest
        }
    }
}

/// Pushing a string not yet present keeps a duplicate-free sequence
/// duplicate-free.
pub proof fn lemma_wf_push(pre: Seq<String>, post: Seq<String>, u: Seq<char>)
    requires
        !views(pre).contains(u),
        views(post) == views(pre).push(u),
        forall|i: int, j: int| 0 <= i < j < pre.len() ==> views(pre)[i] != views(pre)[j],
    ensures
        forall|i: int, j: int| 0 <= i < j < post.len() ==> views(post)[i] != views(post)[j],
{
    assert(views(pre).len() == pre.len());
    assert(views(post).len() == post.len());
    assert forall|i: int, j: int| 0 <= i < j < post.len() implies views(post)[i] != views(
        post,
    )[j] by {
        if j == post.len() - 1 {
            assert(views(post)[j] == u);
            assert(views(post)[i] == views(pre)[i]);
            assert(!views(pre).contains(u));
        } else {
            assert(views(post)[i] == views(pre)[i]);
            assert(views(post)[j] == views(pre)[j]);
        }
    }
}

/// The crawl engine's state: the FIFO work queue, the completed set of
/// the current run, the location index, and the run's configuration.
///
/// The completed set holds each URL at most once; the queue may hold a
/// URL several times, and `next_url` skips entries already completed.
#[derive(Debug)]
pub struct Scraper {
    pub queue: Vec<String>,
    pub completed: Vec<String>,
    pub url_locations: Vec<(String, String)>,
    pub base_path: String,
    pub ignore_existing: bool,
}

impl Scraper {
    /// The engine's invariant: the completed set holds each URL at most
    /// once, so no URL is recorded (or skipped) twice within a run.
    pub open spec fn wf(self) -> bool {
        forall|i: int, j: int|
            0 <= i < j < self.completed@.len() ==> views(self.completed@)[i] != views(
                self.completed@,
            )[j]
    }

    /// A fresh engine over a persisted location-index text; an absent
    /// index file is handed in as the empty string.
    pub fn new(base_path: &str, url_locations_text: &str, ignore_existing: bool) -> (r: Scraper)
        ensures
            r.queue@.len() == 0,
            r.completed@.len() == 0,
            pair_views(r.url_locations@) == parse_locations_spec(url_locations_text@),
            r.base_path@ == base_path@,
            r.ignore_existing == ignore_existing,
            r.wf(),
    {
        Scraper {
            queue: Vec::new(),
            completed: Vec::new(),
            url_locations: parse_url_locations(url_locations_text),
            base_path: String::from_str(base_path),
            ignore_existing,
        }
    }

    /// Append a URL to the work queue.
    pub fn seed(&mut self, url: &str)
        ensures
            views(final(self).queue@) == views(old(self).queue@).push(url@),
            final(self).completed == old(self).completed,
            final(self).url_locations == old(self).url_locations,
            final(self).base_path == old(self).base_path,
            final(self).ignore_existing == old(self).ignore_existing,
            old(self).wf() ==> final(self).wf(),
    {
        self.queue.push(String::from_str(url));
        proof {
            assert(views(self.queue@) =~= views(old(self).queue@).push(url@));
        }
    }

    /// Take the next URL to fetch: the first queued URL not yet
    /// completed. Every skipped or returned entry leaves the queue;
    /// when only completed URLs remained, the queue is drained and
    /// nothing is returned.
    pub fn next_url(&mut self) -> (r: Option<String>)
        ensures
            final(self).completed == old(self).completed,
            final(self).url_locations == old(self).url_locations,
            final(self).base_path == old(self).base_path,
            final(self).ignore_existing == old(self).ignore_existing,
            ({
                let q = views(old(self).queue@);
                let c = views(old(self).completed@);
                let fp = first_pending(q, c);
                &&& (r is Some ==> fp < q.len() && r.unwrap()@ == q[fp] && views(
                    final(self).queue@,
                ) == q.skip(fp + 1))
                &&& (r is Some ==> !c.contains(r.unwrap()@) && views(final(self).queue@).len()
                    < q.len())
                &&& (r is None ==> fp == q.len() && final(self).queue@.len() == 0)
            }),
            old(self).wf() ==> final(self).wf(),
    {
        let ghost q0 = views(old(self).queue@);
        let ghost c = views(old(self).completed@);
        proof {
            lemma_first_pending(q0, c);
            assert(views(self.queue@) =~= q0.skip(0));
        }
        let ghost mut popped: int = 0;
        while self.queue.len() > 0
            invariant
                self.completed == old(self).completed,
                self.url_locations == old(self).url_locations,
                self.base_path == old(self).base_path,
                self.ignore_existing == old(self).ignore_existing,
                q0 == views(old(self).queue@),
                c == views(old(self).completed@),
                0 <= popped <= q0.len(),
                views(self.queue@) == q0.skip(popped),
                forall|j: int| 0 <= j < popped ==> c.contains(q0[j]),
            decreases self.queue.len(),
        {
            let ghost qcur = views(self.queue@);
            let u = self.queue.remove(0);
            proof {
                assert(u@ == qcur[0]);
                assert(views(self.queue@) =~= qcur.skip(1));
                assert(qcur.skip(1) =~= q0.skip(popped + 1));
                assert(q0.skip(popped)[0] == q0[popped]);
            }
            if !contains_string(&self.completed, u.as_str()) {
                proof {
                    lemma_first_pending(q0, c);
                    assert(first_pending(q0, c) == popped);
                }
                return Some(u);
            }
            proof {
                popped = popped + 1;
            }
        }
        proof {
            assert(q0.skip(popped).len() == 0);
            assert(popped == q0.len());
            lemma_first_pending(q0, c);
            assert(first_pending(q0, c) == q0.len());
        }
        None
    }

    /// Record a URL as completed for this run, whether stored or
    /// terminally failed; the completed set gains it once.
    pub fn record_failed(&mut self, url: &str)
        ensures
            final(self).queue == old(self).queue,
            final(self).url_locations == old(self).url_locations,
            final(self).base_path == old(self).base_path,
            final(self).ignore_existing == old(self).ignore_existing,
            views(final(self).completed@) == if views(old(self).completed@).contains(url@) {
                views(old(self).completed@)
            } else {
                views(old(self).completed@).push(url@)
            },
            old(self).wf() ==> final(self).wf(),
    {
        if !contains_string(&self.completed, url) {
            self.completed.push(String::from_str(url));
            proof {
                assert(views(self.completed@) =~= views(old(self).completed@).push(url@));
                if old(self).wf() && !views(old(self).completed@).contains(url@) {
                    lemma_wf_push(old(self).completed@, self.completed@, url@);
                }
            }
        }
    }

    /// Record a successful fetch: the URL joins the completed set, and
    /// the location index maps the URL (trailing slashes dropped) to the
    /// path the page was stored at, leaving every other index entry
    /// unchanged.
    pub fn record_stored(&mut self, url: &str, path: &str)
        ensures
            final(self).queue == old(self).queue,
            final(self).base_path == old(self).base_path,
            final(self).ignore_existing == old(self).ignore_existing,
            views(final(self).completed@) == if views(old(self).completed@).contains(url@) {
                views(old(self).completed@)
            } else {
                views(old(self).completed@).push(url@)
            },
            lookup(final(self).url_locations@, crate::text::drop_trailing(url@, '/')) == Some(
                path@,
            ),
            forall|k: Seq<char>|
                k != crate::text::drop_trailing(url@, '/') ==> lookup(
                    final(self).url_locations@,
                    k,
                ) == lookup(old(self).url_locations@, k),
            old(self).wf() ==> final(self).wf(),
    {
        if !contains_string(&self.completed, url) {
            self.completed.push(String::from_str(url));
            proof {
                assert(views(self.completed@) =~= views(old(self).completed@).push(url@));
                if old(self).wf() && !views(old(self).completed@).contains(url@) {
                    lemma_wf_push(old(self).completed@, self.completed@, url@);
                }
            }
        }
        let key = crate::text::trim_end_char(url, '/');
        index_upsert(&mut self.url_locations, String::from_str(key), String::from_str(path));
    }

    /// Extract the eligible links of a stored page and append those not
    /// yet completed to the work queue, in page order.
    pub fn enqueue_links(&mut self, html: &str)
        ensures
            final(self).completed == old(self).completed,
            final(self).url_locations == old(self).url_locations,
            final(self).base_path == old(self).base_path,
            final(self).ignore_existing == old(self).ignore_existing,
            views(final(self).queue@) == views(old(self).queue@) + pending_links(
                scrape_urls_spec(html@),
                views(old(self).completed@),
            ),
            old(self).wf() ==> final(self).wf(),
    {
        let links = scrape_urls(html);
        let ghost lv = views(links@);
        let ghost c = views(old(self).completed@);
        let ghost q0 = views(old(self).queue@);
        let n = links.len();
        let mut i: usize = 0;
        proof {
            assert(lv.take(0) =~= Seq::<Seq<char>>::empty());
            assert(q0 + pending_links(lv.take(0), c) =~= q0);
        }
        while i < n
            invariant
                0 <= i <= n,
                n == links@.len(),
                lv == views(links@),
                c == views(old(self).completed@),
                q0 == views(old(self).queue@),
                self.completed == old(self).completed,
                self.url_locations == old(self).url_locations,
                self.base_path == old(self).base_path,
                self.ignore_existing == old(self).ignore_existing,
                views(self.queue@) == q0 + pending_links(lv.take(i as int), c),
            decreases n - i,
        {
            let ghost prev = views(self.queue@);
            let keep = !contains_string(&self.completed, links[i].as_str());
            if keep {
                self.queue.push(links[i].clone());
            }
            proof {
                assert(lv.take(i + 1).drop_last() =~= lv.take(i as int));
                assert(lv.take(i + 1).last() == lv[i as int]);
                if keep {
                    assert(views(self.queue@) =~= prev.push(lv[i as int]));
                }
            }
            i = i + 1;
        }
        proof {
            assert(lv.take(n as int) =~= lv);
        }
    }

    /// Render this engine's location index for persistence.
    pub fn render_url_locations(&self) -> (r: String)
        ensures
            r@ == render_locations_spec(pair_views(self.url_locations@)),
    {
        render_url_locations(&self.url_locations)
    }

    /// The single-document export list: rows flagged 1, skipping (in
    /// resume mode) URLs the location index already holds.
    pub fn pdf_urls(&self, rows: &Vec<crate::kb_urls::KbItem>) -> (r: Vec<String>)
        ensures
            views(r@) == pdf_urls_spec(
                crate::kb_urls::kb_views(rows@),
                self.ignore_existing,
                self.url_locations@,
            ),
    {
        let ghost rv = crate::kb_urls::kb_views(rows@);
        let n = rows.len();
        let mut r: Vec<String> = Vec::new();
        let mut i: usize = 0;
        while i < n
            invariant
                0 <= i <= n,
                n == rows@.len(),
                rv == crate::kb_urls::kb_views(rows@),
                views(r@) == pdf_urls_spec(
                    rv.take(i as int),
                    self.ignore_existing,
                    self.url_locations@,
                ),
            decreases n - i,
        {
            let ghost prev = r@;
            let mut keep = rows[i].pdf_include == 1;
            if keep && self.ignore_existing {
                let key = crate::text::trim_end_char(rows[i].url.as_str(), '/');
                if self.index_has_key(key) {
                    keep = false;
                }
            }
            if keep {
                r.push(rows[i].url.clone());
            }
            proof {
                assert(rv.take(i + 1).drop_last() =~= rv.take(i as int));
                assert(rv.take(i + 1).last() == rv[i as int]);
                if keep {
                    assert(views(r@) =~= views(prev).push(rv[i as int].0));
                }
            }
            i = i + 1;
        }
        proof {
            assert(rv.take(n as int) =~= rv);
        }
        r
    }

    /// Whether the location index holds an entry for `key`.
    pub fn index_has_key(&self, key: &str) -> (r: bool)
        ensures
            r == (lookup(self.url_locations@, key@) is Some),
    {
        proof {
            lemma_lookup_some_iff_key(self.url_locations@, key@);
        }
        let n = self.url_locations.len();
        let mut i: usize = 0;
        while i < n
            invariant
                0 <= i <= n,
                n == self.url_locations@.len(),
                forall|j: int| 0 <= j < i ==> self.url_locations@[j].0@ != key@,
            decreases n - i,
        {
            if crate::text::str_eq(self.url_locations[i].0.as_str(), key) {
                proof {
                    lemma_lookup_some_iff_key(self.url_locations@, key@);
                    assert(self.url_locations@[i as int].0@ == key@);
                    assert(exists|j: int|
                        0 <= j < self.url_locations@.len() && self.url_locations@[j].0@ == key@);
                }
                return true;
            }
            i = i + 1;
        }
        proof {
            if exists|j: int| 0 <= j < self.url_locations@.len() && self.url_locations@[j].0@
                == key@ {
                let w = choose|w: int|
                    0 <= w < self.url_locations@.len() && self.url_locations@[w].0@ == key@;
                assert(false);
            }
        }
        false
    }
}

/// Whether a URL's page should be read from the local mirror instead of
/// the network: only the resume strategy does so, and only when the
/// mapped path already exists.
pub fn use_local_copy(method: ScrapeMethod, path_exists: bool) -> (r: bool)
    ensures
        r == (method is Resume && path_exists),
{
    match method {
        ScrapeMethod::Resume => path_exists,
        _ => false,
    }
}

/// The single-document export list: rows flagged 1, skipping (in resume
/// mode) URLs the index already holds under their slash-trimmed form.
pub open spec fn pdf_urls_spec(
    rows: Seq<(Seq<char>, u8)>,
    ignore_existing: bool,
    locs: Seq<(String, String)>,
) -> Seq<Seq<char>>
    decreases rows.len(),
{
    if rows.len() == 0 {
        Seq::empty()
    } else {
        let rest = pdf_urls_spec(rows.drop_last(), ignore_existing, locs);
        let row = rows.last();
        if row.1 == 1 && !(ignore_existing && lookup(
            locs,
            crate::text::drop_trailing(row.0, '/'),
        ) is Some) {
            rest.push(row.0)
        } else {
            rest
        }
    }
}

/// The entries of a recent-changes page on or after the cutoff, in page
/// order.
pub open spec fn keep_recent(entries: Seq<(Seq<char>, Date)>, cutoff: Date) -> Seq<
    (Seq<char>, Date),
>
    decreases entries.len(),
{
    if entries.len() == 0 {
        Seq::empty()
    } else {
        let rest = keep_recent(entries.drop_last(), cutoff);
        if entries.last().1.spec_ge(cutoff) {
            rest.push(entries.last())
        } else {
            rest
        }
    }
}

/// Keep the entries dated on or after the cutoff; the second result says
/// whether the page also held older entries, the signal that pagination
/// may stop after this page.
pub fn filter_recent(entries: &Vec<(String, Date)>, cutoff: &Date) -> (r: (
    Vec<(String, Date)>,
    bool,
))
    ensures
        entry_views(r.0@) == keep_recent(entry_views(entries@), *cutoff),
        r.1 == (entries@.len() > r.0@.len()),
{
    let ghost ev = entry_views(entries@);
    let n = entries.len();
    let mut kept: Vec<(String, Date)> = Vec::new();
    let mut i: usize = 0;
    while i < n
        invariant
            0 <= i <= n,
            n == entries@.len(),
            ev == entry_views(entries@),
            kept@.len() <= i,
            entry_views(kept@) == keep_recent(ev.take(i as int), *cutoff),
        decreases n - i,
    {
        let ghost prev = kept@;
        let keep = entries[i].1.ge(cutoff);
        if keep {
            let u = entries[i].0.clone();
            let d = entries[i].1;
            kept.push((u, d));
        }
        proof {
            assert(ev.take(i + 1).drop_last() =~= ev.take(i as int));
            assert(ev.take(i + 1).last() == ev[i as int]);
            if keep {
                assert(entry_views(kept@) =~= entry_views(prev).push(ev[i as int]));
            }
        }
        i = i + 1;
    }
    proof {
        assert(ev.take(n as int) =~= ev);
    }
    let stop = entries.len() > kept.len();
    (kept, stop)
}

/// One step of the recent-changes pagination: the page's eligible
/// entries on or after the cutoff, and whether pagination may stop.
pub fn updated_urls_page(html: &str, cutoff: &Date) -> (r: (Vec<(String, Date)>, bool))
    ensures
        entry_views(r.0@) == keep_recent(recent_articles_spec(html@), *cutoff),
        r.1 == (recent_articles_spec(html@).len() > r.0@.len()),
{
    let all = scrape_recent_article_urls(html);
    let r = filter_recent(&all, cutoff);
    proof {
        assert(entry_views(all@).len() == all@.len());
    }
    r
}

/// The cutoff date of a run: the parsed last-run file, or the minimum
/// date when the file is absent or damaged.
pub fn last_run_cutoff(text: Option<&str>) -> (r: Date)
    ensures
        r == match text {
            Some(t) => match parse_date_spec(t@) {
                Some(d) => d,
                None => Date { year: 0, month: 1, day: 1 },
            },
            None => Date { year: 0, month: 1, day: 1 },
        },
{
    match text {
        Some(t) => {
            match parse_date(t) {
                Some(d) => d,
                None => Date::min_date(),
            }
        },
        None => Date::min_date(),
    }
}

/// The URLs of seed rows whose flag is nonzero, in order.
pub open spec fn include_urls(rows: Seq<(Seq<char>, u8)>) -> Seq<Seq<char>>
    decreases rows.len(),
{
    if rows.len() == 0 {
        Seq::empty()
    } else {
        let rest = include_urls(rows.drop_last());
        if rows.last().1 != 0 {
            rest.push(rows.last().0)
        } else {
            rest
        }
    }
}

/// The sequence with consecutive repeated elements collapsed to one.
pub open spec fn dedup_consecutive(s: Seq<Seq<char>>) -> Seq<Seq<char>>
    decreases s.len(),
{
    if s.len() <= 1 {
        s
    } else {
        let rest = dedup_consecutive(s.drop_last());
        if s.last() == s[s.len() - 2] {
            rest
        } else {
            rest.push(s.last())
        }
    }
}

/// The seed list of the locale-expansion export: every row with a
/// nonzero flag, consecutive duplicates collapsed.
pub fn pdf_langs_seed_urls(rows: &Vec<crate::kb_urls::KbItem>) -> (r: Vec<String>)
    ensures
        views(r@) == dedup_consecutive(include_urls(crate::kb_urls::kb_views(rows@))),
{
    let ghost rv = crate::kb_urls::kb_views(rows@);
    let n = rows.len();
    let mut picked: Vec<String> = Vec::new();
    let mut i: usize = 0;
    while i < n
        invariant
            0 <= i <= n,
            n == rows@.len(),
            rv == crate::kb_urls::kb_views(rows@),
            views(picked@) == include_urls(rv.take(i as int)),
        decreases n - i,
    {
        let ghost prev = picked@;
        let keep = rows[i].pdf_include != 0;
        if keep {
            picked.push(rows[i].url.clone());
        }
        proof {
            assert(rv.take(i + 1).drop_last() =~= rv.take(i as int));
            assert(rv.take(i + 1).last() == rv[i as int]);
            if keep {
                assert(views(picked@) =~= views(prev).push(rv[i as int].0));
            }
        }
        i = i + 1;
    }
    proof {
        assert(rv.take(n as int) =~= rv);
    }
    let ghost pv = views(picked@);
    let m = picked.len();
    let mut r: Vec<String> = Vec::new();
    let mut j: usize = 0;
    while j < m
        invariant
            0 <= j <= m,
            m == picked@.len(),
            pv == views(picked@),
            views(r@) == dedup_consecutive(pv.take(j as int)),
        decreases m - j,
    {
        let ghost prev = r@;
        let keep = if j == 0 {
            true
        } else {
            !crate::text::str_eq(picked[j].as_str(), picked[j - 1].as_str())
        };
        if keep {
            r.push(picked[j].clone());
        }
        proof {
            assert(pv.take(j + 1).drop_last() =~= pv.take(j as int));
            assert(pv.take(j + 1).last() == pv[j as int]);
            if j == 0 {
                assert(pv.take(1).len() == 1);
                assert(dedup_consecutive(pv.take(1)) =~= pv.take(1));
                assert(views(r@) =~= pv.take(1));
            } else {
                assert(pv.take(j + 1)[j - 1] == pv[j - 1]);
                if keep {
                    assert(views(r@) =~= views(prev).push(pv[j as int]));
                }
            }
        }
        j = j + 1;
    }
    proof {
        assert(pv.take(m as int) =~= pv);
    }
    r
}

/// The suffix of a URL after the canonical root: the URL truncated at
/// the first `?`, then stripped of `https://`, `mariadb.com/` and `kb/`
/// prefixes as often as they lead.
pub open spec fn url_suffix_spec(s: Seq<char>) -> Seq<char> {
    crate::text::strip_prefix_all(
        crate::text::strip_prefix_all(
            crate::text::strip_prefix_all(cut_at(s, '?'), "https://"@),
            "mariadb.com/"@,
        ),
        "kb/"@,
    )
}

/// The suffix of a URL after the canonical root.
pub fn get_url_suffix<'a>(url: &'a str) -> (r: &'a str)
    ensures
        r@ == url_suffix_spec(url@),
{
    let p = find_char(url, '?');
    proof {
        lemma_first_pos(url@, '?');
    }
    let a = url.substring_char(0, p);
    assert(a@ =~= cut_at(url@, '?'));
    let b = crate::text::trim_start_str(a, "https://");
    let c = crate::text::trim_start_str(b, "mariadb.com/");
    crate::text::trim_start_str(c, "kb/")
}

/// A path with its extension replaced: the old extension removed, and
/// `.` plus the new one appended when the new one is nonempty.
pub open spec fn set_extension(p: Seq<char>, ext: Seq<char>) -> Seq<char> {
    let stripped = crate::paths::remove_extension(p);
    if ext.len() == 0 {
        stripped
    } else {
        stripped + seq!['.'] + ext
    }
}

/// Where a fetched page is stored: the URL's suffix joined onto the base
/// directory, under the extension inferred from the response.
pub open spec fn url_storage_path_spec(base: Seq<char>, url: Seq<char>, ext: Seq<char>) -> Seq<
    char,
> {
    set_extension(crate::paths::path_join(base, url_suffix_spec(url)), ext)
}

/// Map a URL and an inferred extension to the page's storage path.
pub fn url_to_path(base_path: &str, url: &str, file_extention: &str) -> (r: String)
    ensures
        r@ == url_storage_path_spec(base_path@, url@, file_extention@),
{
    let sfx = get_url_suffix(url);
    let joined = crate::paths::join_path(base_path, sfx);
    let stripped = crate::paths::strip_path_extension(joined.as_str());
    let mut r = String::from_str(stripped);
    if file_extention.unicode_len() > 0 {
        r.append(".");
        proof {
            reveal_strlit(".");
        }
        r.append(file_extention);
        proof {
            assert(r@ =~= crate::paths::remove_extension(joined@) + seq!['.'] + file_extention@);
        }
    }
    r
}

/// The canonical URL a mirrored file stands for: the path with its
/// extension and the base directory removed, re-prefixed with the
/// canonical root.
pub open spec fn path_to_url_spec(base: Seq<char>, p: Seq<char>) -> Seq<char> {
    "https://mariadb.com/kb/"@ + crate::text::strip_prefix_all(
        crate::paths::remove_extension(p),
        base,
    )
}

/// Reconstruct the canonical URL of a mirrored file.
pub fn path_to_url(base_path: &str, path: &str) -> (r: String)
    ensures
        r@ == path_to_url_spec(base_path@, path@),
{
    let stripped = crate::paths::strip_path_extension(path);
    let rel = crate::text::trim_start_str(stripped, base_path);
    let mut r = String::from_str("https://mariadb.com/kb/");
    r.append(rel);
    r
}

/// Index entries whose URL holds no space or newline and whose path
/// holds no newline persist faithfully.
pub open spec fn wf_entry(e: (Seq<char>, Seq<char>)) -> bool {
    crate::text::absent(e.0, ' ') && crate::text::absent(e.0, '\n') && crate::text::absent(
        e.1,
        '\n',
    )
}

/// Index durability: a rendered location index parses back to exactly
/// the entries that were rendered, so every entry flushed to disk — in
/// particular the one recorded for the last successful fetch — is
/// recovered on the next load.
pub proof fn lemma_locations_roundtrip(locs: Seq<(Seq<char>, Seq<char>)>)
    requires
        forall|i: int| 0 <= i < locs.len() ==> wf_entry(#[trigger] locs[i]),
    ensures
        parse_locations_spec(render_locations_spec(locs)) == locs,
    decreases locs.len(),
{
    if locs.len() == 0 {
    } else {
        let e = locs[0];
        let line = render_line(e);
        assert(wf_entry(e));
        assert(crate::text::absent(seq![' '], '\n')) by {
            assert(seq![' '][0] == ' ');
        }
        crate::text::lemma_absent_concat(e.0, seq![' '], '\n');
        crate::text::lemma_absent_concat(e.0 + seq![' '], e.1, '\n');
        assert(crate::text::absent(line, '\n')) by {
            assert(line =~= (e.0 + seq![' ']) + e.1);
        }
        crate::text::lemma_first_pos_concat(e.0, seq![' '] + e.1, ' ');
        assert((seq![' '] + e.1)[0] == ' ');
        assert(first_pos(seq![' '] + e.1, ' ') == 0);
        assert(first_pos(line, ' ') == e.0.len()) by {
            assert(line =~= e.0 + (seq![' '] + e.1));
        }
        assert(parse_line(line) == Some((e.0, e.1))) by {
            assert(line.take(e.0.len() as int) =~= e.0);
            assert(line.skip(e.0.len() as int + 1) =~= e.1);
        }
        if locs.len() == 1 {
            let text = render_locations_spec(locs);
            assert(text == line);
            crate::text::lemma_first_pos_absent(line, '\n');
            assert(text.take(first_pos(text, '\n')) =~= line);
            assert(parse_locations_spec(text) =~= seq![(e.0, e.1)]);
            assert(parse_locations_spec(text) =~= locs);
        } else {
            let rest = render_locations_spec(locs.skip(1));
            let text = render_locations_spec(locs);
            assert(text == line + seq!['\n'] + rest);
            crate::text::lemma_first_pos_concat(line, seq!['\n'] + rest, '\n');
            assert((seq!['\n'] + rest)[0] == '\n');
            assert(first_pos(seq!['\n'] + rest, '\n') == 0);
            assert(first_pos(text, '\n') == line.len()) by {
                assert(text =~= line + (seq!['\n'] + rest));
            }
            assert(text.take(line.len() as int) =~= line);
            assert(text.skip(line.len() as int + 1) =~= rest);
            assert(forall|i: int|
                0 <= i < locs.skip(1).len() ==> wf_entry(#[trigger] locs.skip(1)[i]));
            lemma_locations_roundtrip(locs.skip(1));
            assert(first_pos(text, '\n') < text.len());
            assert(parse_locations_spec(text) =~= seq![(e.0, e.1)] + locs.skip(1));
            assert(parse_locations_spec(text) =~= locs);
        }
    }
}

/// Round trip of the path mapping: for a canonical URL `root + sfx` that
/// names an article (its slash-trimmed suffix nonempty), adds no
/// redundant leading slash, does not restate the root or the base
/// directory inside its suffix, and whose storage path carries no
/// inherent extension, reconstructing the URL from the stored path gives
/// the URL back, up to trailing slashes on either side.
pub proof fn lemma_url_path_roundtrip(base: Seq<char>, u: Seq<char>)
    requires
        base.len() > 0,
        base[base.len() - 1] == '/',
        match_at(u, crate::kb_utils::base_url(), 0),
        !match_at(u.skip(crate::kb_utils::base_url().len() as int), crate::kb_utils::base_url(), 0),
        (u.skip(crate::kb_utils::base_url().len() as int).len() > 0 ==> u.skip(
            crate::kb_utils::base_url().len() as int,
        )[0] != '/'),
        crate::text::drop_trailing(u.skip(crate::kb_utils::base_url().len() as int), '/').len()
            > 0,
        !crate::paths::has_extension(
            crate::paths::path_join(
                base,
                crate::text::drop_trailing(u.skip(crate::kb_utils::base_url().len() as int), '/'),
            ),
        ),
        !match_at(
            crate::text::drop_trailing(u.skip(crate::kb_utils::base_url().len() as int), '/'),
            base,
            0,
        ),
    ensures
        crate::text::drop_trailing(
            path_to_url_spec(
                base,
                crate::kb_utils::url_to_path_spec(base, crate::kb_utils::base_url(), u),
            ),
            '/',
        ) == crate::text::drop_trailing(u, '/'),
{
    let root = crate::kb_utils::base_url();
    let sfx = u.skip(root.len() as int);
    let tsfx = crate::text::drop_trailing(sfx, '/');
    crate::kb_utils::lemma_base_facts();

    // The stripped suffix of the URL is exactly sfx.
    assert(u =~= root + sfx);
    assert(crate::text::strip_prefix_all(u, root) == crate::text::strip_prefix_all(sfx, root))
        by {
        assert(u.skip(root.len() as int) == sfx);
    }
    assert(crate::text::strip_prefix_all(sfx, root) == sfx);
    assert(crate::text::drop_leading(sfx, '/') == sfx);

    // The storage path: base + tsfx + ".html".
    let p0 = crate::paths::path_join(base, tsfx);
    assert(p0 == base + tsfx);
    let path = crate::kb_utils::url_to_path_spec(base, root, u);
    assert(path == p0 + ".html"@);

    // Character facts about ".html".
    reveal_strlit(".html");
    assert(".html"@.len() == 5);
    assert(forall|i: int| 0 <= i < 5 ==> ".html"@[i] != '/');
    assert(".html"@[0] == '.');
    assert(forall|i: int| 1 <= i < 5 ==> ".html"@[i] != '.');

    // The file name of the storage path is the file name of p0 plus
    // ".html".
    crate::paths::lemma_file_name_start_props(p0);
    let k0 = crate::paths::file_name_start(p0);
    assert(crate::paths::file_name_start(path) == k0) by {
        assert(forall|i: int|
            p0.len() <= i < path.len() ==> path[i] == ".html"@[i - p0.len()]);
        assert(forall|i: int| k0 <= i < p0.len() ==> path[i] == p0[i]);
        assert(forall|i: int| k0 <= i < path.len() ==> path[i] != '/');
        if k0 > 0 {
            assert(path[k0 - 1] == p0[k0 - 1]);
        }
        crate::paths::lemma_file_name_start(path, k0);
    }

    // p0 ends with a character that is not '/', so its file name is
    // nonempty.
    assert(tsfx.len() > 0);
    assert(tsfx[tsfx.len() - 1] != '/') by {
        crate::text::lemma_drop_trailing_last(sfx, '/');
    }
    assert(k0 < p0.len()) by {
        assert(p0[p0.len() - 1] == tsfx[tsfx.len() - 1]);
        if k0 == p0.len() {
            crate::paths::lemma_file_name_start_props(p0);
        }
    }

    // The last dot of the storage path's file name is the one before
    // "html".
    let f = path.skip(k0);
    let fname0 = p0.skip(k0);
    assert(f =~= fname0 + ".html"@);
    assert(crate::paths::last_dot(f) == fname0.len()) by {
        assert(f[fname0.len() as int] == '.');
        assert(forall|i: int|
            fname0.len() < i < f.len() ==> f[i] == ".html"@[i - fname0.len()]);
        crate::paths::lemma_last_dot(f, fname0.len() as int);
    }
    assert(fname0.len() > 0);

    // Removing the extension gives p0 back.
    assert(crate::paths::has_extension(path));
    assert(crate::paths::remove_extension(path) =~= p0);

    // Stripping the base directory gives tsfx back.
    assert(match_at(p0, base, 0)) by {
        assert(p0.subrange(0, base.len() as int) =~= base);
    }
    assert(crate::text::strip_prefix_all(p0, base) == crate::text::strip_prefix_all(tsfx, base))
        by {
        assert(p0.skip(base.len() as int) =~= tsfx);
    }
    assert(crate::text::strip_prefix_all(tsfx, base) == tsfx);

    // The reconstructed URL.
    let back = path_to_url_spec(base, path);
    assert(back == root + tsfx);

    // Both sides trim to root + tsfx.
    assert(crate::text::drop_trailing(back, '/') == back) by {
        assert(back[back.len() - 1] == tsfx[tsfx.len() - 1]);
    }
    crate::text::lemma_drop_trailing_concat(root, sfx, '/');
    assert(crate::text::drop_trailing(u, '/') == root + tsfx);
}

} // verus!
