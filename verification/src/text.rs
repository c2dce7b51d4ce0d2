//! Verified string utilities: character search, prefix/suffix/substring
//! tests, and trimming, each specified over `Seq<char>` views.

use vstd::prelude::*;

verus! {

/// Index of the first occurrence of `c` in `s`, or `s.len()` if absent.
pub open spec fn first_pos(s: Seq<char>, c: char) -> int
    decreases s.len(),
{
    if s.len() == 0 {
        0
    } else if s[0] == c {
        0
    } else {
        1 + first_pos(s.skip(1), c)
    }
}

/// `c` does not occur in `s`.
pub open spec fn absent(s: Seq<char>, c: char) -> bool {
    forall|i: int| 0 <= i < s.len() ==> s[i] != c
}

pub proof fn lemma_first_pos(s: Seq<char>, c: char)
    ensures
        0 <= first_pos(s, c) <= s.len(),
        first_pos(s, c) < s.len() ==> s[first_pos(s, c)] == c,
        forall|i: int| 0 <= i < first_pos(s, c) ==> s[i] != c,
    decreases s.len(),
{
    if s.len() == 0 {
    } else if s[0] == c {
    } else {
        lemma_first_pos(s.skip(1), c);
        assert forall|i: int| 0 <= i < first_pos(s, c) implies s[i] != c by {
            if i > 0 {
                assert(s.skip(1)[i - 1] == s[i]);
            }
        }
    }
}

/// If `c` is absent from `s`, its first position is the length.
pub proof fn lemma_first_pos_absent(s: Seq<char>, c: char)
    requires
        absent(s, c),
    ensures
        first_pos(s, c) == s.len(),
{
    lemma_first_pos(s, c);
}

/// Index of the first occurrence of `c` in `s`, or the character count of
/// `s` when `c` does not occur.
pub fn find_char(s: &str, c: char) -> (r: usize)
    ensures
        r as int == first_pos(s@, c),
{
    let n = s.unicode_len();
    let mut i: usize = 0;
    while i < n
        invariant
            0 <= i <= n,
            n == s@.len(),
            forall|j: int| 0 <= j < i ==> s@[j] != c,
        decreases n - i,
    {
        if s.get_char(i) == c {
            proof {
                lemma_first_pos(s@, c);
            }
            return i;
        }
        i = i + 1;
    }
    proof {
        lemma_first_pos(s@, c);
    }
    i
}

/// `s` truncated at the first occurrence of `c`.
pub open spec fn cut_at(s: Seq<char>, c: char) -> Seq<char> {
    s.take(first_pos(s, c))
}

/// `p` occurs in `s` starting at index `i`.
pub open spec fn match_at(s: Seq<char>, p: Seq<char>, i: int) -> bool {
    0 <= i && i + p.len() <= s.len() && s.subrange(i, i + p.len()) == p
}

/// `p` occurs somewhere in `s`.
pub open spec fn contains_seq(s: Seq<char>, p: Seq<char>) -> bool {
    exists|i: int| match_at(s, p, i)
}

/// Whether `p` occurs in `s` starting at character index `off`.
pub fn matches_at(s: &str, p: &str, off: usize) -> (r: bool)
    ensures
        r == match_at(s@, p@, off as int),
{
    let n = s.unicode_len();
    let m = p.unicode_len();
    if off > n || m > n - off {
        return false;
    }
    let mut j: usize = 0;
    while j < m
        invariant
            0 <= j <= m,
            m == p@.len(),
            n == s@.len(),
            off + m <= n,
            forall|k: int| 0 <= k < j ==> s@[off + k] == p@[k],
        decreases m - j,
    {
        if s.get_char(off + j) != p.get_char(j) {
            assert(!match_at(s@, p@, off as int)) by {
                assert(s@.subrange(off as int, off as int + m as int)[j as int] == s@[off + j]);
            }
            return false;
        }
        j = j + 1;
    }
    assert(s@.subrange(off as int, off as int + m as int) =~= p@);
    true
}

/// Whether `p` is a suffix of `s`.
pub fn ends_with_str(s: &str, p: &str) -> (r: bool)
    ensures
        r == (p@.len() <= s@.len() && match_at(s@, p@, s@.len() - p@.len())),
{
    let n = s.unicode_len();
    let m = p.unicode_len();
    if m > n {
        return false;
    }
    matches_at(s, p, n - m)
}

/// Whether `p` occurs anywhere in `s`.
pub fn contains_str(s: &str, p: &str) -> (r: bool)
    ensures
        r == contains_seq(s@, p@),
{
    let n = s.unicode_len();
    let m = p.unicode_len();
    if m > n {
        assert forall|i: int| !match_at(s@, p@, i) by {}
        return false;
    }
    if m == 0 {
        let r = matches_at(s, p, 0);
        assert(r ==> contains_seq(s@, p@));
        assert(contains_seq(s@, p@) ==> r) by {
            if contains_seq(s@, p@) {
                let i = choose|i: int| match_at(s@, p@, i);
                assert(s@.subrange(0, 0) =~= s@.subrange(i, i));
            }
        }
        return r;
    }
    let mut i: usize = 0;
    while i <= n - m
        invariant
            0 <= i <= n - m + 1,
            0 < m <= n,
            m == p@.len(),
            n == s@.len(),
            forall|k: int| 0 <= k < i ==> !match_at(s@, p@, k),
        decreases n - i,
    {
        if matches_at(s, p, i) {
            return true;
        }
        i = i + 1;
    }
    assert forall|k: int| !match_at(s@, p@, k) by {
        if 0 <= k < i {
        } else if k >= i {
            assert(k + m > n);
        }
    }
    false
}

/// `s` with every leading occurrence of `c` removed.
pub open spec fn drop_leading(s: Seq<char>, c: char) -> Seq<char>
    decreases s.len(),
{
    if s.len() > 0 && s[0] == c {
        drop_leading(s.skip(1), c)
    } else {
        s
    }
}

pub proof fn lemma_drop_leading(s: Seq<char>, c: char, k: int)
    requires
        0 <= k <= s.len(),
        forall|i: int| 0 <= i < k ==> s[i] == c,
        k < s.len() ==> s[k] != c,
    ensures
        drop_leading(s, c) == s.skip(k),
    decreases k,
{
    if k == 0 {
        assert(s.skip(0) =~= s);
    } else {
        lemma_drop_leading(s.skip(1), c, k - 1);
        assert(s.skip(1).skip(k - 1) =~= s.skip(k));
    }
}

/// `s` with every trailing occurrence of `c` removed.
pub open spec fn drop_trailing(s: Seq<char>, c: char) -> Seq<char>
    decreases s.len(),
{
    if s.len() > 0 && s[s.len() - 1] == c {
        drop_trailing(s.drop_last(), c)
    } else {
        s
    }
}

pub proof fn lemma_drop_trailing(s: Seq<char>, c: char, k: int)
    requires
        0 <= k <= s.len(),
        forall|i: int| k <= i < s.len() ==> s[i] == c,
        k > 0 ==> s[k - 1] != c,
    ensures
        drop_trailing(s, c) == s.take(k),
    decreases s.len(),
{
    if s.len() == k {
        assert(s.take(k) =~= s);
    } else {
        lemma_drop_trailing(s.drop_last(), c, k);
        assert(s.drop_last().take(k) =~= s.take(k));
    }
}

/// Remove every leading occurrence of `c`.
pub fn trim_start_char<'a>(s: &'a str, c: char) -> (r: &'a str)
    ensures
        r@ == drop_leading(s@, c),
{
    let n = s.unicode_len();
    let mut i: usize = 0;
    while i < n && s.get_char(i) == c
        invariant
            0 <= i <= n,
            n == s@.len(),
            forall|j: int| 0 <= j < i ==> s@[j] == c,
        decreases n - i,
    {
        i = i + 1;
    }
    proof {
        lemma_drop_leading(s@, c, i as int);
    }
    let r = s.substring_char(i, n);
    assert(r@ =~= s@.skip(i as int));
    r
}

/// Remove every trailing occurrence of `c`.
pub fn trim_end_char<'a>(s: &'a str, c: char) -> (r: &'a str)
    ensures
        r@ == drop_trailing(s@, c),
{
    let n = s.unicode_len();
    let mut j: usize = n;
    while j > 0 && s.get_char(j - 1) == c
        invariant
            0 <= j <= n,
            n == s@.len(),
            forall|k: int| j <= k < n ==> s@[k] == c,
        decreases j,
    {
        j = j - 1;
    }
    proof {
        lemma_drop_trailing(s@, c, j as int);
    }
    let r = s.substring_char(0, j);
    assert(r@ =~= s@.take(j as int));
    r
}

/// Remove every leading and trailing occurrence of `c`.
pub fn trim_char<'a>(s: &'a str, c: char) -> (r: &'a str)
    ensures
        r@ == drop_trailing(drop_leading(s@, c), c),
{
    trim_end_char(trim_start_char(s, c), c)
}

/// A nonempty result of trailing-character trimming does not end in the
/// trimmed character.
pub proof fn lemma_drop_trailing_last(s: Seq<char>, c: char)
    ensures
        drop_trailing(s, c).len() > 0 ==> drop_trailing(s, c)[drop_trailing(s, c).len() - 1] != c,
    decreases s.len(),
{
    if s.len() > 0 && s[s.len() - 1] == c {
        lemma_drop_trailing_last(s.drop_last(), c);
    }
}

/// Trailing-character trimming reaches only the right-hand part of a
/// concatenation as long as that part does not vanish.
pub proof fn lemma_drop_trailing_concat(a: Seq<char>, b: Seq<char>, c: char)
    requires
        drop_trailing(b, c).len() > 0,
    ensures
        drop_trailing(a + b, c) == a + drop_trailing(b, c),
    decreases b.len(),
{
    if b.len() == 0 {
    } else if b[b.len() - 1] == c {
        assert((a + b).drop_last() =~= a + b.drop_last());
        lemma_drop_trailing_concat(a, b.drop_last(), c);
    } else {
        assert((a + b)[(a + b).len() - 1] == b[b.len() - 1]);
    }
}

/// The whitespace characters recognized by trimming, the set matched by
/// `char::is_whitespace`.
pub open spec fn is_space(c: char) -> bool {
    (c as u32) == 0x9 || (c as u32) == 0xA || (c as u32) == 0xB || (c as u32) == 0xC || (c
        as u32) == 0xD || (c as u32) == 0x20 || (c as u32) == 0x85 || (c as u32) == 0xA0 || (c
        as u32) == 0x1680 || (0x2000 <= (c as u32) && (c as u32) <= 0x200A) || (c as u32)
        == 0x2028 || (c as u32) == 0x2029 || (c as u32) == 0x202F || (c as u32) == 0x205F || (c
        as u32) == 0x3000
}

/// Whitespace test on a character.
pub fn is_space_char(c: char) -> (r: bool)
    ensures
        r == is_space(c),
{
    let u = c as u32;
    u == 0x9 || u == 0xA || u == 0xB || u == 0xC || u == 0xD || u == 0x20 || u == 0x85 || u == 0xA0
        || u == 0x1680 || (0x2000 <= u && u <= 0x200A) || u == 0x2028 || u == 0x2029 || u == 0x202F
        || u == 0x205F || u == 0x3000
}

/// `s` with leading whitespace removed.
pub open spec fn drop_leading_space(s: Seq<char>) -> Seq<char>
    decreases s.len(),
{
    if s.len() > 0 && is_space(s[0]) {
        drop_leading_space(s.skip(1))
    } else {
        s
    }
}

/// `s` with trailing whitespace removed.
pub open spec fn drop_trailing_space(s: Seq<char>) -> Seq<char>
    decreases s.len(),
{
    if s.len() > 0 && is_space(s[s.len() - 1]) {
        drop_trailing_space(s.drop_last())
    } else {
        s
    }
}

/// `s` with whitespace removed on both ends.
pub open spec fn trim_spec(s: Seq<char>) -> Seq<char> {
    drop_trailing_space(drop_leading_space(s))
}

pub proof fn lemma_drop_leading_space(s: Seq<char>, k: int)
    requires
        0 <= k <= s.len(),
        forall|i: int| 0 <= i < k ==> is_space(s[i]),
        k < s.len() ==> !is_space(s[k]),
    ensures
        drop_leading_space(s) == s.skip(k),
    decreases k,
{
    if k == 0 {
        assert(s.skip(0) =~= s);
    } else {
        lemma_drop_leading_space(s.skip(1), k - 1);
        assert(s.skip(1).skip(k - 1) =~= s.skip(k));
    }
}

pub proof fn lemma_drop_trailing_space(s: Seq<char>, k: int)
    requires
        0 <= k <= s.len(),
        forall|i: int| k <= i < s.len() ==> is_space(s[i]),
        k > 0 ==> !is_space(s[k - 1]),
    ensures
        drop_trailing_space(s) == s.take(k),
    decreases s.len(),
{
    if s.len() == k {
        assert(s.take(k) =~= s);
    } else {
        lemma_drop_trailing_space(s.drop_last(), k);
        assert(s.drop_last().take(k) =~= s.take(k));
    }
}

/// Remove whitespace on both ends, as `str::trim` does.
pub fn trim_spaces<'a>(s: &'a str) -> (r: &'a str)
    ensures
        r@ == trim_spec(s@),
{
    let n = s.unicode_len();
    let mut i: usize = 0;
    while i < n && is_space_char(s.get_char(i))
        invariant
            0 <= i <= n,
            n == s@.len(),
            forall|j: int| 0 <= j < i ==> is_space(s@[j]),
        decreases n - i,
    {
        i = i + 1;
    }
    proof {
        lemma_drop_leading_space(s@, i as int);
    }
    let mut j: usize = n;
    while j > i && is_space_char(s.get_char(j - 1))
        invariant
            i <= j <= n,
            n == s@.len(),
            forall|k: int| j <= k < n ==> is_space(s@[k]),
        decreases j,
    {
        j = j - 1;
    }
    proof {
        let t = s@.skip(i as int);
        lemma_drop_trailing_space(t, j - i);
        assert(t.take(j - i) =~= s@.subrange(i as int, j as int));
    }
    s.substring_char(i, j)
}

/// `s` with `p` removed once from the front, when it is a prefix.
pub open spec fn strip_prefix(s: Seq<char>, p: Seq<char>) -> Seq<char> {
    if match_at(s, p, 0) {
        s.skip(p.len() as int)
    } else {
        s
    }
}

/// Remove `p` from the front of `s` at most once.
pub fn strip_prefix_once<'a>(s: &'a str, p: &str) -> (r: &'a str)
    ensures
        r@ == strip_prefix(s@, p@),
{
    if matches_at(s, p, 0) {
        let r = s.substring_char(p.unicode_len(), s.unicode_len());
        assert(r@ =~= s@.skip(p@.len() as int));
        r
    } else {
        s
    }
}

/// `s` with `p` removed from the front as often as it is a prefix.
pub open spec fn strip_prefix_all(s: Seq<char>, p: Seq<char>) -> Seq<char>
    decreases s.len(),
{
    if p.len() > 0 && match_at(s, p, 0) {
        strip_prefix_all(s.skip(p.len() as int), p)
    } else {
        s
    }
}

/// Remove `p` from the front of `s` as often as it is a prefix, as
/// `str::trim_start_matches` does.
pub fn trim_start_str<'a>(s: &'a str, p: &str) -> (r: &'a str)
    ensures
        r@ == strip_prefix_all(s@, p@),
{
    let m = p.unicode_len();
    if m == 0 {
        return s;
    }
    let mut cur: &'a str = s;
    while matches_at(cur, p, 0)
        invariant
            m == p@.len(),
            m > 0,
            strip_prefix_all(cur@, p@) == strip_prefix_all(s@, p@),
        decreases cur@.len(),
    {
        let next = cur.substring_char(m, cur.unicode_len());
        assert(next@ =~= cur@.skip(m as int));
        cur = next;
    }
    cur
}

/// Exact string equality over views.
pub fn str_eq(a: &str, b: &str) -> (r: bool)
    ensures
        r == (a@ == b@),
{
    let n = a.unicode_len();
    if n != b.unicode_len() {
        return false;
    }
    let r = matches_at(a, b, 0);
    proof {
        if r {
            assert(a@.subrange(0, b@.len() as int) =~= a@);
        }
        if a@ == b@ {
            assert(a@.subrange(0, b@.len() as int) =~= b@);
        }
    }
    r
}

/// Index of the first occurrence of substring `p` in `s`; `s.len()` when
/// `p` does not occur.
pub open spec fn sub_pos(s: Seq<char>, p: Seq<char>) -> int
    decreases s.len(),
{
    if match_at(s, p, 0) {
        0
    } else if s.len() == 0 {
        0
    } else {
        1 + sub_pos(s.skip(1), p)
    }
}

pub proof fn lemma_sub_pos(s: Seq<char>, p: Seq<char>)
    ensures
        0 <= sub_pos(s, p) <= s.len(),
        contains_seq(s, p) ==> match_at(s, p, sub_pos(s, p)),
        forall|i: int| 0 <= i < sub_pos(s, p) ==> !match_at(s, p, i),
        !contains_seq(s, p) ==> sub_pos(s, p) == s.len(),
    decreases s.len(),
{
    if match_at(s, p, 0) {
    } else if s.len() == 0 {
        assert forall|i: int| !match_at(s, p, i) by {
            if match_at(s, p, i) {
                assert(i == 0 && p.len() == 0);
            }
        }
    } else {
        lemma_sub_pos(s.skip(1), p);
        assert forall|i: int| 1 <= i implies match_at(s, p, i) == match_at(s.skip(1), p, i - 1) by {
            if match_at(s, p, i) {
                assert(s.skip(1).subrange(i - 1, i - 1 + p.len()) =~= s.subrange(i, i + p.len()));
            }
            if match_at(s.skip(1), p, i - 1) {
                assert(s.subrange(i, i + p.len()) =~= s.skip(1).subrange(i - 1, i - 1 + p.len()));
            }
        }
        if contains_seq(s, p) {
            let w = choose|w: int| match_at(s, p, w);
            assert(w >= 1);
            assert(match_at(s.skip(1), p, w - 1));
            assert(contains_seq(s.skip(1), p));
        }
        if contains_seq(s.skip(1), p) {
            let w = choose|w: int| match_at(s.skip(1), p, w);
            assert(match_at(s, p, w + 1));
            assert(contains_seq(s, p));
        }
    }
}

/// Character index of the first occurrence of `p` in `s`, or the length
/// of `s` when `p` does not occur.
pub fn find_str(s: &str, p: &str) -> (r: usize)
    ensures
        r as int == sub_pos(s@, p@),
{
    let n = s.unicode_len();
    let mut i: usize = 0;
    while i < n
        invariant
            0 <= i <= n,
            n == s@.len(),
            forall|j: int| 0 <= j < i ==> !match_at(s@, p@, j),
        decreases n - i,
    {
        if matches_at(s, p, i) {
            proof {
                lemma_sub_pos(s@, p@);
            }
            return i;
        }
        i = i + 1;
    }
    if matches_at(s, p, n) {
        proof {
            lemma_sub_pos(s@, p@);
        }
        return n;
    }
    proof {
        lemma_sub_pos(s@, p@);
        assert(!contains_seq(s@, p@)) by {
            if contains_seq(s@, p@) {
                let w = choose|w: int| match_at(s@, p@, w);
                assert(0 <= w <= n);
            }
        }
    }
    n
}

/// `s` with every occurrence of `c` removed.
pub open spec fn remove_char(s: Seq<char>, c: char) -> Seq<char>
    decreases s.len(),
{
    if s.len() == 0 {
        Seq::empty()
    } else if s.last() == c {
        remove_char(s.drop_last(), c)
    } else {
        remove_char(s.drop_last(), c).push(s.last())
    }
}

/// Copy `s`, leaving out every occurrence of `c`.
pub fn remove_char_str(s: &str, c: char) -> (r: String)
    ensures
        r@ == remove_char(s@, c),
{
    let n = s.unicode_len();
    let mut r = String::new();
    let mut i: usize = 0;
    while i < n
        invariant
            0 <= i <= n,
            n == s@.len(),
            r@ == remove_char(s@.take(i as int), c),
        decreases n - i,
    {
        let ghost prev = r@;
        if s.get_char(i) != c {
            let piece = s.substring_char(i, i + 1);
            assert(piece@ =~= seq![s@[i as int]]);
            r.append(piece);
        }
        proof {
            assert(s@.take(i + 1).drop_last() =~= s@.take(i as int));
            assert(s@.take(i + 1).last() == s@[i as int]);
            if s@[i as int] != c {
                assert(r@ =~= prev.push(s@[i as int]));
            }
        }
        i = i + 1;
    }
    proof {
        assert(s@.take(n as int) =~= s@);
    }
    r
}

/// A character absent from two strings is absent from their concatenation.
pub proof fn lemma_absent_concat(a: Seq<char>, b: Seq<char>, c: char)
    requires
        absent(a, c),
        absent(b, c),
    ensures
        absent(a + b, c),
{
    assert forall|i: int| 0 <= i < (a + b).len() implies (a + b)[i] != c by {
        if i < a.len() {
            assert((a + b)[i] == a[i]);
        } else {
            assert((a + b)[i] == b[i - a.len()]);
        }
    }
}

/// The first occurrence of `c` in `a + b` lies in `b` when `c` is absent
/// from `a`.
pub proof fn lemma_first_pos_concat(a: Seq<char>, b: Seq<char>, c: char)
    requires
        absent(a, c),
    ensures
        first_pos(a + b, c) == a.len() + first_pos(b, c),
    decreases a.len(),
{
    if a.len() == 0 {
        assert(a + b =~= b);
    } else {
        assert((a + b)[0] == a[0]);
        assert(absent(a.skip(1), c)) by {
            assert(forall|i: int| 0 <= i < a.skip(1).len() ==> a.skip(1)[i] == a[i + 1]);
        }
        lemma_first_pos_concat(a.skip(1), b, c);
        assert((a + b).skip(1) =~= a.skip(1) + b);
    }
}

/// Truncating at the first occurrence of `c` leaves no occurrence of `c`.
pub proof fn lemma_cut_absent(s: Seq<char>, c: char)
    ensures
        absent(s.take(first_pos(s, c)), c),
{
    lemma_first_pos(s, c);
}

/// Truncation keeps the absence of any other character.
pub proof fn lemma_take_absent(s: Seq<char>, k: int, c: char)
    requires
        absent(s, c),
        0 <= k <= s.len(),
    ensures
        absent(s.take(k), c),
{
}

/// When `c` is absent, truncating at its first position is the identity.
pub proof fn lemma_cut_all(s: Seq<char>, c: char)
    requires
        absent(s, c),
    ensures
        s.take(first_pos(s, c)) == s,
{
    lemma_first_pos_absent(s, c);
    assert(s.take(s.len() as int) =~= s);
}

/// Removing leading characters keeps the absence of any character.
pub proof fn lemma_drop_leading_absent(s: Seq<char>, cdrop: char, c: char)
    requires
        absent(s, c),
    ensures
        absent(drop_leading(s, cdrop), c),
    decreases s.len(),
{
    if s.len() > 0 && s[0] == cdrop {
        assert(absent(s.skip(1), c)) by {
            assert(forall|i: int| 0 <= i < s.skip(1).len() ==> s.skip(1)[i] == s[i + 1]);
        }
        lemma_drop_leading_absent(s.skip(1), cdrop, c);
    }
}

/// Stripping a prefix keeps the absence of any character.
pub proof fn lemma_strip_prefix_absent(s: Seq<char>, p: Seq<char>, c: char)
    requires
        absent(s, c),
    ensures
        absent(strip_prefix(s, p), c),
{
    if match_at(s, p, 0) {
        assert(forall|i: int|
            0 <= i < s.skip(p.len() as int).len() ==> s.skip(p.len() as int)[i] == s[i + p.len()]);
    }
}

/// Dropping leading whitespace keeps the absence of any character.
pub proof fn lemma_dls_absent(s: Seq<char>, c: char)
    requires
        absent(s, c),
    ensures
        absent(drop_leading_space(s), c),
    decreases s.len(),
{
    if s.len() > 0 && is_space(s[0]) {
        assert(absent(s.skip(1), c)) by {
            assert(forall|i: int| 0 <= i < s.skip(1).len() ==> s.skip(1)[i] == s[i + 1]);
        }
        lemma_dls_absent(s.skip(1), c);
    }
}

/// Dropping trailing whitespace keeps the absence of any character.
pub proof fn lemma_dts_absent(s: Seq<char>, c: char)
    requires
        absent(s, c),
    ensures
        absent(drop_trailing_space(s), c),
    decreases s.len(),
{
    if s.len() > 0 && is_space(s[s.len() - 1]) {
        lemma_dts_absent(s.drop_last(), c);
    }
}

/// Trimming keeps the absence of any character.
pub proof fn lemma_trim_absent(s: Seq<char>, c: char)
    requires
        absent(s, c),
    ensures
        absent(trim_spec(s), c),
{
    lemma_dls_absent(s, c);
    lemma_dts_absent(drop_leading_space(s), c);
}

/// A nonempty result of dropping leading whitespace starts with a
/// non-whitespace character.
pub proof fn lemma_dls_first(s: Seq<char>)
    ensures
        drop_leading_space(s).len() > 0 ==> !is_space(drop_leading_space(s)[0]),
    decreases s.len(),
{
    if s.len() > 0 && is_space(s[0]) {
        lemma_dls_first(s.skip(1));
    }
}

/// A nonempty result of dropping trailing whitespace ends with a
/// non-whitespace character.
pub proof fn lemma_dts_last(s: Seq<char>)
    ensures
        drop_trailing_space(s).len() > 0 ==> !is_space(drop_trailing_space(s)[drop_trailing_space(
            s,
        ).len() - 1]),
    decreases s.len(),
{
    if s.len() > 0 && is_space(s[s.len() - 1]) {
        lemma_dts_last(s.drop_last());
    }
}

/// Dropping trailing whitespace keeps the first character.
pub proof fn lemma_dts_first(s: Seq<char>)
    ensures
        drop_trailing_space(s).len() > 0 ==> s.len() > 0 && drop_trailing_space(s)[0] == s[0],
    decreases s.len(),
{
    if s.len() > 0 && is_space(s[s.len() - 1]) {
        lemma_dts_first(s.drop_last());
    }
}

/// Trimming whitespace is idempotent.
pub proof fn lemma_trim_idempotent(s: Seq<char>)
    ensures
        trim_spec(trim_spec(s)) == trim_spec(s),
{
    let d = drop_leading_space(s);
    let t = drop_trailing_space(d);
    lemma_dls_first(s);
    lemma_dts_first(d);
    lemma_dts_last(d);
    if t.len() > 0 {
        assert(!is_space(t[0]));
        assert(drop_leading_space(t) == t);
        assert(drop_trailing_space(t) == t);
    } else {
        assert(drop_leading_space(t) == t);
        assert(drop_trailing_space(t) == t);
    }
}

} // verus!
