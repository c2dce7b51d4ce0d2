//! Verified model of on-disk storage paths.
//!
//! A path is a plain string whose components are separated by `/`; no
//! normalization of `.` or `..` components is performed. The final
//! component is the file name; its extension is the part after its last
//! `.`, provided that dot is not the name's first character.

use vstd::prelude::*;

verus! {

/// Join a relative component onto a base directory, inserting a `/`
/// separator when the base does not already end with one.
pub open spec fn path_join(base: Seq<char>, rel: Seq<char>) -> Seq<char> {
    if base.len() > 0 && base[base.len() - 1] == '/' {
        base + rel
    } else {
        base + seq!['/'] + rel
    }
}

/// Index where the final path component begins: just after the last `/`,
/// or 0 when the path has no `/`.
pub open spec fn file_name_start(p: Seq<char>) -> int
    decreases p.len(),
{
    if p.len() == 0 {
        0
    } else if p[p.len() - 1] == '/' {
        p.len() as int
    } else {
        file_name_start(p.drop_last())
    }
}

/// Index of the last `.` in `f`, or -1 when `f` has none.
pub open spec fn last_dot(f: Seq<char>) -> int
    decreases f.len(),
{
    if f.len() == 0 {
        -1
    } else if f[f.len() - 1] == '.' {
        f.len() - 1
    } else {
        last_dot(f.drop_last())
    }
}

/// Whether the path's file name carries an extension: a `.` that is not
/// the name's first character.
pub open spec fn has_extension(p: Seq<char>) -> bool {
    last_dot(p.skip(file_name_start(p))) >= 1
}

/// The path with its extension (the final `.` of the file name and what
/// follows) removed; unchanged when there is none.
pub open spec fn remove_extension(p: Seq<char>) -> Seq<char> {
    if has_extension(p) {
        p.take(file_name_start(p) + last_dot(p.skip(file_name_start(p))))
    } else {
        p
    }
}

pub proof fn lemma_file_name_start(p: Seq<char>, k: int)
    requires
        0 <= k <= p.len(),
        forall|i: int| k <= i < p.len() ==> p[i] != '/',
        k > 0 ==> p[k - 1] == '/',
    ensures
        file_name_start(p) == k,
    decreases p.len(),
{
    if p.len() == 0 {
    } else if p[p.len() - 1] == '/' {
        assert(k == p.len());
    } else {
        lemma_file_name_start(p.drop_last(), k);
    }
}

pub proof fn lemma_last_dot(f: Seq<char>, k: int)
    requires
        -1 <= k < f.len(),
        forall|i: int| k < i < f.len() ==> f[i] != '.',
        k >= 0 ==> f[k] == '.',
    ensures
        last_dot(f) == k,
    decreases f.len(),
{
    if f.len() == 0 {
    } else if f[f.len() - 1] == '.' {
        assert(k == f.len() - 1);
    } else {
        lemma_last_dot(f.drop_last(), k);
    }
}

/// Properties of `file_name_start`: it follows the last separator, and the
/// file name itself holds no separator.
pub proof fn lemma_file_name_start_props(p: Seq<char>)
    ensures
        0 <= file_name_start(p) <= p.len(),
        forall|i: int| file_name_start(p) <= i < p.len() ==> p[i] != '/',
        file_name_start(p) > 0 ==> p[file_name_start(p) - 1] == '/',
    decreases p.len(),
{
    if p.len() == 0 {
    } else if p[p.len() - 1] == '/' {
    } else {
        lemma_file_name_start_props(p.drop_last());
        assert forall|i: int| file_name_start(p) <= i < p.len() implies p[i] != '/' by {
            if i < p.len() - 1 {
                assert(p.drop_last()[i] == p[i]);
            }
        }
    }
}

/// Character index where the final component of `p` begins.
pub fn file_name_start_at(p: &str) -> (r: usize)
    ensures
        r as int == file_name_start(p@),
        r <= p@.len(),
{
    let n = p.unicode_len();
    let mut st: usize = n;
    while st > 0 && p.get_char(st - 1) != '/'
        invariant
            0 <= st <= n,
            n == p@.len(),
            forall|k: int| st <= k < n ==> p@[k] != '/',
        decreases st,
    {
        st = st - 1;
    }
    proof {
        lemma_file_name_start(p@, st as int);
    }
    st
}

/// Whether the path's file name carries an extension.
pub fn path_has_extension(p: &str) -> (r: bool)
    ensures
        r == has_extension(p@),
{
    let n = p.unicode_len();
    let st = file_name_start_at(p);
    let mut j: usize = n;
    while j > st && p.get_char(j - 1) != '.'
        invariant
            st <= j <= n,
            st as int == file_name_start(p@),
            n == p@.len(),
            forall|k: int| j <= k < n ==> p@[k] != '.',
        decreases j,
    {
        j = j - 1;
    }
    proof {
        let f = p@.skip(st as int);
        if j > st {
            lemma_last_dot(f, j - 1 - st);
        } else {
            lemma_last_dot(f, -1);
        }
    }
    j - st >= 2
}

/// The path with its extension removed, as `Path::with_extension("")`
/// computes it in this model.
pub fn strip_path_extension<'a>(p: &'a str) -> (r: &'a str)
    ensures
        r@ == remove_extension(p@),
{
    let n = p.unicode_len();
    let st = file_name_start_at(p);
    let mut j: usize = n;
    while j > st && p.get_char(j - 1) != '.'
        invariant
            st <= j <= n,
            st as int == file_name_start(p@),
            n == p@.len(),
            forall|k: int| j <= k < n ==> p@[k] != '.',
        decreases j,
    {
        j = j - 1;
    }
    proof {
        let f = p@.skip(st as int);
        if j > st {
            lemma_last_dot(f, j - 1 - st);
        } else {
            lemma_last_dot(f, -1);
        }
    }
    if j - st >= 2 {
        let r = p.substring_char(0, j - 1);
        assert(r@ =~= p@.take(j - 1));
        r
    } else {
        p
    }
}

/// Join a relative component onto a base directory.
pub fn join_path(base: &str, rel: &str) -> (r: String)
    ensures
        r@ == path_join(base@, rel@),
{
    let n = base.unicode_len();
    let mut p = String::from_str(base);
    if !(n > 0 && base.get_char(n - 1) == '/') {
        p.append("/");
        proof {
            reveal_strlit("/");
            assert(p@ =~= base@ + seq!['/']);
        }
    }
    p.append(rel);
    proof {
        if base@.len() > 0 && base@[base@.len() - 1] == '/' {
        } else {
            assert(p@ =~= base@ + seq!['/'] + rel@);
        }
    }
    p
}

} // verus!
