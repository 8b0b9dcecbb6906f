//! A lexical model of paths.
//!
//! The engine never asks the filesystem about a path: a path is a string,
//! its components are separated by `/` or `\`, the file name is the text
//! after the last separator, and the extension is the text after the last
//! `.` of the file name.  A name whose only `.` is its first character
//! (a dotfile) has no extension.

use vstd::prelude::*;
use crate::text::{is_sep_char, char_is_sep};

verus! {

/// Index of the last occurrence in `s` of a character satisfying `d`,
/// or `-1` when there is none.
pub open spec fn last_index_where(s: Seq<char>, d: spec_fn(char) -> bool) -> int
    decreases s.len(),
{
    if s.len() == 0 {
        -1
    } else if d(s.last()) {
        s.len() - 1
    } else {
        last_index_where(s.drop_last(), d)
    }
}

pub proof fn lemma_last_index_where(s: Seq<char>, d: spec_fn(char) -> bool)
    ensures
        -1 <= last_index_where(s, d) < s.len(),
        last_index_where(s, d) >= 0 ==> d(s[last_index_where(s, d)]),
        forall|k: int| last_index_where(s, d) < k < s.len() ==> !d(s[k]),
    decreases s.len(),
{
    if s.len() > 0 && !d(s.last()) {
        lemma_last_index_where(s.drop_last(), d);
        assert forall|k: int| last_index_where(s, d) < k < s.len() implies !d(s[k]) by {
            if k < s.len() - 1 {
                assert(s.drop_last()[k] == s[k]);
            }
        }
    }
}

/// The last separator is a separator, and nothing after it is one.
pub proof fn lemma_last_sep(p: Seq<char>)
    ensures
        -1 <= last_sep(p) < p.len(),
        last_sep(p) >= 0 ==> is_sep_char(p[last_sep(p)]),
        forall|k: int| last_sep(p) < k < p.len() ==> !is_sep_char(#[trigger] p[k]),
{
    lemma_last_index_where(p, |c: char| is_sep_char(c));
}

/// The last dot is a dot, and nothing after it is one.
pub proof fn lemma_last_dot(n: Seq<char>)
    ensures
        -1 <= last_dot(n) < n.len(),
        last_dot(n) >= 0 ==> n[last_dot(n)] == '.',
        forall|k: int| last_dot(n) < k < n.len() ==> #[trigger] n[k] != '.',
{
    lemma_last_index_where(n, |c: char| c == '.');
}

/// Index of the last path separator in `p`, or `-1`.
pub open spec fn last_sep(p: Seq<char>) -> int {
    last_index_where(p, |c: char| is_sep_char(c))
}

/// Index of the last `.` in `n`, or `-1`.
pub open spec fn last_dot(n: Seq<char>) -> int {
    last_index_where(n, |c: char| c == '.')
}

/// The file name of a path: the text after the last separator
/// (the whole path when it has none).
pub open spec fn file_name_of(p: Seq<char>) -> Seq<char> {
    p.skip(last_sep(p) + 1)
}

/// The parent directory of a path: the text before the last separator
/// (empty when it has none).  Used as the bucket key during
/// deduplication, so that games in different directories never merge.
pub open spec fn parent_path_of(p: Seq<char>) -> Seq<char> {
    if last_sep(p) >= 0 {
        p.take(last_sep(p))
    } else {
        Seq::empty()
    }
}

/// The name of the parent directory: the file name of the parent path.
pub open spec fn dir_name_of(p: Seq<char>) -> Seq<char> {
    file_name_of(parent_path_of(p))
}

/// The stem of a file name: the text before the last `.`
/// (the whole name when it has none).
pub open spec fn stem_of(n: Seq<char>) -> Seq<char> {
    if last_dot(n) >= 0 {
        n.take(last_dot(n))
    } else {
        n
    }
}

/// The extension of a file name: the text after the last `.`, provided
/// that dot is not the first character; a dotfile has no extension.
pub open spec fn ext_of(n: Seq<char>) -> Option<Seq<char>> {
    if last_dot(n) >= 1 {
        Some(n.skip(last_dot(n) + 1))
    } else {
        None
    }
}

/// Finds the last separator of `v`, returning one past its index
/// (`0` when there is none), so the result indexes `v` directly.
pub fn find_after_last_sep(v: &Vec<char>) -> (r: usize)
    ensures
        r == last_sep(v@) + 1,
        r <= v@.len(),
{
    proof {
        lemma_last_sep(v@);
    }
    let mut i: usize = v.len();
    while i > 0
        invariant
            i <= v.len(),
            forall|k: int| i <= k < v@.len() ==> !is_sep_char(#[trigger] v@[k]),
        decreases i,
    {
        if char_is_sep(v[i - 1]) {
            proof {
                lemma_last_sep(v@);
                let ls = last_sep(v@);
                if ls > i - 1 {
                    assert(!is_sep_char(v@[ls]));
                }
                if ls < i - 1 {
                    assert(!is_sep_char(v@[i - 1]));
                }
            }
            return i;
        }
        i = i - 1;
    }
    proof {
        lemma_last_sep(v@);
        if last_sep(v@) >= 0 {
            assert(!is_sep_char(v@[last_sep(v@)]));
        }
    }
    0
}

/// Finds the last `.` of `v`, returning one past its index
/// (`0` when there is none).
pub fn find_after_last_dot(v: &Vec<char>) -> (r: usize)
    ensures
        r == last_dot(v@) + 1,
        r <= v@.len(),
{
    proof {
        lemma_last_dot(v@);
    }
    let mut i: usize = v.len();
    while i > 0
        invariant
            i <= v.len(),
            forall|k: int| i <= k < v@.len() ==> #[trigger] v@[k] != '.',
        decreases i,
    {
        if v[i - 1] == '.' {
            proof {
                lemma_last_dot(v@);
                let ld = last_dot(v@);
                if ld > i - 1 {
                    assert(v@[ld] != '.');
                }
                if ld < i - 1 {
                    assert(v@[i - 1] != '.');
                }
            }
            return i;
        }
        i = i - 1;
    }
    proof {
        lemma_last_dot(v@);
        if last_dot(v@) >= 0 {
            assert(v@[last_dot(v@)] != '.');
        }
    }
    0
}

/// Copies the range `[from, to)` of `v`.
pub fn copy_range(v: &Vec<char>, from: usize, to: usize) -> (r: Vec<char>)
    requires
        from <= to <= v@.len(),
    ensures
        r@ == v@.subrange(from as int, to as int),
{
    let mut r: Vec<char> = Vec::new();
    let mut i: usize = from;
    while i < to
        invariant
            from <= i <= to <= v@.len(),
            r@ == v@.subrange(from as int, i as int),
        decreases to - i,
    {
        r.push(v[i]);
        i = i + 1;
        proof {
            assert(r@ =~= v@.subrange(from as int, i as int));
        }
    }
    r
}

} // verus!
