//! Lexical version extraction.
//!
//! A version-like token is derived from a name by splitting it on `-`,
//! `_` and space, collecting the parts that look like a version (and,
//! once one has started, the trailing qualifiers after it), joining the
//! collected parts with `-`, stripping a fixed list of low-information
//! suffixes once each, and trimming whitespace.  For a whole path, the
//! parent directory's name is tried first, then the file's own stem.

use vstd::prelude::*;
use crate::text::{
    is_ascii_digit_char, is_delim_char, is_space_char, has_digit,
    char_is_digit, char_is_delim, char_is_space, chars_of, string_from_chars,
};
use crate::paths::{
    file_name_of, parent_path_of, dir_name_of, stem_of,
    find_after_last_sep, find_after_last_dot, copy_range,
};

verus! {

/// Splits `s` at every character satisfying `d`.  The result always has
/// at least one part; delimiters are consumed; empty parts are kept.
pub open spec fn split_by(s: Seq<char>, d: spec_fn(char) -> bool) -> Seq<Seq<char>>
    decreases s.len(),
{
    if s.len() == 0 {
        seq![Seq::<char>::empty()]
    } else if d(s[0]) {
        seq![Seq::<char>::empty()] + split_by(s.drop_first(), d)
    } else {
        let rest = split_by(s.drop_first(), d);
        seq![seq![s[0]] + rest[0]] + rest.drop_first()
    }
}

pub proof fn lemma_split_by_len(s: Seq<char>, d: spec_fn(char) -> bool)
    ensures
        split_by(s, d).len() >= 1,
    decreases s.len(),
{
    if s.len() > 0 {
        lemma_split_by_len(s.drop_first(), d);
    }
}

/// Appending one character extends the last part, or — when it is a
/// delimiter — opens a new empty part.
pub proof fn lemma_split_by_push(s: Seq<char>, c: char, d: spec_fn(char) -> bool)
    ensures
        split_by(s.push(c), d) == if d(c) {
            split_by(s, d).push(Seq::<char>::empty())
        } else {
            let ps = split_by(s, d);
            ps.update(ps.len() - 1, ps.last().push(c))
        },
    decreases s.len(),
{
    lemma_split_by_len(s, d);
    assert(split_by(Seq::<char>::empty(), d) == seq![Seq::<char>::empty()]);
    if s.len() == 0 {
        assert(s.push(c).drop_first() =~= Seq::<char>::empty());
        if d(c) {
            assert(split_by(s.push(c), d) =~= split_by(s, d).push(Seq::<char>::empty()));
        } else {
            assert(seq![s.push(c)[0]] + split_by(s.push(c).drop_first(), d)[0] =~= seq![c]);
            assert(split_by(s.push(c), d) =~= split_by(s, d).update(0, split_by(s, d).last().push(c)));
        }
    } else {
        assert(s.push(c).drop_first() =~= s.drop_first().push(c));
        lemma_split_by_push(s.drop_first(), c, d);
        lemma_split_by_len(s.drop_first(), d);
        let ps = split_by(s, d);
        let pr = split_by(s.drop_first(), d);
        if d(s[0]) {
            assert(ps =~= seq![Seq::<char>::empty()] + pr);
            if d(c) {
                assert(split_by(s.push(c), d) =~= ps.push(Seq::<char>::empty()));
            } else {
                assert(ps.last() == pr.last());
                assert(split_by(s.push(c), d) =~= ps.update(ps.len() - 1, ps.last().push(c)));
            }
        } else {
            assert(ps =~= seq![seq![s[0]] + pr[0]] + pr.drop_first());
            if d(c) {
                assert(split_by(s.push(c), d) =~= ps.push(Seq::<char>::empty()));
            } else {
                if pr.len() == 1 {
                    assert(ps.last() == seq![s[0]] + pr[0]);
                    assert((seq![s[0]] + pr.update(0, pr.last().push(c))[0]) =~= ps.last().push(c));
                } else {
                    assert(ps.last() == pr.last());
                }
                assert(split_by(s.push(c), d) =~= ps.update(ps.len() - 1, ps.last().push(c)));
            }
        }
    }
}

/// The parts of a name, split on the version delimiters.
pub open spec fn delim_parts(s: Seq<char>) -> Seq<Seq<char>> {
    split_by(s, |c: char| is_delim_char(c))
}

/// The parts that make up the version token.  A digit-bearing part is
/// taken when it is longer than one character or a token has already
/// started; once started, every later part is taken.
pub open spec fn collect_parts(parts: Seq<Seq<char>>, started: bool) -> Seq<Seq<char>>
    decreases parts.len(),
{
    if parts.len() == 0 {
        Seq::empty()
    } else {
        let now = started || (has_digit(parts[0]) && parts[0].len() > 1);
        if now {
            seq![parts[0]] + collect_parts(parts.drop_first(), now)
        } else {
            collect_parts(parts.drop_first(), now)
        }
    }
}

/// The parts joined with `-`.
pub open spec fn join_dash(ps: Seq<Seq<char>>) -> Seq<char>
    decreases ps.len(),
{
    if ps.len() == 0 {
        Seq::empty()
    } else if ps.len() == 1 {
        ps[0]
    } else {
        ps[0] + seq!['-'] + join_dash(ps.drop_first())
    }
}

pub proof fn lemma_join_dash_push(ps: Seq<Seq<char>>, p: Seq<char>)
    ensures
        join_dash(ps.push(p)) == if ps.len() == 0 {
            p
        } else {
            join_dash(ps) + seq!['-'] + p
        },
    decreases ps.len(),
{
    if ps.len() == 0 {
        assert(join_dash(ps.push(p)) == ps.push(p)[0]);
        assert(ps.push(p)[0] == p);
    } else if ps.len() == 1 {
        assert(ps.push(p).drop_first() =~= seq![p]);
        assert(join_dash(seq![p]) == p);
        assert(join_dash(ps.push(p)) == ps[0] + seq!['-'] + p);
    } else {
        assert(ps.push(p).drop_first() =~= ps.drop_first().push(p));
        lemma_join_dash_push(ps.drop_first(), p);
        assert((ps[0] + seq!['-'] + (join_dash(ps.drop_first()) + seq!['-'] + p)) =~= (
        join_dash(ps) + seq!['-'] + p));
    }
}

/// Removes `suf` from the end of `s`, at most once.
pub open spec fn strip_suffix_once(s: Seq<char>, suf: Seq<char>) -> Seq<char> {
    if suf.len() <= s.len() && s.skip(s.len() - suf.len()) == suf {
        s.take(s.len() - suf.len())
    } else {
        s
    }
}

pub open spec fn suffix_pc() -> Seq<char> {
    seq!['-', 'p', 'c']
}

pub open spec fn suffix_rus() -> Seq<char> {
    seq!['-', 'r', 'u', 's']
}

pub open spec fn suffix_fix() -> Seq<char> {
    seq!['-', 'f', 'i', 'x']
}

pub open spec fn suffix_1080p() -> Seq<char> {
    seq!['-', '1', '0', '8', '0', 'p']
}

/// Leading and trailing whitespace removed.
pub open spec fn trim_start(s: Seq<char>) -> Seq<char>
    decreases s.len(),
{
    if s.len() > 0 && is_space_char(s[0]) {
        trim_start(s.drop_first())
    } else {
        s
    }
}

pub open spec fn trim_end(s: Seq<char>) -> Seq<char>
    decreases s.len(),
{
    if s.len() > 0 && is_space_char(s.last()) {
        trim_end(s.drop_last())
    } else {
        s
    }
}

pub open spec fn trim_spaces(s: Seq<char>) -> Seq<char> {
    trim_end(trim_start(s))
}

pub proof fn lemma_trim_start_skip(s: Seq<char>, j: int)
    requires
        0 <= j <= s.len(),
        forall|k: int| 0 <= k < j ==> is_space_char(#[trigger] s[k]),
        j < s.len() ==> !is_space_char(s[j]),
    ensures
        trim_start(s) == s.skip(j),
    decreases j,
{
    if j == 0 {
        assert(s.skip(0) =~= s);
    } else {
        assert(is_space_char(s[0]));
        lemma_trim_start_skip(s.drop_first(), j - 1);
        assert(s.drop_first().skip(j - 1) =~= s.skip(j));
    }
}

pub proof fn lemma_trim_end_take(s: Seq<char>, j: int)
    requires
        0 <= j <= s.len(),
        forall|k: int| j <= k < s.len() ==> is_space_char(#[trigger] s[k]),
        j > 0 ==> !is_space_char(s[j - 1]),
    ensures
        trim_end(s) == s.take(j),
    decreases s.len() - j,
{
    if j == s.len() {
        assert(s.take(j) =~= s);
        if s.len() > 0 {
            assert(!is_space_char(s.last()));
        }
    } else {
        assert(is_space_char(s.last()));
        lemma_trim_end_take(s.drop_last(), j);
        assert(s.drop_last().take(j) =~= s.take(j));
    }
}

/// The raw joined token, cleaned: the four known suffixes stripped once
/// each, in this order, then whitespace trimmed.
pub open spec fn cleaned(s: Seq<char>) -> Seq<char> {
    trim_spaces(
        strip_suffix_once(
            strip_suffix_once(
                strip_suffix_once(strip_suffix_once(s, suffix_pc()), suffix_rus()),
                suffix_fix(),
            ),
            suffix_1080p(),
        ),
    )
}

/// The version token found in one name, or `None` when no digit-bearing
/// part qualifies or cleaning leaves nothing.
pub open spec fn version_of_name(s: Seq<char>) -> Option<Seq<char>> {
    let acc = collect_parts(delim_parts(s), false);
    if acc.len() == 0 {
        None
    } else {
        let v = cleaned(join_dash(acc));
        if v.len() > 0 {
            Some(v)
        } else {
            None
        }
    }
}

/// The version for a path: the parent directory's name is tried first,
/// then the stem of the file's own name.
pub open spec fn extracted_version(p: Seq<char>) -> Option<Seq<char>> {
    match version_of_name(dir_name_of(p)) {
        Some(v) => Some(v),
        None => version_of_name(stem_of(file_name_of(p))),
    }
}

/// Splits `v` on the version delimiters.
fn split_delims(v: &Vec<char>) -> (r: Vec<Vec<char>>)
    ensures
        r@.map_values(|p: Vec<char>| p@) == delim_parts(v@),
{
    let mut done: Vec<Vec<char>> = Vec::new();
    let mut cur: Vec<char> = Vec::new();
    let mut i: usize = 0;
    proof {
        assert(v@.take(0) =~= Seq::<char>::empty());
    }
    while i < v.len()
        invariant
            i <= v@.len(),
            done@.map_values(|p: Vec<char>| p@).push(cur@) == split_by(
                v@.take(i as int),
                |c: char| is_delim_char(c),
            ),
        decreases v@.len() - i,
    {
        let c = v[i];
        let ghost pre = v@.take(i as int);
        let ghost ps = split_by(pre, |c: char| is_delim_char(c));
        let ghost dm0 = done@.map_values(|p: Vec<char>| p@);
        let ghost cur0 = cur@;
        proof {
            assert(v@.take(i + 1) =~= pre.push(v@[i as int]));
            lemma_split_by_push(pre, v@[i as int], |c: char| is_delim_char(c));
            lemma_split_by_len(pre, |c: char| is_delim_char(c));
            assert(ps.last() == cur0);
        }
        if char_is_delim(c) {
            done.push(cur);
            cur = Vec::new();
            proof {
                assert(done@.map_values(|p: Vec<char>| p@) =~= dm0.push(cur0));
                assert(done@.map_values(|p: Vec<char>| p@).push(cur@) =~= ps.push(
                    Seq::<char>::empty(),
                ));
            }
        } else {
            cur.push(c);
            proof {
                assert(done@.map_values(|p: Vec<char>| p@).push(cur@) =~= ps.update(
                    ps.len() - 1,
                    ps.last().push(c),
                ));
            }
        }
        i = i + 1;
    }
    proof {
        assert(v@.take(v@.len() as int) =~= v@);
    }
    let ghost dm0 = done@.map_values(|p: Vec<char>| p@);
    let ghost cur0 = cur@;
    done.push(cur);
    proof {
        assert(done@.map_values(|p: Vec<char>| p@) =~= dm0.push(cur0));
    }
    done
}

/// Collects the version parts of `v`, as `collect_parts` describes.
fn collect_version_parts(parts: &Vec<Vec<char>>) -> (r: Vec<Vec<char>>)
    ensures
        r@.map_values(|p: Vec<char>| p@) == collect_parts(
            parts@.map_values(|p: Vec<char>| p@),
            false,
        ),
{
    let ghost all = parts@.map_values(|p: Vec<char>| p@);
    let mut acc: Vec<Vec<char>> = Vec::new();
    let mut started = false;
    let mut i: usize = 0;
    proof {
        assert(all.skip(0) =~= all);
    }
    while i < parts.len()
        invariant
            i <= parts@.len(),
            all == parts@.map_values(|p: Vec<char>| p@),
            collect_parts(all, false) == acc@.map_values(|p: Vec<char>| p@) + collect_parts(
                all.skip(i as int),
                started,
            ),
        decreases parts@.len() - i,
    {
        proof {
            assert(all.skip(i as int)[0] == all[i as int]);
            assert(all.skip(i as int).drop_first() =~= all.skip(i + 1));
        }
        let p = &parts[i];
        let taken = if started {
            true
        } else {
            p.len() > 1 && vec_has_digit(p)
        };
        if taken {
            let copied = copy_range(p, 0, p.len());
            proof {
                assert(copied@ =~= all[i as int]);
            }
            let ghost am0 = acc@.map_values(|q: Vec<char>| q@);
            acc.push(copied);
            started = true;
            proof {
                assert(acc@.map_values(|q: Vec<char>| q@) =~= am0.push(all[i as int]));
                assert(am0.push(all[i as int]) + collect_parts(all.skip(i + 1), true) =~= am0 + (
                seq![all[i as int]] + collect_parts(all.skip(i + 1), true)));
            }
        }
        i = i + 1;
    }
    proof {
        assert(all.skip(parts@.len() as int) =~= Seq::<Seq<char>>::empty());
        assert(collect_parts(all, false) =~= acc@.map_values(|p: Vec<char>| p@));
    }
    acc
}

/// Whether the part holds an ASCII digit.
fn vec_has_digit(p: &Vec<char>) -> (r: bool)
    ensures
        r == has_digit(p@),
{
    let mut i: usize = 0;
    while i < p.len()
        invariant
            i <= p@.len(),
            forall|k: int| 0 <= k < i ==> !is_ascii_digit_char(#[trigger] p@[k]),
        decreases p@.len() - i,
    {
        if char_is_digit(p[i]) {
            return true;
        }
        i = i + 1;
    }
    false
}

/// Joins the parts with `-`.
fn join_parts(parts: &Vec<Vec<char>>) -> (r: Vec<char>)
    ensures
        r@ == join_dash(parts@.map_values(|p: Vec<char>| p@)),
{
    let ghost all = parts@.map_values(|p: Vec<char>| p@);
    let mut r: Vec<char> = Vec::new();
    let mut i: usize = 0;
    while i < parts.len()
        invariant
            i <= parts@.len(),
            all == parts@.map_values(|p: Vec<char>| p@),
            r@ == join_dash(all.take(i as int)),
        decreases parts@.len() - i,
    {
        proof {
            assert(all.take(i + 1) =~= all.take(i as int).push(all[i as int]));
            lemma_join_dash_push(all.take(i as int), all[i as int]);
        }
        if i > 0 {
            r.push('-');
        }
        let p = &parts[i];
        let mut j: usize = 0;
        let ghost base = r@;
        while j < p.len()
            invariant
                j <= p@.len(),
                r@ == base + p@.take(j as int),
            decreases p@.len() - j,
        {
            r.push(p[j]);
            j = j + 1;
            proof {
                assert(base + p@.take(j as int) =~= (base + p@.take(j - 1)).push(p@[j - 1]));
            }
        }
        proof {
            assert(p@.take(p@.len() as int) =~= p@);
            if i == 0 {
                assert(base =~= Seq::<char>::empty());
                assert(r@ =~= all[i as int]);
            } else {
                assert(r@ =~= join_dash(all.take(i as int)) + seq!['-'] + all[i as int]);
            }
        }
        i = i + 1;
    }
    proof {
        assert(all.take(all.len() as int) =~= all);
    }
    r
}

/// Removes `suf` from the end of `v`, at most once.
fn strip_once(v: Vec<char>, suf: &Vec<char>) -> (r: Vec<char>)
    ensures
        r@ == strip_suffix_once(v@, suf@),
{
    if suf.len() > v.len() {
        return v;
    }
    let base = v.len() - suf.len();
    let mut k: usize = 0;
    while k < suf.len()
        invariant
            k <= suf@.len(),
            suf@.len() <= v@.len(),
            v@.len() <= usize::MAX,
            base == v@.len() - suf@.len(),
            forall|t: int| 0 <= t < k ==> v@[base + t] == suf@[t],
        decreases suf@.len() - k,
    {
        if v[base + k] != suf[k] {
            proof {
                assert(v@.skip(base as int)[k as int] != suf@[k as int]);
            }
            return v;
        }
        k = k + 1;
    }
    proof {
        assert(v@.skip(base as int) =~= suf@);
    }
    copy_range(&v, 0, base)
}

/// Trims whitespace from both ends of `v`.
fn trim_ws(v: &Vec<char>) -> (r: Vec<char>)
    ensures
        r@ == trim_spaces(v@),
{
    let mut a: usize = 0;
    while a < v.len() && char_is_space(v[a])
        invariant
            a <= v@.len(),
            forall|k: int| 0 <= k < a ==> is_space_char(#[trigger] v@[k]),
        decreases v@.len() - a,
    {
        a = a + 1;
    }
    proof {
        lemma_trim_start_skip(v@, a as int);
    }
    let mut b: usize = v.len();
    while b > a && char_is_space(v[b - 1])
        invariant
            a <= b <= v@.len(),
            trim_start(v@) == v@.skip(a as int),
            forall|k: int| b <= k < v@.len() ==> is_space_char(#[trigger] v@[k]),
        decreases b,
    {
        b = b - 1;
    }
    proof {
        let s = v@.skip(a as int);
        assert forall|k: int| b - a <= k < s.len() implies is_space_char(#[trigger] s[k]) by {
            assert(s[k] == v@[a + k]);
        }
        if b > a {
            assert(s[b - a - 1] == v@[b - 1]);
        }
        lemma_trim_end_take(s, b - a);
        assert(s.take(b - a) =~= v@.subrange(a as int, b as int));
    }
    copy_range(v, a, b)
}

/// The version token found in `v`, per `version_of_name`.
fn version_from_chars(v: &Vec<char>) -> (r: Option<Vec<char>>)
    ensures
        ({
            let s = version_of_name(v@);
            match r {
                Some(t) => s == Some(t@),
                None => s is None,
            }
        }),
{
    let parts = split_delims(v);
    let acc = collect_version_parts(&parts);
    if acc.len() == 0 {
        return None;
    }
    let joined = join_parts(&acc);
    proof {
        reveal_strlit("-pc");
        reveal_strlit("-rus");
        reveal_strlit("-fix");
        reveal_strlit("-1080p");
        assert("-pc"@ =~= suffix_pc());
        assert("-rus"@ =~= suffix_rus());
        assert("-fix"@ =~= suffix_fix());
        assert("-1080p"@ =~= suffix_1080p());
    }
    let s1 = strip_once(joined, &chars_of("-pc"));
    let s2 = strip_once(s1, &chars_of("-rus"));
    let s3 = strip_once(s2, &chars_of("-fix"));
    let s4 = strip_once(s3, &chars_of("-1080p"));
    let t = trim_ws(&s4);
    if t.len() > 0 {
        Some(t)
    } else {
        None
    }
}

/// Derives a version-like token from one name, as the component
/// contract `version_of_name` states.
pub fn find_version_in_name(name: &str) -> (r: Option<String>)
    ensures
        ({
            let s = version_of_name(name@);
            match r {
                Some(t) => s == Some(t@),
                None => s is None,
            }
        }),
{
    let v = chars_of(name);
    match version_from_chars(&v) {
        Some(t) => Some(string_from_chars(&t)),
        None => None,
    }
}

/// Derives a version-like token for a path: from the parent directory's
/// name when possible, otherwise from the file name's stem, as
/// `extracted_version` states.
pub fn extract_version_from_path(path_str: &str) -> (r: Option<String>)
    ensures
        ({
            let s = extracted_version(path_str@);
            match r {
                Some(t) => s == Some(t@),
                None => s is None,
            }
        }),
{
    let p = chars_of(path_str);
    let after_sep = find_after_last_sep(&p);
    // The parent directory's name: the file name of the parent path.
    let parent: Vec<char> = if after_sep > 0 {
        copy_range(&p, 0, after_sep - 1)
    } else {
        Vec::new()
    };
    proof {
        if after_sep > 0 {
            assert(parent@ =~= parent_path_of(p@));
        } else {
            assert(parent@ =~= parent_path_of(p@));
        }
    }
    let dir_start = find_after_last_sep(&parent);
    let dir_name = copy_range(&parent, dir_start, parent.len());
    proof {
        assert(dir_name@ =~= dir_name_of(p@));
    }
    if let Some(t) = version_from_chars(&dir_name) {
        return Some(string_from_chars(&t));
    }
    let fname = copy_range(&p, after_sep, p.len());
    proof {
        assert(fname@ =~= file_name_of(p@));
    }
    let after_dot = find_after_last_dot(&fname);
    let stem: Vec<char> = if after_dot > 0 {
        copy_range(&fname, 0, after_dot - 1)
    } else {
        copy_range(&fname, 0, fname.len())
    };
    proof {
        if after_dot > 0 {
            assert(stem@ =~= stem_of(file_name_of(p@)));
        } else {
            assert(stem@ =~= stem_of(file_name_of(p@)));
        }
    }
    match version_from_chars(&stem) {
        Some(t) => Some(string_from_chars(&t)),
        None => None,
    }
}

} // verus!
