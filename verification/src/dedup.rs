//! Grouping and canonicalisation.
//!
//! Candidates are bucketed by parent directory, grouped inside one
//! bucket by a normalised base name (stem, architecture suffix `-32`
//! stripped, lowercased), and exactly one candidate survives per group:
//! the one of minimal priority rank, with the lexicographically least
//! path as the deterministic tie-break.

use vstd::prelude::*;
use crate::text::{lower_of, lowercase, chars_of, string_from_chars};
use crate::paths::{parent_path_of, stem_of, find_after_last_sep, find_after_last_dot, copy_range};
use crate::classify::{GameType, GameInfo, GameModel, type_of_ext};

verus! {

/// The architecture suffix stripped from base names.
pub open spec fn arch_suffix() -> Seq<char> {
    seq!['-', '3', '2']
}

/// Repeatedly removes a trailing `-32`.
pub open spec fn strip_arch(s: Seq<char>) -> Seq<char>
    decreases s.len(),
{
    if s.len() >= 3 && s.skip(s.len() - 3) == arch_suffix() {
        strip_arch(s.take(s.len() - 3))
    } else {
        s
    }
}

/// The key under which same-game variants group inside one directory:
/// the stem, with trailing `-32` suffixes removed, lowercased.
pub open spec fn base_key(name: Seq<char>) -> Seq<char> {
    lower_of(strip_arch(stem_of(name)))
}

/// Two candidates are in the same group when they share both the parent
/// directory and the base-name key.
pub open spec fn same_group(a: GameModel, b: GameModel) -> bool {
    parent_path_of(a.path) == parent_path_of(b.path) && base_key(a.name) == base_key(b.name)
}

/// The views of a vector of games.
pub open spec fn game_views(s: Seq<GameInfo>) -> Seq<GameModel> {
    s.map_values(|g: GameInfo| g@)
}

/// Whether `n` occurs in `h` as a contiguous subsequence.
pub open spec fn contains_sub(h: Seq<char>, n: Seq<char>) -> bool {
    exists|k: int| 0 <= k && k + n.len() <= h.len() && #[trigger] h.subrange(k, k + n.len()) == n
}

/// The fixed priority of a candidate: a plain `exe` first, then an
/// `exe` carrying `-32`, then `sh`, then `bat`/`cmd`, then `py`.
pub open spec fn rank_of(g: GameModel) -> int {
    match type_of_ext(g.game_type) {
        Some(GameType::Exe) => if contains_sub(lower_of(g.name), arch_suffix()) {
            1
        } else {
            0
        },
        Some(GameType::Py) => 4,
        Some(GameType::Sh) => 2,
        Some(GameType::Bat) => 3,
        Some(GameType::Cmd) => 3,
        None => 5,
    }
}

/// Lexicographic order on paths, by code point; the deterministic
/// tie-break between candidates of equal rank.
pub open spec fn lex_le(a: Seq<char>, b: Seq<char>) -> bool
    decreases a.len(),
{
    if a.len() == 0 {
        true
    } else if b.len() == 0 {
        false
    } else if (a[0] as u32) < (b[0] as u32) {
        true
    } else if (a[0] as u32) > (b[0] as u32) {
        false
    } else {
        lex_le(a.drop_first(), b.drop_first())
    }
}

/// The cast from `char` to `u32` is injective.
pub proof fn lemma_char_cast_inj(c1: char, c2: char)
    requires
        c1 as u32 == c2 as u32,
    ensures
        c1 == c2,
{
    vstd::utf8::char_u32_cast(c1, c1 as u32);
    vstd::utf8::char_u32_cast(c2, c2 as u32);
}

pub proof fn lemma_lex_le_refl(a: Seq<char>)
    ensures
        lex_le(a, a),
    decreases a.len(),
{
    if a.len() > 0 {
        lemma_lex_le_refl(a.drop_first());
    }
}

pub proof fn lemma_lex_le_total(a: Seq<char>, b: Seq<char>)
    ensures
        lex_le(a, b) || lex_le(b, a),
    decreases a.len(),
{
    if a.len() > 0 && b.len() > 0 && (a[0] as u32) == (b[0] as u32) {
        lemma_char_cast_inj(a[0], b[0]);
        lemma_lex_le_total(a.drop_first(), b.drop_first());
    }
}

pub proof fn lemma_lex_le_antisym(a: Seq<char>, b: Seq<char>)
    requires
        lex_le(a, b),
        lex_le(b, a),
    ensures
        a == b,
    decreases a.len(),
{
    if a.len() == 0 {
        assert(b.len() == 0);
        assert(a =~= b);
    } else {
        assert((a[0] as u32) == (b[0] as u32));
        lemma_char_cast_inj(a[0], b[0]);
        lemma_lex_le_antisym(a.drop_first(), b.drop_first());
        assert forall|i: int| 0 <= i < a.len() implies a[i] == b[i] by {
            if i > 0 {
                assert(a.drop_first()[i - 1] == b.drop_first()[i - 1]);
            }
        }
        assert(a =~= b);
    }
}

pub proof fn lemma_lex_le_trans(a: Seq<char>, b: Seq<char>, c: Seq<char>)
    requires
        lex_le(a, b),
        lex_le(b, c),
    ensures
        lex_le(a, c),
    decreases a.len(),
{
    if a.len() > 0 && b.len() > 0 && c.len() > 0 {
        if (a[0] as u32) == (b[0] as u32) && (b[0] as u32) == (c[0] as u32) {
            lemma_char_cast_inj(a[0], b[0]);
            lemma_char_cast_inj(b[0], c[0]);
            lemma_lex_le_trans(a.drop_first(), b.drop_first(), c.drop_first());
        }
    }
}

/// The selection order: lower rank wins; equal ranks fall back to the
/// path order.
pub open spec fn sel_le(a: GameModel, b: GameModel) -> bool {
    rank_of(a) < rank_of(b) || (rank_of(a) == rank_of(b) && lex_le(a.path, b.path))
}

pub proof fn lemma_sel_le_total(a: GameModel, b: GameModel)
    ensures
        sel_le(a, b) || sel_le(b, a),
{
    lemma_lex_le_total(a.path, b.path);
}

pub proof fn lemma_sel_le_trans(a: GameModel, b: GameModel, c: GameModel)
    requires
        sel_le(a, b),
        sel_le(b, c),
    ensures
        sel_le(a, c),
{
    if rank_of(a) == rank_of(b) && rank_of(b) == rank_of(c) {
        lemma_lex_le_trans(a.path, b.path, c.path);
    }
}

/// A valid outcome of deduplication: every survivor is a candidate,
/// every candidate's group is represented, no two survivors share a
/// group, and each survivor is minimal in its group.
pub open spec fn group_represented(cands: Seq<GameModel>, out: Seq<GameModel>, j: int) -> bool {
    exists|i: int| 0 <= i < out.len() && same_group(cands[j], out[i])
}

pub open spec fn is_selection(cands: Seq<GameModel>, out: Seq<GameModel>) -> bool {
    &&& forall|i: int| 0 <= i < out.len() ==> cands.contains(#[trigger] out[i])
    &&& forall|j: int|
        0 <= j < cands.len() ==> #[trigger] group_represented(cands, out, j)
    &&& forall|i1: int, i2: int|
        0 <= i1 < i2 < out.len() ==> !#[trigger] same_group(out[i1], out[i2])
    &&& forall|i: int, j: int|
        0 <= i < out.len() && 0 <= j < cands.len() && #[trigger] same_group(out[i], cands[j])
            ==> sel_le(out[i], cands[j])
}

/// A selection from no candidates is empty: a scan that finds nothing
/// reports nothing.
pub proof fn lemma_empty_selection(cands: Seq<GameModel>, out: Seq<GameModel>)
    requires
        is_selection(cands, out),
        cands.len() == 0,
    ensures
        out.len() == 0,
{
    if out.len() > 0 {
        assert(cands.contains(out[0]));
        let i = choose|i: int| 0 <= i < cands.len() && cands[i] == out[0];
        assert(false);
    }
}

/// A survivor of one valid selection survives every valid selection
/// from a membership-equal candidate pool, provided paths identify
/// candidates.
proof fn lemma_winner_in_other(
    ca: Seq<GameModel>,
    oa: Seq<GameModel>,
    cb: Seq<GameModel>,
    ob: Seq<GameModel>,
    g: GameModel,
)
    requires
        is_selection(ca, oa),
        is_selection(cb, ob),
        forall|x: GameModel| #[trigger] ca.contains(x) ==> cb.contains(x),
        forall|x: GameModel| #[trigger] cb.contains(x) ==> ca.contains(x),
        forall|g1: GameModel, g2: GameModel|
            #[trigger] ca.contains(g1) && #[trigger] ca.contains(g2) && g1.path == g2.path
                ==> g1 == g2,
        oa.contains(g),
    ensures
        ob.contains(g),
{
    let ia = choose|ia: int| 0 <= ia < oa.len() && oa[ia] == g;
    assert(ca.contains(oa[ia]));
    assert(cb.contains(g));
    let j = choose|j: int| 0 <= j < cb.len() && cb[j] == g;
    assert(group_represented(cb, ob, j));
    let t = choose|t: int| 0 <= t < ob.len() && same_group(cb[j], ob[t]);
    let w = ob[t];
    assert(cb.contains(ob[t]));
    assert(ca.contains(w));
    assert(same_group(ob[t], cb[j]));
    assert(sel_le(w, g));
    let jw = choose|jw: int| 0 <= jw < ca.len() && ca[jw] == w;
    assert(same_group(oa[ia], ca[jw]));
    assert(sel_le(g, w));
    lemma_lex_le_antisym(w.path, g.path);
    assert(w == g);
    assert(ob[t] == g);
}

/// Deduplication is deterministic up to order: two valid selections
/// from membership-equal candidate pools, in which a path identifies
/// its candidate, hold exactly the same survivors.  Re-running a scan
/// over an unchanged set of candidates therefore yields a set-equal
/// result, whatever order the traversal produced them in.
pub proof fn lemma_selection_deterministic(
    c1: Seq<GameModel>,
    o1: Seq<GameModel>,
    c2: Seq<GameModel>,
    o2: Seq<GameModel>,
)
    requires
        is_selection(c1, o1),
        is_selection(c2, o2),
        forall|x: GameModel| #[trigger] c1.contains(x) ==> c2.contains(x),
        forall|x: GameModel| #[trigger] c2.contains(x) ==> c1.contains(x),
        forall|g1: GameModel, g2: GameModel|
            #[trigger] c1.contains(g1) && #[trigger] c1.contains(g2) && g1.path == g2.path
                ==> g1 == g2,
    ensures
        forall|g: GameModel| #[trigger] o1.contains(g) ==> o2.contains(g),
        forall|g: GameModel| #[trigger] o2.contains(g) ==> o1.contains(g),
{
    assert forall|g: GameModel| #[trigger] o1.contains(g) implies o2.contains(g) by {
        lemma_winner_in_other(c1, o1, c2, o2, g);
    }
    assert forall|g: GameModel| #[trigger] o2.contains(g) implies o1.contains(g) by {
        assert forall|g1: GameModel, g2: GameModel|
            #[trigger] c2.contains(g1) && #[trigger] c2.contains(g2) && g1.path == g2.path
                implies g1 == g2 by {
            assert(c1.contains(g1));
            assert(c1.contains(g2));
        }
        lemma_winner_in_other(c2, o2, c1, o1, g);
    }
}

/// Strips every trailing `-32` from `v`.
fn strip_arch_vec(v: Vec<char>) -> (r: Vec<char>)
    ensures
        r@ == strip_arch(v@),
{
    let mut v = v;
    let ghost orig = v@;
    while v.len() >= 3 && v[v.len() - 3] == '-' && v[v.len() - 2] == '3' && v[v.len() - 1] == '2'
        invariant
            strip_arch(orig) == strip_arch(v@),
        decreases v@.len(),
    {
        proof {
            assert(v@.skip(v@.len() - 3) =~= arch_suffix());
        }
        let w = copy_range(&v, 0, v.len() - 3);
        v = w;
    }
    proof {
        if v@.len() >= 3 {
            if v@.skip(v@.len() - 3) == arch_suffix() {
                assert(v@[v@.len() - 3] == '-' && v@[v@.len() - 2] == '3' && v@[v@.len() - 1]
                    == '2') by {
                    assert(v@.skip(v@.len() - 3)[0] == v@[v@.len() - 3]);
                    assert(v@.skip(v@.len() - 3)[1] == v@[v@.len() - 2]);
                    assert(v@.skip(v@.len() - 3)[2] == v@[v@.len() - 1]);
                }
            }
        }
        assert(strip_arch(v@) == v@);
    }
    v
}

/// The parent-directory bucket key of a path.
pub fn parent_dir(path: &str) -> (r: String)
    ensures
        r@ == parent_path_of(path@),
{
    let p = chars_of(path);
    let after_sep = find_after_last_sep(&p);
    let parent: Vec<char> = if after_sep > 0 {
        copy_range(&p, 0, after_sep - 1)
    } else {
        Vec::new()
    };
    proof {
        assert(parent@ =~= parent_path_of(p@));
    }
    string_from_chars(&parent)
}

/// The normalised base-name key of a file name.
pub fn base_name_key(name: &str) -> (r: String)
    ensures
        r@ == base_key(name@),
{
    let nm = chars_of(name);
    let after_dot = find_after_last_dot(&nm);
    let stem: Vec<char> = if after_dot > 0 {
        copy_range(&nm, 0, after_dot - 1)
    } else {
        copy_range(&nm, 0, nm.len())
    };
    proof {
        assert(stem@ =~= stem_of(name@));
    }
    let stripped = strip_arch_vec(stem);
    lowercase(string_from_chars(&stripped).as_str())
}

/// Whether the lowercased name carries the `-32` marker.
fn contains_arch(v: &Vec<char>) -> (r: bool)
    ensures
        r == contains_sub(v@, arch_suffix()),
{
    if v.len() < 3 {
        return false;
    }
    let stop = v.len() - 3;
    let mut k: usize = 0;
    while k <= stop
        invariant
            v@.len() >= 3,
            v@.len() <= usize::MAX,
            stop == v@.len() - 3,
            k <= stop + 1,
            forall|j: int| 0 <= j < k ==> #[trigger] v@.subrange(j, j + 3) != arch_suffix(),
        decreases stop + 1 - k,
    {
        if v[k] == '-' && v[k + 1] == '3' && v[k + 2] == '2' {
            proof {
                assert(v@.subrange(k as int, k + 3) =~= arch_suffix());
            }
            return true;
        }
        proof {
            assert(v@.subrange(k as int, k + 3) != arch_suffix()) by {
                assert(v@.subrange(k as int, k + 3)[0] == v@[k as int]);
                assert(v@.subrange(k as int, k + 3)[1] == v@[k + 1]);
                assert(v@.subrange(k as int, k + 3)[2] == v@[k + 2]);
            }
        }
        k = k + 1;
    }
    false
}

/// The priority rank of a candidate, as `rank_of` states.
pub fn rank(g: &GameInfo) -> (r: u8)
    ensures
        r as int == rank_of(g@),
{
    let gt = chars_of(g.game_type.as_str());
    let t = match_type_vec(&gt);
    match t {
        Some(GameType::Exe) => {
            let low = lowercase(g.name.as_str());
            let lowv = chars_of(low.as_str());
            if contains_arch(&lowv) {
                1
            } else {
                0
            }
        },
        Some(GameType::Sh) => 2,
        Some(GameType::Bat) => 3,
        Some(GameType::Cmd) => 3,
        Some(GameType::Py) => 4,
        None => 5,
    }
}

/// Matches a lowercased extension against the allow-list.
fn match_type_vec(e: &Vec<char>) -> (r: Option<GameType>)
    ensures
        r == type_of_ext(e@),
{
    if e.len() == 3 && e[0] == 'e' && e[1] == 'x' && e[2] == 'e' {
        proof {
            assert(e@ =~= crate::classify::type_seq(GameType::Exe));
        }
        Some(GameType::Exe)
    } else if e.len() == 2 && e[0] == 'p' && e[1] == 'y' {
        proof {
            assert(e@ =~= crate::classify::type_seq(GameType::Py));
        }
        Some(GameType::Py)
    } else if e.len() == 2 && e[0] == 's' && e[1] == 'h' {
        proof {
            assert(e@ =~= crate::classify::type_seq(GameType::Sh));
        }
        Some(GameType::Sh)
    } else if e.len() == 3 && e[0] == 'b' && e[1] == 'a' && e[2] == 't' {
        proof {
            assert(e@ =~= crate::classify::type_seq(GameType::Bat));
        }
        Some(GameType::Bat)
    } else if e.len() == 3 && e[0] == 'c' && e[1] == 'm' && e[2] == 'd' {
        proof {
            assert(e@ =~= crate::classify::type_seq(GameType::Cmd));
        }
        Some(GameType::Cmd)
    } else {
        None
    }
}

/// Lexicographic comparison of two strings, as `lex_le` states.
fn lex_le_chars(a: &Vec<char>, b: &Vec<char>) -> (r: bool)
    ensures
        r == lex_le(a@, b@),
{
    let mut i: usize = 0;
    proof {
        assert(a@.skip(0) =~= a@);
        assert(b@.skip(0) =~= b@);
    }
    while i < a.len() && i < b.len()
        invariant
            i <= a@.len(),
            i <= b@.len(),
            lex_le(a@, b@) == lex_le(a@.skip(i as int), b@.skip(i as int)),
        decreases a@.len() - i,
    {
        let ca = a[i] as u32;
        let cb = b[i] as u32;
        proof {
            assert(a@.skip(i as int)[0] == a@[i as int]);
            assert(b@.skip(i as int)[0] == b@[i as int]);
            assert(a@.skip(i as int).drop_first() =~= a@.skip(i + 1));
            assert(b@.skip(i as int).drop_first() =~= b@.skip(i + 1));
        }
        if ca < cb {
            return true;
        }
        if ca > cb {
            return false;
        }
        proof {
            lemma_char_cast_inj(a@[i as int], b@[i as int]);
        }
        i = i + 1;
    }
    a.len() <= b.len()
}

/// The strict selection order: `a` strictly precedes `b`.
fn sel_less(a: &GameInfo, b: &GameInfo) -> (r: bool)
    ensures
        r == !sel_le(b@, a@),
        r ==> sel_le(a@, b@),
{
    proof {
        lemma_sel_le_total(a@, b@);
    }
    let ra = rank(a);
    let rb = rank(b);
    if ra < rb {
        return true;
    }
    if ra > rb {
        return false;
    }
    let pa = chars_of(a.path.as_str());
    let pb = chars_of(b.path.as_str());
    let le_ab = lex_le_chars(&pa, &pb);
    let le_ba = lex_le_chars(&pb, &pa);
    le_ab && !le_ba
}

/// Whether two candidates belong to the same group.
pub fn in_same_group(a: &GameInfo, b: &GameInfo) -> (r: bool)
    ensures
        r == same_group(a@, b@),
{
    let pa = parent_dir(a.path.as_str());
    let pb = parent_dir(b.path.as_str());
    if !(pa == pb) {
        return false;
    }
    let ka = base_name_key(a.name.as_str());
    let kb = base_name_key(b.name.as_str());
    ka == kb
}

/// A field-for-field copy.
fn clone_game(g: &GameInfo) -> (r: GameInfo)
    ensures
        r@ == g@,
{
    GameInfo {
        name: g.name.clone(),
        path: g.path.clone(),
        game_type: g.game_type.clone(),
        version: match &g.version {
            Some(v) => Some(v.clone()),
            None => None,
        },
    }
}

/// Finds the survivor slot that shares a group with `c`.
fn find_group(out: &Vec<GameInfo>, c: &GameInfo) -> (r: Option<usize>)
    ensures
        match r {
            Some(k) => k < out@.len() && same_group(game_views(out@)[k as int], c@),
            None => forall|k: int|
                0 <= k < out@.len() ==> !same_group(#[trigger] game_views(out@)[k], c@),
        },
{
    let mut k: usize = 0;
    while k < out.len()
        invariant
            k <= out@.len(),
            forall|t: int| 0 <= t < k ==> !same_group(#[trigger] game_views(out@)[t], c@),
        decreases out@.len() - k,
    {
        if in_same_group(&out[k], c) {
            proof {
                assert(game_views(out@)[k as int] == out@[k as int]@);
            }
            return Some(k);
        }
        proof {
            assert(game_views(out@)[k as int] == out@[k as int]@);
        }
        k = k + 1;
    }
    None
}

/// Collapses the candidates to one survivor per group, as
/// `is_selection` states: each group keeps its minimum by rank, then by
/// path.
pub fn deduplicate(cands: &Vec<GameInfo>) -> (r: Vec<GameInfo>)
    ensures
        is_selection(game_views(cands@), game_views(r@)),
{
    let ghost cm = game_views(cands@);
    let mut out: Vec<GameInfo> = Vec::new();
    let mut i: usize = 0;
    while i < cands.len()
        invariant
            i <= cands@.len(),
            cm == game_views(cands@),
            forall|k: int| 0 <= k < out@.len() ==> cm.contains(#[trigger] game_views(out@)[k]),
            forall|j: int| 0 <= j < i ==> #[trigger] group_represented(cm, game_views(out@), j),
            forall|k1: int, k2: int|
                0 <= k1 < k2 < out@.len() ==> !#[trigger] same_group(
                    game_views(out@)[k1],
                    game_views(out@)[k2],
                ),
            forall|k: int, j: int|
                0 <= k < out@.len() && 0 <= j < i && #[trigger] same_group(
                    game_views(out@)[k],
                    cm[j],
                ) ==> sel_le(game_views(out@)[k], cm[j]),
        decreases cands@.len() - i,
    {
        let ghost om0 = game_views(out@);
        let c = &cands[i];
        proof {
            assert(cm[i as int] == c@);
        }
        match find_group(&out, c) {
            None => {
                let g = clone_game(c);
                out.push(g);
                proof {
                    let om1 = game_views(out@);
                    assert(om1 =~= om0.push(c@));
                    lemma_lex_le_refl(c@.path);
                    assert(sel_le(c@, c@));
                    assert(cm.contains(cm[i as int]));
                    assert forall|k: int| 0 <= k < om1.len() implies cm.contains(
                        #[trigger] om1[k],
                    ) by {
                        if k < om0.len() {
                            assert(om1[k] == om0[k]);
                        } else {
                            assert(om1[k] == cm[i as int]);
                        }
                    }
                    assert forall|j: int| 0 <= j < i + 1 implies #[trigger] group_represented(cm, om1, j) by {
                        if j < i {
                            assert(group_represented(cm, om0, j));
                            let t0 = choose|t0: int|
                                0 <= t0 < om0.len() && same_group(cm[j], om0[t0]);
                            assert(om1[t0] == om0[t0]);
                            assert(same_group(cm[j], om1[t0]));
                        } else {
                            assert(om1[om0.len() as int] == c@);
                            assert(same_group(cm[j], om1[om0.len() as int]));
                        }
                    }
                    assert forall|k1: int, k2: int| 0 <= k1 < k2 < om1.len()
                        implies !#[trigger] same_group(om1[k1], om1[k2]) by {
                        if k2 == om0.len() {
                            assert(om1[k1] == om0[k1]);
                            assert(!same_group(om0[k1], c@));
                        } else {
                            assert(om1[k1] == om0[k1] && om1[k2] == om0[k2]);
                            if same_group(om1[k1], om1[k2]) {
                                assert(same_group(om0[k1], om0[k2]));
                                assert(false);
                            }
                        }
                    }
                    // a processed candidate in this group would already
                    // have had a representative, which none shares
                    assert forall|k: int, j: int|
                        0 <= k < om1.len() && 0 <= j < i + 1 && #[trigger] same_group(
                            om1[k],
                            cm[j],
                        ) implies sel_le(om1[k], cm[j]) by {
                        if k < om0.len() {
                            if j < i {
                                assert(same_group(om0[k], cm[j]));
                            } else {
                                assert(!same_group(om0[k], c@));
                                assert(false);
                            }
                        } else {
                            assert(om1[k] == c@);
                            if j < i {
                                assert(group_represented(cm, om0, j));
                                let k2 = choose|k2: int|
                                    0 <= k2 < om0.len() && same_group(cm[j], om0[k2]);
                                assert(same_group(c@, cm[j]));
                                assert(same_group(om0[k2], c@));
                                assert(false);
                            } else {
                                assert(cm[j] == c@);
                            }
                        }
                    }
                }
            },
            Some(k) => {
                proof {
                    lemma_sel_le_total(c@, om0[k as int]);
                }
                if sel_less(c, &out[k]) {
                    let g = clone_game(c);
                    out.set(k, g);
                    proof {
                        let om1 = game_views(out@);
                        assert(om1 =~= om0.update(k as int, c@));
                        lemma_lex_le_refl(c@.path);
                        assert(sel_le(c@, om0[k as int]));
                        assert(same_group(om0[k as int], c@));
                        assert forall|t: int| 0 <= t < om1.len() implies cm.contains(
                            #[trigger] om1[t],
                        ) by {
                            if t == k {
                                assert(om1[t] == cm[i as int]);
                                assert(cm.contains(cm[i as int]));
                            } else {
                                assert(om1[t] == om0[t]);
                            }
                        }
                        assert forall|j: int| 0 <= j < i + 1 implies #[trigger] group_represented(cm, om1, j) by {
                            if j < i {
                                assert(group_represented(cm, om0, j));
                                let t0 = choose|t0: int|
                                    0 <= t0 < om0.len() && same_group(cm[j], om0[t0]);
                                if t0 == k {
                                    assert(same_group(cm[j], om0[k as int]));
                                    assert(om1[k as int] == c@);
                                    assert(same_group(cm[j], om1[k as int]));
                                } else {
                                    assert(om1[t0] == om0[t0]);
                                    assert(same_group(cm[j], om1[t0]));
                                }
                            } else {
                                assert(om1[k as int] == c@);
                                assert(same_group(cm[j], om1[k as int]));
                            }
                        }
                        assert forall|k1: int, k2: int| 0 <= k1 < k2 < om1.len()
                            implies !#[trigger] same_group(om1[k1], om1[k2]) by {
                            if same_group(om1[k1], om1[k2]) {
                                if k1 == k {
                                    assert(same_group(om0[k1], om0[k2]));
                                    assert(false);
                                } else if k2 == k {
                                    assert(same_group(om0[k1], om0[k2]));
                                    assert(false);
                                } else {
                                    assert(same_group(om0[k1], om0[k2]));
                                    assert(false);
                                }
                            }
                        }
                        assert forall|k1: int, j: int|
                            0 <= k1 < om1.len() && 0 <= j < i + 1 && #[trigger] same_group(
                                om1[k1],
                                cm[j],
                            ) implies sel_le(om1[k1], cm[j]) by {
                            if k1 == k {
                                if j < i {
                                    if same_group(om0[k as int], cm[j]) {
                                        lemma_sel_le_trans(c@, om0[k as int], cm[j]);
                                    } else {
                                        assert(same_group(c@, cm[j]));
                                        assert(false);
                                    }
                                } else {
                                    assert(cm[j] == c@);
                                    assert(sel_le(c@, c@));
                                }
                            } else {
                                assert(om1[k1] == om0[k1]);
                                if j < i {
                                    assert(same_group(om0[k1], cm[j]));
                                } else {
                                    assert(cm[j] == c@);
                                    assert(same_group(om0[k1], c@));
                                    if k1 < k {
                                        assert(same_group(om0[k1], om0[k as int]));
                                    } else {
                                        assert(same_group(om0[k as int], om0[k1]));
                                    }
                                    assert(false);
                                }
                            }
                        }
                    }
                } else {
                    proof {
                        let om1 = game_views(out@);
                        assert(om1 == om0);
                        assert(sel_le(om0[k as int], c@));
                        assert(same_group(om0[k as int], c@));
                        assert forall|j: int| 0 <= j < i + 1 implies #[trigger] group_represented(cm, om1, j) by {
                            if j == i {
                                assert(same_group(cm[j], om0[k as int]));
                            }
                        }
                        assert forall|k1: int, j: int|
                            0 <= k1 < om1.len() && 0 <= j < i + 1 && #[trigger] same_group(
                                om1[k1],
                                cm[j],
                            ) implies sel_le(om1[k1], cm[j]) by {
                            if j == i {
                                assert(cm[j] == c@);
                                if k1 != k {
                                    assert(same_group(om0[k1], c@));
                                    if k1 < k {
                                        assert(same_group(om0[k1], om0[k as int]));
                                    } else {
                                        assert(same_group(om0[k as int], om0[k1]));
                                    }
                                    assert(false);
                                }
                            }
                        }
                    }
                }
            },
        }
        i = i + 1;
    }
    proof {
        let omf = game_views(out@);
        assert(forall|k: int| 0 <= k < omf.len() ==> cm.contains(#[trigger] omf[k]));
        assert(forall|j: int| 0 <= j < cm.len() ==> #[trigger] group_represented(cm, omf, j));
        assert(forall|k1: int, k2: int|
            0 <= k1 < k2 < omf.len() ==> !#[trigger] same_group(omf[k1], omf[k2]));
        assert(forall|k: int, j: int|
            0 <= k < omf.len() && 0 <= j < cm.len() && #[trigger] same_group(omf[k], cm[j])
                ==> sel_le(omf[k], cm[j]));
        assert(is_selection(cm, omf));
    }
    out
}

} // verus!