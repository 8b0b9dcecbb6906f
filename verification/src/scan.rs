//! The scan pipeline.
//!
//! A scan walks the directory tree under a root (pruning blacklisted
//! subtrees), classifies every surviving file entry, and collapses the
//! candidates to one survivor per group.  The traversal itself is the
//! filesystem's answer and is trusted; everything that happens to the
//! entries afterwards is verified against `candidates_of` and
//! `is_selection`.

use vstd::prelude::*;
use vstd::string::StringExecFns;
use crate::text::chars_of;
use crate::text::string_from_chars;
use crate::paths::ext_of;
use crate::text::lower_of;
use crate::classify::{
    FsEntry, EntryModel, GameInfo, GameModel, classify_model, classify_entry, in_blacklist,
    is_in_blacklist, allowed_type, type_of_ext, lemma_type_seq_allowed,
};
use crate::dedup::{game_views, is_selection, same_group, deduplicate, lemma_selection_deterministic};

verus! {

/// The fixed traversal depth of a shallow scan.
pub const SHALLOW_SCAN_DEPTH: usize = 3;

/// The views of a vector of entries.
pub open spec fn entry_views(s: Seq<FsEntry>) -> Seq<EntryModel> {
    s.map_values(|e: FsEntry| e@)
}

/// The views of a vector of strings.
pub open spec fn str_views(s: Seq<String>) -> Seq<Seq<char>> {
    s.map_values(|b: String| b@)
}

/// The candidates that a sequence of entries yields, in order.
pub open spec fn candidates_of(es: Seq<EntryModel>, fbl: Seq<Seq<char>>) -> Seq<GameModel>
    decreases es.len(),
{
    if es.len() == 0 {
        Seq::empty()
    } else {
        (match classify_model(es[0], fbl) {
            Some(g) => seq![g],
            None => Seq::<GameModel>::empty(),
        }) + candidates_of(es.drop_first(), fbl)
    }
}

/// Every candidate's `game_type` is one of the allowed kinds.
pub proof fn lemma_candidates_wf(es: Seq<EntryModel>, fbl: Seq<Seq<char>>)
    ensures
        forall|j: int|
            0 <= j < candidates_of(es, fbl).len() ==> allowed_type(
                #[trigger] candidates_of(es, fbl)[j].game_type,
            ),
    decreases es.len(),
{
    if es.len() > 0 {
        lemma_candidates_wf(es.drop_first(), fbl);
        let cs = candidates_of(es, fbl);
        let ct = candidates_of(es.drop_first(), fbl);
        assert forall|j: int| 0 <= j < cs.len() implies allowed_type(
            #[trigger] cs[j].game_type,
        ) by {
            match classify_model(es[0], fbl) {
                Some(g) => {
                    if j == 0 {
                        assert(cs[0] == g);
                        let x = ext_of(es[0].name)->Some_0;
                        let t = type_of_ext(lower_of(x))->Some_0;
                        lemma_type_seq_allowed(t);
                    } else {
                        assert(cs[j] == ct[j - 1]);
                    }
                },
                None => {
                    assert(cs[j] == ct[j]);
                },
            }
        }
    }
}

/// Entries with no files yield no candidates.
pub proof fn lemma_no_files_no_candidates(es: Seq<EntryModel>, fbl: Seq<Seq<char>>)
    requires
        forall|i: int| 0 <= i < es.len() ==> !(#[trigger] es[i]).is_file,
    ensures
        candidates_of(es, fbl).len() == 0,
    decreases es.len(),
{
    if es.len() > 0 {
        assert(!es[0].is_file);
        assert forall|i: int| 0 <= i < es.drop_first().len() implies !(
        #[trigger] es.drop_first()[i]).is_file by {
            assert(es.drop_first()[i] == es[i + 1]);
        }
        lemma_no_files_no_candidates(es.drop_first(), fbl);
    }
}

/// Every candidate comes from some entry.
proof fn lemma_candidate_source(es: Seq<EntryModel>, fbl: Seq<Seq<char>>, g: GameModel)
    requires
        candidates_of(es, fbl).contains(g),
    ensures
        exists|i: int| 0 <= i < es.len() && classify_model(#[trigger] es[i], fbl) == Some(g),
    decreases es.len(),
{
    let cs = candidates_of(es, fbl);
    let ct = candidates_of(es.drop_first(), fbl);
    let idx = choose|idx: int| 0 <= idx < cs.len() && cs[idx] == g;
    match classify_model(es[0], fbl) {
        Some(g0) => {
            if idx == 0 {
                assert(classify_model(es[0], fbl) == Some(g));
            } else {
                assert(ct[idx - 1] == g);
                assert(ct.contains(g));
                lemma_candidate_source(es.drop_first(), fbl, g);
                let i0 = choose|i0: int|
                    0 <= i0 < es.drop_first().len() && classify_model(
                        es.drop_first()[i0],
                        fbl,
                    ) == Some(g);
                assert(es.drop_first()[i0] == es[i0 + 1]);
                assert(classify_model(es[i0 + 1], fbl) == Some(g));
            }
        },
        None => {
            assert(ct[idx] == g);
            assert(ct.contains(g));
            lemma_candidate_source(es.drop_first(), fbl, g);
            let i0 = choose|i0: int|
                0 <= i0 < es.drop_first().len() && classify_model(es.drop_first()[i0], fbl)
                    == Some(g);
            assert(es.drop_first()[i0] == es[i0 + 1]);
            assert(classify_model(es[i0 + 1], fbl) == Some(g));
        },
    }
}

/// Every entry that classifies contributes its candidate.
proof fn lemma_candidate_member(es: Seq<EntryModel>, fbl: Seq<Seq<char>>, i: int)
    requires
        0 <= i < es.len(),
        classify_model(es[i], fbl) is Some,
    ensures
        candidates_of(es, fbl).contains(classify_model(es[i], fbl)->Some_0),
    decreases es.len(),
{
    let cs = candidates_of(es, fbl);
    let ct = candidates_of(es.drop_first(), fbl);
    let g = classify_model(es[i], fbl)->Some_0;
    if i == 0 {
        assert(cs[0] == g);
    } else {
        assert(es.drop_first()[i - 1] == es[i]);
        lemma_candidate_member(es.drop_first(), fbl, i - 1);
        let idx = choose|idx: int| 0 <= idx < ct.len() && ct[idx] == g;
        match classify_model(es[0], fbl) {
            Some(_) => {
                assert(cs[idx + 1] == g);
            },
            None => {
                assert(cs[idx] == g);
            },
        }
    }
}

/// Re-running a scan over an unchanged tree is order-independent: two
/// valid selections from the candidates of membership-equal entry
/// lists, in which a path identifies its entry, hold exactly the same
/// survivors.
pub proof fn lemma_scan_set_deterministic(
    es1: Seq<EntryModel>,
    es2: Seq<EntryModel>,
    fbl: Seq<Seq<char>>,
    o1: Seq<GameModel>,
    o2: Seq<GameModel>,
)
    requires
        forall|e: EntryModel| #[trigger] es1.contains(e) ==> es2.contains(e),
        forall|e: EntryModel| #[trigger] es2.contains(e) ==> es1.contains(e),
        forall|e1: EntryModel, e2: EntryModel|
            #[trigger] es1.contains(e1) && #[trigger] es1.contains(e2) && e1.path == e2.path
                ==> e1 == e2,
        is_selection(candidates_of(es1, fbl), o1),
        is_selection(candidates_of(es2, fbl), o2),
    ensures
        forall|g: GameModel| #[trigger] o1.contains(g) ==> o2.contains(g),
        forall|g: GameModel| #[trigger] o2.contains(g) ==> o1.contains(g),
{
    let c1 = candidates_of(es1, fbl);
    let c2 = candidates_of(es2, fbl);
    assert forall|x: GameModel| #[trigger] c1.contains(x) implies c2.contains(x) by {
        lemma_candidate_source(es1, fbl, x);
        let i = choose|i: int| 0 <= i < es1.len() && classify_model(#[trigger] es1[i], fbl)
            == Some(x);
        assert(es1.contains(es1[i]));
        assert(es2.contains(es1[i]));
        let j = choose|j: int| 0 <= j < es2.len() && es2[j] == es1[i];
        lemma_candidate_member(es2, fbl, j);
    }
    assert forall|x: GameModel| #[trigger] c2.contains(x) implies c1.contains(x) by {
        lemma_candidate_source(es2, fbl, x);
        let i = choose|i: int| 0 <= i < es2.len() && classify_model(#[trigger] es2[i], fbl)
            == Some(x);
        assert(es2.contains(es2[i]));
        assert(es1.contains(es2[i]));
        let j = choose|j: int| 0 <= j < es1.len() && es1[j] == es2[i];
        lemma_candidate_member(es1, fbl, j);
    }
    assert forall|g1: GameModel, g2: GameModel|
        #[trigger] c1.contains(g1) && #[trigger] c1.contains(g2) && g1.path == g2.path
            implies g1 == g2 by {
        lemma_candidate_source(es1, fbl, g1);
        lemma_candidate_source(es1, fbl, g2);
        let i1 = choose|i1: int| 0 <= i1 < es1.len() && classify_model(#[trigger] es1[i1], fbl)
            == Some(g1);
        let i2 = choose|i2: int| 0 <= i2 < es1.len() && classify_model(#[trigger] es1[i2], fbl)
            == Some(g2);
        assert(g1.path == es1[i1].path);
        assert(g2.path == es1[i2].path);
        assert(es1.contains(es1[i1]));
        assert(es1.contains(es1[i2]));
        assert(es1[i1] == es1[i2]);
    }
    lemma_selection_deterministic(c1, o1, c2, o2);
}

/// Scans a list of entries: classifies each one and deduplicates the
/// candidates.  The result is a valid selection from exactly the
/// candidates of the given entries; every survivor has an allowed
/// `game_type`, and no two survivors share a group.
pub fn scan_entries(entries: &Vec<FsEntry>, file_blacklist: &Vec<String>) -> (r: Vec<GameInfo>)
    ensures
        is_selection(
            candidates_of(entry_views(entries@), str_views(file_blacklist@)),
            game_views(r@),
        ),
        forall|i: int|
            0 <= i < r@.len() ==> allowed_type(#[trigger] game_views(r@)[i].game_type),
        forall|i1: int, i2: int|
            0 <= i1 < i2 < r@.len() ==> !same_group(game_views(r@)[i1], game_views(r@)[i2]),
{
    let ghost evs = entry_views(entries@);
    let ghost fbl = str_views(file_blacklist@);
    let mut cands: Vec<GameInfo> = Vec::new();
    let mut i: usize = 0;
    proof {
        assert(evs.skip(0) =~= evs);
    }
    while i < entries.len()
        invariant
            i <= entries@.len(),
            evs == entry_views(entries@),
            fbl == str_views(file_blacklist@),
            candidates_of(evs, fbl) == game_views(cands@) + candidates_of(
                evs.skip(i as int),
                fbl,
            ),
        decreases entries@.len() - i,
    {
        proof {
            assert(evs.skip(i as int)[0] == evs[i as int]);
            assert(evs.skip(i as int).drop_first() =~= evs.skip(i + 1));
            assert(evs[i as int] == entries@[i as int]@);
        }
        match classify_entry(&entries[i], file_blacklist) {
            Some(g) => {
                let ghost gm0 = game_views(cands@);
                cands.push(g);
                proof {
                    assert(game_views(cands@) =~= gm0.push(g@));
                    assert(gm0.push(g@) + candidates_of(evs.skip(i + 1), fbl) =~= gm0 + (seq![g@]
                        + candidates_of(evs.skip(i + 1), fbl)));
                }
            },
            None => {},
        }
        i = i + 1;
    }
    proof {
        assert(evs.skip(entries@.len() as int) =~= Seq::<EntryModel>::empty());
        assert(candidates_of(evs, fbl) =~= game_views(cands@));
    }
    let r = deduplicate(&cands);
    proof {
        let cs = candidates_of(evs, fbl);
        let gv = game_views(r@);
        lemma_candidates_wf(evs, fbl);
        assert forall|t: int| 0 <= t < gv.len() implies allowed_type(
            #[trigger] gv[t].game_type,
        ) by {
            assert(cs.contains(gv[t]));
            let u = choose|u: int| 0 <= u < cs.len() && cs[u] == gv[t];
            assert(allowed_type(cs[u].game_type));
        }
    }
    r
}

/// Relies on `walkdir::WalkDir` with `max_depth` and `filter_entry`: a
/// depth-first traversal of `root` that prunes — whole subtree
/// included — every non-file entry whose name `is_in_blacklist`
/// rejects, silently drops entries that fail to read, and reports each
/// surviving entry's path, file name and file kind.  What comes back
/// depends on the filesystem; only the blacklist filter is promised.
#[verifier::external_body]
fn walk_tree(root: &str, max_depth: usize, dir_blacklist: &Vec<String>) -> (r: Vec<FsEntry>)
    ensures
        forall|i: int|
            0 <= i < r@.len() ==> (#[trigger] r@[i])@.is_file || !in_blacklist(
                r@[i]@.name,
                str_views(dir_blacklist@),
            ),
{
    walkdir::WalkDir::new(root)
        .max_depth(max_depth)
        .into_iter()
        .filter_entry(|e| e.file_type().is_file()
            || !is_in_blacklist(&e.file_name().to_string_lossy(), dir_blacklist))
        .filter_map(|e| e.ok())
        .map(|e| FsEntry {
            path: e.path().to_string_lossy().to_string(),
            name: e.file_name().to_string_lossy().to_string(),
            is_file: e.file_type().is_file(),
        })
        .collect()
}

/// Relies on `walkdir::WalkDir` with depth 0: the root itself is
/// yielded when it can be read, and its file type says whether it is a
/// directory.  The answer depends on the filesystem, so nothing is
/// promised of it.
#[verifier::external_body]
fn root_is_directory(root: &str) -> bool {
    match walkdir::WalkDir::new(root).max_depth(0).into_iter().next() {
        Some(Ok(e)) => e.file_type().is_dir(),
        _ => false,
    }
}

/// Scans the tree under `path` for game launch files.
///
/// A root that cannot be read as a directory is rejected up front with
/// a descriptive error.  Otherwise the tree is traversed — fully under
/// `deep_search`, to `SHALLOW_SCAN_DEPTH` otherwise — pruning subtrees
/// whose directory name is blacklisted, and the surviving entries run
/// through the verified pipeline: whatever the traversal returned, the
/// result is a valid selection from the candidates of those entries,
/// no directory among which bears a blacklisted name.
pub fn scan_for_games_recursively(
    path: String,
    deep_search: bool,
    dir_blacklist: Vec<String>,
    file_blacklist: Vec<String>,
) -> (r: Result<Vec<GameInfo>, String>)
    ensures
        r matches Ok(games) ==> exists|es: Seq<EntryModel>|
            {
                &&& forall|i: int|
                    0 <= i < es.len() ==> (#[trigger] es[i]).is_file || !in_blacklist(
                        es[i].name,
                        str_views(dir_blacklist@),
                    )
                &&& is_selection(
                    candidates_of(es, str_views(file_blacklist@)),
                    game_views(games@),
                )
            },
        r matches Ok(games) ==> forall|i: int|
            0 <= i < games@.len() ==> allowed_type(#[trigger] game_views(games@)[i].game_type),
{
    if !root_is_directory(path.as_str()) {
        let msg = string_from_chars(&chars_of("not an accessible directory: ")).concat(
            path.as_str(),
        );
        return Err(msg);
    }
    let max_depth = if deep_search {
        usize::MAX
    } else {
        SHALLOW_SCAN_DEPTH
    };
    let entries = walk_tree(path.as_str(), max_depth, &dir_blacklist);
    let games = scan_entries(&entries, &file_blacklist);
    proof {
        let es = entry_views(entries@);
        assert forall|i: int| 0 <= i < es.len() implies (#[trigger] es[i]).is_file
            || !in_blacklist(es[i].name, str_views(dir_blacklist@)) by {
            assert(es[i] == entries@[i]@);
        }
    }
    Ok(games)
}

} // verus!
