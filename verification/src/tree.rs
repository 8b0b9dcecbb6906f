//! A verified tree walker.
//!
//! `FsNode` is an in-memory directory tree, and `walk_model` is the
//! walker's contract: a node is yielded unless it is a directory with
//! a blacklisted name — in which case its whole subtree is pruned —
//! and a directory's children are visited while the depth budget
//! lasts.  `scan_tree` runs the complete engine over such a tree, so
//! every stage of a scan over it is verified end to end.

use vstd::prelude::*;
use crate::text::{chars_of, string_from_chars};
use crate::classify::{FsEntry, EntryModel, GameInfo, GameModel, in_blacklist, is_in_blacklist};
use crate::dedup::{game_views, is_selection, lemma_empty_selection};
use crate::scan::{
    entry_views, str_views, candidates_of, scan_entries, lemma_no_files_no_candidates,
};

verus! {

/// One node of an in-memory directory tree: a file, or a directory
/// with its children.
pub struct FsNode {
    pub name: String,
    pub is_file: bool,
    pub children: Vec<FsNode>,
}

/// The path of a child of the directory at `base`.
pub open spec fn child_path(base: Seq<char>, name: Seq<char>) -> Seq<char> {
    base + seq!['/'] + name
}

/// The entries a walk of `node`, standing at `path`, yields: nothing
/// for a directory with a blacklisted name; otherwise the node itself,
/// then its children's walks in order while the depth budget lasts.
pub open spec fn walk_model(
    node: FsNode,
    path: Seq<char>,
    depth_left: nat,
    dbl: Seq<Seq<char>>,
) -> Seq<EntryModel>
    decreases node, 1int,
{
    if !node.is_file && in_blacklist(node.name@, dbl) {
        Seq::empty()
    } else {
        let own = EntryModel { path: path, name: node.name@, is_file: node.is_file };
        if node.is_file || depth_left == 0 {
            seq![own]
        } else {
            seq![own] + walk_children(node.children@, path, (depth_left - 1) as nat, dbl)
        }
    }
}

/// The concatenated walks of a directory's children.
pub open spec fn walk_children(
    children: Seq<FsNode>,
    base: Seq<char>,
    depth_left: nat,
    dbl: Seq<Seq<char>>,
) -> Seq<EntryModel>
    decreases children, 0int,
{
    if children.len() == 0 {
        Seq::empty()
    } else {
        walk_model(children[0], child_path(base, children[0].name@), depth_left, dbl)
            + walk_children(children.drop_first(), base, depth_left, dbl)
    }
}

/// A blacklisted directory contributes nothing to a walk: not itself,
/// and none of its descendants.
pub proof fn lemma_blacklisted_dir_contributes_nothing(
    node: FsNode,
    path: Seq<char>,
    depth_left: nat,
    dbl: Seq<Seq<char>>,
)
    requires
        !node.is_file,
        in_blacklist(node.name@, dbl),
    ensures
        walk_model(node, path, depth_left, dbl).len() == 0,
{
}

/// Every entry of a walk that is not a file — every directory — bears
/// a name the blacklist does not hold.
pub proof fn lemma_walk_respects_blacklist(
    node: FsNode,
    path: Seq<char>,
    depth_left: nat,
    dbl: Seq<Seq<char>>,
)
    ensures
        forall|i: int|
            0 <= i < walk_model(node, path, depth_left, dbl).len() ==> ((
            #[trigger] walk_model(node, path, depth_left, dbl)[i]).is_file || !in_blacklist(
                walk_model(node, path, depth_left, dbl)[i].name,
                dbl,
            )),
    decreases node, 1int,
{
    let es = walk_model(node, path, depth_left, dbl);
    if !(!node.is_file && in_blacklist(node.name@, dbl)) {
        let own = EntryModel { path: path, name: node.name@, is_file: node.is_file };
        if !node.is_file && depth_left > 0 {
            let d2 = (depth_left - 1) as nat;
            lemma_walk_children_respects_blacklist(node.children@, path, d2, dbl);
            let tail = walk_children(node.children@, path, d2, dbl);
            assert forall|i: int| 0 <= i < es.len() implies ((#[trigger] es[i]).is_file
                || !in_blacklist(es[i].name, dbl)) by {
                if i == 0 {
                    assert(es[0] == own);
                } else {
                    assert(es[i] == tail[i - 1]);
                }
            }
        } else {
            assert(es[0] == own);
        }
    }
}

proof fn lemma_walk_children_respects_blacklist(
    children: Seq<FsNode>,
    base: Seq<char>,
    depth_left: nat,
    dbl: Seq<Seq<char>>,
)
    ensures
        forall|i: int|
            0 <= i < walk_children(children, base, depth_left, dbl).len() ==> ((
            #[trigger] walk_children(children, base, depth_left, dbl)[i]).is_file
                || !in_blacklist(walk_children(children, base, depth_left, dbl)[i].name, dbl)),
    decreases children, 0int,
{
    if children.len() > 0 {
        lemma_walk_respects_blacklist(
            children[0],
            child_path(base, children[0].name@),
            depth_left,
            dbl,
        );
        lemma_walk_children_respects_blacklist(children.drop_first(), base, depth_left, dbl);
        let cs = walk_children(children, base, depth_left, dbl);
        let head = walk_model(children[0], child_path(base, children[0].name@), depth_left, dbl);
        let rest = walk_children(children.drop_first(), base, depth_left, dbl);
        assert forall|i: int| 0 <= i < cs.len() implies ((#[trigger] cs[i]).is_file
            || !in_blacklist(cs[i].name, dbl)) by {
            if i < head.len() {
                assert(cs[i] == head[i]);
            } else {
                assert(cs[i] == rest[i - head.len()]);
            }
        }
    }
}

/// Joins a directory path and a child name.
fn join_path(base: &str, name: &str) -> (r: String)
    ensures
        r@ == child_path(base@, name@),
{
    let mut v = chars_of(base);
    v.push('/');
    let w = chars_of(name);
    let ghost mid = v@;
    let mut j: usize = 0;
    while j < w.len()
        invariant
            j <= w@.len(),
            v@ == mid + w@.take(j as int),
        decreases w@.len() - j,
    {
        v.push(w[j]);
        j = j + 1;
        proof {
            assert(mid + w@.take(j as int) =~= (mid + w@.take(j - 1)).push(w@[j - 1]));
        }
    }
    proof {
        assert(w@.take(w@.len() as int) =~= w@);
        assert(v@ =~= child_path(base@, name@));
    }
    string_from_chars(&v)
}

/// Walks the tree under `node`, as `walk_model` states.
pub fn walk_node(
    node: &FsNode,
    path: &str,
    depth_left: usize,
    dir_blacklist: &Vec<String>,
) -> (r: Vec<FsEntry>)
    ensures
        entry_views(r@) == walk_model(
            *node,
            path@,
            depth_left as nat,
            str_views(dir_blacklist@),
        ),
    decreases *node,
{
    let ghost dbl = str_views(dir_blacklist@);
    let mut r: Vec<FsEntry> = Vec::new();
    if !node.is_file && is_in_blacklist(node.name.as_str(), dir_blacklist) {
        proof {
            assert(entry_views(r@) =~= walk_model(*node, path@, depth_left as nat, dbl));
        }
        return r;
    }
    let own = FsEntry {
        path: string_from_chars(&chars_of(path)),
        name: node.name.clone(),
        is_file: node.is_file,
    };
    let ghost own_model = EntryModel { path: path@, name: node.name@, is_file: node.is_file };
    r.push(own);
    proof {
        assert(entry_views(r@) =~= seq![own_model]);
    }
    if node.is_file || depth_left == 0 {
        return r;
    }
    let ghost kids = node.children@;
    let ghost d2 = (depth_left - 1) as nat;
    let mut i: usize = 0;
    proof {
        assert(kids.skip(0) =~= kids);
        assert(walk_children(kids.skip(0), path@, d2, dbl) == walk_children(kids, path@, d2, dbl));
    }
    while i < node.children.len()
        invariant
            i <= node.children@.len(),
            kids == node.children@,
            dbl == str_views(dir_blacklist@),
            d2 == (depth_left - 1) as nat,
            depth_left >= 1,
            !node.is_file,
            entry_views(r@) + walk_children(kids.skip(i as int), path@, d2, dbl) == walk_model(
                *node,
                path@,
                depth_left as nat,
                dbl,
            ),
        decreases node.children@.len() - i,
    {
        proof {
            assert(kids.skip(i as int)[0] == kids[i as int]);
            assert(kids.skip(i as int).drop_first() =~= kids.skip(i + 1));
        }
        let child = &node.children[i];
        let cpath = join_path(path, child.name.as_str());
        let mut sub = walk_node(child, cpath.as_str(), depth_left - 1, dir_blacklist);
        let ghost rv0 = entry_views(r@);
        let ghost sv = entry_views(sub@);
        r.append(&mut sub);
        proof {
            assert(entry_views(r@) =~= rv0 + sv);
            assert((rv0 + sv) + walk_children(kids.skip(i + 1), path@, d2, dbl) =~= rv0 + (sv
                + walk_children(kids.skip(i + 1), path@, d2, dbl)));
        }
        i = i + 1;
    }
    proof {
        assert(kids.skip(kids.len() as int) =~= Seq::<FsNode>::empty());
        assert(entry_views(r@) + Seq::<EntryModel>::empty() =~= entry_views(r@));
    }
    r
}

/// Runs the whole engine over an in-memory tree: walks it from the
/// root path `/` with the given depth behaviour, classifies the
/// entries, and deduplicates.  The result is a valid selection from
/// exactly the candidates of that walk.
pub fn scan_tree(
    root: &FsNode,
    deep_search: bool,
    dir_blacklist: &Vec<String>,
    file_blacklist: &Vec<String>,
) -> (r: Vec<GameInfo>)
    ensures
        ({
            let depth: nat = if deep_search {
                usize::MAX as nat
            } else {
                crate::scan::SHALLOW_SCAN_DEPTH as nat
            };
            is_selection(
                candidates_of(
                    walk_model(*root, "/"@, depth, str_views(dir_blacklist@)),
                    str_views(file_blacklist@),
                ),
                game_views(r@),
            )
        }),
{
    let max_depth = if deep_search {
        usize::MAX
    } else {
        crate::scan::SHALLOW_SCAN_DEPTH
    };
    let entries = walk_node(root, "/", max_depth, dir_blacklist);
    scan_entries(&entries, file_blacklist)
}

/// A scan over an empty directory returns an empty result: a childless
/// directory's walk holds no file, so nothing survives selection.
pub proof fn lemma_empty_dir_scan(
    node: FsNode,
    path: Seq<char>,
    depth_left: nat,
    dbl: Seq<Seq<char>>,
    fbl: Seq<Seq<char>>,
    out: Seq<GameModel>,
)
    requires
        !node.is_file,
        node.children@.len() == 0,
        is_selection(candidates_of(walk_model(node, path, depth_left, dbl), fbl), out),
    ensures
        out.len() == 0,
{
    let es = walk_model(node, path, depth_left, dbl);
    assert forall|i: int| 0 <= i < es.len() implies !(#[trigger] es[i]).is_file by {
        if depth_left > 0 && !in_blacklist(node.name@, dbl) {
            assert(walk_children(node.children@, path, (depth_left - 1) as nat, dbl)
                =~= Seq::<EntryModel>::empty());
        }
    }
    lemma_no_files_no_candidates(es, fbl);
    lemma_empty_selection(candidates_of(es, fbl), out);
}

} // verus!
