use game_scanner::{scan_tree, walk_node, FsNode};

fn dir(name: &str, children: Vec<FsNode>) -> FsNode {
    FsNode { name: name.to_string(), is_file: false, children }
}

fn leaf(name: &str) -> FsNode {
    FsNode { name: name.to_string(), is_file: true, children: Vec::new() }
}

#[test]
fn walk_yields_every_node_with_joined_paths() {
    let tree = dir("root", vec![leaf("a.exe"), dir("sub", vec![leaf("b.sh")])]);
    let entries = walk_node(&tree, "/root", 10, &Vec::new());
    let paths: Vec<&str> = entries.iter().map(|e| e.path.as_str()).collect();
    assert_eq!(paths, vec!["/root", "/root/a.exe", "/root/sub", "/root/sub/b.sh"]);
}

#[test]
fn walk_prunes_a_blacklisted_subtree_entirely() {
    let tree = dir(
        "root",
        vec![
            dir("node_modules", vec![leaf("bad.exe"), dir("deep", vec![leaf("worse.exe")])]),
            leaf("good.exe"),
        ],
    );
    let bl = vec!["node_modules".to_string()];
    let entries = walk_node(&tree, "/root", 10, &bl);
    let names: Vec<&str> = entries.iter().map(|e| e.name.as_str()).collect();
    assert_eq!(names, vec!["root", "good.exe"]);
}

#[test]
fn walk_blacklist_spares_plain_files() {
    // the directory blacklist prunes directories, not files
    let tree = dir("root", vec![leaf("redist.exe"), dir("redist", vec![leaf("inner.exe")])]);
    let bl = vec!["redist".to_string()];
    let entries = walk_node(&tree, "/root", 10, &bl);
    let names: Vec<&str> = entries.iter().map(|e| e.name.as_str()).collect();
    assert_eq!(names, vec!["root", "redist.exe"]);
}

#[test]
fn walk_stops_at_the_depth_budget() {
    let tree = dir("d0", vec![dir("d1", vec![dir("d2", vec![leaf("deep.exe")])])]);
    let shallow = walk_node(&tree, "/d0", 2, &Vec::new());
    assert_eq!(shallow.len(), 3); // d0, d1, d2 — but not deep.exe
    let full = walk_node(&tree, "/d0", 3, &Vec::new());
    assert_eq!(full.len(), 4);
}

#[test]
fn tree_scan_finds_and_deduplicates() {
    let tree = dir(
        "games",
        vec![
            dir("GameA", vec![leaf("Game.exe"), leaf("Game-32.exe")]),
            dir("GameB", vec![leaf("run.sh"), leaf("run.bat")]),
            leaf("notes.txt"),
        ],
    );
    let games = scan_tree(&tree, false, &Vec::new(), &Vec::new());
    let mut names: Vec<String> = games.iter().map(|g| g.name.clone()).collect();
    names.sort();
    assert_eq!(names, vec!["Game.exe".to_string(), "run.sh".to_string()]);
}

#[test]
fn tree_scan_of_empty_directory_is_empty() {
    let games = scan_tree(&dir("empty", Vec::new()), true, &Vec::new(), &Vec::new());
    assert!(games.is_empty());
}

#[test]
fn tree_scan_blacklisted_directory_contributes_zero_candidates() {
    let tree = dir(
        "root",
        vec![
            dir("Keep", vec![leaf("keep.exe")]),
            dir("Trash", vec![leaf("trash.exe"), dir("inner", vec![leaf("more.exe")])]),
        ],
    );
    let bl = vec!["TRASH".to_string()];
    let games = scan_tree(&tree, true, &Vec::new(), &Vec::new());
    assert_eq!(games.len(), 3);
    let games = scan_tree(&tree, true, &bl, &Vec::new());
    assert_eq!(games.len(), 1);
    assert!(games[0].path.ends_with("keep.exe"));
}

#[test]
fn tree_scan_shallow_depth_matches_the_constant() {
    // files at depth 4 fall outside a shallow scan
    let tree = dir(
        "r",
        vec![dir("a", vec![dir("b", vec![dir("c", vec![leaf("deep.exe")]), leaf("mid.exe")])])],
    );
    let shallow = scan_tree(&tree, false, &Vec::new(), &Vec::new());
    assert_eq!(shallow.len(), 1);
    assert!(shallow[0].path.ends_with("mid.exe"));
    let deep = scan_tree(&tree, true, &Vec::new(), &Vec::new());
    assert_eq!(deep.len(), 2);
}
