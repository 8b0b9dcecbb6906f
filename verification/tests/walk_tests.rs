use std::io::{Cursor, Write};

use zip::write::{FileOptions, ZipWriter};

use game_scanner::scan_for_games_recursively;

/// Lays a small directory tree out under `root` by extracting an
/// archive built in memory.
fn build_tree(root: &str, dirs: &[&str], files: &[&str]) {
    let mut cursor = Cursor::new(Vec::new());
    {
        let mut zw = ZipWriter::new(&mut cursor);
        let opts: FileOptions<'_, ()> = FileOptions::default();
        for d in dirs {
            zw.add_directory(*d, opts).unwrap();
        }
        for f in files {
            zw.start_file(*f, opts).unwrap();
            zw.write_all(b"x").unwrap();
        }
        zw.finish().unwrap();
    }
    cursor.set_position(0);
    let mut za = zip::ZipArchive::new(cursor).unwrap();
    za.extract(root).unwrap();
}

#[test]
fn nonexistent_root_is_rejected_up_front() {
    let r = scan_for_games_recursively(
        "/tmp/scan_fixture_missing/none".to_string(),
        false,
        Vec::new(),
        Vec::new(),
    );
    assert!(r.is_err());
}

#[test]
fn file_root_is_rejected_up_front() {
    let root = "/tmp/scan_fixture_fileroot";
    build_tree(root, &[], &["plain.exe"]);
    let r = scan_for_games_recursively(
        format!("{}/plain.exe", root),
        false,
        Vec::new(),
        Vec::new(),
    );
    assert!(r.is_err());
}

#[test]
fn scan_finds_and_deduplicates_games() {
    let root = "/tmp/scan_fixture_basic";
    build_tree(
        root,
        &[],
        &["GameA/Game.exe", "GameA/Game-32.exe", "GameB/run.sh", "GameB/run.bat", "notes.txt"],
    );
    let r = scan_for_games_recursively(root.to_string(), false, Vec::new(), Vec::new()).unwrap();
    let mut names: Vec<String> = r.iter().map(|g| g.name.clone()).collect();
    names.sort();
    assert_eq!(names, vec!["Game.exe".to_string(), "run.sh".to_string()]);
}

#[test]
fn empty_directory_scans_to_empty_result() {
    let root = "/tmp/scan_fixture_empty";
    build_tree(root, &["only_dir"], &[]);
    let r = scan_for_games_recursively(
        format!("{}/only_dir", root),
        false,
        Vec::new(),
        Vec::new(),
    )
    .unwrap();
    assert!(r.is_empty());
}

#[test]
fn blacklisted_directory_contributes_nothing_from_any_depth() {
    let root = "/tmp/scan_fixture_blacklist";
    build_tree(
        root,
        &[],
        &[
            "Good/game.exe",
            "node_modules/bad.exe",
            "node_modules/deep/worse.exe",
            "NODE_MODULES_NOT/ok.exe",
        ],
    );
    let bl = vec!["node_modules".to_string()];
    let r = scan_for_games_recursively(root.to_string(), false, bl, Vec::new()).unwrap();
    let mut paths: Vec<String> = r.iter().map(|g| g.path.clone()).collect();
    paths.sort();
    assert_eq!(paths.len(), 2);
    assert!(paths[0].ends_with("Good/game.exe"));
    assert!(paths[1].ends_with("NODE_MODULES_NOT/ok.exe"));
}

#[test]
fn blacklist_prunes_under_any_casing() {
    let root = "/tmp/scan_fixture_casing";
    build_tree(root, &[], &["Redist/setup.exe", "Keep/keep.exe"]);
    let bl = vec!["rEdIsT".to_string()];
    let r = scan_for_games_recursively(root.to_string(), false, bl, Vec::new()).unwrap();
    assert_eq!(r.len(), 1);
    assert!(r[0].path.ends_with("keep.exe"));
}

#[test]
fn shallow_scan_stops_at_depth_three() {
    let root = "/tmp/scan_fixture_depth";
    build_tree(
        root,
        &[],
        &["a/one.exe", "a/b/two.exe", "a/b/c/three.exe", "a/b/c/d/four.exe"],
    );
    let shallow =
        scan_for_games_recursively(root.to_string(), false, Vec::new(), Vec::new()).unwrap();
    let deep =
        scan_for_games_recursively(root.to_string(), true, Vec::new(), Vec::new()).unwrap();
    assert_eq!(shallow.len(), 2);
    assert_eq!(deep.len(), 4);
}

#[test]
fn file_blacklist_applies_during_a_real_scan() {
    let root = "/tmp/scan_fixture_fileblack";
    build_tree(root, &[], &["G/unins000.exe", "G/game.exe"]);
    let fbl = vec!["unins000.exe".to_string()];
    let r = scan_for_games_recursively(root.to_string(), false, Vec::new(), fbl).unwrap();
    assert_eq!(r.len(), 1);
    assert!(r[0].path.ends_with("game.exe"));
}

#[test]
fn rescanning_an_unchanged_tree_is_set_equal() {
    let root = "/tmp/scan_fixture_rescan";
    build_tree(
        root,
        &[],
        &["A/x.exe", "A/x-32.exe", "B/y.sh", "B/y.py", "C/z-1.2.bat"],
    );
    let first = scan_for_games_recursively(root.to_string(), true, Vec::new(), Vec::new()).unwrap();
    let second =
        scan_for_games_recursively(root.to_string(), true, Vec::new(), Vec::new()).unwrap();
    let mut p1: Vec<String> = first.iter().map(|g| g.path.clone()).collect();
    let mut p2: Vec<String> = second.iter().map(|g| g.path.clone()).collect();
    p1.sort();
    p2.sort();
    assert_eq!(p1, p2);
}
