use game_scanner::{scan_entries, deduplicate, is_in_blacklist, FsEntry, GameInfo};

fn file(dir: &str, name: &str) -> FsEntry {
    FsEntry { path: format!("{}/{}", dir, name), name: name.to_string(), is_file: true }
}

fn dir_entry(path: &str, name: &str) -> FsEntry {
    FsEntry { path: path.to_string(), name: name.to_string(), is_file: false }
}

fn scan(entries: Vec<FsEntry>) -> Vec<GameInfo> {
    scan_entries(&entries, &Vec::new())
}

#[test]
fn exe_beats_its_32_bit_variant() {
    let games = scan(vec![file("/g/Game", "Game.exe"), file("/g/Game", "Game-32.exe")]);
    assert_eq!(games.len(), 1);
    assert_eq!(games[0].path, "/g/Game/Game.exe");
    assert_eq!(games[0].game_type, "exe");
}

#[test]
fn sh_beats_bat() {
    let games = scan(vec![file("/g/Game", "run.sh"), file("/g/Game", "run.bat")]);
    assert_eq!(games.len(), 1);
    assert_eq!(games[0].name, "run.sh");
}

#[test]
fn exe_beats_sh_and_py_loses_to_bat() {
    let games = scan(vec![file("/g/a", "start.sh"), file("/g/a", "start.exe")]);
    assert_eq!(games.len(), 1);
    assert_eq!(games[0].name, "start.exe");

    let games = scan(vec![file("/g/b", "start.py"), file("/g/b", "start.bat")]);
    assert_eq!(games.len(), 1);
    assert_eq!(games[0].name, "start.bat");
}

#[test]
fn equal_rank_tie_breaks_on_lexicographic_path() {
    let games = scan(vec![file("/g/c", "run.cmd"), file("/g/c", "run.bat")]);
    assert_eq!(games.len(), 1);
    assert_eq!(games[0].name, "run.bat");
}

#[test]
fn same_name_in_different_directories_never_merges() {
    let games = scan(vec![file("/g/one", "Game.exe"), file("/g/two", "Game.exe")]);
    assert_eq!(games.len(), 2);
}

#[test]
fn repeated_arch_suffixes_group_together() {
    let games = scan(vec![file("/g/d", "Game-32-32.exe"), file("/g/d", "game.exe")]);
    assert_eq!(games.len(), 1);
    assert_eq!(games[0].name, "game.exe");
}

#[test]
fn case_differences_group_together() {
    let games = scan(vec![file("/g/e", "GAME.exe"), file("/g/e", "game.sh")]);
    assert_eq!(games.len(), 1);
    assert_eq!(games[0].name, "GAME.exe");
}

#[test]
fn uppercase_extension_is_classified_lowercased() {
    let games = scan(vec![file("/g/f", "Play.EXE")]);
    assert_eq!(games.len(), 1);
    assert_eq!(games[0].game_type, "exe");
    assert_eq!(games[0].name, "Play.EXE");
}

#[test]
fn disallowed_extensions_and_plain_files_are_ignored() {
    let games = scan(vec![
        file("/g/h", "readme.txt"),
        file("/g/h", "data.bin"),
        file("/g/h", "nodotname"),
        file("/g/h", ".exe"),
    ]);
    assert!(games.is_empty());
}

#[test]
fn directories_are_never_candidates() {
    let games = scan(vec![dir_entry("/g/i/folder.exe", "folder.exe")]);
    assert!(games.is_empty());
}

#[test]
fn file_blacklist_is_case_insensitive() {
    let fbl = vec!["uninstall.exe".to_string()];
    let entries = vec![file("/g/j", "Uninstall.exe"), file("/g/j", "game.exe")];
    let games = scan_entries(&entries, &fbl);
    assert_eq!(games.len(), 1);
    assert_eq!(games[0].name, "game.exe");
}

#[test]
fn all_game_types_come_from_the_allow_list() {
    let entries = vec![
        file("/m/a", "a.exe"),
        file("/m/b", "b.py"),
        file("/m/c", "c.sh"),
        file("/m/d", "d.bat"),
        file("/m/e", "e.cmd"),
        file("/m/f", "f.txt"),
    ];
    let games = scan(entries);
    assert_eq!(games.len(), 5);
    for g in &games {
        assert!(["exe", "py", "sh", "bat", "cmd"].contains(&g.game_type.as_str()));
    }
}

#[test]
fn no_two_survivors_share_directory_and_base_key() {
    let entries = vec![
        file("/n/x", "Game.exe"),
        file("/n/x", "Game-32.exe"),
        file("/n/x", "game.sh"),
        file("/n/x", "Other.exe"),
        file("/n/y", "Game.exe"),
    ];
    let games = scan(entries);
    assert_eq!(games.len(), 3);
    for a in 0..games.len() {
        for b in (a + 1)..games.len() {
            let pa = games[a].path.rsplit_once('/').map(|t| t.0);
            let pb = games[b].path.rsplit_once('/').map(|t| t.0);
            let ka = games[a].name.to_lowercase();
            let kb = games[b].name.to_lowercase();
            assert!(pa != pb || ka != kb);
        }
    }
}

#[test]
fn empty_entry_list_scans_to_nothing() {
    assert!(scan(Vec::new()).is_empty());
}

#[test]
fn directory_only_tree_scans_to_nothing() {
    let games = scan(vec![dir_entry("/empty", "empty")]);
    assert!(games.is_empty());
}

#[test]
fn reordered_entries_give_a_set_equal_result() {
    let mut entries = vec![
        file("/p/a", "Game.exe"),
        file("/p/a", "Game-32.exe"),
        file("/p/a", "game.sh"),
        file("/p/b", "run.bat"),
        file("/p/b", "run.cmd"),
        file("/p/c", "tool-2.0.py"),
    ];
    let first = scan(entries.clone());
    entries.reverse();
    let second = scan(entries);
    let mut p1: Vec<String> = first.iter().map(|g| g.path.clone()).collect();
    let mut p2: Vec<String> = second.iter().map(|g| g.path.clone()).collect();
    p1.sort();
    p2.sort();
    assert_eq!(p1, p2);
}

#[test]
fn candidate_version_is_recorded() {
    let games = scan(vec![file("/q/Saga-v3.2-pc", "saga.exe")]);
    assert_eq!(games.len(), 1);
    assert_eq!(games[0].version.as_deref(), Some("v3.2"));

    let games = scan(vec![file("/q/Plain", "plain.exe")]);
    assert_eq!(games[0].version, None);
}

#[test]
fn deduplicate_keeps_group_minimum() {
    let mk = |name: &str, gt: &str| GameInfo {
        name: name.to_string(),
        path: format!("/r/s/{}", name),
        game_type: gt.to_string(),
        version: None,
    };
    let cands = vec![mk("thing.py", "py"), mk("thing.sh", "sh"), mk("thing.bat", "bat")];
    let out = deduplicate(&cands);
    assert_eq!(out.len(), 1);
    assert_eq!(out[0].name, "thing.sh");
}

#[test]
fn blacklist_matches_any_casing_of_either_side() {
    let bl = vec!["node_modules".to_string()];
    assert!(is_in_blacklist("NODE_Modules", &bl));
    assert!(is_in_blacklist("node_modules", &bl));
    assert!(!is_in_blacklist("node-modules", &bl));

    let bl_upper = vec!["Redist".to_string()];
    assert!(is_in_blacklist("redist", &bl_upper));
    assert!(!is_in_blacklist("redists", &bl_upper));
}

#[test]
fn empty_extension_is_not_classified() {
    let games = scan(vec![file("/g/k", "weird.")]);
    assert!(games.is_empty());
}
