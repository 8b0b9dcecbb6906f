use game_scanner::{extract_version_from_path, find_version_in_name};

#[test]
fn version_from_parent_directory_with_pc_suffix() {
    let v = extract_version_from_path("/Games/MyGame-v1.2.3-pc/MyGame.exe");
    assert_eq!(v.as_deref(), Some("v1.2.3"));
}

#[test]
fn version_falls_back_to_file_name() {
    let v = extract_version_from_path("/Games/MyGame/game-1.0.exe");
    assert_eq!(v.as_deref(), Some("1.0"));
}

#[test]
fn version_file_name_extension_is_stripped_first() {
    // the stem is analysed, so the extension never leaks into the token
    let v = extract_version_from_path("game-1.0.exe");
    assert_eq!(v.as_deref(), Some("1.0"));
}

#[test]
fn version_none_when_no_digits_anywhere() {
    assert_eq!(extract_version_from_path("/Games/MyGame/play.exe"), None);
}

#[test]
fn version_windows_separators() {
    let v = extract_version_from_path("C:\\Games\\Thing-2.5\\thing.exe");
    assert_eq!(v.as_deref(), Some("2.5"));
}

#[test]
fn name_simple_token() {
    assert_eq!(find_version_in_name("MyGame-v1.2.3-pc").as_deref(), Some("v1.2.3"));
}

#[test]
fn name_without_digits() {
    assert_eq!(find_version_in_name("MyGame"), None);
}

#[test]
fn name_rus_suffix_stripped() {
    assert_eq!(find_version_in_name("Game_2.5_rus").as_deref(), Some("2.5"));
}

#[test]
fn name_suffixes_stripped_in_fixed_order() {
    // -pc is tried before -rus, so "-rus-pc" loses both …
    assert_eq!(find_version_in_name("Title-1.0-rus-pc").as_deref(), Some("1.0"));
    // … while "-pc-rus" keeps the residual "-pc", by design
    assert_eq!(find_version_in_name("Title-1.0-pc-rus").as_deref(), Some("1.0-pc"));
}

#[test]
fn name_1080p_and_fix_suffixes() {
    assert_eq!(find_version_in_name("Movie-3.1-1080p").as_deref(), Some("3.1"));
    assert_eq!(find_version_in_name("Patch-0.9-fix").as_deref(), Some("0.9"));
}

#[test]
fn name_short_digit_part_before_start_is_noise() {
    // a lone one-character numeric part never starts a token
    assert_eq!(find_version_in_name("x-3-blah"), None);
}

#[test]
fn name_short_digit_part_after_start_is_kept() {
    // once a token has started, even one-character parts join it
    assert_eq!(find_version_in_name("Game-v2-3").as_deref(), Some("v2-3"));
}

#[test]
fn name_trailing_qualifiers_after_digits_are_kept() {
    assert_eq!(find_version_in_name("a1-b").as_deref(), Some("a1-b"));
}

#[test]
fn name_space_and_underscore_delimiters() {
    assert_eq!(find_version_in_name("v1 2").as_deref(), Some("v1-2"));
    assert_eq!(find_version_in_name("game_1.4_final").as_deref(), Some("1.4-final"));
}

#[test]
fn parent_directory_wins_over_file_name() {
    let v = extract_version_from_path("/g/Pack-7.7/setup-1.1.exe");
    assert_eq!(v.as_deref(), Some("7.7"));
}

#[test]
fn name_suffix_is_stripped_at_most_once() {
    assert_eq!(find_version_in_name("Game-2.0-pc-pc").as_deref(), Some("2.0-pc"));
}
