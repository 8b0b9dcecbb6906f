//! Recursive game discovery and deduplication engine.
//!
//! Given a root directory, the engine finds plausible game launch files
//! (by extension), prunes blacklisted subtrees, collapses near-duplicate
//! candidates in one directory into a single canonical entry per logical
//! game, and extracts a best-effort version string from the surrounding
//! path components by purely lexical means.

pub mod text;
pub mod paths;
pub mod version;
pub mod classify;
pub mod dedup;
pub mod scan;
pub mod records;
pub mod tree;

pub use classify::{GameInfo, GameType, FsEntry, is_in_blacklist};
pub use version::{extract_version_from_path, find_version_in_name};
pub use scan::{scan_for_games_recursively, scan_entries, SHALLOW_SCAN_DEPTH};
pub use dedup::deduplicate;
pub use records::{GameEntry, Folder, BackupInfo};
pub use tree::{FsNode, scan_tree, walk_node};
