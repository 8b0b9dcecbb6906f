//! Record types of the persistence and backup boundaries.
//!
//! The engine itself stores nothing: the caller bridges scan output to
//! a store keyed by `path`, and the backup service only shares the
//! notion of a game path.  These are the plain shapes of the records
//! that cross those boundaries.

use vstd::prelude::*;

verus! {

/// One stored game record, keyed by `path`.
#[derive(Debug, Clone)]
pub struct GameEntry {
    pub path: String,
    pub name: String,
    pub game_type: String,
    pub play_time_seconds: i64,
    pub icon_path: Option<String>,
    pub icon_url: Option<String>,
    pub description: Option<String>,
    pub version: Option<String>,
    pub last_played: Option<String>,
    pub rating: i32,
    pub is_hidden: bool,
    pub completion_percent: i32,
}

/// A user-defined folder that groups stored games.
#[derive(Debug, Clone)]
pub struct Folder {
    pub id: i64,
    pub name: String,
}

/// One save-game backup archive, as the backup service lists it.
#[derive(Debug, Clone)]
pub struct BackupInfo {
    pub file_name: String,
    pub path: String,
    pub created_at: String,
}

} // verus!
