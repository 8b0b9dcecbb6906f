//! Candidate classification.
//!
//! A filesystem entry yields a candidate exactly when it is a file, its
//! file name has an extension, the lowercased extension is one of the
//! allowed launch-file kinds, and the name is not blacklisted.  All name
//! comparisons are case-insensitive; the stored `game_type` is the
//! lowercased extension, while `name` keeps its original casing.

use vstd::prelude::*;
use crate::text::{lower_of, lowercase, chars_of, string_from_chars};
use crate::paths::{ext_of, find_after_last_dot, copy_range};
use crate::version::{extracted_version, extract_version_from_path};

verus! {

/// The closed set of launch-file kinds, in priority order of the
/// deduplication engine.
#[derive(Clone, Copy, PartialEq, Eq, Structural, Debug)]
pub enum GameType {
    Exe,
    Py,
    Sh,
    Bat,
    Cmd,
}

/// The lowercased extension text of each kind.
pub open spec fn type_seq(t: GameType) -> Seq<char> {
    match t {
        GameType::Exe => seq!['e', 'x', 'e'],
        GameType::Py => seq!['p', 'y'],
        GameType::Sh => seq!['s', 'h'],
        GameType::Bat => seq!['b', 'a', 't'],
        GameType::Cmd => seq!['c', 'm', 'd'],
    }
}

/// Maps a lowercased extension to its kind; `None` outside the
/// allow-list.
pub open spec fn type_of_ext(e: Seq<char>) -> Option<GameType> {
    if e == type_seq(GameType::Exe) {
        Some(GameType::Exe)
    } else if e == type_seq(GameType::Py) {
        Some(GameType::Py)
    } else if e == type_seq(GameType::Sh) {
        Some(GameType::Sh)
    } else if e == type_seq(GameType::Bat) {
        Some(GameType::Bat)
    } else if e == type_seq(GameType::Cmd) {
        Some(GameType::Cmd)
    } else {
        None
    }
}

/// Whether a game type text is one of the allowed kinds.
pub open spec fn allowed_type(gt: Seq<char>) -> bool {
    type_of_ext(gt) is Some
}

/// Each kind's text maps back to that kind.
pub proof fn lemma_type_seq_allowed(t: GameType)
    ensures
        type_of_ext(type_seq(t)) == Some(t),
{
    assert(type_seq(GameType::Exe).len() == 3);
    assert(type_seq(GameType::Py).len() == 2);
    assert(type_seq(GameType::Sh).len() == 2);
    assert(type_seq(GameType::Bat).len() == 3);
    assert(type_seq(GameType::Cmd).len() == 3);
    assert(type_seq(GameType::Py)[0] == 'p');
    assert(type_seq(GameType::Sh)[0] == 's');
    assert(type_seq(GameType::Exe)[0] == 'e');
    assert(type_seq(GameType::Bat)[0] == 'b');
    assert(type_seq(GameType::Cmd)[0] == 'c');
}

/// One discovered game launch file: the surviving projection handed to
/// the caller (and, from there, to the persistence boundary).
#[derive(Debug, Clone)]
pub struct GameInfo {
    pub name: String,
    pub path: String,
    pub game_type: String,
    pub version: Option<String>,
}

/// The mathematical view of a `GameInfo`.
pub ghost struct GameModel {
    pub name: Seq<char>,
    pub path: Seq<char>,
    pub game_type: Seq<char>,
    pub version: Option<Seq<char>>,
}

impl View for GameInfo {
    type V = GameModel;

    open spec fn view(&self) -> GameModel {
        GameModel {
            name: self.name@,
            path: self.path@,
            game_type: self.game_type@,
            version: match self.version {
                Some(v) => Some(v@),
                None => None,
            },
        }
    }
}

/// One filesystem entry, as the tree walker reports it: its full path,
/// its file name (the last path component), and whether it is a file.
#[derive(Debug, Clone)]
pub struct FsEntry {
    pub path: String,
    pub name: String,
    pub is_file: bool,
}

/// The mathematical view of an `FsEntry`.
pub ghost struct EntryModel {
    pub path: Seq<char>,
    pub name: Seq<char>,
    pub is_file: bool,
}

impl View for FsEntry {
    type V = EntryModel;

    open spec fn view(&self) -> EntryModel {
        EntryModel { path: self.path@, name: self.name@, is_file: self.is_file }
    }
}

/// Case-insensitive membership in a blacklist: a name is blacklisted
/// when its lowercasing equals the lowercasing of some entry.
pub open spec fn in_blacklist(name: Seq<char>, bl: Seq<Seq<char>>) -> bool {
    exists|i: int| 0 <= i < bl.len() && lower_of(#[trigger] bl[i]) == lower_of(name)
}

/// Whether the entry name is in the blacklist, under any casing of
/// either side.  During a scan this prunes whole subtrees.
pub fn is_in_blacklist(name: &str, blacklist: &Vec<String>) -> (r: bool)
    ensures
        r == in_blacklist(name@, blacklist@.map_values(|b: String| b@)),
{
    let ghost bl = blacklist@.map_values(|b: String| b@);
    let low = lowercase(name);
    let mut i: usize = 0;
    while i < blacklist.len()
        invariant
            i <= blacklist@.len(),
            bl == blacklist@.map_values(|b: String| b@),
            low@ == lower_of(name@),
            forall|k: int| 0 <= k < i ==> lower_of(#[trigger] bl[k]) != lower_of(name@),
        decreases blacklist@.len() - i,
    {
        let entry_low = lowercase(blacklist[i].as_str());
        if entry_low == low {
            proof {
                assert(lower_of(bl[i as int]) == lower_of(name@));
            }
            return true;
        }
        i = i + 1;
    }
    false
}

/// The candidate an entry yields, or `None`: only files with an allowed,
/// non-blacklisted name become candidates, with the lowercased extension
/// as their `game_type` and the lexically extracted version.
pub open spec fn classify_model(e: EntryModel, fbl: Seq<Seq<char>>) -> Option<GameModel> {
    if !e.is_file {
        None
    } else {
        match ext_of(e.name) {
            None => None,
            Some(x) => match type_of_ext(lower_of(x)) {
                None => None,
                Some(t) => if in_blacklist(e.name, fbl) {
                    None
                } else {
                    Some(
                        GameModel {
                            name: e.name,
                            path: e.path,
                            game_type: type_seq(t),
                            version: extracted_version(e.path),
                        },
                    )
                },
            },
        }
    }
}

/// Matches a lowercased extension against the allow-list.
fn match_type(e: &Vec<char>) -> (r: Option<GameType>)
    ensures
        r == type_of_ext(e@),
{
    if e.len() == 3 && e[0] == 'e' && e[1] == 'x' && e[2] == 'e' {
        proof {
            assert(e@ =~= type_seq(GameType::Exe));
        }
        Some(GameType::Exe)
    } else if e.len() == 2 && e[0] == 'p' && e[1] == 'y' {
        proof {
            assert(e@ =~= type_seq(GameType::Py));
        }
        Some(GameType::Py)
    } else if e.len() == 2 && e[0] == 's' && e[1] == 'h' {
        proof {
            assert(e@ =~= type_seq(GameType::Sh));
        }
        Some(GameType::Sh)
    } else if e.len() == 3 && e[0] == 'b' && e[1] == 'a' && e[2] == 't' {
        proof {
            assert(e@ =~= type_seq(GameType::Bat));
        }
        Some(GameType::Bat)
    } else if e.len() == 3 && e[0] == 'c' && e[1] == 'm' && e[2] == 'd' {
        proof {
            assert(e@ =~= type_seq(GameType::Cmd));
        }
        Some(GameType::Cmd)
    } else {
        None
    }
}

/// The extension text as a string.
pub fn type_string(t: GameType) -> (r: String)
    ensures
        r@ == type_seq(t),
{
    match t {
        GameType::Exe => {
            proof {
                reveal_strlit("exe");
                assert("exe"@ =~= type_seq(GameType::Exe));
            }
            string_from_chars(&chars_of("exe"))
        },
        GameType::Py => {
            proof {
                reveal_strlit("py");
                assert("py"@ =~= type_seq(GameType::Py));
            }
            string_from_chars(&chars_of("py"))
        },
        GameType::Sh => {
            proof {
                reveal_strlit("sh");
                assert("sh"@ =~= type_seq(GameType::Sh));
            }
            string_from_chars(&chars_of("sh"))
        },
        GameType::Bat => {
            proof {
                reveal_strlit("bat");
                assert("bat"@ =~= type_seq(GameType::Bat));
            }
            string_from_chars(&chars_of("bat"))
        },
        GameType::Cmd => {
            proof {
                reveal_strlit("cmd");
                assert("cmd"@ =~= type_seq(GameType::Cmd));
            }
            string_from_chars(&chars_of("cmd"))
        },
    }
}

/// Classifies one entry, as `classify_model` states.
pub fn classify_entry(entry: &FsEntry, file_blacklist: &Vec<String>) -> (r: Option<GameInfo>)
    ensures
        ({
            let s = classify_model(entry@, file_blacklist@.map_values(|b: String| b@));
            match r {
                Some(g) => s == Some(g@),
                None => s is None,
            }
        }),
{
    if !entry.is_file {
        return None;
    }
    let nm = chars_of(entry.name.as_str());
    let after_dot = find_after_last_dot(&nm);
    if after_dot <= 1 {
        // no extension: the only dot, if any, starts the name
        return None;
    }
    let ext = copy_range(&nm, after_dot, nm.len());
    proof {
        assert(ext@ =~= ext_of(entry@.name)->Some_0);
    }
    let low = lowercase(string_from_chars(&ext).as_str());
    let lowv = chars_of(low.as_str());
    match match_type(&lowv) {
        None => None,
        Some(t) => {
            if is_in_blacklist(entry.name.as_str(), file_blacklist) {
                return None;
            }
            let version = extract_version_from_path(entry.path.as_str());
            Some(
                GameInfo {
                    name: entry.name.clone(),
                    path: entry.path.clone(),
                    game_type: type_string(t),
                    version,
                },
            )
        },
    }
}

} // verus!
