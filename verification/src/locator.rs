//! Where the track library and the history folder are looked for.
//!
//! The locator names the places and picks among them; asking the file
//! system which of them exist is left to its caller.

use vstd::prelude::*;
use vstd::string::StringExecFns;
use crate::error::LibraryError;

verus! {

/// The kind of system that the application runs on.
#[derive(Debug, Clone, Copy, PartialEq, Eq, Structural)]
pub enum Platform {
    Windows,
    MacOs,
    Linux,
}

/// The folders in which the DJ application keeps its data, below the home
/// folder `home`, in the order in which they are tried.
pub open spec fn spec_data_folders(platform: Platform, home: Seq<char>) -> Seq<Seq<char>> {
    match platform {
        Platform::Windows => seq![
            home + "\\Documents\\VirtualDJ"@,
            home + "\\AppData\\Local\\VirtualDJ"@,
        ],
        Platform::MacOs => seq![
            home + "/Documents/VirtualDJ"@,
            home + "/Library/Application Support/VirtualDJ"@,
        ],
        Platform::Linux => seq![
            home + "/Documents/VirtualDJ"@,
            home + "/.local/share/VirtualDJ"@,
        ],
    }
}

/// What is put behind a data folder to name the library file.
pub open spec fn database_leaf(platform: Platform) -> Seq<char> {
    match platform {
        Platform::Windows => "\\database.xml"@,
        _ => "/database.xml"@,
    }
}

/// What is put behind a data folder to name the history folder.
pub open spec fn history_leaf(platform: Platform) -> Seq<char> {
    match platform {
        Platform::Windows => "\\History"@,
        _ => "/History"@,
    }
}

/// Each of `folders` with `leaf` behind it.
pub open spec fn with_leaf(folders: Seq<Seq<char>>, leaf: Seq<char>) -> Seq<Seq<char>> {
    folders.map_values(|folder: Seq<char>| folder + leaf)
}

/// What each of the texts says.
pub open spec fn text_views(texts: Seq<String>) -> Seq<Seq<char>> {
    texts.map_values(|text: String| text@)
}

/// `front` with `back` behind it.
fn joined(front: &str, back: &str) -> (r: String)
    ensures
        r@ == front@ + back@,
{
    let mut text = String::from_str(front);
    text.append(back);
    text
}

/// The folders in which the DJ application keeps its data.
pub fn data_folders(platform: Platform, home: &str) -> (r: Vec<String>)
    ensures
        text_views(r@) == spec_data_folders(platform, home@),
{
    let mut out: Vec<String> = Vec::new();
    match platform {
        Platform::Windows => {
            out.push(joined(home, "\\Documents\\VirtualDJ"));
            out.push(joined(home, "\\AppData\\Local\\VirtualDJ"));
        },
        Platform::MacOs => {
            out.push(joined(home, "/Documents/VirtualDJ"));
            out.push(joined(home, "/Library/Application Support/VirtualDJ"));
        },
        Platform::Linux => {
            out.push(joined(home, "/Documents/VirtualDJ"));
            out.push(joined(home, "/.local/share/VirtualDJ"));
        },
    }
    assert(text_views(out@) =~= spec_data_folders(platform, home@));
    out
}

/// Each of `folders` with `leaf` behind it.
fn each_with(folders: &Vec<String>, leaf: &str) -> (r: Vec<String>)
    ensures
        text_views(r@) == with_leaf(text_views(folders@), leaf@),
{
    let mut out: Vec<String> = Vec::new();
    let mut i: usize = 0;
    while i < folders.len()
        invariant
            i <= folders.len(),
            out.len() == i,
            forall|k: int| 0 <= k < i ==> (#[trigger] out@[k])@ == folders@[k]@ + leaf@,
        decreases folders.len() - i,
    {
        out.push(joined(folders[i].as_str(), leaf));
        i += 1;
    }
    assert(text_views(out@) =~= with_leaf(text_views(folders@), leaf@));
    out
}

/// The places where the library file may be, in the order in which they
/// are tried.
pub fn database_candidates(platform: Platform, home: &str) -> (r: Vec<String>)
    ensures
        text_views(r@) == with_leaf(spec_data_folders(platform, home@), database_leaf(platform)),
{
    let folders = data_folders(platform, home);
    match platform {
        Platform::Windows => each_with(&folders, "\\database.xml"),
        _ => each_with(&folders, "/database.xml"),
    }
}

/// The places where the history folder may be, in the order in which they
/// are tried.
pub fn history_candidates(platform: Platform, home: &str) -> (r: Vec<String>)
    ensures
        text_views(r@) == with_leaf(spec_data_folders(platform, home@), history_leaf(platform)),
{
    let folders = data_folders(platform, home);
    match platform {
        Platform::Windows => each_with(&folders, "\\History"),
        _ => each_with(&folders, "/History"),
    }
}

/// A place, and whether something is there.
#[derive(Debug, Clone, PartialEq, Eq)]
pub struct Candidate {
    pub path: String,
    pub exists: bool,
}

/// The first of `candidates` that exists.
pub open spec fn spec_first_existing(candidates: Seq<Candidate>) -> Option<int>
    decreases candidates.len(),
{
    if candidates.len() == 0 {
        None
    } else if candidates[0].exists {
        Some(0)
    } else {
        match spec_first_existing(candidates.skip(1)) {
            Some(i) => Some(i + 1),
            None => None,
        }
    }
}

/// The first that exists is one that exists, with none that exists before
/// it; where none is found, none exists.
pub proof fn lemma_first_existing(candidates: Seq<Candidate>)
    ensures
        match spec_first_existing(candidates) {
            Some(i) => 0 <= i < candidates.len() && candidates[i].exists && forall|j: int|
                0 <= j < i ==> !candidates[j].exists,
            None => forall|j: int| 0 <= j < candidates.len() ==> !candidates[j].exists,
        },
    decreases candidates.len(),
{
    if candidates.len() > 0 && !candidates[0].exists {
        let rest = candidates.skip(1);
        lemma_first_existing(rest);
        match spec_first_existing(rest) {
            Some(i) => {
                assert(rest[i] == candidates[i + 1]);
                assert forall|j: int| 0 <= j < i + 1 implies !candidates[j].exists by {
                    if j > 0 {
                        assert(rest[j - 1] == candidates[j]);
                    }
                }
            },
            None => {
                assert forall|j: int| 0 <= j < candidates.len() implies !candidates[j].exists by {
                    if j > 0 {
                        assert(rest[j - 1] == candidates[j]);
                    }
                }
            },
        }
    }
}

/// The place that a search settles on: the path that the caller gave, which
/// is taken as it is; without one, the first candidate that exists.
pub open spec fn spec_locate(explicit: Option<String>, candidates: Seq<Candidate>) -> Option<
    Seq<char>,
> {
    match explicit {
        Some(path) => Some(path@),
        None => match spec_first_existing(candidates) {
            Some(i) => Some(candidates[i].path@),
            None => None,
        },
    }
}

/// Picks the first of `candidates` that exists.
pub fn first_existing(candidates: &Vec<Candidate>) -> (r: Option<usize>)
    ensures
        match r {
            Some(i) => i < candidates.len() && spec_first_existing(candidates@) == Some(i as int),
            None => spec_first_existing(candidates@) is None,
        },
{
    let mut i: usize = 0;
    proof {
        lemma_first_existing(candidates@);
    }
    while i < candidates.len()
        invariant
            i <= candidates.len(),
            forall|j: int| 0 <= j < i ==> !candidates@[j].exists,
            match spec_first_existing(candidates@) {
                Some(k) => 0 <= k < candidates.len() && candidates@[k].exists && forall|j: int|
                    0 <= j < k ==> !candidates@[j].exists,
                None => forall|j: int| 0 <= j < candidates.len() ==> !candidates@[j].exists,
            },
        decreases candidates.len() - i,
    {
        if candidates[i].exists {
            return Some(i);
        }
        i += 1;
    }
    None
}

/// Settles on a place. A path that the caller gave is handed back without a
/// look at the candidates; without one, the first candidate that exists is
/// the place, and where none exists the search fails as not found.
pub fn locate(explicit: Option<String>, candidates: &Vec<Candidate>) -> (r: Result<
    String,
    LibraryError,
>)
    ensures
        match r {
            Ok(path) => spec_locate(explicit, candidates@) == Some(path@),
            Err(error) => error == LibraryError::NotFound && spec_locate(explicit, candidates@)
                is None,
        },
{
    match explicit {
        Some(path) => Ok(path),
        None => match first_existing(candidates) {
            Some(i) => Ok(candidates[i].path.clone()),
            None => Err(LibraryError::NotFound),
        },
    }
}

} // verus!
