//! The cache of the track library. It holds the index of one source file as
//! it was when the file was last read, and is good for as long as the file
//! has the modification time that it had then.
//!
//! The cache decides; it does not read. Its owner asks `plan` what to do
//! for the file's present modification time, reads and parses the file
//! where the answer is `Reload`, and hands the outcome to `finish_reload`.
//! A cache is made with `new`, lives as long as its owner keeps it, and is
//! only ever changed by `finish_reload`.

use vstd::prelude::*;
use crate::error::{ErrorView, LibraryError};
use crate::index::{collapse, SongIndex};
use crate::lookup::{lookup_track_metadata, opt_metadata, spec_lookup, TrackMetadata};
use crate::song::{spec_track, VirtualDJSong, VirtualDJTrack};
use crate::text::same_text;

verus! {

/// What a cache holds of a source file.
pub struct SnapshotView {
    /// The path of the source file.
    pub source_path: Seq<char>,
    /// The modification time that the file had when it was read, in
    /// nanoseconds since the start of 1970.
    pub modified: i128,
    /// The records of the index.
    pub entries: Seq<VirtualDJSong>,
}

/// What the owner of a cache does next.
#[derive(Debug, Clone, Copy, PartialEq, Eq, Structural)]
pub enum CacheStep {
    /// The snapshot is good: answer from it, and read nothing.
    Serve,
    /// The snapshot is missing or stale: read and parse the source file.
    Reload,
}

/// The snapshot is of the file `path` as it is at the modification time
/// `modified`.
pub open spec fn is_fresh(cache: Option<SnapshotView>, path: Seq<char>, modified: i128) -> bool {
    cache matches Some(snapshot) && snapshot.source_path == path && snapshot.modified == modified
}

/// What to do for the file `path` with the modification time `modified`.
pub open spec fn spec_plan(cache: Option<SnapshotView>, path: Seq<char>, modified: i128)
    -> CacheStep {
    if is_fresh(cache, path, modified) {
        CacheStep::Serve
    } else {
        CacheStep::Reload
    }
}

/// The cache after the file `path`, with the modification time `modified`,
/// was read and parsed into `songs`.
pub open spec fn spec_loaded(path: Seq<char>, modified: i128, songs: Seq<VirtualDJSong>)
    -> Option<SnapshotView> {
    Some(SnapshotView { source_path: path, modified, entries: collapse(songs) })
}

/// The index of a source file, with the file's path and the modification
/// time that it had when it was read.
struct Snapshot {
    source_path: String,
    modified: i128,
    index: SongIndex,
}

/// The cache of the track library.
pub struct LibraryCache {
    snapshot: Option<Snapshot>,
}

impl View for LibraryCache {
    type V = Option<SnapshotView>;

    closed spec fn view(&self) -> Option<SnapshotView> {
        match self.snapshot {
            Some(snapshot) => Some(
                SnapshotView {
                    source_path: snapshot.source_path@,
                    modified: snapshot.modified,
                    entries: snapshot.index.entries(),
                },
            ),
            None => None,
        }
    }
}

impl LibraryCache {
    /// A cache that holds nothing yet.
    pub fn new() -> (r: LibraryCache)
        ensures
            r@ is None,
    {
        LibraryCache { snapshot: None }
    }

    /// What to do for the file `path`, whose modification time is now
    /// `modified`.
    pub fn plan(&self, path: &str, modified: i128) -> (r: CacheStep)
        ensures
            r == spec_plan(self@, path@, modified),
    {
        match &self.snapshot {
            Some(snapshot) => {
                if snapshot.modified == modified && same_text(snapshot.source_path.as_str(), path) {
                    CacheStep::Serve
                } else {
                    CacheStep::Reload
                }
            },
            None => CacheStep::Reload,
        }
    }

    /// Takes the outcome of reading and parsing the file `path`, whose
    /// modification time was `modified`. Songs replace the snapshot whole;
    /// a failure is handed back and leaves the cache as it was.
    pub fn finish_reload(
        &mut self,
        path: String,
        modified: i128,
        outcome: Result<Vec<VirtualDJSong>, LibraryError>,
    ) -> (r: Result<(), LibraryError>)
        ensures
            match outcome {
                Ok(songs) => r is Ok && final(self)@ == spec_loaded(path@, modified, songs@),
                Err(error) => r == Err::<(), LibraryError>(error) && final(self)@ == old(self)@,
            },
    {
        match outcome {
            Ok(songs) => {
                let index = SongIndex::build(songs);
                self.snapshot = Some(Snapshot { source_path: path, modified, index });
                Ok(())
            },
            Err(error) => Err(error),
        }
    }

    /// One access: asks `plan`, and only where the answer is `Reload`
    /// calls `load`, once, and takes its outcome as `finish_reload` does.
    /// Says whether `load` was called.
    pub fn refresh<F: FnOnce() -> Result<Vec<VirtualDJSong>, LibraryError>>(
        &mut self,
        path: &str,
        modified: i128,
        load: F,
    ) -> (r: Result<bool, LibraryError>)
        requires
            call_requires(load, ()),
        ensures
            spec_plan(old(self)@, path@, modified) == CacheStep::Serve ==> r == Ok::<
                bool,
                LibraryError,
            >(false) && final(self)@ == old(self)@,
            spec_plan(old(self)@, path@, modified) == CacheStep::Reload ==> exists|
                outcome: Result<Vec<VirtualDJSong>, LibraryError>,
            |
                call_ensures(load, (), outcome) && match outcome {
                    Ok(songs) => r == Ok::<bool, LibraryError>(true) && final(self)@
                        == spec_loaded(path@, modified, songs@),
                    Err(error) => r == Err::<bool, LibraryError>(error) && final(self)@ == old(
                        self,
                    )@,
                },
    {
        match self.plan(path, modified) {
            CacheStep::Serve => Ok(false),
            CacheStep::Reload => {
                let outcome = load();
                match self.finish_reload(path.to_owned(), modified, outcome) {
                    Ok(()) => Ok(true),
                    Err(error) => Err(error),
                }
            },
        }
    }

    /// The metadata of the track with the file path `path`, from the
    /// snapshot; nothing where the cache holds no snapshot.
    pub fn lookup(&self, path: &str, ignore_case: bool) -> (r: Option<TrackMetadata>)
        ensures
            opt_metadata(r) == match self@ {
                Some(snapshot) => spec_lookup(snapshot.entries, path@, ignore_case),
                None => None,
            },
    {
        match &self.snapshot {
            Some(snapshot) => lookup_track_metadata(&snapshot.index, path, ignore_case),
            None => None,
        }
    }

    /// The track that is shown for each record of the snapshot, in order;
    /// none where the cache holds no snapshot.
    pub fn tracks(&self) -> (r: Vec<VirtualDJTrack>)
        ensures
            match self@ {
                Some(snapshot) => r.len() == snapshot.entries.len() && forall|i: int|
                    0 <= i < r.len() ==> (#[trigger] r@[i])@ == spec_track(snapshot.entries[i]),
                None => r.len() == 0,
            },
    {
        match &self.snapshot {
            Some(snapshot) => snapshot.index.tracks(),
            None => Vec::new(),
        }
    }
}

/// Two accesses to a file that nobody changed parse it once: the plan for
/// an empty cache is to reload, and the plan after a load of the file, for
/// the modification time that it was loaded at, is to serve. `refresh`
/// calls its loader under the first plan and not under the second.
pub proof fn lemma_unchanged_file_is_parsed_once(
    path: Seq<char>,
    modified: i128,
    songs: Seq<VirtualDJSong>,
)
    ensures
        spec_plan(None, path, modified) == CacheStep::Reload,
        spec_plan(spec_loaded(path, modified, songs), path, modified) == CacheStep::Serve,
{
}

/// A file whose modification time has changed is parsed again on the next
/// access, once: the plan for the new time is to reload, and the plan after
/// that load, for the same new time, is to serve.
pub proof fn lemma_touched_file_is_parsed_once_more(
    path: Seq<char>,
    modified: i128,
    touched: i128,
    songs: Seq<VirtualDJSong>,
    fresh: Seq<VirtualDJSong>,
)
    requires
        touched != modified,
    ensures
        spec_plan(spec_loaded(path, modified, songs), path, touched) == CacheStep::Reload,
        spec_plan(spec_loaded(path, touched, fresh), path, touched) == CacheStep::Serve,
{
}

/// A snapshot of one file is stale for every other file: the plan for
/// another path is to reload, whatever its modification time.
pub proof fn lemma_other_file_is_parsed(
    path: Seq<char>,
    other: Seq<char>,
    modified: i128,
    asked: i128,
    songs: Seq<VirtualDJSong>,
)
    requires
        other != path,
    ensures
        spec_plan(spec_loaded(path, modified, songs), other, asked) == CacheStep::Reload,
{
}

} // verus!
