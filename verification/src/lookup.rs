//! Answers about one track of the cached library.

use vstd::prelude::*;
use crate::index::{
    folded_paths, lemma_first_is, lemma_first_none, paths, spec_find, SongIndex,
};
use crate::song::{song_bpm, spec_song_bpm, VirtualDJSong};
use crate::text::{copy_text, lowercase_of, opt_text};

verus! {

/// What is told of a track that is looked up: its tempo in beats per minute,
/// its key, and its volume.
#[derive(Debug, Clone, PartialEq, Eq)]
pub struct TrackMetadata {
    pub bpm: Option<String>,
    pub key: Option<String>,
    pub volume: Option<String>,
}

/// What the metadata of a track says.
pub struct MetadataView {
    pub bpm: Option<Seq<char>>,
    pub key: Option<Seq<char>>,
    pub volume: Option<Seq<char>>,
}

impl View for TrackMetadata {
    type V = MetadataView;

    open spec fn view(&self) -> MetadataView {
        MetadataView {
            bpm: opt_text(self.bpm),
            key: opt_text(self.key),
            volume: opt_text(self.volume),
        }
    }
}

/// The metadata of `song`: the tempo derived from its beat period, and the
/// key and volume of its scan.
pub open spec fn spec_metadata(song: VirtualDJSong) -> MetadataView {
    MetadataView {
        bpm: spec_song_bpm(song),
        key: match song.scan {
            Some(scan) => opt_text(scan.key),
            None => None,
        },
        volume: match song.scan {
            Some(scan) => opt_text(scan.volume),
            None => None,
        },
    }
}

/// What a lookup of `path` tells: the metadata of the record that is found,
/// or nothing where none is.
pub open spec fn spec_lookup(entries: Seq<VirtualDJSong>, path: Seq<char>, ignore_case: bool)
    -> Option<MetadataView> {
    match spec_find(entries, path, ignore_case) {
        Some(song) => Some(spec_metadata(song)),
        None => None,
    }
}

/// What an optional metadata says.
pub open spec fn opt_metadata(o: Option<TrackMetadata>) -> Option<MetadataView> {
    match o {
        Some(m) => Some(m@),
        None => None,
    }
}

/// The metadata of `song`.
pub fn metadata_of(song: &VirtualDJSong) -> (r: TrackMetadata)
    ensures
        r@ == spec_metadata(*song),
{
    let key = match &song.scan {
        Some(scan) => copy_text(&scan.key),
        None => None,
    };
    let volume = match &song.scan {
        Some(scan) => copy_text(&scan.volume),
        None => None,
    };
    TrackMetadata { bpm: song_bpm(song), key, volume }
}

/// Looks up the track with the file path `path`. `ignore_case` is for file
/// systems on which the case of letters does not tell two paths apart.
pub fn lookup_track_metadata(index: &SongIndex, path: &str, ignore_case: bool) -> (r: Option<
    TrackMetadata,
>)
    ensures
        opt_metadata(r) == spec_lookup(index.entries(), path@, ignore_case),
{
    match index.find(path, ignore_case) {
        Some(song) => Some(metadata_of(song)),
        None => None,
    }
}

/// A lookup that may ignore case finds a record for a path that differs
/// from the path of record `i` only in the case of its letters; where no
/// other record is as near, it finds that record.
pub proof fn lemma_case_ignored(entries: Seq<VirtualDJSong>, path: Seq<char>, i: int)
    requires
        0 <= i < entries.len(),
        lowercase_of(entries[i].file_path@) == lowercase_of(path),
    ensures
        spec_find(entries, path, true) is Some,
        lowercase_of(spec_find(entries, path, true)->0.file_path@) == lowercase_of(path),
        (forall|j: int|
            0 <= j < entries.len() && j != i ==> lowercase_of(entries[j].file_path@)
                != lowercase_of(path)) ==> spec_find(entries, path, true) == Some(entries[i]),
{
    let keys = paths(entries);
    let folded = folded_paths(entries);
    keys.index_of_first_ensures(path);
    folded.index_of_first_ensures(lowercase_of(path));
    assert(folded[i] == lowercase_of(path));
    assert(folded.contains(lowercase_of(path)));
    match keys.index_of_first(path) {
        Some(k) => {
            assert(keys[k] == entries[k].file_path@);
            assert(folded[k] == lowercase_of(entries[k].file_path@));
        },
        None => {
            let k = folded.index_of_first(lowercase_of(path))->0;
            assert(folded[k] == lowercase_of(entries[k].file_path@));
        },
    }
}

/// A lookup that may not ignore case finds nothing for a path that no
/// record has letter for letter, however near another path is.
pub proof fn lemma_case_kept(entries: Seq<VirtualDJSong>, path: Seq<char>)
    requires
        forall|j: int| 0 <= j < entries.len() ==> entries[j].file_path@ != path,
    ensures
        spec_find(entries, path, false) is None,
{
    let keys = paths(entries);
    assert forall|j: int| 0 <= j < keys.len() implies keys[j] != path by {
        assert(keys[j] == entries[j].file_path@);
    }
    lemma_first_none(keys, path);
}

/// A path that a record has letter for letter finds that record, whether or
/// not case may be ignored.
pub proof fn lemma_exact_first(entries: Seq<VirtualDJSong>, i: int, ignore_case: bool)
    requires
        0 <= i < entries.len(),
        forall|j: int| 0 <= j < i ==> entries[j].file_path@ != entries[i].file_path@,
    ensures
        spec_find(entries, entries[i].file_path@, ignore_case) == Some(entries[i]),
{
    let keys = paths(entries);
    assert(keys[i] == entries[i].file_path@);
    assert forall|j: int| 0 <= j < i implies keys[j] != entries[i].file_path@ by {
        assert(keys[j] == entries[j].file_path@);
    }
    lemma_first_is(keys, entries[i].file_path@, i);
}

} // verus!
