//! The records of the track library, and the track that is shown for each.

use vstd::prelude::*;
use vstd::std_specs::convert::FromSpecImpl;
use crate::duration::{resolve_duration, spec_duration};
use crate::tempo::{convert_virtualdj_bpm, spec_convert_bpm};
use crate::text::{copy_text, opt_text};

verus! {

/// The tag fields of a song, as the library file writes them.
#[derive(Debug, Clone, PartialEq, Eq)]
pub struct VirtualDJTags {
    pub author: Option<String>,
    pub title: Option<String>,
    pub genre: Option<String>,
    pub album: Option<String>,
    pub track_number: Option<String>,
    pub year: Option<String>,
    pub flag: Option<String>,
}

/// What the scan of a song found. `bpm` is the time between two beats in
/// seconds, not beats per minute.
#[derive(Debug, Clone, PartialEq, Eq)]
pub struct VirtualDJScan {
    pub version: Option<String>,
    pub bpm: Option<String>,
    pub alt_bpm: Option<String>,
    pub volume: Option<String>,
    pub key: Option<String>,
    pub audio_sig: Option<String>,
    pub flag: Option<String>,
}

/// What the library file keeps about the playing of a song. `song_length`
/// is in seconds.
#[derive(Debug, Clone, PartialEq, Eq)]
pub struct VirtualDJInfos {
    pub song_length: Option<String>,
    pub first_seen: Option<String>,
    pub play_count: Option<String>,
}

/// A point of interest: a marker at `pos` seconds into the song.
#[derive(Debug, Clone, PartialEq, Eq)]
pub struct VirtualDJPoi {
    pub name: Option<String>,
    pub pos: Option<String>,
    pub poi_type: Option<String>,
}

/// The song as the library file holds it; `file_path` names it.
#[derive(Debug, Clone, PartialEq, Eq)]
pub struct VirtualDJSong {
    pub file_path: String,
    pub file_size: Option<String>,
    pub tags: Option<VirtualDJTags>,
    pub scan: Option<VirtualDJScan>,
    pub infos: Option<VirtualDJInfos>,
    pub pois: Vec<VirtualDJPoi>,
}

/// The track that is shown for a song. A field that cannot be derived is
/// absent, never zero or empty in its place.
#[derive(Debug, Clone, PartialEq, Eq)]
pub struct VirtualDJTrack {
    pub file_path: String,
    pub artist: Option<String>,
    pub title: Option<String>,
    pub bpm: Option<String>,
    pub key: Option<String>,
    pub duration: Option<u64>,
}

/// What a track says.
pub struct TrackView {
    pub file_path: Seq<char>,
    pub artist: Option<Seq<char>>,
    pub title: Option<Seq<char>>,
    pub bpm: Option<Seq<char>>,
    pub key: Option<Seq<char>>,
    pub duration: Option<u64>,
}

impl View for VirtualDJTrack {
    type V = TrackView;

    open spec fn view(&self) -> TrackView {
        TrackView {
            file_path: self.file_path@,
            artist: opt_text(self.artist),
            title: opt_text(self.title),
            bpm: opt_text(self.bpm),
            key: opt_text(self.key),
            duration: self.duration,
        }
    }
}

/// The tempo of a song in beats per minute, where its scan holds a beat
/// period that has one.
pub open spec fn spec_song_bpm(song: VirtualDJSong) -> Option<Seq<char>> {
    match song.scan {
        Some(scan) => match scan.bpm {
            Some(period) => spec_convert_bpm(period@),
            None => None,
        },
        None => None,
    }
}

/// The track that is shown for `song`: its path, the artist and title of its
/// tags, the key of its scan, and the tempo and duration derived for it.
pub open spec fn spec_track(song: VirtualDJSong) -> TrackView {
    TrackView {
        file_path: song.file_path@,
        artist: match song.tags {
            Some(tags) => opt_text(tags.author),
            None => None,
        },
        title: match song.tags {
            Some(tags) => opt_text(tags.title),
            None => None,
        },
        bpm: spec_song_bpm(song),
        key: match song.scan {
            Some(scan) => opt_text(scan.key),
            None => None,
        },
        duration: spec_duration(song),
    }
}

/// The tempo of `song` in beats per minute, to one decimal place.
pub fn song_bpm(song: &VirtualDJSong) -> (r: Option<String>)
    ensures
        opt_text(r) == spec_song_bpm(*song),
{
    match &song.scan {
        Some(scan) => match &scan.bpm {
            Some(period) => convert_virtualdj_bpm(period.as_str()),
            None => None,
        },
        None => None,
    }
}

impl VirtualDJTrack {
    /// The track that is shown for `song`.
    pub fn of_song(song: &VirtualDJSong) -> (track: VirtualDJTrack)
        ensures
            track@ == spec_track(*song),
    {
        let artist = match &song.tags {
            Some(tags) => copy_text(&tags.author),
            None => None,
        };
        let title = match &song.tags {
            Some(tags) => copy_text(&tags.title),
            None => None,
        };
        let key = match &song.scan {
            Some(scan) => copy_text(&scan.key),
            None => None,
        };
        VirtualDJTrack {
            file_path: song.file_path.clone(),
            artist,
            title,
            bpm: song_bpm(song),
            key,
            duration: resolve_duration(song),
        }
    }
}

impl FromSpecImpl<VirtualDJSong> for VirtualDJTrack {
    /// Two texts that read alike need not be one value, so what `from`
    /// returns is stated of what the track says, in the `ensures` of `from`,
    /// and not as equality with one chosen track.
    open spec fn obeys_from_spec() -> bool {
        false
    }

    /// Some track that says what the track of `song` says.
    open spec fn from_spec(song: VirtualDJSong) -> VirtualDJTrack {
        choose|track: VirtualDJTrack| track@ == spec_track(song)
    }
}

impl From<VirtualDJSong> for VirtualDJTrack {
    /// The track that is shown for `song`.
    fn from(song: VirtualDJSong) -> (track: VirtualDJTrack)
        ensures
            track@ == spec_track(song),
    {
        VirtualDJTrack::of_song(&song)
    }
}

} // verus!
