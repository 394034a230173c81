//! The track library of a DJ application, as another application sees it:
//! where its files are, what they hold, and what follows from that for
//! each track. The library file is cached as an index by file path that is
//! good for as long as the file is not modified; tempo and duration are
//! derived from what the file stores; the play history gives the track
//! played last.
//!
//! Nothing here reads a file or keeps a lock. The caller does both, and
//! hands over what it read.

pub mod cache;
pub mod decimal;
pub mod digits;
pub mod duration;
pub mod error;
pub mod history;
pub mod index;
pub mod locator;
pub mod lookup;
pub mod song;
pub mod tempo;
pub mod text;

pub use crate::cache::LibraryCache;
pub use crate::error::LibraryError;
pub use crate::history::{parse_history, HistoryEntry};
pub use crate::lookup::{lookup_track_metadata, TrackMetadata};
pub use crate::song::{VirtualDJSong, VirtualDJTrack};
pub use crate::tempo::convert_virtualdj_bpm;
