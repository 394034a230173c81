//! The index of the track library: one record for each file path.

use vstd::prelude::*;
use vstd::hash_map::StringHashMap;
use crate::song::{spec_track, VirtualDJSong, VirtualDJTrack};
use crate::text::{lowercase_of, to_lowercase};

verus! {

/// The file path of each record, in order.
pub open spec fn paths(entries: Seq<VirtualDJSong>) -> Seq<Seq<char>> {
    entries.map_values(|song: VirtualDJSong| song.file_path@)
}

/// No two records have the same file path.
pub open spec fn distinct_paths(entries: Seq<VirtualDJSong>) -> bool {
    forall|i: int, j: int|
        0 <= i < j < entries.len() ==> (#[trigger] entries[i]).file_path@ != (
        #[trigger] entries[j]).file_path@
}

/// The first record with the file path `path`.
pub open spec fn record_of(entries: Seq<VirtualDJSong>, path: Seq<char>) -> Option<VirtualDJSong> {
    match paths(entries).index_of_first(path) {
        Some(i) => Some(entries[i]),
        None => None,
    }
}

/// The records with `song` among them: in the place of the record with its
/// file path where there is one, else at the end.
pub open spec fn place(entries: Seq<VirtualDJSong>, song: VirtualDJSong) -> Seq<VirtualDJSong> {
    match paths(entries).index_of_first(song.file_path@) {
        Some(i) => entries.update(i, song),
        None => entries.push(song),
    }
}

/// The records that a list of songs leaves, each song placed in turn.
pub open spec fn collapse(songs: Seq<VirtualDJSong>) -> Seq<VirtualDJSong>
    decreases songs.len(),
{
    if songs.len() == 0 {
        Seq::empty()
    } else {
        place(collapse(songs.drop_last()), songs.last())
    }
}

/// The last of `songs` with the file path `path`.
pub open spec fn last_with_path(songs: Seq<VirtualDJSong>, path: Seq<char>) -> Option<
    VirtualDJSong,
>
    decreases songs.len(),
{
    if songs.len() == 0 {
        None
    } else if songs.last().file_path@ == path {
        Some(songs.last())
    } else {
        last_with_path(songs.drop_last(), path)
    }
}

/// The first place of `key` is `i` where `key` stands at `i` and nowhere
/// before.
pub proof fn lemma_first_is(keys: Seq<Seq<char>>, key: Seq<char>, i: int)
    requires
        0 <= i < keys.len(),
        keys[i] == key,
        forall|j: int| 0 <= j < i ==> keys[j] != key,
    ensures
        keys.index_of_first(key) == Some(i),
{
    keys.index_of_first_ensures(key);
    assert(keys.contains(key));
}

/// `key` has no first place where it stands nowhere.
pub proof fn lemma_first_none(keys: Seq<Seq<char>>, key: Seq<char>)
    requires
        forall|j: int| 0 <= j < keys.len() ==> keys[j] != key,
    ensures
        keys.index_of_first(key) is None,
{
    keys.index_of_first_ensures(key);
}

/// Placing a song keeps the file paths distinct, makes the song the record
/// of its path, and leaves the record of every other path as it was.
pub proof fn lemma_place(entries: Seq<VirtualDJSong>, song: VirtualDJSong)
    requires
        distinct_paths(entries),
    ensures
        distinct_paths(place(entries, song)),
        record_of(place(entries, song), song.file_path@) == Some(song),
        forall|path: Seq<char>|
            path != song.file_path@ ==> record_of(place(entries, song), path) == record_of(
                entries,
                path,
            ),
{
    let keys = paths(entries);
    let placed = place(entries, song);
    let placed_keys = paths(placed);
    let own = song.file_path@;
    keys.index_of_first_ensures(own);
    match keys.index_of_first(own) {
        Some(i) => {
            assert(placed_keys =~= keys);
            assert forall|a: int, b: int| 0 <= a < b < placed.len() implies (
            #[trigger] placed[a]).file_path@ != (#[trigger] placed[b]).file_path@ by {
                assert(placed_keys[a] == keys[a]);
                assert(placed_keys[b] == keys[b]);
                assert(entries[a].file_path@ != entries[b].file_path@);
            }
        },
        None => {
            assert forall|a: int, b: int| 0 <= a < b < placed.len() implies (
            #[trigger] placed[a]).file_path@ != (#[trigger] placed[b]).file_path@ by {
                if b == entries.len() {
                    assert(keys[a] == entries[a].file_path@);
                    assert(keys.contains(own) || keys[a] != own);
                } else {
                    assert(entries[a].file_path@ != entries[b].file_path@);
                }
            }
            assert forall|j: int| 0 <= j < keys.len() implies placed_keys[j] != own by {
                assert(keys.contains(own) || keys[j] != own);
            }
            lemma_first_is(placed_keys, own, entries.len() as int);
        },
    }
    assert forall|path: Seq<char>| path != own implies record_of(placed, path) == record_of(
        entries,
        path,
    ) by {
        keys.index_of_first_ensures(path);
        match keys.index_of_first(path) {
            Some(k) => {
                assert(placed_keys[k] == path);
                assert forall|j: int| 0 <= j < k implies placed_keys[j] != path by {
                    assert(placed_keys[j] == keys[j] || placed_keys[j] == own);
                }
                lemma_first_is(placed_keys, path, k);
                assert(placed[k] == entries[k]);
            },
            None => {
                assert forall|j: int| 0 <= j < placed_keys.len() implies placed_keys[j]
                    != path by {
                    if j < keys.len() {
                        assert(keys.contains(path) || keys[j] != path);
                        assert(placed_keys[j] == keys[j] || placed_keys[j] == own);
                    }
                }
                lemma_first_none(placed_keys, path);
            },
        }
    }
}

/// What is left of a list of songs has no file path twice.
pub proof fn lemma_collapse_distinct(songs: Seq<VirtualDJSong>)
    ensures
        distinct_paths(collapse(songs)),
    decreases songs.len(),
{
    if songs.len() > 0 {
        lemma_collapse_distinct(songs.drop_last());
        lemma_place(collapse(songs.drop_last()), songs.last());
    }
}

/// Of the songs with one file path, the last is the one that is left: the
/// record of a path is the last song of the list with that path, and a path
/// that no song has has no record.
pub proof fn lemma_last_one_wins(songs: Seq<VirtualDJSong>, path: Seq<char>)
    ensures
        record_of(collapse(songs), path) == last_with_path(songs, path),
    decreases songs.len(),
{
    if songs.len() == 0 {
        lemma_first_none(paths(collapse(songs)), path);
    } else {
        lemma_collapse_distinct(songs.drop_last());
        lemma_place(collapse(songs.drop_last()), songs.last());
        lemma_last_one_wins(songs.drop_last(), path);
    }
}


/// The file path of each record with its letters made lowercase, in order.
pub open spec fn folded_paths(entries: Seq<VirtualDJSong>) -> Seq<Seq<char>> {
    entries.map_values(|song: VirtualDJSong| lowercase_of(song.file_path@))
}

/// The record that a lookup of `path` gives: the record with exactly that
/// path; where there is none and case may be ignored, the first record whose
/// path differs from `path` only in the case of its letters.
pub open spec fn spec_find(entries: Seq<VirtualDJSong>, path: Seq<char>, ignore_case: bool)
    -> Option<VirtualDJSong> {
    match paths(entries).index_of_first(path) {
        Some(i) => Some(entries[i]),
        None => if ignore_case {
            match folded_paths(entries).index_of_first(lowercase_of(path)) {
                Some(i) => Some(entries[i]),
                None => None,
            }
        } else {
            None
        },
    }
}

/// The map from file path to place agrees with the records.
pub open spec fn slots_agree(entries: Seq<VirtualDJSong>, slots: Map<Seq<char>, usize>) -> bool {
    &&& forall|path: Seq<char>| #[trigger]
        slots.contains_key(path) ==> slots[path] < entries.len()
            && entries[slots[path] as int].file_path@ == path
    &&& forall|i: int|
        #![trigger entries[i]]
        0 <= i < entries.len() ==> slots.contains_key(entries[i].file_path@)
            && slots[entries[i].file_path@] == i
}

/// The place that the map gives a path is the first place of that path.
pub proof fn lemma_slot_is_first(
    entries: Seq<VirtualDJSong>,
    slots: Map<Seq<char>, usize>,
    path: Seq<char>,
)
    requires
        slots_agree(entries, slots),
    ensures
        paths(entries).index_of_first(path) == if slots.contains_key(path) {
            Some(slots[path] as int)
        } else {
            None
        },
{
    let keys = paths(entries);
    if slots.contains_key(path) {
        let i = slots[path] as int;
        assert(keys[i] == path);
        assert forall|j: int| 0 <= j < i implies keys[j] != path by {
            assert(keys[j] == entries[j].file_path@);
        }
        lemma_first_is(keys, path, i);
    } else {
        assert forall|j: int| 0 <= j < keys.len() implies keys[j] != path by {
            assert(keys[j] == entries[j].file_path@);
        }
        lemma_first_none(keys, path);
    }
}

/// The records of a track library, one for each file path, with a map from
/// file path to record.
pub struct SongIndex {
    songs: Vec<VirtualDJSong>,
    slots: StringHashMap<usize>,
}

impl SongIndex {
    /// The map knows the place of every record, and of nothing else.
    #[verifier::type_invariant]
    spec fn well_formed(&self) -> bool {
        slots_agree(self.songs@, self.slots@)
    }

    /// The records, in the order in which their file paths first came.
    pub closed spec fn entries(&self) -> Seq<VirtualDJSong> {
        self.songs@
    }

    /// The index of a list of songs. Of the songs with one file path the
    /// last is kept, in the place of the first.
    pub fn build(songs: Vec<VirtualDJSong>) -> (r: SongIndex)
        ensures
            r.entries() == collapse(songs@),
            distinct_paths(r.entries()),
    {
        let ghost given = songs@;
        let mut kept: Vec<VirtualDJSong> = Vec::new();
        let mut slots: StringHashMap<usize> = StringHashMap::new();
        for song in it: songs
            invariant
                it.seq() == given,
                kept@ == collapse(given.take(it.index())),
                slots_agree(kept@, slots@),
        {
            let ghost before = kept@;
            let ghost done = it.index();
            proof {
                lemma_slot_is_first(before, slots@, song.file_path@);
                assert(given.take(done + 1).drop_last() =~= given.take(done));
            }
            let found = match slots.get(song.file_path.as_str()) {
                Some(i) => Some(*i),
                None => None,
            };
            match found {
                Some(i) => {
                    kept.set(i, song);
                    proof {
                        assert forall|k: int| 0 <= k < kept@.len() implies (
                        #[trigger] kept@[k]).file_path@ == before[k].file_path@ by {}
                    }
                },
                None => {
                    let path = song.file_path.clone();
                    let at = kept.len();
                    slots.insert(path, at);
                    kept.push(song);
                    proof {
                        assert forall|k: int| 0 <= k < before.len() implies (
                        #[trigger] kept@[k]) == before[k] by {}
                    }
                },
            }
        }
        proof {
            assert(given.take(given.len() as int) =~= given);
            lemma_collapse_distinct(given);
        }
        SongIndex { songs: kept, slots }
    }

    /// How many records there are. No two of them have the same file path,
    /// in whatever way the index came about.
    pub fn len(&self) -> (r: usize)
        ensures
            r == self.entries().len(),
            distinct_paths(self.entries()),
    {
        proof {
            use_type_invariant(self);
            assert forall|i: int, j: int| 0 <= i < j < self.songs@.len() implies (
            #[trigger] self.songs@[i]).file_path@ != (#[trigger] self.songs@[j]).file_path@ by {
                assert(self.slots@[self.songs@[i].file_path@] == i);
                assert(self.slots@[self.songs@[j].file_path@] == j);
            }
        }
        self.songs.len()
    }

    /// The record at place `i`.
    pub fn entry(&self, i: usize) -> (r: &VirtualDJSong)
        requires
            i < self.entries().len(),
        ensures
            *r == self.entries()[i as int],
    {
        &self.songs[i]
    }

    /// The record with exactly the file path `path`.
    pub fn get(&self, path: &str) -> (r: Option<&VirtualDJSong>)
        ensures
            r == match record_of(self.entries(), path@) {
                Some(song) => Some(&song),
                None => None,
            },
    {
        proof {
            use_type_invariant(self);
            lemma_slot_is_first(self.songs@, self.slots@, path@);
        }
        match self.slots.get(path) {
            Some(i) => Some(&self.songs[*i]),
            None => None,
        }
    }

    /// Looks `path` up: first exactly; then, where `ignore_case` is set,
    /// among the records in order, by paths made lowercase.
    pub fn find(&self, path: &str, ignore_case: bool) -> (r: Option<&VirtualDJSong>)
        ensures
            r == match spec_find(self.entries(), path@, ignore_case) {
                Some(song) => Some(&song),
                None => None,
            },
    {
        let exact = self.get(path);
        if exact.is_some() || !ignore_case {
            return exact;
        }
        let wanted = to_lowercase(path);
        let ghost keys = folded_paths(self.songs@);
        let mut i: usize = 0;
        while i < self.songs.len()
            invariant
                i <= self.songs.len(),
                keys == folded_paths(self.songs@),
                wanted@ == lowercase_of(path@),
                ignore_case,
                paths(self.songs@).index_of_first(path@) is None,
                forall|j: int| 0 <= j < i ==> keys[j] != wanted@,
            decreases self.songs.len() - i,
        {
            let folded = to_lowercase(self.songs[i].file_path.as_str());
            if folded == wanted {
                proof {
                    lemma_first_is(keys, wanted@, i as int);
                }
                return Some(&self.songs[i]);
            }
            i += 1;
        }
        proof {
            lemma_first_none(keys, wanted@);
        }
        None
    }

    /// The track that is shown for each record, in order.
    pub fn tracks(&self) -> (r: Vec<VirtualDJTrack>)
        ensures
            r.len() == self.entries().len(),
            forall|i: int|
                0 <= i < r.len() ==> (#[trigger] r@[i])@ == spec_track(self.entries()[i]),
    {
        let mut out: Vec<VirtualDJTrack> = Vec::new();
        let mut i: usize = 0;
        while i < self.songs.len()
            invariant
                i <= self.songs.len(),
                out.len() == i,
                forall|k: int| 0 <= k < i ==> (#[trigger] out@[k])@ == spec_track(self.songs@[k]),
            decreases self.songs.len() - i,
        {
            out.push(VirtualDJTrack::of_song(&self.songs[i]));
            i += 1;
        }
        out
    }
}

} // verus!
