//! Duration. A song's length is taken from the first of three places that
//! holds a usable value.

use vstd::prelude::*;
use crate::decimal::{spec_decimal, Decimal, DecimalView};
use crate::song::{VirtualDJPoi, VirtualDJSong};
use crate::text::same_text;

verus! {

/// The name of the point of interest that marks the end of a song.
pub open spec fn end_marker() -> Seq<char> {
    "End"@
}

/// The name of the point of interest that marks the end of a song.
pub fn end_marker_name() -> (r: &'static str)
    ensures
        r@ == end_marker(),
{
    "End"
}

/// A number of seconds is usable where it is written as a numeral and is
/// greater than zero. Infinity is no numeral, and no usable number of
/// seconds.
pub open spec fn usable_seconds(text: Option<String>) -> Option<DecimalView> {
    match text {
        Some(t) => match spec_decimal(t@) {
            Some(seconds) => if seconds.is_positive() {
                Some(seconds)
            } else {
                None
            },
            None => None,
        },
        None => None,
    }
}

/// The point is named as the end marker is.
pub open spec fn is_end_marker(poi: VirtualDJPoi) -> bool {
    poi.name is Some && poi.name->0@ == end_marker()
}

/// The position of the first point that is named as the end marker is.
pub open spec fn end_marker_position(pois: Seq<VirtualDJPoi>) -> Option<String>
    decreases pois.len(),
{
    if pois.len() == 0 {
        None
    } else if is_end_marker(pois[0]) {
        pois[0].pos
    } else {
        end_marker_position(pois.skip(1))
    }
}

/// The song length that the library file states.
pub open spec fn stated_length(song: VirtualDJSong) -> Option<String> {
    match song.infos {
        Some(infos) => infos.song_length,
        None => None,
    }
}

/// The position of the last point of interest.
pub open spec fn last_position(pois: Seq<VirtualDJPoi>) -> Option<String> {
    if pois.len() == 0 {
        None
    } else {
        pois.last().pos
    }
}

/// The seconds that the duration is read from: the stated song length; where
/// that is not usable, the position of the end marker; where that is not
/// usable either, the position of the last point of interest.
pub open spec fn duration_source(song: VirtualDJSong) -> Option<DecimalView> {
    if usable_seconds(stated_length(song)) is Some {
        usable_seconds(stated_length(song))
    } else if usable_seconds(end_marker_position(song.pois@)) is Some {
        usable_seconds(end_marker_position(song.pois@))
    } else {
        usable_seconds(last_position(song.pois@))
    }
}

/// A number of seconds as a duration: absent unless it is greater than a
/// tenth of a second, else rounded to whole seconds, and no more than a
/// `u64` holds.
pub open spec fn accepted_duration(seconds: DecimalView) -> Option<u64> {
    if !seconds.exceeds_tenth() {
        None
    } else if seconds.nearest_whole() > u64::MAX {
        Some(u64::MAX)
    } else {
        Some(seconds.nearest_whole() as u64)
    }
}

/// The duration of a song in whole seconds.
pub open spec fn spec_duration(song: VirtualDJSong) -> Option<u64> {
    match duration_source(song) {
        Some(seconds) => accepted_duration(seconds),
        None => None,
    }
}

/// The position of the end marker is that of the first point named so, and
/// there is none where no point is named so.
pub proof fn lemma_end_marker_position(pois: Seq<VirtualDJPoi>)
    ensures
        (forall|k: int| 0 <= k < pois.len() ==> !is_end_marker(pois[k])) ==> end_marker_position(
            pois,
        ) is None,
        forall|i: int|
            0 <= i < pois.len() && is_end_marker(pois[i]) && (forall|k: int|
                0 <= k < i ==> !is_end_marker(pois[k])) ==> end_marker_position(pois)
                == pois[i].pos,
    decreases pois.len(),
{
    if pois.len() > 0 && !is_end_marker(pois[0]) {
        let rest = pois.skip(1);
        lemma_end_marker_position(rest);
        if forall|k: int| 0 <= k < pois.len() ==> !is_end_marker(pois[k]) {
            assert forall|k: int| 0 <= k < rest.len() implies !is_end_marker(rest[k]) by {
                assert(rest[k] == pois[k + 1]);
            }
        }
        assert forall|i: int|
            0 <= i < pois.len() && is_end_marker(pois[i]) && (forall|k: int|
                0 <= k < i ==> !is_end_marker(pois[k])) implies end_marker_position(pois)
            == pois[i].pos by {
            assert(rest[i - 1] == pois[i]);
            assert forall|k: int| 0 <= k < i - 1 implies !is_end_marker(rest[k]) by {
                assert(rest[k] == pois[k + 1]);
            }
        }
    } else if pois.len() > 0 {
        assert forall|i: int|
            0 <= i < pois.len() && is_end_marker(pois[i]) && (forall|k: int|
                0 <= k < i ==> !is_end_marker(pois[k])) implies end_marker_position(pois)
            == pois[i].pos by {
            if i > 0 {
                assert(!is_end_marker(pois[0]));
            }
        }
    }
}

/// A usable song length is the duration's source, whatever the points of
/// interest say.
pub proof fn lemma_song_length_first(song: VirtualDJSong)
    requires
        usable_seconds(stated_length(song)) is Some,
    ensures
        duration_source(song) == usable_seconds(stated_length(song)),
{
}

/// Without a usable song length, the usable position of the end marker is
/// the duration's source.
pub proof fn lemma_end_marker_second(song: VirtualDJSong, i: int)
    requires
        usable_seconds(stated_length(song)) is None,
        0 <= i < song.pois@.len(),
        is_end_marker(song.pois@[i]),
        forall|k: int| 0 <= k < i ==> !is_end_marker(song.pois@[k]),
        usable_seconds(song.pois@[i].pos) is Some,
    ensures
        duration_source(song) == usable_seconds(song.pois@[i].pos),
{
    lemma_end_marker_position(song.pois@);
}

/// With neither a usable song length nor an end marker, the position of the
/// last point of interest is the duration's source.
pub proof fn lemma_last_point_third(song: VirtualDJSong)
    requires
        usable_seconds(stated_length(song)) is None,
        forall|k: int| 0 <= k < song.pois@.len() ==> !is_end_marker(song.pois@[k]),
        song.pois@.len() > 0,
    ensures
        duration_source(song) == usable_seconds(song.pois@.last().pos),
{
    lemma_end_marker_position(song.pois@);
}

/// Where none of the three places holds a usable value, there is no
/// duration; and there is none either where the value that was found does
/// not exceed a tenth of a second.
pub proof fn lemma_no_duration(song: VirtualDJSong)
    requires
        duration_source(song) is None || !duration_source(song)->0.exceeds_tenth(),
    ensures
        spec_duration(song) is None,
{
}

/// Reads a number of seconds, and keeps it where it is greater than zero.
pub fn read_seconds(text: &Option<String>) -> (r: Option<Decimal>)
    ensures
        match r {
            Some(d) => usable_seconds(*text) == Some(d@),
            None => usable_seconds(*text) is None,
        },
{
    match text {
        Some(t) => match Decimal::parse(t.as_str()) {
            Some(seconds) => {
                if seconds.is_positive() {
                    Some(seconds)
                } else {
                    None
                }
            },
            None => None,
        },
        None => None,
    }
}

/// Finds the first point that is named as the end marker is.
pub fn find_end_marker(pois: &Vec<VirtualDJPoi>) -> (r: Option<usize>)
    ensures
        match r {
            Some(i) => i < pois.len() && is_end_marker(pois@[i as int]) && end_marker_position(
                pois@,
            ) == pois@[i as int].pos && forall|k: int| 0 <= k < i ==> !is_end_marker(pois@[k]),
            None => end_marker_position(pois@) is None && forall|k: int|
                0 <= k < pois.len() ==> !is_end_marker(pois@[k]),
        },
{
    let mut i: usize = 0;
    assert(pois@.skip(0) =~= pois@);
    while i < pois.len()
        invariant
            i <= pois.len(),
            end_marker_position(pois@) == end_marker_position(pois@.skip(i as int)),
            forall|k: int| 0 <= k < i ==> !is_end_marker(pois@[k]),
        decreases pois.len() - i,
    {
        let named = match &pois[i].name {
            Some(name) => same_text(name.as_str(), end_marker_name()),
            None => false,
        };
        assert(pois@.skip(i as int)[0] == pois@[i as int]);
        if named {
            return Some(i);
        }
        assert(pois@.skip(i as int).skip(1) =~= pois@.skip(i + 1));
        i += 1;
    }
    None
}

/// The duration of `song` in whole seconds, where it has one.
pub fn resolve_duration(song: &VirtualDJSong) -> (r: Option<u64>)
    ensures
        r == spec_duration(*song),
{
    let mut source = match &song.infos {
        Some(infos) => read_seconds(&infos.song_length),
        None => None,
    };
    if source.is_none() {
        source = match find_end_marker(&song.pois) {
            Some(i) => read_seconds(&song.pois[i].pos),
            None => None,
        };
    }
    if source.is_none() && song.pois.len() > 0 {
        source = read_seconds(&song.pois[song.pois.len() - 1].pos);
    }
    match source {
        Some(seconds) => {
            if seconds.exceeds_tenth() {
                Some(seconds.nearest_whole())
            } else {
                None
            }
        },
        None => None,
    }
}

} // verus!
