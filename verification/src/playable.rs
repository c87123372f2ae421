//! Which scores can be arranged, and what is chosen among notes and parts.
use crate::attacks::{support_of, supports};
use crate::chords::{best_triple, led_by, none_reserved, Triple};
use crate::fold::{analyzed, note_fault, with_part_notes, with_track_notes, WorkingNote};
use crate::matching::{is_room, matchable, picked_from};
use crate::score::{Note, TrackView};
use vstd::prelude::*;

verus! {

/// Whether a note of a part does not begin before the one in front of it has ended, is as long as the
/// shortest that can be written, and has a volume.
pub open spec fn is_playable_note(part: Seq<Note>, k: int) -> bool {
    &&& 0 <= part[k].on
    &&& k > 0 ==> part[k - 1].off <= part[k].on
    &&& part[k].off >= part[k].on + 6
    &&& 0 <= part[k].vel <= 15
}

/// Whether the first notes of a part can be played one after the other.
pub open spec fn is_playable_part(part: Seq<Note>, n: int) -> bool {
    forall|k: int| #![trigger part[k]] 0 <= k < n ==> is_playable_note(part, k)
}

/// Whether every one of the first parts of a track can be played.
pub open spec fn is_playable_track(parts: Seq<Seq<Note>>, n: int) -> bool {
    forall|p: int| 0 <= p < n ==> is_playable_part(#[trigger] parts[p], parts[p].len() as int)
}

proof fn lemma_part(before: Seq<WorkingNote>, part: Seq<Note>, track: int, index: int, n: int)
    requires
        0 <= n <= part.len(),
    ensures
        with_part_notes(before, part, track, index, n) is Ok <==> is_playable_part(part, n),
        with_part_notes(before, part, track, index, n) matches Ok(all) ==> all.len() == before.len() + n
            && (forall|k: int| 0 <= k < before.len() ==> #[trigger] all[k] == before[k]) && (forall|k: int|
            0 <= k < n ==> (#[trigger] all[before.len() + k]).note == part[k]),
    decreases n,
{
    if n > 0 {
        lemma_part(before, part, track, index, n - 1);
        if is_playable_part(part, n - 1) {
            if n > 1 {
                assert(is_playable_note(part, n - 2)) by {
                    assert(part[n - 2] == part[n - 2]);
                }
            }
            assert(note_fault(part, n - 1, track, index) is None <==> is_playable_note(part, n - 1));
            if is_playable_note(part, n - 1) {
                assert forall|k: int| #![trigger part[k]] 0 <= k < n implies is_playable_note(part, k) by {
                    if k < n - 1 {
                        assert(part[k] == part[k]);
                    }
                }
            } else if is_playable_part(part, n) {
                assert(part[n - 1] == part[n - 1]);
            }
        } else if is_playable_part(part, n) {
            assert(is_playable_part(part, n - 1));
        }
        if with_part_notes(before, part, track, index, n) is Ok {
            let early = with_part_notes(before, part, track, index, n - 1)->Ok_0;
            let all = with_part_notes(before, part, track, index, n)->Ok_0;
            assert forall|k: int| 0 <= k < n implies (#[trigger] all[before.len() + k]).note == part[k] by {
                if k < n - 1 {
                    assert(all[before.len() + k] == early[before.len() + k]);
                }
            }
            assert forall|k: int| 0 <= k < before.len() implies #[trigger] all[k] == before[k] by {
                assert(all[k] == early[k]);
            }
        }
    }
}

proof fn lemma_track(before: Seq<WorkingNote>, parts: Seq<Seq<Note>>, track: int, n: int)
    requires
        0 <= n <= parts.len(),
    ensures
        with_track_notes(before, parts, track, n) is Ok <==> is_playable_track(parts, n),
    decreases n,
{
    if n > 0 {
        lemma_track(before, parts, track, n - 1);
        let part = parts[n - 1];
        if is_playable_track(parts, n - 1) {
            let notes = with_track_notes(before, parts, track, n - 1)->Ok_0;
            lemma_part(notes, part, track, n - 1, part.len() as int);
            if is_playable_part(part, part.len() as int) {
                assert forall|p: int| 0 <= p < n implies is_playable_part(
                    #[trigger] parts[p],
                    parts[p].len() as int,
                ) by {}
            } else if is_playable_track(parts, n) {
                assert(is_playable_part(parts[n - 1], parts[n - 1].len() as int));
            }
        } else if is_playable_track(parts, n) {
            assert(is_playable_track(parts, n - 1));
        }
    }
}

/// A score can be arranged exactly where the notes of every part follow one another, are long enough
/// to be written, and have volumes from 0 to 15.
pub proof fn law_playable_scores(tracks: Seq<TrackView>, n: int)
    requires
        0 <= n <= tracks.len(),
    ensures
        analyzed(tracks, n) is Ok <==> forall|t: int|
            0 <= t < n ==> is_playable_track(
                (#[trigger] tracks[t]).parts,
                tracks[t].parts.len() as int,
            ),
    decreases n,
{
    if n > 0 {
        law_playable_scores(tracks, n - 1);
        let parts = tracks[n - 1].parts;
        if analyzed(tracks, n - 1) is Ok {
            lemma_track(analyzed(tracks, n - 1)->Ok_0, parts, n - 1, parts.len() as int);
        }
    }
}

/// An attack takes the first part in its order of preference that leaves parts for all behind it.
pub proof fn law_first_that_leaves_room(edges: Seq<Seq<usize>>, position: int, reserved: Seq<bool>, k: int, m: int)
    requires
        0 <= position < edges.len(),
        0 <= k <= m < edges[position].len(),
        is_room(edges, position, reserved, edges[position][m] as int),
    ensures
        exists|j: int|
            k <= j <= m && #[trigger] edges[position][j] == picked_from(edges, position, reserved, k)
                && is_room(edges, position, reserved, edges[position][j] as int),
        forall|j: int|
            k <= j < edges[position].len() && is_room(
                edges,
                position,
                reserved,
                #[trigger] edges[position][j] as int,
            ) ==> picked_from(edges, position, reserved, k) == edges[position][j] || exists|i: int|
                k <= i < j && #[trigger] edges[position][i] == picked_from(edges, position, reserved, k),
    decreases edges[position].len() - k,
{
    let list = edges[position];
    if is_room(edges, position, reserved, list[k] as int) {
        assert(edges[position][k] == picked_from(edges, position, reserved, k));
    } else {
        law_first_that_leaves_room(edges, position, reserved, k + 1, m);
        let j = choose|j: int|
            k + 1 <= j <= m && #[trigger] edges[position][j] == picked_from(
                edges,
                position,
                reserved,
                k + 1,
            ) && is_room(edges, position, reserved, edges[position][j] as int);
        assert(edges[position][j] == picked_from(edges, position, reserved, k));
        assert forall|j: int|
            k <= j < edges[position].len() && is_room(
                edges,
                position,
                reserved,
                #[trigger] edges[position][j] as int,
            ) implies picked_from(edges, position, reserved, k) == edges[position][j] || exists|i: int|
            k <= i < j && #[trigger] edges[position][i] == picked_from(edges, position, reserved, k) by {
            if picked_from(edges, position, reserved, k) != edges[position][j] {
                let i = choose|i: int|
                    k + 1 <= i < j && #[trigger] edges[position][i] == picked_from(
                        edges,
                        position,
                        reserved,
                        k + 1,
                    );
                assert(edges[position][i] == picked_from(edges, position, reserved, k));
            }
        }
    }
}

/// Whether three attacks can lead and leave parts for all.
pub open spec fn can_lead(edges: Seq<Seq<usize>>, t: Triple, parts: int, count: int) -> bool {
    matchable(led_by(edges, t, parts), 0, none_reserved(count))
}

/// In a block chord those three attacks lead that have the greatest value of all that leave parts for
/// the others: none leads only where no three can.
pub proof fn law_best_triple(
    edges: Seq<Seq<usize>>,
    list: Seq<Triple>,
    values: Seq<i64>,
    parts: int,
    count: int,
    n: int,
    k: int,
)
    requires
        0 <= k < n <= list.len(),
        values.len() == list.len(),
    ensures
        match best_triple(edges, list, values, parts, count, n) {
            None => !can_lead(edges, list[k], parts, count),
            Some(b) => {
                &&& 0 <= b < n
                &&& can_lead(edges, list[b], parts, count)
                &&& can_lead(edges, list[k], parts, count) ==> values[k] <= values[b]
            },
        },
    decreases n,
{
    if n > 1 {
        law_best_triple(edges, list, values, parts, count, n - 1, if k < n - 1 {
            k
        } else {
            0
        });
    } else {
        assert(best_triple(edges, list, values, parts, count, 0) is None);
    }
}

/// The chord below an upper voice is joined by the lowest new note that supports the voice.
pub proof fn law_lowest_support(
    notes: Seq<Note>,
    batch: Seq<usize>,
    bass: Note,
    recent: Note,
    top: Note,
    least: int,
    n: int,
    k: int,
)
    requires
        0 <= k < n <= batch.len(),
    ensures
        match support_of(notes, batch, bass, recent, top, least, n) {
            None => !supports(notes[batch[k] as int], bass, recent, top, least),
            Some(i) => {
                &&& supports(notes[i as int], bass, recent, top, least)
                &&& supports(notes[batch[k] as int], bass, recent, top, least) ==> notes[i as int].pitch
                    <= notes[batch[k] as int].pitch
            },
        },
    decreases n,
{
    if n > 1 {
        law_lowest_support(notes, batch, bass, recent, top, least, n - 1, if k < n - 1 {
            k
        } else {
            0
        });
    } else {
        assert(support_of(notes, batch, bass, recent, top, least, 0) is None);
    }
}

/// A note supports an upper voice only an octave or more below it and above the bass, as long as need
/// be, and at least half as loud as each of the others.
pub proof fn law_supports(note: Note, bass: Note, recent: Note, top: Note, least: int)
    ensures
        supports(note, bass, recent, top, least) <==> {
            &&& bass.pitch < note.pitch
            &&& note.pitch + 12 <= recent.pitch && note.pitch + 12 <= top.pitch
            &&& note.on + least <= note.off
            &&& note.vel >= 1
            &&& bass.vel <= 2 * note.vel && recent.vel <= 2 * note.vel && top.vel <= 2 * note.vel
        },
{
}

} // verus!
