//! What is played and shown of a score.
use crate::piano::{first_layer, first_recording, is_chosen, nearest_key, Layer, Piano, Recording};
use crate::roll::{octaves, shown_part, ShownNote};
use crate::score::{Note, Tick, TrackView};
use crate::timeline::{part_plan, score_plan, track_plan, ScheduledNote};
use crate::workflow::Artifact;
use crate::workspace::{beats_of, is_scroll, scrolls_among, start_of};
use vstd::prelude::*;

verus! {

/// Whether something that is played is a note of a part: at its ticks, at its pitch, and as loud as
/// it is, from 0 to 15.
pub open spec fn plays(s: ScheduledNote, track: int, part: int, note: Note) -> bool {
    &&& s.track == track && s.part == part
    &&& s.on == note.on && s.off == note.off && s.pitch == note.pitch
    &&& 0 <= s.level <= 15
    &&& s.level == note.vel || (note.vel < 0 && s.level == 0) || (note.vel > 15 && s.level == 15)
}

/// Whether something that is played is one of the notes of a part that last.
pub open spec fn plays_one(s: ScheduledNote, tracks: Seq<TrackView>, track: int, part: int, k: int) -> bool {
    &&& 0 <= track < tracks.len() && 0 <= part < tracks[track].parts.len() && 0 <= k
        < tracks[track].parts[part].len()
    &&& tracks[track].parts[part][k].on < tracks[track].parts[part][k].off
    &&& plays(s, track, part, tracks[track].parts[part][k])
}

proof fn lemma_part_plan(track: int, part: int, notes: Seq<Note>, n: int)
    requires
        0 <= n <= notes.len(),
        0 <= track <= usize::MAX,
        0 <= part <= usize::MAX,
        part_plan(track, part, notes, n) is Ok,
    ensures
        forall|k: int|
            0 <= k < n && notes[k].on < notes[k].off ==> exists|m: int|
                0 <= m < part_plan(track, part, notes, n)->Ok_0.len() && plays(
                    #[trigger] part_plan(track, part, notes, n)->Ok_0[m],
                    track,
                    part,
                    #[trigger] notes[k],
                ),
        forall|m: int|
            0 <= m < part_plan(track, part, notes, n)->Ok_0.len() ==> exists|k: int|
                0 <= k < n && notes[k].on < notes[k].off && plays(
                    #[trigger] part_plan(track, part, notes, n)->Ok_0[m],
                    track,
                    part,
                    #[trigger] notes[k],
                ),
    decreases n,
{
    if n > 0 {
        lemma_part_plan(track, part, notes, n - 1);
        let before = part_plan(track, part, notes, n - 1)->Ok_0;
        let all = part_plan(track, part, notes, n)->Ok_0;
        assert forall|k: int| 0 <= k < n && notes[k].on < notes[k].off implies exists|m: int|
            0 <= m < all.len() && plays(#[trigger] all[m], track, part, #[trigger] notes[k]) by {
            if k < n - 1 {
                let m = choose|m: int|
                    0 <= m < before.len() && plays(#[trigger] before[m], track, part, notes[k]);
                assert(all[m] == before[m]);
            } else {
                assert(plays(all[all.len() - 1], track, part, notes[k]));
            }
        }
        assert forall|m: int| 0 <= m < all.len() implies exists|k: int|
            0 <= k < n && notes[k].on < notes[k].off && plays(
                #[trigger] all[m],
                track,
                part,
                #[trigger] notes[k],
            ) by {
            if m < before.len() {
                assert(all[m] == before[m]);
                let k = choose|k: int|
                    0 <= k < n - 1 && notes[k].on < notes[k].off && plays(
                        before[m],
                        track,
                        part,
                        #[trigger] notes[k],
                    );
                assert(plays(all[m], track, part, notes[k]));
            } else {
                assert(plays(all[m], track, part, notes[n - 1]));
            }
        }
    }
}

spec fn is_from(s: ScheduledNote, tracks: Seq<TrackView>) -> bool {
    exists|track: int, part: int, k: int| #[trigger] plays_one(s, tracks, track, part, k)
}

spec fn all_from(list: Seq<ScheduledNote>, tracks: Seq<TrackView>) -> bool {
    forall|m: int| 0 <= m < list.len() ==> is_from(#[trigger] list[m], tracks)
}

spec fn holds(list: Seq<ScheduledNote>, track: int, part: int, note: Note) -> bool {
    exists|m: int| 0 <= m < list.len() && plays(#[trigger] list[m], track, part, note)
}

proof fn lemma_holds_more(a: Seq<ScheduledNote>, b: Seq<ScheduledNote>, track: int, part: int, note: Note)
    requires
        holds(a, track, part, note) || holds(b, track, part, note),
    ensures
        holds(a + b, track, part, note),
{
    let all = a + b;
    if holds(a, track, part, note) {
        let m = choose|m: int| 0 <= m < a.len() && plays(#[trigger] a[m], track, part, note);
        assert(plays(all[m], track, part, note));
    } else {
        let m = choose|m: int| 0 <= m < b.len() && plays(#[trigger] b[m], track, part, note);
        assert(plays(all[a.len() + m], track, part, note));
    }
}

proof fn lemma_from_more(a: Seq<ScheduledNote>, b: Seq<ScheduledNote>, tracks: Seq<TrackView>)
    requires
        all_from(a, tracks),
        all_from(b, tracks),
    ensures
        all_from(a + b, tracks),
{
    let all = a + b;
    assert forall|m: int| 0 <= m < all.len() implies is_from(#[trigger] all[m], tracks) by {
        if m < a.len() {
            assert(all[m] == a[m]);
        } else {
            assert(all[m] == b[m - a.len()]);
        }
    }
}

proof fn lemma_track_plan(tracks: Seq<TrackView>, track: int, n: int)
    requires
        0 <= track < tracks.len() <= usize::MAX,
        0 <= n <= tracks[track].parts.len() <= usize::MAX,
        track_plan(track, tracks[track].parts, n) is Ok,
    ensures
        all_from(track_plan(track, tracks[track].parts, n)->Ok_0, tracks),
        forall|part: int, k: int|
            #![trigger tracks[track].parts[part][k]]
            0 <= part < n && 0 <= k < tracks[track].parts[part].len()
                && tracks[track].parts[part][k].on < tracks[track].parts[part][k].off ==> holds(
                track_plan(track, tracks[track].parts, n)->Ok_0,
                track,
                part,
                tracks[track].parts[part][k],
            ),
    decreases n,
{
    let parts = tracks[track].parts;
    if n > 0 {
        lemma_track_plan(tracks, track, n - 1);
        let before = track_plan(track, parts, n - 1)->Ok_0;
        let notes = parts[n - 1];
        let more = part_plan(track, n - 1, notes, notes.len() as int)->Ok_0;
        lemma_part_plan(track, n - 1, notes, notes.len() as int);
        assert(all_from(more, tracks)) by {
            assert forall|m: int| 0 <= m < more.len() implies is_from(#[trigger] more[m], tracks) by {
                let k = choose|k: int|
                    0 <= k < notes.len() && notes[k].on < notes[k].off && plays(
                        more[m],
                        track,
                        n - 1,
                        #[trigger] notes[k],
                    );
                assert(plays_one(more[m], tracks, track, n - 1, k));
            }
        }
        lemma_from_more(before, more, tracks);
        assert forall|part: int, k: int|
            #![trigger tracks[track].parts[part][k]]
            0 <= part < n && 0 <= k < parts[part].len() && parts[part][k].on < parts[part][k].off implies holds(
            before + more,
            track,
            part,
            parts[part][k],
        ) by {
            if part < n - 1 {
                assert(holds(before, track, part, tracks[track].parts[part][k]));
            } else {
                let m = choose|m: int|
                    0 <= m < more.len() && plays(#[trigger] more[m], track, n - 1, notes[k]);
                assert(holds(more, track, part, parts[part][k]));
            }
            lemma_holds_more(before, more, track, part, parts[part][k]);
        }
    } else {
        assert(all_from(Seq::<ScheduledNote>::empty(), tracks));
    }
}

proof fn lemma_score_plan(tracks: Seq<TrackView>, n: int, track: int, part: int, k: int)
    requires
        0 <= n <= tracks.len() <= usize::MAX,
        forall|t: int| 0 <= t < tracks.len() ==> (#[trigger] tracks[t]).parts.len() <= usize::MAX,
        score_plan(tracks, n) is Ok,
    ensures
        all_from(score_plan(tracks, n)->Ok_0, tracks),
        0 <= track < n && 0 <= part < tracks[track].parts.len() && 0 <= k
            < tracks[track].parts[part].len() && tracks[track].parts[part][k].on
            < tracks[track].parts[part][k].off ==> holds(
            score_plan(tracks, n)->Ok_0,
            track,
            part,
            tracks[track].parts[part][k],
        ),
    decreases n,
{
    if n > 0 {
        lemma_score_plan(tracks, n - 1, track, part, k);
        let before = score_plan(tracks, n - 1)->Ok_0;
        let parts = tracks[n - 1].parts;
        let more = track_plan(n - 1, parts, parts.len() as int)->Ok_0;
        lemma_track_plan(tracks, n - 1, parts.len() as int);
        lemma_from_more(before, more, tracks);
        if 0 <= track < n && 0 <= part < tracks[track].parts.len() && 0 <= k
            < tracks[track].parts[part].len() && tracks[track].parts[part][k].on
            < tracks[track].parts[part][k].off {
            lemma_holds_more(before, more, track, part, tracks[track].parts[part][k]);
        }
    } else {
        assert(all_from(Seq::<ScheduledNote>::empty(), tracks));
    }
}

/// Every note of a score that lasts is played, with the track and the part that it stands in, and
/// nothing is played that is not one of its notes.
pub proof fn law_every_note_is_played(tracks: Seq<TrackView>, track: int, part: int, k: int, m: int)
    requires
        tracks.len() <= usize::MAX,
        forall|t: int| 0 <= t < tracks.len() ==> (#[trigger] tracks[t]).parts.len() <= usize::MAX,
        score_plan(tracks, tracks.len() as int) is Ok,
    ensures
        0 <= track < tracks.len() && 0 <= part < tracks[track].parts.len() && 0 <= k
            < tracks[track].parts[part].len() && tracks[track].parts[part][k].on
            < tracks[track].parts[part][k].off ==> exists|i: int|
            0 <= i < score_plan(tracks, tracks.len() as int)->Ok_0.len() && plays(
                #[trigger] score_plan(tracks, tracks.len() as int)->Ok_0[i],
                track,
                part,
                tracks[track].parts[part][k],
            ),
        0 <= m < score_plan(tracks, tracks.len() as int)->Ok_0.len() ==> exists|t: int, p: int, q: int| #[trigger]
            plays_one(score_plan(tracks, tracks.len() as int)->Ok_0[m], tracks, t, p, q),
{
    lemma_score_plan(tracks, tracks.len() as int, track, part, k);
    let list = score_plan(tracks, tracks.len() as int)->Ok_0;
    if 0 <= m < list.len() {
        assert(is_from(list[m], tracks));
    }
}

/// The marks between two pitches stand at every C, with the number of its octave: middle C, which is
/// 60, begins the fourth.
pub proof fn law_octave_marks(low: int, high: int, pitch: i32, octave: i32)
    requires
        i32::MIN <= low,
        high <= i32::MAX,
    ensures
        octaves(low, high).contains((pitch, octave)) <==> low <= pitch <= high && pitch % 12 == 0
            && pitch == 60 + 12 * (octave - 4),
    decreases high - low + 1,
{
    let all = octaves(low, high);
    if high < low {
        assert(!all.contains((pitch, octave)));
    } else {
        law_octave_marks(low, high - 1, pitch, octave);
        let before = octaves(low, high - 1);
        if all.contains((pitch, octave)) {
            let k = choose|k: int| 0 <= k < all.len() && all[k] == (pitch, octave);
            if k < before.len() {
                assert(before[k] == (pitch, octave));
            }
        }
        if before.contains((pitch, octave)) {
            let k = choose|k: int| 0 <= k < before.len() && before[k] == (pitch, octave);
            assert(all[k] == (pitch, octave));
        }
        if high % 12 == 0 {
            assert(all[all.len() - 1] == (high as i32, (high / 12 - 1) as i32));
        }
    }
}

/// Whether a note is shown as itself: between two ticks, as far as it lies there.
pub open spec fn shows(s: ShownNote, track: int, part: int, note: Note, start: Tick, end: Tick) -> bool {
    &&& s.track == track && s.part == part && s.note == note
    &&& start <= s.from < s.to <= end
    &&& s.from == note.on || (s.from == start && note.on < start)
    &&& s.to == note.off || (s.to == end && note.off > end)
}

/// Of the notes of a part exactly those are shown that sound between two ticks, each from where it
/// begins to where it ends and no further than these ticks.
pub proof fn law_notes_in_sight(
    track: int,
    part: int,
    notes: Seq<Note>,
    start: Tick,
    end: Tick,
    audible: bool,
    n: int,
    k: int,
)
    requires
        0 <= k < n <= notes.len(),
        start < end,
        0 <= track <= usize::MAX,
        0 <= part <= usize::MAX,
        forall|i: int| 0 <= i < notes.len() ==> (#[trigger] notes[i]).on < notes[i].off,
    ensures
        notes[k].on < end && start < notes[k].off ==> exists|m: int|
            0 <= m < shown_part(track, part, notes, start, end, audible, n).len() && shows(
                #[trigger] shown_part(track, part, notes, start, end, audible, n)[m],
                track,
                part,
                notes[k],
                start,
                end,
            ),
        forall|m: int|
            0 <= m < shown_part(track, part, notes, start, end, audible, n).len() ==> shows(
                #[trigger] shown_part(track, part, notes, start, end, audible, n)[m],
                track,
                part,
                shown_part(track, part, notes, start, end, audible, n)[m].note,
                start,
                end,
            ) && shown_part(track, part, notes, start, end, audible, n)[m].audible == audible,
    decreases n,
{
    let all = shown_part(track, part, notes, start, end, audible, n);
    let before = shown_part(track, part, notes, start, end, audible, n - 1);
    if n > 1 {
        law_notes_in_sight(track, part, notes, start, end, audible, n - 1, if k < n - 1 {
            k
        } else {
            0
        });
    }
    if k < n - 1 && notes[k].on < end && start < notes[k].off {
        let m = choose|m: int|
            0 <= m < before.len() && shows(#[trigger] before[m], track, part, notes[k], start, end);
        assert(all[m] == before[m]);
    }
    assert(notes[n - 1].on < notes[n - 1].off);
    assert forall|m: int| 0 <= m < all.len() implies shows(
        #[trigger] all[m],
        track,
        part,
        all[m].note,
        start,
        end,
    ) && all[m].audible == audible by {
        if m < before.len() {
            assert(all[m] == before[m]);
        }
    }
    if k == n - 1 && notes[k].on < end && start < notes[k].off {
        assert(shows(all[all.len() - 1], track, part, notes[k], start, end));
    }
}

proof fn lemma_first_layer(layers: Seq<Layer>, from: int, key: int, velocity: int)
    requires
        0 <= from,
    ensures
        first_layer(layers, from, key, velocity) matches Some(l) ==> from <= l < layers.len()
            && layers[l].reach.covers(key, velocity) && forall|i: int|
            from <= i < l ==> !(#[trigger] layers[i]).reach.covers(key, velocity),
    decreases layers.len() - from,
{
    if from < layers.len() && !layers[from].reach.covers(key, velocity) {
        lemma_first_layer(layers, from + 1, key, velocity);
    }
}

proof fn lemma_first_recording(list: Seq<Recording>, from: int, key: int, velocity: int)
    requires
        0 <= from,
    ensures
        first_recording(list, from, key, velocity) matches Some(r) ==> from <= r < list.len()
            && list[r].reach.covers(key, velocity) && forall|i: int|
            from <= i < r ==> !(#[trigger] list[i]).reach.covers(key, velocity),
    decreases list.len() - from,
{
    if from < list.len() && !list[from].reach.covers(key, velocity) {
        lemma_first_recording(list, from + 1, key, velocity);
    }
}

/// A note is played with a recording whose keys and whose loudness hold it, and with the first such
/// layer and the first such recording in it. A pitch that no piano has is played at the nearest key.
pub proof fn law_recordings(piano: Piano, pitch: int, velocity: int, layer: int, recording: int, key: int)
    requires
        is_chosen(piano, pitch, velocity, layer, recording),
        20 <= key <= 109,
        20 <= pitch <= 109 ==> key == pitch,
        pitch < 20 ==> key == 20,
        pitch > 109 ==> key == 109,
    ensures
        ({
            let layers = piano.layers->Some_0@;
            let list = piano.instruments[layers[layer].instrument as int]@;
            &&& layers[layer].reach.lowest <= key <= layers[layer].reach.highest
            &&& layers[layer].reach.softest <= velocity <= layers[layer].reach.loudest
            &&& list[recording].reach.lowest <= key <= list[recording].reach.highest
            &&& list[recording].reach.softest <= velocity <= list[recording].reach.loudest
            &&& 0 <= list[recording].start < list[recording].end <= piano.values
            &&& forall|i: int|
                0 <= i < layer ==> !((#[trigger] layers[i]).reach.lowest <= key
                    <= layers[i].reach.highest && layers[i].reach.softest <= velocity
                    <= layers[i].reach.loudest)
            &&& forall|i: int|
                0 <= i < recording ==> !((#[trigger] list[i]).reach.lowest <= key
                    <= list[i].reach.highest && list[i].reach.softest <= velocity
                    <= list[i].reach.loudest)
        }),
{
    let layers = piano.layers->Some_0@;
    let list = piano.instruments[layers[layer].instrument as int]@;
    assert(nearest_key(pitch) == key);
    lemma_first_layer(layers, 0, key, velocity);
    lemma_first_recording(list, 0, key, velocity);
}

/// A view stays where it is where it ends within the score, and else it goes back until it does, no
/// further than to the start.
pub proof fn law_view_stays_within(start: int, beats: int, total: int)
    requires
        0 <= start,
        beats > 0,
    ensures
        0 <= start_of(start, beats, total) <= start,
        start + 96 * beats <= total ==> start_of(start, beats, total) == start,
        start_of(start, beats, total) + 96 * beats <= total || start_of(start, beats, total) == 0,
        start_of(start, beats, total) < start ==> start_of(start, beats, total) == 0 || start_of(
            start,
            beats,
            total,
        ) + 96 * beats == total,
{
}

/// A view shows as many beats as hold what it shows, but no fewer than four and no more than 256.
pub proof fn law_beats_in_view(start: int, end: int)
    ensures
        4 <= beats_of(start, end) <= 256,
        end - start <= 96 * beats_of(start, end) || beats_of(start, end) == 256,
        beats_of(start, end) > 4 ==> 96 * (beats_of(start, end) - 1) < end - start,
{
}

/// The scrolls among some files are exactly those that are one, in their order.
pub proof fn law_scrolls_among(artifacts: Seq<Artifact>, n: int, i: int)
    requires
        0 <= i < n <= artifacts.len(),
    ensures
        scrolls_among(artifacts, n).contains(i) <==> is_scroll(artifacts[i]),
        forall|a: int| 0 <= a < scrolls_among(artifacts, n).len() ==> 0 <= (#[trigger] scrolls_among(
            artifacts,
            n,
        )[a]) < n,
        forall|a: int, b: int|
            #![trigger scrolls_among(artifacts, n)[a], scrolls_among(artifacts, n)[b]]
            0 <= a < b < scrolls_among(artifacts, n).len() ==> scrolls_among(artifacts, n)[a]
                < scrolls_among(artifacts, n)[b],
    decreases n,
{
    let all = scrolls_among(artifacts, n);
    let before = scrolls_among(artifacts, n - 1);
    if n > 1 {
        law_scrolls_among(artifacts, n - 1, if i < n - 1 {
            i
        } else {
            0
        });
    }
    if all.contains(i) {
        let k = choose|k: int| 0 <= k < all.len() && all[k] == i;
        if k < before.len() {
            assert(before[k] == i);
            assert(before[k] < n - 1);
        }
    }
    if i < n - 1 && before.contains(i) {
        let k = choose|k: int| 0 <= k < before.len() && before[k] == i;
        assert(all[k] == i);
    }
    if i == n - 1 && is_scroll(artifacts[i]) {
        assert(all[all.len() - 1] == i);
    }
    assert forall|a: int| 0 <= a < all.len() implies 0 <= (#[trigger] all[a]) < n by {
        if a < before.len() {
            assert(all[a] == before[a]);
        }
    }
    assert forall|a: int, b: int|
        #![trigger all[a], all[b]]
        0 <= a < b < all.len() implies all[a] < all[b] by {
        assert(all[a] == before[a]);
        if b < before.len() {
            assert(all[b] == before[b]);
        }
    }
}

} // verus!
