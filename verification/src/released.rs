//! How the notes of a MIDI file end.
use crate::midi::{all_ended, first_held, released, ChannelState, MidiNote};
use crate::smf::{Happening, SmfContent};
use crate::song::{all_slots, event_count, on_channel, played, played_on, song_of, time_of, timeline, track_slots, with_point, Playing, Slot};
use vstd::prelude::*;

verus! {

/// Whether two events are the same, or each is one of the two ways to let go of the same key: a
/// note-off, or a note-on without any velocity.
pub open spec fn same_event(a: Happening, b: Happening) -> bool {
    ||| a == b
    ||| lets_go(a) is Some && lets_go(a) == lets_go(b)
}

/// The channel and the key that an event lets go of.
pub open spec fn lets_go(h: Happening) -> Option<(u8, u8)> {
    match h {
        Happening::NoteOff(channel, key) => Some((channel, key)),
        Happening::NoteOn(channel, key, velocity) => if velocity == 0 {
            Some((channel, key))
        } else {
            None
        },
        _ => None,
    }
}

/// Whether two files are the same, up to how they let go of keys.
pub open spec fn same_file(a: SmfContent, b: SmfContent) -> bool {
    &&& a.format == b.format
    &&& a.timing == b.timing
    &&& a.tracks.len() == b.tracks.len()
    &&& forall|t: int| 0 <= t < a.tracks.len() ==> (#[trigger] a.tracks[t]).len() == b.tracks[t].len()
    &&& forall|t: int, k: int|
        #![trigger a.tracks[t][k]]
        0 <= t < a.tracks.len() && 0 <= k < a.tracks[t].len() ==> a.tracks[t][k].0
            == b.tracks[t][k].0 && same_event(a.tracks[t][k].1, b.tracks[t][k].1)
}

proof fn lemma_same_times(a: Seq<(u32, Happening)>, b: Seq<(u32, Happening)>, order: int)
    requires
        order < a.len(),
        a.len() == b.len(),
        forall|k: int| 0 <= k < a.len() ==> (#[trigger] a[k]).0 == b[k].0,
    ensures
        time_of(a, order) == time_of(b, order),
    decreases order + 1,
{
    if order >= 0 {
        lemma_same_times(a, b, order - 1);
        assert(a[order].0 == b[order].0);
    }
}

proof fn lemma_same_track(a: Seq<(u32, Happening)>, b: Seq<(u32, Happening)>, ti: int, n: int)
    requires
        n <= a.len(),
        a.len() == b.len(),
        forall|k: int| 0 <= k < a.len() ==> (#[trigger] a[k]).0 == b[k].0,
    ensures
        track_slots(a, ti, n) == track_slots(b, ti, n),
    decreases n,
{
    if n > 0 {
        lemma_same_track(a, b, ti, n - 1);
        lemma_same_times(a, b, n - 1);
    }
}

proof fn lemma_same_slots(a: SmfContent, b: SmfContent, n: int)
    requires
        same_file(a, b),
        n <= a.tracks.len(),
    ensures
        all_slots(a.tracks, n) == all_slots(b.tracks, n),
        event_count(a.tracks, n) == event_count(b.tracks, n),
    decreases n,
{
    if n > 0 {
        lemma_same_slots(a, b, n - 1);
        let x = a.tracks[n - 1];
        let y = b.tracks[n - 1];
        assert(x.len() == y.len());
        assert forall|k: int| 0 <= k < x.len() implies (#[trigger] x[k]).0 == y[k].0 by {
            assert(a.tracks[n - 1][k].0 == b.tracks[n - 1][k].0);
        }
        lemma_same_track(x, y, n - 1, x.len() as int);
    }
}

proof fn lemma_same_step(p: Playing, time: u64, track: int, a: Happening, b: Happening)
    requires
        same_event(a, b),
    ensures
        played_on(p, time, track, a) == played_on(p, time, track, b),
{
}

/// Whether an event of a file is there.
spec fn is_there(content: SmfContent, slot: Slot) -> bool {
    slot.track < content.tracks.len() && slot.order < content.tracks[slot.track as int].len()
}

proof fn lemma_slots_there(content: SmfContent, n: int)
    requires
        0 <= n <= content.tracks.len(),
        content.tracks.len() <= usize::MAX,
        forall|t: int|
            0 <= t < content.tracks.len() ==> (#[trigger] content.tracks[t]).len() <= usize::MAX,
    ensures
        forall|k: int|
            0 <= k < all_slots(content.tracks, n).len() ==> is_there(
                content,
                #[trigger] all_slots(content.tracks, n)[k],
            ),
    decreases n,
{
    if n > 0 {
        lemma_slots_there(content, n - 1);
        let own = content.tracks[n - 1];
        assert(own.len() <= usize::MAX);
        lemma_own_slots(own, n - 1, own.len() as int);
        let before = all_slots(content.tracks, n - 1);
        let all = all_slots(content.tracks, n);
        assert forall|k: int| 0 <= k < all.len() implies is_there(content, #[trigger] all[k]) by {
            if k < before.len() {
                assert(all[k] == before[k]);
            } else {
                assert(all[k] == track_slots(own, n - 1, own.len() as int)[k - before.len()]);
            }
        }
    }
}

proof fn lemma_own_slots(track: Seq<(u32, Happening)>, ti: int, n: int)
    requires
        0 <= n <= track.len() <= usize::MAX,
        0 <= ti < usize::MAX,
    ensures
        track_slots(track, ti, n).len() == n,
        forall|k: int|
            0 <= k < n ==> (#[trigger] track_slots(track, ti, n)[k]).track == ti && track_slots(
                track,
                ti,
                n,
            )[k].order == k,
    decreases n,
{
    if n > 0 {
        lemma_own_slots(track, ti, n - 1);
        let before = track_slots(track, ti, n - 1);
        let all = track_slots(track, ti, n);
        assert forall|k: int| 0 <= k < n implies (#[trigger] all[k]).track == ti && all[k].order
            == k by {
            if k < n - 1 {
                assert(all[k] == before[k]);
            }
        }
    }
}

proof fn lemma_same_played(a: SmfContent, b: SmfContent, n: int)
    requires
        same_file(a, b),
        timeline(a) == timeline(b),
        0 <= n <= timeline(a).len(),
        forall|k: int| 0 <= k < timeline(a).len() ==> is_there(a, #[trigger] timeline(a)[k]),
    ensures
        played(a, n) == played(b, n),
    decreases n,
{
    if n > 0 {
        lemma_same_played(a, b, n - 1);
        let slot = timeline(a)[n - 1];
        assert(is_there(a, slot));
        let x = a.tracks[slot.track as int][slot.order as int].1;
        let y = b.tracks[slot.track as int][slot.order as int].1;
        assert(same_event(x, y));
        if played(a, n - 1) is Ok {
            lemma_same_step(played(a, n - 1)->Ok_0, slot.time, slot.track as int, x, y);
        }
    }
}

/// A note-on without any velocity lets go of its key as a note-off does: a file plays the same
/// song whichever of the two it uses, event by event.
pub proof fn law_silent_note_on_is_note_off(a: SmfContent, b: SmfContent)
    requires
        same_file(a, b),
        a.tracks.len() <= usize::MAX,
        forall|t: int| 0 <= t < a.tracks.len() ==> (#[trigger] a.tracks[t]).len() <= usize::MAX,
    ensures
        song_of(a) == song_of(b),
{
    let n = a.tracks.len() as int;
    lemma_same_slots(a, b, n);
    lemma_slots_there(a, n);
    let slots = all_slots(a.tracks, n);
    crate::order::lemma_stable_sort(slots, |s: Slot| crate::song::slot_key(s));
    assert forall|k: int| 0 <= k < timeline(a).len() implies is_there(a, #[trigger] timeline(a)[k]) by {
        assert(slots.contains(timeline(a)[k]));
    }
    lemma_same_played(a, b, timeline(a).len() as int);
}

/// Whether a note is one that is held on a key.
pub open spec fn is_on_key(state: ChannelState, notes: Seq<MidiNote>, key: u8, i: int) -> bool {
    0 <= i < state.held.len() && notes[state.held[i] as int].pitch == key
}

/// Whether some notes are as they were but for one of them, which ends at a time.
pub open spec fn ends_one(before: Seq<MidiNote>, after: Seq<MidiNote>, i: int, time: u64) -> bool {
    &&& after.len() == before.len()
    &&& 0 <= i < before.len()
    &&& after[i] == (MidiNote { off: Some(time), ..before[i] })
    &&& forall|k: int| 0 <= k < before.len() && k != i ==> #[trigger] after[k] == before[k]
}

proof fn lemma_first_held(held: Seq<usize>, notes: Seq<MidiNote>, pitch: u8, track: Option<usize>, from: int)
    requires
        0 <= from <= held.len(),
    ensures
        match first_held(held, notes, pitch, track, from) {
            Some(i) => from <= i < held.len() && notes[held[i] as int].pitch == pitch && (
            track is None || track == Some(notes[held[i] as int].track)) && forall|j: int|
                from <= j < i ==> notes[(#[trigger] held[j]) as int].pitch != pitch || (
                track is Some && track != Some(notes[held[j] as int].track)),
            None => forall|j: int|
                from <= j < held.len() ==> notes[(#[trigger] held[j]) as int].pitch != pitch || (
                track is Some && track != Some(notes[held[j] as int].track)),
        },
    decreases held.len() - from,
{
    if from < held.len() {
        lemma_first_held(held, notes, pitch, track, from + 1);
    }
}

/// Whether a held note is the one that letting go of a key ends: the earliest on that key of the
/// same track, or the earliest of all where that track holds none.
pub open spec fn is_let_go(state: ChannelState, notes: Seq<MidiNote>, track: usize, key: u8, i: int) -> bool {
    &&& is_on_key(state, notes, key, i)
    &&& if notes[state.held[i] as int].track == track {
        forall|j: int|
            0 <= j < i && #[trigger] is_on_key(state, notes, key, j) ==> notes[state.held[j] as int].track
                != track
    } else {
        forall|j: int| #[trigger]
            is_on_key(state, notes, key, j) ==> notes[state.held[j] as int].track != track && i <= j
    }
}

proof fn lemma_released(state: ChannelState, notes: Seq<MidiNote>, track: usize, key: u8)
    ensures
        match released(state.held, notes, track, key) {
            Some(i) => is_let_go(state, notes, track, key, i),
            None => forall|j: int| !#[trigger] is_on_key(state, notes, key, j),
        },
{
    lemma_first_held(state.held, notes, key, Some(track), 0);
    lemma_first_held(state.held, notes, key, None, 0);
}

/// Letting go of a key ends the note on it at that time; where the pedal is down the note goes on
/// until the pedal comes up. Of several notes it is the earliest, those of the same track before
/// others, and no other note changes. A key that is not down is let go of without effect.
pub proof fn law_key_up(
    state: ChannelState,
    notes: Seq<MidiNote>,
    time: u64,
    track: int,
    channel: u8,
    key: u8,
    silent: bool,
)
    requires
        state.knows(notes.len() as int),
        0 <= track <= usize::MAX,
    ensures
        ({
            let h = if silent {
                Happening::NoteOn(channel, key, 0)
            } else {
                Happening::NoteOff(channel, key)
            };
            let (after, left) = on_channel(state, notes, time, track, h);
            ||| exists|i: int| #[trigger] is_let_go(state, notes, track as usize, key, i)
                && after.held == state.held.remove(i) && after.pedal == state.pedal && (
            if state.pedal {
                left == notes && after.sustained == state.sustained.push(state.held[i])
            } else {
                ends_one(notes, left, state.held[i] as int, time) && after.sustained
                    == state.sustained
            })
            ||| (forall|i: int| !#[trigger] is_on_key(state, notes, key, i)) && after == state
                && left == notes
        }),
{
    lemma_released(state, notes, track as usize, key);
    match released(state.held, notes, track as usize, key) {
        Some(i) => {
            assert(is_let_go(state, notes, track as usize, key, i));
            assert(state.held[i] < notes.len());
        },
        None => {},
    }
}

/// A key that is struck begins a note on it there and then, with the velocity of the stroke and
/// the program of the channel, and holds it; no other note changes.
pub proof fn law_key_down(
    state: ChannelState,
    notes: Seq<MidiNote>,
    time: u64,
    track: int,
    channel: u8,
    key: u8,
    velocity: u8,
)
    requires
        velocity > 0,
        0 <= track <= usize::MAX,
        notes.len() < usize::MAX,
    ensures
        ({
            let (after, left) = on_channel(
                state,
                notes,
                time,
                track,
                Happening::NoteOn(channel, key, velocity),
            );
            let n = notes.len() as int;
            &&& left.len() == n + 1
            &&& forall|k: int| 0 <= k < n ==> #[trigger] left[k] == notes[k]
            &&& left[n].on == time
            &&& left[n].off is None
            &&& left[n].pitch == key
            &&& left[n].velocity == velocity
            &&& left[n].track == track
            &&& left[n].port == state.port
            &&& left[n].channel == state.channel
            &&& left[n].program == state.program
            &&& after.held == state.held.push(n as usize)
            &&& after.sustained == state.sustained
            &&& after.pedal == state.pedal
        }),
{
}

/// Whether notes are as they were but for those of a list, which end at a time.
pub open spec fn ends_listed(before: Seq<MidiNote>, after: Seq<MidiNote>, list: Seq<usize>, time: u64) -> bool {
    &&& after.len() == before.len()
    &&& forall|k: int|
        0 <= k < before.len() ==> #[trigger] after[k] == if list.contains(k as usize) {
            MidiNote { off: Some(time), ..before[k] }
        } else {
            before[k]
        }
}

proof fn lemma_all_ended(notes: Seq<MidiNote>, list: Seq<usize>, time: u64)
    requires
        notes.len() <= usize::MAX,
        forall|i: int| 0 <= i < list.len() ==> (#[trigger] list[i]) < notes.len(),
    ensures
        ends_listed(notes, all_ended(notes, list, time), list, time),
    decreases list.len(),
{
    if list.len() > 0 {
        let front = list.drop_last();
        assert forall|i: int| 0 <= i < front.len() implies (#[trigger] front[i]) < notes.len() by {
            assert(front[i] == list[i]);
        }
        lemma_all_ended(notes, front, time);
        let before = all_ended(notes, front, time);
        let after = all_ended(notes, list, time);
        assert(list[list.len() - 1] < notes.len());
        assert forall|k: int| 0 <= k < notes.len() implies #[trigger] after[k] == if list.contains(
            k as usize,
        ) {
            MidiNote { off: Some(time), ..notes[k] }
        } else {
            notes[k]
        } by {
            assert(before[k] == if front.contains(k as usize) {
                MidiNote { off: Some(time), ..notes[k] }
            } else {
                notes[k]
            });
            if k == list.last() {
                assert(list[list.len() - 1] == k as usize);
            } else {
                assert(after[k] == before[k]);
                if list.contains(k as usize) {
                    let q = choose|q: int| 0 <= q < list.len() && list[q] == k as usize;
                    assert(front[q] == k as usize);
                }
                if front.contains(k as usize) {
                    let q = choose|q: int| 0 <= q < front.len() && front[q] == k as usize;
                    assert(list[q] == k as usize);
                }
            }
        }
    }
}

/// A pedal that goes down ends nothing. When it comes up, by its own controller or because all
/// controllers are reset, the notes end there that only it has held, and no others.
pub proof fn law_pedal(
    state: ChannelState,
    notes: Seq<MidiNote>,
    time: u64,
    track: int,
    channel: u8,
    value: u8,
    reset: bool,
)
    requires
        state.knows(notes.len() as int),
        notes.len() <= usize::MAX,
    ensures
        ({
            let down = !reset && value >= 64;
            let h = Happening::Controller(
                channel,
                if reset {
                    121
                } else {
                    64
                },
                value,
            );
            let (after, left) = on_channel(state, notes, time, track, h);
            &&& after.pedal == down
            &&& after.held == state.held
            &&& if down {
                left == notes && after.sustained == state.sustained
            } else {
                ends_listed(notes, left, state.sustained, time) && after.sustained.len() == 0
            }
        }),
{
    lemma_all_ended(notes, state.sustained, time);
}

/// When all sound is turned off, everything ends there that the channel plays. When all keys are
/// let go of, the notes of the keys end there, unless the pedal is down, which goes on to hold
/// them. The pedal stays where it is.
pub proof fn law_all_off(
    state: ChannelState,
    notes: Seq<MidiNote>,
    time: u64,
    track: int,
    channel: u8,
    value: u8,
)
    requires
        state.knows(notes.len() as int),
        notes.len() <= usize::MAX,
    ensures
        ({
            let (after, left) = on_channel(
                state,
                notes,
                time,
                track,
                Happening::Controller(channel, 120, value),
            );
            &&& ends_listed(notes, left, state.sustained + state.held, time)
            &&& after.held.len() == 0
            &&& after.sustained.len() == 0
            &&& after.pedal == state.pedal
        }),
        ({
            let (after, left) = on_channel(
                state,
                notes,
                time,
                track,
                Happening::Controller(channel, 123, value),
            );
            &&& after.held.len() == 0
            &&& after.pedal == state.pedal
            &&& if state.pedal {
                left == notes && after.sustained == state.sustained + state.held
            } else {
                ends_listed(notes, left, state.held, time) && after.sustained == state.sustained
            }
        }),
{
    lemma_all_ended(notes, state.sustained, time);
    lemma_all_ended(notes, state.held, time);
    let mid = all_ended(notes, state.sustained, time);
    lemma_all_ended(mid, state.held, time);
    let left = all_ended(mid, state.held, time);
    let all = state.sustained + state.held;
    assert forall|k: int| 0 <= k < notes.len() implies #[trigger] left[k] == if all.contains(
        k as usize,
    ) {
        MidiNote { off: Some(time), ..notes[k] }
    } else {
        notes[k]
    } by {
        let x = k as usize;
        assert(mid[k] == if state.sustained.contains(x) {
            MidiNote { off: Some(time), ..notes[k] }
        } else {
            notes[k]
        });
        if state.sustained.contains(x) {
            let q = choose|q: int| 0 <= q < state.sustained.len() && state.sustained[q] == x;
            assert(all[q] == x);
        }
        if state.held.contains(x) {
            let q = choose|q: int| 0 <= q < state.held.len() && state.held[q] == x;
            assert(all[state.sustained.len() + q] == x);
        }
        if all.contains(x) {
            let q = choose|q: int| 0 <= q < all.len() && all[q] == x;
            if q < state.sustained.len() {
                assert(state.sustained[q] == x);
            } else {
                assert(state.held[q - state.sustained.len()] == x);
            }
        }
    }
}

/// A change of program concerns the notes that are struck behind it, and no note that is there.
pub proof fn law_program(state: ChannelState, notes: Seq<MidiNote>, time: u64, track: int, channel: u8, program: u8)
    ensures
        ({
            let (after, left) = on_channel(
                state,
                notes,
                time,
                track,
                Happening::Program(channel, program),
            );
            &&& left == notes
            &&& after.program == program
            &&& after.held == state.held
            &&& after.sustained == state.sustained
            &&& after.pedal == state.pedal
        }),
{
}

/// Whether points come one after the other in time.
pub open spec fn points_ascend<V>(s: Seq<(u64, V)>) -> bool {
    forall|i: int, j: int| #![trigger s[i], s[j]] 0 <= i < j < s.len() ==> s[i].0 < s[j].0
}

/// A change of tempo or of the time signature counts from its time on, in place of what was set
/// at the same time before; what is set at other times stays.
pub proof fn law_with_point<V>(s: Seq<(u64, V)>, p: (u64, V), other: (u64, V))
    requires
        points_ascend(s),
    ensures
        points_ascend(with_point(s, p)),
        with_point(s, p).contains(p),
        other.0 != p.0 ==> (with_point(s, p).contains(other) <==> s.contains(other)),
        with_point(s, p).contains(other) && other.0 == p.0 ==> other == p,
    decreases s.len(),
{
    let new = with_point(s, p);
    let n = s.len() as int;
    if n == 0 || s.last().0 < p.0 {
        assert(new[n] == p);
        assert forall|i: int, j: int|
            #![trigger new[i], new[j]]
            0 <= i < j < new.len() implies new[i].0 < new[j].0 by {
            if j == n && i < n - 1 {
                assert(s[i].0 < s[n - 1].0);
            }
        }
        if s.contains(other) {
            let k = choose|k: int| 0 <= k < n && s[k] == other;
            assert(new[k] == other);
            if k < n - 1 {
                assert(s[k].0 < s[n - 1].0);
            }
        }
        if new.contains(other) {
            let k = choose|k: int| 0 <= k < new.len() && new[k] == other;
            if k < n {
                assert(s[k] == other);
                assert(s[k].0 <= s[n - 1].0);
            }
        }
    } else if s.last().0 == p.0 {
        assert(new[n - 1] == p);
        assert forall|i: int, j: int|
            #![trigger new[i], new[j]]
            0 <= i < j < new.len() implies new[i].0 < new[j].0 by {
            assert(s[i].0 < s[j].0);
        }
        if s.contains(other) {
            let k = choose|k: int| 0 <= k < n && s[k] == other;
            if k < n - 1 {
                assert(new[k] == other);
            }
        }
        if new.contains(other) {
            let k = choose|k: int| 0 <= k < new.len() && new[k] == other;
            if k < n - 1 {
                assert(s[k] == other);
                assert(s[k].0 < s[n - 1].0);
            }
        }
    } else {
        let front = s.drop_last();
        law_with_point(front, p, other);
        let inner = with_point(front, p);
        assert(new[inner.len() as int] == s[n - 1]);
        let at = choose|k: int| 0 <= k < inner.len() && inner[k] == p;
        assert(new[at] == p);
        if s.contains(other) {
            let k = choose|k: int| 0 <= k < n && s[k] == other;
            if k < n - 1 {
                assert(front[k] == other);
            }
        }
        if front.contains(other) {
            let k = choose|k: int| 0 <= k < front.len() && front[k] == other;
            assert(s[k] == other);
        }
        if inner.contains(other) {
            let k = choose|k: int| 0 <= k < inner.len() && inner[k] == other;
            assert(new[k] == other);
        }
        if new.contains(other) {
            let k = choose|k: int| 0 <= k < new.len() && new[k] == other;
            if k < inner.len() {
                assert(inner[k] == other);
            } else {
                assert(s[n - 1] == other);
            }
        }
        assert forall|i: int, j: int|
            #![trigger new[i], new[j]]
            0 <= i < j < new.len() implies new[i].0 < new[j].0 by {
            assert(new[i] == inner[i]);
            if j < inner.len() {
                assert(new[j] == inner[j]);
            } else {
                law_with_point(front, p, inner[i]);
                assert(inner.contains(inner[i]));
                if inner[i].0 != p.0 {
                    let k = choose|k: int| 0 <= k < front.len() && front[k] == inner[i];
                    assert(s[k].0 < s[n - 1].0);
                }
            }
        }
    }
}

} // verus!
