//! Where notes end that give way, and what is left of chords.
use crate::crowded::{are_even, are_sounding, is_heard, law_chord_keeps_pitches, law_outer_pitches_stay, is_bottom, is_top, pitch_at, sound_on};
use crate::fold::WorkingNote;
use crate::harmony::classes_of;
use crate::polyphony::voices;
use crate::reduce::{are_reducible, bare, ends_of, giving_way, group_end, lasting, lemma_events, plain_keys, reduction, standing, start_keys, still, tells_time, thinned, time_order, victim_of};
use crate::score::Tick;
use crate::spared::{among_first, lemma_distinct_voices, lemma_group, lemma_still, sounds};
use vstd::prelude::*;

verus! {

/// Whether a note begins at a tick.
pub open spec fn begins_at(notes: Seq<WorkingNote>, t: int) -> bool {
    exists|j: int| 0 <= j < notes.len() && (#[trigger] notes[j]).note.on == t
}

/// Whether a note has given way at a tick in its midst: it ends there, and where it has not sounded
/// for six ticks by then it is gone. Nothing else of it is changed.
pub open spec fn gave_way(before: WorkingNote, after: WorkingNote, t: int) -> bool {
    &&& before.note.on <= t < before.note.off
    &&& after.note.on == before.note.on
    &&& after.note.off == if t < before.note.on + 6 {
        before.note.on as int
    } else {
        t
    }
    &&& after.note.pitch == before.note.pitch
    &&& after.note.vel == before.note.vel
    &&& after.note.src == before.note.src
    &&& after.base == before.base
}

/// Whether a note is as it was, or has given way to a note that begins where more of the notes
/// sound together than may.
pub open spec fn is_left(start: Seq<WorkingNote>, now: Seq<WorkingNote>, limit: int, i: int) -> bool {
    ||| now[i] == start[i]
    ||| exists|t: int| #[trigger]
        voices(bare(start), t) > limit && begins_at(start, t) && gave_way(start[i], now[i], t)
}

/// Whether all notes are left so, and those that sound are as they were.
spec fn are_left(start: Seq<WorkingNote>, now: Seq<WorkingNote>, active: Seq<usize>, limit: int) -> bool {
    &&& now.len() == start.len()
    &&& forall|i: int| 0 <= i < start.len() ==> #[trigger] is_left(start, now, limit, i)
    &&& forall|i: int| 0 <= i < start.len() ==> (#[trigger] now[i]).note.on == start[i].note.on
    &&& forall|k: int|
        0 <= k < active.len() ==> (#[trigger] active[k]) < start.len() && now[active[k] as int]
            == start[active[k] as int]
    &&& active.no_duplicates()
}

proof fn lemma_thinned(
    start: Seq<WorkingNote>,
    now: Seq<WorkingNote>,
    active: Seq<usize>,
    classes: Seq<bool>,
    tick: Tick,
    limit: int,
)
    requires
        start.len() <= usize::MAX,
        are_left(start, now, active, limit),
        begins_at(start, tick as int),
        forall|k: int|
            0 <= k < active.len() ==> start[(#[trigger] active[k]) as int].note.on <= tick
                < start[active[k] as int].note.off,
    ensures
        ({
            let (rest, left) = thinned(now, active, classes, tick, limit);
            &&& are_left(start, rest, left, limit)
            &&& forall|k: int| 0 <= k < left.len() ==> active.contains(#[trigger] left[k])
            &&& forall|i: int|
                0 <= i < start.len() && !active.contains(i as usize) ==> #[trigger] rest[i] == now[i]
        }),
    decreases active.len(),
{
    let n = active.len() as int;
    let keys = plain_keys(now, active, classes, tick);
    let v = victim_of(now, active, tick, true, keys, n);
    if n <= limit || v < 0 || v >= n {
        assert forall|k: int| 0 <= k < active.len() implies active.contains(#[trigger] active[k]) by {}
    } else {
        let i = active[v] as int;
        assert(active[v] < start.len());
        let next = now.update(i, giving_way(now[i], tick));
        let fewer = active.remove(v);
        let plain = bare(start);
        assert forall|k: int| 0 <= k < active.len() implies (#[trigger] active[k]) < plain.len()
            && sounds(plain[active[k] as int], tick as int) by {
            assert(start[active[k] as int].note.on <= tick);
        }
        lemma_distinct_voices(plain, active, tick as int, plain.len() as int);
        assert(plain.take(plain.len() as int) =~= plain);
        assert(voices(plain, tick as int) > limit);
        assert(now[i] == start[i]);
        assert(start[active[v] as int].note.on <= tick);
        assert(gave_way(start[i], next[i], tick as int));
        assert forall|k: int| 0 <= k < start.len() implies #[trigger] is_left(start, next, limit, k) by {
            if k != i {
                assert(is_left(start, now, limit, k));
                assert(next[k] == now[k]);
            }
        }
        assert forall|k: int| 0 <= k < start.len() implies (#[trigger] next[k]).note.on
            == start[k].note.on by {
            assert(now[k].note.on == start[k].note.on);
        }
        assert forall|k: int| 0 <= k < fewer.len() implies (#[trigger] fewer[k]) < start.len()
            && next[fewer[k] as int] == start[fewer[k] as int] && active.contains(fewer[k])
            && start[fewer[k] as int].note.on <= tick < start[fewer[k] as int].note.off by {
            let q = if k < v {
                k
            } else {
                k + 1
            };
            assert(fewer[k] == active[q]);
            assert(active[q] != active[v]);
            assert(now[active[q] as int] == start[active[q] as int]);
            assert(start[active[q] as int].note.on <= tick);
        }
        assert(fewer.no_duplicates()) by {
            assert forall|a: int, b: int|
                0 <= a < fewer.len() && 0 <= b < fewer.len() && a != b implies fewer[a] != fewer[b] by {
                let p = if a < v {
                    a
                } else {
                    a + 1
                };
                let q = if b < v {
                    b
                } else {
                    b + 1
                };
                assert(fewer[a] == active[p] && fewer[b] == active[q]);
            }
        }
        lemma_thinned(start, next, fewer, classes, tick, limit);
        let (rest, left) = thinned(now, active, classes, tick, limit);
        assert forall|k: int| 0 <= k < left.len() implies active.contains(#[trigger] left[k]) by {
            assert(fewer.contains(left[k]));
            let q = choose|q: int| 0 <= q < fewer.len() && fewer[q] == left[k];
            assert(active.contains(fewer[q]));
        }
        assert forall|k: int| 0 <= k < start.len() && !active.contains(k as usize) implies #[trigger] rest[k]
            == now[k] by {
            assert(active.contains(active[v]));
            assert(k != i);
            if fewer.contains(k as usize) {
                let q = choose|q: int| 0 <= q < fewer.len() && fewer[q] == k as usize;
                assert(active.contains(fewer[q]));
            }
            assert(rest[k] == next[k]);
        }
    }
}

proof fn lemma_reduced(
    start: Seq<WorkingNote>,
    now: Seq<WorkingNote>,
    active: Seq<usize>,
    k: int,
    limit: int,
)
    requires
        are_reducible(start),
        start.len() <= usize::MAX,
        are_left(start, now, active, limit),
        tells_time(start, time_order(start)),
        0 <= k <= start.len(),
        among_first(active, time_order(start), k),
        forall|q: int|
            k <= q < start.len() ==> now[(#[trigger] time_order(start)[q]) as int]
                == start[time_order(start)[q] as int],
    ensures
        ({
            let r = reduction(now, ends_of(start), time_order(start), active, k, limit);
            r.len() == start.len() && forall|i: int|
                0 <= i < start.len() ==> #[trigger] is_left(start, r, limit, i)
        }),
    decreases start.len() - k,
{
    let events = time_order(start);
    if k < events.len() {
        assert(events[k] < start.len());
        assert(now[events[k] as int].note.on == start[events[k] as int].note.on);
        let tick = now[events[k] as int].note.on;
        let e = group_end(now, events, tick, k);
        lemma_group(now, events, tick, k);
        let old = still(now, active, tick, active.len() as int);
        lemma_still(now, active, events, tick, k, active.len() as int);
        assert(active.take(active.len() as int) =~= active);
        let new = events.subrange(k, e);
        let sounding = old + new;
        assert(begins_at(start, tick as int)) by {
            assert(start[events[k] as int].note.on == tick);
        }
        assert(sounding.no_duplicates()) by {
            assert forall|i: int, j: int|
                0 <= i < j < sounding.len() implies sounding[i] != sounding[j] by {
                if j >= old.len() {
                    let q = k + (j - old.len());
                    assert(sounding[j] == events[q]);
                    if i < old.len() {
                        let p = choose|p: int| 0 <= p < k && #[trigger] events[p] == old[i];
                        assert(events[p] != events[q]);
                    } else {
                        let p = k + (i - old.len());
                        assert(sounding[i] == events[p]);
                        assert(events[p] != events[q]);
                    }
                }
            }
        }
        assert forall|i: int| 0 <= i < sounding.len() implies exists|j: int|
            0 <= j < e && #[trigger] events[j] == (#[trigger] sounding[i]) by {
            if i < old.len() {
                let p = choose|p: int| 0 <= p < k && #[trigger] events[p] == old[i];
                assert(events[p] == sounding[i]);
            } else {
                assert(events[k + (i - old.len())] == sounding[i]);
            }
        }
        assert forall|i: int| 0 <= i < sounding.len() implies (#[trigger] sounding[i]) < start.len()
            && now[sounding[i] as int] == start[sounding[i] as int]
            && start[sounding[i] as int].note.on <= tick < start[sounding[i] as int].note.off by {
            if i < old.len() {
                assert(sounding[i] == old[i]);
                assert(active.contains(old[i]));
                let a = choose|a: int| 0 <= a < active.len() && active[a] == old[i];
                assert(now[active[a] as int] == start[active[a] as int]);
                assert(now[old[i] as int].note.off > tick);
                let p = choose|p: int| 0 <= p < k && #[trigger] events[p] == old[i];
                assert(start[events[p] as int].note.on <= start[events[k] as int].note.on);
            } else {
                let q = k + (i - old.len());
                assert(events[q] == sounding[i]);
                assert(events[q] < start.len());
                assert(now[events[q] as int].note.on == tick);
                assert(now[events[q] as int].note.on == start[events[q] as int].note.on);
                assert(start[events[q] as int].note.on + 6 <= start[events[q] as int].note.off);
                assert(now[events[q] as int] == start[events[q] as int]);
            }
        }
        let classes = classes_of(lasting(now, ends_of(start), events, tick, e));
        lemma_thinned(start, now, sounding, classes, tick, limit);
        let (rest, left) = thinned(now, sounding, classes, tick, limit);
        assert(among_first(left, events, e)) by {
            assert forall|i: int| 0 <= i < left.len() implies exists|j: int|
                0 <= j < e && #[trigger] events[j] == (#[trigger] left[i]) by {
                assert(sounding.contains(left[i]));
                let a = choose|a: int| 0 <= a < sounding.len() && sounding[a] == left[i];
                let j = choose|j: int| 0 <= j < e && #[trigger] events[j] == sounding[a];
                assert(events[j] == left[i]);
            }
        }
        assert forall|q: int| e <= q < start.len() implies rest[(#[trigger] events[q]) as int]
            == start[events[q] as int] by {
            assert(events[q] < start.len());
            assert(now[events[q] as int] == start[events[q] as int]);
            if sounding.contains(events[q]) {
                let a = choose|a: int| 0 <= a < sounding.len() && sounding[a] == events[q];
                let j = choose|j: int| 0 <= j < e && #[trigger] events[j] == sounding[a];
                assert(events[j] != events[q]);
            }
        }
        lemma_reduced(start, rest, left, e, limit);
    }
}

/// A note ends earlier than in the source only to make room: at the begin of another note, where
/// more notes of the source sound together than may. It ends there, or where it has not sounded
/// long enough by then it is gone. All other notes stay as they are.
pub proof fn law_notes_end_to_make_room(notes: Seq<WorkingNote>, limit: int, i: int)
    requires
        are_reducible(notes),
        notes.len() <= usize::MAX,
        0 <= i < notes.len(),
    ensures
        is_left(
            notes,
            reduction(notes, ends_of(notes), time_order(notes), Seq::empty(), 0, limit),
            limit,
            i,
        ),
{
    lemma_events(notes, start_keys(notes), time_order(notes));
    assert forall|k: int| 0 <= k < notes.len() implies #[trigger] is_left(notes, notes, limit, k) by {}
    assert(among_first(Seq::<usize>::empty(), time_order(notes), 0));
    lemma_reduced(notes, notes, Seq::empty(), 0, limit);
}

proof fn lemma_one_group(notes: Seq<WorkingNote>, events: Seq<usize>, tick: Tick, k: int)
    requires
        0 <= k <= events.len(),
        forall|j: int| 0 <= j < events.len() ==> notes[(#[trigger] events[j]) as int].note.on == tick,
    ensures
        group_end(notes, events, tick, k) == events.len(),
    decreases events.len() - k,
{
    if k < events.len() {
        assert(notes[events[k] as int].note.on == tick);
        lemma_one_group(notes, events, tick, k + 1);
    }
}

proof fn lemma_standing(notes: Seq<WorkingNote>, n: int, i: int)
    requires
        0 <= i < n <= notes.len() <= usize::MAX,
        notes[i].note.off - notes[i].note.on >= 6,
    ensures
        standing(notes, n).contains(i as usize),
    decreases n,
{
    if i == n - 1 {
        assert(standing(notes, n)[standing(notes, n).len() - 1] == i as usize);
    } else {
        lemma_standing(notes, n - 1, i);
        let before = standing(notes, n - 1);
        let q = choose|q: int| 0 <= q < before.len() && before[q] == i as usize;
        assert(standing(notes, n)[q] == i as usize);
    }
}

/// Whether a pitch is among the notes that are kept, and sounds for as long as it did.
pub open spec fn is_kept(start: Seq<WorkingNote>, now: Seq<WorkingNote>, pitch: i32) -> bool {
    exists|j: int|
        0 <= j < start.len() && #[trigger] start[j].note.pitch == pitch && now[j] == start[j]
            && standing(now, now.len() as int).contains(j as usize)
}

/// Whether notes begin together.
pub open spec fn begin_together(notes: Seq<WorkingNote>) -> bool {
    forall|i: int, j: int|
        #![trigger notes[i], notes[j]]
        0 <= i < notes.len() && 0 <= j < notes.len() ==> notes[i].note.on == notes[j].note.on
}

/// Whether no note is worth more than another by itself by some eighths or more.
pub open spec fn all_even(notes: Seq<WorkingNote>, most: int) -> bool {
    forall|i: int, j: int|
        #![trigger notes[i], notes[j]]
        0 <= i < notes.len() && 0 <= j < notes.len() ==> notes[i].base < notes[j].base + most
}

proof fn lemma_struck(notes: Seq<WorkingNote>, limit: int, most: int) -> (classes: Seq<bool>)
    requires
        are_reducible(notes),
        0 < notes.len() <= usize::MAX,
        begin_together(notes),
        all_even(notes, most),
    ensures
        reduction(notes, ends_of(notes), time_order(notes), Seq::empty(), 0, limit) == thinned(
            notes,
            time_order(notes),
            classes,
            notes[0].note.on,
            limit,
        ).0,
        tells_time(notes, time_order(notes)),
        are_sounding(notes, time_order(notes)),
        are_even(notes, time_order(notes), most),
{
    let events = time_order(notes);
    lemma_events(notes, start_keys(notes), events);
    let tick = notes[0].note.on;
    assert forall|j: int| 0 <= j < events.len() implies notes[(#[trigger] events[j]) as int].note.on
        == tick by {
        assert(events[j] < notes.len());
        assert(notes[events[j] as int].note.on == notes[0].note.on);
    }
    lemma_one_group(notes, events, tick, 0);
    assert(events[0] < notes.len());
    assert(notes[events[0] as int].note.on == tick);
    let none = Seq::<usize>::empty();
    assert(still(notes, none, tick, 0) + events.subrange(0, events.len() as int) =~= events);
    assert forall|k: int| 0 <= k < events.len() implies (#[trigger] events[k]) < notes.len() && 0
        <= notes[events[k] as int].base <= 10000 by {
        assert(events[k] < notes.len());
        assert(0 <= notes[events[k] as int].base);
    }
    assert forall|i: int, j: int|
        #![trigger events[i], events[j]]
        0 <= i < events.len() && 0 <= j < events.len() implies crate::crowded::base_at(
        notes,
        events,
        i,
    ) < crate::crowded::base_at(notes, events, j) + most by {
        assert(events[i] < notes.len() && events[j] < notes.len());
        assert(notes[events[i] as int].base < notes[events[j] as int].base + most);
    }
    let classes = classes_of(lasting(notes, ends_of(notes), events, tick, events.len() as int));
    let (rest, left) = thinned(notes, events, classes, tick, limit);
    assert(reduction(rest, ends_of(notes), events, left, events.len() as int, limit) == rest);
    classes
}

proof fn lemma_heard_is_kept(notes: Seq<WorkingNote>, rest: Seq<WorkingNote>, active: Seq<usize>, left: Seq<usize>, pitch: i32)
    requires
        are_reducible(notes),
        notes.len() <= usize::MAX,
        rest.len() == notes.len(),
        sound_on(notes, rest, active, left),
        forall|k: int| 0 <= k < active.len() ==> (#[trigger] active[k]) < notes.len(),
        is_heard(rest, left, pitch),
    ensures
        is_kept(notes, rest, pitch),
{
    let m = choose|m: int| 0 <= m < left.len() && #[trigger] pitch_at(rest, left, m) == pitch;
    assert(active.contains(left[m]));
    let a = choose|a: int| 0 <= a < active.len() && active[a] == left[m];
    let j = left[m] as int;
    assert(active[a] < notes.len());
    assert(rest[j] == notes[j]);
    assert(notes[j].note.on + 6 <= notes[j].note.off);
    lemma_standing(rest, rest.len() as int, j);
    assert(notes[j].note.pitch == pitch);
}

/// Of a chord that is struck at once, whose notes are about equally loud, every pitch is kept
/// where there are no more different pitches than may sound: only what is doubled goes.
pub proof fn law_struck_chord_keeps_pitches(notes: Seq<WorkingNote>, limit: int, chord: Seq<i32>, i: int)
    requires
        are_reducible(notes),
        notes.len() <= usize::MAX,
        begin_together(notes),
        all_even(notes, 640),
        chord.len() <= limit,
        forall|k: int| 0 <= k < notes.len() ==> chord.contains((#[trigger] notes[k]).note.pitch),
        0 <= i < notes.len(),
    ensures
        is_kept(
            notes,
            reduction(notes, ends_of(notes), time_order(notes), Seq::empty(), 0, limit),
            notes[i].note.pitch,
        ),
{
    let events = time_order(notes);
    let classes = lemma_struck(notes, limit, 640);
    let tick = notes[0].note.on;
    assert forall|k: int| 0 <= k < events.len() implies chord.contains(
        #[trigger] pitch_at(notes, events, k),
    ) by {
        assert(events[k] < notes.len());
        assert(chord.contains(notes[events[k] as int].note.pitch));
    }
    law_chord_keeps_pitches(notes, events, classes, tick, limit, chord);
    let (rest, left) = thinned(notes, events, classes, tick, limit);
    assert(events.contains(i as usize));
    let k = choose|k: int| 0 <= k < events.len() && events[k] == i as usize;
    assert(is_heard(rest, left, pitch_at(notes, events, k)));
    lemma_heard_is_kept(notes, rest, events, left, notes[i].note.pitch);
}

proof fn lemma_thinned_sounds(
    notes: Seq<WorkingNote>,
    active: Seq<usize>,
    classes: Seq<bool>,
    tick: Tick,
    limit: int,
)
    requires
        are_sounding(notes, active),
    ensures
        ({
            let (rest, left) = thinned(notes, active, classes, tick, limit);
            rest.len() == notes.len() && sound_on(notes, rest, active, left)
        }),
    decreases active.len(),
{
    let n = active.len() as int;
    let keys = plain_keys(notes, active, classes, tick);
    let v = victim_of(notes, active, tick, true, keys, n);
    if n <= limit || v < 0 || v >= n {
        assert forall|k: int| 0 <= k < active.len() implies active.contains(#[trigger] active[k]) by {}
    } else {
        let i = active[v] as int;
        let next = notes.update(i, giving_way(notes[i], tick));
        let fewer = active.remove(v);
        assert(are_even(notes, active, 10001)) by {
            assert forall|a: int, b: int|
                #![trigger active[a], active[b]]
                0 <= a < active.len() && 0 <= b < active.len() implies crate::crowded::base_at(
                notes,
                active,
                a,
            ) < crate::crowded::base_at(notes, active, b) + 10001 by {}
        }
        crate::crowded::lemma_given_way(notes, active, tick, v, 10001);
        lemma_thinned_sounds(next, fewer, classes, tick, limit);
        let (rest, left) = thinned(notes, active, classes, tick, limit);
        crate::crowded::lemma_sound_on(notes, next, rest, active, fewer, left);
    }
}

/// Of a chord that is struck at once, whose notes are about equally loud, the highest and the
/// lowest pitch are kept wherever two notes may sound.
pub proof fn law_struck_chord_keeps_outer_pitches(notes: Seq<WorkingNote>, limit: int, i: int)
    requires
        are_reducible(notes),
        notes.len() <= usize::MAX,
        begin_together(notes),
        all_even(notes, 120),
        limit >= 2,
        0 <= i < notes.len(),
        (forall|k: int| 0 <= k < notes.len() ==> (#[trigger] notes[k]).note.pitch <= notes[i].note.pitch)
            || (forall|k: int|
            0 <= k < notes.len() ==> (#[trigger] notes[k]).note.pitch >= notes[i].note.pitch),
    ensures
        is_kept(
            notes,
            reduction(notes, ends_of(notes), time_order(notes), Seq::empty(), 0, limit),
            notes[i].note.pitch,
        ),
{
    let events = time_order(notes);
    let classes = lemma_struck(notes, limit, 120);
    let tick = notes[0].note.on;
    assert(events.contains(i as usize));
    let k = choose|k: int| 0 <= k < events.len() && events[k] == i as usize;
    assert(is_top(notes, events, k) || is_bottom(notes, events, k)) by {
        assert forall|j: int| 0 <= j < events.len() implies (#[trigger] pitch_at(notes, events, j))
            == notes[events[j] as int].note.pitch && events[j] < notes.len() by {
            assert(events[j] < notes.len());
        }
        if forall|k: int|
            0 <= k < notes.len() ==> (#[trigger] notes[k]).note.pitch <= notes[i].note.pitch {
            assert forall|j: int| 0 <= j < events.len() implies #[trigger] pitch_at(notes, events, j)
                <= pitch_at(notes, events, k) by {
                assert(notes[events[j] as int].note.pitch <= notes[i].note.pitch);
            }
        } else {
            assert forall|j: int| 0 <= j < events.len() implies #[trigger] pitch_at(notes, events, j)
                >= pitch_at(notes, events, k) by {
                assert(notes[events[j] as int].note.pitch >= notes[i].note.pitch);
            }
        }
    }
    law_outer_pitches_stay(notes, events, classes, tick, limit, k);
    lemma_thinned_sounds(notes, events, classes, tick, limit);
    let (rest, left) = thinned(notes, events, classes, tick, limit);
    lemma_heard_is_kept(notes, rest, events, left, notes[i].note.pitch);
}

} // verus!
