//! Where no more notes sound than may, nothing is taken away.
use crate::fold::WorkingNote;
use crate::harmony::classes_of;
use crate::polyphony::voices;
use crate::reduce::{are_reducible, bare, cut_short, ends_of, fallen, group_end, lasting, lemma_events, reduction, standing, start_keys, still, thinned, time_order};
use crate::score::{Note, Tick};
use vstd::prelude::*;

verus! {

/// Whether a note sounds at a tick.
pub(crate) open spec fn sounds(note: Note, t: int) -> bool {
    note.on <= t < note.off
}

pub(crate) proof fn lemma_distinct_voices(notes: Seq<Note>, list: Seq<usize>, t: int, n: int)
    requires
        0 <= n <= notes.len() <= usize::MAX,
        list.no_duplicates(),
        forall|i: int| 0 <= i < list.len() ==> (#[trigger] list[i]) < n && sounds(
            notes[list[i] as int],
            t,
        ),
    ensures
        list.len() <= voices(notes.take(n), t),
    decreases n,
{
    if n == 0 {
        if list.len() > 0 {
            assert(list[0] < n);
        }
    } else {
        assert(notes.take(n).drop_last() =~= notes.take(n - 1));
        assert(notes.take(n).last() == notes[n - 1]);
        let x = (n - 1) as usize;
        if list.contains(x) {
            let k = choose|k: int| 0 <= k < list.len() && list[k] == x;
            let rest = list.remove(k);
            assert(sounds(notes[list[k] as int], t));
            assert forall|i: int| 0 <= i < rest.len() implies (#[trigger] rest[i]) < n - 1 && sounds(
                notes[rest[i] as int],
                t,
            ) by {
                let j = if i < k {
                    i
                } else {
                    i + 1
                };
                assert(rest[i] == list[j]);
                assert(list[j] != list[k]);
            }
            assert(rest.no_duplicates()) by {
                assert forall|i: int, j: int|
                    0 <= i < rest.len() && 0 <= j < rest.len() && i != j implies rest[i] != rest[j] by {
                    let p = if i < k {
                        i
                    } else {
                        i + 1
                    };
                    let q = if j < k {
                        j
                    } else {
                        j + 1
                    };
                    assert(rest[i] == list[p] && rest[j] == list[q]);
                }
            }
            lemma_distinct_voices(notes, rest, t, n - 1);
        } else {
            assert forall|i: int| 0 <= i < list.len() implies (#[trigger] list[i]) < n - 1 && sounds(
                notes[list[i] as int],
                t,
            ) by {
                assert(list.contains(list[i]));
            }
            lemma_distinct_voices(notes, list, t, n - 1);
        }
    }
}

/// Whether some notes are among the first in order of time, and none is listed twice.
pub(crate) open spec fn among_first(active: Seq<usize>, events: Seq<usize>, k: int) -> bool {
    &&& active.no_duplicates()
    &&& forall|i: int|
        0 <= i < active.len() ==> exists|j: int|
            0 <= j < k && #[trigger] events[j] == (#[trigger] active[i])
}

pub(crate) proof fn lemma_still(notes: Seq<WorkingNote>, active: Seq<usize>, events: Seq<usize>, tick: Tick, k: int, n: int)
    requires
        0 <= n <= active.len(),
        among_first(active, events, k),
    ensures
        among_first(still(notes, active, tick, n), events, k),
        forall|i: int|
            0 <= i < still(notes, active, tick, n).len() ==> notes[(#[trigger] still(
                notes,
                active,
                tick,
                n,
            )[i]) as int].note.off > tick && active.take(n).contains(
                still(notes, active, tick, n)[i],
            ),
    decreases n,
{
    if n > 0 {
        lemma_still(notes, active, events, tick, k, n - 1);
        let fewer = still(notes, active, tick, n - 1);
        let all = still(notes, active, tick, n);
        let x = active[n - 1];
        assert(active.take(n)[n - 1] == x);
        assert forall|i: int| 0 <= i < all.len() implies notes[(#[trigger] all[i]) as int].note.off
            > tick && active.take(n).contains(all[i]) by {
            if i < fewer.len() {
                assert(all[i] == fewer[i]);
                let q = choose|q: int|
                    0 <= q < active.take(n - 1).len() && #[trigger] active.take(n - 1)[q] == fewer[i];
                assert(active.take(n)[q] == fewer[i]);
            }
        }
        assert forall|i: int| 0 <= i < all.len() implies exists|j: int|
            0 <= j < k && #[trigger] events[j] == (#[trigger] all[i]) by {
            if i < fewer.len() {
                assert(all[i] == fewer[i]);
            } else {
                assert(all[i] == active[n - 1]);
            }
        }
        assert(all.no_duplicates()) by {
            assert forall|i: int, j: int|
                0 <= i < j < all.len() implies all[i] != all[j] by {
                assert(all[i] == fewer[i]);
                if j < fewer.len() {
                    assert(all[j] == fewer[j]);
                } else {
                    assert(active.take(n - 1).contains(fewer[i]));
                    let q = choose|q: int|
                        0 <= q < active.take(n - 1).len() && #[trigger] active.take(n - 1)[q]
                            == fewer[i];
                    assert(active[q] == fewer[i]);
                    assert(active[q] != active[n - 1]);
                }
            }
        }
    } else {
        assert(still(notes, active, tick, n) =~= Seq::<usize>::empty());
    }
}

pub(crate) proof fn lemma_group(notes: Seq<WorkingNote>, events: Seq<usize>, tick: Tick, k: int)
    requires
        0 <= k <= events.len(),
    ensures
        k <= group_end(notes, events, tick, k) <= events.len(),
        k < events.len() && notes[events[k] as int].note.on == tick ==> k < group_end(
            notes,
            events,
            tick,
            k,
        ),
        forall|j: int|
            k <= j < group_end(notes, events, tick, k) ==> notes[(#[trigger] events[j]) as int].note.on
                == tick,
    decreases events.len() - k,
{
    if k < events.len() && notes[events[k] as int].note.on == tick {
        lemma_group(notes, events, tick, k + 1);
    }
}

proof fn lemma_nothing_goes(notes: Seq<WorkingNote>, active: Seq<usize>, k: int, limit: int)
    requires
        are_reducible(notes),
        notes.len() <= usize::MAX,
        0 <= k <= notes.len(),
        among_first(active, time_order(notes), k),
        forall|t: int| #[trigger] voices(bare(notes), t) <= limit,
    ensures
        reduction(notes, ends_of(notes), time_order(notes), active, k, limit) == notes,
    decreases notes.len() - k,
{
    let events = time_order(notes);
    lemma_events(notes, start_keys(notes), events);
    if k < events.len() {
        let tick = notes[events[k] as int].note.on;
        let e = group_end(notes, events, tick, k);
        lemma_group(notes, events, tick, k);
        let old = still(notes, active, tick, active.len() as int);
        lemma_still(notes, active, events, tick, k, active.len() as int);
        let new = events.subrange(k, e);
        let sounding = old + new;
        assert(sounding.no_duplicates()) by {
            assert forall|i: int, j: int|
                0 <= i < j < sounding.len() implies sounding[i] != sounding[j] by {
                if j >= old.len() {
                    let q = k + (j - old.len());
                    assert(sounding[j] == events[q]);
                    if i < old.len() {
                        let p = choose|p: int| 0 <= p < k && #[trigger] events[p] == old[i];
                        assert(events[p] != events[q]);
                    } else {
                        let p = k + (i - old.len());
                        assert(sounding[i] == events[p]);
                        assert(events[p] != events[q]);
                    }
                }
            }
        }
        assert forall|i: int| 0 <= i < sounding.len() implies exists|j: int|
            0 <= j < e && #[trigger] events[j] == (#[trigger] sounding[i]) by {
            if i < old.len() {
                let p = choose|p: int| 0 <= p < k && #[trigger] events[p] == old[i];
                assert(events[p] == sounding[i]);
            } else {
                assert(events[k + (i - old.len())] == sounding[i]);
            }
        }
        let plain = bare(notes);
        assert forall|i: int| 0 <= i < sounding.len() implies (#[trigger] sounding[i]) < notes.len()
            && sounds(plain[sounding[i] as int], tick as int) by {
            if i < old.len() {
                let p = choose|p: int| 0 <= p < k && #[trigger] events[p] == old[i];
                assert(events[p] == sounding[i]);
                assert(events[p] < notes.len());
                assert(notes[events[p] as int].note.on <= notes[events[k] as int].note.on);
            } else {
                let q = k + (i - old.len());
                assert(events[q] == sounding[i]);
                assert(events[q] < notes.len());
                assert(notes[events[q] as int].note.on == tick);
                assert(notes[events[q] as int].note.on + 6 <= notes[events[q] as int].note.off);
            }
        }
        lemma_distinct_voices(plain, sounding, tick as int, plain.len() as int);
        assert(plain.take(plain.len() as int) =~= plain);
        assert(voices(plain, tick as int) <= limit);
        let classes = classes_of(lasting(notes, ends_of(notes), events, tick, e));
        assert(thinned(notes, sounding, classes, tick, limit) == (notes, sounding));
        lemma_nothing_goes(notes, sounding, e, limit);
    }
}

proof fn lemma_all_stand(notes: Seq<WorkingNote>, n: int)
    requires
        are_reducible(notes),
        0 <= n <= notes.len() <= usize::MAX,
    ensures
        standing(notes, n) == Seq::new(n as nat, |i: int| i as usize),
        fallen(notes, n) == 0,
        cut_short(notes, ends_of(notes), n) == 0,
    decreases n,
{
    if n > 0 {
        lemma_all_stand(notes, n - 1);
        assert(notes[n - 1].note.on + 6 <= notes[n - 1].note.off);
    }
    assert(standing(notes, n) =~= Seq::new(n as nat, |i: int| i as usize));
}

/// Where no more notes sound together than may, thinning them out takes nothing away: every note
/// stays as it is, and all are kept.
pub proof fn law_nothing_is_lost(notes: Seq<WorkingNote>, limit: int)
    requires
        are_reducible(notes),
        notes.len() <= usize::MAX,
        forall|t: int| #[trigger] voices(bare(notes), t) <= limit,
    ensures
        reduction(notes, ends_of(notes), time_order(notes), Seq::empty(), 0, limit) == notes,
        standing(notes, notes.len() as int) == Seq::new(notes.len(), |i: int| i as usize),
        fallen(notes, notes.len() as int) == 0,
        cut_short(notes, ends_of(notes), notes.len() as int) == 0,
{
    assert(among_first(Seq::<usize>::empty(), time_order(notes), 0));
    lemma_nothing_goes(notes, Seq::empty(), 0, limit);
    lemma_all_stand(notes, notes.len() as int);
}

} // verus!
