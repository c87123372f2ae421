//! What the report on an arrangement tells.
use crate::bars::{bar_from, Meter};
use crate::fold::{Layout, WorkingNote};
use crate::order::{key_less, lemma_stable_sort};
use crate::report::{anchored, by_loss, highest_pitch, loss_key, lost_in, lowest_pitch, role_of, with_loss};
use crate::score::Tick;
use vstd::prelude::*;

verus! {

/// How many notes are told to have been lost in a bar.
pub open spec fn told_of(lost: Seq<(Tick, usize)>, bar: Tick) -> int
    decreases lost.len(),
{
    if lost.len() == 0 {
        0
    } else {
        told_of(lost.drop_last(), bar) + (if lost.last().0 == bar {
            lost.last().1 as int
        } else {
            0
        })
    }
}

proof fn lemma_told_ahead(lost: Seq<(Tick, usize)>, bar: Tick)
    requires
        lost.len() > 0,
    ensures
        told_of(lost, bar) == told_of(lost.skip(1), bar) + (if lost[0].0 == bar {
            lost[0].1 as int
        } else {
            0
        }),
    decreases lost.len(),
{
    if lost.len() == 1 {
        assert(lost.drop_last() =~= Seq::<(Tick, usize)>::empty());
        assert(lost.skip(1) =~= Seq::<(Tick, usize)>::empty());
    } else {
        lemma_told_ahead(lost.drop_last(), bar);
        assert(lost.drop_last().skip(1) =~= lost.skip(1).drop_last());
    }
}

spec fn bars_differ(lost: Seq<(Tick, usize)>) -> bool {
    forall|i: int, j: int|
        #![trigger lost[i], lost[j]]
        0 <= i < lost.len() && 0 <= j < lost.len() && i != j ==> lost[i].0 != lost[j].0
}

proof fn lemma_with_loss(lost: Seq<(Tick, usize)>, bar: Tick, other: Tick, most: int)
    requires
        bars_differ(lost),
        forall|i: int| 0 <= i < lost.len() ==> 0 < (#[trigger] lost[i]).1 <= most,
        0 <= most < usize::MAX,
    ensures
        told_of(with_loss(lost, bar), other) == told_of(lost, other) + (if other == bar {
            1int
        } else {
            0int
        }),
        bars_differ(with_loss(lost, bar)),
        forall|i: int|
            0 <= i < with_loss(lost, bar).len() ==> 0 < (#[trigger] with_loss(lost, bar)[i]).1 <= most
                + 1,
        forall|i: int|
            0 <= i < with_loss(lost, bar).len() ==> (#[trigger] with_loss(lost, bar)[i]).0 == bar
                || exists|k: int| 0 <= k < lost.len() && (#[trigger] lost[k]).0 == with_loss(lost, bar)[i].0,
    decreases lost.len(),
{
    let new = with_loss(lost, bar);
    if lost.len() == 0 {
        lemma_told_ahead(new, other);
        assert(new.skip(1) =~= Seq::<(Tick, usize)>::empty());
    } else {
        lemma_told_ahead(lost, other);
        lemma_told_ahead(new, other);
        let rest = lost.skip(1);
        if lost[0].0 == bar {
            assert(new.skip(1) =~= rest);
            assert forall|i: int| 0 <= i < new.len() implies 0 < (#[trigger] new[i]).1 <= most + 1 by {
                if i > 0 {
                    assert(new[i] == lost[i]);
                }
            }
            assert forall|i: int, j: int|
                #![trigger new[i], new[j]]
                0 <= i < new.len() && 0 <= j < new.len() && i != j implies new[i].0 != new[j].0 by {
                assert(lost[i].0 != lost[j].0);
            }
            assert forall|i: int| 0 <= i < new.len() implies (#[trigger] new[i]).0 == bar || exists|k: int|
                0 <= k < lost.len() && (#[trigger] lost[k]).0 == new[i].0 by {
                assert(lost[i].0 == new[i].0);
            }
        } else {
            assert forall|i: int| 0 <= i < rest.len() implies 0 < (#[trigger] rest[i]).1 <= most by {
                assert(rest[i] == lost[i + 1]);
            }
            assert(bars_differ(rest)) by {
                assert forall|i: int, j: int|
                    #![trigger rest[i], rest[j]]
                    0 <= i < rest.len() && 0 <= j < rest.len() && i != j implies rest[i].0 != rest[j].0 by {
                    assert(lost[i + 1].0 != lost[j + 1].0);
                }
            }
            lemma_with_loss(rest, bar, other, most);
            let inner = with_loss(rest, bar);
            assert(new.skip(1) =~= inner);
            assert forall|i: int| 0 <= i < new.len() implies (#[trigger] new[i]).0 == bar || exists|k: int|
                0 <= k < lost.len() && (#[trigger] lost[k]).0 == new[i].0 by {
                if i == 0 {
                    assert(lost[0].0 == new[i].0);
                } else {
                    assert(new[i] == inner[i - 1]);
                    if inner[i - 1].0 != bar {
                        let k = choose|k: int|
                            0 <= k < rest.len() && (#[trigger] rest[k]).0 == inner[i - 1].0;
                        assert(lost[k + 1].0 == new[i].0);
                    }
                }
            }
            assert forall|i: int| 0 <= i < new.len() implies 0 < (#[trigger] new[i]).1 <= most + 1 by {
                if i > 0 {
                    assert(new[i] == inner[i - 1]);
                }
            }
            assert forall|i: int, j: int|
                #![trigger new[i], new[j]]
                0 <= i < new.len() && 0 <= j < new.len() && i != j implies new[i].0 != new[j].0 by {
                if i > 0 && j > 0 {
                    assert(new[i] == inner[i - 1] && new[j] == inner[j - 1]);
                } else {
                    let x = if i > 0 {
                        i
                    } else {
                        j
                    };
                    assert(new[x] == inner[x - 1]);
                    if inner[x - 1].0 != bar {
                        let k = choose|k: int|
                            0 <= k < rest.len() && (#[trigger] rest[k]).0 == inner[x - 1].0;
                        assert(rest[k] == lost[k + 1]);
                        assert(lost[0].0 != lost[k + 1].0);
                    }
                }
            }
        }
    }
}

proof fn lemma_lost(notes: Seq<WorkingNote>, meters: Seq<Meter>, n: int, bar: Tick)
    requires
        0 <= n <= notes.len() < usize::MAX,
    ensures
        told_of(lost_in(notes, meters, n), bar) == notes.take(n).filter(
            |w: WorkingNote|
                w.note.off - w.note.on < 6 && bar_from(w.note.on as int, meters, 0, 1) as Tick == bar,
        ).len(),
        bars_differ(lost_in(notes, meters, n)),
        forall|i: int|
            0 <= i < lost_in(notes, meters, n).len() ==> 0 < (#[trigger] lost_in(notes, meters, n)[i]).1
                <= n,
    decreases n,
{
    reveal(Seq::filter);
    if n > 0 {
        lemma_lost(notes, meters, n - 1, bar);
        assert(notes.take(n).drop_last() =~= notes.take(n - 1));
        let before = lost_in(notes, meters, n - 1);
        let note = notes[n - 1].note;
        lemma_with_loss(before, bar_from(note.on as int, meters, 0, 1) as Tick, bar, n - 1);
    }
}

/// For every bar the report counts the notes that begin in it and are gone, and it tells of each bar
/// once.
pub proof fn law_losses_are_counted(notes: Seq<WorkingNote>, meters: Seq<Meter>, bar: Tick, i: int, j: int)
    requires
        notes.len() < usize::MAX,
    ensures
        told_of(lost_in(notes, meters, notes.len() as int), bar) == notes.filter(
            |w: WorkingNote|
                w.note.off - w.note.on < 6 && bar_from(w.note.on as int, meters, 0, 1) as Tick == bar,
        ).len(),
        0 <= i < j < lost_in(notes, meters, notes.len() as int).len() ==> lost_in(
            notes,
            meters,
            notes.len() as int,
        )[i].0 != lost_in(notes, meters, notes.len() as int)[j].0,
{
    lemma_lost(notes, meters, notes.len() as int, bar);
    assert(notes.take(notes.len() as int) =~= notes);
}

/// The bars in which the most notes were lost come first, and none is left out.
pub proof fn law_worst_bars_first(lost: Seq<(Tick, usize)>, i: int, j: int, k: int)
    requires
        forall|m: int| 0 <= m < lost.len() ==> (#[trigger] lost[m]).1 <= i64::MAX,
        0 <= i < j < lost.len(),
        0 <= k < lost.len(),
    ensures
        by_loss(lost).len() == lost.len(),
        by_loss(lost)[i].1 >= by_loss(lost)[j].1,
        by_loss(lost).contains(lost[k]),
        lost.contains(by_loss(lost)[i]),
{
    let key = |l: (Tick, usize)| loss_key(l);
    lemma_stable_sort(lost, key);
    let sorted = by_loss(lost);
    assert(lost.contains(sorted[i]) && lost.contains(sorted[j]));
    let a = choose|m: int| 0 <= m < lost.len() && lost[m] == sorted[i];
    let b = choose|m: int| 0 <= m < lost.len() && lost[m] == sorted[j];
    assert(lost[a].1 <= i64::MAX && lost[b].1 <= i64::MAX);
    assert(!key_less(key(sorted[j]), key(sorted[i])));
}

/// The range that is told of a part holds the pitches of all its notes, and its ends are two of them.
pub proof fn law_told_range(notes: Seq<WorkingNote>, ids: Seq<usize>, n: int, k: int)
    requires
        0 <= k < n <= ids.len(),
    ensures
        lowest_pitch(notes, ids, n) <= notes[ids[k] as int].note.pitch <= highest_pitch(notes, ids, n),
        exists|a: int|
            0 <= a < n && notes[(#[trigger] ids[a]) as int].note.pitch == lowest_pitch(notes, ids, n),
        exists|b: int|
            0 <= b < n && notes[(#[trigger] ids[b]) as int].note.pitch == highest_pitch(notes, ids, n),
    decreases n,
{
    let last = notes[ids[n - 1] as int].note.pitch;
    if n == 1 {
        assert(notes[ids[0] as int].note.pitch == lowest_pitch(notes, ids, n));
    } else {
        law_told_range(notes, ids, n - 1, if k < n - 1 {
            k
        } else {
            0
        });
        if last < lowest_pitch(notes, ids, n - 1) {
            assert(notes[ids[n - 1] as int].note.pitch == lowest_pitch(notes, ids, n));
        } else {
            let a = choose|a: int|
                0 <= a < n - 1 && notes[(#[trigger] ids[a]) as int].note.pitch == lowest_pitch(
                    notes,
                    ids,
                    n - 1,
                );
            assert(notes[ids[a] as int].note.pitch == lowest_pitch(notes, ids, n));
        }
        if last > highest_pitch(notes, ids, n - 1) {
            assert(notes[ids[n - 1] as int].note.pitch == highest_pitch(notes, ids, n));
        } else {
            let a = choose|a: int|
                0 <= a < n - 1 && notes[(#[trigger] ids[a]) as int].note.pitch == highest_pitch(
                    notes,
                    ids,
                    n - 1,
                );
            assert(notes[ids[a] as int].note.pitch == highest_pitch(notes, ids, n));
        }
    }
}

/// The report counts the notes of the melody that are in its part.
pub proof fn law_anchored(part: Seq<usize>, lead: Seq<usize>, n: int)
    requires
        0 <= n <= lead.len(),
    ensures
        anchored(part, lead, n) == lead.take(n).filter(|i: usize| part.contains(i)).len(),
    decreases n,
{
    reveal(Seq::filter);
    if n > 0 {
        law_anchored(part, lead, n - 1);
        assert(lead.take(n).drop_last() =~= lead.take(n - 1));
    }
}

/// The first part of a track is for what is on top and its last for what is below; in a track of one
/// part that leads.
pub proof fn law_roles(parts: int, track: int)
    requires
        parts > 0,
        track >= 0,
    ensures
        role_of(Layout::Hands, parts, track * parts) == (if parts == 1 {
            "lead"@
        } else {
            "right"@
        }),
        role_of(Layout::Roles, parts, track * parts) == "lead"@,
        parts > 1 ==> role_of(Layout::Hands, parts, track * parts + parts - 1) == "left"@,
        parts > 1 ==> role_of(Layout::Roles, parts, track * parts + parts - 1) == "bass"@,
        parts > 2 ==> role_of(Layout::Roles, parts, track * parts + 1) == "inner"@,
{
    vstd::arithmetic::div_mod::lemma_fundamental_div_mod_converse(track * parts, parts, track, 0);
    vstd::arithmetic::div_mod::lemma_fundamental_div_mod_converse(
        track * parts + parts - 1,
        parts,
        track,
        parts - 1,
    );
    if parts > 2 {
        vstd::arithmetic::div_mod::lemma_fundamental_div_mod_converse(
            track * parts + 1,
            parts,
            track,
            1,
        );
    }
}

} // verus!
