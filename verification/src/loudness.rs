//! How loud notes become, and what they weigh.
use crate::clocks::distance;
use crate::fold::{
    activity_of, base_of, clipped_of, compressed, first_near, is_range, last_near, loudest, louder,
    occurs, onset_of, pitch_count, shift_of, Gain, VolumeRange, WorkingNote,
};
use crate::score::Note;
use vstd::prelude::*;

verus! {

/// The softest notes get the least volume of a range and the loudest the greatest; silence stays
/// silence. Every other volume gets the one whose place in the range is nearest to its own place
/// from 1 to 15.
pub proof fn law_compression_is_even(range: VolumeRange, volume: int, other: int)
    requires
        is_range(range),
        1 <= volume <= 15,
        range.min <= other <= range.max,
    ensures
        compressed(range, 0) == 0,
        compressed(range, 1) == range.min,
        compressed(range, 15) == range.max,
        range.min <= compressed(range, volume) <= range.max,
        distance(14 * (compressed(range, volume) - range.min), (volume - 1) * (range.max - range.min))
            <= distance(14 * (other - range.min), (volume - 1) * (range.max - range.min)),
{
    let d = range.max - range.min;
    let v = volume - 1;
    let x = v * d;
    assert(0 <= x <= 14 * d) by (nonlinear_arith)
        requires
            0 <= v <= 14,
            d >= 0,
            x == v * d,
    ;
    assert(0 * d == 0) by (nonlinear_arith);
}

/// Whether notes that are kept are told apart and there.
pub open spec fn are_kept(notes: Seq<WorkingNote>, kept: Seq<usize>) -> bool {
    &&& kept.no_duplicates()
    &&& forall|k: int| 0 <= k < kept.len() ==> (#[trigger] kept[k]) < notes.len()
    &&& forall|k: int| 0 <= k < kept.len() ==> 0 <= notes[(#[trigger] kept[k]) as int].note.vel <= 15
}

proof fn lemma_louder(notes: Seq<WorkingNote>, kept: Seq<usize>, shift: int, n: int)
    requires
        are_kept(notes, kept),
        0 <= n <= kept.len(),
    ensures
        louder(notes, kept, shift, n).len() == notes.len(),
        forall|i: int|
            0 <= i < notes.len() && !kept.take(n).contains(i as usize) ==> #[trigger] louder(
                notes,
                kept,
                shift,
                n,
            )[i] == notes[i],
        forall|k: int|
            0 <= k < n ==> louder(notes, kept, shift, n)[(#[trigger] kept[k]) as int]
                == crate::fold::shifted(notes[kept[k] as int], shift),
    decreases n,
{
    if n > 0 {
        lemma_louder(notes, kept, shift, n - 1);
        let before = louder(notes, kept, shift, n - 1);
        let all = louder(notes, kept, shift, n);
        let last = kept[n - 1];
        assert(last < notes.len());
        assert(!kept.take(n - 1).contains(last)) by {
            let early = kept.take(n - 1);
            if early.contains(last) {
                let k = choose|k: int| 0 <= k < early.len() && early[k] == last;
                assert(kept[k] == kept[n - 1]);
            }
        }
        assert(before[last as int] == notes[last as int]);
        assert forall|i: int| 0 <= i < notes.len() && !kept.take(n).contains(i as usize) implies #[trigger] all[i]
            == notes[i] by {
            assert(kept.take(n)[n - 1] == last);
            assert(i != last);
            let early = kept.take(n - 1);
            if early.contains(i as usize) {
                let k = choose|k: int| 0 <= k < early.len() && early[k] == i as usize;
                assert(kept.take(n)[k] == i as usize);
            }
        }
        assert forall|k: int| 0 <= k < n implies all[(#[trigger] kept[k]) as int]
            == crate::fold::shifted(notes[kept[k] as int], shift) by {
            if k < n - 1 {
                assert(kept[k] != kept[n - 1]);
                assert(kept[k] < notes.len());
            }
        }
    }
}

/// All notes that are kept become louder or softer by the same amount, as far as volumes go from 0
/// to 15, and nothing else about them changes; the others stay as they are.
pub proof fn law_volumes_move_together(notes: Seq<WorkingNote>, kept: Seq<usize>, shift: int, i: int)
    requires
        are_kept(notes, kept),
        0 <= i < notes.len() <= usize::MAX,
    ensures
        ({
            let w = notes[i];
            let now = louder(notes, kept, shift, kept.len() as int)[i];
            let sum = w.note.vel + shift;
            &&& !kept.contains(i as usize) ==> now == w
            &&& kept.contains(i as usize) ==> {
                &&& now == WorkingNote { note: Note { vel: now.note.vel, ..w.note }, ..w }
                &&& 0 <= now.note.vel <= 15
                &&& now.note.vel == sum || (now.note.vel == 0 && sum < 0) || (now.note.vel == 15
                    && sum > 15)
            }
        }),
{
    lemma_louder(notes, kept, shift, kept.len() as int);
    assert(kept.take(kept.len() as int) =~= kept);
    if kept.contains(i as usize) {
        let k = choose|k: int| 0 <= k < kept.len() && kept[k] == i as usize;
        assert(kept[k] < notes.len());
    }
}

proof fn lemma_loudest(notes: Seq<WorkingNote>, kept: Seq<usize>, n: int)
    requires
        1 <= n <= kept.len(),
    ensures
        forall|k: int|
            0 <= k < n ==> notes[(#[trigger] kept[k]) as int].note.vel <= loudest(notes, kept, n),
        exists|k: int|
            0 <= k < n && notes[(#[trigger] kept[k]) as int].note.vel == loudest(notes, kept, n),
    decreases n,
{
    if n > 1 {
        lemma_loudest(notes, kept, n - 1);
        if notes[kept[n - 1] as int].note.vel <= loudest(notes, kept, n - 1) {
            let k = choose|k: int|
                0 <= k < n - 1 && notes[(#[trigger] kept[k]) as int].note.vel == loudest(
                    notes,
                    kept,
                    n - 1,
                );
            assert(notes[kept[k] as int].note.vel == loudest(notes, kept, n));
        }
    } else {
        assert(notes[kept[0] as int].note.vel == loudest(notes, kept, n));
    }
}

/// Made as loud as can be, the loudest note that is kept gets the greatest volume, every other is as
/// much softer than it as it was, and none is cut off.
pub proof fn law_as_loud_as_can_be(notes: Seq<WorkingNote>, kept: Seq<usize>)
    requires
        are_kept(notes, kept),
        kept.len() > 0,
    ensures
        ({
            let shift = shift_of(notes, kept, Gain::Auto);
            let all = louder(notes, kept, shift, kept.len() as int);
            &&& exists|k: int|
                0 <= k < kept.len() && all[(#[trigger] kept[k]) as int].note.vel == 15
            &&& forall|k: int|
                0 <= k < kept.len() ==> all[(#[trigger] kept[k]) as int].note.vel
                    == notes[kept[k] as int].note.vel + shift
        }),
{
    let shift = shift_of(notes, kept, Gain::Auto);
    let n = kept.len() as int;
    let all = louder(notes, kept, shift, n);
    lemma_louder(notes, kept, shift, n);
    lemma_loudest(notes, kept, n);
    let m = choose|k: int|
        0 <= k < n && notes[(#[trigger] kept[k]) as int].note.vel == loudest(notes, kept, n);
    assert(all[kept[m] as int].note.vel == 15);
    assert forall|k: int| 0 <= k < n implies all[(#[trigger] kept[k]) as int].note.vel
        == notes[kept[k] as int].note.vel + shift by {
        assert(0 <= notes[kept[k] as int].note.vel <= 15);
        assert(0 <= notes[kept[m] as int].note.vel <= 15);
    }
}

proof fn lemma_clipped(notes: Seq<WorkingNote>, kept: Seq<usize>, shift: int, n: int)
    requires
        are_kept(notes, kept),
        0 <= n <= kept.len(),
    ensures
        clipped_of(notes, kept, shift, n) == kept.take(n).filter(
            |k: usize| !(0 <= notes[k as int].note.vel + shift <= 15),
        ).len(),
    decreases n,
{
    let cut = |k: usize| !(0 <= notes[k as int].note.vel + shift <= 15);
    reveal(Seq::filter);
    if n > 0 {
        lemma_clipped(notes, kept, shift, n - 1);
        lemma_louder(notes, kept, shift, n - 1);
        assert(kept.take(n).drop_last() =~= kept.take(n - 1));
        let last = kept[n - 1];
        assert(last < notes.len());
        assert(!kept.take(n - 1).contains(last)) by {
            let early = kept.take(n - 1);
            if early.contains(last) {
                let k = choose|k: int| 0 <= k < early.len() && early[k] == last;
                assert(kept[k] == kept[n - 1]);
            }
        }
        assert(louder(notes, kept, shift, n - 1)[last as int] == notes[last as int]);
    }
}

/// The report counts the notes that are kept whose volume would go below 0 or beyond 15.
pub proof fn law_cut_off_volumes(notes: Seq<WorkingNote>, kept: Seq<usize>, shift: int)
    requires
        are_kept(notes, kept),
    ensures
        clipped_of(notes, kept, shift, kept.len() as int) == kept.filter(
            |k: usize| !(0 <= notes[k as int].note.vel + shift <= 15),
        ).len(),
{
    lemma_clipped(notes, kept, shift, kept.len() as int);
    assert(kept.take(kept.len() as int) =~= kept);
}

/// Whether the notes of a part last and follow each other.
pub open spec fn is_line(part: Seq<Note>) -> bool {
    &&& forall|i: int| 0 <= i < part.len() ==> (#[trigger] part[i]).on < part[i].off
    &&& forall|i: int, j: int|
        #![trigger part[i], part[j]]
        0 <= i < j < part.len() ==> part[i].off <= part[j].on
}

/// Whether a note of a part sounds less than a quarter before the begin of another or begins less
/// than a quarter behind it.
pub open spec fn is_around(part: Seq<Note>, i: int, q: int) -> bool {
    0 <= q < part.len() && part[q].off > part[i].on - 96 && part[q].on < part[i].on + 96
}

/// The pitches around a note.
pub open spec fn pitches_around(part: Seq<Note>, i: int) -> Set<i32> {
    Set::new(|p: i32| exists|q: int| #[trigger] is_around(part, i, q) && part[q].pitch == p)
}

spec fn pitches_between(part: Seq<Note>, j: int, k: int) -> Set<i32> {
    Set::new(|p: i32| occurs(part, j, k, p))
}

proof fn lemma_pitch_count(part: Seq<Note>, j: int, k: int)
    requires
        0 <= j <= k <= part.len(),
    ensures
        pitches_between(part, j, k).finite(),
        pitches_between(part, j, k).len() == pitch_count(part, j, k),
    decreases k - j,
{
    let all = pitches_between(part, j, k);
    if j == k {
        assert(all =~= Set::<i32>::empty());
    } else {
        lemma_pitch_count(part, j, k - 1);
        let before = pitches_between(part, j, k - 1);
        let last = part[k - 1].pitch;
        assert forall|p: i32| all.contains(p) <==> #[trigger] before.insert(last).contains(p) by {
            if all.contains(p) {
                let q = choose|q: int| j <= q < k && (#[trigger] part[q]).pitch == p;
                if q < k - 1 {
                    assert(occurs(part, j, k - 1, p));
                }
            }
            if before.contains(p) {
                let q = choose|q: int| j <= q < k - 1 && (#[trigger] part[q]).pitch == p;
                assert(part[q].pitch == p);
            }
            if p == last {
                assert(part[k - 1].pitch == p);
            }
        }
        assert(all =~= before.insert(last));
    }
}

proof fn lemma_first_near(part: Seq<Note>, i: int, j: int)
    requires
        is_line(part),
        0 <= j <= i < part.len(),
        forall|q: int| j <= q <= i ==> #[trigger] is_around(part, i, q),
    ensures
        0 <= first_near(part, i, j) <= j,
        forall|q: int| 0 <= q <= i ==> (#[trigger] is_around(part, i, q) <==> first_near(part, i, j) <= q),
    decreases j,
{
    if j > 0 && part[j - 1].off > part[i].on - 96 {
        assert(part[j - 1].on < part[j - 1].off);
        assert(part[j - 1].off <= part[i].on);
        assert(is_around(part, i, j - 1));
        lemma_first_near(part, i, j - 1);
    } else {
        assert forall|q: int| 0 <= q <= i implies (#[trigger] is_around(part, i, q) <==> j <= q) by {
            if q < j {
                if q < j - 1 {
                    assert(part[q].off <= part[j - 1].on);
                    assert(part[j - 1].on < part[j - 1].off);
                }
            }
        }
    }
}

proof fn lemma_last_near(part: Seq<Note>, i: int, k: int)
    requires
        is_line(part),
        0 <= i < part.len(),
        i <= k <= part.len(),
        forall|q: int| i <= q < k ==> #[trigger] is_around(part, i, q),
    ensures
        k <= last_near(part, i, k) <= part.len(),
        forall|q: int|
            i <= q < part.len() ==> (#[trigger] is_around(part, i, q) <==> q < last_near(part, i, k)),
    decreases part.len() - k,
{
    if k < part.len() && part[k].on < part[i].on + 96 {
        assert(part[k].on < part[k].off);
        if k > i {
            assert(part[i].off <= part[k].on);
            assert(part[i].on < part[i].off);
        }
        assert(is_around(part, i, k));
        lemma_last_near(part, i, k + 1);
    } else {
        assert forall|q: int| i <= q < part.len() implies (#[trigger] is_around(part, i, q) <==> q < k) by {
            if q > k {
                assert(part[k].off <= part[q].on);
                assert(part[k].on < part[k].off);
            }
        }
    }
}

/// Whether the pitch changes from one note of a part to the next, as a number.
pub open spec fn moves(part: Seq<Note>, i: int) -> int {
    if 0 <= i && i + 1 < part.len() && part[i].pitch != part[i + 1].pitch {
        1
    } else {
        0
    }
}

/// The smaller of two numbers.
pub open spec fn at_most(a: int, b: int) -> int {
    if a <= b {
        a
    } else {
        b
    }
}

/// A note weighs more the louder it is, the more the line moves at it, the more different pitches
/// there are around it, up to six, and the longer it is, up to a whole note.
pub proof fn law_weight_of_a_note(part: Seq<Note>, i: int)
    requires
        is_line(part),
        0 <= i < part.len(),
    ensures
        pitches_around(part, i).finite(),
        base_of(part, i) == 24 * part[i].vel + 240 * (moves(part, i - 1) + moves(part, i)) + 64
            * at_most(6, pitches_around(part, i).len() as int) + at_most(
            384,
            part[i].off - part[i].on,
        ),
        activity_of(part, i) == moves(part, i - 1) + moves(part, i),
{
    let j = first_near(part, i, i);
    let k = last_near(part, i, i);
    assert(part[i].on < part[i].off);
    assert(is_around(part, i, i));
    lemma_first_near(part, i, i);
    lemma_last_near(part, i, i);
    let found = pitches_between(part, j, k);
    let around = pitches_around(part, i);
    assert forall|p: i32| found.contains(p) <==> #[trigger] around.contains(p) by {
        if found.contains(p) {
            let q = choose|q: int| j <= q < k && (#[trigger] part[q]).pitch == p;
            assert(is_around(part, i, q));
        }
        if around.contains(p) {
            let q = choose|q: int| #[trigger] is_around(part, i, q) && part[q].pitch == p;
            assert(j <= q < k);
            assert(part[q].pitch == p);
        }
    }
    assert(found =~= around);
    lemma_pitch_count(part, j, k);
}

/// A note moves from the one before it where that has another pitch and ended a quarter before it
/// at most.
pub proof fn law_moving_onsets(part: Seq<Note>, i: int)
    requires
        0 <= i < part.len(),
    ensures
        onset_of(part, i) == 1 <==> moves(part, i - 1) == 1 && part[i].on <= part[i - 1].off + 96,
        onset_of(part, i) == 0 || onset_of(part, i) == 1,
{
}

} // verus!
