//! What counting notes comes to.
use crate::bag::{
    alike, amount, by_kind, excess, in_common, kinds, lemma_amount_sorted, lemma_kinds, note_key,
    shared, surplus,
};
use crate::order::{key_less, lemma_stable_sort, sorted_by};
use crate::polyphony::{first_event, is_histogram, last_event, ticks_with, voices};
use crate::score::Note;
use vstd::prelude::*;

verus! {

/// The number of notes with the onset, the release, the pitch and the volume of a given one.
pub open spec fn copies(notes: Seq<Note>, note: Note) -> int {
    notes.filter(
        |n: Note|
            n.on == note.on && n.off == note.off && n.pitch == note.pitch && n.vel == note.vel,
    ).len() as int
}

proof fn lemma_copies(notes: Seq<Note>, note: Note)
    ensures
        copies(notes, note) == amount(notes, note),
    decreases notes.len(),
{
    reveal(Seq::filter);
    if notes.len() > 0 {
        lemma_copies(notes.drop_last(), note);
    }
}

proof fn lemma_amount_some(notes: Seq<Note>, note: Note)
    ensures
        amount(notes, note) >= 0,
        amount(notes, note) > 0 <==> exists|i: int| 0 <= i < notes.len() && alike(#[trigger] notes[i], note),
    decreases notes.len(),
{
    if notes.len() > 0 {
        let front = notes.drop_last();
        lemma_amount_some(front, note);
        if amount(notes, note) > 0 {
            if alike(notes.last(), note) {
                assert(alike(notes[notes.len() - 1], note));
            } else {
                let i = choose|i: int| 0 <= i < front.len() && alike(#[trigger] front[i], note);
                assert(alike(notes[i], note));
            }
        }
        if exists|i: int| 0 <= i < notes.len() && alike(#[trigger] notes[i], note) {
            let i = choose|i: int| 0 <= i < notes.len() && alike(#[trigger] notes[i], note);
            if i < front.len() {
                assert(alike(front[i], note));
            }
        }
    }
}

/// Every kind of note is among the kinds, once.
proof fn lemma_kinds_hold(sorted: Seq<Note>, note: Note)
    requires
        sorted_by(sorted, |n: Note| note_key(n)),
    ensures
        amount(kinds(sorted), note) == (if amount(sorted, note) > 0 {
            1int
        } else {
            0int
        }),
    decreases sorted.len(),
{
    let f = |n: Note| note_key(n);
    if sorted.len() > 0 {
        let front = sorted.drop_last();
        let last = sorted.last();
        assert(sorted_by(front, f)) by {
            assert forall|i: int, j: int|
                #![trigger front[i], front[j]]
                0 <= i < j < front.len() implies !key_less(f(front[j]), f(front[i])) by {
                assert(front[i] == sorted[i] && front[j] == sorted[j]);
            }
        }
        lemma_kinds_hold(front, note);
        lemma_kinds(sorted);
        let before = kinds(front);
        let all = kinds(sorted);
        lemma_amount_some(front, note);
        if before.len() > 0 && alike(before.last(), last) {
            if alike(last, note) {
                assert(alike(before[before.len() - 1], note));
                lemma_amount_some(before, note);
            }
        } else {
            assert(all.drop_last() =~= before);
            if alike(last, note) {
                lemma_amount_some(before, note);
                if amount(before, note) > 0 {
                    let i = choose|i: int| 0 <= i < before.len() && alike(#[trigger] before[i], note);
                    assert(all[i] == before[i] && all[all.len() - 1] == last);
                    assert(!alike(all[i], all[all.len() - 1]));
                }
            }
        }
    }
}

proof fn lemma_shared_push(list: Seq<Note>, ours: Seq<Note>, theirs: Seq<Note>, note: Note)
    ensures
        shared(list, ours, theirs.push(note)) == shared(list, ours, theirs) + (if amount(theirs, note)
            < amount(ours, note) {
            amount(list, note)
        } else {
            0
        }),
    decreases list.len(),
{
    if list.len() > 0 {
        lemma_shared_push(list.drop_last(), ours, theirs, note);
        assert(theirs.push(note).drop_last() =~= theirs);
        lemma_alike_amounts(ours, list.last(), note);
        lemma_alike_amounts(theirs, list.last(), note);
    }
}

proof fn lemma_alike_amounts(notes: Seq<Note>, a: Note, b: Note)
    ensures
        alike(a, b) ==> amount(notes, a) == amount(notes, b),
    decreases notes.len(),
{
    if notes.len() > 0 {
        lemma_alike_amounts(notes.drop_last(), a, b);
    }
}

proof fn lemma_shared_none(list: Seq<Note>, ours: Seq<Note>)
    ensures
        shared(list, ours, Seq::empty()) == 0,
    decreases list.len(),
{
    if list.len() > 0 {
        lemma_shared_none(list.drop_last(), ours);
        lemma_amount_some(ours, list.last());
    }
}

/// An output has nothing in common with a source of no notes. With every note that the source
/// gains it has one note more in common, exactly where it holds more such notes than the source
/// did.
pub proof fn law_common_notes(ours: Seq<Note>, theirs: Seq<Note>, note: Note)
    ensures
        in_common(ours, Seq::empty()) == 0,
        in_common(ours, theirs.push(note)) == in_common(ours, theirs) + (if copies(theirs, note)
            < copies(ours, note) {
            1int
        } else {
            0int
        }),
{
    let list = kinds(by_kind(ours));
    lemma_stable_sort(ours, |n: Note| note_key(n));
    lemma_kinds_hold(by_kind(ours), note);
    lemma_amount_sorted(ours, note);
    lemma_shared_none(list, ours);
    lemma_shared_push(list, ours, theirs, note);
    lemma_copies(ours, note);
    lemma_copies(theirs, note);
    lemma_amount_some(theirs, note);
}

/// How many notes like a given one a list of kinds tells of.
pub open spec fn told(list: Seq<(Note, int)>, note: Note) -> int
    decreases list.len(),
{
    if list.len() == 0 {
        0
    } else {
        let n = list.last().0;
        told(list.drop_last(), note) + (if n.on == note.on && n.off == note.off && n.pitch
            == note.pitch && n.vel == note.vel {
            list.last().1
        } else {
            0
        })
    }
}

proof fn lemma_told(list: Seq<Note>, ours: Seq<Note>, theirs: Seq<Note>, note: Note)
    ensures
        told(surplus(list, ours, theirs), note) == (if amount(ours, note) > amount(theirs, note) {
            amount(list, note) * (amount(ours, note) - amount(theirs, note))
        } else {
            0
        }),
        forall|i: int|
            0 <= i < surplus(list, ours, theirs).len() ==> (#[trigger] surplus(
                list,
                ours,
                theirs,
            )[i]).1 > 0,
    decreases list.len(),
{
    if list.len() > 0 {
        lemma_told(list.drop_last(), ours, theirs, note);
        let before = surplus(list.drop_last(), ours, theirs);
        let all = surplus(list, ours, theirs);
        lemma_alike_amounts(ours, list.last(), note);
        lemma_alike_amounts(theirs, list.last(), note);
        if all.len() > before.len() {
            assert(all.drop_last() =~= before);
        }
        let a = amount(list.drop_last(), note);
        let d = amount(ours, note) - amount(theirs, note);
        assert((a + 1) * d == a * d + d) by (nonlinear_arith);
        assert forall|i: int| 0 <= i < all.len() implies (#[trigger] all[i]).1 > 0 by {
            if i < before.len() {
                assert(all[i] == before[i]);
            }
        }
    }
}

/// Of every note the report counts what the output holds beyond the source, and nothing of
/// those of which the source holds as many.
pub proof fn law_notes_beyond(ours: Seq<Note>, theirs: Seq<Note>, note: Note)
    ensures
        told(excess(ours, theirs), note) == (if copies(ours, note) > copies(theirs, note) {
            copies(ours, note) - copies(theirs, note)
        } else {
            0
        }),
        forall|i: int|
            0 <= i < excess(ours, theirs).len() ==> (#[trigger] excess(ours, theirs)[i]).1 > 0,
{
    let list = kinds(by_kind(ours));
    lemma_stable_sort(ours, |n: Note| note_key(n));
    lemma_kinds_hold(by_kind(ours), note);
    lemma_amount_sorted(ours, note);
    lemma_told(list, ours, theirs, note);
    lemma_copies(ours, note);
    lemma_copies(theirs, note);
    lemma_amount_some(theirs, note);
}

/// As many voices sound at a tick as notes have begun by it and not yet ended.
pub proof fn law_voices(notes: Seq<Note>, t: int)
    ensures
        voices(notes, t) == notes.filter(|n: Note| n.on <= t && t < n.off).len(),
    decreases notes.len(),
{
    reveal(Seq::filter);
    if notes.len() > 0 {
        law_voices(notes.drop_last(), t);
    }
}

/// How long notes sound, one by one.
pub open spec fn sounding_time(notes: Seq<Note>) -> int
    decreases notes.len(),
{
    if notes.len() == 0 {
        0
    } else {
        sounding_time(notes.drop_last()) + (if notes.last().off > notes.last().on {
            notes.last().off - notes.last().on
        } else {
            0
        })
    }
}

/// The sum of the first entries, each taken as often as its place says or once.
pub open spec fn sum_of(h: Seq<u128>, by_place: bool, n: int) -> int
    decreases n,
{
    if n <= 0 {
        0
    } else {
        sum_of(h, by_place, n - 1) + (if by_place {
            h[n - 1] * (n - 1)
        } else {
            h[n - 1] as int
        })
    }
}

spec fn area(notes: Seq<Note>, a: int, b: int) -> int
    decreases b - a,
{
    if b <= a {
        0
    } else {
        area(notes, a, b - 1) + voices(notes, b - 1)
    }
}

spec fn levels_sum(notes: Seq<Note>, a: int, b: int, by_place: bool, n: int) -> int
    decreases n,
{
    if n <= 0 {
        0
    } else {
        levels_sum(notes, a, b, by_place, n - 1) + (if by_place {
            ticks_with(notes, n - 1, a, b) * (n - 1)
        } else {
            ticks_with(notes, n - 1, a, b)
        })
    }
}

proof fn lemma_levels_step(notes: Seq<Note>, a: int, b: int, by_place: bool, n: int)
    requires
        a < b,
        n >= 0,
    ensures
        levels_sum(notes, a, b, by_place, n) == levels_sum(notes, a, b - 1, by_place, n) + (if 0
            <= voices(notes, b - 1) < n {
            if by_place {
                voices(notes, b - 1)
            } else {
                1
            }
        } else {
            0
        }),
    decreases n,
{
    if n > 0 {
        lemma_levels_step(notes, a, b, by_place, n - 1);
        let x = ticks_with(notes, n - 1, a, b - 1);
        let k = n - 1;
        assert((x + 1) * k == x * k + k) by (nonlinear_arith);
    }
}

proof fn lemma_levels_none(notes: Seq<Note>, a: int, b: int, by_place: bool, n: int)
    requires
        b <= a,
    ensures
        levels_sum(notes, a, b, by_place, n) == 0,
    decreases n,
{
    if n > 0 {
        lemma_levels_none(notes, a, b, by_place, n - 1);
        assert(0 * (n - 1) == 0) by (nonlinear_arith);
    }
}

proof fn lemma_levels(notes: Seq<Note>, a: int, b: int, n: int)
    requires
        n > notes.len(),
    ensures
        levels_sum(notes, a, b, true, n) == area(notes, a, b),
        levels_sum(notes, a, b, false, n) == (if b > a {
            b - a
        } else {
            0
        }),
    decreases b - a,
{
    if b <= a {
        lemma_levels_none(notes, a, b, true, n);
        lemma_levels_none(notes, a, b, false, n);
    } else {
        lemma_levels(notes, a, b - 1, n);
        lemma_levels_step(notes, a, b, true, n);
        lemma_levels_step(notes, a, b, false, n);
        crate::polyphony::lemma_voices(notes, b - 1);
    }
}

spec fn least(a: int, b: int) -> int {
    if a < b {
        a
    } else {
        b
    }
}

proof fn lemma_area_push(notes: Seq<Note>, a: int, b: int)
    requires
        notes.len() > 0,
        a <= b,
        notes.last().off > notes.last().on ==> a <= notes.last().on,
    ensures
        area(notes, a, b) == area(notes.drop_last(), a, b) + (if notes.last().off > notes.last().on
            && b > notes.last().on {
            least(b, notes.last().off as int) - notes.last().on
        } else {
            0
        }),
    decreases b - a,
{
    if a < b {
        lemma_area_push(notes, a, b - 1);
    }
}

proof fn lemma_area(notes: Seq<Note>, a: int, b: int)
    requires
        a <= b,
        forall|i: int|
            0 <= i < notes.len() && notes[i].off > notes[i].on ==> a <= (#[trigger] notes[i]).on
                && notes[i].off <= b,
    ensures
        area(notes, a, b) == sounding_time(notes),
    decreases notes.len(),
{
    if notes.len() == 0 {
        lemma_area_none(notes, a, b);
    } else {
        let front = notes.drop_last();
        assert forall|i: int| 0 <= i < front.len() && front[i].off > front[i].on implies a <= (
        #[trigger] front[i]).on && front[i].off <= b by {
            assert(front[i] == notes[i]);
        }
        lemma_area(front, a, b);
        assert(notes[notes.len() - 1] == notes.last());
        lemma_area_push(notes, a, b);
    }
}

proof fn lemma_area_none(notes: Seq<Note>, a: int, b: int)
    requires
        notes.len() == 0,
    ensures
        area(notes, a, b) == 0,
    decreases b - a,
{
    if a < b {
        lemma_area_none(notes, a, b - 1);
    }
}

/// Whether a tick is where a note that lasts begins, or the start.
pub open spec fn is_first_tick(notes: Seq<Note>, t: int) -> bool {
    t == 0 || exists|i: int|
        0 <= i < notes.len() && (#[trigger] notes[i]).on == t && notes[i].on < notes[i].off
}

/// Whether a tick is where a note that lasts ends, or the start where there is none.
pub open spec fn is_last_tick(notes: Seq<Note>, t: int) -> bool {
    ||| exists|i: int|
        0 <= i < notes.len() && (#[trigger] notes[i]).off == t && notes[i].on < notes[i].off
    ||| t == 0 && forall|i: int| 0 <= i < notes.len() ==> (#[trigger] notes[i]).on >= notes[i].off
}

/// All notes that last lie between the first event and the last one, and these are no further
/// apart than need be.
pub proof fn law_events(notes: Seq<Note>)
    ensures
        first_event(notes) <= 0,
        forall|i: int|
            0 <= i < notes.len() && notes[i].on < notes[i].off ==> first_event(notes) <= (
            #[trigger] notes[i]).on && notes[i].off <= last_event(notes),
        is_first_tick(notes, first_event(notes)),
        is_last_tick(notes, last_event(notes)),
    decreases notes.len(),
{
    if notes.len() > 0 {
        let front = notes.drop_last();
        let n = notes.len() - 1;
        law_events(front);
        lemma_begins(front);
        assert forall|i: int| 0 <= i < notes.len() && notes[i].on < notes[i].off implies first_event(
            notes,
        ) <= (#[trigger] notes[i]).on && notes[i].off <= last_event(notes) by {
            if i < n {
                assert(front[i] == notes[i]);
            }
        }
        if first_event(notes) != 0 {
            if first_event(notes) == first_event(front) {
                let i = choose|i: int|
                    0 <= i < front.len() && (#[trigger] front[i]).on == first_event(front)
                        && front[i].on < front[i].off;
                assert(notes[i].on == first_event(notes));
            } else {
                assert(notes[n].on == first_event(notes));
            }
        }
        if last_event(notes) != last_event(front) {
            assert(notes[n].off == last_event(notes));
        } else if notes[n].on < notes[n].off && crate::polyphony::begins(front).len() == 0 {
            assert(notes[n].off == last_event(notes));
        } else if exists|i: int|
            0 <= i < front.len() && (#[trigger] front[i]).off == last_event(front) && front[i].on
                < front[i].off {
            let i = choose|i: int|
                0 <= i < front.len() && (#[trigger] front[i]).off == last_event(front) && front[i].on
                    < front[i].off;
            assert(notes[i].off == last_event(notes));
        } else {
            assert forall|i: int| 0 <= i < notes.len() implies (#[trigger] notes[i]).on
                >= notes[i].off by {
                if i < n {
                    assert(front[i].on >= front[i].off);
                }
            }
        }
    }
}

proof fn lemma_begins(notes: Seq<Note>)
    ensures
        crate::polyphony::begins(notes).len() == 0 <==> forall|i: int|
            0 <= i < notes.len() ==> (#[trigger] notes[i]).on >= notes[i].off,
    decreases notes.len(),
{
    if notes.len() > 0 {
        let front = notes.drop_last();
        lemma_begins(front);
        if crate::polyphony::begins(notes).len() == 0 {
            assert forall|i: int| 0 <= i < notes.len() implies (#[trigger] notes[i]).on >= notes[i].off by {
                if i < front.len() {
                    assert(front[i].on >= front[i].off);
                }
            }
        } else if forall|i: int| 0 <= i < notes.len() ==> (#[trigger] notes[i]).on >= notes[i].off {
            assert forall|i: int| 0 <= i < front.len() implies (#[trigger] front[i]).on >= front[i].off by {
                assert(notes[i].on >= notes[i].off);
            }
            assert(notes[notes.len() - 1].on >= notes[notes.len() - 1].off);
        }
    }
}

proof fn lemma_sum_levels(h: Seq<u128>, notes: Seq<Note>, by_place: bool, n: int)
    requires
        is_histogram(h, notes),
        0 <= n <= h.len(),
    ensures
        sum_of(h, by_place, n) == levels_sum(notes, first_event(notes), last_event(notes), by_place, n),
    decreases n,
{
    if n > 0 {
        lemma_sum_levels(h, notes, by_place, n - 1);
        assert(h[n - 1] == ticks_with(notes, n - 1, first_event(notes), last_event(notes)));
    }
}

proof fn lemma_no_more(h: Seq<u128>, notes: Seq<Note>, by_place: bool, n: int)
    requires
        is_histogram(h, notes),
        h.len() <= n,
    ensures
        levels_sum(notes, first_event(notes), last_event(notes), by_place, n) == levels_sum(
            notes,
            first_event(notes),
            last_event(notes),
            by_place,
            h.len() as int,
        ),
    decreases n,
{
    if n > h.len() {
        lemma_no_more(h, notes, by_place, n - 1);
        assert(ticks_with(notes, n - 1, first_event(notes), last_event(notes)) == 0);
        assert(0 * (n - 1) == 0) by (nonlinear_arith);
    }
}

/// The ticks of all levels make up the time from the first event to the last, and taken as often
/// as notes sound in them they make up the time that the notes sound.
pub proof fn law_levels_make_up_the_time(h: Seq<u128>, notes: Seq<Note>)
    requires
        is_histogram(h, notes),
    ensures
        sum_of(h, true, h.len() as int) == sounding_time(notes),
        sum_of(h, false, h.len() as int) == (if last_event(notes) > first_event(notes) {
            last_event(notes) - first_event(notes)
        } else {
            0
        }),
{
    let a = first_event(notes);
    let b = last_event(notes);
    let n = if h.len() > notes.len() {
        h.len() as int
    } else {
        notes.len() as int + 1
    };
    lemma_sum_levels(h, notes, true, h.len() as int);
    lemma_sum_levels(h, notes, false, h.len() as int);
    lemma_no_more(h, notes, true, n);
    lemma_no_more(h, notes, false, n);
    lemma_levels(notes, a, b, n);
    law_events(notes);
    if a <= b {
        assert forall|i: int| 0 <= i < notes.len() && notes[i].off > notes[i].on implies a <= (
        #[trigger] notes[i]).on && notes[i].off <= b by {}
        lemma_area(notes, a, b);
    } else {
        lemma_silent(notes, a, b);
    }
}

proof fn lemma_silent(notes: Seq<Note>, a: int, b: int)
    requires
        b < a,
        forall|i: int|
            0 <= i < notes.len() && notes[i].on < notes[i].off ==> a <= (#[trigger] notes[i]).on
                && notes[i].off <= b,
    ensures
        sounding_time(notes) == 0,
    decreases notes.len(),
{
    if notes.len() > 0 {
        let front = notes.drop_last();
        assert forall|i: int| 0 <= i < front.len() && front[i].on < front[i].off implies a <= (
        #[trigger] front[i]).on && front[i].off <= b by {
            assert(front[i] == notes[i]);
        }
        lemma_silent(front, a, b);
        let last = notes[notes.len() - 1];
        assert(!(last.on < last.off));
    }
}

} // verus!
