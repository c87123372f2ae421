//! How many notes of each kind a list holds.
use crate::order::{insert_by, key_less, lemma_order_sorts, lemma_stable_sort, less, order, sorted_by, stable_sort, Key};
use crate::score::Note;
use vstd::prelude::*;

verus! {

/// Orders notes by onset, release, pitch and volume.
pub open spec fn note_key(note: Note) -> Key {
    (note.on, note.off, (note.pitch * 4294967296 + (note.vel + 2147483648)) as i64)
}

/// Whether two notes agree in onset, release, pitch and volume.
pub open spec fn alike(a: Note, b: Note) -> bool {
    a.on == b.on && a.off == b.off && a.pitch == b.pitch && a.vel == b.vel
}

/// Notes in order of onset, release, pitch and volume.
pub open spec fn by_kind(notes: Seq<Note>) -> Seq<Note> {
    stable_sort(notes, |n: Note| note_key(n))
}

/// The number of notes like a given one.
pub open spec fn amount(notes: Seq<Note>, note: Note) -> int
    decreases notes.len(),
{
    if notes.len() == 0 {
        0
    } else {
        amount(notes.drop_last(), note) + (if alike(notes.last(), note) {
            1int
        } else {
            0int
        })
    }
}

/// One note of each kind, from sorted notes.
pub open spec fn kinds(sorted: Seq<Note>) -> Seq<Note>
    decreases sorted.len(),
{
    if sorted.len() == 0 {
        Seq::empty()
    } else {
        let before = kinds(sorted.drop_last());
        if before.len() > 0 && alike(before.last(), sorted.last()) {
            before
        } else {
            before.push(sorted.last())
        }
    }
}

/// How many notes of the first kinds of one list another one holds too.
pub open spec fn shared(kinds: Seq<Note>, ours: Seq<Note>, theirs: Seq<Note>) -> int
    decreases kinds.len(),
{
    if kinds.len() == 0 {
        0
    } else {
        let a = amount(ours, kinds.last());
        let b = amount(theirs, kinds.last());
        shared(kinds.drop_last(), ours, theirs) + (if a < b {
            a
        } else {
            b
        })
    }
}

/// How many notes of one list another one holds too, each counted as often as
/// both hold it.
pub open spec fn in_common(ours: Seq<Note>, theirs: Seq<Note>) -> int {
    shared(kinds(by_kind(ours)), ours, theirs)
}

/// The kinds of which one list holds more than another, with the excess.
pub open spec fn surplus(kinds: Seq<Note>, ours: Seq<Note>, theirs: Seq<Note>) -> Seq<(Note, int)>
    decreases kinds.len(),
{
    if kinds.len() == 0 {
        Seq::empty()
    } else {
        let before = surplus(kinds.drop_last(), ours, theirs);
        let more = amount(ours, kinds.last()) - amount(theirs, kinds.last());
        if more > 0 {
            before.push((kinds.last(), more))
        } else {
            before
        }
    }
}

/// The notes that one list holds beyond another, by kind.
pub open spec fn excess(ours: Seq<Note>, theirs: Seq<Note>) -> Seq<(Note, int)> {
    surplus(kinds(by_kind(ours)), ours, theirs)
}

/// The sum of the excesses.
pub open spec fn total(list: Seq<(Note, int)>) -> int
    decreases list.len(),
{
    if list.len() == 0 {
        0
    } else {
        total(list.drop_last()) + list.last().1
    }
}

proof fn lemma_key(a: Note, b: Note)
    ensures
        (note_key(a) == note_key(b)) == alike(a, b),
        i64::MIN <= a.pitch * 4294967296 + (a.vel + 2147483648) <= i64::MAX,
{
    assert(i64::MIN <= b.pitch * 4294967296 + (b.vel + 2147483648) <= i64::MAX);
}

proof fn lemma_amount_insert(s: Seq<Note>, x: Note, note: Note)
    ensures
        amount(insert_by(s, x, |n: Note| note_key(n)), note) == amount(s, note) + (if alike(
            x,
            note,
        ) {
            1int
        } else {
            0int
        }),
    decreases s.len(),
{
    let key = |n: Note| note_key(n);
    let new = insert_by(s, x, key);
    if s.len() == 0 || !key_less(key(x), key(s.last())) {
        assert(new.drop_last() =~= s);
    } else {
        lemma_amount_insert(s.drop_last(), x, note);
        assert(new.drop_last() =~= insert_by(s.drop_last(), x, key));
    }
}

pub(crate) proof fn lemma_amount_sorted(s: Seq<Note>, note: Note)
    ensures
        amount(by_kind(s), note) == amount(s, note),
    decreases s.len(),
{
    let key = |n: Note| note_key(n);
    if s.len() > 0 {
        lemma_amount_sorted(s.drop_last(), note);
        lemma_amount_insert(stable_sort(s.drop_last(), key), s.last(), note);
    }
}

proof fn lemma_amount_bounds(s: Seq<Note>, note: Note)
    ensures
        0 <= amount(s, note) <= s.len(),
    decreases s.len(),
{
    if s.len() > 0 {
        lemma_amount_bounds(s.drop_last(), note);
    }
}

/// In a sorted list the notes of one kind stand between two positions.
proof fn lemma_amount_range(s: Seq<Note>, note: Note, lo: int, hi: int)
    requires
        0 <= lo <= hi <= s.len(),
        forall|i: int| 0 <= i < lo ==> !alike(#[trigger] s[i], note),
        forall|i: int| lo <= i < hi ==> alike(#[trigger] s[i], note),
        forall|i: int| hi <= i < s.len() ==> !alike(#[trigger] s[i], note),
    ensures
        amount(s, note) == hi - lo,
    decreases s.len(),
{
    if s.len() > 0 {
        let front = s.drop_last();
        let last = s[s.len() - 1];
        if hi == s.len() {
            if lo == hi {
                lemma_amount_range(front, note, lo - 1, hi - 1);
                assert(!alike(last, note));
            } else {
                lemma_amount_range(front, note, lo, hi - 1);
                assert(alike(last, note));
            }
        } else {
            lemma_amount_range(front, note, lo, hi);
            assert(!alike(last, note));
        }
    }
}

fn key_of(note: &Note) -> (key: Key)
    ensures
        key == note_key(*note),
{
    proof {
        lemma_key(*note, *note);
    }
    (note.on, note.off, note.pitch as i64 * 4294967296 + (note.vel as i64 + 2147483648))
}

/// Sorts notes by kind.
pub fn sort_kinds(notes: &[Note]) -> (sorted: Vec<Note>)
    ensures
        sorted@ == by_kind(notes@),
        sorted.len() == notes.len(),
        sorted_by(sorted@, |n: Note| note_key(n)),
{
    let mut keys: Vec<Key> = Vec::new();
    let mut i: usize = 0;
    while i < notes.len()
        invariant
            i <= notes.len(),
            keys.len() == i,
            forall|k: int| 0 <= k < i ==> #[trigger] keys[k] == note_key(notes[k]),
        decreases notes.len() - i,
    {
        keys.push(key_of(&notes[i]));
        i += 1;
    }
    let sequence = order(&keys);
    let mut sorted: Vec<Note> = Vec::new();
    let mut i: usize = 0;
    let ghost f = |i: usize| notes@[i as int];
    while i < sequence.len()
        invariant
            i <= sequence.len() == notes.len(),
            f == (|i: usize| notes@[i as int]),
            forall|k: int| 0 <= k < sequence.len() ==> (#[trigger] sequence[k]) < notes.len(),
            sorted@ == sequence@.take(i as int).map_values(f),
        decreases sequence.len() - i,
    {
        sorted.push(notes[sequence[i]]);
        i += 1;
        proof {
            assert(sorted@ =~= sequence@.take(i as int).map_values(f));
        }
    }
    proof {
        assert(sequence@.take(i as int) =~= sequence@);
        lemma_order_sorts(notes@, keys@, |n: Note| note_key(n));
        lemma_stable_sort(notes@, |n: Note| note_key(n));
    }
    sorted
}

/// The first position of a sorted list at which a note does not come before
/// another one, or, where `beyond` holds, comes after it.
fn position(sorted: &Vec<Note>, note: &Note, beyond: bool) -> (p: usize)
    requires
        sorted_by(sorted@, |n: Note| note_key(n)),
    ensures
        p <= sorted.len(),
        forall|i: int|
            0 <= i < p ==> if beyond {
                !key_less(note_key(*note), note_key(#[trigger] sorted[i]))
            } else {
                key_less(note_key(sorted[i]), note_key(*note))
            },
        forall|i: int|
            p <= i < sorted.len() ==> if beyond {
                key_less(note_key(*note), note_key(#[trigger] sorted[i]))
            } else {
                !key_less(note_key(sorted[i]), note_key(*note))
            },
{
    let key = key_of(note);
    let mut lo: usize = 0;
    let mut hi: usize = sorted.len();
    while lo < hi
        invariant
            lo <= hi <= sorted.len(),
            key == note_key(*note),
            sorted_by(sorted@, |n: Note| note_key(n)),
            forall|i: int|
                0 <= i < lo ==> if beyond {
                    !key_less(key, note_key(#[trigger] sorted[i]))
                } else {
                    key_less(note_key(sorted[i]), key)
                },
            forall|i: int|
                hi <= i < sorted.len() ==> if beyond {
                    key_less(key, note_key(#[trigger] sorted[i]))
                } else {
                    !key_less(note_key(sorted[i]), key)
                },
        decreases hi - lo,
    {
        let middle: usize = lo + (hi - lo) / 2;
        let here = key_of(&sorted[middle]);
        let before = if beyond {
            !less(key, here)
        } else {
            less(here, key)
        };
        proof {
            let f = |n: Note| note_key(n);
            assert forall|i: int| 0 <= i < sorted.len() implies if i <= middle {
                !key_less(here, note_key(#[trigger] sorted[i]))
            } else {
                !key_less(note_key(sorted[i]), here)
            } by {
                if i < middle {
                    assert(!key_less(f(sorted@[middle as int]), f(sorted@[i])));
                } else if i > middle {
                    assert(!key_less(f(sorted@[i]), f(sorted@[middle as int])));
                }
            }
        }
        if before {
            lo = middle + 1;
        } else {
            hi = middle;
        }
    }
    lo
}

/// The number of notes like a given one in a sorted list.
fn amount_in(sorted: &Vec<Note>, note: &Note) -> (n: usize)
    requires
        sorted_by(sorted@, |n: Note| note_key(n)),
    ensures
        n == amount(sorted@, *note),
{
    let lo = position(sorted, note, false);
    let hi = position(sorted, note, true);
    proof {
        assert forall|i: int| 0 <= i < sorted.len() implies alike(#[trigger] sorted[i], *note) == (
        lo <= i < hi) by {
            lemma_key(sorted[i], *note);
            let k = note_key(sorted[i]);
            if lo <= i < hi {
                assert(!key_less(k, note_key(*note)));
                assert(!key_less(note_key(*note), k));
            }
        }
        if lo > hi {
            assert(alike(sorted[hi as int], sorted[hi as int]));
            assert(false);
        }
        lemma_amount_range(sorted@, *note, lo as int, hi as int);
    }
    hi - lo
}

/// One note of each kind of a sorted list.
fn distinct(sorted: &Vec<Note>) -> (r: Vec<Note>)
    ensures
        r@ == kinds(sorted@),
{
    let mut r: Vec<Note> = Vec::new();
    let mut i: usize = 0;
    while i < sorted.len()
        invariant
            i <= sorted.len(),
            r@ == kinds(sorted@.take(i as int)),
        decreases sorted.len() - i,
    {
        let note = sorted[i];
        proof {
            assert(sorted@.take(i + 1).drop_last() =~= sorted@.take(i as int));
            assert(sorted@.take(i + 1).last() == note);
        }
        let known = if r.len() > 0 {
            let last = r[r.len() - 1];
            last.on == note.on && last.off == note.off && last.pitch == note.pitch && last.vel
                == note.vel
        } else {
            false
        };
        if !known {
            r.push(note);
        }
        i += 1;
    }
    proof {
        assert(sorted@.take(i as int) =~= sorted@);
    }
    r
}

/// The notes of the kinds stand in the list, so the excess sums up to no more
/// than its length.
pub(crate) proof fn lemma_kinds(sorted: Seq<Note>)
    requires
        sorted_by(sorted, |n: Note| note_key(n)),
    ensures
        forall|i: int| 0 <= i < kinds(sorted).len() ==> sorted.contains(#[trigger] kinds(sorted)[i]),
        forall|i: int, j: int|
            #![trigger kinds(sorted)[i], kinds(sorted)[j]]
            0 <= i < j < kinds(sorted).len() ==> !alike(kinds(sorted)[i], kinds(sorted)[j]),
        sorted.len() > 0 ==> kinds(sorted).len() > 0 && alike(kinds(sorted).last(), sorted.last()),
    decreases sorted.len(),
{
    let f = |n: Note| note_key(n);
    if sorted.len() > 0 {
        let front = sorted.drop_last();
        let before = kinds(front);
        let all = kinds(sorted);
        assert(sorted_by(front, f)) by {
            assert forall|i: int, j: int|
                #![trigger front[i], front[j]]
                0 <= i < j < front.len() implies !key_less(f(front[j]), f(front[i])) by {
                assert(front[i] == sorted[i] && front[j] == sorted[j]);
            }
        }
        lemma_kinds(front);
        assert forall|i: int| 0 <= i < all.len() implies sorted.contains(#[trigger] all[i]) by {
            if i < before.len() {
                assert(all[i] == before[i]);
                let k = choose|k: int| 0 <= k < front.len() && front[k] == before[i];
                assert(sorted[k] == all[i]);
            } else {
                assert(sorted[sorted.len() - 1] == all[i]);
            }
        }
        assert forall|i: int, j: int|
            #![trigger all[i], all[j]]
            0 <= i < j < all.len() implies !alike(all[i], all[j]) by {
            if j < before.len() {
                assert(all[i] == before[i] && all[j] == before[j]);
            } else {
                assert(all[i] == before[i]);
                let last = sorted.last();
                if alike(before[i], last) {
                    assert(!alike(before.last(), last));
                    let k = choose|k: int| 0 <= k < front.len() && front[k] == before[i];
                    let q = choose|q: int| 0 <= q < front.len() && front[q] == before.last();
                    lemma_key(before[i], last);
                    lemma_key(before.last(), last);
                    lemma_key(front.last(), before.last());
                    assert(front[k] == sorted[k]);
                    assert(front.last() == sorted[front.len() - 1]);
                    let m = front.len() - 1;
                    assert(alike(front[m], before.last()));
                    if k < m {
                        assert(!key_less(f(sorted[m]), f(sorted[k])));
                    }
                    assert(!key_less(f(sorted[sorted.len() - 1]), f(sorted[m])));
                    assert(false);
                }
            }
        }
    }
}

/// Removing the notes of one kind.
spec fn without(notes: Seq<Note>, note: Note) -> Seq<Note>
    decreases notes.len(),
{
    if notes.len() == 0 {
        Seq::empty()
    } else if alike(notes.last(), note) {
        without(notes.drop_last(), note)
    } else {
        without(notes.drop_last(), note).push(notes.last())
    }
}

proof fn lemma_without(notes: Seq<Note>, note: Note, other: Note)
    ensures
        without(notes, note).len() + amount(notes, note) == notes.len(),
        !alike(note, other) ==> amount(without(notes, note), other) == amount(notes, other),
    decreases notes.len(),
{
    if notes.len() > 0 {
        lemma_without(notes.drop_last(), note, other);
        if !alike(notes.last(), note) {
            assert(without(notes, note).drop_last() =~= without(notes.drop_last(), note));
        }
    }
}

/// What a list of different kinds amounts to.
spec fn amounts(list: Seq<Note>, notes: Seq<Note>) -> int
    decreases list.len(),
{
    if list.len() == 0 {
        0
    } else {
        amounts(list.drop_last(), notes) + amount(notes, list.last())
    }
}

proof fn lemma_amounts_same(list: Seq<Note>, a: Seq<Note>, b: Seq<Note>)
    requires
        forall|i: int| 0 <= i < list.len() ==> amount(a, #[trigger] list[i]) == amount(b, list[i]),
    ensures
        amounts(list, a) == amounts(list, b),
    decreases list.len(),
{
    if list.len() > 0 {
        let front = list.drop_last();
        assert forall|i: int| 0 <= i < front.len() implies amount(a, #[trigger] front[i]) == amount(
            b,
            front[i],
        ) by {
            assert(front[i] == list[i]);
        }
        lemma_amounts_same(front, a, b);
        assert(list[list.len() - 1] == list.last());
    }
}

proof fn lemma_amounts(list: Seq<Note>, notes: Seq<Note>)
    requires
        forall|i: int, j: int|
            #![trigger list[i], list[j]]
            0 <= i < j < list.len() ==> !alike(list[i], list[j]),
    ensures
        amounts(list, notes) <= notes.len(),
    decreases list.len(),
{
    if list.len() > 0 {
        let front = list.drop_last();
        let last = list.last();
        let rest = without(notes, last);
        assert forall|i: int| 0 <= i < front.len() implies amount(rest, #[trigger] front[i])
            == amount(notes, front[i]) by {
            assert(front[i] == list[i]);
            assert(!alike(list[i], list[list.len() - 1]));
            lemma_without(notes, last, front[i]);
        }
        lemma_amounts_same(front, rest, notes);
        assert forall|i: int, j: int|
            #![trigger front[i], front[j]]
            0 <= i < j < front.len() implies !alike(front[i], front[j]) by {
            assert(front[i] == list[i] && front[j] == list[j]);
        }
        lemma_amounts(front, rest);
        lemma_without(notes, last, last);
    }
}

proof fn lemma_sums(list: Seq<Note>, ours: Seq<Note>, theirs: Seq<Note>)
    ensures
        0 <= shared(list, ours, theirs) <= amounts(list, ours),
        0 <= total(surplus(list, ours, theirs)) <= amounts(list, ours),
    decreases list.len(),
{
    if list.len() > 0 {
        lemma_sums(list.drop_last(), ours, theirs);
        lemma_amount_bounds(ours, list.last());
        lemma_amount_bounds(theirs, list.last());
        let before = surplus(list.drop_last(), ours, theirs);
        let new = surplus(list, ours, theirs);
        if new.len() > before.len() {
            assert(new.drop_last() =~= before);
        }
    }
}

proof fn lemma_prefix_amounts(list: Seq<Note>, n: int, notes: Seq<Note>)
    requires
        0 <= n <= list.len(),
    ensures
        amounts(list.take(n), notes) <= amounts(list, notes),
    decreases list.len(),
{
    if n < list.len() {
        lemma_prefix_amounts(list.drop_last(), n, notes);
        assert(list.drop_last().take(n) =~= list.take(n));
        lemma_amount_bounds(notes, list.last());
    } else {
        assert(list.take(n) =~= list);
    }
}

/// The notes that a list shares with another and those that it holds beyond it
/// make up the list: each note is counted once.
pub proof fn law_shared_and_excess(ours: Seq<Note>, theirs: Seq<Note>)
    ensures
        in_common(ours, theirs) + total(excess(ours, theirs)) == ours.len(),
{
    let list = kinds(by_kind(ours));
    lemma_stable_sort(ours, |n: Note| note_key(n));
    lemma_partition(list, ours, theirs);
    lemma_kinds_amount(by_kind(ours));
    assert forall|i: int| 0 <= i < list.len() implies amount(by_kind(ours), #[trigger] list[i])
        == amount(ours, list[i]) by {
        lemma_amount_sorted(ours, list[i]);
    }
    lemma_amounts_same(list, by_kind(ours), ours);
}

proof fn lemma_partition(list: Seq<Note>, ours: Seq<Note>, theirs: Seq<Note>)
    ensures
        shared(list, ours, theirs) + total(surplus(list, ours, theirs)) == amounts(list, ours),
    decreases list.len(),
{
    if list.len() > 0 {
        lemma_partition(list.drop_last(), ours, theirs);
        let before = surplus(list.drop_last(), ours, theirs);
        let new = surplus(list, ours, theirs);
        if new.len() > before.len() {
            assert(new.drop_last() =~= before);
        }
    }
}

proof fn lemma_amount_none(notes: Seq<Note>, note: Note)
    requires
        forall|i: int| 0 <= i < notes.len() ==> !alike(#[trigger] notes[i], note),
    ensures
        amount(notes, note) == 0,
    decreases notes.len(),
{
    if notes.len() > 0 {
        let front = notes.drop_last();
        assert forall|i: int| 0 <= i < front.len() implies !alike(#[trigger] front[i], note) by {
            assert(front[i] == notes[i]);
        }
        lemma_amount_none(front, note);
        assert(notes[notes.len() - 1] == notes.last());
    }
}

/// One more note of the kind of the last entry, or of none of the entries.
proof fn lemma_amounts_push(list: Seq<Note>, notes: Seq<Note>, note: Note)
    requires
        forall|i: int| 0 <= i < list.len() - 1 ==> !alike(#[trigger] list[i], note),
    ensures
        amounts(list, notes.push(note)) == amounts(list, notes) + (if list.len() > 0 && alike(
            list.last(),
            note,
        ) {
            1int
        } else {
            0int
        }),
    decreases list.len(),
{
    assert(notes.push(note).drop_last() =~= notes);
    if list.len() > 0 {
        let front = list.drop_last();
        assert forall|i: int| 0 <= i < front.len() implies amount(
            notes.push(note),
            #[trigger] front[i],
        ) == amount(notes, front[i]) by {
            assert(front[i] == list[i]);
        }
        lemma_amounts_same(front, notes.push(note), notes);
    }
}

proof fn lemma_kinds_amount(sorted: Seq<Note>)
    requires
        sorted_by(sorted, |n: Note| note_key(n)),
    ensures
        amounts(kinds(sorted), sorted) == sorted.len(),
    decreases sorted.len(),
{
    let f = |n: Note| note_key(n);
    if sorted.len() > 0 {
        let front = sorted.drop_last();
        let last = sorted.last();
        assert(sorted_by(front, f)) by {
            assert forall|i: int, j: int|
                #![trigger front[i], front[j]]
                0 <= i < j < front.len() implies !key_less(f(front[j]), f(front[i])) by {
                assert(front[i] == sorted[i] && front[j] == sorted[j]);
            }
        }
        lemma_kinds_amount(front);
        lemma_kinds(sorted);
        lemma_kinds(front);
        let before = kinds(front);
        let all = kinds(sorted);
        assert(front.push(last) =~= sorted);
        if before.len() > 0 && alike(before.last(), last) {
            assert(all == before);
            assert forall|i: int| 0 <= i < before.len() - 1 implies !alike(
                #[trigger] before[i],
                last,
            ) by {
                assert(!alike(before[i], before[before.len() - 1]));
            }
            lemma_amounts_push(before, front, last);
        } else {
            assert forall|i: int| 0 <= i < before.len() implies !alike(#[trigger] before[i], last) by {
                assert(all[i] == before[i]);
                assert(all[all.len() - 1] == last);
            }
            lemma_amounts_push(before, front, last);
            assert(all.drop_last() =~= before);
            assert forall|i: int| 0 <= i < front.len() implies !alike(#[trigger] front[i], last) by {
                if alike(front[i], last) {
                    let m = front.len() - 1;
                    lemma_key(front[i], last);
                    lemma_key(front[m], last);
                    lemma_key(front[m], before.last());
                    lemma_key(before.last(), last);
                    assert(front[i] == sorted[i] && front[m] == sorted[m]);
                    assert(alike(before.last(), front.last()));
                    if i < m {
                        assert(!key_less(f(sorted[m]), f(sorted[i])));
                    }
                    assert(!key_less(f(sorted[sorted.len() - 1]), f(sorted[m])));
                    assert(false);
                }
            }
            lemma_amount_none(front, last);
            assert(sorted.drop_last() =~= front);
            assert(amount(sorted, last) == 1);
        }
    }
}

/// What two lists of notes have in common, and what the first holds beyond the
/// second.
pub struct Comparison {
    pub common: usize,
    pub extra: Vec<(Note, usize)>,
    pub missing: usize,
}

pub open spec fn extra_view(extra: Seq<(Note, usize)>) -> Seq<(Note, int)> {
    extra.map_values(|e: (Note, usize)| (e.0, e.1 as int))
}

/// Holds the notes of one list against those of another.
pub fn compare_notes(ours: &[Note], theirs: &[Note]) -> (r: Comparison)
    ensures
        r.common == in_common(ours@, theirs@),
        extra_view(r.extra@) == excess(ours@, theirs@),
        r.missing == total(excess(ours@, theirs@)),
{
    let mine = sort_kinds(ours);
    let other = sort_kinds(theirs);
    let list = distinct(&mine);
    proof {
        lemma_kinds(mine@);
        lemma_amounts(list@, ours@);
    }
    let mut common: usize = 0;
    let mut missing: usize = 0;
    let mut extra: Vec<(Note, usize)> = Vec::new();
    let mut i: usize = 0;
    proof {
        assert(extra_view(extra@) =~= Seq::<(Note, int)>::empty());
    }
    while i < list.len()
        invariant
            i <= list.len(),
            mine@ == by_kind(ours@),
            other@ == by_kind(theirs@),
            sorted_by(mine@, |n: Note| note_key(n)),
            sorted_by(other@, |n: Note| note_key(n)),
            amounts(list@, ours@) <= ours.len(),
            common == shared(list@.take(i as int), ours@, theirs@),
            extra_view(extra@) == surplus(list@.take(i as int), ours@, theirs@),
            missing == total(extra_view(extra@)),
        decreases list.len() - i,
    {
        let note = list[i];
        let a = amount_in(&mine, &note);
        let b = amount_in(&other, &note);
        proof {
            lemma_amount_sorted(ours@, note);
            lemma_amount_sorted(theirs@, note);
            let next = list@.take(i + 1);
            assert(next.drop_last() =~= list@.take(i as int));
            assert(next.last() == note);
            lemma_sums(next, ours@, theirs@);
            lemma_prefix_amounts(list@, i + 1, ours@);
        }
        common += if a < b {
            a
        } else {
            b
        };
        if a > b {
            let ghost before = extra_view(extra@);
            proof {
                assert(before.push((note, a - b)).drop_last() =~= before);
            }
            missing += a - b;
            extra.push((note, a - b));
            proof {
                assert(extra_view(extra@) =~= before.push((note, a - b)));
            }
        }
        i += 1;
    }
    proof {
        assert(list@.take(i as int) =~= list@);
    }
    Comparison { common, extra, missing }
}

} // verus!
