//! The order in which parts are written, and in which attacks prefer them.
use crate::attacks::{
    before_in_voice, behind_in_voice, carried, is_exact_span, leads_source, offer_key,
    offers_of, predecessor, preferences, successor, Handoff, Offer, Stage,
};
use crate::encode::{count_of, end_of_kept, is_lower, ranked, ranked_with, sum_of};
use crate::fold::WorkingNote;
use crate::homes::continuity_of;
use crate::led::lemma_ratios;
use crate::order::{key_less, lemma_stable_sort, stable_sort, Key};
use crate::score::{Note, Tempo, Tick};
use vstd::prelude::*;

verus! {

/// The sum of the pitches of some notes.
pub open spec fn pitches_sum(notes: Seq<WorkingNote>, ids: Seq<usize>) -> int
    decreases ids.len(),
{
    if ids.len() == 0 {
        0
    } else {
        pitches_sum(notes, ids.drop_last()) + notes[ids.last() as int].note.pitch
    }
}

/// Whether the mean pitch of some notes is no lower than that of others; that of none is nought.
pub open spec fn is_no_lower(notes: Seq<WorkingNote>, a: Seq<usize>, b: Seq<usize>) -> bool {
    if a.len() > 0 && b.len() > 0 {
        pitches_sum(notes, a) * b.len() >= pitches_sum(notes, b) * a.len()
    } else {
        pitches_sum(notes, a) >= pitches_sum(notes, b)
    }
}

proof fn lemma_sum(notes: Seq<WorkingNote>, ids: Seq<usize>, n: int)
    requires
        0 <= n <= ids.len(),
    ensures
        sum_of(notes, ids, n) == pitches_sum(notes, ids.take(n)),
    decreases n,
{
    if n > 0 {
        lemma_sum(notes, ids, n - 1);
        assert(ids.take(n).drop_last() =~= ids.take(n - 1));
    }
}

proof fn lemma_no_lower(notes: Seq<WorkingNote>, a: Seq<usize>, b: Seq<usize>)
    ensures
        is_no_lower(notes, a, b) == !is_lower(notes, a, b),
{
    lemma_sum(notes, a, a.len() as int);
    lemma_sum(notes, b, b.len() as int);
    assert(a.take(a.len() as int) =~= a);
    assert(b.take(b.len() as int) =~= b);
    let x = pitches_sum(notes, a);
    let y = pitches_sum(notes, b);
    assert(x * 1 == x && y * 1 == y);
    if a.len() == 0 {
        assert(x == 0);
        assert(0 * count_of(b) == 0) by (nonlinear_arith);
    }
    if b.len() == 0 {
        assert(y == 0);
        assert(0 * count_of(a) == 0) by (nonlinear_arith);
    }
}

spec fn stands_high(notes: Seq<WorkingNote>, slots: Seq<Seq<usize>>, list: Seq<usize>) -> bool {
    forall|i: int, j: int|
        #![trigger list[i], list[j]]
        0 <= i < j < list.len() ==> !is_lower(notes, slots[list[i] as int], slots[list[j] as int])
}

proof fn lemma_not_lower(notes: Seq<WorkingNote>, a: Seq<usize>, b: Seq<usize>, c: Seq<usize>)
    requires
        !is_lower(notes, a, b),
        !is_lower(notes, b, c),
    ensures
        !is_lower(notes, a, c),
{
    lemma_ratios(
        sum_of(notes, c, c.len() as int),
        count_of(c),
        sum_of(notes, b, b.len() as int),
        count_of(b),
        sum_of(notes, a, a.len() as int),
        count_of(a),
    );
}

proof fn lemma_ranked_with(notes: Seq<WorkingNote>, slots: Seq<Seq<usize>>, list: Seq<usize>, slot: usize)
    requires
        stands_high(notes, slots, list),
    ensures
        stands_high(notes, slots, ranked_with(notes, slots, list, slot)),
        ranked_with(notes, slots, list, slot).len() == list.len() + 1,
        forall|x: usize| #[trigger]
            ranked_with(notes, slots, list, slot).contains(x) <==> x == slot || list.contains(x),
    decreases list.len(),
{
    let new = ranked_with(notes, slots, list, slot);
    let n = list.len() as int;
    if n == 0 || !is_lower(notes, slots[list.last() as int], slots[slot as int]) {
        assert forall|i: int, j: int|
            #![trigger new[i], new[j]]
            0 <= i < j < new.len() implies !is_lower(notes, slots[new[i] as int], slots[new[j] as int]) by {
            assert(new[i] == list[i]);
            if j < n {
                assert(new[j] == list[j]);
            } else if i < n - 1 {
                assert(!is_lower(notes, slots[list[i] as int], slots[list[n - 1] as int]));
                lemma_not_lower(
                    notes,
                    slots[list[i] as int],
                    slots[list[n - 1] as int],
                    slots[slot as int],
                );
            }
        }
        assert forall|x: usize| #[trigger] new.contains(x) <==> x == slot || list.contains(x) by {
            assert(new[n] == slot);
            if list.contains(x) {
                let k = choose|k: int| 0 <= k < n && list[k] == x;
                assert(new[k] == x);
            }
            if new.contains(x) && x != slot {
                let k = choose|k: int| 0 <= k < new.len() && new[k] == x;
                assert(list[k] == x);
            }
        }
    } else {
        let front = list.drop_last();
        let last = list.last();
        assert(stands_high(notes, slots, front)) by {
            assert forall|i: int, j: int|
                #![trigger front[i], front[j]]
                0 <= i < j < front.len() implies !is_lower(
                notes,
                slots[front[i] as int],
                slots[front[j] as int],
            ) by {
                assert(front[i] == list[i] && front[j] == list[j]);
            }
        }
        lemma_ranked_with(notes, slots, front, slot);
        let inner = ranked_with(notes, slots, front, slot);
        assert forall|i: int, j: int|
            #![trigger new[i], new[j]]
            0 <= i < j < new.len() implies !is_lower(notes, slots[new[i] as int], slots[new[j] as int]) by {
            assert(new[i] == inner[i]);
            if j < inner.len() {
                assert(new[j] == inner[j]);
            } else {
                assert(new[j] == last);
                assert(inner.contains(inner[i]));
                if inner[i] != slot {
                    let k = choose|k: int| 0 <= k < front.len() && front[k] == inner[i];
                    assert(list[k] == inner[i] && list[n - 1] == last);
                }
            }
        }
        assert forall|x: usize| #[trigger] new.contains(x) <==> x == slot || list.contains(x) by {
            assert(new[inner.len() as int] == last);
            assert(list[n - 1] == last);
            if list.contains(x) {
                let k = choose|k: int| 0 <= k < n && list[k] == x;
                if k < n - 1 {
                    assert(front[k] == x);
                }
            }
            if front.contains(x) {
                let k = choose|k: int| 0 <= k < front.len() && front[k] == x;
                assert(list[k] == x);
            }
            if inner.contains(x) {
                let k = choose|k: int| 0 <= k < inner.len() && inner[k] == x;
                assert(new[k] == x);
            }
            if new.contains(x) {
                let k = choose|k: int| 0 <= k < new.len() && new[k] == x;
                if k < inner.len() {
                    assert(inner[k] == x);
                }
            }
        }
    }
}

proof fn lemma_ranked(notes: Seq<WorkingNote>, slots: Seq<Seq<usize>>, n: int)
    requires
        0 <= n <= slots.len() <= usize::MAX,
    ensures
        stands_high(notes, slots, ranked(notes, slots, n)),
        ranked(notes, slots, n).len() == n,
        forall|x: usize| #[trigger] ranked(notes, slots, n).contains(x) <==> x < n,
    decreases n,
{
    if n > 0 {
        lemma_ranked(notes, slots, n - 1);
        lemma_ranked_with(notes, slots, ranked(notes, slots, n - 1), (n - 1) as usize);
        assert forall|x: usize| #[trigger] ranked(notes, slots, n).contains(x) <==> x < n by {
            assert(ranked(notes, slots, n - 1).contains(x) <==> x < n - 1);
        }
    }
}

/// Where voices are kept together the parts are written from high to low: the mean pitch of none is
/// lower than that of a later one, and every part is written.
pub proof fn law_parts_from_high_to_low(notes: Seq<WorkingNote>, slots: Seq<Seq<usize>>, i: int, j: int, slot: usize)
    requires
        slots.len() <= usize::MAX,
        0 <= i < j < slots.len(),
    ensures
        ranked(notes, slots, slots.len() as int).len() == slots.len(),
        is_no_lower(
            notes,
            slots[ranked(notes, slots, slots.len() as int)[i] as int],
            slots[ranked(notes, slots, slots.len() as int)[j] as int],
        ),
        slot < slots.len() ==> ranked(notes, slots, slots.len() as int).contains(slot),
{
    let list = ranked(notes, slots, slots.len() as int);
    lemma_ranked(notes, slots, slots.len() as int);
    assert(!is_lower(notes, slots[list[i] as int], slots[list[j] as int]));
    lemma_no_lower(notes, slots[list[i] as int], slots[list[j] as int]);
    assert(list.contains(slot) <==> slot < slots.len());
}

/// An arrangement ends where the last of its notes does.
pub proof fn law_end_of_kept(notes: Seq<WorkingNote>, kept: Seq<usize>, n: int, k: int)
    requires
        0 <= k < n <= kept.len(),
    ensures
        notes[kept[k] as int].note.off <= end_of_kept(notes, kept, n),
        exists|m: int|
            0 <= m < n && notes[(#[trigger] kept[m]) as int].note.off == end_of_kept(notes, kept, n),
    decreases n,
{
    if n > 1 {
        law_end_of_kept(notes, kept, n - 1, if k < n - 1 {
            k
        } else {
            0
        });
        if notes[kept[n - 1] as int].note.off >= end_of_kept(notes, kept, n - 1) {
            assert(notes[kept[n - 1] as int].note.off == end_of_kept(notes, kept, n));
        } else {
            let m = choose|m: int|
                0 <= m < n - 1 && notes[(#[trigger] kept[m]) as int].note.off == end_of_kept(
                    notes,
                    kept,
                    n - 1,
                );
            assert(notes[kept[m] as int].note.off == end_of_kept(notes, kept, n));
        }
    } else {
        assert(notes[kept[0] as int].note.off == end_of_kept(notes, kept, n));
    }
}

proof fn lemma_before(originals: Seq<Note>, i: int, j: int)
    requires
        0 <= j <= i < originals.len() <= usize::MAX,
    ensures
        match before_in_voice(originals, i, j) {
            Some(k) => {
                &&& k < j && originals[k as int].src == originals[i].src
                &&& forall|m: int| k < m < j ==> (#[trigger] originals[m]).src != originals[i].src
            },
            None => forall|m: int| 0 <= m < j ==> (#[trigger] originals[m]).src != originals[i].src,
        },
    decreases j,
{
    if j > 0 && originals[j - 1].src != originals[i].src {
        lemma_before(originals, i, j - 1);
    }
}

proof fn lemma_behind(originals: Seq<Note>, i: int, j: int)
    requires
        0 <= i < j <= originals.len() <= usize::MAX,
    ensures
        match behind_in_voice(originals, i, j) {
            Some(k) => {
                &&& j <= k < originals.len() && originals[k as int].src == originals[i].src
                &&& forall|m: int| j <= m < k ==> (#[trigger] originals[m]).src != originals[i].src
            },
            None => forall|m: int|
                j <= m < originals.len() ==> (#[trigger] originals[m]).src != originals[i].src,
        },
    decreases originals.len() - j,
{
    if j < originals.len() && originals[j].src != originals[i].src {
        lemma_behind(originals, i, j + 1);
    }
}

/// The notes before and behind a note in its voice are the nearest of that voice on either side.
pub proof fn law_neighbours(originals: Seq<Note>, i: int, m: int)
    requires
        0 <= i < originals.len() <= usize::MAX,
        0 <= m < originals.len(),
        originals[m].src == originals[i].src,
    ensures
        predecessor(originals, i) matches Some(k) ==> k < i && originals[k as int].src == originals[i].src,
        successor(originals, i) matches Some(k) ==> i < k < originals.len() && originals[k as int].src
            == originals[i].src,
        m < i ==> predecessor(originals, i) is Some && m <= predecessor(originals, i)->Some_0,
        m > i ==> successor(originals, i) is Some && successor(originals, i)->Some_0 <= m,
{
    lemma_before(originals, i, i);
    lemma_behind(originals, i, i + 1);
}

/// How far a voice moves to a note is the interval from the note before it, where that one ended no
/// more than a quarter before, and nothing where it did not.
pub proof fn law_continuity(originals: Seq<Note>, i: int)
    requires
        0 <= i < originals.len(),
    ensures
        continuity_of(originals, i) >= 0,
        match predecessor(originals, i) {
            None => continuity_of(originals, i) == 0,
            Some(j) => {
                let before = originals[j as int];
                let note = originals[i];
                if before.off <= note.on && note.on <= before.off + 96 {
                    continuity_of(originals, i) == crate::clocks::distance(
                        before.pitch as int,
                        note.pitch as int,
                    )
                } else {
                    continuity_of(originals, i) == 0
                }
            },
        },
{
}

/// Whether nothing sounds in a part at a tick.
pub open spec fn is_silent(s: Stage, slot: int, tick: Tick) -> bool {
    s.slots[slot].len() == 0 || s.notes[s.slots[slot].last() as int].off <= tick
}

/// How a part stands with an attack: a leading one where nothing sounds comes first, one whose note
/// would give way second, another where nothing sounds third, and last a leading one whose note leads
/// the source.
pub open spec fn rank_of(s: Stage, originals: Seq<Note>, parts: int, tick: Tick, i: usize, slot: int, offer: Offer) -> int {
    if is_silent(s, slot, tick) {
        if slot < parts {
            0
        } else {
            2
        }
    } else if leads_source(originals, s.slots[slot].last() as int, i as int, offer.strong) {
        3
    } else {
        1
    }
}

proof fn lemma_offers(
    s: Stage,
    originals: Seq<Note>,
    tempos: Seq<Tempo>,
    parts: int,
    tick: Tick,
    handoff: Option<Handoff>,
    i: usize,
    offers: Seq<Offer>,
    n: int,
)
    requires
        0 <= n <= s.slots.len() <= usize::MAX,
    ensures
        forall|m: int|
            0 <= m < offers_of(s, originals, tempos, parts, tick, handoff, i, offers, n).len() ==> {
                let o = #[trigger] offers_of(s, originals, tempos, parts, tick, handoff, i, offers, n)[m];
                o.0 < n && offer_key(
                    s,
                    originals,
                    tempos,
                    parts,
                    tick,
                    handoff,
                    i,
                    o.0 as int,
                    offers[o.0 as int],
                ) == Some(o.1)
            },
        forall|slot: int|
            0 <= slot < n && offer_key(
                s,
                originals,
                tempos,
                parts,
                tick,
                handoff,
                i,
                slot,
                #[trigger] offers[slot],
            ) is Some ==> exists|m: int|
                0 <= m < offers_of(s, originals, tempos, parts, tick, handoff, i, offers, n).len()
                    && (#[trigger] offers_of(s, originals, tempos, parts, tick, handoff, i, offers, n)[m]).0
                    == slot,
    decreases n,
{
    if n > 0 {
        lemma_offers(s, originals, tempos, parts, tick, handoff, i, offers, n - 1);
        let before = offers_of(s, originals, tempos, parts, tick, handoff, i, offers, n - 1);
        let all = offers_of(s, originals, tempos, parts, tick, handoff, i, offers, n);
        assert forall|m: int| 0 <= m < all.len() implies {
            let o = #[trigger] all[m];
            o.0 < n && offer_key(
                s,
                originals,
                tempos,
                parts,
                tick,
                handoff,
                i,
                o.0 as int,
                offers[o.0 as int],
            ) == Some(o.1)
        } by {
            if m < before.len() {
                assert(all[m] == before[m]);
            }
        }
        assert forall|slot: int|
            0 <= slot < n && offer_key(
                s,
                originals,
                tempos,
                parts,
                tick,
                handoff,
                i,
                slot,
                #[trigger] offers[slot],
            ) is Some implies exists|m: int| 0 <= m < all.len() && (#[trigger] all[m]).0 == slot by {
            if slot < n - 1 {
                let m = choose|m: int| 0 <= m < before.len() && (#[trigger] before[m]).0 == slot;
                assert(all[m] == before[m]);
            } else {
                assert(all[all.len() - 1].0 == slot);
            }
        }
    }
}

/// An attack prefers parts by how they stand with it. It never takes one whose note has sounded for
/// less than a quarter of a beat, nor one that does not lead and sounds; and where there is no handoff
/// every leading part where nothing sounds is one that it may take, as long as the rest before the
/// attack and its note can be written there.
pub proof fn law_preferences(
    s: Stage,
    originals: Seq<Note>,
    tempos: Seq<Tempo>,
    parts: int,
    tick: Tick,
    handoff: Option<Handoff>,
    i: usize,
    offers: Seq<Offer>,
    x: int,
    y: int,
    slot: int,
)
    requires
        s.slots.len() <= usize::MAX,
        offers.len() == s.slots.len(),
        parts > 0,
        tick >= 0,
        0 <= x <= y < preferences(s, originals, tempos, parts, tick, handoff, i, offers).len(),
        0 <= slot < s.slots.len(),
    ensures
        ({
            let list = preferences(s, originals, tempos, parts, tick, handoff, i, offers);
            let a = list[x] as int;
            let b = list[y] as int;
            &&& a < s.slots.len() && b < s.slots.len()
            &&& rank_of(s, originals, parts, tick, i, a, offers[a]) <= rank_of(
                s,
                originals,
                parts,
                tick,
                i,
                b,
                offers[b],
            )
            &&& !is_silent(s, a, tick) ==> a < parts && tick - s.notes[s.slots[a].last() as int].on
                >= 24
        }),
        handoff is None && slot < parts && is_silent(s, slot, tick) && is_exact_span(
            tick,
            s.notes[i as int].off,
            carried(tempos, parts, slot),
        ) && is_exact_span(
            if s.slots[slot].len() == 0 {
                0
            } else {
                s.notes[s.slots[slot].last() as int].off
            },
            tick,
            carried(tempos, parts, slot),
        ) ==> preferences(s, originals, tempos, parts, tick, handoff, i, offers).contains(
            slot as usize,
        ),
{
    let n = s.slots.len() as int;
    let found = offers_of(s, originals, tempos, parts, tick, handoff, i, offers, n);
    let key = |o: (usize, Key)| o.1;
    let name = |o: (usize, Key)| o.0;
    let sorted = stable_sort(found, key);
    let list = preferences(s, originals, tempos, parts, tick, handoff, i, offers);
    lemma_stable_sort(found, key);
    lemma_offers(s, originals, tempos, parts, tick, handoff, i, offers, n);
    assert(list == sorted.map_values(name));
    assert(list[x] == sorted[x].0 && list[y] == sorted[y].0);
    assert(found.contains(sorted[x]) && found.contains(sorted[y]));
    let p = choose|m: int| 0 <= m < found.len() && found[m] == sorted[x];
    let q = choose|m: int| 0 <= m < found.len() && found[m] == sorted[y];
    assert(found[p].0 < n && found[q].0 < n);
    assert(!key_less(key(sorted[y]), key(sorted[x])));
    let free = offer_key(s, originals, tempos, parts, tick, handoff, i, slot, offers[slot]);
    if free is Some {
        let m = choose|m: int| 0 <= m < found.len() && (#[trigger] found[m]).0 == slot;
        assert(sorted.contains(found[m]));
        let k = choose|k: int| 0 <= k < sorted.len() && sorted[k] == found[m];
        assert(list[k] == slot as usize);
    }
}

} // verus!
