//! Which part a note goes to.
use crate::packing::{
    all_slots, blocks_next, continuing, goes_on, is_nearer, melody_from, narrowed, nearest_part,
    packed_in, passes, sifted, with_batch, with_continuing, with_homes, with_melody, with_others,
    Pack, PackError, Plan, Test,
};
use crate::score::Tick;
use vstd::prelude::*;

verus! {

/// Whether a plan and what has been put into parts belong together, and a note that begins at a tick
/// has no part yet.
pub open spec fn comes_next(plan: Plan, p: Pack, i: usize, tick: Tick) -> bool {
    let slots = plan.centre.len();
    &&& slots > 0
    &&& p.out.len() == slots && p.free_at.len() == slots && p.last.len() == slots
    &&& p.destination.len() == plan.notes.len()
    &&& plan.home.len() == plan.notes.len()
    &&& plan.included.len() == plan.notes.len()
    &&& plan.primary.len() == plan.notes.len()
    &&& i < plan.notes.len()
    &&& plan.notes[i as int].on == tick
    &&& p.destination[i as int] is None
    &&& plan.home[i as int] matches Some(home) && home < slots
    &&& forall|k: int|
        0 <= k < plan.notes.len() && (#[trigger] p.destination[k]) is Some ==> p.destination[k]->Some_0
            < slots
}

/// Whether a part is silent at a tick, for long enough that the rest before it can be written or with
/// none at all; a part without notes is silent from the start on.
pub open spec fn is_open(p: Pack, slot: int, tick: Tick) -> bool {
    &&& p.free_at[slot] <= tick
    &&& if p.last[slot] is Some {
        tick == p.free_at[slot] || tick >= p.free_at[slot] + 6
    } else {
        tick == 0 || tick >= 6
    }
}

/// Whether the melody begins no note while another note would sound.
pub open spec fn melody_rests(plan: Plan, i: int) -> bool {
    forall|k: int|
        0 <= k < plan.primary_lead.len() ==> {
            let on = plan.notes[(#[trigger] plan.primary_lead[k]) as int].on;
            on < plan.notes[i].on || on >= plan.notes[i].off
        }
}

/// Whether a note comes next in its voice behind another, within a quarter, and both are long enough
/// and kept.
pub open spec fn comes_behind(plan: Plan, i: int) -> bool {
    &&& 0 < i < plan.notes.len()
    &&& plan.included[i - 1] && plan.included[i]
    &&& plan.notes[i - 1].src == plan.notes[i].src
    &&& plan.notes[i - 1].off >= plan.notes[i - 1].on + 6
    &&& plan.notes[i].off >= plan.notes[i].on + 6
    &&& plan.notes[i].on <= plan.notes[i - 1].off + 96
}

/// Whether the last note of a part leaves it to be: no voice that still has to go on in it would be
/// cut off by a note.
pub open spec fn is_not_awaited(plan: Plan, p: Pack, slot: int, i: int) -> bool {
    p.last[slot] matches Some(last) ==> !({
        let next = last + 1;
        &&& next < plan.notes.len()
        &&& comes_behind(plan, next)
        &&& p.destination[next] is None
        &&& plan.notes[next].src != plan.notes[i].src
        &&& plan.notes[i].on <= plan.notes[next].on < plan.notes[i].off
    })
}

proof fn lemma_melody_rests(plan: Plan, i: int, k: int)
    requires
        melody_rests(plan, i),
        0 <= k <= plan.primary_lead.len(),
    ensures
        melody_from(plan, plan.notes[i].on as int, k) matches Some(on) ==> on >= plan.notes[i].off,
    decreases plan.primary_lead.len() - k,
{
    if k < plan.primary_lead.len() {
        let on = plan.notes[plan.primary_lead[k] as int].on;
        if on < plan.notes[i].on {
            lemma_melody_rests(plan, i, k + 1);
        }
    }
}

proof fn lemma_one(plan: Plan, p: Pack, i: usize, tick: Tick)
    requires
        comes_next(plan, p, i, tick),
    ensures
        ({
            let batch = seq![i];
            let t = tick as int;
            &&& with_melody(plan, p, batch, t, 1) == (if plan.primary[i as int] && is_open(p, 0, tick) {
                packed_in(p, plan.notes, i, 0)
            } else {
                p
            })
        }),
{
    reveal_with_fuel(with_melody, 2);
}

/// The melody goes into the first part wherever that is open.
pub proof fn law_melody_goes_first(plan: Plan, p: Pack, i: usize, tick: Tick)
    requires
        comes_next(plan, p, i, tick),
        plan.primary[i as int],
        is_open(p, 0, tick),
    ensures
        with_batch(plan, p, seq![i], tick) is Ok,
        with_batch(plan, p, seq![i], tick)->Ok_0.destination[i as int] == Some(0usize),
{
    lemma_one(plan, p, i, tick);
    let first = packed_in(p, plan.notes, i, 0);
    lemma_settled(plan, first, i, tick);
}

/// A note that has its part stays there.
proof fn lemma_settled(plan: Plan, p: Pack, i: usize, tick: Tick)
    requires
        i < p.destination.len(),
        p.destination[i as int] is Some,
    ensures
        ({
            let batch = seq![i];
            let behind = continuing(plan, p, batch, false, 1);
            let older = continuing(plan, p, batch, true, 1);
            let list = behind + older;
            let second = with_continuing(plan, p, list, tick as int, list.len() as int);
            &&& list.len() == 0
            &&& second == p
            &&& with_homes(plan, second, batch, tick as int, 1) == Ok::<Pack, PackError>(p)
            &&& with_others(plan, p, batch, tick, 1) == Ok::<Pack, PackError>(p)
        }),
{
    reveal_with_fuel(continuing, 2);
    reveal_with_fuel(with_homes, 2);
    reveal_with_fuel(with_others, 2);
    let batch = seq![i];
    assert(continuing(plan, p, batch, false, 1) =~= Seq::empty());
    assert(continuing(plan, p, batch, true, 1) =~= Seq::empty());
}

proof fn lemma_behind(plan: Plan, p: Pack, i: usize, tick: Tick)
    requires
        comes_next(plan, p, i, tick),
        i > 0,
    ensures
        goes_on(plan, i - 1) == comes_behind(plan, i as int),
        ({
            let batch = seq![i];
            let list = continuing(plan, p, batch, false, 1) + continuing(plan, p, batch, true, 1);
            if comes_behind(plan, i as int) && p.destination[i - 1] is Some {
                list == seq![(i, p.destination[i - 1]->Some_0)]
            } else {
                list == Seq::<(usize, usize)>::empty()
            }
        }),
{
    reveal_with_fuel(continuing, 2);
    let batch = seq![i];
    let a = continuing(plan, p, batch, false, 1);
    let b = continuing(plan, p, batch, true, 1);
    if comes_behind(plan, i as int) && p.destination[i - 1] is Some {
        assert(a + b =~= seq![(i, p.destination[i - 1]->Some_0)]);
    } else {
        assert(a + b =~= Seq::<(usize, usize)>::empty());
    }
}

/// A note that comes next in its voice stays in the part of the note before it, wherever that part is
/// open and, where it is the first one, the melody rests meanwhile.
pub proof fn law_voices_go_on(plan: Plan, p: Pack, i: usize, tick: Tick, slot: usize)
    requires
        comes_next(plan, p, i, tick),
        !plan.primary[i as int],
        comes_behind(plan, i as int),
        p.destination[i - 1] == Some(slot),
        is_open(p, slot as int, tick),
        slot != 0 || melody_rests(plan, i as int),
    ensures
        with_batch(plan, p, seq![i], tick) is Ok,
        with_batch(plan, p, seq![i], tick)->Ok_0.destination[i as int] == Some(slot),
{
    lemma_one(plan, p, i, tick);
    lemma_behind(plan, p, i, tick);
    if slot == 0 {
        lemma_melody_rests(plan, i as int, 0);
    }
    assert(p.destination[i - 1]->Some_0 < plan.centre.len());
    let batch = seq![i];
    let list = continuing(plan, p, batch, false, 1) + continuing(plan, p, batch, true, 1);
    assert(list == seq![(i, slot)]);
    reveal_with_fuel(with_continuing, 2);
    let second = packed_in(p, plan.notes, i, slot);
    assert(with_continuing(plan, p, list, tick as int, 1) == second);
    lemma_settled(plan, second, i, tick);
}

/// A note that begins a voice goes where it belongs, wherever that part is open, no voice that is to
/// go on in it would be cut off and, where it is the first one, the melody rests meanwhile.
pub proof fn law_notes_go_home(plan: Plan, p: Pack, i: usize, tick: Tick, home: usize)
    requires
        comes_next(plan, p, i, tick),
        !plan.primary[i as int],
        !comes_behind(plan, i as int) || p.destination[i - 1] is None,
        plan.home[i as int] == Some(home),
        is_open(p, home as int, tick),
        home != 0 || melody_rests(plan, i as int),
        is_not_awaited(plan, p, home as int, i as int),
    ensures
        with_batch(plan, p, seq![i], tick) is Ok,
        with_batch(plan, p, seq![i], tick)->Ok_0.destination[i as int] == Some(home),
{
    lemma_one(plan, p, i, tick);
    if home == 0 {
        lemma_melody_rests(plan, i as int, 0);
    }
    let batch = seq![i];
    let list = continuing(plan, p, batch, false, 1) + continuing(plan, p, batch, true, 1);
    if i > 0 {
        lemma_behind(plan, p, i, tick);
    } else {
        reveal_with_fuel(continuing, 2);
        assert(list =~= Seq::<(usize, usize)>::empty());
    }
    assert(with_continuing(plan, p, list, tick as int, 0) == p);
    reveal_with_fuel(with_homes, 2);
    let third = packed_in(p, plan.notes, i, home);
    assert(!blocks_next(plan, p, home as int, i as int));
    assert(with_homes(plan, p, batch, tick as int, 1) == Ok::<Pack, PackError>(third));
    lemma_settled(plan, third, i, tick);
}

proof fn lemma_sifted(plan: Plan, p: Pack, tick: int, i: int, test: Test, list: Seq<usize>, n: int, slot: usize)
    requires
        0 <= n <= list.len(),
    ensures
        sifted(plan, p, tick, i, test, list, n).contains(slot) <==> list.take(n).contains(slot)
            && passes(plan, p, tick, i, test, slot as int),
    decreases n,
{
    let all = sifted(plan, p, tick, i, test, list, n);
    let early = list.take(n);
    if n > 0 {
        lemma_sifted(plan, p, tick, i, test, list, n - 1, slot);
        let before = sifted(plan, p, tick, i, test, list, n - 1);
        let front = list.take(n - 1);
        if all.contains(slot) {
            let k = choose|k: int| 0 <= k < all.len() && all[k] == slot;
            if k < before.len() {
                assert(before[k] == slot);
                let m = choose|m: int| 0 <= m < front.len() && front[m] == slot;
                assert(early[m] == slot);
            } else {
                assert(early[n - 1] == slot);
            }
        }
        if early.contains(slot) && passes(plan, p, tick, i, test, slot as int) {
            let m = choose|m: int| 0 <= m < early.len() && early[m] == slot;
            if m < n - 1 {
                assert(front[m] == slot);
                let k = choose|k: int| 0 <= k < before.len() && before[k] == slot;
                assert(all[k] == slot);
            } else {
                assert(all[all.len() - 1] == slot);
            }
        }
    } else {
        assert(early.len() == 0);
    }
}

proof fn lemma_narrowed(plan: Plan, p: Pack, tick: int, i: int, test: Test, list: Seq<usize>, slot: usize)
    requires
        list.len() > 0,
    ensures
        narrowed(plan, p, tick, i, test, list).len() > 0,
        narrowed(plan, p, tick, i, test, list).contains(slot) ==> list.contains(slot),
        list.contains(slot) && passes(plan, p, tick, i, test, slot as int) ==> narrowed(
            plan,
            p,
            tick,
            i,
            test,
            list,
        ).contains(slot),
        forall|other: usize| #[trigger]
            list.contains(other) && passes(plan, p, tick, i, test, other as int) && narrowed(
                plan,
                p,
                tick,
                i,
                test,
                list,
            ).contains(slot) ==> passes(plan, p, tick, i, test, slot as int),
{
    let n = list.len() as int;
    assert(list.take(n) =~= list);
    lemma_sifted(plan, p, tick, i, test, list, n, slot);
    let found = sifted(plan, p, tick, i, test, list, n);
    assert forall|other: usize| #[trigger]
        list.contains(other) && passes(plan, p, tick, i, test, other as int) && narrowed(
            plan,
            p,
            tick,
            i,
            test,
            list,
        ).contains(slot) implies passes(plan, p, tick, i, test, slot as int) by {
        lemma_sifted(plan, p, tick, i, test, list, n, other);
        if found.len() == 0 {
            assert(!found.contains(other));
        }
    }
    if found.len() == 0 && list.contains(slot) && passes(plan, p, tick, i, test, slot as int) {
        assert(found.contains(slot));
    }
}

proof fn lemma_nearest(plan: Plan, p: Pack, i: int, list: Seq<usize>, n: int)
    requires
        1 <= n <= list.len(),
    ensures
        exists|k: int| 0 <= k < n && #[trigger] list[k] == nearest_part(plan, p, i, list, n),
    decreases n,
{
    if n > 1 {
        lemma_nearest(plan, p, i, list, n - 1);
        if is_nearer(
            plan,
            p,
            i,
            list[n - 1] as int,
            nearest_part(plan, p, i, list, n - 1) as int,
        ) {
            assert(list[n - 1] == nearest_part(plan, p, i, list, n));
        } else {
            let k = choose|k: int|
                0 <= k < n - 1 && #[trigger] list[k] == nearest_part(plan, p, i, list, n - 1);
            assert(list[k] == nearest_part(plan, p, i, list, n));
        }
    } else {
        assert(list[0] == nearest_part(plan, p, i, list, n));
    }
}

/// Whichever part a note goes to, nothing sounds there when it begins. It finds none exactly where
/// every part sounds, and it goes to one that is open wherever there is one.
pub proof fn law_parts_are_free(plan: Plan, p: Pack, i: usize, tick: Tick, other: usize)
    requires
        comes_next(plan, p, i, tick),
        other < plan.centre.len() <= usize::MAX,
    ensures
        match with_batch(plan, p, seq![i], tick) {
            Ok(q) => {
                &&& q.destination[i as int] matches Some(slot) && slot < plan.centre.len()
                    && p.free_at[slot as int] <= tick && (is_open(p, other as int, tick) ==> is_open(
                    p,
                    slot as int,
                    tick,
                ))
            },
            Err(e) => e == (PackError::Exceeds { tick }) && p.free_at[other as int] > tick,
        },
{
    lemma_one(plan, p, i, tick);
    let batch = seq![i];
    let t = tick as int;
    if plan.primary[i as int] && is_open(p, 0, tick) {
        lemma_settled(plan, packed_in(p, plan.notes, i, 0), i, tick);
    } else {
        let list = continuing(plan, p, batch, false, 1) + continuing(plan, p, batch, true, 1);
        if i > 0 {
            lemma_behind(plan, p, i, tick);
        } else {
            reveal_with_fuel(continuing, 2);
            assert(list =~= Seq::<(usize, usize)>::empty());
        }
        reveal_with_fuel(with_continuing, 2);
        reveal_with_fuel(with_homes, 2);
        reveal_with_fuel(with_others, 2);
        let second = with_continuing(plan, p, list, t, list.len() as int);
        if list.len() > 0 {
            assert(p.destination[i - 1]->Some_0 < plan.centre.len());
        }
        if second.destination[i as int] is Some {
            lemma_settled(plan, second, i, tick);
        } else {
            assert(second == p);
            let home = plan.home[i as int]->Some_0;
            let third = with_homes(plan, p, batch, t, 1)->Ok_0;
            if third.destination[i as int] is Some {
                lemma_settled(plan, third, i, tick);
            } else {
                assert(third == p);
                let slots = plan.centre.len() as int;
                let every = all_slots(slots);
                assert(every.take(slots) =~= every);
                let free = sifted(plan, p, t, i as int, Test::Free, every, slots);
                assert(every[other as int] == other);
                lemma_sifted(plan, p, t, i as int, Test::Free, every, slots, other);
                if free.len() > 0 {
                    let a = narrowed(plan, p, t, i as int, Test::Start, free);
                    let b = narrowed(plan, p, t, i as int, Test::Melody, a);
                    let c = narrowed(plan, p, t, i as int, Test::Next, b);
                    lemma_narrowed(plan, p, t, i as int, Test::Start, free, free[0]);
                    lemma_narrowed(plan, p, t, i as int, Test::Melody, a, free[0]);
                    lemma_narrowed(plan, p, t, i as int, Test::Next, b, free[0]);
                    let slot = nearest_part(plan, p, i as int, c, c.len() as int);
                    lemma_nearest(plan, p, i as int, c, c.len() as int);
                    let k = choose|k: int| 0 <= k < c.len() && #[trigger] c[k] == slot;
                    assert(c.contains(slot));
                    lemma_narrowed(plan, p, t, i as int, Test::Next, b, slot);
                    lemma_narrowed(plan, p, t, i as int, Test::Melody, a, slot);
                    lemma_narrowed(plan, p, t, i as int, Test::Start, free, slot);
                    lemma_sifted(plan, p, t, i as int, Test::Free, every, slots, slot);
                    assert(free.contains(slot));
                    let m = choose|m: int| 0 <= m < every.len() && every[m] == slot;
                    assert(slot < plan.centre.len());
                    assert(is_open(p, other as int, tick) ==> free.contains(other));
                }
            }
        }
    }
}

/// How far a pitch lies from the middle of a part, twice, and from its last note, as a fraction: what
/// stands above the number of pitches that the middle is taken of.
pub open spec fn away(plan: Plan, p: Pack, i: int, slot: int) -> int {
    let c = plan.centre[slot];
    let pitch = plan.notes[i].pitch as int;
    2 * crate::clocks::distance(c.sum as int, pitch * c.len) + (match p.last[slot] {
        Some(j) => c.len * crate::clocks::distance(plan.notes[j as int].pitch as int, pitch),
        None => 0,
    })
}

/// Of the parts that a note may go to it goes to the nearest: to none that is further from its pitch
/// than another.
pub proof fn law_nearest_part(plan: Plan, p: Pack, i: int, list: Seq<usize>, n: int, k: int)
    requires
        0 <= k < n <= list.len(),
        forall|m: int| 0 <= m < list.len() ==> (#[trigger] list[m]) < plan.centre.len(),
        forall|m: int| 0 <= m < plan.centre.len() ==> (#[trigger] plan.centre[m]).len > 0,
    ensures
        ({
            let slot = nearest_part(plan, p, i, list, n) as int;
            let other = list[k] as int;
            away(plan, p, i, slot) * plan.centre[other].len <= away(plan, p, i, other)
                * plan.centre[slot].len
        }),
    decreases n,
{
    let last = list[n - 1] as int;
    let other = list[k] as int;
    assert(list[n - 1] < plan.centre.len() && list[k] < plan.centre.len());
    assert(plan.centre[last].len > 0 && plan.centre[other].len > 0);
    lemma_away(plan, p, i, last);
    if n > 1 {
        let before = nearest_part(plan, p, i, list, n - 1) as int;
        lemma_nearest(plan, p, i, list, n - 1);
        assert(before < plan.centre.len());
        assert(plan.centre[before].len > 0);
        lemma_away(plan, p, i, before);
        law_nearest_part(plan, p, i, list, n - 1, if k < n - 1 {
            k
        } else {
            0
        });
        if is_nearer(plan, p, i, last, before) && k < n - 1 {
            crate::led::lemma_ratios(
                away(plan, p, i, last),
                plan.centre[last].len as int,
                away(plan, p, i, before),
                plan.centre[before].len as int,
                away(plan, p, i, other),
                plan.centre[other].len as int,
            );
        }
    }
}

proof fn lemma_away(plan: Plan, p: Pack, i: int, slot: int)
    ensures
        away(plan, p, i, slot) == crate::packing::farness(plan, p, i, slot),
{
    let c = plan.centre[slot];
    assert(c.len * 0 == 0) by (nonlinear_arith);
}

} // verus!
