//! Which notes the leading voices take, so that both they and the others have room.
use crate::network::{across, back, carries, cost_of, is_closed, is_flow, is_network, is_settled, is_way, law_tight_is_cheapest, leads, lemma_pushed, lemma_room_after, lemma_settled_tight, lemma_stuck, lemma_stuck_link, pushed, room, way_cost, way_from, way_to, Link};
use crate::order::{lemma_order_sorts, lemma_stable_sort, order, sorted_by, stable_sort, Key};
use crate::polyphony::{tick_key, voices};
use crate::score::{Note, Tick};
use crate::shortest::{amounts, are_shortest, arrives, listed, lists_ways, relaxed, shortest, Paths};
use vstd::prelude::*;

verus! {

/// Why no notes can be chosen.
#[derive(Clone, Copy, Debug, PartialEq, Eq, Structural)]
pub enum SelectError {
    /// There are not as many weights and marks as notes.
    Counts,
    /// There are no leading voices, or fewer voices than leading ones.
    Capacity,
    /// A note begins before the start or does not last.
    Interval,
    /// The notes weigh too much together.
    TooLarge,
    /// At a tick more notes sound than there are voices.
    Exceeds { tick: Tick },
}

/// No weight is greater than this.
pub const HEAVIEST: i64 = 1_000_000_000_000;

/// The weights and one have to stay below this together.
pub const WEIGHT_LIMIT: i128 = 1_152_921_504_606_846_975;

/// What a mark adds to the weight of a note: fifteen hundredths of its length, in
/// fractions of 1024, rounded.
pub open spec fn bonus(note: Note) -> int {
    let ticks: int = note.off - note.on;
    let tenths: int = (1536 * ticks + 5) / 10;
    if tenths < 1_000_000_000_000 {
        tenths
    } else {
        1_000_000_000_000
    }
}

/// What it is worth to choose a note.
pub open spec fn reward(note: Note, weight: i64, marked: bool) -> int {
    weight + (if marked {
        bonus(note)
    } else {
        0
    })
}

pub open spec fn rewards(notes: Seq<Note>, weights: Seq<i64>, marks: Seq<bool>) -> Seq<int> {
    Seq::new(notes.len(), |i: int| reward(notes[i], weights[i], marks[i]))
}

/// What the first of the chosen notes are worth together.
pub open spec fn worth(rewards: Seq<int>, chosen: Seq<bool>, n: int) -> int
    decreases n,
{
    if n <= 0 {
        0
    } else {
        worth(rewards, chosen, n - 1) + (if chosen[n - 1] {
            rewards[n - 1]
        } else {
            0
        })
    }
}

/// What the first notes are worth together.
pub open spec fn sum(rewards: Seq<int>, n: int) -> int
    decreases n,
{
    if n <= 0 {
        0
    } else {
        sum(rewards, n - 1) + rewards[n - 1]
    }
}

/// How many of the first notes that are chosen sound at a tick.
pub open spec fn chosen_voices(notes: Seq<Note>, chosen: Seq<bool>, t: int, n: int) -> int
    decreases n,
{
    if n <= 0 {
        0
    } else {
        chosen_voices(notes, chosen, t, n - 1) + (if chosen[n - 1] && notes[n - 1].on <= t
            < notes[n - 1].off {
            1int
        } else {
            0int
        })
    }
}

/// Whether a choice leaves room at a tick: as many voices lead as there may, and the others
/// have room too.
pub open spec fn has_room(notes: Seq<Note>, chosen: Seq<bool>, core: int, all: int, t: int) -> bool {
    let leading = chosen_voices(notes, chosen, t, notes.len() as int);
    leading <= core && voices(notes, t) - leading <= all - core
}

/// Whether a choice keeps to the room of the leading voices and of the others.
pub open spec fn is_choice(notes: Seq<Note>, chosen: Seq<bool>, core: int, all: int) -> bool {
    &&& chosen.len() == notes.len()
    &&& forall|t: int| #[trigger] has_room(notes, chosen, core, all, t)
}

pub open spec fn lasts(notes: Seq<Note>) -> bool {
    forall|i: int| 0 <= i < notes.len() ==> 0 <= (#[trigger] notes[i]).on < notes[i].off
}

/// Whether a tick is the first at which more notes sound than there are voices.
pub open spec fn first_excess(notes: Seq<Note>, all: int, tick: int) -> bool {
    voices(notes, tick) > all && forall|t: int| t < tick ==> #[trigger] voices(notes, t) <= all
}

/// Moments in order, none of them twice.
pub open spec fn ascends(times: Seq<Tick>) -> bool {
    forall|i: int, j: int|
        #![trigger times[i], times[j]]
        0 <= i < j < times.len() ==> times[i] < times[j]
}

/// The moments at which the notes begin and end.
fn timeline(notes: &[Note]) -> (times: Vec<Tick>)
    requires
        notes.len() <= usize::MAX / 8,
    ensures
        ascends(times@),
        times.len() <= 2 * notes.len(),
        forall|i: int|
            0 <= i < notes.len() ==> times@.contains((#[trigger] notes[i]).on) && times@.contains(
                notes[i].off,
            ),
        forall|k: int|
            0 <= k < times.len() ==> exists|i: int|
                0 <= i < notes.len() && ((#[trigger] notes[i]).on == #[trigger] times@[k]
                    || notes[i].off == times@[k]),
{
    let mut keys: Vec<Key> = Vec::new();
    let mut all: Vec<Tick> = Vec::new();
    let mut i: usize = 0;
    while i < notes.len()
        invariant
            i <= notes.len() <= usize::MAX / 8,
            all.len() == 2 * i,
            keys.len() == 2 * i,
            forall|k: int| 0 <= k < all.len() ==> #[trigger] keys[k] == tick_key(all[k]),
            forall|k: int| 0 <= k < i ==> all[2 * k] == (#[trigger] notes[k]).on && all[2 * k + 1] == notes[k].off,
            forall|k: int|
                0 <= k < all.len() ==> exists|i: int|
                    0 <= i < notes.len() && ((#[trigger] notes[i]).on == #[trigger] all@[k]
                        || notes[i].off == all@[k]),
        decreases notes.len() - i,
    {
        let ghost before = all@;
        all.push(notes[i].on);
        all.push(notes[i].off);
        keys.push((notes[i].on, 0, 0));
        keys.push((notes[i].off, 0, 0));
        proof {
            assert forall|k: int| 0 <= k < all.len() implies exists|i: int|
                0 <= i < notes.len() && ((#[trigger] notes[i]).on == #[trigger] all@[k]
                    || notes[i].off == all@[k]) by {
                if k < before.len() {
                    let q = choose|q: int|
                        0 <= q < notes.len() && ((#[trigger] notes[q]).on == before[k]
                            || notes[q].off == before[k]);
                    assert(notes[q].on == all@[k] || notes[q].off == all@[k]);
                } else {
                    assert(notes[i as int].on == all@[k] || notes[i as int].off == all@[k]);
                }
            }
        }
        i += 1;
    }
    let sequence = order(&keys);
    let ghost key = |t: Tick| tick_key(t);
    let ghost f = |i: usize| all@[i as int];
    let ghost sorted = stable_sort(all@, key);
    proof {
        lemma_order_sorts(all@, keys@, key);
        lemma_stable_sort(all@, key);
    }
    let mut times: Vec<Tick> = Vec::new();
    let mut i: usize = 0;
    while i < sequence.len()
        invariant
            i <= sequence.len() == all.len() == sorted.len(),
            all.len() == 2 * notes.len(),
            key == (|t: Tick| tick_key(t)),
            f == (|i: usize| all@[i as int]),
            sorted == sequence@.map_values(f),
            sorted_by(sorted, key),
            forall|k: int| 0 <= k < sequence.len() ==> (#[trigger] sequence[k]) < all.len(),
            forall|k: int|
                0 <= k < all.len() ==> exists|i: int|
                    0 <= i < notes.len() && ((#[trigger] notes[i]).on == #[trigger] all@[k]
                        || notes[i].off == all@[k]),
            times.len() <= i,
            ascends(times@),
            i > 0 ==> times.len() > 0 && times@.last() == sorted[i - 1],
            forall|k: int| 0 <= k < i ==> times@.contains(#[trigger] sorted[k]),
            forall|k: int|
                0 <= k < times.len() ==> exists|i: int|
                    0 <= i < notes.len() && ((#[trigger] notes[i]).on == #[trigger] times@[k]
                        || notes[i].off == times@[k]),
        decreases sequence.len() - i,
    {
        let tick = all[sequence[i]];
        let ghost before = times@;
        proof {
            assert(sorted[i as int] == tick);
            if i > 0 {
                assert(!crate::order::key_less(key(sorted[i as int]), key(sorted[i - 1])));
            }
        }
        if i == 0 || times[times.len() - 1] != tick {
            times.push(tick);
            proof {
                assert forall|a: int, b: int|
                    #![trigger times@[a], times@[b]]
                    0 <= a < b < times@.len() implies times@[a] < times@[b] by {
                    if b < before.len() {
                        assert(before[a] < before[b]);
                    } else if before.len() > 0 {
                        assert(a < before.len());
                        if a < before.len() - 1 {
                            assert(before[a] < before[before.len() - 1]);
                        }
                    }
                }
                assert(times@[before.len() as int] == tick);
                assert forall|k: int| 0 <= k < times.len() implies exists|i: int|
                    0 <= i < notes.len() && ((#[trigger] notes[i]).on == #[trigger] times@[k]
                        || notes[i].off == times@[k]) by {
                    if k < before.len() {
                        let q = choose|q: int|
                            0 <= q < notes.len() && ((#[trigger] notes[q]).on == before[k]
                                || notes[q].off == before[k]);
                        assert(notes[q].on == times@[k] || notes[q].off == times@[k]);
                    } else {
                        let x = sequence[i as int] as int;
                        let q = choose|q: int|
                            0 <= q < notes.len() && ((#[trigger] notes[q]).on == all@[x]
                                || notes[q].off == all@[x]);
                        assert(notes[q].on == times@[k] || notes[q].off == times@[k]);
                    }
                }
            }
        }
        proof {
            assert forall|k: int| 0 <= k < i + 1 implies times@.contains(#[trigger] sorted[k]) by {
                if k < i {
                    assert(before.contains(sorted[k]));
                    let q = choose|q: int| 0 <= q < before.len() && before[q] == sorted[k];
                    assert(times@[q] == sorted[k]);
                } else {
                    assert(times@[times@.len() - 1] == sorted[k]);
                }
            }
        }
        i += 1;
    }
    proof {
        assert forall|k: int| 0 <= k < notes.len() implies times@.contains((#[trigger] notes[k]).on)
            && times@.contains(notes[k].off) by {
            assert(all@[2 * k] == notes[k].on && all@[2 * k + 1] == notes[k].off);
            assert(sorted.contains(all@[2 * k]));
            assert(sorted.contains(all@[2 * k + 1]));
            let a = choose|a: int| 0 <= a < sorted.len() && sorted[a] == all@[2 * k];
            let b = choose|b: int| 0 <= b < sorted.len() && sorted[b] == all@[2 * k + 1];
            assert(times@.contains(sorted[a]));
            assert(times@.contains(sorted[b]));
        }
    }
    times
}

/// The place of a moment among moments in order.
fn place_of(times: &Vec<Tick>, tick: Tick) -> (i: usize)
    requires
        ascends(times@),
        times@.contains(tick),
    ensures
        i < times.len(),
        times@[i as int] == tick,
{
    let mut lo: usize = 0;
    let mut hi: usize = times.len();
    let ghost at = choose|at: int| 0 <= at < times.len() && times@[at] == tick;
    while lo < hi
        invariant
            lo <= at < hi <= times.len(),
            times@[at] == tick,
            ascends(times@),
        decreases hi - lo,
    {
        let middle: usize = lo + (hi - lo) / 2;
        if times[middle] == tick {
            return middle;
        }
        if times[middle] < tick {
            proof {
                if at <= middle {
                    if at < middle {
                        assert(times@[at] < times@[middle as int]);
                    }
                    assert(false);
                }
            }
            lo = middle + 1;
        } else {
            proof {
                if at >= middle {
                    if at > middle {
                        assert(times@[middle as int] < times@[at]);
                    }
                    assert(false);
                }
            }
            hi = middle;
        }
    }
    proof {
        assert(false);
    }
    0
}

/// The links of a choice: one for each note, and behind these one for each gap between
/// moments, for the leading voices that rest in it.
spec fn are_links(
    links: Seq<Link>,
    notes: Seq<Note>,
    rewards: Seq<int>,
    times: Seq<Tick>,
    core: int,
    all: int,
) -> bool {
    let n = notes.len();
    &&& times.len() >= 2
    &&& links.len() == n + times.len() - 1
    &&& forall|i: int| 0 <= i < n ==> is_note_link(#[trigger] links[i], notes[i], rewards[i], times)
    &&& forall|g: int|
        0 <= g < times.len() - 1 ==> is_rest_link(
            #[trigger] links[n + g],
            g,
            voices(notes, times[g] as int),
            core,
            all,
        )
}

spec fn is_note_link(link: Link, note: Note, reward: int, times: Seq<Tick>) -> bool {
    &&& link.from < link.to < times.len()
    &&& times[link.from as int] == note.on
    &&& times[link.to as int] == note.off
    &&& link.capacity == 1
    &&& link.cost == -reward
}

spec fn is_rest_link(link: Link, gap: int, active: int, core: int, all: int) -> bool {
    &&& link.from == gap
    &&& link.to == gap + 1
    &&& 0 <= active <= all
    &&& link.capacity == (if core < all - active {
        core
    } else {
        all - active
    })
    &&& link.cost == 0
}

/// The flow that belongs to a choice: one unit for each chosen note, and the rest of the
/// leading voices in each gap.
spec fn flow_of(notes: Seq<Note>, chosen: Seq<bool>, times: Seq<Tick>, core: int) -> Seq<int> {
    Seq::new(
        (notes.len() + times.len() - 1) as nat,
        |e: int|
            if e < notes.len() {
                if chosen[e] {
                    1int
                } else {
                    0int
                }
            } else {
                core - chosen_voices(
                    notes,
                    chosen,
                    times[e - notes.len()] as int,
                    notes.len() as int,
                )
            },
    )
}

/// A link of a note crosses a gap where the note sounds at the moment before it.
proof fn lemma_crosses(link: Link, note: Note, reward: int, times: Seq<Tick>, gap: int)
    requires
        ascends(times),
        is_note_link(link, note, reward, times),
        0 <= gap < times.len(),
    ensures
        (link.from <= gap < link.to) == (note.on <= times[gap] < note.off),
{
    if link.from < gap {
        assert(times[link.from as int] < times[gap]);
    }
    if gap < link.from {
        assert(times[gap] < times[link.from as int]);
    }
    if gap < link.to {
        assert(times[gap] < times[link.to as int]);
    }
    if link.to < gap {
        assert(times[link.to as int] < times[gap]);
    }
}

/// What a flow carries over the note links: the chosen notes that sound.
proof fn lemma_across_notes(
    links: Seq<Link>,
    notes: Seq<Note>,
    rewards: Seq<int>,
    times: Seq<Tick>,
    core: int,
    all: int,
    flow: Seq<int>,
    chosen: Seq<bool>,
    gap: int,
    n: int,
)
    requires
        ascends(times),
        are_links(links, notes, rewards, times, core, all),
        flow.len() == links.len(),
        chosen.len() == notes.len(),
        forall|e: int| 0 <= e < notes.len() ==> #[trigger] flow[e] == (if chosen[e] {
            1int
        } else {
            0int
        }),
        0 <= gap < times.len() - 1,
        0 <= n <= notes.len(),
    ensures
        across(links, flow, gap, n) == chosen_voices(notes, chosen, times[gap] as int, n),
    decreases n,
{
    if n > 0 {
        lemma_across_notes(
            links,
            notes,
            rewards,
            times,
            core,
            all,
            flow,
            chosen,
            gap,
            n - 1,
        );
        assert(is_note_link(links[n - 1], notes[n - 1], rewards[n - 1], times));
        lemma_crosses(links[n - 1], notes[n - 1], rewards[n - 1], times, gap);
        assert(flow[n - 1] == (if chosen[n - 1] {
            1int
        } else {
            0int
        }));
    }
}

/// Of the links of the gaps one crosses each gap.
proof fn lemma_across_rests(
    links: Seq<Link>,
    notes: Seq<Note>,
    rewards: Seq<int>,
    times: Seq<Tick>,
    core: int,
    all: int,
    flow: Seq<int>,
    gap: int,
    n: int,
)
    requires
        are_links(links, notes, rewards, times, core, all),
        flow.len() == links.len(),
        0 <= gap < times.len() - 1,
        notes.len() <= n <= links.len(),
    ensures
        across(links, flow, gap, n) == across(links, flow, gap, notes.len() as int) + (if notes.len()
            + gap < n {
            flow[notes.len() + gap]
        } else {
            0
        }),
    decreases n,
{
    if n > notes.len() {
        lemma_across_rests(links, notes, rewards, times, core, all, flow, gap, n - 1);
        let g = n - 1 - notes.len();
        assert(links[n - 1] == links[notes.len() + g]);
        assert(is_rest_link(
            links[notes.len() + g],
            g,
            voices(notes, times[g] as int),
            core,
            all,
        ));
    }
}

proof fn lemma_chosen_bounds(notes: Seq<Note>, chosen: Seq<bool>, t: int, n: int)
    requires
        0 <= n <= notes.len(),
    ensures
        0 <= chosen_voices(notes, chosen, t, n) <= n,
        chosen_voices(notes, chosen, t, n) <= voices(notes.take(n), t),
    decreases n,
{
    if n > 0 {
        lemma_chosen_bounds(notes, chosen, t, n - 1);
        assert(notes.take(n).drop_last() =~= notes.take(n - 1));
    }
}

proof fn lemma_all_chosen(notes: Seq<Note>, t: int, n: int)
    requires
        0 <= n <= notes.len(),
    ensures
        chosen_voices(notes, Seq::new(notes.len(), |i: int| true), t, n) == voices(notes.take(n), t),
    decreases n,
{
    if n > 0 {
        lemma_all_chosen(notes, t, n - 1);
        assert(notes.take(n).drop_last() =~= notes.take(n - 1));
    }
}

/// A choice makes a flow that carries the leading voices.
proof fn lemma_choice_flow(
    links: Seq<Link>,
    notes: Seq<Note>,
    rewards: Seq<int>,
    times: Seq<Tick>,
    core: int,
    all: int,
    chosen: Seq<bool>,
)
    requires
        ascends(times),
        are_links(links, notes, rewards, times, core, all),
        is_choice(notes, chosen, core, all),
        0 < core <= all,
    ensures
        is_flow(links, flow_of(notes, chosen, times, core)),
        carries(links, times.len() as int, flow_of(notes, chosen, times, core), core),
{
    let flow = flow_of(notes, chosen, times, core);
    let n = notes.len() as int;
    assert forall|e: int| 0 <= e < links.len() implies 0 <= #[trigger] flow[e]
        <= links[e].capacity by {
        if e < n {
            assert(is_note_link(links[e], notes[e], rewards[e], times));
        } else {
            let g = e - n;
            assert(links[n + g] == links[e]);
            assert(is_rest_link(links[n + g], g, voices(notes, times[g] as int), core, all));
            assert(has_room(notes, chosen, core, all, times[g] as int));
            lemma_chosen_bounds(notes, chosen, times[g] as int, n);
        }
    }
    assert forall|gap: int|
        0 <= gap < times.len() - 1 implies #[trigger] across(links, flow, gap, links.len() as int)
        == core by {
        lemma_across_rests(
            links,
            notes,
            rewards,
            times,
            core,
            all,
            flow,
            gap,
            links.len() as int,
        );
        lemma_across_notes(links, notes, rewards, times, core, all, flow, chosen, gap, n);
    }
}

/// The notes that a flow uses.
spec fn used(notes: Seq<Note>, flow: Seq<int>) -> Seq<bool> {
    Seq::new(notes.len(), |i: int| flow[i] == 1)
}

/// At a tick between two moments the same notes sound as at the first of them.
proof fn lemma_between(notes: Seq<Note>, chosen: Seq<bool>, times: Seq<Tick>, t: int, gap: int, n: int)
    requires
        ascends(times),
        0 <= gap < times.len() - 1,
        times[gap] <= t < times[gap + 1],
        0 <= n <= notes.len(),
        forall|i: int|
            0 <= i < notes.len() ==> times.contains((#[trigger] notes[i]).on) && times.contains(
                notes[i].off,
            ),
    ensures
        chosen_voices(notes, chosen, t, n) == chosen_voices(notes, chosen, times[gap] as int, n),
        voices(notes.take(n), t) == voices(notes.take(n), times[gap] as int),
    decreases n,
{
    if n > 0 {
        lemma_between(notes, chosen, times, t, gap, n - 1);
        assert(notes.take(n).drop_last() =~= notes.take(n - 1));
        let note = notes[n - 1];
        assert(times.contains(note.on) && times.contains(note.off));
        let a = choose|a: int| 0 <= a < times.len() && times[a] == note.on;
        let b = choose|b: int| 0 <= b < times.len() && times[b] == note.off;
        if a > gap {
            if a > gap + 1 {
                assert(times[gap + 1] < times[a]);
            }
        } else if a < gap {
            assert(times[a] < times[gap]);
        }
        if b > gap {
            if b > gap + 1 {
                assert(times[gap + 1] < times[b]);
            }
        } else if b < gap {
            assert(times[b] < times[gap]);
        }
    }
}

/// Before the first moment and from the last on nothing sounds.
proof fn lemma_outside(notes: Seq<Note>, chosen: Seq<bool>, times: Seq<Tick>, t: int, n: int)
    requires
        ascends(times),
        times.len() >= 1,
        t < times[0] || t >= times[times.len() - 1],
        0 <= n <= notes.len(),
        forall|i: int|
            0 <= i < notes.len() ==> times.contains((#[trigger] notes[i]).on) && times.contains(
                notes[i].off,
            ),
    ensures
        chosen_voices(notes, chosen, t, n) == 0,
        voices(notes.take(n), t) == 0,
    decreases n,
{
    if n > 0 {
        lemma_outside(notes, chosen, times, t, n - 1);
        assert(notes.take(n).drop_last() =~= notes.take(n - 1));
        let note = notes[n - 1];
        assert(times.contains(note.on) && times.contains(note.off));
        let a = choose|a: int| 0 <= a < times.len() && times[a] == note.on;
        let b = choose|b: int| 0 <= b < times.len() && times[b] == note.off;
        if a > 0 {
            assert(times[0] < times[a]);
        }
        if b < times.len() - 1 {
            assert(times[b] < times[times.len() - 1]);
        }
    }
}

proof fn lemma_gap_of(times: Seq<Tick>, t: int, n: int) -> (gap: int)
    requires
        ascends(times),
        2 <= n <= times.len(),
        times[0] <= t < times[n - 1],
    ensures
        0 <= gap < n - 1,
        times[gap] <= t < times[gap + 1],
    decreases n,
{
    if n == 2 || times[n - 2] <= t {
        n - 2
    } else {
        lemma_gap_of(times, t, n - 1)
    }
}

/// A flow that carries the leading voices makes a choice.
proof fn lemma_flow_choice(
    links: Seq<Link>,
    notes: Seq<Note>,
    rewards: Seq<int>,
    times: Seq<Tick>,
    core: int,
    all: int,
    flow: Seq<int>,
)
    requires
        ascends(times),
        are_links(links, notes, rewards, times, core, all),
        is_flow(links, flow),
        carries(links, times.len() as int, flow, core),
        0 < core <= all,
        forall|i: int|
            0 <= i < notes.len() ==> times.contains((#[trigger] notes[i]).on) && times.contains(
                notes[i].off,
            ),
    ensures
        is_choice(notes, used(notes, flow), core, all),
{
    let chosen = used(notes, flow);
    let n = notes.len() as int;
    assert(notes.take(n) =~= notes);
    assert forall|e: int| 0 <= e < n implies #[trigger] flow[e] == (if chosen[e] {
        1int
    } else {
        0int
    }) by {
        assert(is_note_link(links[e], notes[e], rewards[e], times));
    }
    assert forall|t: int| #[trigger] has_room(notes, chosen, core, all, t) by {
        if t < times[0] || t >= times[times.len() - 1] {
            lemma_outside(notes, chosen, times, t, n);
        } else {
            let gap = lemma_gap_of(times, t, times.len() as int);
            lemma_between(notes, chosen, times, t, gap, n);
            lemma_across_rests(
                links,
                notes,
                rewards,
                times,
                core,
                all,
                flow,
                gap,
                links.len() as int,
            );
            lemma_across_notes(links, notes, rewards, times, core, all, flow, chosen, gap, n);
            assert(across(links, flow, gap, links.len() as int) == core);
            assert(is_rest_link(
                links[n + gap],
                gap,
                voices(notes, times[gap] as int),
                core,
                all,
            ));
            assert(0 <= flow[n + gap] <= links[n + gap].capacity);
        }
    }
}

/// What a flow costs is what the notes that it uses are worth, with the sign turned.
proof fn lemma_cost_worth(
    links: Seq<Link>,
    notes: Seq<Note>,
    rewards: Seq<int>,
    times: Seq<Tick>,
    core: int,
    all: int,
    flow: Seq<int>,
    chosen: Seq<bool>,
    n: int,
)
    requires
        are_links(links, notes, rewards, times, core, all),
        flow.len() == links.len(),
        chosen.len() == notes.len(),
        forall|e: int| 0 <= e < notes.len() ==> #[trigger] flow[e] == (if chosen[e] {
            1int
        } else {
            0int
        }),
        0 <= n <= links.len(),
    ensures
        cost_of(links, flow, n) == -worth(
            rewards,
            chosen,
            if n < notes.len() {
                n
            } else {
                notes.len() as int
            },
        ),
    decreases n,
{
    if n > 0 {
        lemma_cost_worth(links, notes, rewards, times, core, all, flow, chosen, n - 1);
        if n <= notes.len() {
            assert(is_note_link(links[n - 1], notes[n - 1], rewards[n - 1], times));
            let f = flow[n - 1];
            let c = links[n - 1].cost as int;
            assert(f * c == (if f == 1 {
                c
            } else {
                0
            })) by (nonlinear_arith)
                requires
                    f == 0 || f == 1,
            ;
        } else {
            let g = n - 1 - notes.len();
            assert(links[n - 1] == links[notes.len() + g]);
            assert(is_rest_link(
                links[notes.len() + g],
                g,
                voices(notes, times[g] as int),
                core,
                all,
            ));
            let f = flow[n - 1];
            let c = links[n - 1].cost as int;
            assert(f * c == 0) by (nonlinear_arith)
                requires
                    c == 0,
            ;
        }
    }
}

/// No choice is worth more than one whose flow gains nowhere.
proof fn lemma_best(
    links: Seq<Link>,
    notes: Seq<Note>,
    rewards: Seq<int>,
    times: Seq<Tick>,
    core: int,
    all: int,
    flow: Seq<int>,
    heights: Seq<int>,
    other: Seq<bool>,
)
    requires
        ascends(times),
        are_links(links, notes, rewards, times, core, all),
        is_flow(links, flow),
        carries(links, times.len() as int, flow, core),
        0 < core <= all,
        heights.len() == times.len(),
        is_settled(links, flow, heights),
        is_choice(notes, other, core, all),
    ensures
        worth(rewards, other, notes.len() as int) <= worth(
            rewards,
            used(notes, flow),
            notes.len() as int,
        ),
{
    let chosen = used(notes, flow);
    let n = notes.len() as int;
    assert forall|e: int| 0 <= e < n implies #[trigger] flow[e] == (if chosen[e] {
        1int
    } else {
        0int
    }) by {
        assert(is_note_link(links[e], notes[e], rewards[e], times));
    }
    lemma_leads(links, notes, rewards, times, core, all);
    lemma_settled_tight(links, flow, heights);
    lemma_choice_flow(links, notes, rewards, times, core, all, other);
    let theirs = flow_of(notes, other, times, core);
    law_tight_is_cheapest(links, times.len() as int, flow, theirs, heights, core);
    lemma_cost_worth(
        links,
        notes,
        rewards,
        times,
        core,
        all,
        flow,
        chosen,
        links.len() as int,
    );
    lemma_cost_worth(
        links,
        notes,
        rewards,
        times,
        core,
        all,
        theirs,
        other,
        links.len() as int,
    );
}

proof fn lemma_leads(
    links: Seq<Link>,
    notes: Seq<Note>,
    rewards: Seq<int>,
    times: Seq<Tick>,
    core: int,
    all: int,
)
    requires
        are_links(links, notes, rewards, times, core, all),
    ensures
        forall|e: int| 0 <= e < links.len() ==> (#[trigger] links[e]).from < links[e].to < times.len(),
{
    assert forall|e: int| 0 <= e < links.len() implies (#[trigger] links[e]).from < links[e].to
        < times.len() by {
        if e < notes.len() {
            assert(is_note_link(links[e], notes[e], rewards[e], times));
        } else {
            let g = e - notes.len();
            assert(links[notes.len() + g] == links[e]);
            assert(is_rest_link(
                links[notes.len() + g],
                g,
                voices(notes, times[g] as int),
                core,
                all,
            ));
        }
    }
}

/// As long as not all leading voices are carried one more can be.
proof fn lemma_never_stuck(
    links: Seq<Link>,
    notes: Seq<Note>,
    rewards: Seq<int>,
    times: Seq<Tick>,
    core: int,
    all: int,
    flow: Seq<int>,
    marks: Seq<bool>,
    amount: int,
)
    requires
        ascends(times),
        are_links(links, notes, rewards, times, core, all),
        is_flow(links, flow),
        carries(links, times.len() as int, flow, amount),
        0 < core <= all,
        amount < core,
        marks.len() == times.len(),
        marks[0],
        is_closed(links, flow, marks),
    ensures
        marks[times.len() - 1],
{
    if !marks[times.len() - 1] {
        let n = notes.len() as int;
        let nodes = times.len() as int;
        lemma_leads(links, notes, rewards, times, core, all);
        let everything = Seq::new(notes.len(), |i: int| true);
        let full = Seq::new(
            links.len(),
            |e: int|
                if e < n {
                    1int
                } else {
                    all - voices(notes, times[e - n] as int)
                },
        );
        assert forall|gap: int|
            0 <= gap < nodes - 1 implies #[trigger] across(links, full, gap, links.len() as int)
            == all by {
            lemma_across_rests(
                links,
                notes,
                rewards,
                times,
                core,
                all,
                full,
                gap,
                links.len() as int,
            );
            lemma_across_notes(links, notes, rewards, times, core, all, full, everything, gap, n);
            lemma_all_chosen(notes, times[gap] as int, n);
            assert(notes.take(n) =~= notes);
        }
        assert forall|e: int| 0 <= e < links.len() implies 0 <= #[trigger] full[e] && (
        marks[links[e].from as int] && !marks[links[e].to as int] ==> full[e]
            <= links[e].capacity) by {
            if e < n {
                assert(is_note_link(links[e], notes[e], rewards[e], times));
            } else {
                let g = e - n;
                assert(links[n + g] == links[e]);
                assert(is_rest_link(links[n + g], g, voices(notes, times[g] as int), core, all));
                if marks[links[e].from as int] && !marks[links[e].to as int] && full[e]
                    > links[e].capacity {
                    lemma_stuck_link(links, nodes, flow, marks, amount, e);
                    assert(false);
                }
            }
        }
        lemma_stuck(links, nodes, flow, marks, amount, full, all);
    }
}

/// The ways that lead on from each moment.
fn ways_of(links: &Vec<Link>, nodes: usize, Ghost(bound): Ghost<int>) -> (adjacent: Vec<Vec<usize>>)
    requires
        is_network(links@, nodes as int, bound),
        2 * links.len() <= usize::MAX,
    ensures
        lists_ways(adjacent@, links@, nodes as int),
{
    let mut adjacent: Vec<Vec<usize>> = Vec::new();
    let mut i: usize = 0;
    while i < nodes
        invariant
            i <= nodes,
            adjacent.len() == i,
            forall|x: int| 0 <= x < i ==> (#[trigger] adjacent[x]).len() == 0,
        decreases nodes - i,
    {
        adjacent.push(Vec::new());
        i += 1;
    }
    let mut e: usize = 0;
    while e < links.len()
        invariant
            e <= links.len(),
            is_network(links@, nodes as int, bound),
            2 * links.len() <= usize::MAX,
            adjacent.len() == nodes,
            forall|x: int, k: int|
                #![trigger adjacent[x]@[k]]
                0 <= x < nodes && 0 <= k < adjacent[x].len() ==> is_way(
                    links@,
                    adjacent[x]@[k] as int,
                ) && way_from(links@, adjacent[x]@[k] as int) == x,
            forall|way: int|
                0 <= way < 2 * e ==> #[trigger] listed(adjacent@, way_from(links@, way), way),
        decreases links.len() - e,
    {
        let link = links[e];
        proof {
            assert(leads(links@[e as int], nodes as int, bound));
            assert((2 * e) % 2 == 0 && (2 * e) / 2 == e as int);
            assert((2 * e + 1) % 2 == 1 && (2 * e + 1) / 2 == e as int);
        }
        let ghost before = adjacent@;
        let onward: usize = 2 * e;
        let backward: usize = 2 * e + 1;
        adjacent[link.from].push(onward);
        let ghost middle = adjacent@;
        adjacent[link.to].push(backward);
        proof {
            let from = link.from as int;
            let to = link.to as int;
            assert forall|x: int, k: int|
                #![trigger adjacent[x]@[k]]
                0 <= x < nodes && 0 <= k < adjacent[x].len() implies is_way(
                links@,
                adjacent[x]@[k] as int,
            ) && way_from(links@, adjacent[x]@[k] as int) == x by {
                if k < before[x].len() {
                    assert(adjacent[x]@[k] == before[x]@[k]);
                }
            }
            assert forall|way: int| 0 <= way < 2 * (e + 1) implies #[trigger] listed(
                adjacent@,
                way_from(links@, way),
                way,
            ) by {
                let x = way_from(links@, way);
                if way < 2 * e {
                    assert(listed(before, x, way));
                    let k = choose|k: int|
                        0 <= k < before[x].len() && #[trigger] before[x]@[k] == way;
                    assert(adjacent@[x]@[k] == way);
                } else if way == 2 * e {
                    assert(x == from);
                    let k = before[from].len() as int;
                    assert(adjacent@[from]@[k] == way);
                } else {
                    assert(x == to);
                    let k = before[to].len() as int;
                    assert(adjacent@[to]@[k] == way);
                }
            }
        }
        e += 1;
    }
    adjacent
}

/// Whether a moment that was reached tells the ways on.
spec fn passes_on(links: Seq<Link>, potentials: Seq<i128>, reached: Seq<bool>, e: int) -> bool {
    links[e].capacity > 0 && reached[links[e].from as int] ==> reached[links[e].to as int]
        && potentials[links[e].to as int] <= potentials[links[e].from as int] + links[e].cost
}

/// Whether the reach and the cost of the moments is told so far.
spec fn told(links: Seq<Link>, nodes: int, bound: int, potentials: Seq<i128>, reached: Seq<bool>) -> bool {
    &&& potentials.len() == nodes
    &&& reached.len() == nodes
    &&& reached[0]
    &&& potentials[0] == 0
    &&& forall|x: int|
        0 <= x < nodes ==> -x * bound <= #[trigger] potentials[x] <= 0
}

/// The least that it costs to reach each moment before anything flows, and whether it can
/// be reached at all.
#[verifier::rlimit(60)]
fn first_potentials(
    links: &Vec<Link>,
    adjacent: &Vec<Vec<usize>>,
    nodes: usize,
    Ghost(bound): Ghost<int>,
) -> (r: (Vec<i128>, Vec<bool>))
    requires
        is_network(links@, nodes as int, bound),
        bound <= 0x1_0000_0000_0000,
        forall|e: int| 0 <= e < links.len() ==> (#[trigger] links@[e]).cost <= 0,
        lists_ways(adjacent@, links@, nodes as int),
    ensures
        told(links@, nodes as int, bound, r.0@, r.1@),
        forall|e: int| 0 <= e < links.len() ==> #[trigger] passes_on(links@, r.0@, r.1@, e),
{
    let mut potentials: Vec<i128> = Vec::new();
    let mut reached: Vec<bool> = Vec::new();
    let mut i: usize = 0;
    while i < nodes
        invariant
            i <= nodes,
            potentials.len() == i,
            reached.len() == i,
            forall|x: int| 0 <= x < i ==> #[trigger] potentials[x] == 0,
            forall|x: int| 0 <= x < i ==> #[trigger] reached[x] == (x == 0),
        decreases nodes - i,
    {
        potentials.push(0);
        reached.push(i == 0);
        i += 1;
    }
    proof {
        assert forall|x: int| 0 <= x < nodes implies -x * bound <= #[trigger] potentials@[x] <= 0 by {
            assert(-x * bound <= 0) by (nonlinear_arith)
                requires
                    x >= 0,
                    bound >= 0,
            ;
        }
    }
    let mut from: usize = 0;
    while from < nodes
        invariant
            from <= nodes,
            is_network(links@, nodes as int, bound),
            bound <= 0x1_0000_0000_0000,
            forall|e: int| 0 <= e < links.len() ==> (#[trigger] links@[e]).cost <= 0,
            lists_ways(adjacent@, links@, nodes as int),
            told(links@, nodes as int, bound, potentials@, reached@),
            forall|e: int|
                0 <= e < links.len() && (#[trigger] links@[e]).from < from ==> passes_on(
                    links@,
                    potentials@,
                    reached@,
                    e,
                ),
        decreases nodes - from,
    {
        if reached[from] {
            let ways = &adjacent[from];
            let mut k: usize = 0;
            while k < ways.len()
                invariant
                    k <= ways.len(),
                    from < nodes,
                    ways@ == adjacent@[from as int]@,
                    reached@[from as int],
                    is_network(links@, nodes as int, bound),
                    bound <= 0x1_0000_0000_0000,
                    forall|e: int| 0 <= e < links.len() ==> (#[trigger] links@[e]).cost <= 0,
                    lists_ways(adjacent@, links@, nodes as int),
                    told(links@, nodes as int, bound, potentials@, reached@),
                    forall|e: int|
                        0 <= e < links.len() && (#[trigger] links@[e]).from < from ==> passes_on(
                            links@,
                            potentials@,
                            reached@,
                            e,
                        ),
                    forall|j: int|
                        0 <= j < k && (#[trigger] ways@[j]) % 2 == 0 ==> passes_on(
                            links@,
                            potentials@,
                            reached@,
                            ways@[j] as int / 2,
                        ),
                decreases ways.len() - k,
            {
                let way = ways[k];
                proof {
                    assert(adjacent@[from as int]@[k as int] == way);
                    assert(is_way(links@, way as int) && way_from(links@, way as int) == from);
                }
                let link = links[way / 2];
                proof {
                    assert(leads(links@[way as int / 2], nodes as int, bound));
                    assert(links@[way as int / 2].cost <= 0);
                }
                if way % 2 == 0 && link.capacity > 0 {
                    proof {
                        assert(-from * bound <= potentials@[from as int]);
                        assert(-from * bound >= -(0x1_0000_0000_0000_0000 * 0x1_0000_0000_0000))
                            by (nonlinear_arith)
                            requires
                                0 <= from < 0x1_0000_0000_0000_0000,
                                0 <= bound <= 0x1_0000_0000_0000,
                        ;
                    }
                    let next: i128 = potentials[from] + link.cost;
                    let to = link.to;
                    let ghost old_potentials = potentials@;
                    let ghost old_reached = reached@;
                    if !reached[to] || next < potentials[to] {
                        potentials.set(to, next);
                        reached.set(to, true);
                        proof {
                            assert(-(to as int) * bound <= next) by (nonlinear_arith)
                                requires
                                    to > from,
                                    bound >= 0,
                                    next >= -(from as int) * bound - bound,
                            ;
                        }
                    }
                    proof {
                        assert forall|e: int|
                            0 <= e < links.len() && (#[trigger] links@[e]).from < from implies passes_on(
                            links@,
                            potentials@,
                            reached@,
                            e,
                        ) by {
                            assert(passes_on(links@, old_potentials, old_reached, e));
                            assert(leads(links@[e], nodes as int, bound));
                        }
                        assert forall|j: int|
                            0 <= j < k + 1 && (#[trigger] ways@[j]) % 2 == 0 implies passes_on(
                            links@,
                            potentials@,
                            reached@,
                            ways@[j] as int / 2,
                        ) by {
                            assert(adjacent@[from as int]@[j] == ways@[j]);
                            let e = ways@[j] as int / 2;
                            assert(leads(links@[e], nodes as int, bound));
                            if j < k {
                                assert(passes_on(links@, old_potentials, old_reached, e));
                            }
                        }
                    }
                }
                k += 1;
            }
            proof {
                assert forall|e: int|
                    0 <= e < links.len() && (#[trigger] links@[e]).from < from + 1 implies passes_on(
                    links@,
                    potentials@,
                    reached@,
                    e,
                ) by {
                    if links@[e].from == from {
                        assert((2 * e) % 2 == 0 && (2 * e) / 2 == e);
                        assert(is_way(links@, 2 * e));
                        assert(way_from(links@, 2 * e) == from);
                        assert(listed(adjacent@, way_from(links@, 2 * e), 2 * e));
                        let j = choose|j: int|
                            0 <= j < adjacent@[from as int].len()
                                && #[trigger] adjacent@[from as int]@[j] == 2 * e;
                        assert(ways@[j] == 2 * e);
                        assert(passes_on(links@, potentials@, reached@, ways@[j] as int / 2));
                    }
                }
            }
        }
        from += 1;
    }
    proof {
        assert forall|e: int| 0 <= e < links.len() implies #[trigger] passes_on(
            links@,
            potentials@,
            reached@,
            e,
        ) by {
            assert(leads(links@[e], nodes as int, bound));
            assert(links@[e].from < from);
        }
    }
    (potentials, reached)
}

/// Heights at which no way gains before anything flows: the least costs, and where a moment
/// cannot be reached more than any way could gain.
spec fn first_heights(nodes: int, bound: int, potentials: Seq<i128>, reached: Seq<bool>) -> Seq<int> {
    Seq::new(
        nodes as nat,
        |x: int|
            if reached[x] {
                potentials[x] as int
            } else {
                bound * (nodes - x)
            },
    )
}

proof fn lemma_first_heights(links: Seq<Link>, nodes: int, bound: int, potentials: Seq<i128>, reached: Seq<bool>, flow: Seq<int>)
    requires
        is_network(links, nodes, bound),
        told(links, nodes, bound, potentials, reached),
        forall|e: int| 0 <= e < links.len() ==> #[trigger] passes_on(links, potentials, reached, e),
        flow == Seq::new(links.len(), |e: int| 0int),
    ensures
        is_settled(links, flow, first_heights(nodes, bound, potentials, reached)),
        is_closed(links, flow, reached),
{
    let h = first_heights(nodes, bound, potentials, reached);
    assert forall|way: int|
        is_way(links, way) && #[trigger] room(links, flow, way) > 0 implies way_cost(
        links,
        h,
        way,
    ) >= 0 && (reached[way_from(links, way)] ==> reached[way_to(links, way)]) by {
        let e = way / 2;
        assert(flow[e] == 0);
        assert(way % 2 == 0);
        let link = links[e];
        assert(leads(link, nodes, bound));
        assert(passes_on(links, potentials, reached, e));
        let from = link.from as int;
        let to = link.to as int;
        assert(-to * bound <= potentials[to] <= 0);
        if !reached[from] {
            assert(bound * (nodes - from) >= bound) by (nonlinear_arith)
                requires
                    bound >= 0,
                    nodes - from >= 1,
            ;
            assert(bound * (nodes - from) >= bound * (nodes - to) + bound) by (nonlinear_arith)
                requires
                    bound >= 0,
                    to >= from + 1,
            ;
        }
    }
    assert forall|way: int|
        is_way(links, way) && #[trigger] room(links, flow, way) > 0 && reached[way_from(
            links,
            way,
        )] implies reached[way_to(links, way)] by {
        assert(way_cost(links, h, way) >= 0);
    }
}

/// Whether a way is as cheap as the distances tell.
spec fn is_exact(links: Seq<Link>, heights: Seq<int>, reached: Seq<bool>, distance: Seq<i128>, way: int) -> bool {
    &&& reached[way_from(links, way)]
    &&& reached[way_to(links, way)]
    &&& distance[way_to(links, way)] == distance[way_from(links, way)] + way_cost(
        links,
        heights,
        way,
    )
}

/// Every way with room had room before, or leads back along one that is as cheap as the
/// distances tell.
spec fn is_led(
    links: Seq<Link>,
    before: Seq<int>,
    now: Seq<int>,
    heights: Seq<int>,
    reached: Seq<bool>,
    distance: Seq<i128>,
) -> bool {
    forall|way: int|
        is_way(links, way) && #[trigger] room(links, now, way) > 0 ==> room(links, before, way) > 0
            || is_exact(links, heights, reached, distance, back(way))
}

/// Leads one more unit along the cheapest way to the last moment.
#[verifier::rlimit(60)]
fn lead(
    links: &Vec<Link>,
    flow: &mut Vec<usize>,
    paths: &Paths,
    nodes: usize,
    Ghost(heights): Ghost<Seq<int>>,
    Ghost(rank): Ghost<Seq<int>>,
    Ghost(bound): Ghost<int>,
    Ghost(amount): Ghost<int>,
)
    requires
        is_network(links@, nodes as int, bound),
        is_flow(links@, amounts(old(flow)@)),
        are_shortest(links@, nodes as int, amounts(old(flow)@), heights, *paths, rank, bound),
        carries(links@, nodes as int, amounts(old(flow)@), amount),
        paths.reached@[nodes - 1],
    ensures
        is_flow(links@, amounts(final(flow)@)),
        carries(links@, nodes as int, amounts(final(flow)@), amount + 1),
        is_led(
            links@,
            amounts(old(flow)@),
            amounts(final(flow)@),
            heights,
            paths.reached@,
            paths.distance@,
        ),
{
    let ghost first = amounts(flow@);
    let mut to: usize = nodes - 1;
    while to != 0
        invariant
            to < nodes,
            first == amounts(old(flow)@),
            is_network(links@, nodes as int, bound),
            is_flow(links@, first),
            is_flow(links@, amounts(flow@)),
            are_shortest(links@, nodes as int, first, heights, *paths, rank, bound),
            carries(links@, nodes as int, first, amount),
            paths.reached@[to as int],
            forall|gap: int|
                0 <= gap < nodes - 1 ==> #[trigger] across(
                    links@,
                    amounts(flow@),
                    gap,
                    links.len() as int,
                ) == (if gap >= to {
                    amount + 1
                } else {
                    amount
                }),
            forall|y: int|
                0 < y < nodes && #[trigger] paths.reached@[y] && rank[y] <= rank[to as int] ==> room(
                    links@,
                    amounts(flow@),
                    paths.previous@[y] as int,
                ) > 0,
            is_led(
                links@,
                first,
                amounts(flow@),
                heights,
                paths.reached@,
                paths.distance@,
            ),
        decreases rank[to as int],
    {
        let way = paths.previous[to];
        let e: usize = way / 2;
        let ghost now = amounts(flow@);
        let ghost w = way as int;
        proof {
            assert(arrives(
                links@,
                first,
                heights,
                paths.reached@,
                paths.distance@,
                paths.previous@,
                rank,
                to as int,
            ));
            assert(leads(links@[e as int], nodes as int, bound));
            assert(room(links@, now, w) > 0);
            assert(0 <= now[e as int] <= links@[e as int].capacity);
            assert(now[e as int] == flow@[e as int]);
        }
        let from: usize = if way % 2 == 0 {
            let more: usize = flow[e] + 1;
            flow.set(e, more);
            links[e].from
        } else {
            let less: usize = flow[e] - 1;
            flow.set(e, less);
            links[e].to
        };
        proof {
            assert(amounts(flow@) =~= pushed(now, w));
            assert forall|gap: int| 0 <= gap < nodes - 1 implies #[trigger] across(
                links@,
                amounts(flow@),
                gap,
                links.len() as int,
            ) == (if gap >= from {
                amount + 1
            } else {
                amount
            }) by {
                lemma_pushed(links@, now, w, gap);
                assert(across(links@, now, gap, links.len() as int) == (if gap >= to {
                    amount + 1
                } else {
                    amount
                }));
            }
            lemma_pushed(links@, now, w, 0);
            assert forall|y: int|
                0 < y < nodes && #[trigger] paths.reached@[y] && rank[y] <= rank[from as int] implies room(
                links@,
                amounts(flow@),
                paths.previous@[y] as int,
            ) > 0 by {
                let other = paths.previous@[y] as int;
                assert(arrives(
                    links@,
                    first,
                    heights,
                    paths.reached@,
                    paths.distance@,
                    paths.previous@,
                    rank,
                    y,
                ));
                assert(room(links@, now, other) > 0);
                lemma_room_after(links@, now, w, other);
                if other == w {
                    assert(y == to);
                }
                if other == back(w) {
                    assert(way_to(links@, other) == way_from(links@, w));
                    assert(y == from);
                    assert(way_from(links@, other) == to);
                }
            }
            assert forall|other: int|
                is_way(links@, other) && #[trigger] room(links@, amounts(flow@), other)
                    > 0 implies room(links@, first, other) > 0 || is_exact(
                links@,
                heights,
                paths.reached@,
                paths.distance@,
                back(other),
            ) by {
                lemma_room_after(links@, now, w, other);
                if other == back(w) {
                    assert(back(other) == w);
                } else {
                    assert(room(links@, now, other) > 0);
                }
            }
        }
        to = from;
    }
    proof {
        assert forall|gap: int| 0 <= gap < nodes - 1 implies #[trigger] across(
            links@,
            amounts(flow@),
            gap,
            links@.len() as int,
        ) == amount + 1 by {
            assert(across(links@, amounts(flow@), gap, links.len() as int) == amount + 1);
        }
    }
}

/// The heights after a search: each moment is raised by its distance, and those that were
/// not reached by as much as the farthest.
spec fn raised_heights(heights: Seq<int>, reached: Seq<bool>, distance: Seq<i128>, top: int) -> Seq<int> {
    Seq::new(
        heights.len(),
        |x: int|
            heights[x] + (if reached[x] {
                distance[x] as int
            } else {
                top
            }),
    )
}

proof fn lemma_raised_heights(
    links: Seq<Link>,
    nodes: int,
    bound: int,
    before: Seq<int>,
    now: Seq<int>,
    heights: Seq<int>,
    paths: Paths,
    rank: Seq<int>,
    top: int,
)
    requires
        is_network(links, nodes, bound),
        is_flow(links, before),
        is_flow(links, now),
        heights.len() == nodes,
        is_settled(links, before, heights),
        are_shortest(links, nodes, before, heights, paths, rank, bound),
        is_led(links, before, now, heights, paths.reached@, paths.distance@),
        forall|x: int| 0 <= x < nodes && #[trigger] paths.reached@[x] ==> paths.distance@[x] <= top,
        top >= 0,
    ensures
        is_settled(links, now, raised_heights(heights, paths.reached@, paths.distance@, top)),
        is_closed(links, now, paths.reached@),
{
    let reached = paths.reached@;
    let distance = paths.distance@;
    let new = raised_heights(heights, reached, distance, top);
    assert forall|way: int|
        is_way(links, way) && #[trigger] room(links, now, way) > 0 implies way_cost(
        links,
        new,
        way,
    ) >= 0 && (reached[way_from(links, way)] ==> reached[way_to(links, way)]) by {
        let link = links[way / 2];
        assert(leads(link, nodes, bound));
        let x = way_from(links, way);
        let y = way_to(links, way);
        assert(way_cost(links, new, way) == way_cost(links, heights, way) + (new[x] - heights[x]) - (
        new[y] - heights[y]));
        if room(links, before, way) > 0 {
            assert(way_cost(links, heights, way) >= 0);
            if reached[x] {
                assert(reached[way_from(links, way)]);
                assert(relaxed(links, before, heights, reached, distance, way));
            } else if reached[y] {
                assert(distance[y] <= top);
            }
        } else {
            let b = back(way);
            assert(is_exact(links, heights, reached, distance, b));
            assert(b / 2 == way / 2 && b % 2 != way % 2);
            assert(way_from(links, b) == y && way_to(links, b) == x);
            assert(way_cost(links, heights, b) == -way_cost(links, heights, way));
        }
    }
    assert forall|way: int|
        is_way(links, way) && #[trigger] room(links, now, way) > 0 && reached[way_from(
            links,
            way,
        )] implies reached[way_to(links, way)] by {
        assert(way_cost(links, new, way) >= 0);
    }
}

/// Raises what it costs to reach each moment by its distance.
fn raise_potentials(potentials: &mut Vec<i128>, paths: &Paths, nodes: usize, Ghost(heights): Ghost<Seq<int>>, Ghost(known): Ghost<Seq<bool>>, Ghost(bound): Ghost<int>, Ghost(top): Ghost<int>)
    requires
        old(potentials)@.len() == nodes,
        paths.reached@.len() == nodes,
        paths.distance@.len() == nodes,
        heights.len() == nodes,
        known.len() == nodes,
        bound >= 0,
        nodes * bound <= 0x1_0000_0000_0000_0000 * 0x1_0000_0000_0000,
        forall|x: int| 0 <= x < nodes && #[trigger] known[x] ==> old(potentials)@[x] == heights[x],
        forall|x: int| 0 <= x < nodes ==> -nodes * bound <= #[trigger] old(potentials)@[x] <= nodes * bound,
        forall|x: int| 0 <= x < nodes && #[trigger] paths.reached@[x] ==> known[x] && -nodes * bound
            <= paths.distance@[x] + heights[x] <= nodes * bound,
    ensures
        final(potentials)@.len() == nodes,
        forall|x: int| 0 <= x < nodes && #[trigger] paths.reached@[x] ==> final(potentials)@[x]
            == raised_heights(heights, paths.reached@, paths.distance@, top)[x],
        forall|x: int| 0 <= x < nodes ==> -nodes * bound <= #[trigger] final(potentials)@[x] <= nodes * bound,
{
    let mut i: usize = 0;
    while i < nodes
        invariant
            i <= nodes,
            potentials@.len() == nodes,
            paths.reached@.len() == nodes,
            paths.distance@.len() == nodes,
            heights.len() == nodes,
            known.len() == nodes,
            bound >= 0,
            nodes * bound <= 0x1_0000_0000_0000_0000 * 0x1_0000_0000_0000,
            forall|x: int| i <= x < nodes && #[trigger] known[x] ==> potentials@[x] == heights[x],
            forall|x: int| 0 <= x < nodes ==> -nodes * bound <= #[trigger] potentials@[x] <= nodes * bound,
            forall|x: int| 0 <= x < nodes && #[trigger] paths.reached@[x] ==> known[x] && -nodes
                * bound <= paths.distance@[x] + heights[x] <= nodes * bound,
            forall|x: int| 0 <= x < i && #[trigger] paths.reached@[x] ==> potentials@[x]
                == raised_heights(heights, paths.reached@, paths.distance@, top)[x],
        decreases nodes - i,
    {
        if paths.reached[i] {
            proof {
                assert(paths.reached@[i as int]);
                assert(known[i as int]);
                assert(potentials@[i as int] == heights[i as int]);
                assert(-nodes * bound == -(nodes * bound)) by (nonlinear_arith);
            }
            let more: i128 = potentials[i] + paths.distance[i];
            potentials.set(i, more);
        }
        i += 1;
    }
}

/// What a mark adds to the weight of a note.
fn bonus_of(note: &Note) -> (b: i64)
    requires
        0 <= note.on < note.off,
    ensures
        b == bonus(*note),
        0 <= b <= 1_000_000_000_000,
{
    let ticks: i128 = note.off as i128 - note.on as i128;
    let tenths: i128 = (1536 * ticks + 5) / 10;
    if tenths < 1_000_000_000_000 {
        tenths as i64
    } else {
        1_000_000_000_000
    }
}

/// What the notes are worth.
fn note_rewards(notes: &[Note], weights: &[i64], priority: &[bool]) -> (r: Vec<i64>)
    requires
        lasts(notes@),
        weights.len() == notes.len(),
        priority.len() == notes.len(),
        forall|i: int| 0 <= i < weights.len() ==> 0 <= #[trigger] weights[i] <= 1_000_000_000_000,
    ensures
        r.len() == notes.len(),
        forall|i: int| 0 <= i < r.len() ==> #[trigger] r[i] == rewards(notes@, weights@, priority@)[i] && 0 <= r[i] <= 2_000_000_000_000,
{
    let mut r: Vec<i64> = Vec::new();
    let mut i: usize = 0;
    while i < notes.len()
        invariant
            i <= notes.len(),
            lasts(notes@),
            weights.len() == notes.len(),
            priority.len() == notes.len(),
            forall|i: int| 0 <= i < weights.len() ==> 0 <= #[trigger] weights[i] <= 1_000_000_000_000,
            r.len() == i,
            forall|k: int| 0 <= k < i ==> #[trigger] r[k] == rewards(notes@, weights@, priority@)[k] && 0 <= r[k] <= 2_000_000_000_000,
        decreases notes.len() - i,
    {
        proof {
            assert(0 <= notes[i as int].on < notes[i as int].off);
            assert(0 <= weights[i as int] <= 1_000_000_000_000);
        }
        let mut worth: i64 = weights[i];
        if priority[i] {
            worth = worth + bonus_of(&notes[i]);
        }
        r.push(worth);
        i += 1;
    }
    r
}

/// How the notes that begin and end change what sounds at the moments up to one.
spec fn balance(changes: Seq<i128>, i: int) -> int
    decreases i + 1,
{
    if i < 0 {
        0
    } else {
        balance(changes, i - 1) + changes[i]
    }
}

proof fn lemma_balance_update(changes: Seq<i128>, k: int, x: i128, i: int)
    requires
        0 <= k < changes.len(),
        i < changes.len(),
    ensures
        balance(changes.update(k, x), i) == balance(changes, i) + (if k <= i {
            x - changes[k]
        } else {
            0
        }),
    decreases i + 1,
{
    if i >= 0 {
        lemma_balance_update(changes, k, x, i - 1);
    }
}

proof fn lemma_balance_none(changes: Seq<i128>, i: int)
    requires
        forall|k: int| 0 <= k < changes.len() ==> #[trigger] changes[k] == 0,
        i < changes.len(),
    ensures
        balance(changes, i) == 0,
    decreases i + 1,
{
    if i >= 0 {
        lemma_balance_none(changes, i - 1);
        assert(changes[i] == 0);
    }
}

/// The links of the notes, and how they change what sounds at each moment.
#[verifier::rlimit(60)]
fn note_links(notes: &[Note], worth: &Vec<i64>, times: &Vec<Tick>, Ghost(rewards): Ghost<Seq<int>>) -> (r: (Vec<Link>, Vec<i128>))
    requires
        lasts(notes@),
        ascends(times@),
        worth.len() == notes.len(),
        rewards.len() == notes.len(),
        forall|i: int| 0 <= i < notes.len() ==> #[trigger] worth[i] == rewards[i] && 0 <= worth[i] <= 2_000_000_000_000,
        forall|i: int|
            0 <= i < notes.len() ==> times@.contains((#[trigger] notes[i]).on) && times@.contains(
                notes[i].off,
            ),
    ensures
        r.0.len() == notes.len(),
        r.1.len() == times.len(),
        forall|i: int| 0 <= i < notes.len() ==> is_note_link(#[trigger] r.0@[i], notes[i], rewards[i], times@),
        forall|g: int| 0 <= g < times.len() ==> #[trigger] balance(r.1@, g) == voices(notes@, times@[g] as int),
        forall|g: int| 0 <= g < times.len() ==> -notes.len() <= #[trigger] r.1@[g] <= notes.len(),
{
    let mut links: Vec<Link> = Vec::new();
    let mut changes: Vec<i128> = Vec::new();
    let mut i: usize = 0;
    while i < times.len()
        invariant
            i <= times.len(),
            changes.len() == i,
            forall|k: int| 0 <= k < i ==> #[trigger] changes[k] == 0,
        decreases times.len() - i,
    {
        changes.push(0);
        i += 1;
    }
    let mut i: usize = 0;
    proof {
        assert forall|g: int| 0 <= g < times.len() implies #[trigger] balance(changes@, g) == voices(
            notes@.take(0),
            times@[g] as int,
        ) by {
            lemma_balance_none(changes@, g);
        }
    }
    while i < notes.len()
        invariant
            i <= notes.len(),
            lasts(notes@),
            ascends(times@),
            worth.len() == notes.len(),
            rewards.len() == notes.len(),
            changes.len() == times.len(),
            links.len() == i,
            forall|i: int| 0 <= i < notes.len() ==> #[trigger] worth[i] == rewards[i] && 0 <= worth[i] <= 2_000_000_000_000,
            forall|i: int|
                0 <= i < notes.len() ==> times@.contains((#[trigger] notes[i]).on)
                    && times@.contains(notes[i].off),
            forall|k: int| 0 <= k < i ==> is_note_link(#[trigger] links@[k], notes[k], rewards[k], times@),
            forall|g: int| 0 <= g < times.len() ==> #[trigger] balance(changes@, g) == voices(
                notes@.take(i as int),
                times@[g] as int,
            ),
            forall|g: int| 0 <= g < times.len() ==> -i <= #[trigger] changes@[g] <= i,
        decreases notes.len() - i,
    {
        let note = notes[i];
        proof {
            assert(times@.contains(notes[i as int].on) && times@.contains(notes[i as int].off));
            assert(0 <= notes[i as int].on < notes[i as int].off);
            assert(worth[i as int] == rewards[i as int]);
        }
        let from = place_of(times, note.on);
        let to = place_of(times, note.off);
        proof {
            if to < from {
                assert(times@[to as int] < times@[from as int]);
            }
        }
        let cost: i128 = -(worth[i] as i128);
        let link = Link { from, to, capacity: 1, cost };
        let ghost before = changes@;
        let first: i128 = changes[from] + 1;
        changes.set(from, first);
        let ghost middle = changes@;
        let second: i128 = changes[to] - 1;
        changes.set(to, second);
        links.push(link);
        proof {
            assert(is_note_link(link, note, rewards[i as int], times@));
            assert forall|k: int| 0 <= k < i + 1 implies is_note_link(
                #[trigger] links@[k],
                notes[k],
                rewards[k],
                times@,
            ) by {
                if k == i {
                    assert(links@[k] == link);
                }
            }
            assert forall|g: int| 0 <= g < times.len() implies #[trigger] balance(changes@, g)
                == voices(notes@.take(i + 1), times@[g] as int) by {
                lemma_balance_update(before, from as int, first, g);
                lemma_balance_update(middle, to as int, second, g);
                lemma_crosses(link, note, rewards[i as int], times@, g);
                assert(notes@.take(i + 1).drop_last() =~= notes@.take(i as int));
                assert(balance(before, g) == voices(notes@.take(i as int), times@[g] as int));
                assert(notes@.take(i + 1).last() == note);
            }
        }
        i += 1;
    }
    proof {
        assert(notes@.take(i as int) =~= notes@);
    }
    (links, changes)
}

/// At a moment that is the first at which too many notes sound, no earlier tick has too
/// many.
proof fn lemma_first_excess(notes: Seq<Note>, times: Seq<Tick>, all: int, gap: int)
    requires
        ascends(times),
        0 <= gap < times.len() - 1,
        all >= 0,
        forall|i: int|
            0 <= i < notes.len() ==> times.contains((#[trigger] notes[i]).on) && times.contains(
                notes[i].off,
            ),
        forall|g: int| 0 <= g < gap ==> voices(notes, #[trigger] times[g] as int) <= all,
    ensures
        forall|t: int| t < times[gap] ==> #[trigger] voices(notes, t) <= all,
{
    let chosen = Seq::new(notes.len(), |i: int| true);
    let n = notes.len() as int;
    assert(notes.take(n) =~= notes);
    assert forall|t: int| t < times[gap] implies #[trigger] voices(notes, t) <= all by {
        if t < times[0] {
            lemma_outside(notes, chosen, times, t, n);
        } else {
            let g = lemma_gap_of(times, t, gap + 1);
            lemma_between(notes, chosen, times, t, g, n);
            assert(voices(notes, times[g] as int) <= all);
        }
    }
}

/// Chooses the notes of the leading voices: of all choices that keep to the room of the
/// leading voices and of the others, one that is worth the most.
#[verifier::rlimit(80)]
pub fn select(
    notes: &[Note],
    weights: &[i64],
    priority: &[bool],
    core_parts: usize,
    total_capacity: usize,
) -> (r: Result<Vec<bool>, SelectError>)
    requires
        notes.len() <= usize::MAX / 8,
        forall|i: int| 0 <= i < weights.len() ==> 0 <= #[trigger] weights[i] <= HEAVIEST,
    ensures
        select_outcome(notes@, weights@, priority@, core_parts as int, total_capacity as int, r),
{
    if weights.len() != notes.len() || priority.len() != notes.len() {
        return Err(SelectError::Counts);
    }
    if core_parts == 0 || total_capacity < core_parts {
        return Err(SelectError::Capacity);
    }
    let mut i: usize = 0;
    while i < notes.len()
        invariant
            i <= notes.len(),
            weights.len() == notes.len(),
            priority.len() == notes.len(),
            0 < core_parts <= total_capacity,
            forall|k: int| 0 <= k < i ==> 0 <= (#[trigger] notes[k]).on < notes[k].off,
        decreases notes.len() - i,
    {
        if notes[i].on < 0 || notes[i].off <= notes[i].on {
            proof {
                assert(!(0 <= notes[i as int].on < notes[i as int].off));
            }
            return Err(SelectError::Interval);
        }
        i += 1;
    }
    let ghost value = rewards(notes@, weights@, priority@);
    let worth_list = note_rewards(notes, weights, priority);
    if too_heavy(&worth_list, Ghost(value)) {
        return Err(SelectError::TooLarge);
    }
    if notes.len() == 0 {
        let none: Vec<bool> = Vec::new();
        proof {
            assert forall|other: Seq<bool>| #[trigger]
                is_choice(notes@, other, core_parts as int, total_capacity as int) implies worth(
                value,
                other,
                0,
            ) <= worth(value, none@, 0) by {
            }
            assert forall|t: int| #[trigger]
                has_room(notes@, none@, core_parts as int, total_capacity as int, t) by {
            }
        }
        return Ok(none);
    }
    select_among(notes, &worth_list, core_parts, total_capacity, Ghost(value))
}

/// Whether the notes weigh too much together.
fn too_heavy(worth_list: &Vec<i64>, Ghost(value): Ghost<Seq<int>>) -> (r: bool)
    requires
        worth_list.len() == value.len(),
        forall|i: int|
            0 <= i < value.len() ==> #[trigger] worth_list[i] == value[i] && 0 <= worth_list[i]
                <= 2_000_000_000_000,
    ensures
        r == (1 + sum(value, value.len() as int) >= WEIGHT_LIMIT),
{
    let mut total: i128 = 1;
    let mut i: usize = 0;
    while i < worth_list.len()
        invariant
            i <= worth_list.len() == value.len(),
            forall|i: int|
                0 <= i < value.len() ==> #[trigger] worth_list[i] == value[i] && 0 <= worth_list[i]
                    <= 2_000_000_000_000,
            total == 1 + sum(value, i as int),
            1 <= total <= 1 + i * 2_000_000_000_000,
        decreases worth_list.len() - i,
    {
        proof {
            assert(worth_list[i as int] == value[i as int]);
        }
        total = total + worth_list[i] as i128;
        i += 1;
    }
    total >= WEIGHT_LIMIT
}

/// What choosing notes comes to.
pub open spec fn select_outcome(
    notes: Seq<Note>,
    weights: Seq<i64>,
    marks: Seq<bool>,
    core: int,
    all: int,
    r: Result<Vec<bool>, SelectError>,
) -> bool {
    let value = rewards(notes, weights, marks);
    let n = notes.len() as int;
    if weights.len() != n || marks.len() != n {
        r == Err::<Vec<bool>, _>(SelectError::Counts)
    } else if core == 0 || all < core {
        r == Err::<Vec<bool>, _>(SelectError::Capacity)
    } else if !lasts(notes) {
        r == Err::<Vec<bool>, _>(SelectError::Interval)
    } else if 1 + sum(value, n) >= WEIGHT_LIMIT {
        r == Err::<Vec<bool>, _>(SelectError::TooLarge)
    } else {
        match r {
            Ok(chosen) => is_best(notes, value, chosen@, core, all),
            Err(SelectError::Exceeds { tick }) => first_excess(notes, all, tick as int),
            Err(_) => false,
        }
    }
}

/// Whether a choice keeps to the room of all voices and no other that does is worth more.
pub open spec fn is_best(notes: Seq<Note>, value: Seq<int>, chosen: Seq<bool>, core: int, all: int) -> bool {
    &&& is_choice(notes, chosen, core, all)
    &&& forall|other: Seq<bool>| #[trigger]
        is_choice(notes, other, core, all) ==> worth(value, other, notes.len() as int) <= worth(
            value,
            chosen,
            notes.len() as int,
        )
}

/// The links of the gaps, or the first moment at which too many notes sound.
#[verifier::rlimit(60)]
fn rest_links(
    notes: &[Note],
    links: &mut Vec<Link>,
    changes: &Vec<i128>,
    times: &Vec<Tick>,
    core_parts: usize,
    total_capacity: usize,
    Ghost(value): Ghost<Seq<int>>,
) -> (r: Option<Tick>)
    requires
        ascends(times@),
        times.len() >= 2,
        value.len() == notes.len(),
        0 < core_parts <= total_capacity,
        old(links).len() == notes.len(),
        changes.len() == times.len(),
        forall|i: int|
            0 <= i < notes.len() ==> times@.contains((#[trigger] notes[i]).on) && times@.contains(
                notes[i].off,
            ),
        forall|i: int| 0 <= i < notes.len() ==> is_note_link(#[trigger] old(links)@[i], notes[i], value[i], times@),
        forall|g: int| 0 <= g < times.len() ==> #[trigger] balance(changes@, g) == voices(notes@, times@[g] as int),
        forall|g: int| 0 <= g < times.len() ==> -notes.len() <= #[trigger] changes@[g] <= notes.len(),
    ensures
        match r {
            None => are_links(
                final(links)@,
                notes@,
                value,
                times@,
                core_parts as int,
                total_capacity as int,
            ),
            Some(tick) => first_excess(notes@, total_capacity as int, tick as int),
        },
{
    let n: usize = notes.len();
    let mut active: i128 = 0;
    let mut g: usize = 0;
    while g < times.len() - 1
        invariant
            0 <= g <= times.len() - 1,
            n == notes.len(),
            times.len() >= 2,
            ascends(times@),
            value.len() == notes.len(),
            0 < core_parts <= total_capacity,
            changes.len() == times.len(),
            links.len() == n + g,
            forall|i: int|
                0 <= i < notes.len() ==> times@.contains((#[trigger] notes[i]).on)
                    && times@.contains(notes[i].off),
            forall|i: int| 0 <= i < n ==> is_note_link(#[trigger] links@[i], notes[i], value[i], times@),
            forall|k: int|
                0 <= k < g ==> is_rest_link(
                    #[trigger] links@[n + k],
                    k,
                    voices(notes@, times@[k] as int),
                    core_parts as int,
                    total_capacity as int,
                ),
            forall|k: int| 0 <= k < g ==> voices(notes@, #[trigger] times@[k] as int) <= total_capacity,
            forall|g: int| 0 <= g < times.len() ==> #[trigger] balance(changes@, g) == voices(notes@, times@[g] as int),
            forall|g: int| 0 <= g < times.len() ==> -notes.len() <= #[trigger] changes@[g] <= notes.len(),
            active == balance(changes@, g - 1),
            0 <= active <= notes.len(),
        decreases times.len() - g,
    {
        proof {
            assert(-notes.len() <= changes@[g as int] <= notes.len());
            assert(balance(changes@, g as int) == voices(notes@, times@[g as int] as int));
            crate::polyphony::lemma_voices(notes@, times@[g as int] as int);
        }
        active = active + changes[g];
        if active > total_capacity as i128 {
            proof {
                lemma_first_excess(notes@, times@, total_capacity as int, g as int);
            }
            return Some(times[g]);
        }
        let left: usize = total_capacity - active as usize;
        let capacity: usize = if core_parts < left {
            core_parts
        } else {
            left
        };
        let ghost before = links@;
        links.push(Link { from: g, to: g + 1, capacity, cost: 0 });
        proof {
            assert forall|k: int| 0 <= k < g + 1 implies is_rest_link(
                #[trigger] links@[n + k],
                k,
                voices(notes@, times@[k] as int),
                core_parts as int,
                total_capacity as int,
            ) by {
                if k < g {
                    assert(links@[n + k] == before[n + k]);
                }
            }
            assert forall|i: int| 0 <= i < n implies is_note_link(
                #[trigger] links@[i],
                notes[i],
                value[i],
                times@,
            ) by {
                assert(links@[i] == before[i]);
            }
        }
        g += 1;
    }
    None
}

/// The notes whose links a flow uses.
fn used_notes(flow: &Vec<usize>, n: usize, Ghost(notes): Ghost<Seq<Note>>) -> (chosen: Vec<bool>)
    requires
        n <= flow.len(),
        n == notes.len(),
    ensures
        chosen@ == used(notes, amounts(flow@)),
{
    let mut chosen: Vec<bool> = Vec::new();
    let mut i: usize = 0;
    while i < n
        invariant
            i <= n <= flow.len(),
            chosen.len() == i,
            forall|k: int| 0 <= k < i ==> #[trigger] chosen[k] == (amounts(flow@)[k] == 1),
        decreases n - i,
    {
        chosen.push(flow[i] == 1);
        i += 1;
    }
    proof {
        assert(chosen@ =~= used(notes, amounts(flow@)));
    }
    chosen
}

fn no_flow(n: usize) -> (flow: Vec<usize>)
    ensures
        amounts(flow@) == Seq::new(n as nat, |e: int| 0int),
{
    let mut flow: Vec<usize> = Vec::new();
    let mut i: usize = 0;
    while i < n
        invariant
            i <= n,
            flow.len() == i,
            forall|k: int| 0 <= k < i ==> #[trigger] flow[k] == 0,
        decreases n - i,
    {
        flow.push(0);
        i += 1;
    }
    proof {
        assert(amounts(flow@) =~= Seq::new(n as nat, |e: int| 0int));
    }
    flow
}

proof fn lemma_no_flow(links: Seq<Link>, nodes: int, gap: int, n: int)
    requires
        0 <= n <= links.len(),
    ensures
        across(links, Seq::new(links.len(), |e: int| 0int), gap, n) == 0,
    decreases n,
{
    if n > 0 {
        lemma_no_flow(links, nodes, gap, n - 1);
    }
}

/// Every link of a choice is one of a network.
proof fn lemma_is_network(
    links: Seq<Link>,
    notes: Seq<Note>,
    value: Seq<int>,
    times: Seq<Tick>,
    core: int,
    all: int,
)
    requires
        are_links(links, notes, value, times, core, all),
        value.len() == notes.len(),
        forall|i: int| 0 <= i < notes.len() ==> 0 <= #[trigger] value[i] <= 2_000_000_000_000,
    ensures
        is_network(links, times.len() as int, 2_000_000_000_000),
        forall|e: int| 0 <= e < links.len() ==> (#[trigger] links[e]).cost <= 0,
{
    assert forall|e: int| 0 <= e < links.len() implies leads(
        #[trigger] links[e],
        times.len() as int,
        2_000_000_000_000,
    ) && links[e].cost <= 0 by {
        if e < notes.len() {
            assert(is_note_link(links[e], notes[e], value[e], times));
            assert(0 <= value[e] <= 2_000_000_000_000);
        } else {
            let g = e - notes.len();
            assert(links[notes.len() + g] == links[e]);
            assert(is_rest_link(
                links[notes.len() + g],
                g,
                voices(notes, times[g] as int),
                core,
                all,
            ));
        }
    }
}

/// Fills the leading voices one after the other, each as well as can be.
#[verifier::rlimit(100)]
fn fill(
    notes: &[Note],
    links: &Vec<Link>,
    nodes: usize,
    core_parts: usize,
    Ghost(value): Ghost<Seq<int>>,
    Ghost(times): Ghost<Seq<Tick>>,
    Ghost(all): Ghost<int>,
) -> (r: (Vec<usize>, Ghost<Seq<int>>))
    requires
        ascends(times),
        nodes == times.len(),
        are_links(links@, notes@, value, times, core_parts as int, all),
        is_network(links@, nodes as int, 2_000_000_000_000),
        forall|e: int| 0 <= e < links.len() ==> (#[trigger] links@[e]).cost <= 0,
        2 * links.len() <= usize::MAX,
        0 < core_parts <= all,
    ensures
        is_flow(links@, amounts(r.0@)),
        carries(links@, nodes as int, amounts(r.0@), core_parts as int),
        r.1@.len() == nodes,
        is_settled(links@, amounts(r.0@), r.1@),
{
    let ghost bound: int = 2_000_000_000_000;
    let adjacent = ways_of(links, nodes, Ghost(bound));
    let (first, reached) = first_potentials(links, &adjacent, nodes, Ghost(bound));
    let mut potentials = first;
    let mut flow = no_flow(links.len());
    let ghost mut heights = first_heights(nodes as int, bound, potentials@, reached@);
    let ghost mut known = reached@;
    proof {
        lemma_first_heights(
            links@,
            nodes as int,
            bound,
            potentials@,
            reached@,
            amounts(flow@),
        );
        assert forall|gap: int| 0 <= gap < nodes - 1 implies #[trigger] across(
            links@,
            amounts(flow@),
            gap,
            links.len() as int,
        ) == 0 by {
            lemma_no_flow(links@, nodes as int, gap, links.len() as int);
        }
        assert forall|x: int| 0 <= x < nodes implies -nodes * bound <= #[trigger] potentials@[x]
            <= nodes * bound by {
            assert(-x * bound <= potentials@[x] <= 0);
            assert(-nodes * bound <= -x * bound && 0 <= nodes * bound) by (nonlinear_arith)
                requires
                    0 <= x < nodes,
                    bound >= 0,
            ;
        }
        assert(nodes * bound <= 0x1_0000_0000_0000_0000 * 0x1_0000_0000_0000) by (nonlinear_arith)
            requires
                0 <= nodes <= 0x1_0000_0000_0000_0000,
                0 <= bound <= 0x1_0000_0000_0000,
        ;
    }
    let mut k: usize = 0;
    while k < core_parts
        invariant
            k <= core_parts,
            bound == 2_000_000_000_000,
            ascends(times),
            nodes == times.len(),
            nodes >= 2,
            are_links(links@, notes@, value, times, core_parts as int, all),
            is_network(links@, nodes as int, bound),
            0 < core_parts <= all,
            nodes * bound <= 0x1_0000_0000_0000_0000 * 0x1_0000_0000_0000,
            lists_ways(adjacent@, links@, nodes as int),
            is_flow(links@, amounts(flow@)),
            carries(links@, nodes as int, amounts(flow@), k as int),
            heights.len() == nodes,
            heights[0] == 0,
            known.len() == nodes,
            known[0],
            potentials@.len() == nodes,
            forall|x: int| 0 <= x < nodes && #[trigger] known[x] ==> potentials@[x] == heights[x],
            forall|x: int| 0 <= x < nodes ==> -nodes * bound <= #[trigger] potentials@[x] <= nodes * bound,
            is_settled(links@, amounts(flow@), heights),
            is_closed(links@, amounts(flow@), known),
        decreases core_parts - k,
    {
        let (paths, rank) = shortest(
            links,
            &adjacent,
            &flow,
            &potentials,
            nodes,
            Ghost(heights),
            Ghost(bound),
            Ghost(known),
        );
        let ghost before = amounts(flow@);
        proof {
            assert forall|way: int|
                is_way(links@, way) && #[trigger] room(links@, before, way) > 0
                    && paths.reached@[way_from(links@, way)] implies paths.reached@[way_to(
                links@,
                way,
            )] by {
                assert(relaxed(
                    links@,
                    before,
                    heights,
                    paths.reached@,
                    paths.distance@,
                    way,
                ));
            }
            lemma_never_stuck(
                links@,
                notes@,
                value,
                times,
                core_parts as int,
                all,
                before,
                paths.reached@,
                k as int,
            );
        }
        lead(
            links,
            &mut flow,
            &paths,
            nodes,
            Ghost(heights),
            rank,
            Ghost(bound),
            Ghost(k as int),
        );
        let ghost top = farthest(paths.reached@, paths.distance@, nodes as int);
        proof {
            lemma_farthest(paths.reached@, paths.distance@, nodes as int);
            lemma_raised_heights(
                links@,
                nodes as int,
                bound,
                before,
                amounts(flow@),
                heights,
                paths,
                rank@,
                top,
            );
        }
        raise_potentials(
            &mut potentials,
            &paths,
            nodes,
            Ghost(heights),
            Ghost(known),
            Ghost(bound),
            Ghost(top),
        );
        proof {
            heights = raised_heights(heights, paths.reached@, paths.distance@, top);
            known = paths.reached@;
        }
        k += 1;
    }
    (flow, Ghost(heights))
}

/// How far the farthest moment is.
spec fn farthest(reached: Seq<bool>, distance: Seq<i128>, n: int) -> int
    decreases n,
{
    if n <= 0 {
        0
    } else {
        let before = farthest(reached, distance, n - 1);
        if reached[n - 1] && distance[n - 1] > before {
            distance[n - 1] as int
        } else {
            before
        }
    }
}

proof fn lemma_farthest(reached: Seq<bool>, distance: Seq<i128>, n: int)
    ensures
        farthest(reached, distance, n) >= 0,
        forall|x: int|
            0 <= x < n && #[trigger] reached[x] ==> distance[x] <= farthest(reached, distance, n),
    decreases n,
{
    if n > 0 {
        lemma_farthest(reached, distance, n - 1);
    }
}

/// Chooses among notes that last and do not weigh too much.
#[verifier::rlimit(60)]
fn select_among(
    notes: &[Note],
    worth_list: &Vec<i64>,
    core_parts: usize,
    total_capacity: usize,
    Ghost(value): Ghost<Seq<int>>,
) -> (r: Result<Vec<bool>, SelectError>)
    requires
        0 < notes.len() <= usize::MAX / 8,
        lasts(notes@),
        0 < core_parts <= total_capacity,
        worth_list.len() == notes.len(),
        value.len() == notes.len(),
        forall|i: int|
            0 <= i < notes.len() ==> #[trigger] worth_list[i] == value[i] && 0 <= worth_list[i]
                <= 2_000_000_000_000,
    ensures
        match r {
            Ok(chosen) => is_best(
                notes@,
                value,
                chosen@,
                core_parts as int,
                total_capacity as int,
            ),
            Err(SelectError::Exceeds { tick }) => first_excess(
                notes@,
                total_capacity as int,
                tick as int,
            ),
            Err(_) => false,
        },
{
    let times = timeline(notes);
    proof {
        assert(0 <= notes[0].on < notes[0].off);
        assert(times@.contains(notes[0].on) && times@.contains(notes[0].off));
        let a = choose|a: int| 0 <= a < times.len() && times@[a] == notes[0].on;
        let b = choose|b: int| 0 <= b < times.len() && times@[b] == notes[0].off;
        assert(a != b);
    }
    let (noted, changes) = note_links(notes, worth_list, &times, Ghost(value));
    let mut links = noted;
    match rest_links(
        notes,
        &mut links,
        &changes,
        &times,
        core_parts,
        total_capacity,
        Ghost(value),
    ) {
        Some(tick) => Err(SelectError::Exceeds { tick }),
        None => {
            proof {
                assert forall|i: int| 0 <= i < notes.len() implies 0 <= #[trigger] value[i]
                    <= 2_000_000_000_000 by {
                    assert(worth_list[i] == value[i]);
                }
                lemma_is_network(
                    links@,
                    notes@,
                    value,
                    times@,
                    core_parts as int,
                    total_capacity as int,
                );
            }
            let (flow, heights) = fill(
                notes,
                &links,
                times.len(),
                core_parts,
                Ghost(value),
                Ghost(times@),
                Ghost(total_capacity as int),
            );
            let chosen = used_notes(&flow, notes.len(), Ghost(notes@));
            proof {
                lemma_flow_choice(
                    links@,
                    notes@,
                    value,
                    times@,
                    core_parts as int,
                    total_capacity as int,
                    amounts(flow@),
                );
                assert forall|other: Seq<bool>| #[trigger]
                    is_choice(
                        notes@,
                        other,
                        core_parts as int,
                        total_capacity as int,
                    ) implies worth(value, other, notes.len() as int) <= worth(
                    value,
                    chosen@,
                    notes.len() as int,
                ) by {
                    lemma_best(
                        links@,
                        notes@,
                        value,
                        times@,
                        core_parts as int,
                        total_capacity as int,
                        amounts(flow@),
                        heights@,
                        other,
                    );
                }
            }
            Ok(chosen)
        },
    }
}

} // verus!
