//! Moving moments of a score by a little, so that every stretch between them can be written.
use crate::boundaries::{is_graph, is_valid, law_order_is_kept, leads_on, ordered, span_fits, Graph, Span};
use crate::mobile::{inverse_table, is_listed};
use crate::score::Tick;
use vstd::prelude::*;

verus! {

/// Why the moments of a score cannot be moved so that it can be written.
#[derive(Clone, Copy, Debug, PartialEq, Eq, Structural)]
pub enum MoveFault {
    /// A moment would come too late for its number.
    TooLarge,
    /// A stretch between two ticks stays one that cannot be written.
    Stuck { start: Tick, end: Tick },
}

/// How far the moving has come: where the moments stand, by which step each was rounded,
/// and which stretches are still to be looked at.
pub struct Moving {
    pub mapped: Seq<Tick>,
    pub grid: Seq<int>,
    pub queue: Seq<usize>,
}

pub enum Progress {
    Open(Moving),
    Done(Seq<Tick>),
    Failed(MoveFault),
}

/// The multiple of a step that is nearest to a tick, and of two the greater.
pub open spec fn nearest(tick: int, step: int) -> int {
    let lower = tick - tick % step;
    if 2 * (tick % step) < step {
        lower
    } else {
        lower + step
    }
}

/// The first stretches that a moment bounds.
pub open spec fn touching(spans: Seq<Span>, point: int, n: int) -> Seq<usize>
    decreases n,
{
    if n <= 0 {
        Seq::empty()
    } else if spans[n - 1].start == point || spans[n - 1].end == point {
        touching(spans, point, n - 1).push((n - 1) as usize)
    } else {
        touching(spans, point, n - 1)
    }
}

/// A queue with the first of some stretches, where they do not wait in it.
pub open spec fn enqueued(queue: Seq<usize>, more: Seq<usize>, n: int) -> Seq<usize>
    decreases n,
{
    if n <= 0 {
        queue
    } else {
        let before = enqueued(queue, more, n - 1);
        if before.contains(more[n - 1]) {
            before
        } else {
            before.push(more[n - 1])
        }
    }
}

/// Rounds a moment by a step, unless it was rounded by as much, and looks again at the
/// stretches that it bounds.
pub open spec fn raised(g: Graph, m: Moving, point: int, step: int) -> Option<Moving> {
    if m.grid[point] >= step {
        Some(m)
    } else {
        let to = nearest(g.original[point] as int, step);
        if to > i64::MAX {
            None
        } else {
            let near = touching(g.spans, point, g.spans.len() as int);
            Some(
                Moving {
                    mapped: m.mapped.update(point, to as Tick),
                    grid: m.grid.update(point, step),
                    queue: enqueued(m.queue, near, near.len() as int),
                },
            )
        }
    }
}

/// The step by which the moments of a stretch that cannot be written are rounded next.
pub open spec fn next_step(m: Moving, span: Span) -> int {
    if span.timed && (m.grid[span.start as int] < 3 || m.grid[span.end as int] < 3) {
        3
    } else {
        6
    }
}

/// Looks at the stretch that has waited longest.
pub open spec fn moved_on(g: Graph, m: Moving) -> Progress {
    if m.queue.len() == 0 {
        Progress::Done(m.mapped)
    } else {
        let span = g.spans[m.queue[0] as int];
        let rest = Moving { queue: m.queue.skip(1), ..m };
        if is_valid(span, m.mapped) {
            Progress::Open(rest)
        } else {
            let step = next_step(m, span);
            if m.grid[span.start as int] >= step && m.grid[span.end as int] >= step {
                Progress::Failed(
                    MoveFault::Stuck {
                        start: g.original[span.start as int],
                        end: g.original[span.end as int],
                    },
                )
            } else {
                match raised(g, rest, span.start as int, step) {
                    None => Progress::Failed(MoveFault::TooLarge),
                    Some(first) => match raised(g, first, span.end as int, step) {
                        None => Progress::Failed(MoveFault::TooLarge),
                        Some(second) => Progress::Open(second),
                    },
                }
            }
        }
    }
}

/// At the beginning no moment has moved and every stretch waits.
pub open spec fn unmoved(g: Graph) -> Moving {
    Moving {
        mapped: g.original,
        grid: Seq::new(g.original.len(), |i: int| 0int),
        queue: Seq::new(g.spans.len(), |i: int| i as usize),
    }
}

/// How far the moving has come after some steps.
pub open spec fn moving(g: Graph, steps: nat) -> Progress
    decreases steps,
{
    if steps == 0 {
        Progress::Open(unmoved(g))
    } else {
        match moving(g, (steps - 1) as nat) {
            Progress::Open(m) => moved_on(g, m),
            end => end,
        }
    }
}

/// Whether the moments end up at some ticks.
pub open spec fn settles(g: Graph, mapped: Seq<Tick>) -> bool {
    exists|steps: nat| #[trigger] moving(g, steps) == Progress::Done(mapped)
}

/// Whether the moving comes to no end.
pub open spec fn gives_up(g: Graph, fault: MoveFault) -> bool {
    exists|steps: nat| #[trigger] moving(g, steps) == Progress::Failed(fault)
}

proof fn lemma_moving_ends(g: Graph, n: nat, m: nat)
    requires
        n <= m,
        !(moving(g, n) is Open),
    ensures
        moving(g, m) == moving(g, n),
    decreases m,
{
    if n < m {
        lemma_moving_ends(g, n, (m - 1) as nat);
    }
}

/// The moving ends in one way only.
pub proof fn law_one_end(g: Graph, n: nat, m: nat)
    requires
        !(moving(g, n) is Open),
        !(moving(g, m) is Open),
    ensures
        moving(g, n) == moving(g, m),
{
    if n <= m {
        lemma_moving_ends(g, n, m);
    } else {
        lemma_moving_ends(g, m, n);
    }
}

/// What holds all along: moments move by no more than half a step, and every stretch that
/// does not wait can be written.
pub open spec fn keeps(g: Graph, m: Moving) -> bool {
    &&& m.mapped.len() == g.original.len()
    &&& m.grid.len() == g.original.len()
    &&& forall|i: int| 0 <= i < g.original.len() ==> stands(g.original[i] as int, #[trigger] m.mapped[i] as int, m.grid[i])
    &&& forall|i: int| 0 <= i < m.queue.len() ==> (#[trigger] m.queue[i]) < g.spans.len()
    &&& m.queue.no_duplicates()
    &&& forall|i: int|
        0 <= i < g.spans.len() ==> #[trigger] waits(m.queue, i) || is_valid(g.spans[i], m.mapped)
}

pub open spec fn waits(queue: Seq<usize>, i: int) -> bool {
    queue.contains(i as usize)
}

/// Where a moment stands that was rounded by a step, if by any.
pub open spec fn stands(from: int, to: int, step: int) -> bool {
    &&& step == 0 || step == 3 || step == 6
    &&& step == 0 ==> to == from
    &&& step == 3 ==> to == nearest(from, 3)
    &&& step == 6 ==> to == nearest(from, 6)
}

proof fn lemma_nearest(from: int, step: int)
    requires
        from >= 0,
        step == 3 || step == 6,
    ensures
        nearest(from, step) % step == 0,
        -3 <= nearest(from, step) - from <= 3,
        step == 3 ==> -1 <= nearest(from, step) - from <= 1,
        nearest(from, step) >= 0,
{
}

proof fn lemma_touching(spans: Seq<Span>, point: int, n: int)
    requires
        0 <= n <= spans.len() <= usize::MAX,
    ensures
        forall|k: int| 0 <= k < touching(spans, point, n).len() ==> (#[trigger] touching(spans, point, n)[k])
            < n,
        forall|i: int|
            0 <= i < n && (spans[i].start == point || spans[i].end == point) ==> #[trigger] waits(
                touching(spans, point, n),
                i,
            ),
    decreases n,
{
    if n > 0 {
        lemma_touching(spans, point, n - 1);
        let all = touching(spans, point, n);
        let before = touching(spans, point, n - 1);
        assert forall|i: int|
            0 <= i < n && (spans[i].start == point || spans[i].end == point) implies #[trigger] waits(
            all,
            i,
        ) by {
            if i < n - 1 {
                assert(waits(before, i));
                let k = choose|k: int| 0 <= k < before.len() && before[k] == i as usize;
                assert(all[k] == i as usize);
            } else {
                assert(all[before.len() as int] == i as usize);
            }
        }
    }
}

proof fn lemma_enqueued(queue: Seq<usize>, more: Seq<usize>, n: int, size: int)
    requires
        0 <= n <= more.len(),
        queue.no_duplicates(),
        forall|k: int| 0 <= k < queue.len() ==> (#[trigger] queue[k]) < size,
        forall|k: int| 0 <= k < more.len() ==> (#[trigger] more[k]) < size,
    ensures
        enqueued(queue, more, n).no_duplicates(),
        forall|k: int| 0 <= k < enqueued(queue, more, n).len() ==> (#[trigger] enqueued(queue, more, n)[k])
            < size,
        forall|x: usize| #[trigger] queue.contains(x) ==> enqueued(queue, more, n).contains(x),
        forall|k: int| 0 <= k < n ==> enqueued(queue, more, n).contains(#[trigger] more[k]),
    decreases n,
{
    if n > 0 {
        lemma_enqueued(queue, more, n - 1, size);
        let before = enqueued(queue, more, n - 1);
        let all = enqueued(queue, more, n);
        assert forall|x: usize| before.contains(x) implies all.contains(x) by {
            let k = choose|k: int| 0 <= k < before.len() && before[k] == x;
            assert(all[k] == x);
        }
        assert(all.contains(more[n - 1])) by {
            if !before.contains(more[n - 1]) {
                assert(all[before.len() as int] == more[n - 1]);
            }
        }
    }
}

/// Rounding one moment keeps what holds, but for the stretch that was just taken off.
proof fn lemma_raised(g: Graph, m: Moving, point: int, step: int, open: int)
    requires
        is_graph(g),
        g.spans.len() <= usize::MAX,
        0 <= point < g.original.len(),
        step == 3 || step == 6,
        keeps_but(g, m, open),
        raised(g, m, point, step) is Some,
    ensures
        keeps_but(g, raised(g, m, point, step)->Some_0, open),
        m.grid[point] < step && 0 <= open < g.spans.len() && (g.spans[open].start == point
            || g.spans[open].end == point) ==> keeps(g, raised(g, m, point, step)->Some_0),
        keeps(g, m) ==> keeps(g, raised(g, m, point, step)->Some_0),
{
    if m.grid[point] < step {
        let new = raised(g, m, point, step)->Some_0;
        let near = touching(g.spans, point, g.spans.len() as int);
        lemma_touching(g.spans, point, g.spans.len() as int);
        lemma_enqueued(m.queue, near, near.len() as int, g.spans.len() as int);
        lemma_nearest(g.original[point] as int, step);
        assert forall|i: int| 0 <= i < g.original.len() implies stands(
            g.original[i] as int,
            #[trigger] new.mapped[i] as int,
            new.grid[i],
        ) by {
            if i != point {
                assert(stands(g.original[i] as int, m.mapped[i] as int, m.grid[i]));
            }
        }
        assert forall|i: int| 0 <= i < g.spans.len() && (i != open || waits(m.queue, open)
            || g.spans[open].start == point || g.spans[open].end == point) implies #[trigger] waits(
            new.queue,
            i,
        ) || is_valid(g.spans[i], new.mapped) by {
            let span = g.spans[i];
            if span.start == point || span.end == point {
                assert(waits(near, i));
                let k = choose|k: int| 0 <= k < near.len() && near[k] == i as usize;
                assert(new.queue.contains(near[k]));
            } else {
                assert(leads_on(g.original, span));
                assert(waits(m.queue, i) || is_valid(span, m.mapped));
                if waits(m.queue, i) {
                    assert(m.queue.contains(i as usize));
                    assert(new.queue.contains(i as usize));
                }
            }
        }
    }
}

/// What holds while one stretch is taken off the queue.
pub open spec fn keeps_but(g: Graph, m: Moving, open: int) -> bool {
    &&& m.mapped.len() == g.original.len()
    &&& m.grid.len() == g.original.len()
    &&& forall|i: int| 0 <= i < g.original.len() ==> stands(g.original[i] as int, #[trigger] m.mapped[i] as int, m.grid[i])
    &&& forall|i: int| 0 <= i < m.queue.len() ==> (#[trigger] m.queue[i]) < g.spans.len()
    &&& m.queue.no_duplicates()
    &&& forall|i: int|
        0 <= i < g.spans.len() && i != open ==> #[trigger] waits(m.queue, i) || is_valid(
            g.spans[i],
            m.mapped,
        )
}

proof fn lemma_popped(g: Graph, m: Moving)
    requires
        keeps(g, m),
        m.queue.len() > 0,
        g.spans.len() <= usize::MAX,
    ensures
        keeps_but(g, (Moving { queue: m.queue.skip(1), ..m }), m.queue[0] as int),
{
    let rest = m.queue.skip(1);
    let open = m.queue[0] as int;
    assert forall|i: int| 0 <= i < g.spans.len() && i != open implies #[trigger] waits(rest, i)
        || is_valid(g.spans[i], m.mapped) by {
        assert(waits(m.queue, i) || is_valid(g.spans[i], m.mapped));
        if waits(m.queue, i) {
            let k = choose|k: int| 0 <= k < m.queue.len() && m.queue[k] == i as usize;
            assert(rest[k - 1] == i as usize);
        }
    }
}

/// A step keeps what holds.
proof fn lemma_moved_on(g: Graph, m: Moving)
    requires
        is_graph(g),
        g.spans.len() <= usize::MAX,
        keeps(g, m),
    ensures
        moved_on(g, m) matches Progress::Open(next) ==> keeps(g, next),
{
    if m.queue.len() > 0 {
        lemma_popped(g, m);
        let open = m.queue[0] as int;
        let span = g.spans[open];
        let rest = Moving { queue: m.queue.skip(1), ..m };
        assert(leads_on(g.original, span));
        if is_valid(span, m.mapped) {
            assert(keeps(g, rest));
        } else {
            let step = next_step(m, span);
            if raised(g, rest, span.start as int, step) is Some {
                lemma_raised(g, rest, span.start as int, step, open);
                let first = raised(g, rest, span.start as int, step)->Some_0;
                if raised(g, first, span.end as int, step) is Some {
                    lemma_raised(g, first, span.end as int, step, open);
                }
            }
        }
    }
}

proof fn lemma_unmoved(g: Graph)
    requires
        is_graph(g),
        g.spans.len() <= usize::MAX,
    ensures
        keeps(g, unmoved(g)),
{
    let m = unmoved(g);
    assert forall|i: int| 0 <= i < g.spans.len() implies #[trigger] waits(m.queue, i) by {
        assert(m.queue[i] == i as usize);
    }
}

proof fn lemma_keeps(g: Graph, steps: nat)
    requires
        is_graph(g),
        g.spans.len() <= usize::MAX,
    ensures
        moving(g, steps) matches Progress::Open(m) ==> keeps(g, m),
    decreases steps,
{
    if steps == 0 {
        lemma_unmoved(g);
    } else {
        lemma_keeps(g, (steps - 1) as nat);
        match moving(g, (steps - 1) as nat) {
            Progress::Open(m) => {
                lemma_moved_on(g, m);
            },
            _ => {},
        }
    }
}

/// Where the moments settle every stretch can be written, and none has moved by more than
/// three ticks.
pub proof fn law_settled(g: Graph, mapped: Seq<Tick>, i: int)
    requires
        is_graph(g),
        g.spans.len() <= usize::MAX,
        settles(g, mapped),
    ensures
        mapped.len() == g.original.len(),
        0 <= i < g.spans.len() ==> is_valid(g.spans[i], mapped),
        0 <= i < mapped.len() ==> -3 <= mapped[i] - g.original[i] <= 3 && mapped[i] >= 0,
{
    let steps = choose|steps: nat| #[trigger] moving(g, steps) == Progress::Done(mapped);
    lemma_settled(g, mapped, steps, i);
}

proof fn lemma_settled(g: Graph, mapped: Seq<Tick>, steps: nat, i: int)
    requires
        is_graph(g),
        g.spans.len() <= usize::MAX,
        moving(g, steps) == Progress::Done(mapped),
    ensures
        mapped.len() == g.original.len(),
        0 <= i < g.spans.len() ==> is_valid(g.spans[i], mapped),
        0 <= i < mapped.len() ==> -3 <= mapped[i] - g.original[i] <= 3 && mapped[i] >= 0,
    decreases steps,
{
    if steps > 0 {
        match moving(g, (steps - 1) as nat) {
            Progress::Open(m) => {
                lemma_keeps(g, (steps - 1) as nat);
                if 0 <= i < g.spans.len() {
                    assert(waits(m.queue, i) || is_valid(g.spans[i], m.mapped));
                }
                if 0 <= i < g.original.len() {
                    assert(stands(g.original[i] as int, m.mapped[i] as int, m.grid[i]));
                    assert(g.original[i] >= 0);
                    lemma_nearest(g.original[i] as int, 3);
                    lemma_nearest(g.original[i] as int, 6);
                }
            },
            _ => {
                lemma_settled(g, mapped, (steps - 1) as nat, i);
            },
        }
    }
}

/// Moments that settle keep their order.
pub proof fn law_settled_order(g: Graph, mapped: Seq<Tick>, i: int, j: int)
    requires
        is_graph(g),
        is_graph(ordered(g)),
        ordered(g).spans.len() <= usize::MAX,
        settles(ordered(g), mapped),
        0 <= i < g.original.len(),
        0 <= j < g.original.len(),
        g.original[i] <= g.original[j],
    ensures
        mapped[i] <= mapped[j],
{
    let all = ordered(g);
    law_settled(all, mapped, 0);
    assert forall|k: int| 0 <= k < all.spans.len() implies is_valid(#[trigger] all.spans[k], mapped) by {
        law_settled(all, mapped, k);
    }
    law_order_is_kept(g, mapped, i, j);
}

proof fn lemma_already(g: Graph, steps: nat)
    requires
        g.spans.len() <= usize::MAX,
        forall|i: int| 0 <= i < g.spans.len() ==> is_valid(#[trigger] g.spans[i], g.original),
        steps <= g.spans.len(),
    ensures
        moving(g, steps) == Progress::Open(
            Moving { queue: unmoved(g).queue.skip(steps as int), ..unmoved(g) },
        ),
    decreases steps,
{
    let queue = unmoved(g).queue;
    if steps == 0 {
        assert(queue.skip(0) =~= queue);
    } else {
        lemma_already(g, (steps - 1) as nat);
        let before = queue.skip(steps - 1);
        assert(before[0] == queue[steps - 1]);
        assert(is_valid(g.spans[steps - 1], g.original));
        assert(before.skip(1) =~= queue.skip(steps as int));
    }
}

/// Where every stretch can be written no moment moves.
pub proof fn law_nothing_to_move(g: Graph, mapped: Seq<Tick>)
    requires
        g.spans.len() <= usize::MAX,
        forall|i: int| 0 <= i < g.spans.len() ==> is_valid(#[trigger] g.spans[i], g.original),
    ensures
        settles(g, mapped) == (mapped == g.original),
        forall|fault: MoveFault| !#[trigger] gives_up(g, fault),
{
    let n = g.spans.len();
    lemma_already(g, n);
    assert(unmoved(g).queue.skip(n as int).len() == 0);
    assert(moving(g, n + 1) == Progress::Done(g.original));
    if settles(g, mapped) {
        let steps = choose|steps: nat| #[trigger] moving(g, steps) == Progress::Done(mapped);
        law_one_end(g, steps, n + 1);
    }
    assert forall|fault: MoveFault| !#[trigger] gives_up(g, fault) by {
        if gives_up(g, fault) {
            let steps = choose|steps: nat| #[trigger] moving(g, steps) == Progress::Failed(fault);
            law_one_end(g, steps, n + 1);
        }
    }
}

/// What the moving works on.
struct Work {
    mapped: Vec<Tick>,
    grid: Vec<Tick>,
    queue: Vec<usize>,
    next: usize,
    queued: Vec<bool>,
}

impl Work {
    spec fn state(self) -> Moving {
        Moving {
            mapped: self.mapped@,
            grid: self.grid@.map_values(|x: Tick| x as int),
            queue: self.queue@.skip(self.next as int),
        }
    }

    spec fn valid(self, spans: int) -> bool {
        &&& self.next <= self.queue.len()
        &&& self.queued.len() == spans
        &&& forall|i: int|
            0 <= i < spans ==> #[trigger] self.queued[i] == waits(self.state().queue, i)
    }
}

/// The stretches that each moment bounds.
spec fn lists_neighbours(adjacent: Seq<Vec<usize>>, g: Graph, n: int) -> bool {
    &&& adjacent.len() == g.original.len()
    &&& forall|p: int|
        0 <= p < adjacent.len() ==> (#[trigger] adjacent[p])@ == touching(g.spans, p, n)
}

fn neighbours(points: usize, spans: &Vec<Span>, Ghost(g): Ghost<Graph>) -> (adjacent: Vec<Vec<usize>>)
    requires
        is_graph(g),
        g.spans == spans@,
        points == g.original.len(),
    ensures
        lists_neighbours(adjacent@, g, spans.len() as int),
{
    let mut adjacent: Vec<Vec<usize>> = Vec::new();
    let mut i: usize = 0;
    while i < points
        invariant
            i <= points,
            adjacent.len() == i,
            forall|p: int| 0 <= p < i ==> (#[trigger] adjacent[p])@ == Seq::<usize>::empty(),
        decreases points - i,
    {
        adjacent.push(Vec::new());
        i += 1;
    }
    let mut i: usize = 0;
    while i < spans.len()
        invariant
            i <= spans.len(),
            is_graph(g),
            g.spans == spans@,
            points == g.original.len(),
            lists_neighbours(adjacent@, g, i as int),
        decreases spans.len() - i,
    {
        let span = spans[i];
        let ghost before = adjacent@;
        proof {
            assert(leads_on(g.original, g.spans[i as int]));
        }
        adjacent[span.start].push(i);
        adjacent[span.end].push(i);
        proof {
            assert forall|p: int| 0 <= p < adjacent.len() implies (#[trigger] adjacent[p])@
                == touching(g.spans, p, i + 1) by {
                assert(before[p]@ == touching(g.spans, p, i as int));
            }
        }
        i += 1;
    }
    adjacent
}

/// Puts stretches into the queue, where they do not wait in it.
fn enqueue(work: &mut Work, more: &Vec<usize>, Ghost(spans): Ghost<int>)
    requires
        old(work).valid(spans),
        spans <= usize::MAX,
        forall|k: int| 0 <= k < more.len() ==> (#[trigger] more[k]) < spans,
        forall|k: int|
            0 <= k < old(work).state().queue.len() ==> (#[trigger] old(work).state().queue[k])
                < spans,
        old(work).state().queue.no_duplicates(),
    ensures
        final(work).valid(spans),
        final(work).mapped == old(work).mapped,
        final(work).grid == old(work).grid,
        final(work).next == old(work).next,
        final(work).state().queue == enqueued(old(work).state().queue, more@, more.len() as int),
{
    let ghost before = work.state().queue;
    let mut i: usize = 0;
    while i < more.len()
        invariant
            i <= more.len(),
            spans <= usize::MAX,
            forall|k: int| 0 <= k < more.len() ==> (#[trigger] more[k]) < spans,
            forall|k: int| 0 <= k < before.len() ==> (#[trigger] before[k]) < spans,
            before.no_duplicates(),
            work.valid(spans),
            work.mapped == old(work).mapped,
            work.grid == old(work).grid,
            work.next == old(work).next,
            work.state().queue == enqueued(before, more@, i as int),
        decreases more.len() - i,
    {
        let span = more[i];
        let ghost waiting = work.state().queue;
        if !work.queued[span] {
            work.queued.set(span, true);
            work.queue.push(span);
            proof {
                let now = work.state().queue;
                assert(now =~= waiting.push(span));
                assert forall|k: int| 0 <= k < spans implies #[trigger] work.queued[k] == waits(
                    now,
                    k,
                ) by {
                    if waits(waiting, k) {
                        let q = choose|q: int| 0 <= q < waiting.len() && waiting[q] == k as usize;
                        assert(now[q] == k as usize);
                    }
                    if waits(now, k) {
                        let q = choose|q: int| 0 <= q < now.len() && now[q] == k as usize;
                        if q < waiting.len() {
                            assert(waiting[q] == k as usize);
                            assert(waits(waiting, k));
                        }
                    }
                    if k == span {
                        assert(now[waiting.len() as int] == k as usize);
                    }
                }
            }
        } else {
            proof {
                assert(waits(waiting, span as int));
            }
        }
        i += 1;
    }
}

/// Rounds a moment; tells whether its place could be told.
fn raise(
    work: &mut Work,
    original: &Vec<Tick>,
    near: &Vec<usize>,
    point: usize,
    step: Tick,
    Ghost(g): Ghost<Graph>,
) -> (r: bool)
    requires
        is_graph(g),
        g.original == original@,
        point < original.len(),
        step == 3 || step == 6,
        near@ == touching(g.spans, point as int, g.spans.len() as int),
        old(work).valid(g.spans.len() as int),
        g.spans.len() <= usize::MAX,
        old(work).state().mapped.len() == g.original.len(),
        old(work).state().grid.len() == g.original.len(),
        forall|k: int|
            0 <= k < old(work).state().queue.len() ==> (#[trigger] old(work).state().queue[k])
                < g.spans.len(),
        old(work).state().queue.no_duplicates(),
    ensures
        r == (raised(g, old(work).state(), point as int, step as int) is Some),
        r ==> final(work).valid(g.spans.len() as int),
        r ==> final(work).state() == raised(g, old(work).state(), point as int, step as int)->Some_0,
{
    let ghost before = work.state();
    proof {
        assert(before.grid[point as int] == work.grid[point as int]);
    }
    if work.grid[point] >= step {
        return true;
    }
    let tick = original[point];
    proof {
        assert(g.original[point as int] >= 0);
    }
    let remainder: Tick = tick % step;
    let lower: Tick = tick - remainder;
    let to: Tick = if remainder * 2 < step {
        lower
    } else {
        if lower > i64::MAX - step {
            return false;
        }
        lower + step
    };
    work.grid.set(point, step);
    work.mapped.set(point, to);
    proof {
        let f = |x: Tick| x as int;
        assert(work.grid@.map_values(f) =~= before.grid.update(point as int, step as int));
        lemma_touching(g.spans, point as int, g.spans.len() as int);
        assert(work.state().queue == before.queue);
    }
    enqueue(work, near, Ghost(g.spans.len() as int));
    true
}

/// How much the moments can still be rounded.
spec fn slack(grid: Seq<int>) -> int
    decreases grid.len(),
{
    if grid.len() == 0 {
        0
    } else {
        slack(grid.drop_last()) + (6 - grid.last())
    }
}

proof fn lemma_slack(grid: Seq<int>, i: int, step: int)
    requires
        0 <= i < grid.len(),
        forall|k: int| 0 <= k < grid.len() ==> 0 <= #[trigger] grid[k] <= 6,
        0 <= step <= 6,
    ensures
        slack(grid.update(i, step)) == slack(grid) + grid[i] - step,
        slack(grid) >= 0,
    decreases grid.len(),
{
    let new = grid.update(i, step);
    if i == grid.len() - 1 {
        assert(new.drop_last() =~= grid.drop_last());
        lemma_slack_positive(grid);
    } else {
        assert(new.drop_last() =~= grid.drop_last().update(i, step));
        let front = grid.drop_last();
        assert forall|k: int| 0 <= k < front.len() implies 0 <= #[trigger] front[k] <= 6 by {
            assert(front[k] == grid[k]);
        }
        lemma_slack(front, i, step);
        assert(grid[grid.len() - 1] == grid.last());
    }
}

proof fn lemma_slack_positive(grid: Seq<int>)
    requires
        forall|k: int| 0 <= k < grid.len() ==> 0 <= #[trigger] grid[k] <= 6,
    ensures
        slack(grid) >= 0,
    decreases grid.len(),
{
    if grid.len() > 0 {
        let front = grid.drop_last();
        assert forall|k: int| 0 <= k < front.len() implies 0 <= #[trigger] front[k] <= 6 by {
            assert(front[k] == grid[k]);
        }
        lemma_slack_positive(front);
        assert(grid[grid.len() - 1] == grid.last());
    }
}

/// Rounding uses up some of what is left.
proof fn lemma_raised_slack(g: Graph, m: Moving, point: int, step: int)
    requires
        0 <= point < g.original.len(),
        step == 3 || step == 6,
        m.grid.len() == g.original.len(),
        forall|k: int| 0 <= k < m.grid.len() ==> 0 <= #[trigger] m.grid[k] <= 6,
        raised(g, m, point, step) is Some,
    ensures
        ({
            let new = raised(g, m, point, step)->Some_0;
            &&& new.grid.len() == m.grid.len()
            &&& forall|k: int| 0 <= k < new.grid.len() ==> 0 <= #[trigger] new.grid[k] <= 6
            &&& slack(new.grid) <= slack(m.grid)
            &&& m.grid[point] < step ==> slack(new.grid) < slack(m.grid)
            &&& slack(new.grid) >= 0
            &&& forall|k: int| 0 <= k < m.grid.len() && k != point ==> #[trigger] new.grid[k] == m.grid[k]
        }),
{
    lemma_slack_positive(m.grid);
    if m.grid[point] < step {
        lemma_slack(m.grid, point, step);
        let new = raised(g, m, point, step)->Some_0;
        assert forall|k: int| 0 <= k < new.grid.len() implies 0 <= #[trigger] new.grid[k] <= 6 by {
            if k != point {
                assert(new.grid[k] == m.grid[k]);
            }
        }
        lemma_slack_positive(new.grid);
    }
}

fn start_work(original: &Vec<Tick>, spans: usize, Ghost(g): Ghost<Graph>) -> (work: Work)
    requires
        g.original == original@,
        g.spans.len() == spans,
    ensures
        work.valid(spans as int),
        work.state() == unmoved(g),
        work.next == 0,
{
    let mut mapped: Vec<Tick> = Vec::new();
    let mut grid: Vec<Tick> = Vec::new();
    let mut i: usize = 0;
    while i < original.len()
        invariant
            i <= original.len(),
            mapped@ == original@.take(i as int),
            grid.len() == i,
            forall|k: int| 0 <= k < i ==> #[trigger] grid[k] == 0,
        decreases original.len() - i,
    {
        mapped.push(original[i]);
        grid.push(0);
        i += 1;
        proof {
            assert(mapped@ =~= original@.take(i as int));
        }
    }
    let mut queue: Vec<usize> = Vec::new();
    let mut queued: Vec<bool> = Vec::new();
    let mut i: usize = 0;
    while i < spans
        invariant
            i <= spans,
            queue.len() == i,
            queued.len() == i,
            forall|k: int| 0 <= k < i ==> #[trigger] queue[k] == k,
            forall|k: int| 0 <= k < i ==> #[trigger] queued[k],
        decreases spans - i,
    {
        queue.push(i);
        queued.push(true);
        i += 1;
    }
    let work = Work { mapped, grid, queue, next: 0, queued };
    proof {
        assert(original@.take(original.len() as int) =~= original@);
        let f = |x: Tick| x as int;
        assert(work.grid@.map_values(f) =~= unmoved(g).grid);
        assert(work.state().queue =~= unmoved(g).queue);
        assert forall|k: int| 0 <= k < spans implies #[trigger] work.queued[k] == waits(
            work.state().queue,
            k,
        ) by {
            assert(work.state().queue[k] == k as usize);
        }
    }
    work
}

/// Moves moments until every stretch between them can be written.
#[verifier::rlimit(60)]
pub fn resolve(original: &Vec<Tick>, spans: &Vec<Span>) -> (r: Result<Vec<Tick>, MoveFault>)
    requires
        is_graph(Graph { original: original@, spans: spans@ }),
    ensures
        match r {
            Ok(mapped) => settles(Graph { original: original@, spans: spans@ }, mapped@),
            Err(fault) => gives_up(Graph { original: original@, spans: spans@ }, fault),
        },
{
    let ghost g = Graph { original: original@, spans: spans@ };
    let table = inverse_table();
    let adjacent = neighbours(original.len(), spans, Ghost(g));
    let mut work = start_work(original, spans.len(), Ghost(g));
    let ghost mut steps: nat = 0;
    proof {
        lemma_unmoved(g);
        lemma_slack_positive(work.state().grid);
    }
    while work.next < work.queue.len()
        invariant
            g == (Graph { original: original@, spans: spans@ }),
            is_graph(g),
            table.len() == 768,
            forall|t: int| 0 <= t < 768 ==> #[trigger] table[t] == is_listed(t),
            lists_neighbours(adjacent@, g, spans.len() as int),
            work.valid(spans.len() as int),
            keeps(g, work.state()),
            moving(g, steps) == Progress::Open(work.state()),
            slack(work.state().grid) >= 0,
        decreases slack(work.state().grid), work.state().queue.len(),
    {
        let ghost m = work.state();
        let i = work.queue[work.next];
        proof {
            assert(m.queue[0] == i);
            lemma_popped(g, m);
            lemma_moved_on(g, m);
            assert forall|k: int| 0 <= k < m.grid.len() implies 0 <= #[trigger] m.grid[k] <= 6 by {
                assert(stands(g.original[k] as int, m.mapped[k] as int, m.grid[k]));
            }
            steps = steps + 1;
        }
        work.queued.set(i, false);
        work.next = work.next + 1;
        let ghost rest = Moving { queue: m.queue.skip(1), ..m };
        proof {
            assert(work.state().queue =~= m.queue.skip(1));
            assert(work.state() == rest);
            assert forall|k: int| 0 <= k < spans.len() implies #[trigger] work.queued[k] == waits(
                rest.queue,
                k,
            ) by {
                if waits(m.queue, k) {
                    let q = choose|q: int| 0 <= q < m.queue.len() && m.queue[q] == k as usize;
                    if q > 0 {
                        assert(rest.queue[q - 1] == k as usize);
                    }
                }
                if waits(rest.queue, k) {
                    let q = choose|q: int|
                        0 <= q < rest.queue.len() && rest.queue[q] == k as usize;
                    assert(m.queue[q + 1] == k as usize);
                }
            }
            assert(leads_on(g.original, g.spans[i as int]));
        }
        let span = spans[i];
        proof {
            assert(stands(
                g.original[span.start as int] as int,
                m.mapped[span.start as int] as int,
                m.grid[span.start as int],
            ));
            assert(stands(
                g.original[span.end as int] as int,
                m.mapped[span.end as int] as int,
                m.grid[span.end as int],
            ));
            assert(g.original[span.start as int] >= 0 && g.original[span.end as int] >= 0);
        }
        if !span_fits(span, &work.mapped, &table) {
            let from = work.grid[span.start];
            let to = work.grid[span.end];
            proof {
                assert(m.grid[span.start as int] == from);
                assert(m.grid[span.end as int] == to);
            }
            let step: Tick = if span.timed && (from < 3 || to < 3) {
                3
            } else {
                6
            };
            if from >= step && to >= step {
                let fault = MoveFault::Stuck {
                    start: original[span.start],
                    end: original[span.end],
                };
                proof {
                    assert(moving(g, steps) == Progress::Failed(fault));
                }
                return Err(fault);
            }
            if !raise(&mut work, original, &adjacent[span.start], span.start, step, Ghost(g)) {
                proof {
                    assert(moving(g, steps) == Progress::Failed(MoveFault::TooLarge));
                }
                return Err(MoveFault::TooLarge);
            }
            let ghost first = work.state();
            proof {
                lemma_raised(g, rest, span.start as int, step as int, i as int);
                lemma_raised_slack(g, rest, span.start as int, step as int);
            }
            if !raise(&mut work, original, &adjacent[span.end], span.end, step, Ghost(g)) {
                proof {
                    assert(moving(g, steps) == Progress::Failed(MoveFault::TooLarge));
                }
                return Err(MoveFault::TooLarge);
            }
            proof {
                lemma_raised_slack(g, first, span.end as int, step as int);
                assert(moving(g, steps) == Progress::Open(work.state()));
                assert(slack(work.state().grid) < slack(m.grid));
            }
        } else {
            proof {
                assert(moving(g, steps) == Progress::Open(work.state()));
            }
        }
    }
    proof {
        assert(work.state().queue.len() == 0);
        assert(moving(g, steps + 1) == Progress::Done(work.mapped@));
    }
    Ok(work.mapped)
}

} // verus!
