//! Flows along a line of moments: what crosses each gap, and which flow costs least.
use vstd::prelude::*;

verus! {

/// A link from a moment to a later one, with what it can carry and what a unit costs.
#[derive(Clone, Copy, Debug)]
pub struct Link {
    pub from: usize,
    pub to: usize,
    pub capacity: usize,
    pub cost: i128,
}

/// Whether every link leads on along a line of moments and costs no more than a bound.
pub open spec fn is_network(links: Seq<Link>, nodes: int, bound: int) -> bool {
    &&& nodes >= 1
    &&& bound >= 0
    &&& forall|e: int| 0 <= e < links.len() ==> leads(#[trigger] links[e], nodes, bound)
}

pub open spec fn leads(link: Link, nodes: int, bound: int) -> bool {
    link.from < link.to < nodes && -bound <= link.cost <= bound
}

/// Whether a flow uses no link beyond what it can carry.
pub open spec fn is_flow(links: Seq<Link>, flow: Seq<int>) -> bool {
    &&& flow.len() == links.len()
    &&& forall|e: int| 0 <= e < links.len() ==> 0 <= #[trigger] flow[e] <= links[e].capacity
}

/// What the first links carry across the gap behind a moment.
pub open spec fn across(links: Seq<Link>, flow: Seq<int>, gap: int, n: int) -> int
    decreases n,
{
    if n <= 0 {
        0
    } else {
        across(links, flow, gap, n - 1) + (if links[n - 1].from <= gap < links[n - 1].to {
            flow[n - 1]
        } else {
            0
        })
    }
}

/// Whether as much flows across every gap.
pub open spec fn carries(links: Seq<Link>, nodes: int, flow: Seq<int>, amount: int) -> bool {
    forall|gap: int|
        0 <= gap < nodes - 1 ==> #[trigger] across(links, flow, gap, links.len() as int) == amount
}

/// What the first links cost.
pub open spec fn cost_of(links: Seq<Link>, flow: Seq<int>, n: int) -> int
    decreases n,
{
    if n <= 0 {
        0
    } else {
        cost_of(links, flow, n - 1) + flow[n - 1] * links[n - 1].cost
    }
}

/// What a unit on a link costs when moments are given heights.
pub open spec fn reduced(link: Link, heights: Seq<int>) -> int {
    link.cost + heights[link.from as int] - heights[link.to as int]
}

/// By how much the heights fall along the first links, times the flow.
pub open spec fn fall(links: Seq<Link>, flow: Seq<int>, heights: Seq<int>, n: int) -> int
    decreases n,
{
    if n <= 0 {
        0
    } else {
        fall(links, flow, heights, n - 1) + flow[n - 1] * (heights[links[n - 1].from as int]
            - heights[links[n - 1].to as int])
    }
}

/// By how much the heights fall over the first gaps, times what flows across each.
spec fn stepwise(links: Seq<Link>, flow: Seq<int>, heights: Seq<int>, n: int, gaps: int) -> int
    decreases gaps,
{
    if gaps <= 0 {
        0
    } else {
        stepwise(links, flow, heights, n, gaps - 1) + (heights[gaps - 1] - heights[gaps]) * across(
            links,
            flow,
            gaps - 1,
            n,
        )
    }
}

spec fn clamp(x: int, top: int) -> int {
    if x < top {
        x
    } else {
        top
    }
}

proof fn lemma_stepwise_link(links: Seq<Link>, flow: Seq<int>, heights: Seq<int>, n: int, gaps: int)
    requires
        0 < n <= links.len(),
        0 <= gaps < heights.len(),
        links[n - 1].from < links[n - 1].to,
    ensures
        stepwise(links, flow, heights, n, gaps) == stepwise(links, flow, heights, n - 1, gaps)
            + flow[n - 1] * (heights[clamp(links[n - 1].from as int, gaps)] - heights[clamp(
            links[n - 1].to as int,
            gaps,
        )]),
    decreases gaps,
{
    let link = links[n - 1];
    let f = flow[n - 1];
    if gaps <= 0 {
        assert(f * (heights[0] - heights[0]) == 0) by (nonlinear_arith);
    } else {
        lemma_stepwise_link(links, flow, heights, n, gaps - 1);
        let gap = gaps - 1;
        let d = heights[gap] - heights[gaps];
        let a = across(links, flow, gap, n - 1);
        let before = heights[clamp(link.from as int, gap)] - heights[clamp(link.to as int, gap)];
        let after = heights[clamp(link.from as int, gaps)] - heights[clamp(link.to as int, gaps)];
        if link.from <= gap < link.to {
            assert(across(links, flow, gap, n) == a + f);
            assert(d * (a + f) == d * a + f * d) by (nonlinear_arith);
            assert(after == before + d);
            assert(f * after == f * before + f * d) by (nonlinear_arith)
                requires
                    after == before + d,
            ;
        } else {
            assert(across(links, flow, gap, n) == a);
            assert(after == before);
        }
    }
}

proof fn lemma_stepwise_none(links: Seq<Link>, flow: Seq<int>, heights: Seq<int>, gaps: int)
    ensures
        stepwise(links, flow, heights, 0, gaps) == 0,
    decreases gaps,
{
    if gaps > 0 {
        lemma_stepwise_none(links, flow, heights, gaps - 1);
        assert((heights[gaps - 1] - heights[gaps]) * across(links, flow, gaps - 1, 0) == 0)
            by (nonlinear_arith)
            requires
                across(links, flow, gaps - 1, 0) == 0,
        ;
    }
}

proof fn lemma_fall_steps(links: Seq<Link>, nodes: int, flow: Seq<int>, heights: Seq<int>, n: int)
    requires
        nodes >= 1,
        heights.len() == nodes,
        0 <= n <= links.len(),
        forall|e: int| 0 <= e < links.len() ==> (#[trigger] links[e]).from < links[e].to < nodes,
    ensures
        fall(links, flow, heights, n) == stepwise(links, flow, heights, n, nodes - 1),
    decreases n,
{
    if n <= 0 {
        lemma_stepwise_none(links, flow, heights, nodes - 1);
    } else {
        lemma_fall_steps(links, nodes, flow, heights, n - 1);
        assert(links[n - 1].from < links[n - 1].to < nodes);
        lemma_stepwise_link(links, flow, heights, n, nodes - 1);
    }
}

proof fn lemma_stepwise_even(links: Seq<Link>, nodes: int, flow: Seq<int>, heights: Seq<int>, amount: int, gaps: int)
    requires
        heights.len() == nodes,
        0 <= gaps < nodes,
        carries(links, nodes, flow, amount),
    ensures
        stepwise(links, flow, heights, links.len() as int, gaps) == amount * (heights[0]
            - heights[gaps]),
    decreases gaps,
{
    if gaps > 0 {
        lemma_stepwise_even(links, nodes, flow, heights, amount, gaps - 1);
        let a = across(links, flow, gaps - 1, links.len() as int);
        assert(a == amount);
        let x = heights[0] - heights[gaps - 1];
        let d = heights[gaps - 1] - heights[gaps];
        assert(amount * x + d * amount == amount * (x + d)) by (nonlinear_arith);
    } else {
        assert(amount * (heights[0] - heights[0]) == 0) by (nonlinear_arith);
    }
}

/// An even flow falls by the height between the first and the last moment.
pub proof fn lemma_even_fall(links: Seq<Link>, nodes: int, flow: Seq<int>, heights: Seq<int>, amount: int)
    requires
        nodes >= 1,
        heights.len() == nodes,
        forall|e: int| 0 <= e < links.len() ==> (#[trigger] links[e]).from < links[e].to < nodes,
        carries(links, nodes, flow, amount),
    ensures
        fall(links, flow, heights, links.len() as int) == amount * (heights[0] - heights[nodes
            - 1]),
{
    lemma_fall_steps(links, nodes, flow, heights, links.len() as int);
    lemma_stepwise_even(links, nodes, flow, heights, amount, nodes - 1);
}

/// Whether a flow uses no link that costs something at given heights, and fills those that
/// gain.
pub open spec fn is_tight(links: Seq<Link>, flow: Seq<int>, heights: Seq<int>) -> bool {
    forall|e: int|
        0 <= e < links.len() ==> {
            &&& reduced(#[trigger] links[e], heights) > 0 ==> flow[e] == 0
            &&& reduced(links[e], heights) < 0 ==> flow[e] == links[e].capacity
        }
}

proof fn lemma_tight_sum(links: Seq<Link>, flow: Seq<int>, other: Seq<int>, heights: Seq<int>, n: int)
    requires
        is_flow(links, flow),
        is_flow(links, other),
        is_tight(links, flow, heights),
        0 <= n <= links.len(),
    ensures
        cost_of(links, flow, n) + fall(links, flow, heights, n) <= cost_of(links, other, n) + fall(
            links,
            other,
            heights,
            n,
        ),
    decreases n,
{
    if n > 0 {
        lemma_tight_sum(links, flow, other, heights, n - 1);
        let link = links[n - 1];
        let f = flow[n - 1];
        let g = other[n - 1];
        let c = link.cost as int;
        let h = heights[link.from as int] - heights[link.to as int];
        let r = reduced(link, heights);
        assert(r == c + h);
        assert(0 <= g <= link.capacity);
        assert(f * r <= g * r) by (nonlinear_arith)
            requires
                r > 0 ==> f == 0,
                r < 0 ==> g <= f,
                g >= 0,
        ;
        assert(f * c + f * h == f * r) by (nonlinear_arith)
            requires
                r == c + h,
        ;
        assert(g * c + g * h == g * r) by (nonlinear_arith)
            requires
                r == c + h,
        ;
    }
}

/// A tight flow costs no more than any other that carries as much.
pub proof fn law_tight_is_cheapest(
    links: Seq<Link>,
    nodes: int,
    flow: Seq<int>,
    other: Seq<int>,
    heights: Seq<int>,
    amount: int,
)
    requires
        nodes >= 1,
        heights.len() == nodes,
        forall|e: int| 0 <= e < links.len() ==> (#[trigger] links[e]).from < links[e].to < nodes,
        is_flow(links, flow),
        is_flow(links, other),
        carries(links, nodes, flow, amount),
        carries(links, nodes, other, amount),
        is_tight(links, flow, heights),
    ensures
        cost_of(links, flow, links.len() as int) <= cost_of(links, other, links.len() as int),
{
    lemma_even_fall(links, nodes, flow, heights, amount);
    lemma_even_fall(links, nodes, other, heights, amount);
    lemma_tight_sum(links, flow, other, heights, links.len() as int);
}

/// Each link can be used onward, and backward to take flow off it. Ways are numbered: the
/// even ones lead onward.
pub open spec fn way_from(links: Seq<Link>, way: int) -> int {
    if way % 2 == 0 {
        links[way / 2].from as int
    } else {
        links[way / 2].to as int
    }
}

pub open spec fn way_to(links: Seq<Link>, way: int) -> int {
    if way % 2 == 0 {
        links[way / 2].to as int
    } else {
        links[way / 2].from as int
    }
}

/// What a way can still carry.
pub open spec fn room(links: Seq<Link>, flow: Seq<int>, way: int) -> int {
    if way % 2 == 0 {
        links[way / 2].capacity - flow[way / 2]
    } else {
        flow[way / 2]
    }
}

/// What a unit on a way costs at given heights.
pub open spec fn way_cost(links: Seq<Link>, heights: Seq<int>, way: int) -> int {
    if way % 2 == 0 {
        reduced(links[way / 2], heights)
    } else {
        -reduced(links[way / 2], heights)
    }
}

pub open spec fn is_way(links: Seq<Link>, way: int) -> bool {
    0 <= way < 2 * links.len()
}

/// The way along the same link in the other direction.
pub open spec fn back(way: int) -> int {
    if way % 2 == 0 {
        way + 1
    } else {
        way - 1
    }
}

/// Whether no way that has room gains at given heights.
pub open spec fn is_settled(links: Seq<Link>, flow: Seq<int>, heights: Seq<int>) -> bool {
    forall|way: int|
        is_way(links, way) && #[trigger] room(links, flow, way) > 0 ==> way_cost(
            links,
            heights,
            way,
        ) >= 0
}

/// Where no way gains the flow is tight.
pub proof fn lemma_settled_tight(links: Seq<Link>, flow: Seq<int>, heights: Seq<int>)
    requires
        is_flow(links, flow),
        is_settled(links, flow, heights),
    ensures
        is_tight(links, flow, heights),
{
    assert forall|e: int| 0 <= e < links.len() implies {
        &&& reduced(#[trigger] links[e], heights) > 0 ==> flow[e] == 0
        &&& reduced(links[e], heights) < 0 ==> flow[e] == links[e].capacity
    } by {
        assert((2 * e) % 2 == 0 && (2 * e) / 2 == e);
        assert((2 * e + 1) % 2 == 1 && (2 * e + 1) / 2 == e);
        assert(is_way(links, 2 * e) && is_way(links, 2 * e + 1));
        assert(room(links, flow, 2 * e) == links[e].capacity - flow[e]);
        assert(room(links, flow, 2 * e + 1) == flow[e]);
        assert(way_cost(links, heights, 2 * e) == reduced(links[e], heights));
        assert(way_cost(links, heights, 2 * e + 1) == -reduced(links[e], heights));
        assert(0 <= flow[e] <= links[e].capacity);
    }
}

/// A flow with one unit more along a way.
pub open spec fn pushed(flow: Seq<int>, way: int) -> Seq<int> {
    flow.update(
        way / 2,
        if way % 2 == 0 {
            flow[way / 2] + 1
        } else {
            flow[way / 2] - 1
        },
    )
}

proof fn lemma_across_update(links: Seq<Link>, flow: Seq<int>, e: int, x: int, gap: int, n: int)
    requires
        0 <= e < flow.len(),
        flow.len() == links.len(),
        0 <= n <= links.len(),
    ensures
        across(links, flow.update(e, x), gap, n) == across(links, flow, gap, n) + (if e < n
            && links[e].from <= gap < links[e].to {
            x - flow[e]
        } else {
            0
        }),
    decreases n,
{
    if n > 0 {
        lemma_across_update(links, flow, e, x, gap, n - 1);
    }
}

/// A unit along a way adds one to what crosses the gaps it passes, onward, and takes one
/// off, backward.
pub proof fn lemma_pushed(links: Seq<Link>, flow: Seq<int>, way: int, gap: int)
    requires
        links[way / 2].from < links[way / 2].to,
        is_flow(links, flow),
        is_way(links, way),
        room(links, flow, way) > 0,
    ensures
        is_flow(links, pushed(flow, way)),
        across(links, pushed(flow, way), gap, links.len() as int) == across(
            links,
            flow,
            gap,
            links.len() as int,
        ) + (if way_from(links, way) <= gap < way_to(links, way) {
            1int
        } else if way_to(links, way) <= gap < way_from(links, way) {
            -1int
        } else {
            0int
        }),
{
    let e = way / 2;
    let x = pushed(flow, way)[e];
    assert(0 <= flow[e] <= links[e].capacity);
    lemma_across_update(links, flow, e, x, gap, links.len() as int);
    assert(way % 2 == 0 || way % 2 == 1);
}

/// What a unit along one way leaves of the room on another.
pub proof fn lemma_room_after(links: Seq<Link>, flow: Seq<int>, way: int, other: int)
    requires
        flow.len() == links.len(),
        is_way(links, way),
        is_way(links, other),
    ensures
        other != way && other != back(way) ==> room(links, pushed(flow, way), other) == room(
            links,
            flow,
            other,
        ),
        room(links, pushed(flow, way), way) == room(links, flow, way) - 1,
        room(links, pushed(flow, way), back(way)) == room(links, flow, back(way)) + 1,
{
    if other / 2 == way / 2 {
        assert(other == way || other == back(way));
    }
    assert(back(way) / 2 == way / 2);
    assert(back(way) % 2 != way % 2);
}

/// Whether ways with room lead on from marked moments to marked moments only.
pub open spec fn is_closed(links: Seq<Link>, flow: Seq<int>, marks: Seq<bool>) -> bool {
    forall|way: int|
        is_way(links, way) && #[trigger] room(links, flow, way) > 0 && marks[way_from(links, way)]
            ==> marks[way_to(links, way)]
}

/// A mark as a height.
pub open spec fn mark_heights(marks: Seq<bool>) -> Seq<int> {
    marks.map_values(
        |m: bool|
            if m {
                1int
            } else {
                0int
            },
    )
}

/// What flows over links on which marks end fills them, and nothing flows back.
proof fn lemma_closed_link(links: Seq<Link>, nodes: int, flow: Seq<int>, marks: Seq<bool>, e: int)
    requires
        marks.len() == nodes,
        is_flow(links, flow),
        is_closed(links, flow, marks),
        0 <= e < links.len(),
        links[e].from < links[e].to < nodes,
    ensures
        marks[links[e].from as int] && !marks[links[e].to as int] ==> flow[e] == links[e].capacity,
        !marks[links[e].from as int] && marks[links[e].to as int] ==> flow[e] == 0,
{
    assert((2 * e) % 2 == 0 && (2 * e) / 2 == e);
    assert((2 * e + 1) % 2 == 1 && (2 * e + 1) / 2 == e);
    assert(is_way(links, 2 * e) && is_way(links, 2 * e + 1));
    assert(room(links, flow, 2 * e) == links[e].capacity - flow[e]);
    assert(room(links, flow, 2 * e + 1) == flow[e]);
    assert(way_from(links, 2 * e) == links[e].from && way_to(links, 2 * e) == links[e].to);
    assert(way_from(links, 2 * e + 1) == links[e].to && way_to(links, 2 * e + 1) == links[e].from);
    assert(0 <= flow[e] <= links[e].capacity);
}

proof fn lemma_closed_fall(
    links: Seq<Link>,
    nodes: int,
    flow: Seq<int>,
    marks: Seq<bool>,
    full: Seq<int>,
    n: int,
)
    requires
        marks.len() == nodes,
        is_flow(links, flow),
        is_closed(links, flow, marks),
        forall|e: int| 0 <= e < links.len() ==> (#[trigger] links[e]).from < links[e].to < nodes,
        forall|e: int|
            0 <= e < links.len() ==> 0 <= #[trigger] full[e] && (marks[links[e].from as int]
                && !marks[links[e].to as int] ==> full[e] <= links[e].capacity),
        full.len() == links.len(),
        0 <= n <= links.len(),
    ensures
        fall(links, flow, mark_heights(marks), n) >= fall(links, full, mark_heights(marks), n),
        fall(links, flow, mark_heights(marks), n) >= 0,
    decreases n,
{
    if n > 0 {
        lemma_closed_fall(links, nodes, flow, marks, full, n - 1);
        let h = mark_heights(marks);
        let e = n - 1;
        assert(links[e].from < links[e].to < nodes);
        lemma_closed_link(links, nodes, flow, marks, e);
        let f = flow[e];
        let g = full[e];
        let d = h[links[e].from as int] - h[links[e].to as int];
        assert(0 <= f <= links[e].capacity);
        assert(g >= 0);
        assert(f * d >= g * d && f * d >= 0) by (nonlinear_arith)
            requires
                d == 1 || d == 0 || d == -1,
                d == 1 ==> f >= g,
                d == -1 ==> f == 0,
                g >= 0,
                f >= 0,
        ;
    }
}

/// Where some flow `full` that keeps to the links' room at the edge of the marks carries an
/// amount, a flow that cannot be led beyond the marks carries that amount at least.
pub proof fn lemma_stuck(
    links: Seq<Link>,
    nodes: int,
    flow: Seq<int>,
    marks: Seq<bool>,
    amount: int,
    full: Seq<int>,
    wanted: int,
)
    requires
        nodes >= 1,
        marks.len() == nodes,
        marks[0],
        !marks[nodes - 1],
        is_flow(links, flow),
        is_closed(links, flow, marks),
        forall|e: int| 0 <= e < links.len() ==> (#[trigger] links[e]).from < links[e].to < nodes,
        carries(links, nodes, flow, amount),
        full.len() == links.len(),
        forall|e: int|
            0 <= e < links.len() ==> 0 <= #[trigger] full[e] && (marks[links[e].from as int]
                && !marks[links[e].to as int] ==> full[e] <= links[e].capacity),
        carries(links, nodes, full, wanted),
    ensures
        amount >= wanted,
{
    let h = mark_heights(marks);
    lemma_even_fall(links, nodes, flow, h, amount);
    lemma_even_fall(links, nodes, full, h, wanted);
    lemma_closed_fall(links, nodes, flow, marks, full, links.len() as int);
    assert(h[0] == 1 && h[nodes - 1] == 0);
    assert(amount * (h[0] - h[nodes - 1]) == amount) by (nonlinear_arith)
        requires
            h[0] - h[nodes - 1] == 1,
    ;
    assert(wanted * (h[0] - h[nodes - 1]) == wanted) by (nonlinear_arith)
        requires
            h[0] - h[nodes - 1] == 1,
    ;
}

/// A flow cannot be stuck where a link that it fills carries the whole of what is wanted.
pub proof fn lemma_stuck_link(
    links: Seq<Link>,
    nodes: int,
    flow: Seq<int>,
    marks: Seq<bool>,
    amount: int,
    e: int,
)
    requires
        nodes >= 1,
        marks.len() == nodes,
        marks[0],
        !marks[nodes - 1],
        is_flow(links, flow),
        is_closed(links, flow, marks),
        forall|e: int| 0 <= e < links.len() ==> (#[trigger] links[e]).from < links[e].to < nodes,
        carries(links, nodes, flow, amount),
        0 <= e < links.len(),
        marks[links[e].from as int],
        !marks[links[e].to as int],
    ensures
        amount >= links[e].capacity,
{
    let h = mark_heights(marks);
    lemma_even_fall(links, nodes, flow, h, amount);
    lemma_one_link(links, nodes, flow, marks, e, links.len() as int);
    assert(amount * (h[0] - h[nodes - 1]) == amount) by (nonlinear_arith)
        requires
            h[0] - h[nodes - 1] == 1,
    ;
}

proof fn lemma_one_link(
    links: Seq<Link>,
    nodes: int,
    flow: Seq<int>,
    marks: Seq<bool>,
    e: int,
    n: int,
)
    requires
        marks.len() == nodes,
        is_flow(links, flow),
        is_closed(links, flow, marks),
        forall|e: int| 0 <= e < links.len() ==> (#[trigger] links[e]).from < links[e].to < nodes,
        0 <= e < n <= links.len(),
        marks[links[e].from as int],
        !marks[links[e].to as int],
    ensures
        fall(links, flow, mark_heights(marks), n) >= links[e].capacity,
    decreases n,
{
    let h = mark_heights(marks);
    let none = Seq::new(links.len(), |i: int| 0int);
    lemma_closed_fall(links, nodes, flow, marks, none, n - 1);
    lemma_closed_fall(links, nodes, flow, marks, none, n);
    let last = n - 1;
    assert(links[last].from < links[last].to < nodes);
    lemma_closed_link(links, nodes, flow, marks, last);
    let f = flow[last];
    let d = h[links[last].from as int] - h[links[last].to as int];
    if e == last {
        assert(f * d == f) by (nonlinear_arith)
            requires
                d == 1,
        ;
    } else {
        lemma_one_link(links, nodes, flow, marks, e, n - 1);
        assert(0 <= f);
        assert(f * d >= 0) by (nonlinear_arith)
            requires
                f >= 0,
                d == 1 || d == 0 || d == -1,
                d == -1 ==> f == 0,
        ;
    }
}

} // verus!
