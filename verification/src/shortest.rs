//! Cheapest ways through a network whose ways never gain.
use crate::network::{is_closed, is_flow, is_network, is_settled, is_way, leads, room, way_cost, way_from, way_to, Link};
use vstd::prelude::*;

verus! {

/// How far each moment is from the first, and by which way it is reached.
pub struct Paths {
    pub reached: Vec<bool>,
    pub distance: Vec<i128>,
    pub previous: Vec<usize>,
}

/// Flows and costs as numbers without a bound.
pub open spec fn amounts(flow: Seq<usize>) -> Seq<int> {
    flow.map_values(|f: usize| f as int)
}

/// Whether lists tell the ways that lead on from each moment.
pub open spec fn lists_ways(adjacent: Seq<Vec<usize>>, links: Seq<Link>, nodes: int) -> bool {
    &&& adjacent.len() == nodes
    &&& 2 * links.len() <= usize::MAX
    &&& forall|x: int, k: int|
        #![trigger adjacent[x]@[k]]
        0 <= x < nodes && 0 <= k < adjacent[x].len() ==> is_way(links, adjacent[x]@[k] as int)
            && way_from(links, adjacent[x]@[k] as int) == x
    &&& forall|way: int|
        is_way(links, way) ==> #[trigger] listed(adjacent, way_from(links, way), way)
}

pub open spec fn listed(adjacent: Seq<Vec<usize>>, x: int, way: int) -> bool {
    0 <= x < adjacent.len() && exists|k: int| 0 <= k < adjacent[x].len() && #[trigger] adjacent[x]@[k] == way
}

/// Whether a moment was reached by a way that has room and costs as much as the distances
/// tell, from a moment that was done with before.
pub open spec fn arrives(
    links: Seq<Link>,
    flow: Seq<int>,
    heights: Seq<int>,
    reached: Seq<bool>,
    distance: Seq<i128>,
    previous: Seq<usize>,
    rank: Seq<int>,
    y: int,
) -> bool {
    let way = previous[y] as int;
    &&& is_way(links, way)
    &&& room(links, flow, way) > 0
    &&& way_to(links, way) == y
    &&& 0 <= way_from(links, way) < reached.len()
    &&& reached[way_from(links, way)]
    &&& distance[y] == distance[way_from(links, way)] + way_cost(links, heights, way)
    &&& rank[way_from(links, way)] < rank[y]
}

/// Whether ways with room lead on from a moment by no more than they cost.
pub open spec fn relaxed(
    links: Seq<Link>,
    flow: Seq<int>,
    heights: Seq<int>,
    reached: Seq<bool>,
    distance: Seq<i128>,
    way: int,
) -> bool {
    room(links, flow, way) > 0 ==> reached[way_to(links, way)] && distance[way_to(links, way)]
        <= distance[way_from(links, way)] + way_cost(links, heights, way)
}

/// Whether paths are cheapest ones.
pub open spec fn are_shortest(
    links: Seq<Link>,
    nodes: int,
    flow: Seq<int>,
    heights: Seq<int>,
    paths: Paths,
    rank: Seq<int>,
    bound: int,
) -> bool {
    let reached = paths.reached@;
    let distance = paths.distance@;
    let previous = paths.previous@;
    &&& reached.len() == nodes
    &&& distance.len() == nodes
    &&& previous.len() == nodes
    &&& rank.len() == nodes
    &&& reached[0]
    &&& distance[0] == 0
    &&& forall|way: int|
        is_way(links, way) && #[trigger] reached[way_from(links, way)] ==> relaxed(
            links,
            flow,
            heights,
            reached,
            distance,
            way,
        )
    &&& forall|y: int|
        0 < y < nodes && #[trigger] reached[y] ==> arrives(
            links,
            flow,
            heights,
            reached,
            distance,
            previous,
            rank,
            y,
        )
    &&& forall|y: int| 0 <= y < nodes && #[trigger] reached[y] ==> 0 <= distance[y] && -nodes * bound
        <= distance[y] + heights[y] <= nodes * bound
    &&& forall|y: int| 0 <= y < nodes && #[trigger] reached[y] ==> rank[y] >= 0
}

/// The number of moments that are not done with.
spec fn open_count(settled: Seq<bool>) -> int
    decreases settled.len(),
{
    if settled.len() == 0 {
        0
    } else {
        open_count(settled.drop_last()) + (if settled.last() {
            0int
        } else {
            1int
        })
    }
}

proof fn lemma_open_count(settled: Seq<bool>, i: int)
    requires
        0 <= i < settled.len(),
        !settled[i],
    ensures
        open_count(settled.update(i, true)) == open_count(settled) - 1,
        open_count(settled) >= 1,
    decreases settled.len(),
{
    let new = settled.update(i, true);
    if i == settled.len() - 1 {
        assert(new.drop_last() =~= settled.drop_last());
        lemma_open_bounds(settled.drop_last());
    } else {
        assert(new.drop_last() =~= settled.drop_last().update(i, true));
        lemma_open_count(settled.drop_last(), i);
    }
}

proof fn lemma_open_bounds(settled: Seq<bool>)
    ensures
        0 <= open_count(settled) <= settled.len(),
    decreases settled.len(),
{
    if settled.len() > 0 {
        lemma_open_bounds(settled.drop_last());
    }
}

proof fn lemma_open_all(n: nat)
    ensures
        open_count(Seq::new(n, |i: int| false)) == n,
    decreases n,
{
    if n > 0 {
        let s = Seq::new(n, |i: int| false);
        assert(s.drop_last() =~= Seq::new((n - 1) as nat, |i: int| false));
        lemma_open_all((n - 1) as nat);
    }
}

/// What the search works on.
struct Search {
    paths: Paths,
    settled: Vec<bool>,
    rank: Ghost<Seq<int>>,
    done: Ghost<int>,
}

/// The network in which is searched.
struct Net {
    links: Ghost<Seq<Link>>,
    nodes: Ghost<int>,
    flow: Ghost<Seq<int>>,
    heights: Ghost<Seq<int>>,
    bound: Ghost<int>,
}

spec fn fits(net: Net, s: Search) -> bool {
    &&& s.paths.reached@.len() == net.nodes@
    &&& s.paths.distance@.len() == net.nodes@
    &&& s.paths.previous@.len() == net.nodes@
    &&& s.settled@.len() == net.nodes@
    &&& s.rank@.len() == net.nodes@
    &&& s.done@ + open_count(s.settled@) == net.nodes@
    &&& s.done@ >= 0
}

/// What holds of the moments that were reached; those that are done with are no farther
/// than `near`, and the others no nearer.
spec fn reached_well(net: Net, s: Search) -> bool {
    &&& s.paths.reached@[0]
    &&& s.paths.distance@[0] == 0
    &&& forall|y: int|
        0 < y < net.nodes@ && #[trigger] s.paths.reached@[y] ==> reached_by(net, s, y)
    &&& forall|y: int|
        0 <= y < net.nodes@ && #[trigger] s.paths.reached@[y] ==> 0 <= s.paths.distance@[y]
            && -s.done@ * net.bound@ <= s.paths.distance@[y] + net.heights@[y] <= s.done@
            * net.bound@
    &&& forall|y: int| 0 <= y < net.nodes@ && #[trigger] s.settled@[y] ==> s.paths.reached@[y] && 0
        <= s.rank@[y] < s.done@
}

spec fn reached_by(net: Net, s: Search, y: int) -> bool {
    let way = s.paths.previous@[y] as int;
    &&& is_way(net.links@, way)
    &&& room(net.links@, net.flow@, way) > 0
    &&& way_to(net.links@, way) == y
    &&& 0 <= way_from(net.links@, way) < net.nodes@
    &&& s.settled@[way_from(net.links@, way)]
    &&& s.paths.distance@[y] == s.paths.distance@[way_from(net.links@, way)] + way_cost(
        net.links@,
        net.heights@,
        way,
    )
    &&& s.settled@[y] ==> s.rank@[way_from(net.links@, way)] < s.rank@[y]
}

spec fn way_relaxed(net: Net, s: Search, way: int) -> bool {
    relaxed(net.links@, net.flow@, net.heights@, s.paths.reached@, s.paths.distance@, way)
}

/// Every way on from a moment that is done with, but for one moment, has been looked at.
spec fn looked_at(net: Net, s: Search, but: int) -> bool {
    forall|way: int|
        is_way(net.links@, way) && #[trigger] s.settled@[way_from(net.links@, way)] && way_from(
            net.links@,
            way,
        ) != but ==> way_relaxed(net, s, way)
}

spec fn ordered(net: Net, s: Search) -> bool {
    forall|x: int, y: int|
        #![trigger s.settled@[x], s.paths.reached@[y]]
        0 <= x < net.nodes@ && 0 <= y < net.nodes@ && s.settled@[x] && s.paths.reached@[y]
            && !s.settled@[y] ==> s.paths.distance@[x] <= s.paths.distance@[y]
}

/// The nearest moment that was reached and is not done with; of several the first.
fn nearest_open(s: &Search, nodes: usize, Ghost(net): Ghost<Net>) -> (r: Option<usize>)
    requires
        fits(net, *s),
        nodes == net.nodes@,
    ensures
        match r {
            Some(u) => u < nodes && s.paths.reached@[u as int] && !s.settled@[u as int]
                && forall|y: int|
                0 <= y < nodes && s.paths.reached@[y] && !s.settled@[y]
                    ==> s.paths.distance@[u as int] <= #[trigger] s.paths.distance@[y],
            None => forall|y: int|
                0 <= y < nodes && #[trigger] s.paths.reached@[y] ==> s.settled@[y],
        },
{
    let mut best: Option<usize> = None;
    let mut i: usize = 0;
    while i < nodes
        invariant
            i <= nodes == net.nodes@,
            fits(net, *s),
            match best {
                Some(u) => u < nodes && s.paths.reached@[u as int] && !s.settled@[u as int]
                    && forall|y: int|
                    0 <= y < i && s.paths.reached@[y] && !s.settled@[y]
                        ==> s.paths.distance@[u as int] <= #[trigger] s.paths.distance@[y],
                None => forall|y: int|
                    0 <= y < i && #[trigger] s.paths.reached@[y] ==> s.settled@[y],
            },
        decreases nodes - i,
    {
        if s.paths.reached[i] && !s.settled[i] {
            match best {
                None => {
                    best = Some(i);
                },
                Some(u) => {
                    if s.paths.distance[i] < s.paths.distance[u] {
                        best = Some(i);
                    }
                },
            }
        }
        i += 1;
    }
    best
}

/// Looks along one way.
#[verifier::rlimit(60)]
fn look_along(
    s: &mut Search,
    links: &Vec<Link>,
    potentials: &Vec<i128>,
    flow: &Vec<usize>,
    u: usize,
    way: usize,
    Ghost(net): Ghost<Net>,
    Ghost(known): Ghost<Seq<bool>>,
)
    requires
        is_network(net.links@, net.nodes@, net.bound@),
        net.links@ == links@,
        net.flow@ == amounts(flow@),
        is_flow(net.links@, net.flow@),
        net.heights@.len() == net.nodes@,
        net.nodes@ <= usize::MAX,
        net.bound@ <= 0x1_0000_0000_0000,
        potentials@.len() == net.nodes@,
        known.len() == net.nodes@,
        forall|x: int| 0 <= x < net.nodes@ && #[trigger] known[x] ==> potentials@[x] == net.heights@[x],
        forall|x: int| 0 <= x < net.nodes@ ==> -net.nodes@ * net.bound@ <= #[trigger] potentials@[x] <= net.nodes@ * net.bound@,
        is_settled(net.links@, net.flow@, net.heights@),
        is_closed(net.links@, net.flow@, known),
        fits(net, *old(s)),
        reached_well(net, *old(s)),
        ordered(net, *old(s)),
        looked_at(net, *old(s), u as int),
        u < net.nodes@,
        old(s).settled@[u as int],
        forall|x: int| 0 <= x < net.nodes@ && #[trigger] old(s).settled@[x] ==> old(s).paths.distance@[x] <= old(s).paths.distance@[u as int],
        forall|y: int| 0 <= y < net.nodes@ && #[trigger] old(s).paths.reached@[y] ==> known[y],
        -(old(s).done@ - 1) * net.bound@ <= old(s).paths.distance@[u as int] + net.heights@[u as int] <= (old(s).done@ - 1) * net.bound@,
        is_way(net.links@, way as int),
        way_from(net.links@, way as int) == u,
    ensures
        fits(net, *final(s)),
        reached_well(net, *final(s)),
        ordered(net, *final(s)),
        looked_at(net, *final(s), u as int),
        final(s).settled == old(s).settled,
        final(s).rank == old(s).rank,
        final(s).done == old(s).done,
        final(s).paths.distance@[u as int] == old(s).paths.distance@[u as int],
        forall|x: int| 0 <= x < net.nodes@ && #[trigger] final(s).settled@[x] ==> final(s).paths.distance@[x] == old(s).paths.distance@[x],
        forall|y: int| 0 <= y < net.nodes@ && #[trigger] final(s).paths.reached@[y] ==> known[y],
        forall|y: int| 0 <= y < net.nodes@ && #[trigger] old(s).paths.reached@[y] ==> final(s).paths.reached@[y] && final(s).paths.distance@[y] <= old(s).paths.distance@[y],
        way_relaxed(net, *final(s), way as int),
{
    let e: usize = way / 2;
    let link = links[e];
    let onward = way % 2 == 0;
    proof {
        assert(leads(links@[e as int], net.nodes@, net.bound@));
        assert(net.flow@[e as int] == flow@[e as int]);
        assert(0 <= net.flow@[e as int] <= links@[e as int].capacity);
    }
    let free: usize = if onward {
        link.capacity - flow[e]
    } else {
        flow[e]
    };
    if free == 0 {
        return ;
    }
    let to: usize = if onward {
        link.to
    } else {
        link.from
    };
    let ghost n = net.nodes@;
    let ghost b = net.bound@;
    proof {
        assert(room(net.links@, net.flow@, way as int) > 0);
        assert(s.paths.reached@[u as int]);
        assert(known[u as int]);
        assert(known[to as int]);
        assert(way_cost(net.links@, net.heights@, way as int) >= 0);
        assert(potentials@[u as int] == net.heights@[u as int]);
        assert(potentials@[to as int] == net.heights@[to as int]);
        lemma_open_bounds(s.settled@);
        lemma_products(n, b, s.done@);
        assert(-n * b <= potentials@[u as int] <= n * b);
        assert(-n * b <= potentials@[to as int] <= n * b);
        assert(n * b <= 0x1_0000_0000_0000_0000 * 0x1_0000_0000_0000) by (nonlinear_arith)
            requires
                0 <= n <= 0x1_0000_0000_0000_0000,
                0 <= b <= 0x1_0000_0000_0000,
        ;
    }
    let cost: i128 = if onward {
        link.cost
    } else {
        -link.cost
    };
    let next: i128 = s.paths.distance[u] + cost + potentials[u] - potentials[to];
    proof {
        assert(next == s.paths.distance@[u as int] + way_cost(net.links@, net.heights@, way as int));
    }
    let ghost before = *s;
    if !s.paths.reached[to] || next < s.paths.distance[to] {
        proof {
            if s.settled@[to as int] {
                assert(s.paths.distance@[to as int] <= s.paths.distance@[u as int]);
                assert(false);
            }
            assert(to != 0);
        }
        s.paths.reached.set(to, true);
        s.paths.distance.set(to, next);
        s.paths.previous.set(to, way);
        proof {
            lemma_improved(net, before, *s, u as int, way as int);
        }
    }
}

/// Reaching a moment by a cheaper way keeps what holds.
proof fn lemma_improved(net: Net, before: Search, s: Search, u: int, way: int)
    requires
        is_network(net.links@, net.nodes@, net.bound@),
        fits(net, before),
        fits(net, s),
        reached_well(net, before),
        ordered(net, before),
        looked_at(net, before, u),
        0 <= u < net.nodes@,
        before.settled@[u],
        forall|x: int|
            0 <= x < net.nodes@ && #[trigger] before.settled@[x] ==> before.paths.distance@[x]
                <= before.paths.distance@[u],
        -(before.done@ - 1) * net.bound@ <= before.paths.distance@[u] + net.heights@[u] <= (
        before.done@ - 1) * net.bound@,
        is_way(net.links@, way),
        way_from(net.links@, way) == u,
        room(net.links@, net.flow@, way) > 0,
        way_cost(net.links@, net.heights@, way) >= 0,
        s.settled == before.settled,
        s.rank == before.rank,
        s.done == before.done,
        way_to(net.links@, way) != 0,
        !before.settled@[way_to(net.links@, way)],
        s.paths.reached@ == before.paths.reached@.update(way_to(net.links@, way), true),
        s.paths.previous@ == before.paths.previous@.update(
            way_to(net.links@, way),
            s.paths.previous@[way_to(net.links@, way)],
        ),
        s.paths.previous@[way_to(net.links@, way)] == way,
        s.paths.distance@ == before.paths.distance@.update(
            way_to(net.links@, way),
            s.paths.distance@[way_to(net.links@, way)],
        ),
        s.paths.distance@[way_to(net.links@, way)] == before.paths.distance@[u] + way_cost(
            net.links@,
            net.heights@,
            way,
        ),
        before.paths.reached@[way_to(net.links@, way)] ==> s.paths.distance@[way_to(
            net.links@,
            way,
        )] < before.paths.distance@[way_to(net.links@, way)],
    ensures
        reached_well(net, s),
        ordered(net, s),
        looked_at(net, s, u),
        way_relaxed(net, s, way),
        forall|y: int|
            0 <= y < net.nodes@ && #[trigger] before.paths.reached@[y] ==> s.paths.reached@[y]
                && s.paths.distance@[y] <= before.paths.distance@[y],
{
    let n = net.nodes@;
    let b = net.bound@;
    let to = way_to(net.links@, way);
    let next = s.paths.distance@[to];
    let link = net.links@[way / 2];
    assert(leads(link, n, b));
    let cost: int = if way % 2 == 0 {
        link.cost as int
    } else {
        -link.cost as int
    };
    assert(next + net.heights@[to] == before.paths.distance@[u] + net.heights@[u] + cost);
    let k = s.done@;
    let at = before.paths.distance@[u] + net.heights@[u];
    assert(-k * b <= at + cost <= k * b) by (nonlinear_arith)
        requires
            -(k - 1) * b <= at <= (k - 1) * b,
            -b <= cost <= b,
    ;
    assert(0 <= before.paths.distance@[u]);
    assert forall|y: int| 0 < y < n && #[trigger] s.paths.reached@[y] implies reached_by(
        net,
        s,
        y,
    ) by {
        if y != to {
            assert(before.paths.reached@[y]);
            assert(reached_by(net, before, y));
        }
    }
    assert forall|y: int| 0 <= y < n && #[trigger] s.paths.reached@[y] implies 0
        <= s.paths.distance@[y] && -k * b <= s.paths.distance@[y] + net.heights@[y] <= k * b by {
        if y != to {
            assert(before.paths.reached@[y]);
        }
    }
    assert forall|y: int| 0 <= y < n && #[trigger] s.settled@[y] implies s.paths.reached@[y] && 0
        <= s.rank@[y] < s.done@ by {
        assert(before.settled@[y]);
    }
    assert forall|x: int, y: int|
        #![trigger s.settled@[x], s.paths.reached@[y]]
        0 <= x < n && 0 <= y < n && s.settled@[x] && s.paths.reached@[y]
            && !s.settled@[y] implies s.paths.distance@[x] <= s.paths.distance@[y] by {
        assert(before.settled@[x]);
        if y != to {
            assert(before.paths.reached@[y]);
        }
    }
    assert forall|w: int|
        is_way(net.links@, w) && #[trigger] s.settled@[way_from(net.links@, w)] && way_from(
            net.links@,
            w,
        ) != u implies way_relaxed(net, s, w) by {
        assert(before.settled@[way_from(net.links@, w)]);
        assert(way_relaxed(net, before, w));
        assert(leads(net.links@[w / 2], n, b));
    }
}

proof fn lemma_products(n: int, b: int, k: int)
    requires
        0 <= b,
        k <= n,
    ensures
        k * b <= n * b,
        -n * b <= -k * b,
        -n * b == -(n * b),
{
    assert(k * b <= n * b) by (nonlinear_arith)
        requires
            0 <= b,
            k <= n,
    ;
    assert(-n * b == -(n * b)) by (nonlinear_arith);
    assert(-k * b == -(k * b)) by (nonlinear_arith);
}

/// Looks along every way on from a moment.
fn look_around(
    s: &mut Search,
    links: &Vec<Link>,
    ways: &Vec<usize>,
    potentials: &Vec<i128>,
    flow: &Vec<usize>,
    u: usize,
    Ghost(net): Ghost<Net>,
    Ghost(known): Ghost<Seq<bool>>,
)
    requires
        is_network(net.links@, net.nodes@, net.bound@),
        net.links@ == links@,
        net.flow@ == amounts(flow@),
        is_flow(net.links@, net.flow@),
        net.heights@.len() == net.nodes@,
        net.nodes@ <= usize::MAX,
        net.bound@ <= 0x1_0000_0000_0000,
        potentials@.len() == net.nodes@,
        known.len() == net.nodes@,
        forall|x: int| 0 <= x < net.nodes@ && #[trigger] known[x] ==> potentials@[x] == net.heights@[x],
        forall|x: int| 0 <= x < net.nodes@ ==> -net.nodes@ * net.bound@ <= #[trigger] potentials@[x] <= net.nodes@ * net.bound@,
        is_settled(net.links@, net.flow@, net.heights@),
        is_closed(net.links@, net.flow@, known),
        fits(net, *old(s)),
        reached_well(net, *old(s)),
        ordered(net, *old(s)),
        looked_at(net, *old(s), u as int),
        u < net.nodes@,
        old(s).settled@[u as int],
        forall|x: int| 0 <= x < net.nodes@ && #[trigger] old(s).settled@[x] ==> old(s).paths.distance@[x] <= old(s).paths.distance@[u as int],
        forall|y: int| 0 <= y < net.nodes@ && #[trigger] old(s).paths.reached@[y] ==> known[y],
        -(old(s).done@ - 1) * net.bound@ <= old(s).paths.distance@[u as int] + net.heights@[u as int] <= (old(s).done@ - 1) * net.bound@,
        forall|k: int| 0 <= k < ways.len() ==> is_way(net.links@, #[trigger] ways@[k] as int) && way_from(net.links@, ways@[k] as int) == u,
        forall|way: int| is_way(net.links@, way) && way_from(net.links@, way) == u ==> exists|k: int| 0 <= k < ways.len() && #[trigger] ways@[k] == way,
    ensures
        fits(net, *final(s)),
        reached_well(net, *final(s)),
        ordered(net, *final(s)),
        looked_at(net, *final(s), -1),
        final(s).settled == old(s).settled,
        final(s).done == old(s).done,
        forall|y: int| 0 <= y < net.nodes@ && #[trigger] final(s).paths.reached@[y] ==> known[y],
{
    let ghost first = *s;
    let mut i: usize = 0;
    while i < ways.len()
        invariant
            i <= ways.len(),
            is_network(net.links@, net.nodes@, net.bound@),
            net.links@ == links@,
            net.flow@ == amounts(flow@),
            is_flow(net.links@, net.flow@),
            net.heights@.len() == net.nodes@,
            net.nodes@ <= usize::MAX,
            net.bound@ <= 0x1_0000_0000_0000,
            potentials@.len() == net.nodes@,
            known.len() == net.nodes@,
            forall|x: int| 0 <= x < net.nodes@ && #[trigger] known[x] ==> potentials@[x] == net.heights@[x],
            forall|x: int| 0 <= x < net.nodes@ ==> -net.nodes@ * net.bound@ <= #[trigger] potentials@[x] <= net.nodes@ * net.bound@,
            is_settled(net.links@, net.flow@, net.heights@),
            is_closed(net.links@, net.flow@, known),
            fits(net, *s),
            reached_well(net, *s),
            ordered(net, *s),
            looked_at(net, *s, u as int),
            u < net.nodes@,
            s.settled == first.settled,
            s.rank == first.rank,
            s.done == first.done,
            s.settled@[u as int],
            s.paths.distance@[u as int] == first.paths.distance@[u as int],
            forall|x: int| 0 <= x < net.nodes@ && #[trigger] s.settled@[x] ==> s.paths.distance@[x] <= s.paths.distance@[u as int],
            forall|y: int| 0 <= y < net.nodes@ && #[trigger] s.paths.reached@[y] ==> known[y],
            -(s.done@ - 1) * net.bound@ <= s.paths.distance@[u as int] + net.heights@[u as int] <= (s.done@ - 1) * net.bound@,
            forall|k: int| 0 <= k < ways.len() ==> is_way(net.links@, #[trigger] ways@[k] as int) && way_from(net.links@, ways@[k] as int) == u,
            forall|k: int| 0 <= k < i ==> way_relaxed(net, *s, #[trigger] ways@[k] as int),
        decreases ways.len() - i,
    {
        let ghost before = *s;
        let way = ways[i];
        proof {
            assert(is_way(net.links@, ways@[i as int] as int));
        }
        look_along(s, links, potentials, flow, u, way, Ghost(net), Ghost(known));
        proof {
            assert forall|k: int| 0 <= k < i + 1 implies way_relaxed(
                net,
                *s,
                #[trigger] ways@[k] as int,
            ) by {
                if k < i {
                    assert(way_relaxed(net, before, ways@[k] as int));
                    assert(is_way(net.links@, ways@[k] as int));
                    assert(leads(net.links@[ways@[k] as int / 2], net.nodes@, net.bound@));
                    let to = way_to(net.links@, ways@[k] as int);
                    if room(net.links@, net.flow@, ways@[k] as int) > 0 {
                        assert(before.paths.reached@[to]);
                        assert(s.paths.reached@[to]);
                    }
                }
            }
            assert forall|x: int| 0 <= x < net.nodes@ && #[trigger] s.settled@[x] implies s.paths.distance@[x]
                <= s.paths.distance@[u as int] by {
                assert(before.settled@[x]);
            }
        }
        i += 1;
    }
    proof {
        assert forall|way: int|
            is_way(net.links@, way) && #[trigger] s.settled@[way_from(net.links@, way)] implies way_relaxed(
            net,
            *s,
            way,
        ) by {
            if way_from(net.links@, way) == u {
                let k = choose|k: int| 0 <= k < ways.len() && #[trigger] ways@[k] == way;
                assert(way_relaxed(net, *s, ways@[k] as int));
            }
        }
    }
}

/// Finds the cheapest ways from the first moment.
#[verifier::rlimit(60)]
pub fn shortest(
    links: &Vec<Link>,
    adjacent: &Vec<Vec<usize>>,
    flow: &Vec<usize>,
    potentials: &Vec<i128>,
    nodes: usize,
    Ghost(heights): Ghost<Seq<int>>,
    Ghost(bound): Ghost<int>,
    Ghost(known): Ghost<Seq<bool>>,
) -> (r: (Paths, Ghost<Seq<int>>))
    requires
        is_network(links@, nodes as int, bound),
        lists_ways(adjacent@, links@, nodes as int),
        is_flow(links@, amounts(flow@)),
        heights.len() == nodes,
        heights[0] == 0,
        bound <= 0x1_0000_0000_0000,
        potentials@.len() == nodes,
        known.len() == nodes,
        known[0],
        forall|x: int| 0 <= x < nodes && #[trigger] known[x] ==> potentials@[x] == heights[x],
        forall|x: int| 0 <= x < nodes ==> -nodes * bound <= #[trigger] potentials@[x] <= nodes * bound,
        is_settled(links@, amounts(flow@), heights),
        is_closed(links@, amounts(flow@), known),
    ensures
        are_shortest(links@, nodes as int, amounts(flow@), heights, r.0, r.1@, bound),
        forall|y: int| 0 <= y < nodes && #[trigger] r.0.reached@[y] ==> known[y],
{
    let ghost net = Net {
        links: Ghost(links@),
        nodes: Ghost(nodes as int),
        flow: Ghost(amounts(flow@)),
        heights: Ghost(heights),
        bound: Ghost(bound),
    };
    let mut reached: Vec<bool> = Vec::new();
    let mut distance: Vec<i128> = Vec::new();
    let mut previous: Vec<usize> = Vec::new();
    let mut settled: Vec<bool> = Vec::new();
    let mut i: usize = 0;
    while i < nodes
        invariant
            i <= nodes,
            reached.len() == i,
            distance.len() == i,
            previous.len() == i,
            settled.len() == i,
            forall|k: int| 0 <= k < i ==> #[trigger] reached[k] == (k == 0),
            forall|k: int| 0 <= k < i ==> #[trigger] distance[k] == 0,
            forall|k: int| 0 <= k < i ==> !#[trigger] settled[k],
        decreases nodes - i,
    {
        reached.push(i == 0);
        distance.push(0);
        previous.push(0);
        settled.push(false);
        i += 1;
    }
    let mut s = Search {
        paths: Paths { reached, distance, previous },
        settled,
        rank: Ghost(Seq::new(nodes as nat, |i: int| 0int)),
        done: Ghost(0),
    };
    proof {
        lemma_open_all(nodes as nat);
        assert(s.settled@ =~= Seq::new(nodes as nat, |i: int| false));
        assert(0 * bound == 0 && -0 * bound == 0);
    }
    loop
        invariant
            net.links@ == links@,
            net.nodes@ == nodes,
            net.flow@ == amounts(flow@),
            net.heights@ == heights,
            net.bound@ == bound,
            is_network(links@, nodes as int, bound),
            lists_ways(adjacent@, links@, nodes as int),
            is_flow(links@, amounts(flow@)),
            heights.len() == nodes,
            bound <= 0x1_0000_0000_0000,
            potentials@.len() == nodes,
            known.len() == nodes,
            forall|x: int| 0 <= x < nodes && #[trigger] known[x] ==> potentials@[x] == heights[x],
            forall|x: int| 0 <= x < nodes ==> -nodes * bound <= #[trigger] potentials@[x] <= nodes * bound,
            is_settled(links@, amounts(flow@), heights),
            is_closed(links@, amounts(flow@), known),
            fits(net, s),
            reached_well(net, s),
            ordered(net, s),
            looked_at(net, s, -1),
            forall|y: int| 0 <= y < nodes && #[trigger] s.paths.reached@[y] ==> known[y],
        ensures
            fits(net, s),
            reached_well(net, s),
            looked_at(net, s, -1),
            forall|y: int| 0 <= y < nodes && #[trigger] s.paths.reached@[y] ==> known[y],
            forall|y: int| 0 <= y < nodes && #[trigger] s.paths.reached@[y] ==> s.settled@[y],
        decreases open_count(s.settled@),
    {
        match nearest_open(&s, nodes, Ghost(net)) {
            None => {
                break;
            },
            Some(u) => {
                let ghost before = s;
                proof {
                    lemma_open_count(s.settled@, u as int);
                    lemma_open_bounds(s.settled@);
                    lemma_settle(net, before, u as int);
                }
                s.settled.set(u, true);
                s.rank = Ghost(before.rank@.update(u as int, before.done@));
                s.done = Ghost(before.done@ + 1);
                proof {
                    assert(s.settled@ == before.settled@.update(u as int, true));
                    assert(s.paths == before.paths);
                    assert(fits(net, s));
                    assert(reached_well(net, s));
                    assert(ordered(net, s));
                    assert(looked_at(net, s, u as int));
                    assert forall|x: int| 0 <= x < nodes && #[trigger] s.settled@[x] implies s.paths.distance@[x]
                        <= s.paths.distance@[u as int] by {
                        if x != u {
                            assert(before.settled@[x] && before.paths.reached@[u as int]);
                        }
                    }
                    assert forall|way: int| is_way(links@, way) && way_from(links@, way)
                        == u implies exists|k: int|
                        0 <= k < adjacent@[u as int].len() && #[trigger] adjacent@[u as int]@[k] == way by {
                        assert(listed(adjacent@, way_from(links@, way), way));
                    }
                }
                look_around(&mut s, links, &adjacent[u], potentials, flow, u, Ghost(net), Ghost(known));
            },
        }
    }
    proof {
        lemma_open_bounds(s.settled@);
        lemma_products(nodes as int, bound, s.done@);
        assert forall|way: int|
            is_way(links@, way) && #[trigger] s.paths.reached@[way_from(links@, way)] implies relaxed(
            links@,
            amounts(flow@),
            heights,
            s.paths.reached@,
            s.paths.distance@,
            way,
        ) by {
            assert(leads(links@[way / 2], nodes as int, bound));
            assert(s.settled@[way_from(links@, way)]);
            assert(way_relaxed(net, s, way));
        }
        assert forall|y: int|
            0 < y < nodes && #[trigger] s.paths.reached@[y] implies arrives(
            links@,
            amounts(flow@),
            heights,
            s.paths.reached@,
            s.paths.distance@,
            s.paths.previous@,
            s.rank@,
            y,
        ) by {
            assert(reached_by(net, s, y));
            assert(s.settled@[y]);
        }
        assert forall|y: int| 0 <= y < nodes && #[trigger] s.paths.reached@[y] implies s.rank@[y] >= 0 by {
            assert(s.settled@[y]);
        }
    }
    let ghost rank = s.rank@;
    (s.paths, Ghost(rank))
}

/// Being done with the nearest moment keeps what holds.
proof fn lemma_settle(net: Net, before: Search, u: int)
    requires
        is_network(net.links@, net.nodes@, net.bound@),
        fits(net, before),
        reached_well(net, before),
        ordered(net, before),
        looked_at(net, before, -1),
        0 <= u < net.nodes@,
        before.paths.reached@[u],
        !before.settled@[u],
        forall|y: int|
            0 <= y < net.nodes@ && before.paths.reached@[y] && !before.settled@[y]
                ==> before.paths.distance@[u] <= #[trigger] before.paths.distance@[y],
    ensures
        forall|s: Search|
            s.paths == before.paths && s.settled@ == before.settled@.update(u, true) && s.rank@
                == before.rank@.update(u, before.done@) && s.done@ == before.done@ + 1 ==> {
                &&& #[trigger] fits(net, s)
                &&& reached_well(net, s)
                &&& ordered(net, s)
                &&& looked_at(net, s, u)
            },
        -before.done@ * net.bound@ <= before.paths.distance@[u] + net.heights@[u] <= before.done@
            * net.bound@,
{
    assert forall|s: Search|
        s.paths == before.paths && s.settled@ == before.settled@.update(u, true) && s.rank@
            == before.rank@.update(u, before.done@) && s.done@ == before.done@ + 1 implies {
        &&& #[trigger] fits(net, s)
        &&& reached_well(net, s)
        &&& ordered(net, s)
        &&& looked_at(net, s, u)
    } by {
        lemma_open_count(before.settled@, u);
        lemma_products(s.done@, net.bound@, before.done@);
        assert(fits(net, s));
        assert forall|y: int| 0 < y < net.nodes@ && #[trigger] s.paths.reached@[y] implies reached_by(
            net,
            s,
            y,
        ) by {
            assert(before.paths.reached@[y]);
            assert(reached_by(net, before, y));
            let x = way_from(net.links@, before.paths.previous@[y] as int);
            assert(before.settled@[x]);
        }
        assert forall|y: int|
            0 <= y < net.nodes@ && #[trigger] s.paths.reached@[y] implies 0 <= s.paths.distance@[y]
            && -s.done@ * net.bound@ <= s.paths.distance@[y] + net.heights@[y] <= s.done@
            * net.bound@ by {
            assert(before.paths.reached@[y]);
        }
        assert forall|y: int| 0 <= y < net.nodes@ && #[trigger] s.settled@[y] implies s.paths.reached@[y] && 0
            <= s.rank@[y] < s.done@ by {
            if y != u {
                assert(before.settled@[y]);
            }
        }
        assert forall|x: int, y: int|
            #![trigger s.settled@[x], s.paths.reached@[y]]
            0 <= x < net.nodes@ && 0 <= y < net.nodes@ && s.settled@[x] && s.paths.reached@[y]
                && !s.settled@[y] implies s.paths.distance@[x] <= s.paths.distance@[y] by {
            assert(before.paths.reached@[y] && !before.settled@[y]);
            if x != u {
                assert(before.settled@[x]);
            }
        }
        assert forall|way: int|
            is_way(net.links@, way) && #[trigger] s.settled@[way_from(net.links@, way)] && way_from(
                net.links@,
                way,
            ) != u implies way_relaxed(net, s, way) by {
            assert(leads(net.links@[way / 2], net.nodes@, net.bound@));
            assert(before.settled@[way_from(net.links@, way)]);
            assert(way_relaxed(net, before, way));
        }
    }
}

} // verus!
