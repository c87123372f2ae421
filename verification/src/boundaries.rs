//! The moments of a score and the stretches between them.
use crate::mobile::{fits_table, is_compatible};
use crate::order::{lemma_order_sorts, lemma_stable_sort, order, stable_sort, Key};
use crate::polyphony::tick_key;
use crate::score::Tick;
use std::collections::{BTreeMap, BTreeSet};
use vstd::prelude::*;

verus! {

/// A stretch between two moments, given by their numbers. One that is timed has a length
/// that has to be written; of any other only the order of its moments counts.
#[derive(Clone, Copy, Debug, PartialEq, Eq, Structural)]
pub struct Span {
    pub start: usize,
    pub end: usize,
    pub timed: bool,
}

/// Moments, numbered in the order in which they were met, and stretches between them.
pub struct Graph {
    pub original: Seq<Tick>,
    pub spans: Seq<Span>,
}

/// The shortest stretch that is written.
pub const SHORTEST: Tick = 6;

/// Whether a stretch can be written when its moments stand at some ticks.
pub open spec fn is_valid(span: Span, points: Seq<Tick>) -> bool {
    let duration = points[span.end as int] - points[span.start as int];
    if span.timed {
        duration >= 6 && is_compatible(duration)
    } else {
        duration >= 0
    }
}

/// Whether no moment is numbered twice, none comes before the start, and every stretch
/// leads from a moment to a later one.
pub open spec fn is_graph(g: Graph) -> bool {
    &&& g.original.no_duplicates()
    &&& g.original.len() <= usize::MAX
    &&& forall|i: int| 0 <= i < g.original.len() ==> #[trigger] g.original[i] >= 0
    &&& forall|i: int| 0 <= i < g.spans.len() ==> leads_on(g.original, #[trigger] g.spans[i])
}

pub open spec fn leads_on(original: Seq<Tick>, span: Span) -> bool {
    &&& span.start < original.len()
    &&& span.end < original.len()
    &&& original[span.start as int] < original[span.end as int]
}

/// Moments with one more, unless it is known.
pub open spec fn with_point(original: Seq<Tick>, tick: Tick) -> Seq<Tick> {
    if original.contains(tick) {
        original
    } else {
        original.push(tick)
    }
}

/// The number of a moment.
pub open spec fn number_of(original: Seq<Tick>, tick: Tick) -> usize {
    original.index_of(tick) as usize
}

/// Whether a stretch between two moments has to be written.
pub open spec fn is_timed(spans: Seq<Span>, start: usize, end: usize) -> bool {
    spans.contains(Span { start, end, timed: true })
}

/// A graph with one more stretch that has to be written, where it lasts and is new.
pub open spec fn with_span(g: Graph, start: Tick, end: Tick) -> Graph {
    if start < end {
        let original = with_point(with_point(g.original, start), end);
        let a = number_of(original, start);
        let b = number_of(original, end);
        if is_timed(g.spans, a, b) {
            Graph { original, spans: g.spans }
        } else {
            Graph { original, spans: g.spans.push(Span { start: a, end: b, timed: true }) }
        }
    } else {
        g
    }
}

/// Whether two ticks bound a stretch.
pub open spec fn bounds(start: Tick, end: Tick) -> bool {
    0 <= start <= end
}

/// The moments in order of time.
pub open spec fn in_time(original: Seq<Tick>) -> Seq<Tick> {
    stable_sort(original, |t: Tick| tick_key(t))
}

/// Stretches with those between the first neighbouring moments that are not there.
pub open spec fn with_neighbours(spans: Seq<Span>, original: Seq<Tick>, n: int) -> Seq<Span>
    decreases n,
{
    if n <= 1 {
        spans
    } else {
        let before = with_neighbours(spans, original, n - 1);
        let sorted = in_time(original);
        let a = number_of(original, sorted[n - 2]);
        let b = number_of(original, sorted[n - 1]);
        if is_timed(spans, a, b) {
            before
        } else {
            before.push(Span { start: a, end: b, timed: false })
        }
    }
}

/// A graph in which every two neighbouring moments keep their order.
pub open spec fn ordered(g: Graph) -> Graph {
    Graph {
        original: g.original,
        spans: with_neighbours(g.spans, g.original, g.original.len() as int),
    }
}

/// Moments and stretches, with an index of both.
pub struct Boundaries {
    indices: BTreeMap<Tick, usize>,
    original: Vec<Tick>,
    spans: Vec<Span>,
    pairs: BTreeSet<u128>,
}

spec fn pair_of(start: usize, end: usize) -> u128 {
    (start * 0x1_0000_0000_0000_0000 + end) as u128
}

proof fn lemma_pair(a: usize, b: usize, c: usize, d: usize)
    ensures
        (pair_of(a, b) == pair_of(c, d)) == (a == c && b == d),
        0 <= a * 0x1_0000_0000_0000_0000 + b <= u128::MAX,
{
    assert(usize::MAX < 0x1_0000_0000_0000_0000);
}

proof fn lemma_with_point(original: Seq<Tick>, tick: Tick)
    requires
        original.no_duplicates(),
        original.len() < usize::MAX,
        forall|i: int| 0 <= i < original.len() ==> #[trigger] original[i] >= 0,
        tick >= 0,
    ensures
        with_point(original, tick).no_duplicates(),
        with_point(original, tick).contains(tick),
        forall|i: int|
            0 <= i < with_point(original, tick).len() ==> #[trigger] with_point(original, tick)[i]
                >= 0,
        original.len() <= with_point(original, tick).len() <= original.len() + 1,
        with_point(original, tick).take(original.len() as int) == original,
{
    let new = with_point(original, tick);
    assert(new.take(original.len() as int) =~= original);
    if !original.contains(tick) {
        assert(new[original.len() as int] == tick);
    }
}

proof fn lemma_number(original: Seq<Tick>, i: int)
    requires
        original.no_duplicates(),
        0 <= i < original.len() <= usize::MAX,
    ensures
        number_of(original, original[i]) == i,
{
    assert(original.contains(original[i]));
}

/// Whether numbers tell the moments in order of time.
spec fn tells_order(original: Seq<Tick>, sequence: Seq<usize>) -> bool {
    let sorted = in_time(original);
    &&& sequence.len() == original.len() == sorted.len()
    &&& forall|k: int| 0 <= k < sequence.len() ==> (#[trigger] sequence[k]) < original.len()
    &&& forall|k: int|
        0 <= k < sequence.len() ==> #[trigger] sorted[k] == original[sequence[k] as int]
    &&& forall|k: int|
        0 <= k < sequence.len() ==> number_of(original, #[trigger] sorted[k]) == sequence[k]
    &&& forall|k: int| 0 < k < sorted.len() ==> sorted[k - 1] < #[trigger] sorted[k]
}

fn time_order(original: &Vec<Tick>) -> (sequence: Vec<usize>)
    requires
        original@.no_duplicates(),
    ensures
        tells_order(original@, sequence@),
{
    let ghost sorted = in_time(original@);
    let mut keys: Vec<Key> = Vec::new();
    let mut i: usize = 0;
    while i < original.len()
        invariant
            i <= original.len(),
            keys.len() == i,
            forall|k: int| 0 <= k < i ==> #[trigger] keys[k] == tick_key(original[k]),
        decreases original.len() - i,
    {
        keys.push((original[i], 0, 0));
        i += 1;
    }
    let sequence = order(&keys);
    proof {
        let key = |t: Tick| tick_key(t);
        let f = |i: usize| original@[i as int];
        lemma_order_sorts(original@, keys@, key);
        lemma_stable_sort(original@, key);
        assert forall|i: int| 0 <= i < sequence.len() implies #[trigger] sorted[i]
            == original@[sequence[i] as int] by {
            assert(sequence@.map_values(f)[i] == f(sequence@[i]));
        }
        assert forall|i: int| 0 <= i < sequence.len() implies number_of(
            original@,
            #[trigger] sorted[i],
        ) == sequence[i] by {
            lemma_number(original@, sequence[i] as int);
        }
        lemma_sorted_distinct(original@);
    }
    sequence
}

impl Boundaries {
    pub closed spec fn graph(self) -> Graph {
        Graph { original: self.original@, spans: self.spans@ }
    }

    /// Whether the index tells the moments and the stretches.
    pub closed spec fn valid(self) -> bool {
        &&& is_graph(self.graph())
        &&& forall|t: Tick| #[trigger] self.indices@.contains_key(t) <==> self.original@.contains(t)
        &&& forall|t: Tick| #[trigger]
            self.indices@.contains_key(t) ==> self.indices@[t] < self.original.len()
                && self.original@[self.indices@[t] as int] == t
        &&& forall|a: usize, b: usize|
            #![trigger pair_of(a, b)]
            self.pairs@.contains(pair_of(a, b)) <==> is_timed(self.spans@, a, b)
        &&& forall|i: int| 0 <= i < self.spans.len() ==> (#[trigger] self.spans@[i]).timed
    }

    pub fn new() -> (b: Self)
        ensures
            b.valid(),
            b.graph() == (Graph { original: Seq::empty(), spans: Seq::empty() }),
    {
        broadcast use vstd::std_specs::btree::group_btree_axioms;

        let b = Boundaries {
            indices: BTreeMap::new(),
            original: Vec::new(),
            spans: Vec::new(),
            pairs: BTreeSet::new(),
        };
        proof {
            assert(b.original@ =~= Seq::<Tick>::empty());
            assert(b.spans@ =~= Seq::<Span>::empty());
        }
        b
    }

    /// The number of moments.
    pub fn points(&self) -> (n: usize)
        ensures
            n == self.graph().original.len(),
    {
        self.original.len()
    }

    /// What is noted makes up a graph.
    pub proof fn lemma_graph(self)
        requires
            self.valid(),
        ensures
            is_graph(self.graph()),
    {
    }

    /// The number of a moment, which is noted where it is new.
    pub fn index(&mut self, tick: Tick) -> (i: usize)
        requires
            old(self).valid(),
            tick >= 0,
            old(self).graph().original.len() < usize::MAX,
        ensures
            final(self).valid(),
            final(self).graph() == (Graph {
                original: with_point(old(self).graph().original, tick),
                spans: old(self).graph().spans,
            }),
            i == number_of(final(self).graph().original, tick),
            i < final(self).graph().original.len(),
            final(self).graph().original[i as int] == tick,
    {
        broadcast use vstd::std_specs::btree::group_btree_axioms;

        let ghost before = self.original@;
        proof {
            lemma_with_point(before, tick);
        }
        match self.indices.get(&tick) {
            Some(i) => {
                let i = *i;
                proof {
                    lemma_number(before, i as int);
                }
                i
            },
            None => {
                let i: usize = self.original.len();
                self.indices.insert(tick, i);
                self.original.push(tick);
                proof {
                    let new = self.original@;
                    assert(new == with_point(before, tick));
                    lemma_number(new, i as int);
                    assert forall|t: Tick| #[trigger] self.indices@.contains_key(t) <==> new.contains(
                        t,
                    ) by {
                        if new.contains(t) {
                            let k = choose|k: int| 0 <= k < new.len() && new[k] == t;
                            if k < before.len() {
                                assert(before[k] == t);
                                assert(before.contains(t));
                            }
                        }
                        if before.contains(t) {
                            let k = choose|k: int| 0 <= k < before.len() && before[k] == t;
                            assert(new[k] == t);
                        }
                    }
                    assert forall|k: int| 0 <= k < self.spans@.len() implies leads_on(
                        new,
                        #[trigger] self.spans@[k],
                    ) by {
                        assert(leads_on(before, self.spans@[k]));
                    }
                }
                i
            },
        }
    }

    /// Notes a stretch that has to be written, where it lasts.
    pub fn add_span(&mut self, start: Tick, end: Tick)
        requires
            old(self).valid(),
            bounds(start, end),
            old(self).graph().original.len() + 2 <= usize::MAX,
        ensures
            final(self).valid(),
            final(self).graph() == with_span(old(self).graph(), start, end),
    {
        broadcast use vstd::std_specs::btree::group_btree_axioms;

        if start >= end {
            return ;
        }
        let ghost g = self.graph();
        let a = self.index(start);
        let ghost middle = self.graph().original;
        let b = self.index(end);
        proof {
            lemma_with_point(middle, end);
            assert(self.original@.take(middle.len() as int) == middle);
            assert(middle[a as int] == start);
            assert(self.original@[a as int] == start);
            lemma_number(self.original@, a as int);
            lemma_pair(a, b, a, b);
        }
        let pair: u128 = a as u128 * 0x1_0000_0000_0000_0000 + b as u128;
        proof {
            assert(pair == pair_of(a, b));
        }
        let ghost known = self.spans@;
        if self.pairs.insert(pair) {
            let span = Span { start: a, end: b, timed: true };
            self.spans.push(span);
            proof {
                assert forall|x: usize, y: usize|
                    #![trigger pair_of(x, y)]
                    self.pairs@.contains(pair_of(x, y)) <==> is_timed(self.spans@, x, y) by {
                    lemma_pair(x, y, a, b);
                    let wanted = Span { start: x, end: y, timed: true };
                    if is_timed(known, x, y) {
                        let k = choose|k: int| 0 <= k < known.len() && known[k] == wanted;
                        assert(self.spans@[k] == wanted);
                    }
                    if is_timed(self.spans@, x, y) {
                        let k = choose|k: int|
                            0 <= k < self.spans@.len() && self.spans@[k] == wanted;
                        if k < known.len() {
                            assert(known[k] == wanted);
                        } else {
                            assert(wanted == span);
                        }
                    }
                    if x == a && y == b {
                        assert(self.spans@[known.len() as int] == wanted);
                    }
                }
            }
        }
    }

    /// Ties every two neighbouring moments, so that none overtakes another.
    pub fn preserve_order(self) -> (spans: (Vec<Tick>, Vec<Span>))
        requires
            self.valid(),
        ensures
            (Graph { original: spans.0@, spans: spans.1@ }) == ordered(self.graph()),
            is_graph(ordered(self.graph())),
    {
        broadcast use vstd::std_specs::btree::group_btree_axioms;

        let ghost g = self.graph();
        let ghost sorted = in_time(g.original);
        let sequence = time_order(&self.original);
        let mut spans: Vec<Span> = Vec::new();
        let mut i: usize = 0;
        while i < self.spans.len()
            invariant
                i <= self.spans.len(),
                spans@ == self.spans@.take(i as int),
            decreases self.spans.len() - i,
        {
            spans.push(self.spans[i]);
            i += 1;
            proof {
                assert(spans@ =~= self.spans@.take(i as int));
            }
        }
        proof {
            assert(self.spans@.take(i as int) =~= self.spans@);
            assert forall|i: int| 0 <= i < spans@.len() implies leads_on(
                g.original,
                #[trigger] spans@[i],
            ) by {
                assert(leads_on(g.original, g.spans[i]));
            }
        }
        let mut i: usize = 1;
        while i < sequence.len()
            invariant
                1 <= i,
                i <= sequence.len() || (sequence.len() == 0 && i == 1),
                self.valid(),
                g == self.graph(),
                sorted == in_time(g.original),
                tells_order(g.original, sequence@),
                spans@ == with_neighbours(g.spans, g.original, i as int),
                forall|k: int| 0 <= k < spans@.len() ==> leads_on(g.original, #[trigger] spans@[k]),
            decreases sequence.len() - i,
        {
            let a = sequence[i - 1];
            let b = sequence[i];
            proof {
                lemma_pair(a, b, a, b);
                assert(sorted[i - 1] < sorted[i as int]);
                assert(number_of(g.original, sorted[i - 1]) == a);
                assert(number_of(g.original, sorted[i as int]) == b);
            }
            let pair: u128 = a as u128 * 0x1_0000_0000_0000_0000 + b as u128;
            proof {
                assert(pair == pair_of(a, b));
            }
            if !self.pairs.contains(&pair) {
                spans.push(Span { start: a, end: b, timed: false });
            }
            i += 1;
        }
        proof {
            let n = g.original.len() as int;
            assert(tells_order(g.original, sequence@));
            assert(with_neighbours(g.spans, g.original, i as int) == with_neighbours(
                g.spans,
                g.original,
                n,
            ));
            assert(spans@ == ordered(g).spans);
        }
        (self.original, spans)
    }
}

proof fn lemma_sorted_distinct(original: Seq<Tick>)
    requires
        original.no_duplicates(),
    ensures
        in_time(original).len() == original.len(),
        forall|k: int|
            0 < k < original.len() ==> in_time(original)[k - 1] < #[trigger] in_time(original)[k],
{
    let key = |t: Tick| tick_key(t);
    let sorted = in_time(original);
    lemma_stable_sort(original, key);
    original.lemma_multiset_has_no_duplicates();
    sorted.lemma_multiset_has_no_duplicates_conv();
    assert(sorted.no_duplicates());
    assert forall|k: int| 0 < k < original.len() implies sorted[k - 1] < #[trigger] sorted[k] by {
        assert(!crate::order::key_less(key(sorted[k]), key(sorted[k - 1])));
        assert(sorted[k - 1] != sorted[k]);
    }
}

/// Where every stretch of an ordered graph can be written, the moments keep their order.
pub proof fn law_order_is_kept(g: Graph, points: Seq<Tick>, i: int, j: int)
    requires
        is_graph(g),
        points.len() == g.original.len(),
        forall|k: int|
            0 <= k < ordered(g).spans.len() ==> is_valid(#[trigger] ordered(g).spans[k], points),
        0 <= i < g.original.len(),
        0 <= j < g.original.len(),
        g.original[i] <= g.original[j],
    ensures
        points[i] <= points[j],
{
    let key = |t: Tick| tick_key(t);
    let sorted = in_time(g.original);
    lemma_stable_sort(g.original, key);
    lemma_sorted_distinct(g.original);
    assert(sorted.contains(g.original[i]));
    assert(sorted.contains(g.original[j]));
    let a = choose|a: int| 0 <= a < sorted.len() && sorted[a] == g.original[i];
    let b = choose|b: int| 0 <= b < sorted.len() && sorted[b] == g.original[j];
    lemma_number(g.original, i);
    lemma_number(g.original, j);
    if b < a {
        lemma_ascending(sorted, b, a);
    }
    lemma_chain(g, points, a, b);
}

proof fn lemma_ascending(sorted: Seq<Tick>, a: int, b: int)
    requires
        0 <= a < b < sorted.len(),
        forall|k: int| 0 < k < sorted.len() ==> sorted[k - 1] < #[trigger] sorted[k],
    ensures
        sorted[a] < sorted[b],
    decreases b - a,
{
    assert(sorted[b - 1] < sorted[b]);
    if a < b - 1 {
        lemma_ascending(sorted, a, b - 1);
    }
}

proof fn lemma_neighbour_span(g: Graph, n: int, k: int)
    requires
        2 <= k <= n,
    ensures
        ({
            let sorted = in_time(g.original);
            let a = number_of(g.original, sorted[k - 2]);
            let b = number_of(g.original, sorted[k - 1]);
            exists|i: int|
                0 <= i < with_neighbours(g.spans, g.original, n).len() && ({
                    let s = #[trigger] with_neighbours(g.spans, g.original, n)[i];
                    s.start == a && s.end == b
                })
        }),
        with_neighbours(g.spans, g.original, n).len() >= g.spans.len(),
        with_neighbours(g.spans, g.original, n).take(g.spans.len() as int) == g.spans,
    decreases n,
{
    let all = with_neighbours(g.spans, g.original, n);
    let before = with_neighbours(g.spans, g.original, n - 1);
    let sorted = in_time(g.original);
    let a = number_of(g.original, sorted[k - 2]);
    let b = number_of(g.original, sorted[k - 1]);
    lemma_neighbours_keep(g, n - 1);
    assert(all.take(g.spans.len() as int) =~= g.spans);
    if k < n {
        lemma_neighbour_span(g, n - 1, k);
        let i = choose|i: int|
            0 <= i < before.len() && ({
                let s = #[trigger] before[i];
                s.start == a && s.end == b
            });
        assert(all[i] == before[i]);
    } else if is_timed(g.spans, a, b) {
        let i = choose|i: int|
            0 <= i < g.spans.len() && g.spans[i] == (Span { start: a, end: b, timed: true });
        assert(all[i] == all.take(g.spans.len() as int)[i]);
    } else {
        assert(all[before.len() as int] == (Span { start: a, end: b, timed: false }));
    }
}

proof fn lemma_neighbours_keep(g: Graph, n: int)
    ensures
        with_neighbours(g.spans, g.original, n).len() >= g.spans.len(),
        with_neighbours(g.spans, g.original, n).take(g.spans.len() as int) == g.spans,
    decreases n,
{
    let all = with_neighbours(g.spans, g.original, n);
    if n > 1 {
        lemma_neighbours_keep(g, n - 1);
        let before = with_neighbours(g.spans, g.original, n - 1);
        assert(all.take(g.spans.len() as int) =~= before.take(g.spans.len() as int));
    } else {
        assert(all.take(g.spans.len() as int) =~= g.spans);
    }
}

proof fn lemma_chain(g: Graph, points: Seq<Tick>, a: int, b: int)
    requires
        is_graph(g),
        points.len() == g.original.len(),
        in_time(g.original).len() == g.original.len(),
        forall|k: int|
            0 <= k < ordered(g).spans.len() ==> is_valid(#[trigger] ordered(g).spans[k], points),
        0 <= a <= b < g.original.len(),
    ensures
        points[number_of(g.original, in_time(g.original)[a]) as int] <= points[number_of(
            g.original,
            in_time(g.original)[b],
        ) as int],
    decreases b - a,
{
    if a < b {
        lemma_chain(g, points, a, b - 1);
        let n = g.original.len() as int;
        lemma_neighbour_span(g, n, b + 1);
        let all = with_neighbours(g.spans, g.original, n);
        let x = number_of(g.original, in_time(g.original)[b - 1]);
        let y = number_of(g.original, in_time(g.original)[b]);
        let i = choose|i: int|
            0 <= i < all.len() && ({
                let s = #[trigger] all[i];
                s.start == x && s.end == y
            });
        assert(is_valid(ordered(g).spans[i], points));
    }
}

/// Tells whether a stretch can be written.
pub fn span_fits(span: Span, points: &Vec<Tick>, table: &Vec<bool>) -> (r: bool)
    requires
        span.start < points.len(),
        span.end < points.len(),
        points[span.start as int] >= 0,
        points[span.end as int] >= 0,
        table.len() == 768,
        forall|t: int| 0 <= t < 768 ==> #[trigger] table[t] == crate::mobile::is_listed(t),
    ensures
        r == is_valid(span, points@),
{
    let duration: Tick = points[span.end] - points[span.start];
    if span.timed {
        duration >= SHORTEST && fits_table(table, duration)
    } else {
        duration >= 0
    }
}

} // verus!
