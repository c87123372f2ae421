//! Notes that begin at once.
use crate::order::{lemma_order_sorts, lemma_stable_sort, order, stable_sort, Key};
use crate::polyphony::tick_key;
use crate::score::{Note, Tick};
use std::collections::BTreeMap;
use vstd::prelude::*;

verus! {

/// Of the first of some notes those that begin at a tick.
pub open spec fn at_tick(notes: Seq<Note>, ids: Seq<usize>, tick: Tick, n: int) -> Seq<usize>
    decreases n,
{
    if n <= 0 {
        Seq::empty()
    } else if notes[ids[n - 1] as int].on == tick {
        at_tick(notes, ids, tick, n - 1).push(ids[n - 1])
    } else {
        at_tick(notes, ids, tick, n - 1)
    }
}

/// Notes that begin at one tick.
#[derive(Debug)]
pub struct Onset {
    pub tick: Tick,
    pub notes: Vec<usize>,
}

/// Whether onsets hold notes by the tick at which they begin, in order of time.
pub open spec fn are_onsets(onsets: Seq<Onset>, notes: Seq<Note>, ids: Seq<usize>) -> bool {
    &&& forall|i: int, j: int|
        #![trigger onsets[i], onsets[j]]
        0 <= i < j < onsets.len() ==> onsets[i].tick < onsets[j].tick
    &&& forall|g: int|
        0 <= g < onsets.len() ==> (#[trigger] onsets[g]).notes@ == at_tick(
            notes,
            ids,
            onsets[g].tick,
            ids.len() as int,
        )
    &&& forall|g: int| 0 <= g < onsets.len() ==> (#[trigger] onsets[g]).notes@.len() > 0
    &&& forall|k: int|
        0 <= k < ids.len() ==> #[trigger] has_onset(onsets, notes[ids[k] as int].on)
}

pub open spec fn has_onset(onsets: Seq<Onset>, tick: Tick) -> bool {
    exists|g: int| 0 <= g < onsets.len() && (#[trigger] onsets[g]).tick == tick
}

/// Groups notes by the tick at which they begin.
#[verifier::rlimit(60)]
pub fn onsets(notes: &Vec<Note>, ids: &Vec<usize>) -> (r: Vec<Onset>)
    requires
        forall|k: int| 0 <= k < ids.len() ==> (#[trigger] ids[k]) < notes.len(),
    ensures
        are_onsets(r@, notes@, ids@),
        forall|g: int, k: int|
            #![trigger r@[g].notes@[k]]
            0 <= g < r.len() && 0 <= k < r@[g].notes.len() ==> r@[g].notes@[k] < notes.len()
                && notes@[r@[g].notes@[k] as int].on == r@[g].tick,
{
    broadcast use vstd::std_specs::btree::group_btree_axioms;

    let mut places: BTreeMap<Tick, usize> = BTreeMap::new();
    let mut ticks: Vec<Tick> = Vec::new();
    let mut groups: Vec<Vec<usize>> = Vec::new();
    let mut k: usize = 0;
    while k < ids.len()
        invariant
            k <= ids.len(),
            forall|k: int| 0 <= k < ids.len() ==> (#[trigger] ids[k]) < notes.len(),
            ticks.len() == groups.len(),
            ticks.len() <= k,
            forall|t: Tick| #[trigger]
                places@.contains_key(t) ==> places@[t] < ticks.len() && ticks[places@[t] as int] == t,
            forall|g: int|
                0 <= g < ticks.len() ==> places@.contains_key(#[trigger] ticks[g]) && places@[ticks[g]]
                    == g,
            forall|g: int|
                0 <= g < ticks.len() ==> (#[trigger] groups[g])@ == at_tick(
                    notes@,
                    ids@,
                    ticks[g],
                    k as int,
                ) && groups[g]@.len() > 0,
            forall|j: int|
                0 <= j < k ==> places@.contains_key(notes@[#[trigger] ids@[j] as int].on),
            forall|t: Tick|
                !places@.contains_key(t) ==> (#[trigger] at_tick(notes@, ids@, t, k as int)).len()
                    == 0,
        decreases ids.len() - k,
    {
        let i = ids[k];
        proof {
            assert(ids[k as int] < notes.len());
        }
        let on = notes[i].on;
        let ghost old_places = places@;
        let ghost old_ticks = ticks@;
        let ghost old_groups = groups@;
        let found: Option<usize> = match places.get(&on) {
            Some(g) => Some(*g),
            None => None,
        };
        match found {
            Some(g) => {
                groups[g].push(i);
            },
            None => {
                let g = ticks.len();
                places.insert(on, g);
                ticks.push(on);
                let mut one: Vec<usize> = Vec::new();
                one.push(i);
                groups.push(one);
                proof {
                    assert(at_tick(notes@, ids@, on, k as int).len() == 0);
                    assert(one@ =~= at_tick(notes@, ids@, on, k + 1));
                }
            },
        }
        proof {
            assert forall|g: int| 0 <= g < ticks.len() implies (#[trigger] groups[g])@ == at_tick(
                notes@,
                ids@,
                ticks[g],
                k + 1,
            ) && groups[g]@.len() > 0 by {
                if g < old_ticks.len() {
                    assert(old_groups[g]@ == at_tick(notes@, ids@, old_ticks[g], k as int));
                    assert(old_places.contains_key(old_ticks[g]));
                }
            }
            assert forall|g: int| 0 <= g < ticks.len() implies places@.contains_key(
                #[trigger] ticks[g],
            ) && places@[ticks[g]] == g by {
                if g < old_ticks.len() {
                    assert(old_places.contains_key(old_ticks[g]));
                }
            }
            assert forall|j: int| 0 <= j < k + 1 implies places@.contains_key(
                notes@[#[trigger] ids@[j] as int].on,
            ) by {
            }
            assert forall|t: Tick| !places@.contains_key(t) implies (#[trigger] at_tick(
                notes@,
                ids@,
                t,
                k + 1,
            )).len() == 0 by {
                assert(!old_places.contains_key(t));
                assert(at_tick(notes@, ids@, t, k as int).len() == 0);
                assert(t != on);
            }
        }
        k += 1;
    }
    let mut keys: Vec<Key> = Vec::new();
    let mut g: usize = 0;
    while g < ticks.len()
        invariant
            g <= ticks.len(),
            keys.len() == g,
            forall|k: int| 0 <= k < g ==> #[trigger] keys[k] == tick_key(ticks[k]),
        decreases ticks.len() - g,
    {
        keys.push((ticks[g], 0, 0));
        g += 1;
    }
    let sequence = order(&keys);
    let ghost key = |t: Tick| tick_key(t);
    let ghost at = |i: usize| ticks@[i as int];
    let ghost sorted = stable_sort(ticks@, key);
    proof {
        lemma_order_sorts(ticks@, keys@, key);
        lemma_stable_sort(ticks@, key);
        assert(ticks@.no_duplicates()) by {
            assert forall|a: int, b: int| 0 <= a < ticks@.len() && 0 <= b < ticks@.len() && a
                != b implies ticks@[a] != ticks@[b] by {
                assert(places@[ticks[a]] == a);
                assert(places@[ticks[b]] == b);
            }
        }
        ticks@.lemma_multiset_has_no_duplicates();
        sorted.lemma_multiset_has_no_duplicates_conv();
    }
    let mut r: Vec<Onset> = Vec::new();
    let mut g: usize = 0;
    while g < sequence.len()
        invariant
            g <= sequence.len() == ticks.len() == groups.len(),
            forall|k: int| 0 <= k < sequence.len() ==> (#[trigger] sequence[k]) < ticks.len(),
            forall|g: int|
                0 <= g < ticks.len() ==> (#[trigger] groups[g])@ == at_tick(
                    notes@,
                    ids@,
                    ticks[g],
                    ids.len() as int,
                ) && groups[g]@.len() > 0,
            r.len() == g,
            forall|q: int|
                0 <= q < g ==> (#[trigger] r[q]).tick == ticks[sequence[q] as int] && r[q].notes@
                    == groups[sequence[q] as int]@,
        decreases sequence.len() - g,
    {
        let at_place = sequence[g];
        let one = copy_ids(&groups[at_place]);
        r.push(Onset { tick: ticks[at_place], notes: one });
        g += 1;
    }
    proof {
        assert forall|q: int| 0 <= q < r.len() implies (#[trigger] r[q]).tick == sorted[q] by {
            assert(sequence@.map_values(at)[q] == at(sequence@[q]));
        }
        assert forall|i: int, j: int|
            #![trigger r@[i], r@[j]]
            0 <= i < j < r@.len() implies r@[i].tick < r@[j].tick by {
            assert(r[i].tick == sorted[i] && r[j].tick == sorted[j]);
            assert(!crate::order::key_less(key(sorted[j]), key(sorted[i])));
            assert(sorted[i] != sorted[j]);
        }
        assert forall|q: int| 0 <= q < r.len() implies (#[trigger] r@[q]).notes@ == at_tick(
            notes@,
            ids@,
            r@[q].tick,
            ids.len() as int,
        ) && r@[q].notes@.len() > 0 by {
            assert(r[q].tick == ticks[sequence[q] as int]);
            assert(groups[sequence[q] as int]@.len() > 0);
        }
        assert forall|k: int| 0 <= k < ids@.len() implies #[trigger] has_onset(
            r@,
            notes@[ids@[k] as int].on,
        ) by {
            let t = notes@[ids@[k] as int].on;
            assert(places@.contains_key(notes@[ids@[k] as int].on));
            assert(ticks@[places@[t] as int] == t);
            assert(sorted.contains(ticks@[places@[t] as int]));
            let q = choose|q: int| 0 <= q < sorted.len() && sorted[q] == t;
            assert(r[q].tick == sorted[q]);
        }
        assert forall|g: int, k: int|
            #![trigger r@[g].notes@[k]]
            0 <= g < r.len() && 0 <= k < r@[g].notes.len() implies r@[g].notes@[k] < notes.len()
            && notes@[r@[g].notes@[k] as int].on == r@[g].tick by {
            lemma_at_tick(notes@, ids@, r@[g].tick, ids.len() as int);
            assert(r@[g].notes@ == at_tick(notes@, ids@, r@[g].tick, ids.len() as int));
        }
    }
    r
}

proof fn lemma_at_tick(notes: Seq<Note>, ids: Seq<usize>, tick: Tick, n: int)
    requires
        0 <= n <= ids.len(),
        forall|k: int| 0 <= k < ids.len() ==> (#[trigger] ids[k]) < notes.len(),
    ensures
        forall|k: int|
            0 <= k < at_tick(notes, ids, tick, n).len() ==> (#[trigger] at_tick(
                notes,
                ids,
                tick,
                n,
            )[k]) < notes.len() && notes[at_tick(notes, ids, tick, n)[k] as int].on == tick,
    decreases n,
{
    if n > 0 {
        lemma_at_tick(notes, ids, tick, n - 1);
        let before = at_tick(notes, ids, tick, n - 1);
        let all = at_tick(notes, ids, tick, n);
        assert(ids[n - 1] < notes.len());
        assert forall|k: int| 0 <= k < all.len() implies (#[trigger] all[k]) < notes.len()
            && notes[all[k] as int].on == tick by {
            if k < before.len() {
                assert(all[k] == before[k]);
            }
        }
    }
}

/// A copy of some numbers.
pub fn copy_ids(ids: &Vec<usize>) -> (r: Vec<usize>)
    ensures
        r@ == ids@,
{
    let mut r: Vec<usize> = Vec::new();
    let mut i: usize = 0;
    while i < ids.len()
        invariant
            i <= ids.len(),
            r@ == ids@.take(i as int),
        decreases ids.len() - i,
    {
        r.push(ids[i]);
        i += 1;
        proof {
            assert(r@ =~= ids@.take(i as int));
        }
    }
    proof {
        assert(ids@.take(i as int) =~= ids@);
    }
    r
}

/// The place of the greatest of the first keys; of several the first.
pub open spec fn greatest_key(keys: Seq<i64>, n: int) -> int
    decreases n,
{
    if n <= 1 {
        0
    } else {
        let before = greatest_key(keys, n - 1);
        if keys[n - 1] > keys[before] {
            n - 1
        } else {
            before
        }
    }
}

/// Of the first of some notes those that have not been taken.
pub open spec fn untaken(ids: Seq<usize>, taken: Seq<bool>, n: int) -> Seq<usize>
    decreases n,
{
    if n <= 0 {
        Seq::empty()
    } else if !taken[ids[n - 1] as int] {
        untaken(ids, taken, n - 1).push(ids[n - 1])
    } else {
        untaken(ids, taken, n - 1)
    }
}

/// A line of notes that follow each other, which is drawn out of others.
pub struct Line {
    notes: Vec<Note>,
    onsets: Vec<Onset>,
    next: usize,
    end: Tick,
    line: Vec<usize>,
}

/// The first place from one on whose tick is not before another.
pub open spec fn next_onset(onsets: Seq<Onset>, end: Tick, k: int) -> int
    decreases onsets.len() - k,
{
    if 0 <= k < onsets.len() && onsets[k].tick < end {
        next_onset(onsets, end, k + 1)
    } else {
        k
    }
}

impl Line {
    /// The moments at which notes begin that could be taken.
    pub closed spec fn moments(self) -> Seq<Onset> {
        self.onsets@
    }

    /// The notes that have been taken.
    pub closed spec fn taken(self) -> Seq<usize> {
        self.line@
    }

    /// Where the last note that was taken ends.
    pub closed spec fn ends_at(self) -> Tick {
        self.end
    }

    /// Where the line goes on.
    pub closed spec fn place(self) -> int {
        self.next as int
    }

    pub closed spec fn source(self) -> Seq<Note> {
        self.notes@
    }

    /// Whether the notes that were taken follow each other.
    pub closed spec fn valid(self) -> bool {
        &&& self.next <= self.onsets.len()
        &&& forall|g: int, k: int|
            #![trigger self.onsets@[g].notes@[k]]
            0 <= g < self.onsets.len() && 0 <= k < self.onsets@[g].notes.len()
                ==> self.onsets@[g].notes@[k] < self.notes.len()
                && self.notes@[self.onsets@[g].notes@[k] as int].on == self.onsets@[g].tick
        &&& forall|g: int|
            0 <= g < self.onsets.len() ==> (#[trigger] self.onsets@[g]).notes.len() > 0
        &&& forall|k: int| 0 <= k < self.line.len() ==> (#[trigger] self.line[k]) < self.notes.len()
        &&& follow(self.notes@, self.line@)
        &&& self.line.len() > 0 ==> self.end == self.notes@[self.line@.last() as int].off
    }

    /// Begins a line of those notes that have not been taken.
    pub fn new(notes: Vec<Note>, pool: &Vec<usize>, taken: &Vec<bool>) -> (r: Self)
        requires
            taken.len() == notes.len(),
            forall|k: int| 0 <= k < pool.len() ==> (#[trigger] pool[k]) < notes.len(),
        ensures
            r.valid(),
            r.source() == notes@,
            r.taken() == Seq::<usize>::empty(),
            r.place() == 0,
            r.ends_at() == -1,
            are_onsets(r.moments(), notes@, untaken(pool@, taken@, pool.len() as int)),
    {
        let mut open: Vec<usize> = Vec::new();
        let mut k: usize = 0;
        while k < pool.len()
            invariant
                k <= pool.len(),
                taken.len() == notes.len(),
                forall|k: int| 0 <= k < pool.len() ==> (#[trigger] pool[k]) < notes.len(),
                open@ == untaken(pool@, taken@, k as int),
                forall|k: int| 0 <= k < open.len() ==> (#[trigger] open[k]) < notes.len(),
            decreases pool.len() - k,
        {
            let i = pool[k];
            proof {
                assert(pool[k as int] < notes.len());
            }
            if !taken[i] {
                open.push(i);
            }
            k += 1;
        }
        let found = onsets(&notes, &open);
        Line { notes, onsets: found, next: 0, end: -1, line: Vec::new() }
    }

    /// The notes that could go on the line, at the next moment at which it is free.
    pub fn candidates(&mut self) -> (r: Option<Vec<usize>>)
        requires
            old(self).valid(),
        ensures
            final(self).valid(),
            final(self).moments() == old(self).moments(),
            final(self).source() == old(self).source(),
            final(self).taken() == old(self).taken(),
            final(self).ends_at() == old(self).ends_at(),
            final(self).place() == next_onset(
                old(self).moments(),
                old(self).ends_at(),
                old(self).place(),
            ),
            match r {
                Some(list) => final(self).place() < final(self).moments().len() && list@
                    == final(self).moments()[final(self).place()].notes@ && list.len() > 0
                    && final(self).moments()[final(self).place()].tick >= final(self).ends_at(),
                None => final(self).place() >= final(self).moments().len(),
            },
    {
        let ghost before = *self;
        while self.next < self.onsets.len() && self.onsets[self.next].tick < self.end
            invariant
                self.valid(),
                self.onsets == before.onsets,
                self.notes == before.notes,
                self.line == before.line,
                self.end == before.end,
                next_onset(before.onsets@, before.end, before.next as int) == next_onset(
                    before.onsets@,
                    before.end,
                    self.next as int,
                ),
            decreases self.onsets.len() - self.next,
        {
            self.next = self.next + 1;
        }
        if self.next >= self.onsets.len() {
            return None;
        }
        proof {
            assert(self.onsets@[self.next as int].notes.len() > 0);
        }
        Some(copy_ids(&self.onsets[self.next].notes))
    }

    /// Takes the candidate with the greatest key onto the line, and returns it.
    pub fn take(&mut self, keys: &Vec<i64>) -> (i: usize)
        requires
            old(self).valid(),
            old(self).place() < old(self).moments().len(),
            old(self).moments()[old(self).place()].tick >= old(self).ends_at(),
            keys.len() == old(self).moments()[old(self).place()].notes.len(),
        ensures
            final(self).valid(),
            i == old(self).moments()[old(self).place()].notes@[greatest_key(
                keys@,
                keys.len() as int,
            )],
            i < final(self).source().len(),
            final(self).taken() == old(self).taken().push(i),
            final(self).ends_at() == old(self).source()[i as int].off,
            final(self).place() == old(self).place() + 1,
            final(self).moments() == old(self).moments(),
            final(self).source() == old(self).source(),
    {
        let ghost before = *self;
        let mut best: usize = 0;
        let mut k: usize = 1;
        proof {
            assert(self.onsets@[self.next as int].notes.len() > 0);
        }
        while k < keys.len()
            invariant
                1 <= k,
                k <= keys.len() || keys.len() == 0,
                best < k,
                best < keys.len(),
                best == greatest_key(keys@, k as int),
            decreases keys.len() - k,
        {
            if keys[k] > keys[best] {
                best = k;
            }
            k += 1;
        }
        let i = self.onsets[self.next].notes[best];
        proof {
            assert(self.onsets@[self.next as int].notes@[best as int] == i);
        }
        self.line.push(i);
        self.end = self.notes[i].off;
        self.next = self.next + 1;
        proof {
            let line = self.line@;
            assert forall|k: int| 0 < k < line.len() implies self.notes@[line[k - 1] as int].off
                <= self.notes@[#[trigger] line[k] as int].on by {
                if k < before.line@.len() {
                    assert(line[k] == before.line@[k] && line[k - 1] == before.line@[k - 1]);
                } else {
                    assert(line[k - 1] == before.line@.last());
                }
            }
        }
        i
    }

    /// The notes of the line. None begins before the one before it has ended.
    pub fn finish(self) -> (line: Vec<usize>)
        requires
            self.valid(),
        ensures
            line@ == self.taken(),
            follow(self.source(), line@),
    {
        self.line
    }
}

/// Whether notes follow each other.
pub open spec fn follow(notes: Seq<Note>, line: Seq<usize>) -> bool {
    forall|k: int|
        0 < k < line.len() ==> notes[line[k - 1] as int].off <= notes[#[trigger] line[k] as int].on
}

} // verus!
