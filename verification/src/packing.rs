//! Putting notes into parts of one voice each, so that voices go on where they were.
use crate::order::{indices, lemma_stable_sort, order, order_of, Key};
use crate::ratio::less_ratio;
use crate::score::{Note, Tick};
use vstd::prelude::*;

verus! {

/// Why notes cannot be put into parts.
#[derive(Clone, Copy, Debug, PartialEq, Eq, Structural)]
pub enum PackError {
    /// A note has no part to go to.
    NoHome,
    /// At a tick more notes sound than there are parts.
    Exceeds { tick: Tick },
}

/// The mean of some pitches: their sum and how many they are.
#[derive(Clone, Copy, Debug)]
pub struct Centre {
    pub sum: i128,
    pub len: u64,
}

pub open spec fn is_centre(c: Centre) -> bool {
    1 <= c.len && -c.len * 0x8000_0000 <= c.sum <= c.len * 0x8000_0000
}

/// Where notes belong: the part of each, and the middle of each part's range.
pub struct Homes {
    pub home: Vec<Option<usize>>,
    pub centre: Vec<Centre>,
    /// The numbers of the notes of the main melody, where it is kept together.
    pub primary_lead: Vec<usize>,
}

/// What has been put into parts: the notes of each, the part of each note, where each part
/// is free again, and its last note.
pub struct Pack {
    pub out: Seq<Seq<usize>>,
    pub destination: Seq<Option<usize>>,
    pub free_at: Seq<Tick>,
    pub last: Seq<Option<usize>>,
}

/// What notes are put into parts by.
pub struct Plan {
    pub notes: Seq<Note>,
    pub home: Seq<Option<usize>>,
    pub centre: Seq<Centre>,
    pub included: Seq<bool>,
    pub primary: Seq<bool>,
    pub primary_lead: Seq<usize>,
}

pub open spec fn packed_in(p: Pack, notes: Seq<Note>, i: usize, slot: usize) -> Pack {
    Pack {
        out: p.out.update(slot as int, p.out[slot as int].push(i)),
        destination: p.destination.update(i as int, Some(slot)),
        free_at: p.free_at.update(slot as int, notes[i as int].off),
        last: p.last.update(slot as int, Some(i)),
    }
}

/// Whether a part is free at a tick.
pub open spec fn is_free(p: Pack, slot: int, tick: int) -> bool {
    p.free_at[slot] <= tick
}

/// Whether the silence before a note that begins at a tick can be written.
pub open spec fn can_start(p: Pack, slot: int, tick: int) -> bool {
    let end = if p.last[slot] is Some {
        p.free_at[slot] as int
    } else {
        0
    };
    tick == end || tick - end >= 6
}

/// Whether a note goes on into the next one: both in one voice of the source, with no more
/// than a quarter between them.
pub open spec fn goes_on(plan: Plan, i: int) -> bool {
    let a = plan.notes[i];
    let b = plan.notes[i + 1];
    &&& 0 <= i
    &&& i + 1 < plan.notes.len()
    &&& a.src == b.src
    &&& plan.included[i]
    &&& plan.included[i + 1]
    &&& a.off - a.on >= 6
    &&& b.off - b.on >= 6
    &&& b.on - a.off <= 96
}

/// Whether a note would take the place of the note that the last one of a part goes on into.
pub open spec fn blocks_next(plan: Plan, p: Pack, slot: int, i: int) -> bool {
    match p.last[slot] {
        None => false,
        Some(last) => goes_on(plan, last as int) && {
            let next = plan.notes[last + 1];
            let n = plan.notes[i];
            &&& p.destination[last + 1] is None
            &&& next.src != n.src
            &&& n.on <= next.on < n.off
        },
    }
}

/// When the main melody goes on from a tick, from a place in it on.
pub open spec fn melody_from(plan: Plan, tick: int, k: int) -> Option<Tick>
    decreases plan.primary_lead.len() - k,
{
    if k < 0 || k >= plan.primary_lead.len() {
        None
    } else {
        let on = plan.notes[plan.primary_lead[k] as int].on;
        if on >= tick {
            Some(on)
        } else {
            melody_from(plan, tick, k + 1)
        }
    }
}

/// Whether a note would take the place of the main melody.
pub open spec fn blocks_melody(plan: Plan, tick: int, slot: int, i: int) -> bool {
    slot == 0 && !plan.primary[i] && (melody_from(plan, tick, 0) matches Some(on) && on
        < plan.notes[i].off)
}

/// The main melody goes into the first part.
pub open spec fn with_melody(plan: Plan, p: Pack, batch: Seq<usize>, tick: int, n: int) -> Pack
    decreases n,
{
    if n <= 0 {
        p
    } else {
        let before = with_melody(plan, p, batch, tick, n - 1);
        let i = batch[n - 1];
        if before.destination[i as int] is None && plan.primary[i as int] && is_free(
            before,
            0,
            tick,
        ) && can_start(before, 0, tick) {
            packed_in(before, plan.notes, i, 0)
        } else {
            before
        }
    }
}

/// The part that a note goes on in, where it goes on from a note that has one.
pub open spec fn continues_in(plan: Plan, p: Pack, i: usize) -> Option<usize> {
    if p.destination[i as int] is None && goes_on(plan, i - 1) {
        p.destination[i - 1]
    } else {
        None
    }
}

/// The first of the notes that go on, with the parts they go on in: those behind the last
/// note of their part, or with `older` the others.
pub open spec fn continuing(plan: Plan, p: Pack, batch: Seq<usize>, older: bool, n: int) -> Seq<(usize, usize)>
    decreases n,
{
    if n <= 0 {
        Seq::empty()
    } else {
        let before = continuing(plan, p, batch, older, n - 1);
        let i = batch[n - 1];
        match continues_in(plan, p, i) {
            Some(slot) => if (p.last[slot as int] != Some((i - 1) as usize)) == older {
                before.push((i, slot))
            } else {
                before
            },
            None => before,
        }
    }
}

/// The first of some notes that go on are put into the parts they go on in, where these are
/// free for them.
pub open spec fn with_continuing(plan: Plan, p: Pack, list: Seq<(usize, usize)>, tick: int, n: int) -> Pack
    decreases n,
{
    if n <= 0 {
        p
    } else {
        let before = with_continuing(plan, p, list, tick, n - 1);
        let (i, slot) = list[n - 1];
        if before.destination[i as int] is None && is_free(before, slot as int, tick) && can_start(
            before,
            slot as int,
            tick,
        ) && !blocks_melody(plan, tick, slot as int, i as int) {
            packed_in(before, plan.notes, i, slot)
        } else {
            before
        }
    }
}

/// The first notes that have no part yet go where they belong, where that is free for them.
pub open spec fn with_homes(plan: Plan, p: Pack, batch: Seq<usize>, tick: int, n: int) -> Result<Pack, PackError>
    decreases n,
{
    if n <= 0 {
        Ok(p)
    } else {
        match with_homes(plan, p, batch, tick, n - 1) {
            Err(e) => Err(e),
            Ok(before) => {
                let i = batch[n - 1];
                if before.destination[i as int] is Some {
                    Ok(before)
                } else {
                    match plan.home[i as int] {
                        None => Err(PackError::NoHome),
                        Some(home) => if is_free(before, home as int, tick) && can_start(
                            before,
                            home as int,
                            tick,
                        ) && !blocks_melody(plan, tick, home as int, i as int) && !blocks_next(
                            plan,
                            before,
                            home as int,
                            i as int,
                        ) {
                            Ok(packed_in(before, plan.notes, i, home))
                        } else {
                            Ok(before)
                        },
                    }
                }
            },
        }
    }
}

/// What a part is looked at for.
#[derive(Clone, Copy)]
pub enum Test {
    Free,
    Start,
    Melody,
    Next,
}

pub open spec fn passes(plan: Plan, p: Pack, tick: int, i: int, test: Test, slot: int) -> bool {
    match test {
        Test::Free => is_free(p, slot, tick),
        Test::Start => can_start(p, slot, tick),
        Test::Melody => !blocks_melody(plan, tick, slot, i),
        Test::Next => !blocks_next(plan, p, slot, i),
    }
}

/// Of the first parts those that pass a test.
pub open spec fn sifted(plan: Plan, p: Pack, tick: int, i: int, test: Test, list: Seq<usize>, n: int) -> Seq<usize>
    decreases n,
{
    if n <= 0 {
        Seq::empty()
    } else {
        let before = sifted(plan, p, tick, i, test, list, n - 1);
        if passes(plan, p, tick, i, test, list[n - 1] as int) {
            before.push(list[n - 1])
        } else {
            before
        }
    }
}

/// Those of some parts that pass a test, or all where none does.
pub open spec fn narrowed(plan: Plan, p: Pack, tick: int, i: int, test: Test, list: Seq<usize>) -> Seq<usize> {
    let found = sifted(plan, p, tick, i, test, list, list.len() as int);
    if found.len() == 0 {
        list
    } else {
        found
    }
}

pub open spec fn distance(a: int, b: int) -> int {
    if a < b {
        b - a
    } else {
        a - b
    }
}

/// How far a note is from a part, times twice the number of pitches that the part's middle
/// is taken of: from the middle of its range, and half as much from its last note.
pub open spec fn farness(plan: Plan, p: Pack, i: int, slot: int) -> int {
    let c = plan.centre[slot];
    let pitch = plan.notes[i].pitch as int;
    let last = match p.last[slot] {
        Some(j) => plan.notes[j as int].pitch as int,
        None => pitch,
    };
    2 * distance(c.sum as int, pitch * c.len) + c.len * distance(last, pitch)
}

/// Whether one part is nearer to a note than another.
pub open spec fn is_nearer(plan: Plan, p: Pack, i: int, a: int, b: int) -> bool {
    farness(plan, p, i, a) * plan.centre[b].len < farness(plan, p, i, b) * plan.centre[a].len
}

/// The nearest of the first parts; of several the first.
pub open spec fn nearest_part(plan: Plan, p: Pack, i: int, list: Seq<usize>, n: int) -> usize
    decreases n,
{
    if n <= 1 {
        list[0]
    } else {
        let before = nearest_part(plan, p, i, list, n - 1);
        if is_nearer(plan, p, i, list[n - 1] as int, before as int) {
            list[n - 1]
        } else {
            before
        }
    }
}

pub open spec fn all_slots(n: int) -> Seq<usize> {
    Seq::new(n as nat, |i: int| i as usize)
}

/// The first notes that have no part yet go to the nearest one, if it can be where the
/// silence can be written, the melody keeps its place and voices can go on.
pub open spec fn with_others(plan: Plan, p: Pack, batch: Seq<usize>, tick: Tick, n: int) -> Result<Pack, PackError>
    decreases n,
{
    if n <= 0 {
        Ok(p)
    } else {
        match with_others(plan, p, batch, tick, n - 1) {
            Err(e) => Err(e),
            Ok(before) => {
                let i = batch[n - 1];
                let k = i as int;
                let t = tick as int;
                if before.destination[k] is Some {
                    Ok(before)
                } else {
                    let slots = plan.centre.len() as int;
                    let free = sifted(plan, before, t, k, Test::Free, all_slots(slots), slots);
                    if free.len() == 0 {
                        Err(PackError::Exceeds { tick })
                    } else {
                        let a = narrowed(plan, before, t, k, Test::Start, free);
                        let b = narrowed(plan, before, t, k, Test::Melody, a);
                        let c = narrowed(plan, before, t, k, Test::Next, b);
                        let slot = nearest_part(plan, before, k, c, c.len() as int);
                        Ok(packed_in(before, plan.notes, i, slot))
                    }
                }
            },
        }
    }
}

/// The notes that begin at a tick are put into parts.
pub open spec fn with_batch(plan: Plan, p: Pack, batch: Seq<usize>, tick: Tick) -> Result<Pack, PackError> {
    let n = batch.len() as int;
    let t = tick as int;
    let first = with_melody(plan, p, batch, t, n);
    let behind = continuing(plan, first, batch, false, n);
    let older = continuing(plan, first, batch, true, n);
    let list = behind + older;
    let second = with_continuing(plan, first, list, t, list.len() as int);
    match with_homes(plan, second, batch, t, n) {
        Err(e) => Err(e),
        Ok(third) => with_others(plan, third, batch, tick, n),
    }
}

/// The end of the notes, in order, that begin at a tick.
pub open spec fn batch_end(notes: Seq<Note>, sequence: Seq<usize>, tick: Tick, k: int) -> int
    decreases sequence.len() - k,
{
    if 0 <= k < sequence.len() && notes[sequence[k] as int].on == tick {
        batch_end(notes, sequence, tick, k + 1)
    } else {
        k
    }
}

/// The notes from a place on, in order of time, are put into parts.
pub open spec fn with_rest(plan: Plan, p: Pack, sequence: Seq<usize>, k: int) -> Result<Pack, PackError>
    decreases sequence.len() - k,
{
    if k < 0 || k >= sequence.len() {
        Ok(p)
    } else {
        let tick = plan.notes[sequence[k] as int].on;
        let e = batch_end(plan.notes, sequence, tick, k);
        if !(k < e <= sequence.len()) {
            Ok(p)
        } else {
            match with_batch(plan, p, sequence.subrange(k, e), tick) {
                Err(e) => Err(e),
                Ok(next) => with_rest(plan, next, sequence, e),
            }
        }
    }
}

/// Empty parts.
pub open spec fn no_pack(notes: int, slots: int) -> Pack {
    Pack {
        out: Seq::new(slots as nat, |i: int| Seq::<usize>::empty()),
        destination: Seq::new(notes as nat, |i: int| None::<usize>),
        free_at: Seq::new(slots as nat, |i: int| -1i64),
        last: Seq::new(slots as nat, |i: int| None::<usize>),
    }
}

/// The keys by which notes are put in order: by their start, the higher first.
pub open spec fn pack_keys(notes: Seq<Note>, kept: Seq<usize>) -> Seq<Key> {
    Seq::new(
        kept.len(),
        |k: int| (notes[kept[k] as int].on, -(notes[kept[k] as int].pitch as i64) as i64, 0i64),
    )
}

/// Numbers in order of time, the higher notes first.
pub open spec fn pack_order(notes: Seq<Note>, kept: Seq<usize>) -> Seq<usize> {
    order_of(pack_keys(notes, kept)).map_values(|k: usize| kept[k as int])
}

/// Which of some notes a list names.
pub open spec fn marks(list: Seq<usize>, n: int) -> Seq<bool> {
    Seq::new(n as nat, |i: int| list.contains(i as usize))
}

/// What notes are put into parts by.
pub open spec fn plan_of(notes: Seq<Note>, kept: Seq<usize>, homes: Homes) -> Plan {
    Plan {
        notes,
        home: homes.home@,
        centre: homes.centre@,
        included: marks(kept, notes.len() as int),
        primary: marks(homes.primary_lead@, notes.len() as int),
        primary_lead: homes.primary_lead@,
    }
}

/// Notes put into parts where voices go on.
pub open spec fn repacked(notes: Seq<Note>, kept: Seq<usize>, homes: Homes) -> Result<Pack, PackError> {
    with_rest(
        plan_of(notes, kept, homes),
        no_pack(notes.len() as int, homes.centre.len() as int),
        pack_order(notes, kept),
        0,
    )
}

/// How many of the first notes did not go where they belong.
pub open spec fn strayed(p: Pack, home: Seq<Option<usize>>, kept: Seq<usize>, n: int) -> int
    decreases n,
{
    if n <= 0 {
        0
    } else {
        strayed(p, home, kept, n - 1) + (if p.destination[kept[n - 1] as int] != home[kept[n
            - 1] as int] {
            1int
        } else {
            0int
        })
    }
}

/// Whether what notes are put into parts by fits together.
pub open spec fn is_plan(notes: Seq<Note>, kept: Seq<usize>, homes: Homes) -> bool {
    &&& homes.home.len() == notes.len()
    &&& homes.centre.len() > 0
    &&& forall|i: int| 0 <= i < notes.len() ==> 0 <= (#[trigger] notes[i]).on <= notes[i].off
    &&& forall|i: int|
        0 <= i < notes.len() && (#[trigger] homes.home[i]) is Some ==> homes.home[i]->Some_0
            < homes.centre.len()
    &&& forall|s: int| 0 <= s < homes.centre.len() ==> is_centre(#[trigger] homes.centre[s])
    &&& forall|k: int| 0 <= k < kept.len() ==> (#[trigger] kept[k]) < notes.len()
    &&& forall|k: int|
        0 <= k < homes.primary_lead.len() ==> (#[trigger] homes.primary_lead[k]) < notes.len()
}

/// Whether no note of a part begins before the one before it has ended, and each part is
/// free where its last note ends.
pub open spec fn is_tidy(notes: Seq<Note>, p: Pack) -> bool {
    &&& p.free_at.len() == p.out.len()
    &&& forall|s: int, k: int|
        #![trigger p.out[s][k]]
        0 <= s < p.out.len() && 0 <= k < p.out[s].len() ==> p.out[s][k] < notes.len()
    &&& forall|s: int, k: int|
        #![trigger p.out[s][k]]
        0 <= s < p.out.len() && 0 < k < p.out[s].len() ==> notes[p.out[s][k - 1] as int].off
            <= notes[p.out[s][k] as int].on
    &&& forall|s: int|
        0 <= s < p.out.len() && (#[trigger] p.out[s]).len() > 0 ==> p.free_at[s]
            == notes[p.out[s].last() as int].off
}

proof fn lemma_tidy(notes: Seq<Note>, p: Pack, i: usize, slot: usize)
    requires
        is_tidy(notes, p),
        i < notes.len(),
        slot < p.out.len(),
        is_free(p, slot as int, notes[i as int].on as int),
    ensures
        is_tidy(notes, packed_in(p, notes, i, slot)),
{
    let q = packed_in(p, notes, i, slot);
    let n = p.out[slot as int].len() as int;
    assert forall|s: int, k: int|
        #![trigger q.out[s][k]]
        0 <= s < q.out.len() && 0 <= k < q.out[s].len() implies q.out[s][k] < notes.len() && (k > 0
        ==> notes[q.out[s][k - 1] as int].off <= notes[q.out[s][k] as int].on) by {
        if s == slot {
            if k < n {
                assert(q.out[s][k] == p.out[s][k]);
                if k > 0 {
                    assert(q.out[s][k - 1] == p.out[s][k - 1]);
                }
            } else if k > 0 {
                assert(q.out[s][k - 1] == p.out[s][k - 1]);
                assert(p.out[s].len() > 0);
                assert(p.out[s].last() == p.out[s][k - 1]);
            }
        } else {
            assert(q.out[s] == p.out[s]);
            assert(q.out[s][k] == p.out[s][k]);
            if k > 0 {
                assert(q.out[s][k - 1] == p.out[s][k - 1]);
            }
        }
    }
    assert forall|s: int| 0 <= s < q.out.len() && (#[trigger] q.out[s]).len() > 0 implies q.free_at[s]
        == notes[q.out[s].last() as int].off by {
        if s != slot {
            assert(q.out[s] == p.out[s]);
        }
    }
}

/// Whether the parts and the notes tell the same: a note that has a part is one of the notes of
/// that part, and of no other, and no part has a note twice.
#[verifier::opaque]
pub open spec fn is_record(p: Pack) -> bool {
    &&& forall|i: int|
        0 <= i < p.destination.len() && (#[trigger] p.destination[i]) is Some
            ==> p.destination[i]->Some_0 < p.out.len()
            && p.out[p.destination[i]->Some_0 as int].contains(i as usize)
    &&& forall|s: int, k: int|
        #![trigger p.out[s][k]]
        0 <= s < p.out.len() && 0 <= k < p.out[s].len() ==> p.out[s][k] < p.destination.len()
            && p.destination[p.out[s][k] as int] == Some(s as usize)
    &&& forall|s: int| 0 <= s < p.out.len() ==> (#[trigger] p.out[s]).no_duplicates()
}

proof fn lemma_record(p: Pack, notes: Seq<Note>, i: usize, slot: usize)
    requires
        is_record(p),
        i < p.destination.len() <= usize::MAX,
        slot < p.out.len() <= usize::MAX,
        p.destination[i as int] is None,
    ensures
        is_record(packed_in(p, notes, i, slot)),
{
    reveal(is_record);
    let q = packed_in(p, notes, i, slot);
    let n = p.out[slot as int].len() as int;
    assert forall|j: int| 0 <= j < q.destination.len() && (#[trigger] q.destination[j]) is Some implies
    q.destination[j]->Some_0 < q.out.len() && q.out[q.destination[j]->Some_0 as int].contains(
        j as usize,
    ) by {
        if j == i {
            assert(q.out[slot as int][n] == i);
        } else {
            assert(q.destination[j] == p.destination[j]);
            let s = p.destination[j]->Some_0 as int;
            assert(p.out[s].contains(j as usize));
            let k = choose|k: int| 0 <= k < p.out[s].len() && p.out[s][k] == j as usize;
            assert(q.out[s][k] == j as usize);
        }
    }
    assert forall|s: int, k: int|
        #![trigger q.out[s][k]]
        0 <= s < q.out.len() && 0 <= k < q.out[s].len() implies q.out[s][k] < q.destination.len()
        && q.destination[q.out[s][k] as int] == Some(s as usize) by {
        if !(s == slot && k == n) {
            assert(q.out[s][k] == p.out[s][k]);
            assert(p.destination[p.out[s][k] as int] == Some(s as usize));
            assert(p.out[s][k] != i);
        }
    }
    assert forall|s: int| 0 <= s < q.out.len() implies (#[trigger] q.out[s]).no_duplicates() by {
        assert(p.out[s].no_duplicates());
        if s == slot {
            assert forall|a: int, b: int|
                0 <= a < b < q.out[s].len() implies q.out[s][a] != q.out[s][b] by {
                assert(q.out[s][a] == p.out[s][a]);
                assert(p.destination[p.out[s][a] as int] is Some);
                if b < n {
                    assert(q.out[s][b] == p.out[s][b]);
                }
            }
        }
    }
}

/// Whether the first of some notes have a part.
pub open spec fn all_placed(p: Pack, list: Seq<usize>, n: int) -> bool {
    forall|k: int| 0 <= k < n ==> p.destination[(#[trigger] list[k]) as int] is Some
}

/// Whether no note that has a part loses it.
pub open spec fn keeps_places(before: Pack, after: Pack) -> bool {
    &&& after.destination.len() == before.destination.len()
    &&& forall|i: int|
        0 <= i < before.destination.len() && (#[trigger] before.destination[i]) is Some
            ==> after.destination[i] is Some
}

struct Packing {
    out: Vec<Vec<usize>>,
    destination: Vec<Option<usize>>,
    free_at: Vec<Tick>,
    last: Vec<Option<usize>>,
}

impl Packing {
    spec fn pack(self) -> Pack {
        Pack {
            out: Seq::new(self.out@.len(), |i: int| self.out@[i]@),
            destination: self.destination@,
            free_at: self.free_at@,
            last: self.last@,
        }
    }

    spec fn fits(self, plan: Plan) -> bool {
        &&& self.out.len() == plan.centre.len()
        &&& self.free_at.len() == plan.centre.len()
        &&& self.last.len() == plan.centre.len()
        &&& self.destination.len() == plan.notes.len()
        &&& forall|s: int|
            0 <= s < self.last.len() && (#[trigger] self.last[s]) is Some ==> self.last[s]->Some_0
                < plan.notes.len()
        &&& forall|s: int| 0 <= s < self.free_at.len() ==> #[trigger] self.free_at[s] >= -1
        &&& forall|s: int|
            0 <= s < self.last.len() && (#[trigger] self.last[s]) is Some ==> self.free_at[s] >= 0
        &&& forall|i: int|
            0 <= i < self.destination.len() && (#[trigger] self.destination[i]) is Some
                ==> self.destination[i]->Some_0 < plan.centre.len()
        &&& is_tidy(plan.notes, self.pack())
        &&& is_record(self.pack())
        &&& forall|i: int|
            0 <= i < self.destination.len() && (#[trigger] self.destination[i]) is Some
                ==> plan.included[i]
    }

    fn place(&mut self, i: usize, slot: usize, off: Tick, Ghost(plan): Ghost<Plan>)
        requires
            old(self).fits(plan),
            i < plan.notes.len(),
            slot < plan.centre.len(),
            off == plan.notes[i as int].off,
            off >= 0,
            is_free(old(self).pack(), slot as int, plan.notes[i as int].on as int),
            old(self).destination[i as int] is None,
            plan.included[i as int],
        ensures
            final(self).fits(plan),
            final(self).pack() == packed_in(old(self).pack(), plan.notes, i, slot),
    {
        let ghost before = self.pack();
        proof {
            lemma_tidy(plan.notes, before, i, slot);
            lemma_record(before, plan.notes, i, slot);
        }
        self.out[slot].push(i);
        self.destination.set(i, Some(slot));
        self.free_at.set(slot, off);
        self.last.set(slot, Some(i));
        proof {
            let after = packed_in(before, plan.notes, i, slot);
            assert(self.pack().out =~= after.out);
            assert(self.pack().destination =~= after.destination);
            assert(self.pack().free_at =~= after.free_at);
            assert(self.pack().last =~= after.last);
        }
    }

    fn can_encode_start(&self, slot: usize, tick: Tick, Ghost(plan): Ghost<Plan>) -> (r: bool)
        requires
            self.fits(plan),
            slot < plan.centre.len(),
            tick >= 0,
        ensures
            r == can_start(self.pack(), slot as int, tick as int),
    {
        let end: Tick = if self.last[slot].is_some() {
            self.free_at[slot]
        } else {
            0
        };
        proof {
            assert(self.free_at[slot as int] >= -1);
        }
        tick == end || tick as i128 - end as i128 >= 6
    }
}

/// What the notes are put into parts by, as it is at hand.
struct Desk<'a> {
    notes: &'a Vec<Note>,
    homes: &'a Homes,
    included: Vec<bool>,
    primary: Vec<bool>,
    plan: Ghost<Plan>,
}

impl<'a> Desk<'a> {
    spec fn valid(self) -> bool {
        let plan = self.plan@;
        &&& plan.notes == self.notes@
        &&& plan.home == self.homes.home@
        &&& plan.centre == self.homes.centre@
        &&& plan.included == self.included@
        &&& plan.primary == self.primary@
        &&& plan.primary_lead == self.homes.primary_lead@
        &&& self.homes.home.len() == self.notes.len()
        &&& self.included.len() == self.notes.len()
        &&& self.primary.len() == self.notes.len()
        &&& self.homes.centre.len() > 0
        &&& forall|i: int|
            0 <= i < self.notes.len() ==> 0 <= (#[trigger] self.notes[i]).on <= self.notes[i].off
        &&& forall|i: int|
            0 <= i < self.notes.len() && (#[trigger] self.homes.home[i]) is Some
                ==> self.homes.home[i]->Some_0 < self.homes.centre.len()
        &&& forall|s: int|
            0 <= s < self.homes.centre.len() ==> is_centre(#[trigger] self.homes.centre[s])
        &&& forall|k: int|
            0 <= k < self.homes.primary_lead.len() ==> (#[trigger] self.homes.primary_lead[k])
                < self.notes.len()
    }

    /// Whether a note goes on into the next one.
    fn runs_on(&self, i: usize) -> (r: bool)
        requires
            self.valid(),
            i < self.notes.len(),
        ensures
            r == goes_on(self.plan@, i as int),
    {
        if i + 1 >= self.notes.len() {
            return false;
        }
        let a = self.notes[i];
        let b = self.notes[i + 1];
        proof {
            assert(0 <= self.notes[i as int].on <= self.notes[i as int].off);
            assert(0 <= self.notes[i + 1].on <= self.notes[i + 1].off);
        }
        a.src.0 == b.src.0 && a.src.1 == b.src.1 && self.included[i] && self.included[i + 1]
            && a.off - a.on >= 6 && b.off - b.on >= 6 && b.on - a.off <= 96
    }

    fn blocks_continuation(&self, p: &Packing, slot: usize, i: usize) -> (r: bool)
        requires
            self.valid(),
            p.fits(self.plan@),
            slot < self.homes.centre.len(),
            i < self.notes.len(),
        ensures
            r == blocks_next(self.plan@, p.pack(), slot as int, i as int),
    {
        match p.last[slot] {
            None => false,
            Some(last) => {
                proof {
                    assert(p.last[slot as int] is Some);
                }
                if self.runs_on(last) {
                    let next = self.notes[last + 1];
                    let n = self.notes[i];
                    p.destination[last + 1].is_none() && !(next.src.0 == n.src.0 && next.src.1
                        == n.src.1) && n.on <= next.on && next.on < n.off
                } else {
                    false
                }
            },
        }
    }

    /// When the main melody goes on.
    fn melody(&self, tick: Tick) -> (r: Option<Tick>)
        requires
            self.valid(),
        ensures
            r == melody_from(self.plan@, tick as int, 0),
    {
        let mut k: usize = 0;
        while k < self.homes.primary_lead.len()
            invariant
                k <= self.homes.primary_lead.len(),
                self.valid(),
                melody_from(self.plan@, tick as int, 0) == melody_from(
                    self.plan@,
                    tick as int,
                    k as int,
                ),
            decreases self.homes.primary_lead.len() - k,
        {
            proof {
                assert(self.homes.primary_lead[k as int] < self.notes.len());
            }
            let on = self.notes[self.homes.primary_lead[k]].on;
            if on >= tick {
                return Some(on);
            }
            k += 1;
        }
        None
    }

    fn blocks_primary(&self, melody: Option<Tick>, slot: usize, i: usize, Ghost(tick): Ghost<int>) -> (r: bool)
        requires
            self.valid(),
            i < self.notes.len(),
            melody == melody_from(self.plan@, tick, 0),
        ensures
            r == blocks_melody(self.plan@, tick, slot as int, i as int),
    {
        slot == 0 && !self.primary[i] && match melody {
            Some(on) => on < self.notes[i].off,
            None => false,
        }
    }

    fn test(&self, p: &Packing, tick: Tick, melody: Option<Tick>, i: usize, test: Test, slot: usize) -> (r: bool)
        requires
            self.valid(),
            p.fits(self.plan@),
            tick >= 0,
            i < self.notes.len(),
            slot < self.homes.centre.len(),
            melody == melody_from(self.plan@, tick as int, 0),
        ensures
            r == passes(self.plan@, p.pack(), tick as int, i as int, test, slot as int),
    {
        match test {
            Test::Free => p.free_at[slot] <= tick,
            Test::Start => p.can_encode_start(slot, tick, self.plan),
            Test::Melody => !self.blocks_primary(melody, slot, i, Ghost(tick as int)),
            Test::Next => !self.blocks_continuation(p, slot, i),
        }
    }

    fn sift(&self, p: &Packing, tick: Tick, melody: Option<Tick>, i: usize, test: Test, list: &Vec<usize>) -> (r: Vec<usize>)
        requires
            self.valid(),
            p.fits(self.plan@),
            tick >= 0,
            i < self.notes.len(),
            forall|k: int| 0 <= k < list.len() ==> (#[trigger] list[k]) < self.homes.centre.len(),
            melody == melody_from(self.plan@, tick as int, 0),
        ensures
            r@ == sifted(
                self.plan@,
                p.pack(),
                tick as int,
                i as int,
                test,
                list@,
                list.len() as int,
            ),
            forall|k: int| 0 <= k < r.len() ==> (#[trigger] r[k]) < self.homes.centre.len(),
    {
        let mut r: Vec<usize> = Vec::new();
        let mut k: usize = 0;
        while k < list.len()
            invariant
                k <= list.len(),
                self.valid(),
                p.fits(self.plan@),
                tick >= 0,
                i < self.notes.len(),
                forall|k: int| 0 <= k < list.len() ==> (#[trigger] list[k]) < self.homes.centre.len(),
                melody == melody_from(self.plan@, tick as int, 0),
                r@ == sifted(
                    self.plan@,
                    p.pack(),
                    tick as int,
                    i as int,
                    test,
                    list@,
                    k as int,
                ),
                forall|k: int| 0 <= k < r.len() ==> (#[trigger] r[k]) < self.homes.centre.len(),
            decreases list.len() - k,
        {
            proof {
                assert(list[k as int] < self.homes.centre.len());
            }
            if self.test(p, tick, melody, i, test, list[k]) {
                r.push(list[k]);
            }
            k += 1;
        }
        r
    }

    fn narrow(&self, p: &Packing, tick: Tick, melody: Option<Tick>, i: usize, test: Test, list: Vec<usize>) -> (r: Vec<usize>)
        requires
            self.valid(),
            p.fits(self.plan@),
            tick >= 0,
            i < self.notes.len(),
            list.len() > 0,
            forall|k: int| 0 <= k < list.len() ==> (#[trigger] list[k]) < self.homes.centre.len(),
            melody == melody_from(self.plan@, tick as int, 0),
        ensures
            r@ == narrowed(self.plan@, p.pack(), tick as int, i as int, test, list@),
            r.len() > 0,
            forall|k: int| 0 <= k < r.len() ==> (#[trigger] r[k]) < self.homes.centre.len(),
    {
        let found = self.sift(p, tick, melody, i, test, &list);
        if found.len() == 0 {
            list
        } else {
            found
        }
    }

    fn far(&self, p: &Packing, i: usize, slot: usize) -> (r: i128)
        requires
            self.valid(),
            p.fits(self.plan@),
            i < self.notes.len(),
            slot < self.homes.centre.len(),
        ensures
            r == farness(self.plan@, p.pack(), i as int, slot as int),
            0 <= r,
    {
        let c = self.homes.centre[slot];
        proof {
            assert(is_centre(self.homes.centre[slot as int]));
        }
        let pitch: i128 = self.notes[i].pitch as i128;
        let last: i128 = match p.last[slot] {
            Some(j) => {
                proof {
                    assert(p.last[slot as int] is Some);
                }
                self.notes[j].pitch as i128
            },
            None => pitch,
        };
        let sum: i128 = c.sum;
        let len: i128 = c.len as i128;
        proof {
            assert(-len * 0x8000_0000 <= pitch * len <= len * 0x8000_0000) by (nonlinear_arith)
                requires
                    len >= 1,
                    -0x8000_0000 <= pitch <= 0x8000_0000,
            ;
        }
        let middle: i128 = pitch * len;
        let a: i128 = if sum < middle {
            middle - sum
        } else {
            sum - middle
        };
        let b: i128 = if last < pitch {
            pitch - last
        } else {
            last - pitch
        };
        proof {
            assert(0 <= len * b <= 0xffff_ffff_ffff_ffff * 0x1_0000_0000) by (nonlinear_arith)
                requires
                    0 <= len <= 0xffff_ffff_ffff_ffff,
                    0 <= b <= 0x1_0000_0000,
            ;
        }
        2 * a + len * b
    }

    fn nearest(&self, p: &Packing, i: usize, list: &Vec<usize>) -> (slot: usize)
        requires
            self.valid(),
            p.fits(self.plan@),
            i < self.notes.len(),
            list.len() > 0,
            forall|k: int| 0 <= k < list.len() ==> (#[trigger] list[k]) < self.homes.centre.len(),
        ensures
            slot == nearest_part(self.plan@, p.pack(), i as int, list@, list.len() as int),
            slot < self.homes.centre.len(),
    {
        let mut best: usize = list[0];
        let mut k: usize = 1;
        while k < list.len()
            invariant
                1 <= k <= list.len(),
                self.valid(),
                p.fits(self.plan@),
                i < self.notes.len(),
                forall|k: int| 0 <= k < list.len() ==> (#[trigger] list[k]) < self.homes.centre.len(),
                best < self.homes.centre.len(),
                best == nearest_part(self.plan@, p.pack(), i as int, list@, k as int),
            decreases list.len() - k,
        {
            let slot = list[k];
            let x = self.far(p, i, slot);
            let y = self.far(p, i, best);
            proof {
                assert(is_centre(self.homes.centre[slot as int]));
                assert(is_centre(self.homes.centre[best as int]));
            }
            let lx: u64 = self.homes.centre[slot].len;
            let ly: u64 = self.homes.centre[best].len;
            if less_ratio(x as u128, lx, y as u128, ly) {
                best = slot;
            }
            k += 1;
        }
        best
    }
}

/// Whether the notes of a batch begin at a tick.
spec fn is_batch(plan: Plan, batch: Seq<usize>, tick: int) -> bool {
    forall|k: int|
        0 <= k < batch.len() ==> (#[trigger] batch[k]) < plan.notes.len()
            && plan.notes[batch[k] as int].on == tick && plan.included[batch[k] as int]
}

proof fn lemma_homes_fail(plan: Plan, p: Pack, batch: Seq<usize>, tick: int, from: int, to: int)
    requires
        0 <= from <= to,
        with_homes(plan, p, batch, tick, from) is Err,
    ensures
        with_homes(plan, p, batch, tick, to) == with_homes(plan, p, batch, tick, from),
    decreases to - from,
{
    if from < to {
        lemma_homes_fail(plan, p, batch, tick, from, to - 1);
    }
}

proof fn lemma_others_fail(plan: Plan, p: Pack, batch: Seq<usize>, tick: Tick, from: int, to: int)
    requires
        0 <= from <= to,
        with_others(plan, p, batch, tick, from) is Err,
    ensures
        with_others(plan, p, batch, tick, to) == with_others(plan, p, batch, tick, from),
    decreases to - from,
{
    if from < to {
        lemma_others_fail(plan, p, batch, tick, from, to - 1);
    }
}

impl<'a> Desk<'a> {
    fn pack_melody(&self, p: &mut Packing, batch: &Vec<usize>, tick: Tick)
        requires
            self.valid(),
            old(p).fits(self.plan@),
            is_batch(self.plan@, batch@, tick as int),
            tick >= 0,
        ensures
            final(p).fits(self.plan@),
            final(p).pack() == with_melody(
                self.plan@,
                old(p).pack(),
                batch@,
                tick as int,
                batch.len() as int,
            ),
            keeps_places(old(p).pack(), final(p).pack()),
    {
        let ghost start = p.pack();
        let mut k: usize = 0;
        while k < batch.len()
            invariant
                k <= batch.len(),
                self.valid(),
                p.fits(self.plan@),
                is_batch(self.plan@, batch@, tick as int),
                tick >= 0,
                p.pack() == with_melody(self.plan@, start, batch@, tick as int, k as int),
                keeps_places(start, p.pack()),
            decreases batch.len() - k,
        {
            let i = batch[k];
            proof {
                assert(batch@[k as int] < self.plan@.notes.len());
                assert(0 <= self.notes[i as int].on <= self.notes[i as int].off);
            }
            if p.destination[i].is_none() && self.primary[i] && p.free_at[0] <= tick && p.can_encode_start(0, tick, self.plan) {
                p.place(i, 0, self.notes[i].off, self.plan);
            }
            k += 1;
        }
    }

    fn find_continuing(&self, p: &Packing, batch: &Vec<usize>, older: bool) -> (r: Vec<(usize, usize)>)
        requires
            self.valid(),
            p.fits(self.plan@),
            forall|k: int| 0 <= k < batch.len() ==> (#[trigger] batch[k]) < self.notes.len(),
        ensures
            r@ == continuing(self.plan@, p.pack(), batch@, older, batch.len() as int),
            forall|k: int|
                0 <= k < r.len() ==> (#[trigger] r[k]).1 < self.homes.centre.len()
                    && batch@.contains(r[k].0),
    {
        let mut r: Vec<(usize, usize)> = Vec::new();
        let mut k: usize = 0;
        while k < batch.len()
            invariant
                k <= batch.len(),
                self.valid(),
                p.fits(self.plan@),
                forall|k: int| 0 <= k < batch.len() ==> (#[trigger] batch[k]) < self.notes.len(),
                r@ == continuing(self.plan@, p.pack(), batch@, older, k as int),
                forall|k: int|
                    0 <= k < r.len() ==> (#[trigger] r[k]).1 < self.homes.centre.len()
                        && batch@.contains(r[k].0),
            decreases batch.len() - k,
        {
            let i = batch[k];
            proof {
                assert(batch[k as int] < self.notes.len());
                assert(batch@[k as int] == i);
            }
            if p.destination[i].is_none() && i > 0 && self.runs_on(i - 1) {
                match p.destination[i - 1] {
                    Some(slot) => {
                        proof {
                            assert(p.destination[i - 1] is Some);
                        }
                        let at_end: bool = match p.last[slot] {
                            Some(last) => last == i - 1,
                            None => false,
                        };
                        if !at_end == older {
                            r.push((i, slot));
                        }
                    },
                    None => {},
                }
            }
            k += 1;
        }
        r
    }

    fn pack_continuing(&self, p: &mut Packing, list: &Vec<(usize, usize)>, tick: Tick, melody: Option<Tick>)
        requires
            self.valid(),
            old(p).fits(self.plan@),
            tick >= 0,
            melody == melody_from(self.plan@, tick as int, 0),
            forall|k: int|
                0 <= k < list.len() ==> (#[trigger] list[k]).1 < self.homes.centre.len()
                    && list[k].0 < self.notes.len() && self.notes[list[k].0 as int].on == tick
                    && self.plan@.included[list[k].0 as int],
        ensures
            final(p).fits(self.plan@),
            final(p).pack() == with_continuing(
                self.plan@,
                old(p).pack(),
                list@,
                tick as int,
                list.len() as int,
            ),
            keeps_places(old(p).pack(), final(p).pack()),
    {
        let ghost start = p.pack();
        let mut k: usize = 0;
        while k < list.len()
            invariant
                k <= list.len(),
                self.valid(),
                p.fits(self.plan@),
                tick >= 0,
                melody == melody_from(self.plan@, tick as int, 0),
                forall|k: int|
                    0 <= k < list.len() ==> (#[trigger] list[k]).1 < self.homes.centre.len()
                        && list[k].0 < self.notes.len() && self.notes[list[k].0 as int].on == tick
                    && self.plan@.included[list[k].0 as int],
                p.pack() == with_continuing(self.plan@, start, list@, tick as int, k as int),
                keeps_places(start, p.pack()),
            decreases list.len() - k,
        {
            let (i, slot) = list[k];
            proof {
                assert(list[k as int].1 < self.homes.centre.len());
                assert(0 <= self.notes[i as int].on <= self.notes[i as int].off);
            }
            if p.destination[i].is_none() && p.free_at[slot] <= tick && p.can_encode_start(
                slot,
                tick,
                self.plan,
            ) && !self.blocks_primary(melody, slot, i, Ghost(tick as int)) {
                p.place(i, slot, self.notes[i].off, self.plan);
            }
            k += 1;
        }
    }

    fn pack_homes(&self, p: &mut Packing, batch: &Vec<usize>, tick: Tick, melody: Option<Tick>) -> (r: Result<(), PackError>)
        requires
            self.valid(),
            old(p).fits(self.plan@),
            is_batch(self.plan@, batch@, tick as int),
            tick >= 0,
            melody == melody_from(self.plan@, tick as int, 0),
        ensures
            match r {
                Ok(_) => final(p).fits(self.plan@) && with_homes(
                    self.plan@,
                    old(p).pack(),
                    batch@,
                    tick as int,
                    batch.len() as int,
                ) == Ok::<_, PackError>(final(p).pack()) && keeps_places(
                    old(p).pack(),
                    final(p).pack(),
                ),
                Err(e) => with_homes(
                    self.plan@,
                    old(p).pack(),
                    batch@,
                    tick as int,
                    batch.len() as int,
                ) == Err::<Pack, _>(e),
            },
    {
        let ghost start = p.pack();
        let mut k: usize = 0;
        while k < batch.len()
            invariant
                k <= batch.len(),
                self.valid(),
                p.fits(self.plan@),
                is_batch(self.plan@, batch@, tick as int),
                tick >= 0,
                melody == melody_from(self.plan@, tick as int, 0),
                start == old(p).pack(),
                with_homes(self.plan@, start, batch@, tick as int, k as int) == Ok::<_, PackError>(
                    p.pack(),
                ),
                keeps_places(start, p.pack()),
            decreases batch.len() - k,
        {
            let i = batch[k];
            proof {
                assert(batch@[k as int] < self.plan@.notes.len());
                assert(0 <= self.notes[i as int].on <= self.notes[i as int].off);
            }
            if p.destination[i].is_none() {
                match self.homes.home[i] {
                    None => {
                        proof {
                            lemma_homes_fail(
                                self.plan@,
                                start,
                                batch@,
                                tick as int,
                                k + 1,
                                batch.len() as int,
                            );
                        }
                        return Err(PackError::NoHome);
                    },
                    Some(home) => {
                        proof {
                            assert(self.homes.home[i as int] is Some);
                        }
                        if p.free_at[home] <= tick && p.can_encode_start(home, tick, self.plan)
                            && !self.blocks_primary(melody, home, i, Ghost(tick as int))
                            && !self.blocks_continuation(p, home, i) {
                            p.place(i, home, self.notes[i].off, self.plan);
                        }
                    },
                }
            }
            k += 1;
        }
        Ok(())
    }

    /// Numbers all parts.
    fn slots(&self) -> (r: Vec<usize>)
        requires
            self.valid(),
        ensures
            r@ == all_slots(self.homes.centre.len() as int),
    {
        let mut r: Vec<usize> = Vec::new();
        let mut k: usize = 0;
        while k < self.homes.centre.len()
            invariant
                k <= self.homes.centre.len(),
                r.len() == k,
                forall|j: int| 0 <= j < k ==> #[trigger] r[j] == j,
            decreases self.homes.centre.len() - k,
        {
            r.push(k);
            k += 1;
        }
        proof {
            assert(r@ =~= all_slots(self.homes.centre.len() as int));
        }
        r
    }

    #[verifier::rlimit(40)]
    fn pack_others(&self, p: &mut Packing, batch: &Vec<usize>, tick: Tick, melody: Option<Tick>) -> (r: Result<(), PackError>)
        requires
            self.valid(),
            old(p).fits(self.plan@),
            is_batch(self.plan@, batch@, tick as int),
            tick >= 0,
            melody == melody_from(self.plan@, tick as int, 0),
        ensures
            match r {
                Ok(_) => final(p).fits(self.plan@) && with_others(
                    self.plan@,
                    old(p).pack(),
                    batch@,
                    tick,
                    batch.len() as int,
                ) == Ok::<_, PackError>(final(p).pack()) && keeps_places(
                    old(p).pack(),
                    final(p).pack(),
                ) && all_placed(final(p).pack(), batch@, batch.len() as int),
                Err(e) => with_others(
                    self.plan@,
                    old(p).pack(),
                    batch@,
                    tick,
                    batch.len() as int,
                ) == Err::<Pack, _>(e),
            },
    {
        let ghost start = p.pack();
        let all = self.slots();
        let mut k: usize = 0;
        while k < batch.len()
            invariant
                k <= batch.len(),
                self.valid(),
                p.fits(self.plan@),
                is_batch(self.plan@, batch@, tick as int),
                tick >= 0,
                melody == melody_from(self.plan@, tick as int, 0),
                all@ == all_slots(self.homes.centre.len() as int),
                start == old(p).pack(),
                with_others(self.plan@, start, batch@, tick, k as int) == Ok::<_, PackError>(
                    p.pack(),
                ),
                keeps_places(start, p.pack()),
                all_placed(p.pack(), batch@, k as int),
            decreases batch.len() - k,
        {
            let i = batch[k];
            proof {
                assert(batch@[k as int] < self.plan@.notes.len());
                assert(0 <= self.notes[i as int].on <= self.notes[i as int].off);
            }
            if p.destination[i].is_none() {
                let free = self.sift(p, tick, melody, i, Test::Free, &all);
                if free.len() == 0 {
                    proof {
                        lemma_others_fail(
                            self.plan@,
                            start,
                            batch@,
                            tick,
                            k + 1,
                            batch.len() as int,
                        );
                    }
                    return Err(PackError::Exceeds { tick });
                }
                let ghost open_slots = free@;
                let a = self.narrow(p, tick, melody, i, Test::Start, free);
                let ghost first = a@;
                let b = self.narrow(p, tick, melody, i, Test::Melody, a);
                let ghost second = b@;
                let c = self.narrow(p, tick, melody, i, Test::Next, b);
                let slot = self.nearest(p, i, &c);
                proof {
                    let plan = self.plan@;
                    let q = p.pack();
                    let t = tick as int;
                    lemma_sifted(plan, q, t, i as int, Test::Free, all@, all@.len() as int);
                    lemma_narrowed(plan, q, t, i as int, Test::Start, open_slots);
                    lemma_narrowed(plan, q, t, i as int, Test::Melody, first);
                    lemma_narrowed(plan, q, t, i as int, Test::Next, second);
                    lemma_nearest(plan, q, i as int, c@, c@.len() as int);
                    assert(c@.contains(slot));
                    assert(second.contains(slot));
                    assert(first.contains(slot));
                    assert(open_slots.contains(slot));
                    assert(passes(plan, q, t, i as int, Test::Free, slot as int));
                }
                p.place(i, slot, self.notes[i].off, self.plan);
            }
            k += 1;
        }
        Ok(())
    }

    fn pack_batch(&self, p: &mut Packing, batch: &Vec<usize>, tick: Tick) -> (r: Result<(), PackError>)
        requires
            self.valid(),
            old(p).fits(self.plan@),
            is_batch(self.plan@, batch@, tick as int),
            tick >= 0,
        ensures
            match r {
                Ok(_) => final(p).fits(self.plan@) && with_batch(
                    self.plan@,
                    old(p).pack(),
                    batch@,
                    tick,
                ) == Ok::<_, PackError>(final(p).pack()) && keeps_places(
                    old(p).pack(),
                    final(p).pack(),
                ) && all_placed(final(p).pack(), batch@, batch.len() as int),
                Err(e) => with_batch(self.plan@, old(p).pack(), batch@, tick) == Err::<Pack, _>(e),
            },
    {
        let melody = self.melody(tick);
        self.pack_melody(p, batch, tick);
        proof {
            assert forall|k: int| 0 <= k < batch.len() implies (#[trigger] batch[k])
                < self.notes.len() by {
                assert(batch@[k] < self.plan@.notes.len());
            }
        }
        let behind = self.find_continuing(p, batch, false);
        let older = self.find_continuing(p, batch, true);
        let ghost first = behind@;
        let ghost second = older@;
        let mut list = behind;
        let mut k: usize = 0;
        while k < older.len()
            invariant
                k <= older.len(),
                second == older@,
                list@ == first + second.take(k as int),
            decreases older.len() - k,
        {
            list.push(older[k]);
            k += 1;
            proof {
                assert(list@ =~= first + second.take(k as int));
            }
        }
        proof {
            assert(second.take(k as int) =~= second);
            assert forall|k: int| 0 <= k < list.len() implies (#[trigger] list[k]).1
                < self.homes.centre.len() && list[k].0 < self.notes.len()
                && self.notes[list[k].0 as int].on == tick
                && self.plan@.included[list[k].0 as int] by {
                let item = if k < first.len() {
                    first[k]
                } else {
                    second[k - first.len()]
                };
                assert(list@[k] == item);
                assert(batch@.contains(item.0));
                let q = choose|q: int| 0 <= q < batch@.len() && batch@[q] == item.0;
                assert(batch@[q] < self.plan@.notes.len());
            }
        }
        self.pack_continuing(p, &list, tick, melody);
        match self.pack_homes(p, batch, tick, melody) {
            Err(e) => return Err(e),
            Ok(_) => {},
        }
        self.pack_others(p, batch, tick, melody)
    }
}

proof fn lemma_sifted(plan: Plan, p: Pack, tick: int, i: int, test: Test, list: Seq<usize>, n: int)
    requires
        0 <= n <= list.len(),
    ensures
        forall|x: usize| #[trigger]
            sifted(plan, p, tick, i, test, list, n).contains(x) ==> list.contains(x) && passes(
                plan,
                p,
                tick,
                i,
                test,
                x as int,
            ),
    decreases n,
{
    if n > 0 {
        lemma_sifted(plan, p, tick, i, test, list, n - 1);
        let before = sifted(plan, p, tick, i, test, list, n - 1);
        let all = sifted(plan, p, tick, i, test, list, n);
        assert forall|x: usize| #[trigger] all.contains(x) implies list.contains(x) && passes(
            plan,
            p,
            tick,
            i,
            test,
            x as int,
        ) by {
            let k = choose|k: int| 0 <= k < all.len() && all[k] == x;
            if k < before.len() {
                assert(before[k] == x);
                assert(before.contains(x));
            } else {
                assert(list[n - 1] == x);
            }
        }
    }
}

proof fn lemma_narrowed(plan: Plan, p: Pack, tick: int, i: int, test: Test, list: Seq<usize>)
    ensures
        forall|x: usize| #[trigger]
            narrowed(plan, p, tick, i, test, list).contains(x) ==> list.contains(x),
{
    lemma_sifted(plan, p, tick, i, test, list, list.len() as int);
}

proof fn lemma_nearest(plan: Plan, p: Pack, i: int, list: Seq<usize>, n: int)
    requires
        1 <= n <= list.len(),
    ensures
        list.contains(nearest_part(plan, p, i, list, n)),
    decreases n,
{
    if n > 1 {
        lemma_nearest(plan, p, i, list, n - 1);
        assert(list[n - 1] == list[n - 1]);
    } else {
        assert(list[0] == list[0]);
    }
}

fn empty_packing(notes: usize, slots: usize, Ghost(plan): Ghost<Plan>) -> (p: Packing)
    requires
        plan.notes.len() == notes,
        plan.centre.len() == slots,
    ensures
        p.fits(plan),
        p.pack() == no_pack(notes as int, slots as int),
{
    let mut out: Vec<Vec<usize>> = Vec::new();
    let mut free_at: Vec<Tick> = Vec::new();
    let mut last: Vec<Option<usize>> = Vec::new();
    let mut i: usize = 0;
    while i < slots
        invariant
            i <= slots,
            out.len() == i,
            free_at.len() == i,
            last.len() == i,
            forall|s: int| 0 <= s < i ==> (#[trigger] out[s])@ == Seq::<usize>::empty(),
            forall|s: int| 0 <= s < i ==> #[trigger] free_at[s] == -1,
            forall|s: int| 0 <= s < i ==> (#[trigger] last[s]) is None,
        decreases slots - i,
    {
        out.push(Vec::new());
        free_at.push(-1);
        last.push(None);
        i += 1;
    }
    let mut destination: Vec<Option<usize>> = Vec::new();
    let mut i: usize = 0;
    while i < notes
        invariant
            i <= notes,
            destination.len() == i,
            forall|s: int| 0 <= s < i ==> (#[trigger] destination[s]) is None,
        decreases notes - i,
    {
        destination.push(None);
        i += 1;
    }
    let p = Packing { out, destination, free_at, last };
    proof {
        reveal(is_record);
        let wanted = no_pack(notes as int, slots as int);
        assert(p.pack().out =~= wanted.out);
        assert(p.pack().destination =~= wanted.destination);
        assert(p.pack().free_at =~= wanted.free_at);
        assert(p.pack().last =~= wanted.last);
    }
    p
}

fn mark_all(list: &Vec<usize>, n: usize) -> (r: Vec<bool>)
    requires
        forall|k: int| 0 <= k < list.len() ==> (#[trigger] list[k]) < n,
    ensures
        r@ == marks(list@, n as int),
        r.len() == n,
{
    let mut r: Vec<bool> = Vec::new();
    let mut i: usize = 0;
    while i < n
        invariant
            i <= n,
            r.len() == i,
            forall|k: int| 0 <= k < i ==> !#[trigger] r[k],
        decreases n - i,
    {
        r.push(false);
        i += 1;
    }
    let mut k: usize = 0;
    while k < list.len()
        invariant
            k <= list.len(),
            r.len() == n,
            forall|k: int| 0 <= k < list.len() ==> (#[trigger] list[k]) < n,
            forall|i: int| 0 <= i < n ==> #[trigger] r[i] == list@.take(k as int).contains(i as usize),
        decreases list.len() - k,
    {
        let ghost before = r@;
        proof {
            assert(list[k as int] < n);
        }
        r.set(list[k], true);
        proof {
            let short = list@.take(k as int);
            let long = list@.take(k + 1);
            assert forall|i: int| 0 <= i < n implies #[trigger] r[i] == long.contains(i as usize) by {
                if short.contains(i as usize) {
                    let q = choose|q: int| 0 <= q < short.len() && short[q] == i as usize;
                    assert(long[q] == i as usize);
                }
                if i == list[k as int] {
                    assert(long[k as int] == i as usize);
                }
                if long.contains(i as usize) {
                    let q = choose|q: int| 0 <= q < long.len() && long[q] == i as usize;
                    if q < k {
                        assert(short[q] == i as usize);
                    }
                }
            }
        }
        k += 1;
    }
    proof {
        assert(list@.take(k as int) =~= list@);
        assert(r@ =~= marks(list@, n as int));
    }
    r
}

/// Numbers in order of time, the higher notes first.
fn sort_for_packing(notes: &Vec<Note>, kept: &Vec<usize>) -> (r: Vec<usize>)
    requires
        forall|k: int| 0 <= k < kept.len() ==> (#[trigger] kept[k]) < notes.len(),
    ensures
        r@ == pack_order(notes@, kept@),
        forall|k: int| 0 <= k < r.len() ==> (#[trigger] r[k]) < notes.len(),
        forall|k: int| 0 <= k < r.len() ==> kept@.contains(#[trigger] r[k]),
        forall|k: int| 0 <= k < kept.len() ==> r@.contains(#[trigger] kept[k]),
{
    let mut keys: Vec<Key> = Vec::new();
    let mut i: usize = 0;
    while i < kept.len()
        invariant
            i <= kept.len(),
            keys.len() == i,
            forall|k: int| 0 <= k < kept.len() ==> (#[trigger] kept[k]) < notes.len(),
            forall|k: int| 0 <= k < i ==> #[trigger] keys[k] == pack_keys(notes@, kept@)[k],
        decreases kept.len() - i,
    {
        proof {
            assert(kept[i as int] < notes.len());
        }
        let note = notes[kept[i]];
        keys.push((note.on, -(note.pitch as i64), 0));
        i += 1;
    }
    proof {
        assert(keys@ =~= pack_keys(notes@, kept@));
    }
    let sequence = order(&keys);
    let ghost f = |k: usize| kept@[k as int];
    let mut r: Vec<usize> = Vec::new();
    let mut i: usize = 0;
    while i < sequence.len()
        invariant
            i <= sequence.len() == kept.len(),
            f == (|k: usize| kept@[k as int]),
            forall|k: int| 0 <= k < kept.len() ==> (#[trigger] kept[k]) < notes.len(),
            forall|k: int| 0 <= k < sequence.len() ==> (#[trigger] sequence[k]) < kept.len(),
            r@ == sequence@.take(i as int).map_values(f),
            forall|k: int| 0 <= k < r.len() ==> (#[trigger] r[k]) < notes.len(),
        decreases sequence.len() - i,
    {
        let at = sequence[i];
        proof {
            assert(kept[at as int] < notes.len());
        }
        r.push(kept[at]);
        i += 1;
        proof {
            assert(r@ =~= sequence@.take(i as int).map_values(f));
        }
    }
    proof {
        assert(sequence@.take(i as int) =~= sequence@);
        lemma_stable_sort(
            indices(keys@.len()),
            |i: usize| keys@[i as int],
        );
        assert forall|k: int| 0 <= k < r.len() implies kept@.contains(#[trigger] r[k]) by {
            assert(r[k] == kept@[sequence[k] as int]);
        }
        assert forall|k: int| 0 <= k < kept.len() implies r@.contains(#[trigger] kept[k]) by {
            assert(indices(keys@.len())[k] == k as usize);
            assert(sequence@.contains(k as usize));
            let q = choose|q: int| 0 <= q < sequence@.len() && sequence@[q] == k as usize;
            assert(r@[q] == kept@[k]);
        }
    }
    r
}

fn make_desk<'a>(notes: &'a Vec<Note>, kept: &Vec<usize>, homes: &'a Homes) -> (desk: Desk<'a>)
    requires
        is_plan(notes@, kept@, *homes),
    ensures
        desk.valid(),
        desk.plan@ == plan_of(notes@, kept@, *homes),
        desk.notes@ == notes@,
        *desk.homes == *homes,
{
    let included = mark_all(kept, notes.len());
    let primary = mark_all(&homes.primary_lead, notes.len());
    Desk { notes, homes, included, primary, plan: Ghost(plan_of(notes@, kept@, *homes)) }
}

/// Counts the notes that did not go where they belong.
fn count_strays(p: &Packing, homes: &Homes, kept: &Vec<usize>) -> (n: usize)
    requires
        p.destination.len() == homes.home.len(),
        forall|k: int| 0 <= k < kept.len() ==> (#[trigger] kept[k]) < homes.home.len(),
    ensures
        n == strayed(p.pack(), homes.home@, kept@, kept.len() as int),
{
    let mut n: usize = 0;
    let mut k: usize = 0;
    while k < kept.len()
        invariant
            k <= kept.len(),
            p.destination.len() == homes.home.len(),
            forall|k: int| 0 <= k < kept.len() ==> (#[trigger] kept[k]) < homes.home.len(),
            n == strayed(p.pack(), homes.home@, kept@, k as int),
            n <= k,
        decreases kept.len() - k,
    {
        let i = kept[k];
        proof {
            assert(kept[k as int] < homes.home.len());
        }
        let same: bool = match p.destination[i] {
            Some(a) => match homes.home[i] {
                Some(b) => a == b,
                None => false,
            },
            None => homes.home[i].is_none(),
        };
        if !same {
            n += 1;
        }
        k += 1;
    }
    n
}

/// The parts as lists of numbers.
pub open spec fn parts_of(out: Seq<Vec<usize>>) -> Seq<Seq<usize>> {
    Seq::new(out.len(), |i: int| out[i]@)
}

/// Whether no note of a part begins before the one before it has ended.
pub open spec fn is_single(notes: Seq<Note>, out: Seq<Seq<usize>>) -> bool {
    forall|s: int, k: int|
        #![trigger out[s][k]]
        0 <= s < out.len() && 0 < k < out[s].len() ==> notes[out[s][k - 1] as int].off
            <= notes[out[s][k] as int].on
}

/// Whether parts hold the notes of a list: all of them, no others, and none twice.
pub open spec fn shares_out(kept: Seq<usize>, out: Seq<Seq<usize>>) -> bool {
    &&& forall|k: int| 0 <= k < kept.len() ==> is_in(out, #[trigger] kept[k])
    &&& forall|s: int, k: int|
        #![trigger out[s][k]]
        0 <= s < out.len() && 0 <= k < out[s].len() ==> kept.contains(out[s][k])
    &&& forall|s: int, k: int, t: int, l: int|
        #![trigger out[s][k], out[t][l]]
        0 <= s < out.len() && 0 <= k < out[s].len() && 0 <= t < out.len() && 0 <= l < out[t].len()
            && out[s][k] == out[t][l] ==> s == t && k == l
}

/// Whether a note is in one of the parts.
pub open spec fn is_in(out: Seq<Seq<usize>>, i: usize) -> bool {
    exists|s: int| 0 <= s < out.len() && (#[trigger] out[s]).contains(i)
}

proof fn lemma_shared_out(plan: Plan, p: Pack, kept: Seq<usize>, sequence: Seq<usize>)
    requires
        is_record(p),
        all_placed(p, sequence, sequence.len() as int),
        forall|k: int| 0 <= k < kept.len() ==> sequence.contains(#[trigger] kept[k]),
        forall|k: int| 0 <= k < kept.len() ==> (#[trigger] kept[k]) < p.destination.len(),
        forall|i: int|
            0 <= i < p.destination.len() && (#[trigger] p.destination[i]) is Some
                ==> plan.included[i],
        plan.included == marks(kept, p.destination.len() as int),
        p.out.len() <= usize::MAX,
    ensures
        shares_out(kept, p.out),
{
    reveal(is_record);
    let out = p.out;
    assert forall|k: int| 0 <= k < kept.len() implies is_in(out, #[trigger] kept[k]) by {
        let q = choose|q: int| 0 <= q < sequence.len() && sequence[q] == kept[k];
        assert(p.destination[sequence[q] as int] is Some);
        let s = p.destination[kept[k] as int]->Some_0 as int;
        assert(out[s].contains(kept[k]));
    }
    assert forall|s: int, k: int|
        #![trigger out[s][k]]
        0 <= s < out.len() && 0 <= k < out[s].len() implies kept.contains(out[s][k]) by {
        assert(p.destination[p.out[s][k] as int] == Some(s as usize));
        assert(plan.included[p.out[s][k] as int]);
    }
    assert forall|s: int, k: int, t: int, l: int|
        #![trigger out[s][k], out[t][l]]
        0 <= s < out.len() && 0 <= k < out[s].len() && 0 <= t < out.len() && 0 <= l < out[t].len()
            && out[s][k] == out[t][l] implies s == t && k == l by {
        assert(p.destination[p.out[s][k] as int] == Some(s as usize));
        assert(p.destination[p.out[t][l] as int] == Some(t as usize));
        assert(out[s].no_duplicates());
    }
}

/// Whether parts hold notes of a list of some length.
pub open spec fn is_within(n: nat, out: Seq<Seq<usize>>) -> bool {
    forall|s: int, k: int|
        #![trigger out[s][k]]
        0 <= s < out.len() && 0 <= k < out[s].len() ==> out[s][k] < n
}

/// Puts notes into parts where voices go on; returns the notes of each part, and how many
/// did not go where they belong. No part has two notes at once.
#[verifier::rlimit(40)]
pub fn repack(notes: &Vec<Note>, kept: &Vec<usize>, homes: &Homes) -> (r: Result<
    (Vec<Vec<usize>>, usize),
    PackError,
>)
    requires
        is_plan(notes@, kept@, *homes),
    ensures
        match r {
            Ok((out, spill)) => {
                &&& repacked(notes@, kept@, *homes) is Ok
                &&& parts_of(out@) == repacked(notes@, kept@, *homes)->Ok_0.out
                &&& spill == strayed(
                    repacked(notes@, kept@, *homes)->Ok_0,
                    homes.home@,
                    kept@,
                    kept.len() as int,
                )
                &&& is_single(notes@, parts_of(out@))
                &&& is_within(notes.len() as nat, parts_of(out@))
                &&& shares_out(kept@, parts_of(out@))
                &&& out.len() == homes.centre.len()
            },
            Err(e) => repacked(notes@, kept@, *homes) == Err::<Pack, _>(e),
        },
{
    let desk = make_desk(notes, kept, homes);
    let ghost plan = desk.plan@;
    let sequence = sort_for_packing(notes, kept);
    let mut p = empty_packing(notes.len(), homes.centre.len(), Ghost(plan));
    let mut start: usize = 0;
    while start < sequence.len()
        invariant
            start <= sequence.len(),
            desk.valid(),
            plan == desk.plan@,
            desk.notes@ == notes@,
            plan == plan_of(notes@, kept@, *homes),
            p.fits(plan),
            sequence@ == pack_order(notes@, kept@),
            forall|k: int| 0 <= k < sequence.len() ==> (#[trigger] sequence[k]) < notes.len(),
            forall|k: int| 0 <= k < sequence.len() ==> kept@.contains(#[trigger] sequence[k]),
            all_placed(p.pack(), sequence@, start as int),
            forall|i: int| 0 <= i < notes.len() ==> 0 <= (#[trigger] notes[i]).on,
            repacked(notes@, kept@, *homes) == with_rest(plan, p.pack(), sequence@, start as int),
        decreases sequence.len() - start,
    {
        proof {
            assert(sequence[start as int] < notes.len());
            assert(0 <= notes[sequence[start as int] as int].on);
        }
        let tick = notes[sequence[start]].on;
        let mut batch: Vec<usize> = Vec::new();
        let mut end: usize = start;
        while end < sequence.len() && notes[sequence[end]].on == tick
            invariant
                start <= end <= sequence.len(),
                plan.notes == notes@,
                plan.included == marks(kept@, notes.len() as int),
                forall|k: int| 0 <= k < sequence.len() ==> kept@.contains(#[trigger] sequence[k]),
                forall|k: int| 0 <= k < sequence.len() ==> (#[trigger] sequence[k]) < notes.len(),
                batch@ == sequence@.subrange(start as int, end as int),
                batch_end(notes@, sequence@, tick, start as int) == batch_end(
                    notes@,
                    sequence@,
                    tick,
                    end as int,
                ),
                is_batch(plan, batch@, tick as int),
            decreases sequence.len() - end,
        {
            proof {
                assert(sequence[end as int] < notes.len());
                assert(kept@.contains(sequence[end as int]));
            }
            batch.push(sequence[end]);
            end += 1;
            proof {
                assert(batch@ =~= sequence@.subrange(start as int, end as int));
            }
        }
        proof {
            assert(end > start);
        }
        let ghost before = p.pack();
        match desk.pack_batch(&mut p, &batch, tick) {
            Err(e) => return Err(e),
            Ok(_) => {},
        }
        proof {
            assert forall|k: int| 0 <= k < end implies p.pack().destination[(
            #[trigger] sequence[k]) as int] is Some by {
                if k < start {
                    assert(before.destination[sequence[k] as int] is Some);
                } else {
                    assert(batch@[k - start] == sequence[k]);
                }
            }
        }
        start = end;
    }
    let spill = count_strays(&p, homes, kept);
    proof {
        assert(p.pack().out =~= parts_of(p.out@));
        assert(is_tidy(notes@, p.pack()));
        lemma_shared_out(plan, p.pack(), kept@, sequence@);
    }
    Ok((p.out, spill))
}

/// Every note goes where it belongs where that is free, and else to the nearest part that
/// is; and how many did not go where they belong.
pub open spec fn plainly_packed(plan: Plan, p: Pack, sequence: Seq<usize>, n: int) -> Result<(Pack, int), PackError>
    decreases n,
{
    if n <= 0 {
        Ok((p, 0))
    } else {
        match plainly_packed(plan, p, sequence, n - 1) {
            Err(e) => Err(e),
            Ok((before, spill)) => {
                let i = sequence[n - 1];
                let on = plan.notes[i as int].on;
                match plan.home[i as int] {
                    None => Err(PackError::NoHome),
                    Some(home) => if before.destination[i as int] is Some {
                        Ok((before, spill))
                    } else if is_free(before, home as int, on as int) {
                        Ok((packed_in(before, plan.notes, i, home), spill))
                    } else {
                        let slots = plan.centre.len() as int;
                        let free = sifted(
                            plan,
                            before,
                            on as int,
                            i as int,
                            Test::Free,
                            all_slots(slots),
                            slots,
                        );
                        if free.len() == 0 {
                            Err(PackError::Exceeds { tick: on })
                        } else {
                            let slot = nearest_part(plan, before, i as int, free, free.len() as int);
                            Ok((packed_in(before, plan.notes, i, slot), spill + 1))
                        }
                    },
                }
            },
        }
    }
}

proof fn lemma_plainly_fails(plan: Plan, p: Pack, sequence: Seq<usize>, from: int, to: int)
    requires
        0 <= from <= to,
        plainly_packed(plan, p, sequence, from) is Err,
    ensures
        plainly_packed(plan, p, sequence, to) is Err,
        plainly_packed(plan, p, sequence, to)->Err_0 == plainly_packed(plan, p, sequence, from)->Err_0,
    decreases to - from,
{
    if from < to {
        lemma_plainly_fails(plan, p, sequence, from, to - 1);
    }
}

/// What putting every note where it belongs, as far as that is free, comes to.
pub open spec fn legacy_packed(notes: Seq<Note>, kept: Seq<usize>, homes: Homes) -> Result<(Pack, int), PackError> {
    let sequence = pack_order(notes, kept);
    plainly_packed(
        plan_of(notes, kept, homes),
        no_pack(notes.len() as int, homes.centre.len() as int),
        sequence,
        sequence.len() as int,
    )
}

/// Puts every note where it belongs, as far as that is free, and else into the nearest part;
/// returns the notes of each part, and how many did not go where they belong. No part has
/// two notes at once.
#[verifier::rlimit(40)]
pub fn legacy_repack(notes: &Vec<Note>, kept: &Vec<usize>, homes: &Homes) -> (r: Result<
    (Vec<Vec<usize>>, usize),
    PackError,
>)
    requires
        is_plan(notes@, kept@, *homes),
    ensures
        match r {
            Ok((out, spill)) => {
                &&& legacy_packed(notes@, kept@, *homes) is Ok
                &&& parts_of(out@) == legacy_packed(notes@, kept@, *homes)->Ok_0.0.out
                &&& spill == legacy_packed(notes@, kept@, *homes)->Ok_0.1
                &&& is_single(notes@, parts_of(out@))
                &&& is_within(notes.len() as nat, parts_of(out@))
                &&& shares_out(kept@, parts_of(out@))
                &&& out.len() == homes.centre.len()
            },
            Err(e) => legacy_packed(notes@, kept@, *homes) is Err && legacy_packed(
                notes@,
                kept@,
                *homes,
            )->Err_0 == e,
        },
{
    let desk = make_desk(notes, kept, homes);
    let ghost plan = desk.plan@;
    let sequence = sort_for_packing(notes, kept);
    let all = desk.slots();
    let mut p = empty_packing(notes.len(), homes.centre.len(), Ghost(plan));
    let ghost first = p.pack();
    let mut spill: usize = 0;
    let mut k: usize = 0;
    while k < sequence.len()
        invariant
            k <= sequence.len(),
            desk.valid(),
            plan == desk.plan@,
            desk.notes@ == notes@,
            *desk.homes == *homes,
            plan == plan_of(notes@, kept@, *homes),
            p.fits(plan),
            all@ == all_slots(homes.centre.len() as int),
            sequence@ == pack_order(notes@, kept@),
            first == no_pack(notes.len() as int, homes.centre.len() as int),
            forall|k: int| 0 <= k < sequence.len() ==> (#[trigger] sequence[k]) < notes.len(),
            forall|k: int| 0 <= k < sequence.len() ==> kept@.contains(#[trigger] sequence[k]),
            all_placed(p.pack(), sequence@, k as int),
            forall|i: int| 0 <= i < notes.len() ==> 0 <= (#[trigger] notes[i]).on <= notes[i].off,
            spill <= k,
            plainly_packed(plan, first, sequence@, k as int) == Ok::<_, PackError>(
                (p.pack(), spill as int),
            ),
        decreases sequence.len() - k,
    {
        let i = sequence[k];
        proof {
            assert(sequence[k as int] < notes.len());
            assert(kept@.contains(sequence[k as int]));
            assert(0 <= notes[i as int].on <= notes[i as int].off);
        }
        let on = notes[i].on;
        match homes.home[i] {
            None => {
                proof {
                    lemma_plainly_fails(plan, first, sequence@, k + 1, sequence.len() as int);
                }
                return Err(PackError::NoHome);
            },
            Some(home) => {
                proof {
                    assert(desk.homes.home[i as int] is Some);
                }
                if p.destination[i].is_some() {
                } else if p.free_at[home] <= on {
                    p.place(i, home, notes[i].off, Ghost(plan));
                } else {
                    let melody = desk.melody(on);
                    let free = desk.sift(&p, on, melody, i, Test::Free, &all);
                    if free.len() == 0 {
                        proof {
                            lemma_plainly_fails(
                                plan,
                                first,
                                sequence@,
                                k + 1,
                                sequence.len() as int,
                            );
                        }
                        return Err(PackError::Exceeds { tick: on });
                    }
                    let slot = desk.nearest(&p, i, &free);
                    proof {
                        lemma_sifted(
                            plan,
                            p.pack(),
                            on as int,
                            i as int,
                            Test::Free,
                            all@,
                            all@.len() as int,
                        );
                        lemma_nearest(plan, p.pack(), i as int, free@, free@.len() as int);
                        assert(free@.contains(slot));
                        assert(passes(plan, p.pack(), on as int, i as int, Test::Free, slot as int));
                    }
                    p.place(i, slot, notes[i].off, Ghost(plan));
                    spill += 1;
                }
            },
        }
        k += 1;
    }
    proof {
        assert(p.pack().out =~= parts_of(p.out@));
        assert(is_tidy(notes@, p.pack()));
        lemma_shared_out(plan, p.pack(), kept@, sequence@);
    }
    Ok((p.out, spill))
}

} // verus!
