//! The voices of a source are given to parts: the heaviest one to a part each, the others one
//! by one to where they disturb least.
use crate::encode::slot_lists;
use crate::homes::{is_mean, mean};
use crate::onsets::copy_ids;
use crate::order::{lemma_order_sorts, order, order_of, stable_sort, Key};
use crate::packing::{is_centre, Centre, Homes};
use crate::score::Note;
use crate::voicing::{group_by_source, in_order, sort_by_start, sorted_voices, voice_weight, weigh_voice};
use vstd::prelude::*;

verus! {

/// The key that puts the heaviest voice first.
pub open spec fn weight_key(weight: int) -> Key {
    let high = weight / 0x8000_0000_0000_0000;
    (
        -(high / 0x8000_0000_0000_0000) as i64,
        -(high % 0x8000_0000_0000_0000) as i64,
        -(weight % 0x8000_0000_0000_0000) as i64,
    )
}

pub open spec fn weight_keys(notes: Seq<Note>, voices: Seq<Seq<usize>>) -> Seq<Key> {
    Seq::new(
        voices.len(),
        |v: int| weight_key(voice_weight(notes, voices[v], voices[v].len() as int)),
    )
}

/// The voices, the heaviest first.
pub open spec fn by_weight(notes: Seq<Note>, voices: Seq<Seq<usize>>) -> Seq<usize> {
    order_of(weight_keys(notes, voices))
}

/// Homes of notes with those of the first notes of a voice.
pub open spec fn with_home(home: Seq<Option<usize>>, ids: Seq<usize>, slot: usize, n: int) -> Seq<
    Option<usize>,
>
    decreases n,
{
    if n <= 0 {
        home
    } else {
        with_home(home, ids, slot, n - 1).update(ids[n - 1] as int, Some(slot))
    }
}

/// The first of the parts that cost least.
pub open spec fn least_cost(costs: Seq<i64>, n: int) -> int
    decreases n,
{
    if n <= 1 {
        0
    } else {
        let before = least_cost(costs, n - 1);
        if costs[n - 1] < costs[before] {
            n - 1
        } else {
            before
        }
    }
}

proof fn lemma_least_cost(costs: Seq<i64>, n: int)
    requires
        1 <= n <= costs.len(),
    ensures
        0 <= least_cost(costs, n) < n,
    decreases n,
{
    if n > 1 {
        lemma_least_cost(costs, n - 1);
    }
}

/// The least that a part costs is what the first part that costs least costs.
pub proof fn law_least_cost(costs: Seq<i64>, n: int, k: int)
    requires
        0 <= k < n <= costs.len(),
    ensures
        costs[least_cost(costs, n)] <= costs[k],
        k < least_cost(costs, n) ==> costs[least_cost(costs, n)] < costs[k],
    decreases n,
{
    if n > 1 {
        lemma_least_cost(costs, n - 1);
        if k < n - 1 {
            law_least_cost(costs, n - 1, k);
        } else {
            law_least_cost(costs, n - 1, least_cost(costs, n - 1));
        }
        if least_cost(costs, n) == n - 1 && k < n - 1 {
            law_least_cost(costs, n - 1, k);
        }
    }
}

/// Where notes are at home, and what the parts hold.
pub ghost struct Seats {
    pub home: Seq<Option<usize>>,
    pub content: Seq<Seq<usize>>,
}

/// Seats with a voice given to a part.
pub open spec fn seat_at(s: Seats, notes: Seq<Note>, ids: Seq<usize>, slot: usize) -> Seats {
    Seats {
        home: with_home(s.home, ids, slot, ids.len() as int),
        content: s.content.update(
            slot as int,
            in_order(notes, s.content[slot as int] + ids),
        ),
    }
}

/// Seats with the first of some voices given to a part each.
pub open spec fn seats_of(s: Seats, notes: Seq<Note>, voices: Seq<Seq<usize>>, list: Seq<usize>, n: int) -> Seats
    decreases n,
{
    if n <= 0 {
        s
    } else {
        seat_at(
            seats_of(s, notes, voices, list, n - 1),
            notes,
            voices[list[n - 1] as int],
            (n - 1) as usize,
        )
    }
}

pub open spec fn height_key(heights: Seq<i64>, v: usize) -> Key {
    ((-1 - heights[v as int]) as i64, 0i64, 0i64)
}

/// Voices in the order of their heights, the highest first.
pub open spec fn from_top(list: Seq<usize>, heights: Seq<i64>) -> Seq<usize> {
    stable_sort(list, |v: usize| height_key(heights, v))
}

/// How many voices get a part of their own.
pub open spec fn firsts(voices: int, slots: int) -> int {
    if voices < slots {
        voices
    } else {
        slots
    }
}

/// Voices that go to parts.
pub struct Seating {
    pub notes: Vec<Note>,
    /// The voices, each in order of time.
    pub voices: Vec<Vec<usize>>,
    /// The voices by weight.
    pub sequence: Vec<usize>,
    /// How many voices have got a part.
    pub seated: usize,
    pub home: Vec<Option<usize>>,
    /// The notes of each part, in order of time.
    pub content: Vec<Vec<usize>>,
}

pub open spec fn holds_notes(lists: Seq<Vec<usize>>, n: int) -> bool {
    forall|s: int, k: int|
        #![trigger lists[s]@[k]]
        0 <= s < lists.len() && 0 <= k < lists[s].len() ==> lists[s]@[k] < n
}

impl Seating {
    pub open spec fn valid(self) -> bool {
        let n = self.notes.len() as int;
        &&& holds_notes(self.voices@, n)
        &&& holds_notes(self.content@, n)
        &&& self.sequence.len() == self.voices.len()
        &&& forall|k: int|
            0 <= k < self.sequence.len() ==> (#[trigger] self.sequence[k]) < self.voices.len()
        &&& self.seated <= self.voices.len()
        &&& self.home.len() == n
        &&& self.content.len() > 0
        &&& forall|i: int|
            0 <= i < n && (#[trigger] self.home[i]) is Some ==> self.home[i]->Some_0
                < self.content.len()
    }

    pub open spec fn seats(self) -> Seats {
        Seats { home: self.home@, content: slot_lists(self.content@) }
    }

    /// Finds the voices that notes come from. None of them has a part yet.
    pub fn new(notes: Vec<Note>, kept: &Vec<usize>, slots: usize) -> (r: Self)
        requires
            forall|k: int| 0 <= k < kept.len() ==> (#[trigger] kept[k]) < notes.len(),
            forall|i: int|
                0 <= i < notes.len() ==> 0 <= (#[trigger] notes[i]).on <= notes[i].off,
            slots > 0,
        ensures
            r.valid(),
            r.notes@ == notes@,
            slot_lists(r.voices@) == sorted_voices(notes@, kept@),
            r.sequence@ == by_weight(notes@, sorted_voices(notes@, kept@)),
            r.seated == 0,
            r.home@ == Seq::new(notes.len() as nat, |i: int| None::<usize>),
            slot_lists(r.content@) == Seq::new(slots as nat, |s: int| Seq::<usize>::empty()),
    {
        let voices = group_by_source(&notes, kept);
        let ghost lists = slot_lists(voices@);
        let mut keys: Vec<Key> = Vec::new();
        let mut v: usize = 0;
        while v < voices.len()
            invariant
                v <= voices.len(),
                lists == slot_lists(voices@),
                holds_notes(voices@, notes.len() as int),
                forall|i: int|
                    0 <= i < notes.len() ==> 0 <= (#[trigger] notes[i]).on <= notes[i].off,
                keys.len() == v,
                forall|k: int|
                    0 <= k < v ==> #[trigger] keys[k] == weight_keys(notes@, lists)[k],
            decreases voices.len() - v,
        {
            proof {
                assert forall|k: int| 0 <= k < voices[v as int].len() implies (
                #[trigger] voices[v as int][k]) < notes.len() by {
                    assert(voices[v as int]@[k] < notes.len());
                }
                assert(lists[v as int] == voices[v as int]@);
            }
            let w = weigh_voice(&notes, &voices[v]);
            let high: u128 = w / 0x8000_0000_0000_0000;
            let top: u128 = high / 0x8000_0000_0000_0000;
            let middle: u128 = high % 0x8000_0000_0000_0000;
            let low: u128 = w % 0x8000_0000_0000_0000;
            keys.push((-(top as i64), -(middle as i64), -(low as i64)));
            v += 1;
        }
        proof {
            assert(keys@ =~= weight_keys(notes@, lists));
        }
        let sequence = order(&keys);
        let mut home: Vec<Option<usize>> = Vec::new();
        let mut i: usize = 0;
        while i < notes.len()
            invariant
                i <= notes.len(),
                home.len() == i,
                forall|k: int| 0 <= k < i ==> (#[trigger] home[k]) is None,
            decreases notes.len() - i,
        {
            home.push(None);
            i += 1;
        }
        let mut content: Vec<Vec<usize>> = Vec::new();
        let mut s: usize = 0;
        while s < slots
            invariant
                s <= slots,
                content.len() == s,
                forall|k: int| 0 <= k < s ==> (#[trigger] content[k])@ == Seq::<usize>::empty(),
            decreases slots - s,
        {
            let none: Vec<usize> = Vec::new();
            proof {
                assert(none@ =~= Seq::<usize>::empty());
            }
            content.push(none);
            s += 1;
        }
        proof {
            assert(home@ =~= Seq::new(notes.len() as nat, |i: int| None::<usize>));
            assert(slot_lists(content@) =~= Seq::new(slots as nat, |s: int| Seq::<usize>::empty()));
        }
        Seating { notes, voices, sequence, seated: 0, home, content }
    }

    /// Gives a voice to a part that is still empty, or puts it in order beside what is there.
    fn seat(&mut self, voice: usize, slot: usize)
        requires
            old(self).valid(),
            old(self).seated < old(self).voices.len(),
            voice < old(self).voices.len(),
            slot < old(self).content.len(),
        ensures
            final(self).valid(),
            *final(self) == (Seating {
                seated: (old(self).seated + 1) as usize,
                home: final(self).home,
                content: final(self).content,
                ..*old(self)
            }),
            final(self).seats() == seat_at(
                old(self).seats(),
                old(self).notes@,
                old(self).voices[voice as int]@,
                slot,
            ),
            final(self).content.len() == old(self).content.len(),
    {
        let ghost start = *self;
        let ghost ids = self.voices[voice as int]@;
        let mut k: usize = 0;
        while k < self.voices[voice].len()
            invariant
                k <= ids.len(),
                voice < self.voices.len(),
                ids == self.voices[voice as int]@,
                start.valid(),
                slot < start.content.len(),
                *self == (Seating { home: self.home, ..start }),
                self.home.len() == start.notes.len(),
                self.home@ == with_home(start.home@, ids, slot, k as int),
                forall|i: int|
                    0 <= i < self.home.len() && (#[trigger] self.home[i]) is Some
                        ==> self.home[i]->Some_0 < start.content.len(),
            decreases ids.len() - k,
        {
            proof {
                assert(self.voices[voice as int]@[k as int] < self.notes.len());
            }
            let i = self.voices[voice][k];
            self.home.set(i, Some(slot));
            k += 1;
        }
        let mut all = copy_ids(&self.content[slot]);
        let ghost before = all@;
        let mut k: usize = 0;
        while k < self.voices[voice].len()
            invariant
                k <= ids.len(),
                voice < self.voices.len(),
                ids == self.voices[voice as int]@,
                all@ == before + ids.take(k as int),
            decreases ids.len() - k,
        {
            all.push(self.voices[voice][k]);
            k += 1;
            proof {
                assert(all@ =~= before + ids.take(k as int));
            }
        }
        proof {
            assert(ids.take(k as int) =~= ids);
            assert forall|q: int| 0 <= q < all.len() implies (#[trigger] all[q])
                < self.notes.len() by {
                if q < before.len() {
                    assert(start.content[slot as int]@[q] < start.notes.len());
                } else {
                    assert(start.voices[voice as int]@[q - before.len()] < start.notes.len());
                }
            }
        }
        let sorted = sort_by_start(&self.notes, &all);
        let ghost list = sorted@;
        let ghost earlier = self.content@;
        self.content.set(slot, sorted);
        self.seated = self.seated + 1;
        proof {
            assert(slot_lists(self.content@) =~= slot_lists(earlier).update(slot as int, list));
            assert forall|s: int, q: int|
                #![trigger self.content[s]@[q]]
                0 <= s < self.content.len() && 0 <= q < self.content[s].len() implies
                self.content[s]@[q] < self.notes.len() by {
                if s == slot {
                    assert(sorted[q] < self.notes.len());
                } else {
                    assert(self.content[s] == earlier[s]);
                    assert(earlier[s]@[q] < self.notes.len());
                }
            }
        }
    }

    /// Gives the heaviest voices a part each, by heights that are given for all voices: the
    /// first part to the highest of them.
    pub fn seat_heaviest(&mut self, heights: &Vec<i64>)
        requires
            old(self).valid(),
            old(self).seated == 0,
            heights.len() == old(self).voices.len(),
        ensures
            final(self).valid(),
            *final(self) == (Seating {
                seated: final(self).seated,
                home: final(self).home,
                content: final(self).content,
                ..*old(self)
            }),
            final(self).seated == firsts(
                old(self).voices.len() as int,
                old(self).content.len() as int,
            ),
            final(self).content.len() == old(self).content.len(),
            final(self).seats() == seats_of(
                old(self).seats(),
                old(self).notes@,
                slot_lists(old(self).voices@),
                from_top(old(self).sequence@.take(final(self).seated as int), heights@),
                final(self).seated as int,
            ),
    {
        let ghost start = *self;
        let n: usize = if self.voices.len() < self.content.len() {
            self.voices.len()
        } else {
            self.content.len()
        };
        let ghost list = self.sequence@.take(n as int);
        let ghost key = |v: usize| height_key(heights@, v);
        let mut keys: Vec<Key> = Vec::new();
        let mut k: usize = 0;
        while k < n
            invariant
                k <= n <= self.sequence.len(),
                self.valid(),
                *self == start,
                heights.len() == self.voices.len(),
                list == self.sequence@.take(n as int),
                key == (|v: usize| height_key(heights@, v)),
                keys.len() == k,
                forall|q: int| 0 <= q < k ==> #[trigger] keys[q] == key(list[q]),
            decreases n - k,
        {
            proof {
                assert(self.sequence[k as int] < self.voices.len());
            }
            keys.push((-1 - heights[self.sequence[k]], 0, 0));
            k += 1;
        }
        let places = order(&keys);
        let ghost ranks = from_top(list, heights@);
        proof {
            lemma_order_sorts(list, keys@, key);
            assert(ranks =~= places@.map_values(|i: usize| list[i as int]));
        }
        let mut k: usize = 0;
        while k < n
            invariant
                k <= n <= start.sequence.len(),
                n <= start.content.len(),
                start.valid(),
                start.seated == 0,
                self.valid(),
                *self == (Seating {
                    seated: k,
                    home: self.home,
                    content: self.content,
                    ..start
                }),
                self.content.len() == start.content.len(),
                list == start.sequence@.take(n as int),
                places.len() == n,
                ranks == places@.map_values(|i: usize| list[i as int]),
                forall|q: int| 0 <= q < places.len() ==> (#[trigger] places[q]) < n,
                self.seats() == seats_of(
                    start.seats(),
                    start.notes@,
                    slot_lists(start.voices@),
                    ranks,
                    k as int,
                ),
            decreases n - k,
        {
            proof {
                assert(places[k as int] < n);
                assert(start.sequence[places[k as int] as int] < start.voices.len());
            }
            let voice = self.sequence[places[k]];
            proof {
                assert(ranks[k as int] == voice);
                assert(slot_lists(start.voices@)[voice as int] == start.voices[voice as int]@);
            }
            self.seat(voice, k);
            k += 1;
        }
    }

    /// The heaviest voice that has no part yet.
    pub fn waiting(&self) -> (r: Option<usize>)
        requires
            self.valid(),
        ensures
            match r {
                Some(v) => self.seated < self.voices.len() && v == self.sequence[self.seated as int]
                    && v < self.voices.len(),
                None => self.seated == self.voices.len(),
            },
    {
        if self.seated < self.voices.len() {
            proof {
                assert(self.sequence[self.seated as int] < self.voices.len());
            }
            Some(self.sequence[self.seated])
        } else {
            None
        }
    }

    /// Gives the heaviest voice that has no part yet to the part that costs least, the first of
    /// several, by costs that are given for all parts.
    pub fn seat_next(&mut self, costs: &Vec<i64>) -> (slot: usize)
        requires
            old(self).valid(),
            old(self).seated < old(self).voices.len(),
            costs.len() == old(self).content.len(),
        ensures
            final(self).valid(),
            slot == least_cost(costs@, costs.len() as int),
            *final(self) == (Seating {
                seated: (old(self).seated + 1) as usize,
                home: final(self).home,
                content: final(self).content,
                ..*old(self)
            }),
            final(self).content.len() == old(self).content.len(),
            final(self).seats() == seat_at(
                old(self).seats(),
                old(self).notes@,
                old(self).voices[old(self).sequence[old(self).seated as int] as int]@,
                slot,
            ),
    {
        let mut slot: usize = 0;
        let mut k: usize = 1;
        while k < costs.len()
            invariant
                1 <= k <= costs.len(),
                slot < k,
                slot == least_cost(costs@, k as int),
            decreases costs.len() - k,
        {
            if costs[k] < costs[slot] {
                slot = k;
            }
            k += 1;
        }
        proof {
            assert(self.sequence[self.seated as int] < self.voices.len());
        }
        let voice = self.sequence[self.seated];
        self.seat(voice, slot);
        slot
    }

    /// Tells where the notes are at home, and the middle of each part's range.
    pub fn finish(self) -> (homes: Homes)
        requires
            self.valid(),
        ensures
            homes.home@ == self.home@,
            homes.centre.len() == self.content.len(),
            forall|s: int|
                0 <= s < self.content.len() ==> is_mean(
                    #[trigger] homes.centre[s],
                    self.notes@,
                    self.content[s]@,
                ) && is_centre(homes.centre[s]),
            homes.primary_lead.len() == 0,
    {
        let mut centre: Vec<Centre> = Vec::new();
        let mut s: usize = 0;
        while s < self.content.len()
            invariant
                s <= self.content.len(),
                self.valid(),
                centre.len() == s,
                forall|q: int|
                    0 <= q < s ==> is_mean(#[trigger] centre[q], self.notes@, self.content[q]@)
                        && is_centre(centre[q]),
            decreases self.content.len() - s,
        {
            proof {
                assert forall|k: int| 0 <= k < self.content[s as int].len() implies (
                #[trigger] self.content[s as int][k]) < self.notes.len() by {
                    assert(self.content[s as int]@[k] < self.notes.len());
                }
            }
            centre.push(mean(&self.notes, &self.content[s]));
            s += 1;
        }
        Homes { home: self.home, centre, primary_lead: Vec::new() }
    }
}

/// Of the first notes of a list those that are chosen, or those that are not.
pub open spec fn chosen_of(list: Seq<usize>, chosen: Seq<bool>, wanted: bool, n: int) -> Seq<usize>
    decreases n,
{
    if n <= 0 {
        Seq::empty()
    } else {
        let before = chosen_of(list, chosen, wanted, n - 1);
        if chosen[n - 1] == wanted {
            before.push(list[n - 1])
        } else {
            before
        }
    }
}

/// Parts a list of notes into those that are chosen and the rest.
pub fn divide(list: &Vec<usize>, chosen: &Vec<bool>) -> (r: (Vec<usize>, Vec<usize>))
    requires
        chosen.len() == list.len(),
    ensures
        r.0@ == chosen_of(list@, chosen@, true, list.len() as int),
        r.1@ == chosen_of(list@, chosen@, false, list.len() as int),
        r.0.len() + r.1.len() == list.len(),
{
    let mut core: Vec<usize> = Vec::new();
    let mut rest: Vec<usize> = Vec::new();
    let mut k: usize = 0;
    while k < list.len()
        invariant
            k <= list.len(),
            chosen.len() == list.len(),
            core@ == chosen_of(list@, chosen@, true, k as int),
            rest@ == chosen_of(list@, chosen@, false, k as int),
            core.len() + rest.len() == k,
        decreases list.len() - k,
    {
        if chosen[k] {
            core.push(list[k]);
        } else {
            rest.push(list[k]);
        }
        k += 1;
    }
    (core, rest)
}

/// Homes of notes with those that the first notes of a group have within one track, whose
/// parts come behind some others.
pub open spec fn with_track(
    home: Seq<Option<usize>>,
    local: Seq<Option<usize>>,
    group: Seq<usize>,
    offset: int,
    n: int,
) -> Seq<Option<usize>>
    decreases n,
{
    if n <= 0 {
        home
    } else {
        let i = group[n - 1] as int;
        with_track(home, local, group, offset, n - 1).update(
            i,
            match local[i] {
                Some(part) => Some((offset + part) as usize),
                None => None,
            },
        )
    }
}

/// Takes the homes of a group of notes within one track over into those of all tracks.
pub fn add_track(homes: &mut Homes, local: &Homes, group: &Vec<usize>, offset: usize)
    requires
        old(homes).home.len() == local.home.len(),
        offset + local.centre.len() <= old(homes).centre.len(),
        forall|k: int| 0 <= k < group.len() ==> (#[trigger] group[k]) < local.home.len(),
        forall|i: int|
            0 <= i < local.home.len() && (#[trigger] local.home[i]) is Some
                ==> local.home[i]->Some_0 < local.centre.len(),
    ensures
        final(homes).home@ == with_track(
            old(homes).home@,
            local.home@,
            group@,
            offset as int,
            group.len() as int,
        ),
        final(homes).home.len() == old(homes).home.len(),
        final(homes).centre@ == old(homes).centre@.take(offset as int) + local.centre@ + old(
            homes,
        ).centre@.skip(offset + local.centre.len()),
        final(homes).primary_lead == old(homes).primary_lead,
{
    let ghost start = *homes;
    let mut k: usize = 0;
    while k < group.len()
        invariant
            k <= group.len(),
            homes.home.len() == local.home.len(),
            offset + local.centre.len() <= start.centre.len(),
            homes.centre == start.centre,
            homes.primary_lead == start.primary_lead,
            forall|k: int| 0 <= k < group.len() ==> (#[trigger] group[k]) < local.home.len(),
            forall|i: int|
                0 <= i < local.home.len() && (#[trigger] local.home[i]) is Some
                    ==> local.home[i]->Some_0 < local.centre.len(),
            homes.home@ == with_track(start.home@, local.home@, group@, offset as int, k as int),
        decreases group.len() - k,
    {
        proof {
            assert(group[k as int] < local.home.len());
        }
        let i = group[k];
        let one: Option<usize> = match local.home[i] {
            Some(part) => {
                proof {
                    assert(local.home[i as int] is Some);
                }
                Some(offset + part)
            },
            None => None,
        };
        homes.home.set(i, one);
        k += 1;
    }
    let ghost n = local.centre.len() as int;
    let mut k: usize = 0;
    while k < local.centre.len()
        invariant
            k <= local.centre.len(),
            n == local.centre.len(),
            offset + local.centre.len() <= start.centre.len(),
            homes.centre.len() == start.centre.len(),
            homes.home@ == with_track(
                start.home@,
                local.home@,
                group@,
                offset as int,
                group.len() as int,
            ),
            homes.home.len() == start.home.len(),
            homes.primary_lead == start.primary_lead,
            homes.centre@ == start.centre@.take(offset as int) + local.centre@.take(k as int)
                + start.centre@.skip(offset + k),
        decreases local.centre.len() - k,
    {
        let ghost before = homes.centre@;
        homes.centre.set(offset + k, local.centre[k]);
        k += 1;
        proof {
            assert(homes.centre@ =~= start.centre@.take(offset as int) + local.centre@.take(
                k as int,
            ) + start.centre@.skip(offset + k));
        }
    }
    proof {
        assert(local.centre@.take(n) =~= local.centre@);
    }
}

} // verus!
