//! Placing attacks in parts: each at its moment, long notes making room for new ones.
use crate::attacks::{are_timed, bass_chord_handoff, exact_span, handoff_of, is_exact_span, is_stage, numbers, offer_key, offers_of, prefer, preferences, stage_of, Handoff, Offer, Policy, Stage};
use crate::chords::{best_triple, choose_chord, chord_frame, is_wide, led_by, lists_triples, none_reserved, sounding, Triple};
use crate::harmony::{classes_of, is_clear, ChordKind};
use crate::matching::{edge_views, fits, matchable, may_take, pick, picked, within};
use crate::order::{lemma_stable_sort, order, stable_sort, Key};
use crate::score::{Note, Tempo, Tick};
use vstd::prelude::*;

verus! {

/// Why attacks cannot be placed.
#[derive(Clone, Copy, Debug, PartialEq, Eq, Structural)]
pub enum PlaceError {
    /// The attacks at a tick cannot all have parts of their own.
    NoPlacement { tick: Tick },
    /// The silence between the end of a part, at a tick, and the last tempo cannot be written.
    Unwritable { end: Tick },
}

/// What has been placed, and which of the notes lead.
pub struct Placed {
    pub stage: Stage,
    pub core: Seq<bool>,
}

/// The parts that each of the attacks may take, in order of preference.
pub open spec fn edges_of(
    s: Stage,
    originals: Seq<Note>,
    tempos: Seq<Tempo>,
    parts: int,
    tick: Tick,
    handoff: Option<Handoff>,
    batch: Seq<usize>,
    offers: Seq<Seq<Offer>>,
) -> Seq<Seq<usize>> {
    Seq::new(
        batch.len(),
        |k: int|
            preferences(s, originals, tempos, parts, tick, handoff, batch[k], offers[k]),
    )
}

/// The parts that the attacks may take where a handoff is made, if there is one that leaves
/// parts for all of them.
pub open spec fn handed_edges(
    s: Stage,
    originals: Seq<Note>,
    tempos: Seq<Tempo>,
    parts: int,
    tick: Tick,
    batch: Seq<usize>,
    offers: Seq<Seq<Offer>>,
) -> Seq<Seq<usize>> {
    let plain = edges_of(s, originals, tempos, parts, tick, None, batch, offers);
    let count = s.slots.len() as int;
    match handoff_of(s, batch, parts, count) {
        None => plain,
        Some(h) => {
            let proposed = edges_of(s, originals, tempos, parts, tick, Some(h), batch, offers);
            if (exists|k: int| 0 <= k < plain[0].len() && (#[trigger] plain[0][k]) < parts)
                && matchable(proposed, 0, none_reserved(count)) {
                proposed
            } else {
                plain
            }
        },
    }
}

/// Whether new notes make a wide chord while the source spells a clear one.
pub open spec fn is_block(
    s: Stage,
    originals: Seq<Note>,
    parts: int,
    tick: Tick,
    batch: Seq<usize>,
) -> bool {
    is_wide(s, batch, parts, s.slots.len() as int) && exists|root: int, kind: ChordKind| #[trigger]
        is_clear(classes_of(sounding(originals, tick, originals.len() as int)), root, kind)
}

/// The parts that the attacks may take: in a block chord those of the best three lead.
pub open spec fn final_edges(
    s: Stage,
    originals: Seq<Note>,
    tempos: Seq<Tempo>,
    parts: int,
    tick: Tick,
    batch: Seq<usize>,
    offers: Seq<Seq<Offer>>,
    list: Seq<Triple>,
    values: Seq<i64>,
) -> Seq<Seq<usize>> {
    let edges = handed_edges(s, originals, tempos, parts, tick, batch, offers);
    if is_block(s, originals, parts, tick, batch) {
        match best_triple(
            edges,
            list,
            values,
            parts,
            s.slots.len() as int,
            list.len() as int,
        ) {
            Some(b) => led_by(edges, list[b], parts),
            None => edges,
        }
    } else {
        edges
    }
}

/// A note cut off at a tick, where it lasts beyond it.
pub open spec fn cut_at(note: Note, tick: Tick) -> Note {
    if note.off > tick {
        Note { on: note.on, off: tick, pitch: note.pitch, vel: note.vel, src: note.src }
    } else {
        note
    }
}

/// An attack put into a part: the note before it is cut off where it lasts beyond the attack.
pub open spec fn assigned(p: Placed, parts: int, tick: Tick, i: usize, slot: usize) -> Placed {
    let history = p.stage.slots[slot as int];
    Placed {
        stage: Stage {
            notes: if history.len() == 0 {
                p.stage.notes
            } else {
                p.stage.notes.update(
                    history.last() as int,
                    cut_at(p.stage.notes[history.last() as int], tick),
                )
            },
            slots: p.stage.slots.update(slot as int, history.push(i)),
        },
        core: p.core.update(i as int, slot < parts),
    }
}

/// The first attacks put into parts, each into the one it prefers of those that leave parts
/// for the attacks behind it; and the parts that are taken.
pub open spec fn placed(
    p: Placed,
    parts: int,
    tick: Tick,
    edges: Seq<Seq<usize>>,
    batch: Seq<usize>,
    n: int,
) -> (Placed, Seq<bool>)
    decreases n,
{
    if n <= 0 {
        (p, none_reserved(p.stage.slots.len() as int))
    } else {
        let (before, reserved) = placed(p, parts, tick, edges, batch, n - 1);
        let slot = picked(edges, n - 1, reserved);
        (
            assigned(before, parts, tick, batch[n - 1], slot),
            reserved.update(slot as int, true),
        )
    }
}

/// Whether a note has been placed.
pub open spec fn is_placed(s: Stage, i: usize) -> bool {
    exists|p: int, k: int|
        0 <= p < s.slots.len() && 0 <= k < s.slots[p].len() && #[trigger] s.slots[p][k] == i
}

/// Whether the parts hold different notes, each in order, none beginning before the one
/// before it has ended, and none after a tick.
pub open spec fn is_monophonic(s: Stage, clock: int) -> bool {
    &&& forall|p: int, k: int|
        #![trigger s.slots[p][k]]
        0 <= p < s.slots.len() && 0 <= k < s.slots[p].len() ==> s.notes[s.slots[p][k] as int].on
            <= clock
    &&& forall|p: int, k: int|
        #![trigger s.slots[p][k]]
        0 <= p < s.slots.len() && 0 < k < s.slots[p].len() ==> s.notes[s.slots[p][k - 1] as int].off
            <= s.notes[s.slots[p][k] as int].on
    &&& forall|p: int, k: int, q: int, l: int|
        #![trigger s.slots[p][k], s.slots[q][l]]
        0 <= p < s.slots.len() && 0 <= k < s.slots[p].len() && 0 <= q < s.slots.len() && 0 <= l
            < s.slots[q].len() && s.slots[p][k] == s.slots[q][l] ==> p == q && k == l
}

/// Whether notes are the same but for notes that end earlier: those end at a tick, after
/// they have lasted for a while.
pub open spec fn is_trimmed(before: Seq<Note>, after: Seq<Note>, tick: int) -> bool {
    &&& after.len() == before.len()
    &&& forall|i: int|
        0 <= i < before.len() ==> trims(before[i], #[trigger] after[i], tick)
}

pub open spec fn trims(before: Note, after: Note, tick: int) -> bool {
    &&& after.on == before.on
    &&& after.pitch == before.pitch
    &&& after.vel == before.vel
    &&& after.src == before.src
    &&& after.off == before.off || (after.off == tick && tick < before.off && tick - before.on >= 24)
}

/// Notes that are put into parts, one moment after the other.
pub struct Schedule {
    pub notes: Vec<Note>,
    pub slots: Vec<Vec<usize>>,
    pub core: Vec<bool>,
    pub clock: Tick,
}

impl Schedule {
    pub open spec fn stage(self) -> Stage {
        stage_of(self.notes@, self.slots@)
    }

    pub open spec fn state(self) -> Placed {
        Placed { stage: self.stage(), core: self.core@ }
    }

    /// Whether what has been placed is sound.
    pub open spec fn valid(self) -> bool {
        &&& is_stage(self.stage())
        &&& are_timed(self.notes@)
        &&& self.core.len() == self.notes.len()
        &&& is_monophonic(self.stage(), self.clock as int)
        &&& self.clock >= -1
    }
}

/// Offers as lists of offers.
pub open spec fn offer_views(offers: Seq<Vec<Offer>>) -> Seq<Seq<Offer>> {
    Seq::new(offers.len(), |i: int| offers[i]@)
}

fn make_edges(
    s: &Schedule,
    policy: &Policy,
    tick: Tick,
    handoff: &Option<Handoff>,
    batch: &Vec<usize>,
    offers: &Vec<Vec<Offer>>,
) -> (edges: Vec<Vec<usize>>)
    requires
        s.valid(),
        policy.originals.len() == s.notes.len(),
        policy.parts > 0,
        tick >= 0,
        numbers(batch@, s.notes.len() as int),
        offers.len() == batch.len(),
        forall|k: int| 0 <= k < offers.len() ==> (#[trigger] offers[k]).len() == s.slots.len(),
    ensures
        edge_views(edges@) == edges_of(
            s.stage(),
            policy.originals@,
            policy.tempos@,
            policy.parts as int,
            tick,
            *handoff,
            batch@,
            offer_views(offers@),
        ),
        within(edge_views(edges@), s.slots.len() as int),
        edges.len() == batch.len(),
{
    let ghost wanted = edges_of(
        s.stage(),
        policy.originals@,
        policy.tempos@,
        policy.parts as int,
        tick,
        *handoff,
        batch@,
        offer_views(offers@),
    );
    let mut edges: Vec<Vec<usize>> = Vec::new();
    let mut k: usize = 0;
    while k < batch.len()
        invariant
            k <= batch.len(),
            s.valid(),
            policy.originals.len() == s.notes.len(),
            policy.parts > 0,
            tick >= 0,
            numbers(batch@, s.notes.len() as int),
            offers.len() == batch.len(),
            forall|k: int| 0 <= k < offers.len() ==> (#[trigger] offers[k]).len() == s.slots.len(),
            wanted == edges_of(
                s.stage(),
                policy.originals@,
                policy.tempos@,
                policy.parts as int,
                tick,
                *handoff,
                batch@,
                offer_views(offers@),
            ),
            edges.len() == k,
            forall|j: int| 0 <= j < k ==> (#[trigger] edges[j])@ == wanted[j],
            forall|j: int, q: int|
                #![trigger edges[j]@[q]]
                0 <= j < k && 0 <= q < edges[j].len() ==> edges[j]@[q] < s.slots.len(),
        decreases batch.len() - k,
    {
        proof {
            assert(batch@[k as int] < s.notes.len());
            assert(offers[k as int].len() == s.slots.len());
            assert(offer_views(offers@)[k as int] == offers[k as int]@);
        }
        let ghost before = edges@;
        let one = prefer(&s.notes, &s.slots, policy, tick, handoff, batch[k], &offers[k]);
        edges.push(one);
        proof {
            assert forall|j: int, q: int|
                #![trigger edges[j]@[q]]
                0 <= j < k + 1 && 0 <= q < edges[j].len() implies edges[j]@[q] < s.slots.len() by {
                if j < k {
                    assert(edges[j] == before[j]);
                    assert(before[j]@[q] < s.slots.len());
                } else {
                    assert(edges[j]@ == one@);
                }
            }
        }
        k += 1;
    }
    proof {
        let views = edge_views(edges@);
        assert(views =~= wanted);
        assert forall|i: int, q: int|
            #![trigger views[i][q]]
            0 <= i < views.len() && 0 <= q < views[i].len() implies views[i][q] < s.slots.len() by {
            assert(edges[i]@[q] < s.slots.len());
        }
    }
    edges
}

fn all_free(n: usize) -> (v: Vec<bool>)
    ensures
        v@ == none_reserved(n as int),
        v.len() == n,
{
    let mut v: Vec<bool> = Vec::new();
    let mut i: usize = 0;
    while i < n
        invariant
            i <= n,
            v.len() == i,
            forall|s: int| 0 <= s < i ==> !#[trigger] v[s],
        decreases n - i,
    {
        v.push(false);
        i += 1;
    }
    proof {
        assert(v@ =~= none_reserved(n as int));
    }
    v
}

/// The parts that the attacks may take.
#[verifier::rlimit(60)]
fn choose_edges(
    s: &Schedule,
    policy: &Policy,
    tick: Tick,
    batch: &Vec<usize>,
    offers: &Vec<Vec<Offer>>,
    list: &Vec<Triple>,
    values: &Vec<i64>,
) -> (edges: Vec<Vec<usize>>)
    requires
        s.valid(),
        policy.originals.len() == s.notes.len(),
        policy.count == s.slots.len(),
        policy.parts > 0,
        tick >= 0,
        numbers(batch@, s.notes.len() as int),
        offers.len() == batch.len(),
        forall|k: int| 0 <= k < offers.len() ==> (#[trigger] offers[k]).len() == s.slots.len(),
        values.len() == list.len(),
    ensures
        edge_views(edges@) == final_edges(
            s.stage(),
            policy.originals@,
            policy.tempos@,
            policy.parts as int,
            tick,
            batch@,
            offer_views(offers@),
            list@,
            values@,
        ),
        within(edge_views(edges@), s.slots.len() as int),
        edges.len() == batch.len(),
{
    let free = all_free(policy.count);
    let mut edges = make_edges(s, policy, tick, &None, batch, offers);
    match bass_chord_handoff(&s.notes, batch, &s.slots, policy.parts, policy.count) {
        None => {},
        Some(h) => {
            let ghost plain = edge_views(edges@);
            let mut leads: bool = false;
            if edges.len() > 0 {
                let mut k: usize = 0;
                while k < edges[0].len() && !leads
                    invariant
                        k <= edges[0].len(),
                        edges.len() > 0,
                        plain == edge_views(edges@),
                        leads == (exists|j: int| 0 <= j < k && (#[trigger] plain[0][j]) < policy.parts),
                    decreases edges[0].len() - k,
                {
                    let ghost was = leads;
                    if edges[0][k] < policy.parts {
                        leads = true;
                        proof {
                            assert(plain[0][k as int] < policy.parts);
                        }
                    }
                    k += 1;
                }
                proof {
                    let n = plain[0].len() as int;
                    if leads {
                        let j = choose|j: int|
                            0 <= j < k && (#[trigger] plain[0][j]) < policy.parts;
                        assert(plain[0][j] < policy.parts);
                    }
                    assert(leads == (exists|j: int|
                        0 <= j < n && (#[trigger] plain[0][j]) < policy.parts));
                }
            }
            if leads {
                let proposed = make_edges(s, policy, tick, &Some(h), batch, offers);
                if fits(&proposed, 0, &free) {
                    edges = proposed;
                }
            }
        },
    }
    proof {
        assert(edge_views(edges@) == handed_edges(
            s.stage(),
            policy.originals@,
            policy.tempos@,
            policy.parts as int,
            tick,
            batch@,
            offer_views(offers@),
        ));
    }
    match chord_frame(&s.notes, batch, &s.slots, policy.originals, tick, policy.parts) {
        None => edges,
        Some(frame) => {
            proof {
                assert(is_block(
                    s.stage(),
                    policy.originals@,
                    policy.parts as int,
                    tick,
                    batch@,
                ));
            }
            match choose_chord(&edges, list, values, policy.parts, &free) {
                Some(joint) => joint,
                None => edges,
            }
        },
    }
}

/// What holds of notes while the attacks of a tick are put into parts.
pub open spec fn is_sound(p: Placed, tick: int) -> bool {
    &&& is_stage(p.stage)
    &&& are_timed(p.stage.notes)
    &&& p.core.len() == p.stage.notes.len()
    &&& is_monophonic(p.stage, tick)
}

/// Putting an attack into a part that is free for it keeps what holds.
#[verifier::rlimit(60)]
proof fn lemma_assigned(p: Placed, parts: int, tick: Tick, i: usize, slot: usize)
    requires
        is_sound(p, tick as int),
        slot < p.stage.slots.len(),
        i < p.stage.notes.len(),
        p.stage.notes[i as int].on == tick,
        !is_placed(p.stage, i),
        p.stage.slots[slot as int].len() > 0 ==> ({
            let last = p.stage.notes[p.stage.slots[slot as int].last() as int];
            last.off > tick ==> tick - last.on >= 24
        }),
        tick >= 0,
    ensures
        is_sound(assigned(p, parts, tick, i, slot), tick as int),
        is_trimmed(p.stage.notes, assigned(p, parts, tick, i, slot).stage.notes, tick as int),
        forall|j: usize| #[trigger]
            is_placed(assigned(p, parts, tick, i, slot).stage, j) == (is_placed(p.stage, j) || j
                == i),
{
    let new = assigned(p, parts, tick, i, slot);
    let s = p.stage;
    let t = new.stage;
    let history = s.slots[slot as int];
    let n = history.len() as int;
    assert forall|q: int, k: int|
        #![trigger t.slots[q][k]]
        0 <= q < t.slots.len() && 0 <= k < t.slots[q].len() implies t.slots[q][k] < t.notes.len()
        && (t.slots[q][k] == i || (k < s.slots[q].len() && t.slots[q][k] == s.slots[q][k])) && (q
        == slot && k == n ==> t.slots[q][k] == i) && (!(q == slot && k == n) ==> k
        < s.slots[q].len() && t.slots[q][k] == s.slots[q][k]) by {
        if q == slot {
            if k < n {
                assert(t.slots[q][k] == s.slots[q][k]);
            }
        } else {
            assert(t.slots[q] == s.slots[q]);
        }
    }
    if n > 0 {
        assert(s.slots[slot as int][n - 1] < s.notes.len());
        assert(s.notes[s.slots[slot as int][n - 1] as int].on <= tick);
    }
    assert forall|j: int| 0 <= j < s.notes.len() implies trims(
        s.notes[j],
        #[trigger] t.notes[j],
        tick as int,
    ) by {
    }
    assert forall|j: int| 0 <= j < t.notes.len() implies 0 <= (#[trigger] t.notes[j]).on
        <= t.notes[j].off by {
        assert(0 <= s.notes[j].on <= s.notes[j].off);
        assert(trims(s.notes[j], t.notes[j], tick as int));
    }
    assert forall|q: int, k: int|
        #![trigger t.slots[q][k]]
        0 <= q < t.slots.len() && 0 <= k < t.slots[q].len() implies t.notes[t.slots[q][k] as int].on
        <= tick by {
        let j = t.slots[q][k] as int;
        assert(trims(s.notes[j], t.notes[j], tick as int));
        if !(q == slot && k == n) {
            assert(s.notes[s.slots[q][k] as int].on <= tick);
        }
    }
    assert forall|q: int, k: int|
        #![trigger t.slots[q][k]]
        0 <= q < t.slots.len() && 0 < k < t.slots[q].len() implies t.notes[t.slots[q][k - 1] as int].off
        <= t.notes[t.slots[q][k] as int].on by {
        let a = t.slots[q][k - 1] as int;
        let b = t.slots[q][k] as int;
        assert(trims(s.notes[a], t.notes[a], tick as int));
        assert(trims(s.notes[b], t.notes[b], tick as int));
        if q == slot && k == n {
            assert(a == history.last() as int);
            assert(t.notes[a] == cut_at(s.notes[a], tick) || a == i);
        } else {
            assert(s.notes[s.slots[q][k - 1] as int].off <= s.notes[s.slots[q][k] as int].on);
        }
    }
    assert forall|q: int, k: int, r: int, l: int|
        #![trigger t.slots[q][k], t.slots[r][l]]
        0 <= q < t.slots.len() && 0 <= k < t.slots[q].len() && 0 <= r < t.slots.len() && 0 <= l
            < t.slots[r].len() && t.slots[q][k] == t.slots[r][l] implies q == r && k == l by {
        let first_new = q == slot && k == n;
        let second_new = r == slot && l == n;
        if first_new && !second_new {
            assert(s.slots[r][l] == i);
            assert(is_placed(s, i));
        } else if !first_new && second_new {
            assert(s.slots[q][k] == i);
            assert(is_placed(s, i));
        } else if !first_new && !second_new {
            assert(s.slots[q][k] == s.slots[r][l]);
        }
    }
    assert forall|j: usize| #[trigger] is_placed(t, j) == (is_placed(s, j) || j == i) by {
        if is_placed(s, j) {
            let (q, k) = choose|q: int, k: int|
                0 <= q < s.slots.len() && 0 <= k < s.slots[q].len() && #[trigger] s.slots[q][k]
                    == j;
            assert(t.slots[q][k] == j);
        }
        if j == i {
            assert(t.slots[slot as int][n] == j);
        }
        if is_placed(t, j) {
            let (q, k) = choose|q: int, k: int|
                0 <= q < t.slots.len() && 0 <= k < t.slots[q].len() && #[trigger] t.slots[q][k]
                    == j;
            if !(q == slot && k == n) {
                assert(s.slots[q][k] == j);
            }
        }
    }
}

/// Whether a part that an attack may take holds nothing, or a note that may be cut off.
pub open spec fn yields(s: Stage, tick: int, slot: int) -> bool {
    s.slots[slot].len() > 0 ==> ({
        let last = s.notes[s.slots[slot].last() as int];
        last.off > tick ==> tick - last.on >= 24
    })
}

/// Every part among the offers to an attack yields.
proof fn lemma_offers(
    s: Stage,
    originals: Seq<Note>,
    tempos: Seq<Tempo>,
    parts: int,
    tick: Tick,
    handoff: Option<Handoff>,
    i: usize,
    offers: Seq<Offer>,
    n: int,
)
    requires
        0 <= n <= usize::MAX,
    ensures
        forall|k: int|
            0 <= k < offers_of(s, originals, tempos, parts, tick, handoff, i, offers, n).len()
                ==> yields(
                s,
                tick as int,
                (#[trigger] offers_of(
                    s,
                    originals,
                    tempos,
                    parts,
                    tick,
                    handoff,
                    i,
                    offers,
                    n,
                )[k]).0 as int,
            ),
    decreases n,
{
    if n > 0 {
        lemma_offers(s, originals, tempos, parts, tick, handoff, i, offers, n - 1);
        let before = offers_of(s, originals, tempos, parts, tick, handoff, i, offers, n - 1);
        let all = offers_of(s, originals, tempos, parts, tick, handoff, i, offers, n);
        assert forall|k: int| 0 <= k < all.len() implies yields(
            s,
            tick as int,
            (#[trigger] all[k]).0 as int,
        ) by {
            if k < before.len() {
                assert(all[k] == before[k]);
            } else {
                let key = offer_key(
                    s,
                    originals,
                    tempos,
                    parts,
                    tick,
                    handoff,
                    i,
                    n - 1,
                    offers[n - 1],
                );
                assert(key is Some);
                assert(all[k].0 == (n - 1) as usize);
            }
        }
    }
}

proof fn lemma_preferences(
    s: Stage,
    originals: Seq<Note>,
    tempos: Seq<Tempo>,
    parts: int,
    tick: Tick,
    handoff: Option<Handoff>,
    i: usize,
    offers: Seq<Offer>,
    slot: usize,
)
    requires
        s.slots.len() <= usize::MAX,
        preferences(s, originals, tempos, parts, tick, handoff, i, offers).contains(slot),
    ensures
        yields(s, tick as int, slot as int),
{
    let n = s.slots.len() as int;
    let list = offers_of(s, originals, tempos, parts, tick, handoff, i, offers, n);
    let key = |o: (usize, Key)| o.1;
    let f = |o: (usize, Key)| o.0;
    let sorted = stable_sort(list, key);
    let all = preferences(s, originals, tempos, parts, tick, handoff, i, offers);
    let k = choose|k: int| 0 <= k < all.len() && all[k] == slot;
    assert(all[k] == sorted[k].0);
    lemma_stable_sort(list, key);
    assert(list.contains(sorted[k]));
    let j = choose|j: int| 0 <= j < list.len() && list[j] == sorted[k];
    lemma_offers(s, originals, tempos, parts, tick, handoff, i, offers, n);
    assert(yields(s, tick as int, list[j].0 as int));
}

proof fn lemma_side_contains(list: Seq<usize>, parts: int, leading: bool, n: int, slot: usize)
    requires
        0 <= n <= list.len(),
        crate::chords::side(list, parts, leading, n).contains(slot),
    ensures
        list.contains(slot),
    decreases n,
{
    let all = crate::chords::side(list, parts, leading, n);
    let k = choose|k: int| 0 <= k < all.len() && all[k] == slot;
    if n > 0 {
        let before = crate::chords::side(list, parts, leading, n - 1);
        if k < before.len() {
            assert(before[k] == slot);
            lemma_side_contains(list, parts, leading, n - 1, slot);
        } else {
            assert(list[n - 1] == slot);
        }
    }
}

/// Every part that an attack may take in the end yields.
proof fn lemma_final_edges(
    s: Stage,
    originals: Seq<Note>,
    tempos: Seq<Tempo>,
    parts: int,
    tick: Tick,
    batch: Seq<usize>,
    offers: Seq<Seq<Offer>>,
    list: Seq<Triple>,
    values: Seq<i64>,
    position: int,
    slot: usize,
)
    requires
        s.slots.len() <= usize::MAX,
        0 <= position < batch.len(),
        final_edges(
            s,
            originals,
            tempos,
            parts,
            tick,
            batch,
            offers,
            list,
            values,
        )[position].contains(slot),
    ensures
        yields(s, tick as int, slot as int),
{
    let count = s.slots.len() as int;
    let edges = handed_edges(s, originals, tempos, parts, tick, batch, offers);
    let all = final_edges(s, originals, tempos, parts, tick, batch, offers, list, values);
    if !edges[position].contains(slot) {
        let b = best_triple(edges, list, values, parts, count, list.len() as int);
        assert(b is Some);
        let t = list[b->Some_0];
        assert(all[position] == crate::chords::side(
            edges[position],
            parts,
            crate::chords::chooses(t, position),
            edges[position].len() as int,
        ));
        lemma_side_contains(
            edges[position],
            parts,
            crate::chords::chooses(t, position),
            edges[position].len() as int,
            slot,
        );
    }
    let h = handoff_of(s, batch, parts, count);
    let plain = edges_of(s, originals, tempos, parts, tick, None, batch, offers);
    if edges == plain {
        lemma_preferences(
            s,
            originals,
            tempos,
            parts,
            tick,
            None,
            batch[position],
            offers[position],
            slot,
        );
    } else {
        lemma_preferences(
            s,
            originals,
            tempos,
            parts,
            tick,
            h,
            batch[position],
            offers[position],
            slot,
        );
    }
}

impl Schedule {
    /// Nothing placed yet.
    pub fn new(notes: Vec<Note>, count: usize) -> (s: Self)
        requires
            are_timed(notes@),
        ensures
            s.valid(),
            s.notes@ == notes@,
            s.slots.len() == count,
            forall|i: usize| !#[trigger] is_placed(s.stage(), i),
            s.clock == -1,
            s.core@ == none_reserved(notes.len() as int),
    {
        let mut slots: Vec<Vec<usize>> = Vec::new();
        let mut i: usize = 0;
        while i < count
            invariant
                i <= count,
                slots.len() == i,
                forall|p: int| 0 <= p < i ==> (#[trigger] slots[p])@ == Seq::<usize>::empty(),
            decreases count - i,
        {
            slots.push(Vec::new());
            i += 1;
        }
        let core = all_free(notes.len());
        let s = Schedule { notes, slots, core, clock: -1 };
        proof {
            assert forall|p: int| 0 <= p < s.stage().slots.len() implies (#[trigger] s.stage().slots[p]).len()
                == 0 by {
                assert(slots[p]@ == Seq::<usize>::empty());
            }
        }
        s
    }

    /// Puts one attack into a part.
    fn assign(&mut self, parts: usize, tick: Tick, i: usize, slot: usize)
        requires
            slot < old(self).slots.len(),
            i < old(self).notes.len(),
            old(self).core.len() == old(self).notes.len(),
            is_stage(old(self).stage()),
        ensures
            final(self).state() == assigned(old(self).state(), parts as int, tick, i, slot),
            final(self).clock == old(self).clock,
            final(self).slots.len() == old(self).slots.len(),
            final(self).notes.len() == old(self).notes.len(),
    {
        let ghost before = self.state();
        let length = self.slots[slot].len();
        if length > 0 {
            let last = self.slots[slot][length - 1];
            proof {
                assert(before.stage.slots[slot as int][length - 1] == last);
                assert(before.stage.slots[slot as int].last() == last);
            }
            let note = self.notes[last];
            if note.off > tick {
                self.notes.set(
                    last,
                    Note { on: note.on, off: tick, pitch: note.pitch, vel: note.vel, src: note.src },
                );
            } else {
                proof {
                    assert(self.notes@.update(last as int, note) =~= self.notes@);
                }
            }
        }
        self.slots[slot].push(i);
        self.core.set(i, slot < parts);
        proof {
            let after = assigned(before, parts as int, tick, i, slot);
            assert(self.stage().slots =~= after.stage.slots);
            assert(self.notes@ =~= after.stage.notes);
            assert(self.core@ =~= after.core);
        }
    }

    /// Puts the attacks of a tick into parts, or tells that they cannot all have one. No
    /// attack is lost or moved; a note is cut off only where it has lasted for a while.
    #[verifier::rlimit(80)]
    pub fn place(
        &mut self,
        policy: &Policy,
        tick: Tick,
        batch: &Vec<usize>,
        offers: &Vec<Vec<Offer>>,
        list: &Vec<Triple>,
        values: &Vec<i64>,
    ) -> (r: Result<(), PlaceError>)
        requires
            old(self).valid(),
            policy.originals.len() == old(self).notes.len(),
            policy.count == old(self).slots.len(),
            policy.parts > 0,
            tick > old(self).clock,
            numbers(batch@, old(self).notes.len() as int),
            batch@.no_duplicates(),
            forall|k: int|
                0 <= k < batch.len() ==> old(self).notes@[#[trigger] batch@[k] as int].on == tick,
            offers.len() == batch.len(),
            forall|k: int|
                0 <= k < offers.len() ==> (#[trigger] offers[k]).len() == old(self).slots.len(),
            lists_triples(list@, batch.len() as int),
            values.len() == list.len(),
        ensures
            final(self).valid(),
            ({
                let edges = final_edges(
                    old(self).stage(),
                    policy.originals@,
                    policy.tempos@,
                    policy.parts as int,
                    tick,
                    batch@,
                    offer_views(offers@),
                    list@,
                    values@,
                );
                let free = none_reserved(old(self).slots.len() as int);
                match r {
                    Ok(_) => matchable(edges, 0, free) && final(self).state() == placed(
                        old(self).state(),
                        policy.parts as int,
                        tick,
                        edges,
                        batch@,
                        batch.len() as int,
                    ).0 && final(self).clock == tick,
                    Err(e) => !matchable(edges, 0, free) && e == (PlaceError::NoPlacement { tick })
                        && *final(self) == *old(self),
                }
            }),
            r is Ok ==> forall|i: usize| #[trigger]
                is_placed(final(self).stage(), i) == (is_placed(old(self).stage(), i)
                    || batch@.contains(i)),
            r is Ok ==> is_trimmed(old(self).notes@, final(self).notes@, tick as int),
            final(self).slots.len() == old(self).slots.len(),
            final(self).notes.len() == old(self).notes.len(),
    {
        let ghost p = self.state();
        let ghost s = self.stage();
        let edges = choose_edges(self, policy, tick, batch, offers, list, values);
        let ghost all = edge_views(edges@);
        let mut reserved = all_free(policy.count);
        if !fits(&edges, 0, &reserved) {
            return Err(PlaceError::NoPlacement { tick });
        }
        let ghost clock = self.clock;
        proof {
            assert forall|q: int, k: int|
                #![trigger s.slots[q][k]]
                0 <= q < s.slots.len() && 0 <= k < s.slots[q].len() implies s.notes[s.slots[q][k] as int].on
                <= tick by {
            }
            assert forall|i: usize| batch@.contains(i) implies !#[trigger] is_placed(s, i) by {
                let k = choose|k: int| 0 <= k < batch@.len() && batch@[k] == i;
                assert(s.notes[batch@[k] as int].on == tick);
                if is_placed(s, i) {
                    let (q, l) = choose|q: int, l: int|
                        0 <= q < s.slots.len() && 0 <= l < s.slots[q].len()
                            && #[trigger] s.slots[q][l] == i;
                    assert(s.notes[s.slots[q][l] as int].on <= clock);
                }
            }
        }
        let mut position: usize = 0;
        while position < batch.len()
            invariant
                position <= batch.len() == edges.len(),
                policy.parts > 0,
                tick > clock,
                clock >= -1,
                p.stage == s,
                s.slots.len() == policy.count,
                s.slots.len() <= usize::MAX,
                is_stage(s),
                is_monophonic(s, clock as int),
                numbers(batch@, s.notes.len() as int),
                batch@.no_duplicates(),
                forall|k: int|
                    0 <= k < batch.len() ==> s.notes[#[trigger] batch@[k] as int].on == tick,
                forall|i: usize| batch@.contains(i) ==> !#[trigger] is_placed(s, i),
                all == edge_views(edges@),
                all == final_edges(
                    s,
                    policy.originals@,
                    policy.tempos@,
                    policy.parts as int,
                    tick,
                    batch@,
                    offer_views(offers@),
                    list@,
                    values@,
                ),
                within(all, policy.count as int),
                reserved.len() == policy.count,
                matchable(all, position as int, reserved@),
                (self.state(), reserved@) == placed(
                    p,
                    policy.parts as int,
                    tick,
                    all,
                    batch@,
                    position as int,
                ),
                self.slots.len() == s.slots.len(),
                self.notes.len() == s.notes.len(),
                is_sound(self.state(), tick as int),
                is_trimmed(s.notes, self.notes@, tick as int),
                self.clock == clock,
                forall|q: int|
                    0 <= q < s.slots.len() && !#[trigger] reserved[q] ==> self.stage().slots[q]
                        == s.slots[q],
                forall|i: usize| #[trigger]
                    is_placed(self.stage(), i) == (is_placed(s, i) || batch@.take(
                        position as int,
                    ).contains(i)),
                untouched(s, self.stage(), reserved@),
            decreases batch.len() - position,
        {
            let i = batch[position];
            let ghost before = self.state();
            let ghost taken = reserved@;
            proof {
                assert(batch@[position as int] < s.notes.len());
            }
            let slot = pick(&edges, position, &mut reserved);
            proof {
                assert(may_take(all, taken, position as int, slot as int));
                lemma_final_edges(
                    s,
                    policy.originals@,
                    policy.tempos@,
                    policy.parts as int,
                    tick,
                    batch@,
                    offer_views(offers@),
                    list@,
                    values@,
                    position as int,
                    slot,
                );
                assert(!taken[slot as int]);
                assert(before.stage.slots[slot as int] == s.slots[slot as int]);
                if s.slots[slot as int].len() > 0 {
                    let last = s.slots[slot as int].last() as int;
                    assert(s.slots[slot as int][s.slots[slot as int].len() - 1] == last);
                    assert(before.stage.notes[last] == s.notes[last]);
                }
                assert(trims(s.notes[i as int], before.stage.notes[i as int], tick as int));
                assert(!is_placed(before.stage, i)) by {
                    assert(batch@.contains(i));
                    assert(!is_placed(s, i));
                    if batch@.take(position as int).contains(i) {
                        let k = choose|k: int|
                            0 <= k < position && batch@.take(position as int)[k] == i;
                        assert(batch@[k] == batch@[position as int]);
                    }
                }
                lemma_assigned(before, policy.parts as int, tick, i, slot);
            }
            self.assign(policy.parts, tick, i, slot);
            proof {
                let after = self.state();
                assert(batch@.take(position + 1) =~= batch@.take(position as int).push(i));
                assert forall|j: usize| #[trigger] is_placed(after.stage, j) == (is_placed(s, j)
                    || batch@.take(position + 1).contains(j)) by {
                    assert(is_placed(after.stage, j) == (is_placed(before.stage, j) || j == i));
                    let short = batch@.take(position as int);
                    let long = batch@.take(position + 1);
                    if short.contains(j) {
                        let k = choose|k: int| 0 <= k < short.len() && short[k] == j;
                        assert(long[k] == j);
                    }
                    if j == i {
                        assert(long[position as int] == j);
                    }
                    if long.contains(j) {
                        let k = choose|k: int| 0 <= k < long.len() && long[k] == j;
                        if k < position {
                            assert(short[k] == j);
                        }
                    }
                }
                assert forall|j: int| 0 <= j < s.notes.len() implies trims(
                    s.notes[j],
                    #[trigger] after.stage.notes[j],
                    tick as int,
                ) by {
                    assert(trims(s.notes[j], before.stage.notes[j], tick as int));
                    assert(trims(before.stage.notes[j], after.stage.notes[j], tick as int));
                }
                lemma_untouched(
                    s,
                    before,
                    policy.parts as int,
                    tick,
                    i,
                    slot,
                    taken,
                    clock as int,
                );
            }
            position += 1;
        }
        proof {
            assert(batch@.take(position as int) =~= batch@);
        }
        self.clock = tick;
        Ok(())
    }

    /// Tells whether the silence behind the last notes can be written up to the last tempo.
    pub fn finish(&self, policy: &Policy) -> (r: Result<(), PlaceError>)
        requires
            self.valid(),
            policy.parts > 0,
            policy.count == self.slots.len(),
        ensures
            match r {
                Ok(_) => forall|p: int|
                    0 <= p < self.slots.len() && p % (policy.parts as int) == 0 ==> #[trigger]
                    ends_well(self.stage(), policy.tempos@, p),
                Err(PlaceError::Unwritable { end }) => exists|p: int|
                    0 <= p < self.slots.len() && p % (policy.parts as int) == 0 && !#[trigger]
                    ends_well(self.stage(), policy.tempos@, p) && end == end_of_part(
                        self.stage(),
                        p,
                    ) && forall|q: int|
                        0 <= q < p && q % (policy.parts as int) == 0 ==> #[trigger] ends_well(
                            self.stage(),
                            policy.tempos@,
                            q,
                        ),
                Err(_) => false,
            },
    {
        let ghost s = self.stage();
        let parts = policy.parts;
        let mut p: usize = 0;
        while p < self.slots.len()
            invariant
                p <= self.slots.len(),
                self.valid(),
                s == self.stage(),
                parts == policy.parts,
                parts > 0,
                forall|q: int|
                    0 <= q < p && q % (parts as int) == 0 ==> #[trigger] ends_well(
                        s,
                        policy.tempos@,
                        q,
                    ),
            decreases self.slots.len() - p,
        {
            if p % parts == 0 && policy.tempos.len() > 0 {
                let history = &self.slots[p];
                proof {
                    assert(s.slots[p as int] == history@);
                    if history.len() > 0 {
                        assert(s.slots[p as int][history.len() - 1] < self.notes.len());
                    }
                }
                let end: Tick = if history.len() == 0 {
                    0
                } else {
                    self.notes[history[history.len() - 1]].off
                };
                let last = policy.tempos[policy.tempos.len() - 1].0;
                if end < last && !exact_span(end, last, policy.tempos) {
                    proof {
                        assert(!ends_well(s, policy.tempos@, p as int));
                    }
                    return Err(PlaceError::Unwritable { end });
                }
            }
            p += 1;
        }
        Ok(())
    }
}

/// Where the last note of a part ends.
pub open spec fn end_of_part(s: Stage, p: int) -> Tick {
    if s.slots[p].len() == 0 {
        0
    } else {
        s.notes[s.slots[p].last() as int].off
    }
}

/// Whether the silence behind the last note of a part can be written up to the last tempo.
pub open spec fn ends_well(s: Stage, tempos: Seq<Tempo>, p: int) -> bool {
    tempos.len() == 0 || end_of_part(s, p) >= tempos.last().0 || is_exact_span(
        end_of_part(s, p),
        tempos.last().0,
        tempos,
    )
}

/// Whether the last notes of the parts that are not taken are as they were.
pub open spec fn untouched(s: Stage, t: Stage, reserved: Seq<bool>) -> bool {
    forall|q: int|
        0 <= q < s.slots.len() && !#[trigger] reserved[q] && s.slots[q].len() > 0
            ==> t.notes[s.slots[q].last() as int] == s.notes[s.slots[q].last() as int]
}

proof fn lemma_untouched(s: Stage, before: Placed, parts: int, tick: Tick, i: usize, slot: usize, taken: Seq<bool>, clock: int)
    requires
        is_stage(s),
        is_monophonic(s, clock),
        before.stage.notes.len() == s.notes.len(),
        untouched(s, before.stage, taken),
        taken.len() == s.slots.len(),
        slot < s.slots.len(),
        !taken[slot as int],
        before.stage.slots.len() == s.slots.len(),
        before.stage.slots[slot as int] == s.slots[slot as int],
    ensures
        untouched(
            s,
            assigned(before, parts, tick, i, slot).stage,
            taken.update(slot as int, true),
        ),
{
    let after = assigned(before, parts, tick, i, slot).stage;
    let now = taken.update(slot as int, true);
    assert forall|q: int|
        0 <= q < s.slots.len() && !#[trigger] now[q] && s.slots[q].len() > 0 implies after.notes[s.slots[q].last() as int]
        == s.notes[s.slots[q].last() as int] by {
        assert(!taken[q]);
        let a = s.slots[q].len() - 1;
        assert(s.slots[q][a] < s.notes.len());
        if s.slots[slot as int].len() > 0 {
            let b = s.slots[slot as int].len() - 1;
            assert(s.slots[q][a] != s.slots[slot as int][b]);
        }
    }
}

} // verus!
