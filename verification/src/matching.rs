//! Whether attacks can be given parts of their own.
use vstd::prelude::*;
use vstd::set_lib::set_int_range;

verus! {

/// The parts that each attack may take.
pub open spec fn edge_views(edges: Seq<Vec<usize>>) -> Seq<Seq<usize>> {
    Seq::new(edges.len(), |i: int| edges[i]@)
}

/// Whether every part that an attack may take is one of a number of parts.
pub open spec fn within(edges: Seq<Seq<usize>>, parts: int) -> bool {
    forall|i: int, k: int|
        #![trigger edges[i][k]]
        0 <= i < edges.len() && 0 <= k < edges[i].len() ==> edges[i][k] < parts
}

/// Whether a part is free for an attack.
pub open spec fn may_take(edges: Seq<Seq<usize>>, reserved: Seq<bool>, note: int, slot: int) -> bool {
    &&& 0 <= slot < reserved.len()
    &&& !reserved[slot]
    &&& edges[note].contains(slot as usize)
}

/// Whether attacks from one on have parts of their own that are free for them.
pub open spec fn is_matching(
    edges: Seq<Seq<usize>>,
    first: int,
    reserved: Seq<bool>,
    m: Seq<int>,
) -> bool {
    &&& m.len() == edges.len()
    &&& forall|n: int| first <= n < edges.len() ==> may_take(edges, reserved, n, #[trigger] m[n])
    &&& forall|n: int, k: int|
        #![trigger m[n], m[k]]
        first <= n < k < edges.len() ==> m[n] != m[k]
}

/// Whether attacks from one on can have parts of their own.
pub open spec fn matchable(edges: Seq<Seq<usize>>, first: int, reserved: Seq<bool>) -> bool {
    exists|m: Seq<int>| is_matching(edges, first, reserved, m)
}

/// How many of the first parts an attack has.
spec fn held(owners: Seq<Option<usize>>, note: int, n: int) -> int
    decreases n,
{
    if n <= 0 {
        0
    } else {
        held(owners, note, n - 1) + (if owners[n - 1] is Some && owners[n - 1]->Some_0 == note {
            1int
        } else {
            0int
        })
    }
}

spec fn all_held(owners: Seq<Option<usize>>, note: int) -> int {
    held(owners, note, owners.len() as int)
}

proof fn lemma_held_update(owners: Seq<Option<usize>>, slot: int, to: Option<usize>, note: int, n: int)
    requires
        0 <= slot < owners.len(),
        0 <= n <= owners.len(),
    ensures
        held(owners.update(slot, to), note, n) == held(owners, note, n) + (if slot < n {
            (if to is Some && to->Some_0 == note {
                1int
            } else {
                0int
            }) - (if owners[slot] is Some && owners[slot]->Some_0 == note {
                1int
            } else {
                0int
            })
        } else {
            0
        }),
    decreases n,
{
    if n > 0 {
        lemma_held_update(owners, slot, to, note, n - 1);
    }
}

proof fn lemma_held_bounds(owners: Seq<Option<usize>>, note: int, n: int)
    requires
        0 <= n <= owners.len(),
    ensures
        0 <= held(owners, note, n) <= n,
        held(owners, note, n) > 0 ==> exists|s: int|
            0 <= s < n && #[trigger] owners[s] is Some && owners[s]->Some_0 == note,
    decreases n,
{
    if n > 0 {
        lemma_held_bounds(owners, note, n - 1);
        if owners[n - 1] is Some && owners[n - 1]->Some_0 == note {
            assert(owners[n - 1] is Some);
        }
    }
}

proof fn lemma_held_two(owners: Seq<Option<usize>>, note: int, a: int, b: int, n: int)
    requires
        0 <= a < b < n <= owners.len(),
        owners[a] is Some,
        owners[a]->Some_0 == note,
        owners[b] is Some,
        owners[b]->Some_0 == note,
    ensures
        held(owners, note, n) >= 2,
    decreases n,
{
    lemma_held_bounds(owners, note, n - 1);
    if b < n - 1 {
        lemma_held_two(owners, note, a, b, n - 1);
    } else {
        lemma_held_one(owners, note, a, n - 1);
    }
}

proof fn lemma_held_one(owners: Seq<Option<usize>>, note: int, a: int, n: int)
    requires
        0 <= a < n <= owners.len(),
        owners[a] is Some,
        owners[a]->Some_0 == note,
    ensures
        held(owners, note, n) >= 1,
    decreases n,
{
    lemma_held_bounds(owners, note, n - 1);
    if a < n - 1 {
        lemma_held_one(owners, note, a, n - 1);
    }
}

/// The parts that were not looked at.
spec fn unseen(seen: Seq<bool>) -> nat
    decreases seen.len(),
{
    if seen.len() == 0 {
        0
    } else {
        unseen(seen.drop_last()) + (if seen.last() {
            0nat
        } else {
            1nat
        })
    }
}

proof fn lemma_unseen(seen: Seq<bool>, slot: int)
    requires
        0 <= slot < seen.len(),
        !seen[slot],
    ensures
        unseen(seen.update(slot, true)) < unseen(seen),
    decreases seen.len(),
{
    let new = seen.update(slot, true);
    if slot == seen.len() - 1 {
        assert(new.drop_last() =~= seen.drop_last());
    } else {
        assert(new.drop_last() =~= seen.drop_last().update(slot, true));
        lemma_unseen(seen.drop_last(), slot);
    }
}

proof fn lemma_unseen_more(a: Seq<bool>, b: Seq<bool>)
    requires
        a.len() == b.len(),
        grows(a, b),
    ensures
        unseen(b) <= unseen(a),
    decreases a.len(),
{
    if a.len() > 0 {
        assert(a[a.len() - 1] ==> b[b.len() - 1]);
        assert forall|s: int| 0 <= s < a.drop_last().len() && #[trigger] a.drop_last()[s] implies b.drop_last()[s] by {
            assert(a[s]);
        }
        lemma_unseen_more(a.drop_last(), b.drop_last());
    }
}

/// Whether what was seen stays seen.
spec fn grows(a: Seq<bool>, b: Seq<bool>) -> bool {
    a.len() == b.len() && forall|s: int| 0 <= s < a.len() && #[trigger] a[s] ==> b[s]
}

/// Whether every free part of an attack was looked at.
spec fn exhausted(edges: Seq<Seq<usize>>, reserved: Seq<bool>, seen: Seq<bool>, note: int) -> bool {
    forall|slot: int| #[trigger] may_take(edges, reserved, note, slot) ==> seen[slot]
}

/// Whether the owners of the parts that were looked at since have no other free part.
spec fn closed_since(
    edges: Seq<Seq<usize>>,
    reserved: Seq<bool>,
    owners: Seq<Option<usize>>,
    before: Seq<bool>,
    seen: Seq<bool>,
) -> bool {
    forall|s: int|
        0 <= s < seen.len() && #[trigger] seen[s] && !before[s] ==> owners[s] is Some && exhausted(
            edges,
            reserved,
            seen,
            owners[s]->Some_0 as int,
        )
}

/// Whether parts belong to attacks that may take them.
spec fn owned_well(edges: Seq<Seq<usize>>, reserved: Seq<bool>, owners: Seq<Option<usize>>) -> bool {
    &&& owners.len() == reserved.len()
    &&& forall|s: int|
        0 <= s < owners.len() && (#[trigger] owners[s]) is Some ==> owners[s]->Some_0 < edges.len()
            && may_take(edges, reserved, owners[s]->Some_0 as int, s)
}

/// Whether owners hold what they held, and an attack one part more.
spec fn one_more(before: Seq<Option<usize>>, after: Seq<Option<usize>>, note: int) -> bool {
    forall|n: int| #[trigger]
        all_held(after, n) == all_held(before, n) + (if n == note {
            1int
        } else {
            0int
        })
}

/// Gives an attack a part, moving owners of parts on where that makes room.
#[verifier::rlimit(60)]
fn augment(
    note: usize,
    edges: &Vec<Vec<usize>>,
    reserved: &Vec<bool>,
    seen: &mut Vec<bool>,
    owners: &mut Vec<Option<usize>>,
) -> (r: bool)
    requires
        note < edges.len(),
        within(edge_views(edges@), reserved.len() as int),
        old(seen).len() == reserved.len(),
        owned_well(edge_views(edges@), reserved@, old(owners)@),
    ensures
        final(seen).len() == reserved.len(),
        grows(old(seen)@, final(seen)@),
        owned_well(edge_views(edges@), reserved@, final(owners)@),
        forall|s: int| 0 <= s < reserved.len() && old(seen)@[s] ==> #[trigger] final(owners)@[s] == old(owners)@[s],
        r ==> one_more(old(owners)@, final(owners)@, note as int),
        !r ==> final(owners)@ == old(owners)@ && exhausted(edge_views(edges@), reserved@, final(seen)@, note as int) && closed_since(edge_views(edges@), reserved@, old(owners)@, old(seen)@, final(seen)@),
    decreases unseen(old(seen)@),
{
    let ghost all = edge_views(edges@);
    let ghost first = seen@;
    let ghost start = owners@;
    let mut i: usize = 0;
    while i < edges[note].len()
        invariant
            i <= edges[note as int].len(),
            note < edges.len(),
            all == edge_views(edges@),
            first == old(seen)@,
            start == old(owners)@,
            within(all, reserved.len() as int),
            seen.len() == reserved.len(),
            first.len() == reserved.len(),
            owners@ == start,
            owned_well(all, reserved@, start),
            grows(first, seen@),
            closed_since(all, reserved@, start, first, seen@),
            forall|k: int|
                0 <= k < i && !reserved[all[note as int][k] as int] ==> seen[#[trigger] all[note as int][k] as int],
        decreases edges[note as int].len() - i,
    {
        let slot = edges[note][i];
        proof {
            assert(all[note as int][i as int] == slot);
        }
        if !reserved[slot] && !seen[slot] {
            let ghost before = seen@;
            proof {
                lemma_unseen_more(first, before);
                lemma_unseen(before, slot as int);
            }
            seen.set(slot, true);
            let ghost marked = seen@;
            let free: bool = match owners[slot] {
                None => true,
                Some(other) => {
                    proof {
                        assert(owners@[slot as int] is Some);
                    }
                    augment(other, edges, reserved, seen, owners)
                },
            };
            proof {
                assert(grows(first, seen@)) by {
                    assert forall|s: int| 0 <= s < first.len() && #[trigger] first[s] implies seen@[s] by {
                        assert(before[s]);
                        assert(marked[s]);
                    }
                }
                assert(marked[slot as int]);
                assert(owners@[slot as int] == start[slot as int]);
            }
            if free {
                let ghost inner = owners@;
                owners.set(slot, Some(note));
                proof {
                    let new = owners@;
                    assert(all[note as int].contains(slot)) by {
                        assert(all[note as int][i as int] == slot);
                    }
                    assert forall|s: int|
                        0 <= s < new.len() && (#[trigger] new[s]) is Some implies new[s]->Some_0
                        < all.len() && may_take(all, reserved@, new[s]->Some_0 as int, s) by {
                        if s != slot {
                            assert(inner[s] is Some);
                        }
                    }
                    assert forall|n: int| #[trigger] all_held(new, n) == all_held(start, n) + (if n
                        == note {
                        1int
                    } else {
                        0int
                    }) by {
                        lemma_held_update(
                            inner,
                            slot as int,
                            Some(note),
                            n,
                            inner.len() as int,
                        );
                        if start[slot as int] is Some {
                            assert(one_more(start, inner, start[slot as int]->Some_0 as int));
                            assert(all_held(inner, n) == all_held(start, n) + (if n
                                == start[slot as int]->Some_0 {
                                1int
                            } else {
                                0int
                            }));
                        } else {
                            assert(inner == start);
                        }
                    }
                    assert forall|s: int| 0 <= s < reserved.len() && first[s] implies #[trigger] new[s]
                        == start[s] by {
                        assert(before[s]);
                        assert(marked[s]);
                        assert(inner[s] == start[s]);
                    }
                }
                return true;
            }
            proof {
                assert forall|s: int|
                    0 <= s < seen@.len() && #[trigger] seen@[s] && !first[s] implies start[s] is Some
                    && exhausted(all, reserved@, seen@, start[s]->Some_0 as int) by {
                    if before[s] {
                        assert(exhausted(all, reserved@, before, start[s]->Some_0 as int));
                        assert forall|t: int| #[trigger]
                            may_take(
                                all,
                                reserved@,
                                start[s]->Some_0 as int,
                                t,
                            ) implies seen@[t] by {
                            assert(before[t]);
                            assert(marked[t]);
                        }
                    } else if s != slot {
                        assert(!marked[s]);
                    }
                }
                assert forall|k: int|
                    0 <= k < i + 1
                        && !reserved[all[note as int][k] as int] implies seen[#[trigger] all[note as int][k] as int] by {
                    let t = all[note as int][k] as int;
                    if k < i {
                        assert(before[t]);
                    }
                    assert(marked[t]);
                }
            }
        }
        i += 1;
    }
    proof {
        assert forall|slot: int| #[trigger] may_take(all, reserved@, note as int, slot) implies seen@[slot] by {
            let k = choose|k: int|
                0 <= k < all[note as int].len() && all[note as int][k] == slot as usize;
            assert(seen[all[note as int][k] as int]);
        }
    }
    false
}

/// The parts that were looked at, as a set.
spec fn seen_set(seen: Seq<bool>) -> Set<int> {
    set_int_range(0, seen.len() as int).filter(|s: int| seen[s])
}

/// Attacks that together have fewer free parts than they are many cannot all have one.
proof fn lemma_crowded(
    edges: Seq<Seq<usize>>,
    first: int,
    reserved: Seq<bool>,
    owners: Seq<Option<usize>>,
    seen: Seq<bool>,
    note: int,
)
    requires
        0 <= first <= note < edges.len(),
        seen.len() == reserved.len(),
        owned_well(edges, reserved, owners),
        exhausted(edges, reserved, seen, note),
        forall|s: int|
            0 <= s < seen.len() && #[trigger] seen[s] ==> owners[s] is Some && first
                <= owners[s]->Some_0 < note && exhausted(
                edges,
                reserved,
                seen,
                owners[s]->Some_0 as int,
            ),
        forall|n: int| #[trigger] all_held(owners, n) <= 1,
    ensures
        !matchable(edges, first, reserved),
{
    if matchable(edges, first, reserved) {
        let m = choose|m: Seq<int>| is_matching(edges, first, reserved, m);
        let slots = seen_set(seen);
        vstd::set_lib::lemma_int_range(0, seen.len() as int);
        vstd::set_lib::lemma_len_subset(slots, set_int_range(0, seen.len() as int));
        assert(slots.finite());
        let owner = |s: int| m[owners[s]->Some_0 as int];
        assert(vstd::relations::injective_on(owner, slots)) by {
            assert forall|a: int, b: int|
                slots.contains(a) && slots.contains(b) && #[trigger] owner(a) == #[trigger] owner(
                    b,
                ) implies a == b by {
                let x = owners[a]->Some_0 as int;
                let y = owners[b]->Some_0 as int;
                assert(seen[a] && seen[b]);
                if x < y {
                    assert(m[x] != m[y]);
                } else if y < x {
                    assert(m[y] != m[x]);
                }
                if a < b {
                    lemma_held_two(owners, x, a, b, owners.len() as int);
                    assert(all_held(owners, x) <= 1);
                } else if b < a {
                    lemma_held_two(owners, x, b, a, owners.len() as int);
                    assert(all_held(owners, x) <= 1);
                }
            }
        }
        let images = slots.map(owner);
        vstd::set_lib::lemma_map_size(slots, images, owner);
        assert(images.subset_of(slots)) by {
            assert forall|t: int| images.contains(t) implies slots.contains(t) by {
                let s = choose|s: int| slots.contains(s) && t == owner(s);
                assert(seen[s]);
                let x = owners[s]->Some_0 as int;
                assert(may_take(edges, reserved, x, m[x]));
                assert(exhausted(edges, reserved, seen, x));
            }
        }
        assert(may_take(edges, reserved, note, m[note]));
        assert(slots.contains(m[note]));
        assert(!images.contains(m[note])) by {
            if images.contains(m[note]) {
                let s = choose|s: int| slots.contains(s) && m[note] == owner(s);
                assert(seen[s]);
                let x = owners[s]->Some_0 as int;
                assert(m[x] != m[note]);
            }
        }
        let more = images.insert(m[note]);
        assert(more.subset_of(slots));
        vstd::set_lib::lemma_len_subset(more, slots);
        assert(false);
    }
}

fn blank(n: usize) -> (v: Vec<bool>)
    ensures
        v.len() == n,
        forall|s: int| 0 <= s < n ==> !#[trigger] v[s],
{
    let mut v: Vec<bool> = Vec::new();
    let mut i: usize = 0;
    while i < n
        invariant
            i <= n,
            v.len() == i,
            forall|s: int| 0 <= s < i ==> !#[trigger] v[s],
        decreases n - i,
    {
        v.push(false);
        i += 1;
    }
    v
}

proof fn lemma_none_held(owners: Seq<Option<usize>>, note: int, n: int)
    requires
        0 <= n <= owners.len(),
        forall|s: int| 0 <= s < owners.len() ==> (#[trigger] owners[s]) is None,
    ensures
        held(owners, note, n) == 0,
    decreases n,
{
    if n > 0 {
        lemma_none_held(owners, note, n - 1);
        assert(owners[n - 1] is None);
    }
}

/// The parts of the attacks, told from their owners.
spec fn part_of(owners: Seq<Option<usize>>, note: int) -> int {
    choose|s: int|
        0 <= s < owners.len() && #[trigger] owners[s] is Some && owners[s]->Some_0 == note
}

/// Tells whether the attacks from one on can have parts of their own.
#[verifier::rlimit(60)]
pub fn fits(edges: &Vec<Vec<usize>>, first: usize, reserved: &Vec<bool>) -> (r: bool)
    requires
        within(edge_views(edges@), reserved.len() as int),
    ensures
        r == matchable(edge_views(edges@), first as int, reserved@),
{
    let ghost all = edge_views(edges@);
    if first >= edges.len() {
        proof {
            let m = Seq::new(all.len(), |n: int| 0int);
            assert(is_matching(all, first as int, reserved@, m));
        }
        return true;
    }
    let mut owners: Vec<Option<usize>> = Vec::new();
    let mut i: usize = 0;
    while i < reserved.len()
        invariant
            i <= reserved.len(),
            owners.len() == i,
            forall|s: int| 0 <= s < i ==> (#[trigger] owners[s]) is None,
        decreases reserved.len() - i,
    {
        owners.push(None);
        i += 1;
    }
    proof {
        assert forall|n: int| #[trigger] all_held(owners@, n) == 0 by {
            lemma_none_held(owners@, n, owners@.len() as int);
        }
    }
    let mut note: usize = first;
    while note < edges.len()
        invariant
            first <= note <= edges.len(),
            all == edge_views(edges@),
            within(all, reserved.len() as int),
            owned_well(all, reserved@, owners@),
            forall|n: int| #[trigger] all_held(owners@, n) == (if first <= n < note {
                1int
            } else {
                0int
            }),
        decreases edges.len() - note,
    {
        let mut seen = blank(reserved.len());
        let ghost before = owners@;
        if !augment(note, edges, reserved, &mut seen, &mut owners) {
            proof {
                assert forall|s: int| 0 <= s < seen@.len() && #[trigger] seen@[s] implies owners@[s] is Some
                    && first <= owners@[s]->Some_0 < note && exhausted(
                    all,
                    reserved@,
                    seen@,
                    owners@[s]->Some_0 as int,
                ) by {
                    let n = owners@[s]->Some_0 as int;
                    lemma_held_one(owners@, n, s, owners@.len() as int);
                    assert(all_held(owners@, n) == (if first <= n < note {
                        1int
                    } else {
                        0int
                    }));
                }
                lemma_crowded(all, first as int, reserved@, owners@, seen@, note as int);
            }
            return false;
        }
        proof {
            assert forall|n: int| #[trigger] all_held(owners@, n) == (if first <= n < note + 1 {
                1int
            } else {
                0int
            }) by {
                assert(all_held(before, n) == (if first <= n < note {
                    1int
                } else {
                    0int
                }));
            }
        }
        note += 1;
    }
    proof {
        let m = Seq::new(all.len(), |n: int| part_of(owners@, n));
        assert forall|n: int| first <= n < all.len() implies may_take(
            all,
            reserved@,
            n,
            #[trigger] m[n],
        ) && owners@[m[n]] == Some(n as usize) && 0 <= m[n] < owners@.len() by {
            assert(all_held(owners@, n) == 1);
            lemma_held_bounds(owners@, n, owners@.len() as int);
            let s = part_of(owners@, n);
            assert(owners@[s] is Some && owners@[s]->Some_0 == n);
        }
        assert forall|n: int, k: int|
            #![trigger m[n], m[k]]
            first <= n < k < all.len() implies m[n] != m[k] by {
            assert(owners@[m[n]] == Some(n as usize));
            assert(owners@[m[k]] == Some(k as usize));
        }
        assert(is_matching(all, first as int, reserved@, m));
    }
    true
}

/// A part that is free for an attack and leaves parts for those behind it.
pub open spec fn is_room(edges: Seq<Seq<usize>>, position: int, reserved: Seq<bool>, slot: int) -> bool {
    may_take(edges, reserved, position, slot) && matchable(
        edges,
        position + 1,
        reserved.update(slot, true),
    )
}

/// The first part from a place on, in the order of preference, that leaves room for the
/// attacks behind.
pub open spec fn picked_from(edges: Seq<Seq<usize>>, position: int, reserved: Seq<bool>, k: int) -> usize
    decreases edges[position].len() - k,
{
    if k < 0 || k >= edges[position].len() {
        0
    } else if is_room(edges, position, reserved, edges[position][k] as int) {
        edges[position][k]
    } else {
        picked_from(edges, position, reserved, k + 1)
    }
}

/// The part that an attack prefers among those that leave room for the others.
pub open spec fn picked(edges: Seq<Seq<usize>>, position: int, reserved: Seq<bool>) -> usize {
    picked_from(edges, position, reserved, 0)
}

/// Where attacks can have parts of their own, there is a part for the first that leaves
/// parts for the others.
proof fn lemma_room(edges: Seq<Seq<usize>>, position: int, reserved: Seq<bool>) -> (slot: int)
    requires
        0 <= position < edges.len(),
        matchable(edges, position, reserved),
    ensures
        is_room(edges, position, reserved, slot),
{
    let m = choose|m: Seq<int>| is_matching(edges, position, reserved, m);
    let slot = m[position];
    assert(may_take(edges, reserved, position, m[position]));
    let after = reserved.update(slot, true);
    assert forall|n: int| position + 1 <= n < edges.len() implies may_take(
        edges,
        after,
        n,
        #[trigger] m[n],
    ) by {
        assert(m[position] != m[n]);
        assert(may_take(edges, reserved, n, m[n]));
    }
    assert(is_matching(edges, position + 1, after, m));
    slot
}

/// Picks the part that an attack prefers among those that leave room for the others.
pub fn pick(edges: &Vec<Vec<usize>>, position: usize, reserved: &mut Vec<bool>) -> (slot: usize)
    requires
        position < edges.len(),
        within(edge_views(edges@), old(reserved).len() as int),
        matchable(edge_views(edges@), position as int, old(reserved)@),
    ensures
        slot == picked(edge_views(edges@), position as int, old(reserved)@),
        is_room(edge_views(edges@), position as int, old(reserved)@, slot as int),
        slot < old(reserved).len(),
        final(reserved)@ == old(reserved)@.update(slot as int, true),
        matchable(edge_views(edges@), position + 1, final(reserved)@),
{
    let ghost all = edge_views(edges@);
    let ghost before = reserved@;
    let mut k: usize = 0;
    while k < edges[position].len()
        invariant
            k <= edges[position as int].len(),
            position < edges.len(),
            all == edge_views(edges@),
            before == old(reserved)@,
            reserved@ == before,
            within(all, before.len() as int),
            picked(all, position as int, before) == picked_from(
                all,
                position as int,
                before,
                k as int,
            ),
            forall|j: int|
                0 <= j < k ==> !is_room(
                    all,
                    position as int,
                    before,
                    #[trigger] all[position as int][j] as int,
                ),
        decreases edges[position as int].len() - k,
    {
        let slot = edges[position][k];
        proof {
            assert(all[position as int][k as int] == slot);
            assert(all[position as int].contains(slot));
        }
        if !reserved[slot] {
            reserved.set(slot, true);
            if fits(edges, position + 1, reserved) {
                return slot;
            }
            reserved.set(slot, false);
            proof {
                assert(reserved@ =~= before);
            }
        }
        k += 1;
    }
    proof {
        let slot = lemma_room(all, position as int, before);
        let j = choose|j: int|
            0 <= j < all[position as int].len() && all[position as int][j] == slot as usize;
        assert(!is_room(all, position as int, before, all[position as int][j] as int));
        assert(false);
    }
    0
}

} // verus!
