//! Where notes belong before they are put into parts.
use crate::attacks::{find_predecessor, predecessor};
use crate::packing::{is_centre, is_plan, is_single, legacy_packed, legacy_repack, parts_of, repack, repacked, Centre, Homes, PackError};
use crate::score::{Note, Tick};
use std::collections::BTreeMap;
use vstd::prelude::*;

verus! {

/// How far the pitch moves to a note from the one before it in its voice, where that ended
/// no more than a quarter before.
pub open spec fn continuity_of(originals: Seq<Note>, i: int) -> int {
    match predecessor(originals, i) {
        None => 0,
        Some(j) => {
            let gap = originals[i].on - originals[j as int].off;
            let step = originals[i].pitch - originals[j as int].pitch;
            if 0 <= gap <= 96 {
                if step < 0 {
                    -step
                } else {
                    step
                }
            } else {
                0
            }
        },
    }
}

/// Tells how far the pitch moves to a note from the one before it in its voice.
pub fn continuity(originals: &[Note], i: usize) -> (r: i64)
    requires
        i < originals.len(),
    ensures
        r == continuity_of(originals@, i as int),
{
    match find_predecessor(originals, i) {
        None => 0,
        Some(j) => {
            let gap: i128 = originals[i].on as i128 - originals[j].off as i128;
            let step: i64 = originals[i].pitch as i64 - originals[j].pitch as i64;
            if 0 <= gap && gap <= 96 {
                if step < 0 {
                    -step
                } else {
                    step
                }
            } else {
                0
            }
        },
    }
}

/// Whether one note goes before another: by its key, the greater first, and then by its
/// number.
pub open spec fn goes_first(keys: Seq<i64>, a: int, b: int) -> bool {
    keys[a] > keys[b] || (keys[a] == keys[b] && a <= b)
}

/// Whether a note is the first of those that begin with it.
pub open spec fn is_anchor(notes: Seq<Note>, kept: Seq<usize>, keys: Seq<i64>, i: usize) -> bool {
    kept.contains(i) && forall|k: int|
        0 <= k < kept.len() && notes[#[trigger] kept[k] as int].on == notes[i as int].on
            ==> goes_first(keys, i as int, kept[k] as int)
}

/// Marks the notes that lead at each moment: of those that begin at once the one with the
/// greatest key.
#[verifier::rlimit(40)]
pub fn attack_anchors(notes: &Vec<Note>, kept: &Vec<usize>, keys: &Vec<i64>) -> (anchors: Vec<bool>)
    requires
        keys.len() == notes.len(),
        forall|k: int| 0 <= k < kept.len() ==> (#[trigger] kept[k]) < notes.len(),
    ensures
        anchors.len() == notes.len(),
        forall|i: int|
            0 <= i < notes.len() ==> #[trigger] anchors[i] == is_anchor(
                notes@,
                kept@,
                keys@,
                i as usize,
            ),
{
    broadcast use vstd::std_specs::btree::group_btree_axioms;

    let mut best: BTreeMap<Tick, usize> = BTreeMap::new();
    let mut k: usize = 0;
    while k < kept.len()
        invariant
            k <= kept.len(),
            keys.len() == notes.len(),
            forall|k: int| 0 <= k < kept.len() ==> (#[trigger] kept[k]) < notes.len(),
            forall|t: Tick| #[trigger]
                best@.contains_key(t) ==> best@[t] < notes.len() && notes[best@[t] as int].on == t
                    && kept@.take(k as int).contains(best@[t]),
            forall|j: int|
                0 <= j < k ==> best@.contains_key(notes[#[trigger] kept[j] as int].on) && goes_first(
                    keys@,
                    best@[notes[kept[j] as int].on] as int,
                    kept[j] as int,
                ),
        decreases kept.len() - k,
    {
        let i = kept[k];
        proof {
            assert(kept[k as int] < notes.len());
        }
        let on = notes[i].on;
        let ghost before = best@;
        let better: bool = match best.get(&on) {
            None => true,
            Some(j) => {
                let j = *j;
                keys[i] > keys[j] || (keys[i] == keys[j] && i < j)
            },
        };
        if better {
            best.insert(on, i);
        }
        proof {
            let short = kept@.take(k as int);
            let long = kept@.take(k + 1);
            assert forall|t: Tick| #[trigger] best@.contains_key(t) implies best@[t] < notes.len()
                && notes[best@[t] as int].on == t && long.contains(best@[t]) by {
                if better && t == on {
                    assert(long[k as int] == i);
                } else {
                    assert(before.contains_key(t));
                    let q = choose|q: int| 0 <= q < short.len() && short[q] == before[t];
                    assert(long[q] == before[t]);
                }
            }
            assert forall|j: int| 0 <= j < k + 1 implies best@.contains_key(
                notes[#[trigger] kept[j] as int].on,
            ) && goes_first(
                keys@,
                best@[notes[kept[j] as int].on] as int,
                kept[j] as int,
            ) by {
                if j < k {
                    assert(before.contains_key(notes[kept[j] as int].on));
                }
            }
        }
        k += 1;
    }
    let mut anchors: Vec<bool> = Vec::new();
    let mut i: usize = 0;
    while i < notes.len()
        invariant
            i <= notes.len(),
            anchors.len() == i,
            forall|j: int|
                0 <= j < i ==> #[trigger] anchors[j] == (best@.contains_key(notes[j].on)
                    && best@[notes[j].on] == j),
        decreases notes.len() - i,
    {
        let is_best: bool = match best.get(&notes[i].on) {
            Some(j) => *j == i,
            None => false,
        };
        anchors.push(is_best);
        i += 1;
    }
    proof {
        assert(kept@.take(k as int) =~= kept@);
        assert forall|i: int| 0 <= i < notes.len() implies #[trigger] anchors[i] == is_anchor(
            notes@,
            kept@,
            keys@,
            i as usize,
        ) by {
            let on = notes[i].on;
            if anchors[i] {
                assert(kept@.contains(i as usize));
                assert forall|k: int|
                    0 <= k < kept.len() && notes@[#[trigger] kept@[k] as int].on
                        == on implies goes_first(keys@, i, kept@[k] as int) by {
                    assert(best@.contains_key(notes[kept[k] as int].on));
                }
            }
            if is_anchor(notes@, kept@, keys@, i as usize) {
                let k = choose|k: int| 0 <= k < kept@.len() && kept@[k] == i as usize;
                assert(best@.contains_key(notes[kept[k] as int].on));
                let b = best@[on];
                let q = choose|q: int| 0 <= q < kept@.len() && kept@[q] == b;
                assert(notes@[kept@[q] as int].on == on);
                assert(goes_first(keys@, i, kept@[q] as int));
            }
        }
    }
    anchors
}

/// The sum of the pitches of the first of some notes.
pub open spec fn pitch_sum(notes: Seq<Note>, ids: Seq<usize>, n: int) -> int
    decreases n,
{
    if n <= 0 {
        0
    } else {
        pitch_sum(notes, ids, n - 1) + notes[ids[n - 1] as int].pitch
    }
}

/// The middle of the range of some notes; of none middle C.
pub open spec fn mean_of(notes: Seq<Note>, ids: Seq<usize>) -> (int, int) {
    if ids.len() == 0 {
        (60, 1)
    } else {
        (pitch_sum(notes, ids, ids.len() as int), ids.len() as int)
    }
}

pub open spec fn is_mean(c: Centre, notes: Seq<Note>, ids: Seq<usize>) -> bool {
    (c.sum as int, c.len as int) == mean_of(notes, ids)
}

/// The middle of the range of some notes.
pub fn mean(notes: &Vec<Note>, ids: &Vec<usize>) -> (c: Centre)
    requires
        forall|k: int| 0 <= k < ids.len() ==> (#[trigger] ids[k]) < notes.len(),
    ensures
        is_mean(c, notes@, ids@),
        is_centre(c),
{
    if ids.len() == 0 {
        return Centre { sum: 60, len: 1 };
    }
    let mut sum: i128 = 0;
    let mut k: usize = 0;
    while k < ids.len()
        invariant
            k <= ids.len(),
            forall|k: int| 0 <= k < ids.len() ==> (#[trigger] ids[k]) < notes.len(),
            sum == pitch_sum(notes@, ids@, k as int),
            -k * 0x8000_0000 <= sum <= k * 0x8000_0000,
        decreases ids.len() - k,
    {
        proof {
            assert(ids[k as int] < notes.len());
        }
        sum = sum + notes[ids[k]].pitch as i128;
        k += 1;
    }
    Centre { sum, len: ids.len() as u64 }
}

/// The part that a note is in among the first parts; of several the last.
pub open spec fn part_holding(slots: Seq<Seq<usize>>, i: usize, n: int) -> Option<usize>
    decreases n,
{
    if n <= 0 {
        None
    } else if slots[n - 1].contains(i) {
        Some((n - 1) as usize)
    } else {
        part_holding(slots, i, n - 1)
    }
}

/// Reads where notes belong off the parts that they are in.
pub fn slot_homes(notes: &Vec<Note>, slots: &Vec<Vec<usize>>) -> (homes: Homes)
    requires
        forall|s: int, k: int|
            #![trigger slots[s]@[k]]
            0 <= s < slots.len() && 0 <= k < slots[s].len() ==> slots[s]@[k] < notes.len(),
    ensures
        homes.home.len() == notes.len(),
        forall|i: int|
            0 <= i < notes.len() ==> #[trigger] homes.home[i] == part_holding(
                parts_of(slots@),
                i as usize,
                slots.len() as int,
            ),
        homes.centre.len() == slots.len(),
        forall|s: int|
            0 <= s < slots.len() ==> is_mean(#[trigger] homes.centre[s], notes@, slots[s]@)
                && is_centre(homes.centre[s]),
        homes.primary_lead.len() == 0,
{
    let ghost all = parts_of(slots@);
    let mut home: Vec<Option<usize>> = Vec::new();
    let mut i: usize = 0;
    while i < notes.len()
        invariant
            i <= notes.len(),
            home.len() == i,
            forall|k: int| 0 <= k < i ==> (#[trigger] home[k]) is None,
        decreases notes.len() - i,
    {
        home.push(None);
        i += 1;
    }
    let mut centre: Vec<Centre> = Vec::new();
    let mut s: usize = 0;
    while s < slots.len()
        invariant
            s <= slots.len(),
            all == parts_of(slots@),
            forall|s: int, k: int|
                #![trigger slots[s]@[k]]
                0 <= s < slots.len() && 0 <= k < slots[s].len() ==> slots[s]@[k] < notes.len(),
            home.len() == notes.len(),
            centre.len() == s,
            forall|i: int|
                0 <= i < notes.len() ==> #[trigger] home[i] == part_holding(
                    all,
                    i as usize,
                    s as int,
                ),
            forall|q: int|
                0 <= q < s ==> is_mean(#[trigger] centre[q], notes@, slots[q]@) && is_centre(
                    centre[q],
                ),
        decreases slots.len() - s,
    {
        let ids = &slots[s];
        let ghost before = home@;
        proof {
            assert(all[s as int] == ids@);
            assert forall|k: int| 0 <= k < ids.len() implies (#[trigger] ids[k]) < notes.len() by {
                assert(slots[s as int]@[k] < notes.len());
            }
        }
        let mut k: usize = 0;
        while k < ids.len()
            invariant
                k <= ids.len(),
                home.len() == notes.len(),
                before.len() == notes.len(),
                forall|k: int| 0 <= k < ids.len() ==> (#[trigger] ids[k]) < notes.len(),
                forall|i: int|
                    0 <= i < notes.len() ==> #[trigger] home[i] == (if ids@.take(
                        k as int,
                    ).contains(i as usize) {
                        Some(s)
                    } else {
                        before[i]
                    }),
            decreases ids.len() - k,
        {
            let ghost short = ids@.take(k as int);
            let ghost earlier = home@;
            proof {
                assert(ids[k as int] < notes.len());
            }
            home.set(ids[k], Some(s));
            proof {
                let long = ids@.take(k + 1);
                assert forall|i: int| 0 <= i < notes.len() implies #[trigger] home[i] == (
                if long.contains(i as usize) {
                    Some(s)
                } else {
                    before[i]
                }) by {
                    if short.contains(i as usize) {
                        let q = choose|q: int| 0 <= q < short.len() && short[q] == i as usize;
                        assert(long[q] == i as usize);
                    }
                    if i == ids[k as int] {
                        assert(long[k as int] == i as usize);
                    }
                    if long.contains(i as usize) {
                        let q = choose|q: int| 0 <= q < long.len() && long[q] == i as usize;
                        if q < k {
                            assert(short[q] == i as usize);
                        }
                    }
                    assert(earlier[i] == (if short.contains(i as usize) {
                        Some(s)
                    } else {
                        before[i]
                    }));
                }
            }
            k += 1;
        }
        proof {
            assert(ids@.take(k as int) =~= ids@);
        }
        centre.push(mean(notes, ids));
        s += 1;
    }
    Homes { home, centre, primary_lead: Vec::new() }
}

/// Of the first notes those that belong to a track.
pub open spec fn of_track(home: Seq<Option<usize>>, kept: Seq<usize>, parts: int, track: int, n: int) -> Seq<usize>
    decreases n,
{
    if n <= 0 {
        Seq::empty()
    } else {
        let before = of_track(home, kept, parts, track, n - 1);
        let h = home[kept[n - 1] as int];
        if h is Some && h->Some_0 as int / parts == track {
            before.push(kept[n - 1])
        } else {
            before
        }
    }
}

/// Whether homes are those within one track.
pub open spec fn is_local(local: Homes, homes: Homes, parts: int, track: int) -> bool {
    &&& local.home.len() == homes.home.len()
    &&& forall|i: int|
        0 <= i < homes.home.len() ==> #[trigger] local.home[i] == (match homes.home[i] {
            Some(slot) => if slot as int / parts == track {
                Some((slot - track * parts) as usize)
            } else {
                None
            },
            None => None,
        })
    &&& local.centre@ == homes.centre@.subrange(track * parts, (track + 1) * parts)
    &&& local.primary_lead@ == Seq::<usize>::empty()
}

/// What the notes of one track come to.
pub open spec fn track_packed(
    notes: Seq<Note>,
    kept: Seq<usize>,
    homes: Homes,
    parts: int,
    track: int,
    legacy: bool,
    out: Seq<Seq<usize>>,
    spill: int,
) -> bool {
    let group = of_track(homes.home@, kept, parts, track, kept.len() as int);
    exists|local: Homes| #[trigger] is_local(local, homes, parts, track) && if legacy {
        legacy_packed(notes, group, local) matches Ok((p, n)) && p.out == out && n == spill
    } else {
        repacked(notes, group, local) matches Ok(p) && p.out == out && crate::packing::strayed(
            p,
            local.home@,
            group,
            group.len() as int,
        ) == spill
    }
}

/// The parts of one track.
pub open spec fn share(out: Seq<Seq<usize>>, parts: int, track: int) -> Seq<Seq<usize>> {
    out.subrange(track * parts, (track + 1) * parts)
}

/// Whether the notes of each track have gone into its parts.
pub open spec fn tracks_packed(
    notes: Seq<Note>,
    kept: Seq<usize>,
    homes: Homes,
    parts: int,
    tracks: int,
    legacy: bool,
    out: Seq<Seq<usize>>,
    spill: int,
) -> bool {
    exists|spills: Seq<int>| #[trigger] adds_up(spills, spill) && spills.len() == tracks && forall|t: int|
        0 <= t < tracks ==> track_packed(
            notes,
            kept,
            homes,
            parts,
            t,
            legacy,
            share(out, parts, t),
            #[trigger] spills[t],
        )
}

/// Why the notes of one track cannot be put into parts.
pub open spec fn track_fails(
    notes: Seq<Note>,
    kept: Seq<usize>,
    homes: Homes,
    parts: int,
    track: int,
    legacy: bool,
    e: PackError,
) -> bool {
    let group = of_track(homes.home@, kept, parts, track, kept.len() as int);
    exists|local: Homes| #[trigger] is_local(local, homes, parts, track) && if legacy {
        legacy_packed(notes, group, local) is Err && legacy_packed(notes, group, local)->Err_0 == e
    } else {
        repacked(notes, group, local) is Err && repacked(notes, group, local)->Err_0 == e
    }
}

/// Whether the notes of one track can be put into parts.
pub open spec fn track_packs(
    notes: Seq<Note>,
    kept: Seq<usize>,
    homes: Homes,
    parts: int,
    track: int,
    legacy: bool,
) -> bool {
    exists|out: Seq<Seq<usize>>, spill: int| #[trigger]
        track_packed(notes, kept, homes, parts, track, legacy, out, spill)
}

/// Whether the notes of one track cannot be put into parts, while those of each earlier track
/// can.
pub open spec fn fails_first(
    notes: Seq<Note>,
    kept: Seq<usize>,
    homes: Homes,
    parts: int,
    track: int,
    legacy: bool,
    e: PackError,
) -> bool {
    &&& track_fails(notes, kept, homes, parts, track, legacy, e)
    &&& forall|t: int|
        0 <= t < track ==> #[trigger] track_packs(notes, kept, homes, parts, t, legacy)
}

fn group_of(homes: &Homes, kept: &Vec<usize>, parts: usize, track: usize) -> (r: Vec<usize>)
    requires
        parts > 0,
        forall|k: int| 0 <= k < kept.len() ==> (#[trigger] kept[k]) < homes.home.len(),
    ensures
        r@ == of_track(homes.home@, kept@, parts as int, track as int, kept.len() as int),
        forall|k: int| 0 <= k < r.len() ==> (#[trigger] r[k]) < homes.home.len(),
{
    let mut r: Vec<usize> = Vec::new();
    let mut k: usize = 0;
    while k < kept.len()
        invariant
            k <= kept.len(),
            parts > 0,
            forall|k: int| 0 <= k < kept.len() ==> (#[trigger] kept[k]) < homes.home.len(),
            r@ == of_track(homes.home@, kept@, parts as int, track as int, k as int),
            forall|k: int| 0 <= k < r.len() ==> (#[trigger] r[k]) < homes.home.len(),
        decreases kept.len() - k,
    {
        let i = kept[k];
        proof {
            assert(kept[k as int] < homes.home.len());
        }
        match homes.home[i] {
            Some(slot) => {
                if slot / parts == track {
                    r.push(i);
                }
            },
            None => {},
        }
        k += 1;
    }
    r
}

fn local_homes(homes: &Homes, parts: usize, track: usize) -> (local: Homes)
    requires
        parts > 0,
        (track + 1) * parts <= homes.centre.len(),
        track < usize::MAX,
    ensures
        is_local(local, *homes, parts as int, track as int),
{
    proof {
        assert((track + 1) * parts == track * parts + parts) by (nonlinear_arith);
        assert(0 <= track * parts) by (nonlinear_arith)
            requires
                track >= 0,
                parts >= 0,
        ;
    }
    let offset: usize = track * parts;
    let mut home: Vec<Option<usize>> = Vec::new();
    let mut i: usize = 0;
    while i < homes.home.len()
        invariant
            i <= homes.home.len(),
            parts > 0,
            offset == track * parts,
            home.len() == i,
            forall|k: int|
                0 <= k < i ==> #[trigger] home[k] == (match homes.home[k] {
                    Some(slot) => if slot as int / parts as int == track {
                        Some((slot - track * parts) as usize)
                    } else {
                        None
                    },
                    None => None,
                }),
        decreases homes.home.len() - i,
    {
        let one: Option<usize> = match homes.home[i] {
            Some(slot) => if slot / parts == track {
                proof {
                    assert(slot >= track * parts) by (nonlinear_arith)
                        requires
                            slot as int / parts as int == track,
                            parts > 0,
                            slot >= 0,
                    ;
                }
                Some(slot - offset)
            } else {
                None
            },
            None => None,
        };
        home.push(one);
        i += 1;
    }
    let mut centre: Vec<Centre> = Vec::new();
    let mut p: usize = 0;
    while p < parts
        invariant
            p <= parts,
            offset == track * parts,
            offset + parts <= homes.centre.len(),
            centre@ == homes.centre@.subrange(offset as int, offset + p),
        decreases parts - p,
    {
        centre.push(homes.centre[offset + p]);
        p += 1;
        proof {
            assert(centre@ =~= homes.centre@.subrange(offset as int, offset + p));
        }
    }
    let primary_lead: Vec<usize> = Vec::new();
    proof {
        assert(primary_lead@ =~= Seq::<usize>::empty());
    }
    Homes { home, centre, primary_lead }
}

/// Whether parts hold those notes of a list that are at home in the first tracks, and none
/// twice.
pub open spec fn houses(
    home: Seq<Option<usize>>,
    kept: Seq<usize>,
    parts: int,
    tracks: int,
    out: Seq<Seq<usize>>,
) -> bool {
    &&& forall|k: int|
        0 <= k < kept.len() && home[(#[trigger] kept[k]) as int] is Some
            && home[kept[k] as int]->Some_0 as int / parts < tracks ==> crate::packing::is_in(
            out,
            kept[k],
        )
    &&& forall|s: int, k: int|
        #![trigger out[s][k]]
        0 <= s < out.len() && 0 <= k < out[s].len() ==> kept.contains(out[s][k])
            && home[out[s][k] as int] is Some && home[out[s][k] as int]->Some_0 as int / parts
            < tracks
    &&& forall|s: int, k: int, t: int, l: int|
        #![trigger out[s][k], out[t][l]]
        0 <= s < out.len() && 0 <= k < out[s].len() && 0 <= t < out.len() && 0 <= l < out[t].len()
            && out[s][k] == out[t][l] ==> s == t && k == l
}

proof fn lemma_group(home: Seq<Option<usize>>, kept: Seq<usize>, parts: int, track: int, n: int)
    requires
        0 <= n <= kept.len(),
    ensures
        forall|q: int|
            0 <= q < of_track(home, kept, parts, track, n).len() ==> kept.contains(
                #[trigger] of_track(home, kept, parts, track, n)[q],
            ) && home[of_track(home, kept, parts, track, n)[q] as int] is Some && home[of_track(
                home,
                kept,
                parts,
                track,
                n,
            )[q] as int]->Some_0 as int / parts == track,
        forall|k: int|
            0 <= k < n && home[(#[trigger] kept[k]) as int] is Some && home[kept[k] as int]->Some_0 as int
                / parts == track ==> of_track(home, kept, parts, track, n).contains(kept[k]),
    decreases n,
{
    if n > 0 {
        lemma_group(home, kept, parts, track, n - 1);
        let fewer = of_track(home, kept, parts, track, n - 1);
        let all = of_track(home, kept, parts, track, n);
        assert forall|q: int| 0 <= q < all.len() implies kept.contains(#[trigger] all[q])
            && home[all[q] as int] is Some && home[all[q] as int]->Some_0 as int / parts == track by {
            if q < fewer.len() {
                assert(all[q] == fewer[q]);
            } else {
                assert(all[q] == kept[n - 1]);
            }
        }
        assert forall|k: int|
            0 <= k < n && home[(#[trigger] kept[k]) as int] is Some && home[kept[k] as int]->Some_0 as int
                / parts == track implies all.contains(kept[k]) by {
            if k < n - 1 {
                assert(fewer.contains(kept[k]));
                let q = choose|q: int| 0 <= q < fewer.len() && fewer[q] == kept[k];
                assert(all[q] == kept[k]);
            } else {
                assert(all[all.len() - 1] == kept[k]);
            }
        }
    }
}

proof fn lemma_houses(
    home: Seq<Option<usize>>,
    kept: Seq<usize>,
    parts: int,
    track: int,
    a: Seq<Seq<usize>>,
    b: Seq<Seq<usize>>,
)
    requires
        houses(home, kept, parts, track, a),
        crate::packing::shares_out(of_track(home, kept, parts, track, kept.len() as int), b),
    ensures
        houses(home, kept, parts, track + 1, a + b),
{
    let group = of_track(home, kept, parts, track, kept.len() as int);
    let all = a + b;
    lemma_group(home, kept, parts, track, kept.len() as int);
    assert forall|k: int|
        0 <= k < kept.len() && home[(#[trigger] kept[k]) as int] is Some
            && home[kept[k] as int]->Some_0 as int / parts < track + 1 implies crate::packing::is_in(
        all,
        kept[k],
    ) by {
        if home[kept[k] as int]->Some_0 as int / parts < track {
            assert(crate::packing::is_in(a, kept[k]));
            let s = choose|s: int| 0 <= s < a.len() && (#[trigger] a[s]).contains(kept[k]);
            assert(all[s] == a[s]);
        } else {
            assert(group.contains(kept[k]));
            let q = choose|q: int| 0 <= q < group.len() && group[q] == kept[k];
            assert(crate::packing::is_in(b, group[q]));
            let s = choose|s: int| 0 <= s < b.len() && (#[trigger] b[s]).contains(kept[k]);
            assert(all[a.len() + s] == b[s]);
        }
    }
    assert forall|s: int, k: int|
        #![trigger all[s][k]]
        0 <= s < all.len() && 0 <= k < all[s].len() implies kept.contains(all[s][k])
        && home[all[s][k] as int] is Some && home[all[s][k] as int]->Some_0 as int / parts < track
        + 1 by {
        if s < a.len() {
            assert(a[s][k] == all[s][k]);
        } else {
            assert(b[s - a.len()][k] == all[s][k]);
            assert(group.contains(b[s - a.len()][k]));
        }
    }
    assert forall|s: int, k: int, t: int, l: int|
        #![trigger all[s][k], all[t][l]]
        0 <= s < all.len() && 0 <= k < all[s].len() && 0 <= t < all.len() && 0 <= l < all[t].len()
            && all[s][k] == all[t][l] implies s == t && k == l by {
        let n = a.len() as int;
        if s < n {
            assert(a[s][k] == all[s][k]);
            if t < n {
                assert(a[t][l] == all[t][l]);
            } else {
                assert(b[t - n][l] == all[t][l]);
                assert(group.contains(b[t - n][l]));
            }
        } else {
            assert(b[s - n][k] == all[s][k]);
            assert(group.contains(b[s - n][k]));
            if t < n {
                assert(a[t][l] == all[t][l]);
            } else {
                assert(b[t - n][l] == all[t][l]);
            }
        }
    }
}

proof fn lemma_joined_parts(notes: Seq<Note>, a: Seq<Seq<usize>>, b: Seq<Seq<usize>>)
    requires
        crate::packing::is_within(notes.len(), a) && crate::packing::is_within(notes.len(), b),
        crate::packing::is_single(notes, a) && crate::packing::is_single(notes, b),
    ensures
        crate::packing::is_within(notes.len(), a + b),
        crate::packing::is_single(notes, a + b),
{
    let all = a + b;
    assert forall|s: int, k: int|
        #![trigger all[s][k]]
        0 <= s < all.len() && 0 <= k < all[s].len() implies all[s][k] < notes.len() by {
        if s < a.len() {
            assert(a[s][k] < notes.len());
        } else {
            assert(b[s - a.len()][k] < notes.len());
        }
    }
    assert forall|s: int, k: int|
        #![trigger all[s][k]]
        0 <= s < all.len() && 0 < k < all[s].len() implies notes[all[s][k - 1] as int].off
        <= notes[all[s][k] as int].on by {
        if s < a.len() {
            assert(a[s][k] == all[s][k]);
        } else {
            assert(b[s - a.len()][k] == all[s][k]);
        }
    }
}

/// Puts the notes of one track into its parts.
#[verifier::rlimit(40)]
fn pack_track(
    notes: &Vec<Note>,
    kept: &Vec<usize>,
    homes: &Homes,
    parts: usize,
    track: usize,
    legacy: bool,
) -> (r: Result<(Vec<Vec<usize>>, usize), PackError>)
    requires
        is_plan(notes@, kept@, *homes),
        parts > 0,
        track < usize::MAX,
        (track + 1) * parts <= homes.centre.len(),
    ensures
        match r {
            Ok((more, moved)) => {
                &&& more.len() == parts
                &&& crate::packing::is_within(notes.len() as nat, parts_of(more@))
                &&& crate::packing::is_single(notes@, parts_of(more@))
                &&& crate::packing::shares_out(
                    of_track(
                        homes.home@,
                        kept@,
                        parts as int,
                        track as int,
                        kept.len() as int,
                    ),
                    parts_of(more@),
                )
                &&& moved <= of_track(
                    homes.home@,
                    kept@,
                    parts as int,
                    track as int,
                    kept.len() as int,
                ).len()
                &&& track_packed(
                    notes@,
                    kept@,
                    *homes,
                    parts as int,
                    track as int,
                    legacy,
                    parts_of(more@),
                    moved as int,
                )
            },
            Err(e) => track_fails(
                notes@,
                kept@,
                *homes,
                parts as int,
                track as int,
                legacy,
                e,
            ),
        },
{
    proof {
        assert((track + 1) * parts == track * parts + parts) by (nonlinear_arith);
    }
    let group = group_of(homes, kept, parts, track);
    let local = local_homes(homes, parts, track);
    proof {
        lemma_local_plan(notes@, kept@, group@, *homes, local, parts as int, track as int);
        assert(is_local(local, *homes, parts as int, track as int));
    }
    if legacy {
        let packed = legacy_repack(notes, &group, &local);
        proof {
            if packed is Ok {
                crate::order::lemma_stable_sort(
                    crate::order::indices(crate::packing::pack_keys(notes@, group@).len()),
                    |i: usize| crate::packing::pack_keys(notes@, group@)[i as int],
                );
                lemma_legacy_spill(
                    plan(notes@, group@, local),
                    crate::packing::no_pack(notes.len() as int, local.centre.len() as int),
                    crate::packing::pack_order(notes@, group@),
                    crate::packing::pack_order(notes@, group@).len() as int,
                );
            }
        }
        packed
    } else {
        let packed = repack(notes, &group, &local);
        proof {
            if packed is Ok {
                lemma_strayed(
                    repacked(notes@, group@, local)->Ok_0,
                    local.home@,
                    group@,
                    group@.len() as int,
                );
            }
        }
        packed
    }
}

/// Whether the first tracks have gone into their parts, with so many notes each that did not go
/// where they belong.
spec fn first_packed(
    notes: Seq<Note>,
    kept: Seq<usize>,
    homes: Homes,
    parts: int,
    legacy: bool,
    out: Seq<Seq<usize>>,
    spills: Seq<int>,
) -> bool {
    forall|t: int|
        0 <= t < spills.len() ==> track_packed(
            notes,
            kept,
            homes,
            parts,
            t,
            legacy,
            share(out, parts, t),
            #[trigger] spills[t],
        )
}

proof fn lemma_next_packed(
    notes: Seq<Note>,
    kept: Seq<usize>,
    homes: Homes,
    parts: int,
    legacy: bool,
    out: Seq<Seq<usize>>,
    more: Seq<Seq<usize>>,
    spills: Seq<int>,
    moved: int,
)
    requires
        parts > 0,
        out.len() == spills.len() * parts,
        more.len() == parts,
        first_packed(notes, kept, homes, parts, legacy, out, spills),
        track_packed(notes, kept, homes, parts, spills.len() as int, legacy, more, moved),
    ensures
        first_packed(notes, kept, homes, parts, legacy, out + more, spills.push(moved)),
{
    let new = out + more;
    let now = spills.push(moved);
    let track = spills.len() as int;
    assert forall|t: int| 0 <= t < now.len() implies track_packed(
        notes,
        kept,
        homes,
        parts,
        t,
        legacy,
        share(new, parts, t),
        #[trigger] now[t],
    ) by {
        assert((t + 1) * parts == t * parts + parts) by (nonlinear_arith);
        assert(0 <= t * parts) by (nonlinear_arith)
            requires
                t >= 0,
                parts >= 0,
        ;
        if t < track {
            assert((t + 1) * parts <= track * parts) by (nonlinear_arith)
                requires
                    t + 1 <= track,
                    parts > 0,
            ;
            assert(new.subrange(t * parts, (t + 1) * parts) =~= out.subrange(
                t * parts,
                (t + 1) * parts,
            ));
            assert(spills[t] == now[t]);
        } else {
            assert(new.subrange(t * parts, (t + 1) * parts) =~= more);
        }
    }
}

/// Whether parts hold just the notes at home in the first tracks, as these have been packed.
#[verifier::opaque]
spec fn is_filled(
    notes: Seq<Note>,
    kept: Seq<usize>,
    homes: Homes,
    parts: int,
    legacy: bool,
    out: Seq<Seq<usize>>,
    spills: Seq<int>,
) -> bool {
    &&& crate::packing::is_within(notes.len(), out)
    &&& crate::packing::is_single(notes, out)
    &&& houses(homes.home@, kept, parts, spills.len() as int, out)
    &&& first_packed(notes, kept, homes, parts, legacy, out, spills)
}

proof fn lemma_filled_first(notes: Seq<Note>, kept: Seq<usize>, homes: Homes, parts: int, legacy: bool)
    requires
        parts > 0,
    ensures
        is_filled(notes, kept, homes, parts, legacy, Seq::empty(), Seq::empty()),
{
    reveal(is_filled);
    let home = homes.home@;
    assert forall|k: int|
        0 <= k < kept.len() && home[(#[trigger] kept[k]) as int] is Some
            && home[kept[k] as int]->Some_0 as int / parts < 0 implies crate::packing::is_in(
        Seq::empty(),
        kept[k],
    ) by {
        vstd::arithmetic::div_mod::lemma_div_pos_is_pos(home[kept[k] as int]->Some_0 as int, parts);
    }
}

proof fn lemma_filled_next(
    notes: Seq<Note>,
    kept: Seq<usize>,
    homes: Homes,
    parts: int,
    legacy: bool,
    out: Seq<Seq<usize>>,
    more: Seq<Seq<usize>>,
    spills: Seq<int>,
    moved: int,
)
    requires
        parts > 0,
        out.len() == spills.len() * parts,
        more.len() == parts,
        is_filled(notes, kept, homes, parts, legacy, out, spills),
        crate::packing::is_within(notes.len(), more),
        crate::packing::is_single(notes, more),
        crate::packing::shares_out(
            of_track(homes.home@, kept, parts, spills.len() as int, kept.len() as int),
            more,
        ),
        track_packed(notes, kept, homes, parts, spills.len() as int, legacy, more, moved),
    ensures
        is_filled(notes, kept, homes, parts, legacy, out + more, spills.push(moved)),
{
    reveal(is_filled);
    lemma_joined_parts(notes, out, more);
    lemma_houses(homes.home@, kept, parts, spills.len() as int, out, more);
    lemma_next_packed(notes, kept, homes, parts, legacy, out, more, spills, moved);
}

proof fn lemma_filled_packs(
    notes: Seq<Note>,
    kept: Seq<usize>,
    homes: Homes,
    parts: int,
    legacy: bool,
    out: Seq<Seq<usize>>,
    spills: Seq<int>,
)
    requires
        is_filled(notes, kept, homes, parts, legacy, out, spills),
    ensures
        forall|t: int|
            0 <= t < spills.len() ==> #[trigger] track_packs(notes, kept, homes, parts, t, legacy),
{
    reveal(is_filled);
    assert forall|t: int| 0 <= t < spills.len() implies #[trigger] track_packs(
        notes,
        kept,
        homes,
        parts,
        t,
        legacy,
    ) by {
        assert(track_packed(
            notes,
            kept,
            homes,
            parts,
            t,
            legacy,
            share(out, parts, t),
            spills[t],
        ));
    }
}

/// Puts the notes of each track into its parts; returns the notes of all parts, and how many
/// did not go where they belong. Where the notes of a track cannot be put into parts, the first
/// such track tells why.
#[verifier::rlimit(40)]
pub fn repack_tracks(
    notes: &Vec<Note>,
    kept: &Vec<usize>,
    homes: &Homes,
    tracks: usize,
    parts: usize,
    legacy: bool,
) -> (r: Result<(Vec<Vec<usize>>, usize), PackError>)
    requires
        is_plan(notes@, kept@, *homes),
        parts > 0,
        homes.centre.len() == tracks * parts,
    ensures
        match r {
            Ok((out, spill)) => out.len() == tracks * parts && crate::packing::is_within(
                notes.len() as nat,
                parts_of(out@),
            ) && crate::packing::is_single(notes@, parts_of(out@)) && houses(
                homes.home@,
                kept@,
                parts as int,
                tracks as int,
                parts_of(out@),
            ) && tracks_packed(
                notes@,
                kept@,
                *homes,
                parts as int,
                tracks as int,
                legacy,
                parts_of(out@),
                spill as int,
            ),
            Err(e) => exists|t: int|
                0 <= t < tracks && #[trigger] fails_first(
                    notes@,
                    kept@,
                    *homes,
                    parts as int,
                    t,
                    legacy,
                    e,
                ),
        },
{
    let mut out: Vec<Vec<usize>> = Vec::new();
    let mut spill: usize = 0;
    let ghost mut spills: Seq<int> = Seq::empty();
    let mut track: usize = 0;
    proof {
        lemma_none_housed(homes.home@, kept@, parts as int, kept.len() as int);
        lemma_filled_first(notes@, kept@, *homes, parts as int, legacy);
        assert(parts_of(out@) =~= Seq::<Seq<usize>>::empty());
    }
    while track < tracks
        invariant
            track <= tracks,
            is_plan(notes@, kept@, *homes),
            parts > 0,
            homes.centre.len() == tracks * parts,
            out.len() == track * parts,
            spills.len() == track,
            adds_up(spills, spill as int),
            spill <= housed(homes.home@, kept@, parts as int, track as int, kept.len() as int),
            is_filled(notes@, kept@, *homes, parts as int, legacy, parts_of(out@), spills),
        decreases tracks - track,
    {
        proof {
            assert((track + 1) * parts <= tracks * parts) by (nonlinear_arith)
                requires
                    track + 1 <= tracks,
                    parts > 0,
            ;
            assert((track + 1) * parts == track * parts + parts) by (nonlinear_arith);
            lemma_housed(homes.home@, kept@, parts as int, track as int, kept.len() as int);
        }
        let (more, moved): (Vec<Vec<usize>>, usize) = match pack_track(
            notes,
            kept,
            homes,
            parts,
            track,
            legacy,
        ) {
            Err(e) => {
                proof {
                    lemma_filled_packs(
                        notes@,
                        kept@,
                        *homes,
                        parts as int,
                        legacy,
                        parts_of(out@),
                        spills,
                    );
                    assert(fails_first(
                        notes@,
                        kept@,
                        *homes,
                        parts as int,
                        track as int,
                        legacy,
                        e,
                    ));
                }
                return Err(e);
            },
            Ok(found) => found,
        };
        let ghost before = parts_of(out@);
        let ghost list = parts_of(more@);
        append_parts(&mut out, more);
        proof {
            lemma_filled_next(
                notes@,
                kept@,
                *homes,
                parts as int,
                legacy,
                before,
                list,
                spills,
                moved as int,
            );
            assert(spills.push(moved as int).drop_last() =~= spills);
            spills = spills.push(moved as int);
        }
        spill = spill + moved;
        track += 1;
    }
    proof {
        reveal(is_filled);
        assert(adds_up(spills, spill as int));
        assert(tracks_packed(
            notes@,
            kept@,
            *homes,
            parts as int,
            tracks as int,
            legacy,
            parts_of(out@),
            spill as int,
        ));
    }
    Ok((out, spill))
}

spec fn plan(notes: Seq<Note>, group: Seq<usize>, local: Homes) -> crate::packing::Plan {
    crate::packing::plan_of(notes, group, local)
}

/// Whether numbers add up to a sum.
pub open spec fn adds_up(list: Seq<int>, sum: int) -> bool
    decreases list.len(),
{
    if list.len() == 0 {
        sum == 0
    } else {
        adds_up(list.drop_last(), sum - list.last())
    }
}

fn append_parts(out: &mut Vec<Vec<usize>>, more: Vec<Vec<usize>>)
    ensures
        parts_of(final(out)@) == parts_of(old(out)@) + parts_of(more@),
        final(out).len() == old(out).len() + more.len(),
{
    let ghost before = parts_of(out@);
    let ghost list = parts_of(more@);
    let mut k: usize = 0;
    while k < more.len()
        invariant
            k <= more.len(),
            list == parts_of(more@),
            parts_of(out@) == before + list.take(k as int),
        decreases more.len() - k,
    {
        let one = copy_ids(&more[k]);
        let ghost earlier = parts_of(out@);
        out.push(one);
        proof {
            assert(parts_of(out@) =~= earlier.push(one@));
            assert(list[k as int] == one@);
            assert(parts_of(out@) =~= before + list.take(k + 1));
        }
        k += 1;
    }
    proof {
        assert(list.take(k as int) =~= list);
        assert(parts_of(out@).len() == out@.len());
    }
}

fn copy_ids(ids: &Vec<usize>) -> (r: Vec<usize>)
    ensures
        r@ == ids@,
{
    let mut r: Vec<usize> = Vec::new();
    let mut i: usize = 0;
    while i < ids.len()
        invariant
            i <= ids.len(),
            r@ == ids@.take(i as int),
        decreases ids.len() - i,
    {
        r.push(ids[i]);
        i += 1;
        proof {
            assert(r@ =~= ids@.take(i as int));
        }
    }
    proof {
        assert(ids@.take(i as int) =~= ids@);
    }
    r
}

/// How many of the first notes are at home in the first tracks.
spec fn housed(home: Seq<Option<usize>>, kept: Seq<usize>, parts: int, tracks: int, n: int) -> int
    decreases n,
{
    if n <= 0 {
        0
    } else {
        let h = home[kept[n - 1] as int];
        housed(home, kept, parts, tracks, n - 1) + (if h is Some && h->Some_0 as int / parts
            < tracks {
            1int
        } else {
            0int
        })
    }
}

proof fn lemma_none_housed(home: Seq<Option<usize>>, kept: Seq<usize>, parts: int, n: int)
    requires
        parts > 0,
    ensures
        housed(home, kept, parts, 0, n) == 0,
    decreases n,
{
    if n > 0 {
        lemma_none_housed(home, kept, parts, n - 1);
        let h = home[kept[n - 1] as int];
        if h is Some {
            vstd::arithmetic::div_mod::lemma_div_pos_is_pos(h->Some_0 as int, parts);
        }
    }
}

proof fn lemma_housed(home: Seq<Option<usize>>, kept: Seq<usize>, parts: int, track: int, n: int)
    requires
        0 <= n <= kept.len(),
    ensures
        housed(home, kept, parts, track + 1, n) == housed(home, kept, parts, track, n) + of_track(
            home,
            kept,
            parts,
            track,
            n,
        ).len(),
        0 <= housed(home, kept, parts, track + 1, n) <= n,
    decreases n,
{
    if n > 0 {
        lemma_housed(home, kept, parts, track, n - 1);
    }
}

proof fn lemma_local_plan(notes: Seq<Note>, kept: Seq<usize>, group: Seq<usize>, homes: Homes, local: Homes, parts: int, track: int)
    requires
        is_plan(notes, kept, homes),
        is_local(local, homes, parts, track),
        parts > 0,
        track >= 0,
        0 <= track * parts,
        (track + 1) * parts == track * parts + parts,
        (track + 1) * parts <= homes.centre.len(),
        forall|k: int| 0 <= k < group.len() ==> (#[trigger] group[k]) < homes.home.len(),
    ensures
        is_plan(notes, group, local),
        local.centre.len() == parts,
{
    assert forall|i: int|
        0 <= i < notes.len() && (#[trigger] local.home[i]) is Some implies local.home[i]->Some_0
        < local.centre.len() by {
        let slot = homes.home[i]->Some_0 as int;
        assert(slot - track * parts < parts && slot >= track * parts) by (nonlinear_arith)
            requires
                slot / parts == track,
                parts > 0,
                slot >= 0,
        ;
    }
    assert forall|s: int| 0 <= s < local.centre.len() implies is_centre(#[trigger] local.centre[s]) by {
        assert(local.centre@[s] == homes.centre@[track * parts + s]);
        assert(is_centre(homes.centre[track * parts + s]));
    }
}

proof fn lemma_strayed(p: crate::packing::Pack, home: Seq<Option<usize>>, kept: Seq<usize>, n: int)
    requires
        0 <= n <= kept.len(),
    ensures
        0 <= crate::packing::strayed(p, home, kept, n) <= n,
    decreases n,
{
    if n > 0 {
        lemma_strayed(p, home, kept, n - 1);
    }
}

proof fn lemma_legacy_spill(plan: crate::packing::Plan, p: crate::packing::Pack, sequence: Seq<usize>, n: int)
    requires
        0 <= n <= sequence.len(),
        crate::packing::plainly_packed(plan, p, sequence, n) is Ok,
    ensures
        0 <= crate::packing::plainly_packed(plan, p, sequence, n)->Ok_0.1 <= n,
    decreases n,
{
    if n > 0 {
        lemma_legacy_spill(plan, p, sequence, n - 1);
    }
}

} // verus!
