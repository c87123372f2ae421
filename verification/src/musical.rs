//! Where notes belong by what they are in the music: melody, bass, or in between.
use crate::encode::{are_slots, order_slots, ranked, slot_lists};
use crate::fold::{Layout, WorkingNote};
use crate::homes::{is_mean, part_holding, slot_homes};
use crate::meta::entry_of;
use crate::onsets::copy_ids;
use crate::order::{lemma_order_sorts, lemma_stable_sort, order, stable_sort, Key};
use crate::packing::{distance, is_centre, is_within, parts_of, Centre, Homes};
use crate::ratio::less_ratio;
use crate::score::{Note, Score, ScoreView};
use crate::text::{chars_of, number_text, push_count, same_chars};
use vstd::prelude::*;

verus! {

/// Which notes a line is drawn out of.
#[derive(Clone, Copy, Debug, PartialEq, Eq, Structural)]
pub enum Pool {
    All,
    Upper,
    Lower,
}

/// What a line is.
#[derive(Clone, Copy, Debug, PartialEq, Eq, Structural)]
pub enum LineKind {
    Lead,
    Bass,
    Mid,
}

/// A line to be drawn: the part it goes to, the notes it is drawn out of, and what it is.
#[derive(Clone, Copy, Debug, PartialEq, Eq, Structural)]
pub struct LineJob {
    pub slot: usize,
    pub pool: Pool,
    pub kind: LineKind,
}

pub open spec fn job(slot: int, pool: Pool, kind: LineKind) -> LineJob {
    LineJob { slot: slot as usize, pool, kind }
}

/// The lines of the first tracks for two hands: in each the right hand, the left, and what
/// lies between.
pub open spec fn hand_jobs(parts: int, n: int) -> Seq<LineJob>
    decreases n,
{
    if n <= 0 {
        Seq::empty()
    } else {
        let first = (n - 1) * parts;
        let before = hand_jobs(parts, n - 1).push(job(first, Pool::Upper, LineKind::Lead)).push(
            job(first + parts - 1, Pool::Lower, LineKind::Bass),
        );
        if parts == 3 {
            before.push(job(first + 1, Pool::All, LineKind::Mid))
        } else {
            before
        }
    }
}

/// A line for each of the first tracks, in one of its parts.
pub open spec fn track_jobs(parts: int, part: int, kind: LineKind, n: int) -> Seq<LineJob>
    decreases n,
{
    if n <= 0 {
        Seq::empty()
    } else {
        track_jobs(parts, part, kind, n - 1).push(job((n - 1) * parts + part, Pool::All, kind))
    }
}

/// The lines that are drawn, in order.
pub open spec fn jobs_of(layout: Layout, tracks: int, parts: int) -> Seq<LineJob> {
    if parts == 1 {
        track_jobs(1, 0, LineKind::Lead, tracks)
    } else if layout == Layout::Hands {
        hand_jobs(parts, tracks)
    } else {
        track_jobs(parts, 0, LineKind::Lead, tracks) + track_jobs(
            parts,
            parts - 1,
            LineKind::Bass,
            tracks,
        )
    }
}

fn push_jobs(list: &mut Vec<LineJob>, parts: usize, part: usize, kind: LineKind, tracks: usize)
    requires
        tracks <= 16,
        parts <= 3,
        part < 3,
    ensures
        final(list)@ == old(list)@ + track_jobs(parts as int, part as int, kind, tracks as int),
{
    let ghost before = list@;
    let mut t: usize = 0;
    proof {
        assert(before + track_jobs(parts as int, part as int, kind, 0) =~= before);
    }
    while t < tracks
        invariant
            t <= tracks <= 16,
            parts <= 3,
            part < 3,
            list@ == before + track_jobs(parts as int, part as int, kind, t as int),
        decreases tracks - t,
    {
        proof {
            assert(0 <= t * parts <= 48) by (nonlinear_arith)
                requires
                    0 <= t <= 16,
                    0 <= parts <= 3,
            ;
        }
        list.push(LineJob { slot: t * parts + part, pool: Pool::All, kind });
        t += 1;
        proof {
            assert(list@ =~= before + track_jobs(parts as int, part as int, kind, t as int));
        }
    }
}

/// Lists the lines that are drawn, in order.
pub fn line_jobs(layout: Layout, tracks: usize, parts: usize) -> (list: Vec<LineJob>)
    requires
        tracks <= 16,
        1 <= parts <= 3,
    ensures
        list@ == jobs_of(layout, tracks as int, parts as int),
{
    let mut list: Vec<LineJob> = Vec::new();
    if parts == 1 {
        push_jobs(&mut list, 1, 0, LineKind::Lead, tracks);
        proof {
            assert(list@ =~= jobs_of(layout, tracks as int, parts as int));
        }
        return list;
    }
    if layout != Layout::Hands {
        push_jobs(&mut list, parts, 0, LineKind::Lead, tracks);
        push_jobs(&mut list, parts, parts - 1, LineKind::Bass, tracks);
        proof {
            assert(list@ =~= jobs_of(layout, tracks as int, parts as int));
        }
        return list;
    }
    let mut t: usize = 0;
    while t < tracks
        invariant
            t <= tracks <= 16,
            2 <= parts <= 3,
            list@ == hand_jobs(parts as int, t as int),
        decreases tracks - t,
    {
        proof {
            assert(0 <= t * parts <= 48) by (nonlinear_arith)
                requires
                    0 <= t <= 16,
                    0 <= parts <= 3,
            ;
        }
        let first: usize = t * parts;
        list.push(LineJob { slot: first, pool: Pool::Upper, kind: LineKind::Lead });
        list.push(LineJob { slot: first + parts - 1, pool: Pool::Lower, kind: LineKind::Bass });
        if parts == 3 {
            list.push(LineJob { slot: first + 1, pool: Pool::All, kind: LineKind::Mid });
        }
        t += 1;
    }
    list
}

pub open spec fn high_first(notes: Seq<WorkingNote>, i: usize) -> Key {
    (-(notes[i as int].note.pitch as i64) as i64, 0i64, 0i64)
}

/// Notes from high to low.
pub open spec fn from_high(notes: Seq<WorkingNote>, ids: Seq<usize>) -> Seq<usize> {
    stable_sort(ids, |i: usize| high_first(notes, i))
}

/// How many notes each of some bands holds, the last perhaps fewer.
pub open spec fn band_size(notes: int, bands: int) -> int {
    (notes + bands - 1) / bands
}

/// One of the bands that notes from high to low are cut into.
pub open spec fn band(sorted: Seq<usize>, bands: int, b: int) -> Seq<usize> {
    let n = sorted.len() as int;
    let per = band_size(n, bands);
    if b * per >= n {
        Seq::empty()
    } else if (b + 1) * per >= n {
        sorted.skip(b * per)
    } else {
        sorted.subrange(b * per, (b + 1) * per)
    }
}

fn sort_high(notes: &Vec<WorkingNote>, ids: &Vec<usize>) -> (r: Vec<usize>)
    requires
        forall|k: int| 0 <= k < ids.len() ==> (#[trigger] ids[k]) < notes.len(),
    ensures
        r@ == from_high(notes@, ids@),
        r.len() == ids.len(),
        forall|k: int| 0 <= k < r.len() ==> (#[trigger] r[k]) < notes.len(),
{
    let mut keys: Vec<Key> = Vec::new();
    let mut i: usize = 0;
    while i < ids.len()
        invariant
            i <= ids.len(),
            keys.len() == i,
            forall|k: int| 0 <= k < ids.len() ==> (#[trigger] ids[k]) < notes.len(),
            forall|k: int| 0 <= k < i ==> #[trigger] keys[k] == high_first(notes@, ids[k]),
        decreases ids.len() - i,
    {
        proof {
            assert(ids[i as int] < notes.len());
        }
        keys.push((-(notes[ids[i]].note.pitch as i64), 0, 0));
        i += 1;
    }
    let sequence = order(&keys);
    let ghost key = |i: usize| high_first(notes@, i);
    let ghost f = |k: usize| ids@[k as int];
    proof {
        lemma_order_sorts(ids@, keys@, key);
        lemma_stable_sort(ids@, key);
    }
    let mut r: Vec<usize> = Vec::new();
    let mut i: usize = 0;
    while i < sequence.len()
        invariant
            i <= sequence.len() == ids.len(),
            f == (|k: usize| ids@[k as int]),
            forall|k: int| 0 <= k < ids.len() ==> (#[trigger] ids[k]) < notes.len(),
            forall|k: int| 0 <= k < sequence.len() ==> (#[trigger] sequence[k]) < ids.len(),
            r@ == sequence@.take(i as int).map_values(f),
            forall|k: int| 0 <= k < r.len() ==> (#[trigger] r[k]) < notes.len(),
        decreases sequence.len() - i,
    {
        let at = sequence[i];
        proof {
            assert(ids[at as int] < notes.len());
        }
        r.push(ids[at]);
        i += 1;
        proof {
            assert(r@ =~= sequence@.take(i as int).map_values(f));
        }
    }
    proof {
        assert(sequence@.take(i as int) =~= sequence@);
    }
    r
}

/// Cuts notes into bands from high to low.
pub fn bands(notes: &Vec<WorkingNote>, rest: &Vec<usize>, count: usize) -> (r: Vec<Vec<usize>>)
    requires
        1 <= count <= 16,
        forall|k: int| 0 <= k < rest.len() ==> (#[trigger] rest[k]) < notes.len(),
    ensures
        r.len() == count,
        forall|b: int|
            0 <= b < count ==> (#[trigger] r[b])@ == band(from_high(notes@, rest@), count as int, b),
        forall|b: int, k: int|
            #![trigger r[b]@[k]]
            0 <= b < count && 0 <= k < r[b].len() ==> r[b]@[k] < notes.len(),
{
    let sorted = sort_high(notes, rest);
    let ghost all = from_high(notes@, rest@);
    let n: u128 = sorted.len() as u128;
    let per: u128 = (n + count as u128 - 1) / count as u128;
    proof {
        assert(per == band_size(n as int, count as int));
        let m = n as int;
        let c = count as int;
        assert(0 <= (m + c - 1) / c <= m) by (nonlinear_arith)
            requires
                m >= 0,
                c >= 1,
        ;
    }
    let mut r: Vec<Vec<usize>> = Vec::new();
    let mut b: usize = 0;
    while b < count
        invariant
            b <= count <= 16,
            all == from_high(notes@, rest@),
            sorted@ == all,
            n == sorted.len(),
            0 <= per <= n,
            per == band_size(n as int, count as int),
            forall|k: int| 0 <= k < sorted.len() ==> (#[trigger] sorted[k]) < notes.len(),
            r.len() == b,
            forall|q: int| 0 <= q < b ==> (#[trigger] r[q])@ == band(all, count as int, q),
            forall|q: int, k: int|
                #![trigger r[q]@[k]]
                0 <= q < b && 0 <= k < r[q].len() ==> r[q]@[k] < notes.len(),
        decreases count - b,
    {
        proof {
            assert(0 <= b * per <= 16 * 0xffff_ffff_ffff_ffff) by (nonlinear_arith)
                requires
                    0 <= b <= 16,
                    0 <= per <= 0xffff_ffff_ffff_ffff,
            ;
            assert((b + 1) * per == b * per + per) by (nonlinear_arith);
        }
        let from: u128 = b as u128 * per;
        let end: u128 = from + per;
        let stop: u128 = if end > n {
            n
        } else {
            end
        };
        let mut one: Vec<usize> = Vec::new();
        let mut k: u128 = from;
        while k < stop
            invariant
                from <= k,
                k <= stop || from > stop,
                from <= stop ==> k <= stop,
                stop <= n == sorted.len(),
                forall|k: int| 0 <= k < sorted.len() ==> (#[trigger] sorted[k]) < notes.len(),
                from <= stop ==> one@ == sorted@.subrange(from as int, k as int),
                from > stop ==> one.len() == 0 && k == from,
                forall|q: int| 0 <= q < one.len() ==> (#[trigger] one[q]) < notes.len(),
            decreases stop - k,
        {
            one.push(sorted[k as usize]);
            k += 1;
            proof {
                assert(one@ =~= sorted@.subrange(from as int, k as int));
            }
        }
        let ghost earlier = r@;
        r.push(one);
        proof {
            if from >= n {
                assert(one@ =~= Seq::<usize>::empty());
            } else if end >= n {
                assert(one@ =~= all.skip(from as int));
            } else {
                assert(one@ =~= all.subrange(from as int, end as int));
            }
            assert(one@ == band(all, count as int, b as int));
            assert forall|q: int, k: int|
                #![trigger r[q]@[k]]
                0 <= q < b + 1 && 0 <= k < r[q].len() implies r[q]@[k] < notes.len() by {
                if q < b {
                    assert(r[q] == earlier[q]);
                    assert(earlier[q]@[k] < notes.len());
                } else {
                    assert(one[k] < notes.len());
                }
            }
        }
        b += 1;
    }
    r
}

/// The first notes of a list without those that are taken.
pub open spec fn untaken(kept: Seq<usize>, taken: Seq<bool>, n: int) -> Seq<usize>
    decreases n,
{
    if n <= 0 {
        Seq::empty()
    } else {
        let before = untaken(kept, taken, n - 1);
        if taken[kept[n - 1] as int] {
            before
        } else {
            before.push(kept[n - 1])
        }
    }
}

fn find_untaken(kept: &Vec<usize>, taken: &Vec<bool>) -> (r: Vec<usize>)
    requires
        forall|k: int| 0 <= k < kept.len() ==> (#[trigger] kept[k]) < taken.len(),
    ensures
        r@ == untaken(kept@, taken@, kept.len() as int),
        forall|k: int| 0 <= k < r.len() ==> (#[trigger] r[k]) < taken.len(),
{
    let mut r: Vec<usize> = Vec::new();
    let mut k: usize = 0;
    while k < kept.len()
        invariant
            k <= kept.len(),
            forall|k: int| 0 <= k < kept.len() ==> (#[trigger] kept[k]) < taken.len(),
            r@ == untaken(kept@, taken@, k as int),
            forall|k: int| 0 <= k < r.len() ==> (#[trigger] r[k]) < taken.len(),
        decreases kept.len() - k,
    {
        let i: usize = kept[k];
        proof {
            assert(kept[k as int] < taken.len());
        }
        if !taken[i] {
            r.push(i);
        }
        k += 1;
    }
    r
}

/// Whether bands go to the middle parts of tracks: to those of three parts, unless these are
/// two hands.
pub open spec fn takes_bands(layout: Layout, parts: int) -> bool {
    layout != Layout::Hands && parts == 3
}

/// Gives bands to the middle parts of the tracks, one to each, where there are such parts.
pub fn fill_bands(lines: &mut Vec<Vec<usize>>, bands: &Vec<Vec<usize>>, layout: Layout, parts: usize)
    requires
        old(lines).len() == bands.len() * parts,
    ensures
        final(lines).len() == old(lines).len(),
        forall|track: int|
            takes_bands(layout, parts as int) && 0 <= track < bands.len() ==> final(lines)[track
                * parts + 1]@ == (#[trigger] bands[track])@,
        forall|s: int|
            0 <= s < old(lines).len() && !(takes_bands(layout, parts as int) && s % 3 == 1)
                ==> #[trigger] final(lines)[s] == old(lines)[s],
{
    if layout == Layout::Hands || parts != 3 {
        return;
    }
    let ghost before = lines@;
    let mut track: usize = 0;
    while track < bands.len()
        invariant
            track <= bands.len(),
            before.len() == bands.len() * 3,
            lines.len() == before.len(),
            forall|t: int| 0 <= t < track ==> lines[t * 3 + 1]@ == (#[trigger] bands[t])@,
            forall|s: int|
                0 <= s < before.len() && (s % 3 != 1 || s >= track * 3) ==> #[trigger] lines[s]
                    == before[s],
        decreases bands.len() - track,
    {
        let one = copy_ids(&bands[track]);
        let at: usize = track * 3 + 1;
        lines.set(at, one);
        track += 1;
    }
}

/// Cuts the notes that no line has taken into bands from high to low, and gives these to the
/// middle parts of the tracks, where there are such parts.
pub fn place_rest(
    notes: &Vec<WorkingNote>,
    kept: &Vec<usize>,
    taken: &Vec<bool>,
    lines: &mut Vec<Vec<usize>>,
    layout: Layout,
    tracks: usize,
    parts: usize,
)
    requires
        1 <= tracks <= 16,
        taken.len() == notes.len(),
        forall|k: int| 0 <= k < kept.len() ==> (#[trigger] kept[k]) < notes.len(),
        old(lines).len() == tracks * parts,
    ensures
        final(lines).len() == old(lines).len(),
        forall|track: int|
            takes_bands(layout, parts as int) && 0 <= track < tracks ==> (#[trigger] final(lines)[track
                * 3 + 1])@ == band(
                from_high(notes@, untaken(kept@, taken@, kept.len() as int)),
                tracks as int,
                track,
            ),
        forall|s: int|
            0 <= s < old(lines).len() && !(takes_bands(layout, parts as int) && s % 3 == 1)
                ==> #[trigger] final(lines)[s] == old(lines)[s],
        is_within(notes.len() as nat, parts_of(old(lines)@)) ==> is_within(
            notes.len() as nat,
            parts_of(final(lines)@),
        ),
{
    if layout == Layout::Hands || parts != 3 {
        return;
    }
    let rest = find_untaken(kept, taken);
    let list = bands(notes, &rest, tracks);
    let ghost before = lines@;
    fill_bands(lines, &list, layout, parts);
    proof {
        assert forall|track: int| 0 <= track < tracks implies (#[trigger] lines[track * 3 + 1])@
            == band(
            from_high(notes@, untaken(kept@, taken@, kept.len() as int)),
            tracks as int,
            track,
        ) by {
            assert(lines[track * parts + 1]@ == list[track]@);
        }
        if is_within(notes.len() as nat, parts_of(before)) {
            let new = parts_of(lines@);
            assert forall|s: int, k: int|
                #![trigger new[s][k]]
                0 <= s < new.len() && 0 <= k < new[s].len() implies new[s][k] < notes.len() by {
                if s % 3 == 1 {
                    let track = s / 3;
                    assert(s == track * 3 + 1);
                    assert(lines[track * parts + 1]@ == list[track]@);
                    assert(list[track]@[k] < notes.len());
                } else {
                    assert(lines[s] == before[s]);
                    assert(parts_of(before)[s][k] < notes.len());
                }
            }
        }
    }
}

/// How far a pitch is from the middle of a part, times the number of pitches that the middle
/// is taken of.
pub open spec fn offset_of(c: Centre, pitch: int) -> int {
    distance(c.sum as int, pitch * c.len)
}

/// The part from a place on whose middle is nearest to a pitch; of several the first.
pub open spec fn nearest_centre(centres: Seq<Centre>, pitch: int, from: int, n: int) -> int
    decreases n - from,
{
    if n <= from + 1 {
        from
    } else {
        let before = nearest_centre(centres, pitch, from, n - 1);
        if offset_of(centres[n - 1], pitch) * centres[before].len < offset_of(
            centres[before],
            pitch,
        ) * centres[n - 1].len {
            n - 1
        } else {
            before
        }
    }
}

fn offset(c: &Centre, pitch: i32) -> (r: i128)
    requires
        is_centre(*c),
    ensures
        r == offset_of(*c, pitch as int),
        0 <= r,
{
    let sum: i128 = c.sum;
    let len: i128 = c.len as i128;
    let p: i128 = pitch as i128;
    proof {
        assert(-len * 0x8000_0000 <= p * len <= len * 0x8000_0000) by (nonlinear_arith)
            requires
                len >= 1,
                -0x8000_0000 <= p <= 0x8000_0000,
        ;
    }
    let middle: i128 = p * len;
    if sum < middle {
        middle - sum
    } else {
        sum - middle
    }
}

fn find_centre(centres: &Vec<Centre>, pitch: i32, from: usize) -> (r: usize)
    requires
        from < centres.len(),
        forall|s: int| 0 <= s < centres.len() ==> is_centre(#[trigger] centres[s]),
    ensures
        r == nearest_centre(centres@, pitch as int, from as int, centres.len() as int),
        r < centres.len(),
{
    let mut best: usize = from;
    let mut k: usize = from + 1;
    while k < centres.len()
        invariant
            from < k <= centres.len(),
            best < centres.len(),
            forall|s: int| 0 <= s < centres.len() ==> is_centre(#[trigger] centres[s]),
            best == nearest_centre(centres@, pitch as int, from as int, k as int),
        decreases centres.len() - k,
    {
        let a = offset(&centres[k], pitch);
        let b = offset(&centres[best], pitch);
        proof {
            assert(is_centre(centres[k as int]));
            assert(is_centre(centres[best as int]));
        }
        if less_ratio(a as u128, centres[k].len, b as u128, centres[best].len) {
            best = k;
        }
        k += 1;
    }
    best
}

/// The first part that notes without a line may go to.
pub open spec fn spare_from(layout: Layout, tracks: int, parts: int) -> int {
    if layout == Layout::Hands && tracks > 1 {
        parts
    } else {
        0
    }
}

/// Where a note belongs: in the part of the line that it is on, or else in the one whose
/// middle is nearest.
pub open spec fn musical_home(
    notes: Seq<Note>,
    lines: Seq<Seq<usize>>,
    centres: Seq<Centre>,
    kept: Seq<usize>,
    spare: int,
    i: usize,
) -> Option<usize> {
    match part_holding(lines, i, lines.len() as int) {
        Some(slot) => Some(slot),
        None => if kept.contains(i) {
            Some(
                nearest_centre(
                    centres,
                    notes[i as int].pitch as int,
                    spare,
                    centres.len() as int,
                ) as usize,
            )
        } else {
            None
        },
    }
}

/// Tells where notes belong, from the lines that were drawn.
#[verifier::rlimit(40)]
pub fn musical_homes(
    notes: &Vec<Note>,
    kept: &Vec<usize>,
    lines: &Vec<Vec<usize>>,
    layout: Layout,
    tracks: usize,
    parts: usize,
) -> (homes: Homes)
    requires
        1 <= tracks <= 16,
        1 <= parts <= 3,
        lines.len() == tracks * parts,
        forall|k: int| 0 <= k < kept.len() ==> (#[trigger] kept[k]) < notes.len(),
        forall|s: int, k: int|
            #![trigger lines[s]@[k]]
            0 <= s < lines.len() && 0 <= k < lines[s].len() ==> lines[s]@[k] < notes.len(),
    ensures
        homes.home.len() == notes.len(),
        homes.centre.len() == lines.len(),
        forall|s: int|
            0 <= s < lines.len() ==> is_mean(#[trigger] homes.centre[s], notes@, lines[s]@)
                && is_centre(homes.centre[s]),
        forall|i: int|
            0 <= i < notes.len() ==> #[trigger] homes.home[i] == musical_home(
                notes@,
                parts_of(lines@),
                homes.centre@,
                kept@,
                spare_from(layout, tracks as int, parts as int),
                i as usize,
            ),
        homes.primary_lead@ == (if layout == Layout::Roles {
            lines[0]@
        } else {
            Seq::<usize>::empty()
        }),
{
    let base = slot_homes(notes, lines);
    let centre = base.centre;
    let mut home = base.home;
    let ghost first = home@;
    let spare: usize = if layout == Layout::Hands && tracks > 1 {
        parts
    } else {
        0
    };
    proof {
        assert(tracks > 1 ==> tracks * parts >= 2 * parts) by (nonlinear_arith)
            requires
                tracks >= 1,
                parts >= 1,
        ;
        assert(tracks * parts >= 1) by (nonlinear_arith)
            requires
                tracks >= 1,
                parts >= 1,
        ;
    }
    let mut k: usize = 0;
    while k < kept.len()
        invariant
            k <= kept.len(),
            home.len() == notes.len(),
            first.len() == notes.len(),
            spare < centre.len(),
            forall|s: int| 0 <= s < centre.len() ==> is_centre(#[trigger] centre[s]),
            forall|k: int| 0 <= k < kept.len() ==> (#[trigger] kept[k]) < notes.len(),
            forall|i: int|
                0 <= i < notes.len() ==> #[trigger] home[i] == (match first[i] {
                    Some(slot) => Some(slot),
                    None => if kept@.take(k as int).contains(i as usize) {
                        Some(
                            nearest_centre(
                                centre@,
                                notes@[i].pitch as int,
                                spare as int,
                                centre@.len() as int,
                            ) as usize,
                        )
                    } else {
                        None
                    },
                }),
        decreases kept.len() - k,
    {
        let i = kept[k];
        let ghost before = home@;
        proof {
            assert(kept[k as int] < notes.len());
        }
        if home[i].is_none() {
            let slot = find_centre(&centre, notes[i].pitch, spare);
            home.set(i, Some(slot));
        }
        proof {
            let short = kept@.take(k as int);
            let long = kept@.take(k + 1);
            assert forall|j: int| 0 <= j < notes.len() implies #[trigger] home[j] == (
            match first[j] {
                Some(slot) => Some(slot),
                None => if long.contains(j as usize) {
                    Some(
                        nearest_centre(
                            centre@,
                            notes@[j].pitch as int,
                            spare as int,
                            centre@.len() as int,
                        ) as usize,
                    )
                } else {
                    None
                },
            }) by {
                if short.contains(j as usize) {
                    let q = choose|q: int| 0 <= q < short.len() && short[q] == j as usize;
                    assert(long[q] == j as usize);
                }
                if j == i {
                    assert(long[k as int] == j as usize);
                }
                if long.contains(j as usize) {
                    let q = choose|q: int| 0 <= q < long.len() && long[q] == j as usize;
                    if q < k {
                        assert(short[q] == j as usize);
                    }
                }
                assert(before[j] == (match first[j] {
                    Some(slot) => Some(slot),
                    None => if short.contains(j as usize) {
                        Some(
                            nearest_centre(
                                centre@,
                                notes@[j].pitch as int,
                                spare as int,
                                centre@.len() as int,
                            ) as usize,
                        )
                    } else {
                        None
                    },
                }));
            }
        }
        k += 1;
    }
    proof {
        assert(kept@.take(k as int) =~= kept@);
    }
    let primary_lead: Vec<usize> = if layout == Layout::Roles {
        copy_ids(&lines[0])
    } else {
        Vec::new()
    };
    proof {
        if layout != Layout::Roles {
            assert(primary_lead@ =~= Seq::<usize>::empty());
        }
    }
    Homes { home, centre, primary_lead }
}

/// What the track that a note comes from is called: its name, or its number.
pub open spec fn track_name(score: ScoreView, track: int) -> Seq<char> {
    if track < score.tracks.len() {
        match entry_of(score.tracks[track].meta, "name"@) {
            Some(name) => name,
            None => number_text(track),
        }
    } else {
        number_text(track)
    }
}

/// The different names of the tracks that the first notes come from, in order, with the
/// notes of each.
pub open spec fn named_groups(
    notes: Seq<WorkingNote>,
    kept: Seq<usize>,
    score: ScoreView,
    n: int,
) -> Seq<(Seq<char>, Seq<usize>)>
    decreases n,
{
    if n <= 0 {
        Seq::empty()
    } else {
        let i = kept[n - 1];
        with_member(
            named_groups(notes, kept, score, n - 1),
            track_name(score, notes[i as int].note.src.0 as int),
            i,
        )
    }
}

/// Groups with one more member of the one with a name.
pub open spec fn with_member(groups: Seq<(Seq<char>, Seq<usize>)>, name: Seq<char>, i: usize) -> Seq<
    (Seq<char>, Seq<usize>),
>
    decreases groups.len(),
{
    if groups.len() == 0 {
        seq![(name, seq![i])]
    } else if groups[0].0 == name {
        seq![(name, groups[0].1.push(i))] + groups.skip(1)
    } else {
        seq![groups[0]] + with_member(groups.skip(1), name, i)
    }
}

fn name_of_track(score: &Score, track: usize) -> (name: Vec<char>)
    ensures
        name@ == track_name(score@, track as int),
{
    if track < score.tracks.len() {
        match score.tracks[track].meta.get("name") {
            Some(name) => return chars_of(name.as_str()),
            None => {},
        }
    }
    let mut name: Vec<char> = Vec::new();
    push_count(&mut name, track as u128);
    proof {
        assert(name@ =~= number_text(track as int));
    }
    name
}

pub open spec fn pair_views(names: Seq<Vec<char>>, groups: Seq<Vec<usize>>) -> Seq<
    (Seq<char>, Seq<usize>),
> {
    Seq::new(names.len(), |i: int| (names[i]@, groups[i]@))
}

proof fn lemma_with_member(groups: Seq<(Seq<char>, Seq<usize>)>, name: Seq<char>, i: usize, k: int)
    requires
        0 <= k <= groups.len(),
        forall|j: int| 0 <= j < k ==> (#[trigger] groups[j]).0 != name,
    ensures
        k == groups.len() ==> with_member(groups, name, i) == groups.push((name, seq![i])),
        k < groups.len() && groups[k].0 == name ==> with_member(groups, name, i) == groups.update(
            k,
            (name, groups[k].1.push(i)),
        ),
    decreases k,
{
    if k > 0 {
        let rest = groups.skip(1);
        assert forall|j: int| 0 <= j < k - 1 implies (#[trigger] rest[j]).0 != name by {
            assert(rest[j] == groups[j + 1]);
        }
        assert(groups[0].0 != name);
        lemma_with_member(rest, name, i, k - 1);
        if k == groups.len() {
            assert(seq![groups[0]] + rest.push((name, seq![i])) =~= groups.push((name, seq![i])));
        } else if groups[k].0 == name {
            assert(rest[k - 1] == groups[k]);
            assert(seq![groups[0]] + rest.update(k - 1, (name, groups[k].1.push(i)))
                =~= groups.update(k, (name, groups[k].1.push(i))));
        }
    } else if groups.len() > 0 {
        if groups[0].0 == name {
            assert(seq![(name, groups[0].1.push(i))] + groups.skip(1) =~= groups.update(
                0,
                (name, groups[0].1.push(i)),
            ));
        }
    } else {
        assert(seq![(name, seq![i])] =~= groups.push((name, seq![i])));
    }
}

/// Groups notes by the names of the tracks that they come from.
#[verifier::rlimit(40)]
pub fn group_by_track(notes: &Vec<WorkingNote>, kept: &Vec<usize>, score: &Score) -> (groups: Vec<Vec<usize>>)
    requires
        forall|k: int| 0 <= k < kept.len() ==> (#[trigger] kept[k]) < notes.len(),
    ensures
        slot_lists(groups@) == group_lists(named_groups(notes@, kept@, score@, kept.len() as int)),
        forall|s: int, k: int|
            #![trigger groups[s]@[k]]
            0 <= s < groups.len() && 0 <= k < groups[s].len() ==> groups[s]@[k] < notes.len(),
        forall|s: int| 0 <= s < groups.len() ==> (#[trigger] groups[s]).len() <= kept.len(),
{
    let mut names: Vec<Vec<char>> = Vec::new();
    let mut groups: Vec<Vec<usize>> = Vec::new();
    let mut n: usize = 0;
    proof {
        assert(pair_views(names@, groups@) =~= Seq::<(Seq<char>, Seq<usize>)>::empty());
    }
    while n < kept.len()
        invariant
            n <= kept.len(),
            names.len() == groups.len(),
            forall|k: int| 0 <= k < kept.len() ==> (#[trigger] kept[k]) < notes.len(),
            pair_views(names@, groups@) == named_groups(notes@, kept@, score@, n as int),
            forall|s: int, k: int|
                #![trigger groups[s]@[k]]
                0 <= s < groups.len() && 0 <= k < groups[s].len() ==> groups[s]@[k] < notes.len(),
            forall|s: int| 0 <= s < groups.len() ==> (#[trigger] groups[s]).len() <= n,
        decreases kept.len() - n,
    {
        let i = kept[n];
        proof {
            assert(kept[n as int] < notes.len());
        }
        let name = name_of_track(score, notes[i].note.src.0);
        let ghost before = pair_views(names@, groups@);
        let ghost old_groups = groups@;
        let mut k: usize = 0;
        while k < names.len() && !same_chars(&names[k], &name)
            invariant
                k <= names.len(),
                before == pair_views(names@, groups@),
                names.len() == groups.len(),
                forall|j: int| 0 <= j < k ==> (#[trigger] before[j]).0 != name@,
            decreases names.len() - k,
        {
            proof {
                assert(before[k as int].0 == names[k as int]@);
            }
            k += 1;
        }
        proof {
            lemma_with_member(before, name@, i, k as int);
            if k < names.len() {
                assert(before[k as int].0 == names[k as int]@);
            }
        }
        if k < names.len() {
            groups[k].push(i);
            proof {
                assert(pair_views(names@, groups@) =~= before.update(
                    k as int,
                    (name@, before[k as int].1.push(i)),
                ));
            }
        } else {
            let mut one: Vec<usize> = Vec::new();
            one.push(i);
            let ghost label = name@;
            names.push(name);
            groups.push(one);
            proof {
                assert(one@ =~= seq![i]);
                assert(pair_views(names@, groups@) =~= before.push((label, seq![i])));
            }
        }
        proof {
            assert forall|s: int, q: int|
                #![trigger groups[s]@[q]]
                0 <= s < groups.len() && 0 <= q < groups[s].len() implies groups[s]@[q]
                < notes.len() by {
                if s < old_groups.len() && q < old_groups[s].len() {
                    assert(groups[s]@[q] == old_groups[s]@[q]);
                    assert(old_groups[s]@[q] < notes.len());
                } else {
                    assert(groups[s]@[q] == i);
                }
            }
            assert forall|s: int| 0 <= s < groups.len() implies (#[trigger] groups[s]).len() <= n
                + 1 by {
                if s < old_groups.len() {
                    assert(old_groups[s].len() <= n);
                }
            }
        }
        n += 1;
    }
    proof {
        assert(slot_lists(groups@) =~= group_lists(pair_views(names@, groups@)));
    }
    groups
}

pub open spec fn group_lists(groups: Seq<(Seq<char>, Seq<usize>)>) -> Seq<Seq<usize>> {
    Seq::new(groups.len(), |i: int| groups[i].1)
}

/// The pitch in the middle of those of some notes.
pub open spec fn middle_pitch(notes: Seq<WorkingNote>, kept: Seq<usize>) -> i32 {
    let sorted = from_high(notes, kept);
    notes[sorted[(kept.len() - 1) / 2] as int].note.pitch
}

/// How many of the groups from high to low are the right hand's.
pub open spec fn upper_count(groups: int) -> int {
    if groups / 2 > 1 {
        groups / 2
    } else {
        1
    }
}

/// Whether a note is the right hand's: of one of the higher groups, or where there is one
/// group only not below the pitch in the middle.
pub open spec fn is_upper(notes: Seq<WorkingNote>, kept: Seq<usize>, groups: Seq<Seq<usize>>, i: usize) -> bool {
    if groups.len() < 2 {
        notes[i as int].note.pitch >= middle_pitch(notes, kept)
    } else {
        exists|r: int|
            0 <= r < upper_count(groups.len() as int) && groups[#[trigger] ranked(
                notes,
                groups,
                groups.len() as int,
            )[r] as int].contains(i)
    }
}

/// Of the first notes those that are the right hand's, or those that are not.
pub open spec fn hand(notes: Seq<WorkingNote>, kept: Seq<usize>, groups: Seq<Seq<usize>>, upper: bool, n: int) -> Seq<usize>
    decreases n,
{
    if n <= 0 {
        Seq::empty()
    } else if is_upper(notes, kept, groups, kept[n - 1]) == upper {
        hand(notes, kept, groups, upper, n - 1).push(kept[n - 1])
    } else {
        hand(notes, kept, groups, upper, n - 1)
    }
}

/// Parts notes between the right hand and the left: by the tracks that they come from, from
/// high to low, or where all come from one by their pitch.
#[verifier::rlimit(60)]
pub fn split_hands(notes: &Vec<WorkingNote>, kept: &Vec<usize>, score: &Score) -> (r: (Vec<usize>, Vec<usize>))
    requires
        forall|k: int| 0 <= k < kept.len() ==> (#[trigger] kept[k]) < notes.len(),
    ensures
        ({
            let groups = group_lists(named_groups(notes@, kept@, score@, kept.len() as int));
            &&& r.0@ == hand(notes@, kept@, groups, true, kept.len() as int)
            &&& r.1@ == hand(notes@, kept@, groups, false, kept.len() as int)
        }),
        forall|k: int| 0 <= k < r.0.len() ==> (#[trigger] r.0[k]) < notes.len(),
        forall|k: int| 0 <= k < r.1.len() ==> (#[trigger] r.1[k]) < notes.len(),
{
    if kept.len() == 0 {
        return (Vec::new(), Vec::new());
    }
    let groups = group_by_track(notes, kept, score);
    let ghost all = slot_lists(groups@);
    proof {
        assert(are_slots(notes@, all)) by {
            assert forall|s: int, k: int|
                #![trigger all[s][k]]
                0 <= s < all.len() && 0 <= k < all[s].len() implies all[s][k] < notes.len() by {
                assert(groups[s]@[k] < notes.len());
            }
        }
    }
    let single = groups.len() < 2;
    let sorted = sort_high(notes, kept);
    let median: i32 = notes[sorted[(kept.len() - 1) / 2]].note.pitch;
    let rank = order_slots(notes, &groups, Layout::Voices);
    let many: usize = if groups.len() / 2 > 1 {
        groups.len() / 2
    } else {
        1
    };
    let mut right: Vec<usize> = Vec::new();
    let mut left: Vec<usize> = Vec::new();
    let mut k: usize = 0;
    while k < kept.len()
        invariant
            k <= kept.len(),
            all == slot_lists(groups@),
            single == (groups.len() < 2),
            median == middle_pitch(notes@, kept@),
            rank@ == ranked(notes@, all, all.len() as int),
            rank.len() == groups.len(),
            forall|q: int| 0 <= q < rank.len() ==> (#[trigger] rank[q]) < groups.len(),
            many == upper_count(groups.len() as int),
            forall|k: int| 0 <= k < kept.len() ==> (#[trigger] kept[k]) < notes.len(),
            right@ == hand(notes@, kept@, all, true, k as int),
            left@ == hand(notes@, kept@, all, false, k as int),
            forall|k: int| 0 <= k < right.len() ==> (#[trigger] right[k]) < notes.len(),
            forall|k: int| 0 <= k < left.len() ==> (#[trigger] left[k]) < notes.len(),
        decreases kept.len() - k,
    {
        let i = kept[k];
        proof {
            assert(kept[k as int] < notes.len());
        }
        let upper: bool = if single {
            notes[i].note.pitch >= median
        } else {
            among(&groups, &rank, many, i)
        };
        if upper {
            right.push(i);
        } else {
            left.push(i);
        }
        k += 1;
    }
    (right, left)
}

/// Whether a note is in one of the first groups of a ranking.
fn among(groups: &Vec<Vec<usize>>, rank: &Vec<usize>, many: usize, i: usize) -> (r: bool)
    requires
        many <= rank.len(),
        forall|q: int| 0 <= q < rank.len() ==> (#[trigger] rank[q]) < groups.len(),
    ensures
        r == (exists|q: int|
            0 <= q < many && slot_lists(groups@)[#[trigger] rank@[q] as int].contains(i)),
{
    let ghost all = slot_lists(groups@);
    let mut q: usize = 0;
    while q < many
        invariant
            q <= many <= rank.len(),
            all == slot_lists(groups@),
            forall|q: int| 0 <= q < rank.len() ==> (#[trigger] rank[q]) < groups.len(),
            forall|p: int| 0 <= p < q ==> !all[#[trigger] rank@[p] as int].contains(i),
        decreases many - q,
    {
        let g = rank[q];
        proof {
            assert(rank[q as int] < groups.len());
        }
        let group = &groups[g];
        let mut k: usize = 0;
        while k < group.len()
            invariant
                k <= group.len(),
                g < groups.len(),
                group@ == groups@[g as int]@,
                q < many <= rank.len(),
                g == rank@[q as int],
                all == slot_lists(groups@),
                forall|j: int| 0 <= j < k ==> #[trigger] group[j] != i,
            decreases group.len() - k,
        {
            if group[k] == i {
                proof {
                    assert(all[g as int][k as int] == i);
                    assert(all[rank@[q as int] as int].contains(i));
                }
                return true;
            }
            k += 1;
        }
        proof {
            assert(!all[g as int].contains(i));
        }
        q += 1;
    }
    false
}

} // verus!
