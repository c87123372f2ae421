//! The report on an arrangement.
use crate::bars::{bar_from, bar_map, bar_of, from_start, is_metric, meters_of, Meter};
use crate::encode::{Ensemble, is_ensemble, slot_lists};
use crate::fold::{find_loudest, loudest, FoldStats, Gain, Layout, WorkingNote};
use crate::order::{lemma_order_sorts, order, stable_sort, Key};
use crate::score::Tick;
use crate::text::{number_text, padded_back, padded_front, push_count, push_number, push_padded, push_text, string_of, string_views};
use vstd::prelude::*;

verus! {

/// What a part is for.
pub open spec fn role_of(layout: Layout, parts: int, slot: int) -> Seq<char> {
    let part = slot % parts;
    if parts == 1 {
        "lead"@
    } else if part == 0 {
        if layout == Layout::Hands {
            "right"@
        } else {
            "lead"@
        }
    } else if part == parts - 1 {
        if layout == Layout::Hands {
            "left"@
        } else {
            "bass"@
        }
    } else {
        "inner"@
    }
}

/// Tells what a part is for.
pub fn role(layout: Layout, parts: usize, slot: usize) -> (r: &'static str)
    requires
        parts > 0,
    ensures
        r@ == role_of(layout, parts as int, slot as int),
{
    let part = slot % parts;
    if parts == 1 {
        "lead"
    } else if part == 0 {
        if layout == Layout::Hands {
            "right"
        } else {
            "lead"
        }
    } else if part == parts - 1 {
        if layout == Layout::Hands {
            "left"
        } else {
            "bass"
        }
    } else {
        "inner"
    }
}

/// Whether parts have roles in a layout.
pub open spec fn has_roles(layout: Layout) -> bool {
    layout == Layout::Hands || layout == Layout::Roles
}

/// A number with its sign, also where it is positive.
pub open spec fn signed_text(n: int) -> Seq<char> {
    if n < 0 {
        number_text(n)
    } else {
        "+"@ + number_text(n)
    }
}

/// The lowest of the first pitches of a part; of none nought.
pub open spec fn lowest_pitch(notes: Seq<WorkingNote>, ids: Seq<usize>, n: int) -> i32
    decreases n,
{
    if n <= 0 {
        0
    } else if n == 1 || notes[ids[n - 1] as int].note.pitch < lowest_pitch(notes, ids, n - 1) {
        notes[ids[n - 1] as int].note.pitch
    } else {
        lowest_pitch(notes, ids, n - 1)
    }
}

/// The highest of the first pitches of a part; of none nought.
pub open spec fn highest_pitch(notes: Seq<WorkingNote>, ids: Seq<usize>, n: int) -> i32
    decreases n,
{
    if n <= 0 {
        0
    } else if n == 1 || notes[ids[n - 1] as int].note.pitch > highest_pitch(notes, ids, n - 1) {
        notes[ids[n - 1] as int].note.pitch
    } else {
        highest_pitch(notes, ids, n - 1)
    }
}

/// The lines on what became of the notes.
pub open spec fn counts_text(stats: FoldStats, percent: Seq<char>) -> Seq<char> {
    Seq::<char>::empty() + "notes in  : "@ + number_text(stats.total as int) + "\nkept      : "@
        + number_text(stats.kept as int) + "\ntruncated : "@ + number_text(stats.truncated as int)
        + "  (attack kept, tail shortened)\ndropped   : "@ + number_text(stats.dropped as int)
        + "\nvoice spill: "@ + number_text(stats.spill as int) + " notes ("@ + percent
        + "%) used another slot for continuity or polyphony"@
}

/// The lines on how the notes were placed.
pub open spec fn with_placement(text: Seq<char>, layout: Layout, exact: bool, attack: bool) -> Seq<char> {
    let first = if !exact {
        text
    } else if layout == Layout::Learned {
        text + "\nplacement : alternate part packing to preserve exact MML timing"@
    } else {
        text + "\nplacement : original interval packing to preserve exact MML timing"@
    };
    if attack {
        first + "\ncore attacks: exact-tick fallback retained complete intervals"@
    } else if layout == Layout::Learned {
        first + "\ncore attacks: long sounding tails yield to new notes; attacks unchanged"@
    } else {
        first
    }
}

/// What happened to the range of volumes.
pub open spec fn dynamics_text(text: Seq<char>, clipped: int, ranged: bool) -> Seq<char> {
    if clipped == 0 && ranged {
        text + "no shift clipping"@
    } else if clipped == 0 {
        text + "dynamic range unchanged"@
    } else {
        text + number_text(clipped) + " notes clipped to v0..v15"@
    }
}

/// The lines on the volume.
pub open spec fn with_volume(
    text: Seq<char>,
    e: Ensemble,
    gain: Gain,
    shift: int,
    top: Option<i32>,
    clipped: int,
) -> Seq<char> {
    let first = if gain == Gain::Unchanged {
        text
    } else {
        match top {
            None => text + "\nvolume shift: +0  (no notes)"@,
            Some(v) => dynamics_text(
                text + "\nvolume shift: "@ + signed_text(shift) + (if e.volume_range is Some {
                    "  (loudest note before DR v"@
                } else {
                    "  (loudest note now v"@
                }) + number_text(v as int) + ", "@,
                clipped,
                e.volume_range is Some,
            ) + ")"@,
        }
    };
    let second = match e.volume_range {
        None => first,
        Some(range) => first + "\nvolume DR : v1..v15 -> v"@ + number_text(range.min as int)
            + "..v"@ + number_text(range.max as int) + " (after shift; v0 unchanged)"@,
    };
    second + "\nlayout    : "@ + e.layout.label()
}

/// How many of the first notes of the melody are in a part.
pub open spec fn anchored(part: Seq<usize>, lead: Seq<usize>, n: int) -> int
    decreases n,
{
    if n <= 0 {
        0
    } else {
        anchored(part, lead, n - 1) + (if part.contains(lead[n - 1]) {
            1int
        } else {
            0int
        })
    }
}

/// The line on the melody, where there is one that is kept together.
pub open spec fn with_lead(text: Seq<char>, part: Seq<usize>, lead: Option<Seq<usize>>) -> Seq<char> {
    match lead {
        None => text,
        Some(notes) => {
            let n = notes.len() as int;
            let found = anchored(part, notes, n);
            text + "\nprimary lead: "@ + number_text(found) + "/"@ + number_text(n)
                + " notes in track1 part1 ("@ + number_text(n - found) + " role spills)"@
        },
    }
}

/// The line on a part.
pub open spec fn with_part_line(
    text: Seq<char>,
    notes: Seq<WorkingNote>,
    ids: Seq<usize>,
    layout: Layout,
    parts: int,
    at: int,
    slot: int,
    mean: Seq<char>,
) -> Seq<char> {
    let n = ids.len() as int;
    let line = text + "\ntrack"@ + number_text(at / parts + 1) + " part"@ + number_text(at % parts)
        + ": "@ + padded_front(number_text(n), 5, ' ') + " notes, pitch "@ + number_text(
        lowest_pitch(notes, ids, n) as int,
    ) + ".."@ + number_text(highest_pitch(notes, ids, n) as int) + ", mean "@ + mean;
    if has_roles(layout) {
        line + "  ["@ + role_of(layout, parts, slot) + "]"@
    } else {
        line
    }
}

/// The lines on the first parts.
pub open spec fn with_parts(
    text: Seq<char>,
    notes: Seq<WorkingNote>,
    slots: Seq<Seq<usize>>,
    sequence: Seq<usize>,
    layout: Layout,
    parts: int,
    means: Seq<Seq<char>>,
    n: int,
) -> Seq<char>
    decreases n,
{
    if n <= 0 {
        text
    } else {
        with_part_line(
            with_parts(text, notes, slots, sequence, layout, parts, means, n - 1),
            notes,
            slots[sequence[n - 1] as int],
            layout,
            parts,
            n - 1,
            sequence[n - 1] as int,
            means[n - 1],
        )
    }
}

/// Bars with one more note lost in one of them.
pub open spec fn with_loss(lost: Seq<(Tick, usize)>, bar: Tick) -> Seq<(Tick, usize)>
    decreases lost.len(),
{
    if lost.len() == 0 {
        seq![(bar, 1usize)]
    } else if lost[0].0 == bar {
        seq![(bar, (lost[0].1 + 1) as usize)] + lost.skip(1)
    } else {
        seq![lost[0]] + with_loss(lost.skip(1), bar)
    }
}

/// The bars in which notes were lost among the first ones, in the order in which they come
/// up, with how many.
pub open spec fn lost_in(notes: Seq<WorkingNote>, meters: Seq<Meter>, n: int) -> Seq<(Tick, usize)>
    decreases n,
{
    if n <= 0 {
        Seq::empty()
    } else {
        let before = lost_in(notes, meters, n - 1);
        let note = notes[n - 1].note;
        if note.off - note.on < 6 {
            with_loss(before, bar_from(note.on as int, meters, 0, 1) as Tick)
        } else {
            before
        }
    }
}

/// Bars, those with the most notes lost first.
pub open spec fn by_loss(lost: Seq<(Tick, usize)>) -> Seq<(Tick, usize)> {
    stable_sort(lost, |l: (Tick, usize)| loss_key(l))
}

pub open spec fn loss_key(l: (Tick, usize)) -> Key {
    (-(l.1 as int) as i64, 0i64, 0i64)
}

/// The lines on the first bars in which notes were lost.
pub open spec fn loss_lines(text: Seq<char>, bars: Seq<(Tick, usize)>, n: int) -> Seq<char>
    decreases n,
{
    if n <= 0 {
        text
    } else {
        loss_lines(text, bars, n - 1) + "\n   bar "@ + padded_back(
            number_text(bars[n - 1].0 as int),
            5,
        ) + " "@ + number_text(bars[n - 1].1 as int) + " notes"@
    }
}

/// The lines on bars in which notes were lost.
pub open spec fn with_losses(text: Seq<char>, lost: Seq<(Tick, usize)>) -> Seq<char> {
    if lost.len() == 0 {
        text
    } else {
        loss_lines(
            text + "\n\nbars where most notes were removed (listen here first):"@,
            by_loss(lost),
            if lost.len() < 15 {
                lost.len() as int
            } else {
                15
            },
        ) + "\nbars touched at all: "@ + number_text(lost.len() as int)
    }
}

/// What a report is made of. The share of the notes that strayed and the means of the parts
/// come as they are written.
pub struct Findings<'a> {
    pub notes: &'a Vec<WorkingNote>,
    pub kept: &'a Vec<usize>,
    pub slots: &'a Vec<Vec<usize>>,
    pub sequence: &'a Vec<usize>,
    pub stats: FoldStats,
    pub ensemble: Ensemble,
    pub gain: Gain,
    pub clipped: usize,
    pub exact_fallback: bool,
    pub attack_fallback: bool,
    pub lead: Option<&'a Vec<usize>>,
    pub percent: &'a str,
    pub means: &'a Vec<String>,
    pub tail: &'a Vec<String>,
}

pub open spec fn lead_view(lead: Option<&Vec<usize>>) -> Option<Seq<usize>> {
    match lead {
        None => None,
        Some(list) => Some(list@),
    }
}

/// The report on an arrangement.
pub open spec fn report_of(f: Findings) -> Seq<char> {
    let notes = f.notes@;
    let slots = slot_lists(f.slots@);
    let n = f.kept@.len() as int;
    let first = with_placement(
        counts_text(f.stats, f.percent@),
        f.ensemble.layout,
        f.exact_fallback,
        f.attack_fallback,
    );
    let top = if n == 0 {
        None
    } else {
        Some(loudest(notes, f.kept@, n))
    };
    let second = with_volume(
        first,
        f.ensemble,
        f.gain,
        f.stats.volume_shift as int,
        top,
        f.clipped as int,
    );
    let third = with_lead(second, slots[0], lead_view(f.lead));
    let fourth = with_parts(
        third,
        notes,
        slots,
        f.sequence@,
        f.ensemble.layout,
        f.ensemble.parts as int,
        string_views(f.means@),
        f.sequence@.len() as int,
    );
    with_losses(
        fourth,
        lost_in(
            notes,
            from_start(meters_of(string_views(f.tail@), f.tail@.len() as int)),
            notes.len() as int,
        ),
    )
}

/// Whether what a report is made of fits together.
pub open spec fn fits_together(f: Findings) -> bool {
    &&& is_ensemble(f.ensemble)
    &&& f.slots.len() > 0
    &&& f.means.len() == f.sequence.len()
    &&& forall|k: int| 0 <= k < f.kept.len() ==> (#[trigger] f.kept[k]) < f.notes.len()
    &&& forall|k: int| 0 <= k < f.sequence.len() ==> (#[trigger] f.sequence[k]) < f.slots.len()
    &&& forall|s: int, k: int|
        #![trigger f.slots@[s]@[k]]
        0 <= s < f.slots.len() && 0 <= k < f.slots@[s].len() ==> f.slots@[s]@[k] < f.notes.len()
    &&& forall|i: int|
        0 <= i < f.notes.len() ==> 0 <= (#[trigger] f.notes[i]).note.on <= f.notes[i].note.off
}

fn range_of(notes: &Vec<WorkingNote>, ids: &Vec<usize>) -> (r: (i32, i32))
    requires
        forall|k: int| 0 <= k < ids.len() ==> (#[trigger] ids[k]) < notes.len(),
    ensures
        r.0 == lowest_pitch(notes@, ids@, ids.len() as int),
        r.1 == highest_pitch(notes@, ids@, ids.len() as int),
{
    let mut low: i32 = 0;
    let mut high: i32 = 0;
    let mut k: usize = 0;
    while k < ids.len()
        invariant
            k <= ids.len(),
            forall|k: int| 0 <= k < ids.len() ==> (#[trigger] ids[k]) < notes.len(),
            low == lowest_pitch(notes@, ids@, k as int),
            high == highest_pitch(notes@, ids@, k as int),
        decreases ids.len() - k,
    {
        proof {
            assert(ids[k as int] < notes.len());
        }
        let p = notes[ids[k]].note.pitch;
        if k == 0 || p < low {
            low = p;
        }
        if k == 0 || p > high {
            high = p;
        }
        k += 1;
    }
    (low, high)
}

fn holds(part: &Vec<usize>, i: usize) -> (r: bool)
    ensures
        r == part@.contains(i),
{
    let mut k: usize = 0;
    while k < part.len()
        invariant
            k <= part.len(),
            forall|j: int| 0 <= j < k ==> #[trigger] part[j] != i,
        decreases part.len() - k,
    {
        if part[k] == i {
            proof {
                assert(part@[k as int] == i);
            }
            return true;
        }
        k += 1;
    }
    false
}

fn push_counts(stats: &FoldStats, percent: &str) -> (text: Vec<char>)
    ensures
        text@ == counts_text(*stats, percent@),
{
    let mut text: Vec<char> = Vec::new();
    push_text(&mut text, "notes in  : ");
    push_count(&mut text, stats.total as u128);
    push_text(&mut text, "\nkept      : ");
    push_count(&mut text, stats.kept as u128);
    push_text(&mut text, "\ntruncated : ");
    push_count(&mut text, stats.truncated as u128);
    push_text(&mut text, "  (attack kept, tail shortened)\ndropped   : ");
    push_count(&mut text, stats.dropped as u128);
    push_text(&mut text, "\nvoice spill: ");
    push_count(&mut text, stats.spill as u128);
    push_text(&mut text, " notes (");
    push_text(&mut text, percent);
    push_text(&mut text, "%) used another slot for continuity or polyphony");
    text
}

fn push_placement(text: &mut Vec<char>, layout: Layout, exact: bool, attack: bool)
    ensures
        final(text)@ == with_placement(old(text)@, layout, exact, attack),
{
    if exact {
        if layout == Layout::Learned {
            push_text(text, "\nplacement : alternate part packing to preserve exact MML timing");
        } else {
            push_text(text, "\nplacement : original interval packing to preserve exact MML timing");
        }
    }
    if attack {
        push_text(text, "\ncore attacks: exact-tick fallback retained complete intervals");
    } else if layout == Layout::Learned {
        push_text(
            text,
            "\ncore attacks: long sounding tails yield to new notes; attacks unchanged",
        );
    }
}

fn push_volume(text: &mut Vec<char>, e: &Ensemble, gain: Gain, shift: i32, top: Option<i32>, clipped: usize)
    ensures
        final(text)@ == with_volume(old(text)@, *e, gain, shift as int, top, clipped as int),
{
    let ranged = e.volume_range.is_some();
    if gain != Gain::Unchanged {
        match top {
            None => {
                push_text(text, "\nvolume shift: +0  (no notes)");
            },
            Some(v) => {
                push_text(text, "\nvolume shift: ");
                let ghost before = text@;
                if shift >= 0 {
                    push_text(text, "+");
                }
                push_number(text, shift as i64);
                proof {
                    assert(text@ =~= before + signed_text(shift as int));
                }
                if ranged {
                    push_text(text, "  (loudest note before DR v");
                } else {
                    push_text(text, "  (loudest note now v");
                }
                push_number(text, v as i64);
                push_text(text, ", ");
                if clipped == 0 && ranged {
                    push_text(text, "no shift clipping");
                } else if clipped == 0 {
                    push_text(text, "dynamic range unchanged");
                } else {
                    push_count(text, clipped as u128);
                    push_text(text, " notes clipped to v0..v15");
                }
                push_text(text, ")");
            },
        }
    }
    match e.volume_range {
        None => {},
        Some(range) => {
            push_text(text, "\nvolume DR : v1..v15 -> v");
            push_number(text, range.min as i64);
            push_text(text, "..v");
            push_number(text, range.max as i64);
            push_text(text, " (after shift; v0 unchanged)");
        },
    }
    push_text(text, "\nlayout    : ");
    push_text(text, e.layout.name());
}

fn push_lead(text: &mut Vec<char>, part: &Vec<usize>, lead: &Vec<usize>)
    ensures
        final(text)@ == with_lead(old(text)@, part@, Some(lead@)),
{
    let mut found: usize = 0;
    let mut k: usize = 0;
    while k < lead.len()
        invariant
            k <= lead.len(),
            found == anchored(part@, lead@, k as int),
            found <= k,
        decreases lead.len() - k,
    {
        if holds(part, lead[k]) {
            found += 1;
        }
        k += 1;
    }
    push_text(text, "\nprimary lead: ");
    push_count(text, found as u128);
    push_text(text, "/");
    push_count(text, lead.len() as u128);
    push_text(text, " notes in track1 part1 (");
    push_count(text, (lead.len() - found) as u128);
    push_text(text, " role spills)");
}

fn push_parts(text: &mut Vec<char>, f: &Findings)
    requires
        fits_together(*f),
    ensures
        final(text)@ == with_parts(
            old(text)@,
            f.notes@,
            slot_lists(f.slots@),
            f.sequence@,
            f.ensemble.layout,
            f.ensemble.parts as int,
            string_views(f.means@),
            f.sequence@.len() as int,
        ),
{
    let ghost before = text@;
    let ghost all = slot_lists(f.slots@);
    let parts = f.ensemble.parts;
    let layout = f.ensemble.layout;
    let mut k: usize = 0;
    while k < f.sequence.len()
        invariant
            k <= f.sequence.len(),
            fits_together(*f),
            parts == f.ensemble.parts,
            layout == f.ensemble.layout,
            all == slot_lists(f.slots@),
            text@ == with_parts(
                before,
                f.notes@,
                all,
                f.sequence@,
                layout,
                parts as int,
                string_views(f.means@),
                k as int,
            ),
        decreases f.sequence.len() - k,
    {
        let slot = f.sequence[k];
        proof {
            assert(f.sequence[k as int] < f.slots.len());
            assert(all[slot as int] == f.slots@[slot as int]@);
            assert forall|q: int| 0 <= q < f.slots@[slot as int].len() implies (
            #[trigger] f.slots@[slot as int][q]) < f.notes.len() by {
                assert(f.slots@[slot as int]@[q] < f.notes.len());
            }
        }
        let ids = &f.slots[slot];
        let (low, high) = range_of(f.notes, ids);
        push_text(text, "\ntrack");
        push_count(text, (k / parts) as u128 + 1);
        push_text(text, " part");
        push_count(text, (k % parts) as u128);
        push_text(text, ": ");
        push_padded(text, ids.len() as u128, 5, ' ');
        push_text(text, " notes, pitch ");
        push_number(text, low as i64);
        push_text(text, "..");
        push_number(text, high as i64);
        push_text(text, ", mean ");
        push_text(text, f.means[k].as_str());
        if layout == Layout::Hands || layout == Layout::Roles {
            push_text(text, "  [");
            push_text(text, role(layout, parts, slot));
            push_text(text, "]");
        }
        k += 1;
    }
}

proof fn lemma_with_loss(lost: Seq<(Tick, usize)>, bar: Tick, k: int)
    requires
        0 <= k <= lost.len(),
        forall|j: int| 0 <= j < k ==> (#[trigger] lost[j]).0 != bar,
    ensures
        k == lost.len() ==> with_loss(lost, bar) == lost.push((bar, 1usize)),
        k < lost.len() && lost[k].0 == bar ==> with_loss(lost, bar) == lost.update(
            k,
            (bar, (lost[k].1 + 1) as usize),
        ),
    decreases k,
{
    if k > 0 {
        let rest = lost.skip(1);
        assert forall|j: int| 0 <= j < k - 1 implies (#[trigger] rest[j]).0 != bar by {
            assert(rest[j] == lost[j + 1]);
        }
        assert(lost[0].0 != bar);
        lemma_with_loss(rest, bar, k - 1);
        if k == lost.len() {
            assert(seq![lost[0]] + rest.push((bar, 1usize)) =~= lost.push((bar, 1usize)));
        } else if lost[k].0 == bar {
            assert(rest[k - 1] == lost[k]);
            assert(seq![lost[0]] + rest.update(k - 1, (bar, (lost[k].1 + 1) as usize))
                =~= lost.update(k, (bar, (lost[k].1 + 1) as usize)));
        }
    } else if lost.len() > 0 {
        if lost[0].0 == bar {
            assert(seq![(bar, (lost[0].1 + 1) as usize)] + lost.skip(1) =~= lost.update(
                0,
                (bar, (lost[0].1 + 1) as usize),
            ));
        }
    } else {
        assert(seq![(bar, 1usize)] =~= lost.push((bar, 1usize)));
    }
}

/// Counts the notes that were lost in each bar.
#[verifier::rlimit(40)]
fn count_losses(notes: &Vec<WorkingNote>, meters: &Vec<Meter>) -> (lost: Vec<(Tick, usize)>)
    requires
        is_metric(meters@),
        meters.len() > 0,
        meters[0].0 == 0,
        forall|i: int|
            0 <= i < notes.len() ==> 0 <= (#[trigger] notes[i]).note.on <= notes[i].note.off,
    ensures
        lost@ == lost_in(notes@, meters@, notes.len() as int),
{
    let mut lost: Vec<(Tick, usize)> = Vec::new();
    let mut i: usize = 0;
    while i < notes.len()
        invariant
            i <= notes.len(),
            is_metric(meters@),
            meters.len() > 0,
            meters[0].0 == 0,
            forall|i: int|
                0 <= i < notes.len() ==> 0 <= (#[trigger] notes[i]).note.on <= notes[i].note.off,
            lost@ == lost_in(notes@, meters@, i as int),
            forall|k: int| 0 <= k < lost.len() ==> (#[trigger] lost[k]).1 <= i,
        decreases notes.len() - i,
    {
        let note = notes[i].note;
        proof {
            assert(0 <= notes[i as int].note.on <= notes[i as int].note.off);
        }
        if note.off - note.on < 6 {
            let bar = bar_of(note.on, meters);
            let ghost before = lost@;
            let mut k: usize = 0;
            while k < lost.len() && lost[k].0 != bar
                invariant
                    k <= lost.len(),
                    lost@ == before,
                    forall|j: int| 0 <= j < k ==> (#[trigger] before[j]).0 != bar,
                decreases lost.len() - k,
            {
                k += 1;
            }
            proof {
                lemma_with_loss(before, bar, k as int);
            }
            if k < lost.len() {
                proof {
                    assert(lost[k as int].1 <= i);
                }
                let more: usize = lost[k].1 + 1;
                lost.set(k, (bar, more));
            } else {
                lost.push((bar, 1));
            }
            proof {
                assert forall|q: int| 0 <= q < lost.len() implies (#[trigger] lost[q]).1 <= i + 1 by {
                    if q < before.len() {
                        assert(before[q].1 <= i);
                    }
                }
            }
        }
        i += 1;
    }
    lost
}

fn push_losses(text: &mut Vec<char>, lost: &Vec<(Tick, usize)>)
    requires
        forall|k: int| 0 <= k < lost.len() ==> (#[trigger] lost[k]).1 <= i64::MAX,
    ensures
        final(text)@ == with_losses(old(text)@, lost@),
{
    if lost.len() == 0 {
        return ;
    }
    push_text(text, "\n\nbars where most notes were removed (listen here first):");
    let mut keys: Vec<Key> = Vec::new();
    let mut i: usize = 0;
    while i < lost.len()
        invariant
            i <= lost.len(),
            keys.len() == i,
            forall|k: int| 0 <= k < lost.len() ==> (#[trigger] lost[k]).1 <= i64::MAX,
            forall|k: int| 0 <= k < i ==> #[trigger] keys[k] == loss_key(lost[k]),
        decreases lost.len() - i,
    {
        proof {
            assert(lost[i as int].1 <= i64::MAX);
        }
        keys.push((-(lost[i].1 as i64), 0, 0));
        i += 1;
    }
    let sequence = order(&keys);
    let ghost key = |l: (Tick, usize)| loss_key(l);
    let ghost at = |k: usize| lost@[k as int];
    let ghost bars = by_loss(lost@);
    proof {
        lemma_order_sorts(lost@, keys@, key);
        assert(sequence@.map_values(at) == bars);
    }
    let ghost before = text@;
    let mut k: usize = 0;
    while k < sequence.len() && k < 15
        invariant
            k <= sequence.len() == lost.len(),
            k <= 15,
            at == (|k: usize| lost@[k as int]),
            sequence@.map_values(at) == bars,
            forall|k: int| 0 <= k < sequence.len() ==> (#[trigger] sequence[k]) < lost.len(),
            forall|k: int| 0 <= k < lost.len() ==> (#[trigger] lost[k]).1 <= i64::MAX,
            text@ == loss_lines(before, bars, k as int),
        decreases sequence.len() - k,
    {
        let (bar, count) = lost[sequence[k]];
        proof {
            assert(sequence@.map_values(at)[k as int] == at(sequence@[k as int]));
            assert(bars[k as int] == (bar, count));
        }
        push_text(text, "\n   bar ");
        push_bar(text, bar);
        push_text(text, " ");
        push_count(text, count as u128);
        push_text(text, " notes");
        k += 1;
    }
    push_text(text, "\nbars touched at all: ");
    push_count(text, lost.len() as u128);
}

/// Writes the number of a bar, padded behind.
fn push_bar(out: &mut Vec<char>, bar: Tick)
    ensures
        final(out)@ == old(out)@ + padded_back(number_text(bar as int), 5),
{
    let ghost before = out@;
    let length = out.len();
    push_number(out, bar);
    let ghost written = number_text(bar as int);
    let mut width: usize = out.len() - length;
    while width < 5
        invariant
            written == number_text(bar as int),
            out@ == before + written + Seq::new((width - written.len()) as nat, |i: int| ' '),
            width >= written.len(),
            width <= 5 || width == written.len(),
        decreases 5 - width,
    {
        out.push(' ');
        width += 1;
        proof {
            assert(out@ =~= before + written + Seq::new(
                (width - written.len()) as nat,
                |i: int| ' ',
            ));
        }
    }
    proof {
        assert(out@ =~= before + padded_back(written, 5));
    }
}

/// Reports on an arrangement.
pub fn fold_report(f: &Findings) -> (text: String)
    requires
        fits_together(*f),
        f.notes.len() <= i64::MAX,
    ensures
        text@ == report_of(*f),
{
    let mut text = push_counts(&f.stats, f.percent);
    push_placement(&mut text, f.ensemble.layout, f.exact_fallback, f.attack_fallback);
    let top = find_loudest(f.notes, f.kept);
    push_volume(&mut text, &f.ensemble, f.gain, f.stats.volume_shift, top, f.clipped);
    match f.lead {
        None => {},
        Some(lead) => {
            push_lead(&mut text, &f.slots[0], lead);
        },
    }
    push_parts(&mut text, f);
    let meters = bar_map(f.tail);
    let lost = count_losses(f.notes, &meters);
    proof {
        lemma_losses(f.notes@, meters@, f.notes@.len() as int);
    }
    push_losses(&mut text, &lost);
    string_of(&text)
}

proof fn lemma_losses(notes: Seq<WorkingNote>, meters: Seq<Meter>, n: int)
    requires
        0 <= n <= notes.len() <= i64::MAX,
    ensures
        forall|k: int|
            0 <= k < lost_in(notes, meters, n).len() ==> (#[trigger] lost_in(notes, meters, n)[k]).1
                <= n,
    decreases n,
{
    if n > 0 {
        lemma_losses(notes, meters, n - 1);
        let note = notes[n - 1].note;
        let before = lost_in(notes, meters, n - 1);
        if note.off - note.on < 6 {
            lemma_loss_bound(before, bar_from(note.on as int, meters, 0, 1) as Tick, n - 1);
        }
    }
}

proof fn lemma_loss_bound(lost: Seq<(Tick, usize)>, bar: Tick, bound: int)
    requires
        forall|k: int| 0 <= k < lost.len() ==> (#[trigger] lost[k]).1 <= bound,
        0 <= bound,
    ensures
        forall|k: int|
            0 <= k < with_loss(lost, bar).len() ==> (#[trigger] with_loss(lost, bar)[k]).1 <= bound
                + 1,
    decreases lost.len(),
{
    if lost.len() > 0 && lost[0].0 != bar {
        let rest = lost.skip(1);
        assert forall|k: int| 0 <= k < rest.len() implies (#[trigger] rest[k]).1 <= bound by {
            assert(rest[k] == lost[k + 1]);
        }
        lemma_loss_bound(rest, bar, bound);
        let inner = with_loss(rest, bar);
        let all = with_loss(lost, bar);
        assert forall|k: int| 0 <= k < all.len() implies (#[trigger] all[k]).1 <= bound + 1 by {
            if k > 0 {
                assert(all[k] == inner[k - 1]);
            } else {
                assert(lost[0].1 <= bound);
            }
        }
    } else if lost.len() > 0 {
        let all = with_loss(lost, bar);
        assert forall|k: int| 0 <= k < all.len() implies (#[trigger] all[k]).1 <= bound + 1 by {
            assert(lost[0].1 <= bound);
            if k > 0 {
                assert(all[k] == lost[k]);
            }
        }
    }
}

} // verus!
