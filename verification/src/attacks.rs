//! Which parts an attack may take, and in which order of preference.
use crate::order::{lemma_order_sorts, order, stable_sort, Key};
use crate::score::{Note, Tempo, Tick};
use vstd::prelude::*;

verus! {

/// Whether the time between two ticks can be written: none, or as much as the shortest note.
pub open spec fn is_writable(from: int, to: int) -> bool {
    to == from || to - from >= 6
}

/// Whether the pieces that tempos from one on cut a stretch into can be written.
pub open spec fn pieces_writable(tempos: Seq<Tempo>, i: int, previous: Tick, end: Tick) -> bool
    decreases tempos.len() - i,
{
    if i < 0 || i >= tempos.len() || tempos[i].0 >= end {
        is_writable(previous as int, end as int)
    } else {
        is_writable(previous as int, tempos[i].0 as int) && pieces_writable(
            tempos,
            i + 1,
            tempos[i].0,
            end,
        )
    }
}

/// The first tempo from one on that comes after a tick.
pub open spec fn tempo_after(tempos: Seq<Tempo>, start: Tick, i: int) -> int
    decreases tempos.len() - i,
{
    if 0 <= i < tempos.len() && tempos[i].0 <= start {
        tempo_after(tempos, start, i + 1)
    } else {
        i
    }
}

/// Whether a stretch and the pieces that tempos cut it into can be written.
pub open spec fn is_exact_span(start: Tick, end: Tick, tempos: Seq<Tempo>) -> bool {
    &&& is_writable(start as int, end as int)
    &&& pieces_writable(tempos, tempo_after(tempos, start, 0), start, end)
}

fn writable(from: Tick, to: Tick) -> (r: bool)
    ensures
        r == is_writable(from as int, to as int),
{
    to == from || to as i128 - from as i128 >= 6
}

/// Tells whether a stretch and the pieces that tempos cut it into can be written.
pub fn exact_span(start: Tick, end: Tick, tempos: &[Tempo]) -> (r: bool)
    ensures
        r == is_exact_span(start, end, tempos@),
{
    if !writable(start, end) {
        return false;
    }
    let mut i: usize = 0;
    while i < tempos.len() && tempos[i].0 <= start
        invariant
            i <= tempos.len(),
            tempo_after(tempos@, start, 0) == tempo_after(tempos@, start, i as int),
        decreases tempos.len() - i,
    {
        i += 1;
    }
    let mut previous: Tick = start;
    while i < tempos.len() && tempos[i].0 < end
        invariant
            i <= tempos.len(),
            pieces_writable(tempos@, tempo_after(tempos@, start, 0), start, end) == pieces_writable(
                tempos@,
                i as int,
                previous,
                end,
            ),
        decreases tempos.len() - i,
    {
        if !writable(previous, tempos[i].0) {
            return false;
        }
        previous = tempos[i].0;
        i += 1;
    }
    writable(previous, end)
}

/// How attacks are placed: the notes as they were, how many parts lead, how many there are,
/// and the tempos.
pub struct Policy<'a> {
    pub originals: &'a [Note],
    pub parts: usize,
    pub count: usize,
    pub tempos: &'a [Tempo],
}

/// What has been placed: the notes as they are, and those of each part in order.
pub struct Stage {
    pub notes: Seq<Note>,
    pub slots: Seq<Seq<usize>>,
}

/// Whether the numbers in the parts are those of notes.
pub open spec fn is_stage(s: Stage) -> bool {
    forall|p: int, k: int|
        #![trigger s.slots[p][k]]
        0 <= p < s.slots.len() && 0 <= k < s.slots[p].len() ==> s.slots[p][k] < s.notes.len()
}

/// The last note of a part that began before a tick and has not ended before it.
pub open spec fn lingering(s: Stage, slot: int, tick: int) -> Option<usize> {
    let history = s.slots[slot];
    if history.len() == 0 {
        None
    } else {
        let i = history.last();
        if s.notes[i as int].on < tick && s.notes[i as int].off >= tick {
            Some(i)
        } else {
            None
        }
    }
}

/// The first leading parts with a note that lingers, and that note.
pub open spec fn lingerers(s: Stage, tick: int, n: int) -> Seq<(usize, usize)>
    decreases n,
{
    if n <= 0 {
        Seq::empty()
    } else {
        match lingering(s, n - 1, tick) {
            Some(i) => lingerers(s, tick, n - 1).push(((n - 1) as usize, i)),
            None => lingerers(s, tick, n - 1),
        }
    }
}

/// The place of the lowest note; of several the first.
pub open spec fn lowest(notes: Seq<Note>, core: Seq<(usize, usize)>, n: int) -> int
    decreases n,
{
    if n <= 1 {
        0
    } else {
        let before = lowest(notes, core, n - 1);
        if notes[core[n - 1].1 as int].pitch < notes[core[before].1 as int].pitch {
            n - 1
        } else {
            before
        }
    }
}

/// The place of the latest note; of several the last.
pub open spec fn latest(notes: Seq<Note>, core: Seq<(usize, usize)>, n: int) -> int
    decreases n,
{
    if n <= 1 {
        0
    } else {
        let before = latest(notes, core, n - 1);
        if notes[core[n - 1].1 as int].on >= notes[core[before].1 as int].on {
            n - 1
        } else {
            before
        }
    }
}

pub open spec fn sign(x: int) -> int {
    if x > 0 {
        1
    } else if x < 0 {
        -1
    } else {
        0
    }
}

/// Whether a note began with the bass, well above it, and the upper voice has moved on from
/// it in the direction in which it goes on now, or is struck again.
pub open spec fn is_start(first: Note, bass: Note, recent: Note, top: Note) -> bool {
    let step = sign(recent.pitch - first.pitch);
    &&& first.on == bass.on
    &&& first.pitch - bass.pitch >= 12
    &&& step != 0
    &&& top.pitch == recent.pitch || step == sign(top.pitch - recent.pitch)
}

/// The first place from one on whose note the upper voice has moved on from.
pub open spec fn start_from(
    notes: Seq<Note>,
    core: Seq<(usize, usize)>,
    bass: Note,
    recent: Note,
    top: Note,
    k: int,
) -> int
    decreases core.len() - k,
{
    if 0 <= k < core.len() && !is_start(notes[core[k].1 as int], bass, recent, top) {
        start_from(notes, core, bass, recent, top, k + 1)
    } else {
        k
    }
}

/// Whether a new note belongs to a chord below the upper voice: above the bass, an octave
/// below the voice, long enough and loud enough.
pub open spec fn supports(note: Note, bass: Note, recent: Note, top: Note, least: int) -> bool {
    let ceiling = if recent.pitch < top.pitch {
        recent.pitch - 12
    } else {
        top.pitch - 12
    };
    &&& note.pitch > bass.pitch
    &&& note.pitch <= ceiling
    &&& note.off - note.on >= least
    &&& note.vel > 0
    &&& 2 * note.vel >= bass.vel
    &&& 2 * note.vel >= recent.vel
    &&& 2 * note.vel >= top.vel
}

/// The lowest of the first new notes that support the upper voice; of several the one with
/// the smallest number.
pub open spec fn support_of(
    notes: Seq<Note>,
    batch: Seq<usize>,
    bass: Note,
    recent: Note,
    top: Note,
    least: int,
    n: int,
) -> Option<usize>
    decreases n,
{
    if n <= 0 {
        None
    } else {
        let before = support_of(notes, batch, bass, recent, top, least, n - 1);
        let i = batch[n - 1];
        if !supports(notes[i as int], bass, recent, top, least) {
            before
        } else {
            match before {
                None => Some(i),
                Some(old_one) => {
                    let a = notes[i as int].pitch;
                    let b = notes[old_one as int].pitch;
                    if a < b || (a == b && i < old_one) {
                        Some(i)
                    } else {
                        before
                    }
                },
            }
        }
    }
}

/// Whether two of the first new notes that support the upper voice differ in pitch.
pub open spec fn is_chord(
    notes: Seq<Note>,
    batch: Seq<usize>,
    bass: Note,
    recent: Note,
    top: Note,
    least: int,
    n: int,
) -> bool {
    exists|a: int, b: int|
        #![trigger batch[a], batch[b]]
        0 <= a < n && 0 <= b < n && supports(notes[batch[a] as int], bass, recent, top, least)
            && supports(notes[batch[b] as int], bass, recent, top, least)
            && notes[batch[a] as int].pitch != notes[batch[b] as int].pitch
}

/// A note of the upper voice and one of the chord below that take leading parts together,
/// and the part that keeps what it holds.
#[derive(Clone, Copy, Debug, PartialEq, Eq, Structural)]
pub struct Handoff {
    pub lead: usize,
    pub support: usize,
    pub held_slot: usize,
}

pub open spec fn clamped(x: int, low: int, high: int) -> int {
    if x < low {
        low
    } else if x > high {
        high
    } else {
        x
    }
}

/// The handoff that the leading notes that linger call for.
pub open spec fn handoff_from(s: Stage, batch: Seq<usize>, core: Seq<(usize, usize)>) -> Option<Handoff> {
    let notes = s.notes;
    let lead = batch[0];
    let top = notes[lead as int];
    let n = core.len() as int;
    if n == 0 {
        None
    } else {
        let bass = notes[core[lowest(notes, core, n)].1 as int];
        let (recent_slot, recent_note) = core[latest(notes, core, n)];
        let recent = notes[recent_note as int];
        let start = start_from(notes, core, bass, recent, top, 0);
        if recent.on <= bass.on || start >= n {
            None
        } else {
            let repeated = top.pitch == recent.pitch;
            let (held_slot, held) = if repeated {
                (core[start].0, notes[core[start].1 as int])
            } else {
                (recent_slot, recent)
            };
            let least = clamped(
                if repeated {
                    top.off - top.on
                } else {
                    recent.off - top.on
                },
                24,
                96,
            );
            let m = batch.len() as int;
            if held.off <= top.on || !is_chord(notes, batch, bass, recent, top, least, m) {
                None
            } else {
                match support_of(notes, batch, bass, recent, top, least, m) {
                    Some(support) => Some(Handoff { lead, support, held_slot }),
                    None => None,
                }
            }
        }
    }
}

/// The handoff between the upper voice and a chord below it, where new notes call for one.
pub open spec fn handoff_of(s: Stage, batch: Seq<usize>, parts: int, count: int) -> Option<Handoff> {
    if parts != 3 || count <= parts || batch.len() == 0 {
        None
    } else {
        let top = s.notes[batch[0] as int];
        if exists|k: int|
            0 <= k < batch.len() && s.notes[#[trigger] batch[k] as int].pitch > top.pitch {
            None
        } else {
            handoff_from(s, batch, lingerers(s, top.on as int, parts))
        }
    }
}

/// The parts as lists of numbers.
pub open spec fn slot_views(slots: Seq<Vec<usize>>) -> Seq<Seq<usize>> {
    Seq::new(slots.len(), |i: int| slots[i]@)
}

pub open spec fn stage_of(notes: Seq<Note>, slots: Seq<Vec<usize>>) -> Stage {
    Stage { notes, slots: slot_views(slots) }
}

/// Whether notes do not begin before the start and do not end before they begin.
pub open spec fn are_timed(notes: Seq<Note>) -> bool {
    forall|i: int| 0 <= i < notes.len() ==> 0 <= (#[trigger] notes[i]).on <= notes[i].off
}

pub open spec fn numbers(batch: Seq<usize>, n: int) -> bool {
    forall|k: int| 0 <= k < batch.len() ==> (#[trigger] batch[k]) < n
}

fn find_lingerers(notes: &Vec<Note>, slots: &Vec<Vec<usize>>, tick: Tick, parts: usize) -> (core: Vec<(usize, usize)>)
    requires
        is_stage(stage_of(notes@, slots@)),
        parts <= slots.len(),
    ensures
        core@ == lingerers(stage_of(notes@, slots@), tick as int, parts as int),
        forall|k: int|
            0 <= k < core.len() ==> (#[trigger] core@[k]).0 < parts && core@[k].1 < notes.len(),
{
    let ghost s = stage_of(notes@, slots@);
    let mut core: Vec<(usize, usize)> = Vec::new();
    let mut i: usize = 0;
    while i < parts
        invariant
            i <= parts <= slots.len(),
            s == stage_of(notes@, slots@),
            is_stage(s),
            core@ == lingerers(s, tick as int, i as int),
            forall|k: int|
                0 <= k < core.len() ==> (#[trigger] core@[k]).0 < parts && core@[k].1 < notes.len(),
        decreases parts - i,
    {
        let history = &slots[i];
        if history.len() > 0 {
            let last = history[history.len() - 1];
            proof {
                assert(s.slots[i as int][history.len() - 1] == last);
                assert(s.slots[i as int].last() == last);
            }
            if notes[last].on < tick && notes[last].off >= tick {
                core.push((i, last));
            }
        }
        i += 1;
    }
    core
}

fn find_lowest(notes: &Vec<Note>, core: &Vec<(usize, usize)>) -> (p: usize)
    requires
        core.len() > 0,
        forall|k: int| 0 <= k < core.len() ==> (#[trigger] core@[k]).1 < notes.len(),
    ensures
        p < core.len(),
        p == lowest(notes@, core@, core.len() as int),
{
    let mut p: usize = 0;
    let mut i: usize = 1;
    while i < core.len()
        invariant
            p < core.len(),
            1 <= i <= core.len(),
            forall|k: int| 0 <= k < core.len() ==> (#[trigger] core@[k]).1 < notes.len(),
            p == lowest(notes@, core@, i as int),
        decreases core.len() - i,
    {
        if notes[core[i].1].pitch < notes[core[p].1].pitch {
            p = i;
        }
        i += 1;
    }
    p
}

fn find_latest(notes: &Vec<Note>, core: &Vec<(usize, usize)>) -> (p: usize)
    requires
        core.len() > 0,
        forall|k: int| 0 <= k < core.len() ==> (#[trigger] core@[k]).1 < notes.len(),
    ensures
        p < core.len(),
        p == latest(notes@, core@, core.len() as int),
{
    let mut p: usize = 0;
    let mut i: usize = 1;
    while i < core.len()
        invariant
            p < core.len(),
            1 <= i <= core.len(),
            forall|k: int| 0 <= k < core.len() ==> (#[trigger] core@[k]).1 < notes.len(),
            p == latest(notes@, core@, i as int),
        decreases core.len() - i,
    {
        if notes[core[i].1].on >= notes[core[p].1].on {
            p = i;
        }
        i += 1;
    }
    p
}

fn sign_of(x: i64) -> (r: i64)
    ensures
        r == sign(x as int),
{
    if x > 0 {
        1
    } else if x < 0 {
        -1
    } else {
        0
    }
}

fn starts(first: &Note, bass: &Note, recent: &Note, top: &Note) -> (r: bool)
    ensures
        r == is_start(*first, *bass, *recent, *top),
{
    let step = sign_of(recent.pitch as i64 - first.pitch as i64);
    first.on == bass.on && first.pitch as i64 - bass.pitch as i64 >= 12 && step != 0 && (top.pitch
        == recent.pitch || step == sign_of(top.pitch as i64 - recent.pitch as i64))
}

fn lends_support(note: &Note, bass: &Note, recent: &Note, top: &Note, least: i64) -> (r: bool)
    requires
        0 <= note.on <= note.off,
    ensures
        r == supports(*note, *bass, *recent, *top, least as int),
{
    let ceiling: i64 = if recent.pitch < top.pitch {
        recent.pitch as i64 - 12
    } else {
        top.pitch as i64 - 12
    };
    let twice: i64 = 2 * note.vel as i64;
    note.pitch > bass.pitch && note.pitch as i64 <= ceiling && note.off - note.on >= least
        && note.vel > 0 && twice >= bass.vel as i64 && twice >= recent.vel as i64 && twice
        >= top.vel as i64
}

/// The new note that supports the upper voice, where those that do make a chord.
#[verifier::rlimit(40)]
fn find_support(notes: &Vec<Note>, batch: &Vec<usize>, bass: &Note, recent: &Note, top: &Note, least: i64) -> (r: Option<usize>)
    requires
        are_timed(notes@),
        numbers(batch@, notes.len() as int),
    ensures
        r == (if is_chord(notes@, batch@, *bass, *recent, *top, least as int, batch.len() as int) {
            support_of(notes@, batch@, *bass, *recent, *top, least as int, batch.len() as int)
        } else {
            None
        }),
{
    let ghost l = least as int;
    let mut best: Option<usize> = None;
    let mut chord: bool = false;
    let mut first: Option<usize> = None;
    let mut k: usize = 0;
    while k < batch.len()
        invariant
            k <= batch.len(),
            l == least,
            are_timed(notes@),
            numbers(batch@, notes.len() as int),
            best == support_of(notes@, batch@, *bass, *recent, *top, l, k as int),
            best is Some ==> best->Some_0 < notes.len(),
            match first {
                Some(f) => f < k && supports(notes@[batch@[f as int] as int], *bass, *recent, *top, l),
                None => forall|a: int|
                    0 <= a < k ==> !supports(
                        notes@[#[trigger] batch@[a] as int],
                        *bass,
                        *recent,
                        *top,
                        l,
                    ),
            },
            chord == (first is Some && exists|a: int|
                0 <= a < k && supports(notes@[#[trigger] batch@[a] as int], *bass, *recent, *top, l)
                    && notes@[batch@[a] as int].pitch
                    != notes@[batch@[first->Some_0 as int] as int].pitch),
        decreases batch.len() - k,
    {
        let i = batch[k];
        proof {
            assert(batch@[k as int] < notes.len());
            assert(0 <= notes@[i as int].on <= notes@[i as int].off);
        }
        let ghost was = chord;
        if lends_support(&notes[i], bass, recent, top, least) {
            match best {
                None => {
                    best = Some(i);
                },
                Some(old_one) => {
                    let a = notes[i].pitch;
                    let b = notes[old_one].pitch;
                    if a < b || (a == b && i < old_one) {
                        best = Some(i);
                    }
                },
            }
            match first {
                None => {
                    first = Some(k);
                    proof {
                        assert(!was);
                        assert forall|a: int| 0 <= a < k + 1 && supports(
                            notes@[#[trigger] batch@[a] as int],
                            *bass,
                            *recent,
                            *top,
                            l,
                        ) implies a == k by {
                        }
                    }
                },
                Some(f) => {
                    if notes[batch[f]].pitch != notes[i].pitch {
                        chord = true;
                        proof {
                            assert(supports(
                                notes@[batch@[k as int] as int],
                                *bass,
                                *recent,
                                *top,
                                l,
                            ));
                        }
                    }
                },
            }
        }
        k += 1;
    }
    proof {
        let n = batch.len() as int;
        if chord {
            let f = first->Some_0 as int;
            let a = choose|a: int|
                0 <= a < n && supports(
                    notes@[#[trigger] batch@[a] as int],
                    *bass,
                    *recent,
                    *top,
                    l,
                ) && notes@[batch@[a] as int].pitch != notes@[batch@[f] as int].pitch;
            assert(batch@[f] < notes.len());
            assert(is_chord(notes@, batch@, *bass, *recent, *top, l, n));
        } else if is_chord(notes@, batch@, *bass, *recent, *top, l, n) {
            let (a, b) = choose|a: int, b: int|
                #![trigger batch@[a], batch@[b]]
                0 <= a < n && 0 <= b < n && supports(
                    notes@[batch@[a] as int],
                    *bass,
                    *recent,
                    *top,
                    l,
                ) && supports(notes@[batch@[b] as int], *bass, *recent, *top, l)
                    && notes@[batch@[a] as int].pitch != notes@[batch@[b] as int].pitch;
            assert(supports(notes@[batch@[a] as int], *bass, *recent, *top, l));
            assert(first is Some);
            let f = first->Some_0 as int;
            assert(notes@[batch@[a] as int].pitch == notes@[batch@[f] as int].pitch);
            assert(notes@[batch@[b] as int].pitch == notes@[batch@[f] as int].pitch);
            assert(false);
        }
    }
    if chord {
        best
    } else {
        None
    }
}

/// Finds the handoff between the upper voice and a chord below it, where new notes call for
/// one.
#[verifier::rlimit(40)]
pub fn bass_chord_handoff(
    notes: &Vec<Note>,
    batch: &Vec<usize>,
    slots: &Vec<Vec<usize>>,
    parts: usize,
    count: usize,
) -> (r: Option<Handoff>)
    requires
        is_stage(stage_of(notes@, slots@)),
        are_timed(notes@),
        numbers(batch@, notes.len() as int),
        slots.len() == count,
    ensures
        r == handoff_of(stage_of(notes@, slots@), batch@, parts as int, count as int),
        r is Some ==> r->Some_0.held_slot < parts,
{
    let ghost s = stage_of(notes@, slots@);
    if parts != 3 || count <= parts || batch.len() == 0 {
        return None;
    }
    let lead = batch[0];
    proof {
        assert(batch@[0] < notes.len());
    }
    let top = notes[lead];
    let mut k: usize = 0;
    while k < batch.len()
        invariant
            k <= batch.len(),
            batch.len() > 0,
            s == stage_of(notes@, slots@),
            top == notes@[batch@[0] as int],
            numbers(batch@, notes.len() as int),
            parts == 3,
            count > parts,
            forall|j: int| 0 <= j < k ==> notes@[#[trigger] batch@[j] as int].pitch <= top.pitch,
        decreases batch.len() - k,
    {
        proof {
            assert(batch@[k as int] < notes.len());
        }
        if notes[batch[k]].pitch > top.pitch {
            proof {
                assert(s.notes[batch@[k as int] as int].pitch > top.pitch);
            }
            return None;
        }
        k += 1;
    }
    let core = find_lingerers(notes, slots, top.on, parts);
    if core.len() == 0 {
        return None;
    }
    let bass = notes[core[find_lowest(notes, &core)].1];
    let at = find_latest(notes, &core);
    let recent_slot = core[at].0;
    let recent = notes[core[at].1];
    if recent.on <= bass.on {
        return None;
    }
    let mut start: usize = 0;
    while start < core.len() && !starts(&notes[core[start].1], &bass, &recent, &top)
        invariant
            start <= core.len(),
            forall|k: int|
                0 <= k < core.len() ==> (#[trigger] core@[k]).0 < parts && core@[k].1
                    < notes.len(),
            start_from(notes@, core@, bass, recent, top, 0) == start_from(
                notes@,
                core@,
                bass,
                recent,
                top,
                start as int,
            ),
        decreases core.len() - start,
    {
        start += 1;
    }
    if start >= core.len() {
        return None;
    }
    let repeated = top.pitch == recent.pitch;
    let (held_slot, held): (usize, Note) = if repeated {
        (core[start].0, notes[core[start].1])
    } else {
        (recent_slot, recent)
    };
    if held.off <= top.on {
        return None;
    }
    proof {
        assert(0 <= notes@[lead as int].on <= notes@[lead as int].off);
        assert(0 <= notes@[core@[at as int].1 as int].on <= notes@[core@[at as int].1 as int].off);
    }
    let length: i64 = if repeated {
        top.off - top.on
    } else {
        recent.off - top.on
    };
    let least: i64 = if length < 24 {
        24
    } else if length > 96 {
        96
    } else {
        length
    };
    match find_support(notes, batch, &bass, &recent, &top, least) {
        None => None,
        Some(support) => Some(Handoff { lead, support, held_slot }),
    }
}

/// What is known of an attack and a part: whether the attack outweighs the note that the
/// part holds, how much that note weighs, and whether it is strong for itself.
#[derive(Clone, Copy, Debug)]
pub struct Offer {
    pub outweighs: bool,
    pub holding: i64,
    pub strong: bool,
}

/// The note before another one in the same voice of the source.
pub open spec fn before_in_voice(originals: Seq<Note>, i: int, j: int) -> Option<usize>
    decreases j,
{
    if j <= 0 {
        None
    } else if originals[j - 1].src == originals[i].src {
        Some((j - 1) as usize)
    } else {
        before_in_voice(originals, i, j - 1)
    }
}

/// The note behind another one in the same voice of the source.
pub open spec fn behind_in_voice(originals: Seq<Note>, i: int, j: int) -> Option<usize>
    decreases originals.len() - j,
{
    if j < 0 || j >= originals.len() {
        None
    } else if originals[j].src == originals[i].src {
        Some(j as usize)
    } else {
        behind_in_voice(originals, i, j + 1)
    }
}

pub open spec fn predecessor(originals: Seq<Note>, i: int) -> Option<usize> {
    before_in_voice(originals, i, i)
}

pub open spec fn successor(originals: Seq<Note>, i: int) -> Option<usize> {
    behind_in_voice(originals, i, i + 1)
}

/// Whether two notes of one voice follow each other closely, in time and in pitch.
pub open spec fn is_close(note: Note, adjacent: Note) -> bool {
    let gap: int = if adjacent.on < note.on {
        note.on - adjacent.off
    } else {
        adjacent.on - note.off
    };
    0 <= gap <= 96 && -12 <= adjacent.pitch - note.pitch <= 12
}

/// Whether a note that is held is a strong melody of the source, which an attack of another
/// voice far below should not cut off.
pub open spec fn leads_source(originals: Seq<Note>, held: int, incoming: int, strong: bool) -> bool {
    let note = originals[held];
    let next = originals[incoming];
    &&& note.src != next.src
    &&& note.pitch - next.pitch >= 12
    &&& strong
    &&& {
        ||| (predecessor(originals, held) matches Some(j) && is_close(note, originals[j as int]))
        ||| (successor(originals, held) matches Some(j) && is_close(note, originals[j as int]))
    }
}

/// Finds the note before another one in its voice.
pub fn find_predecessor(originals: &[Note], i: usize) -> (r: Option<usize>)
    requires
        i < originals.len(),
    ensures
        r == predecessor(originals@, i as int),
        r is Some ==> r->Some_0 < i,
{
    let mut j: usize = i;
    while j > 0
        invariant
            j <= i < originals.len(),
            predecessor(originals@, i as int) == before_in_voice(originals@, i as int, j as int),
        decreases j,
    {
        if originals[j - 1].src.0 == originals[i].src.0 && originals[j - 1].src.1
            == originals[i].src.1 {
            return Some(j - 1);
        }
        j -= 1;
    }
    None
}

/// Finds the note behind another one in its voice.
pub fn find_successor(originals: &[Note], i: usize) -> (r: Option<usize>)
    requires
        i < originals.len(),
    ensures
        r == successor(originals@, i as int),
        r is Some ==> i < r->Some_0 < originals.len(),
{
    let mut j: usize = i + 1;
    while j < originals.len()
        invariant
            i < j <= originals.len(),
            successor(originals@, i as int) == behind_in_voice(originals@, i as int, j as int),
        decreases originals.len() - j,
    {
        if originals[j].src.0 == originals[i].src.0 && originals[j].src.1 == originals[i].src.1 {
            return Some(j);
        }
        j += 1;
    }
    None
}

fn close(note: &Note, adjacent: &Note) -> (r: bool)
    ensures
        r == is_close(*note, *adjacent),
{
    let gap: i128 = if adjacent.on < note.on {
        note.on as i128 - adjacent.off as i128
    } else {
        adjacent.on as i128 - note.off as i128
    };
    let step: i64 = adjacent.pitch as i64 - note.pitch as i64;
    0 <= gap && gap <= 96 && -12 <= step && step <= 12
}

/// Tells whether a note that is held should be kept from an attack of another voice.
pub fn held_source_lead(originals: &[Note], held: usize, incoming: usize, strong: bool) -> (r: bool)
    requires
        held < originals.len(),
        incoming < originals.len(),
    ensures
        r == leads_source(originals@, held as int, incoming as int, strong),
{
    let note = originals[held];
    let next = originals[incoming];
    if (note.src.0 == next.src.0 && note.src.1 == next.src.1) || (note.pitch as i64
        - next.pitch as i64) < 12 || !strong {
        return false;
    }
    let before = match find_predecessor(originals, held) {
        Some(j) => close(&note, &originals[j]),
        None => false,
    };
    let behind = match find_successor(originals, held) {
        Some(j) => close(&note, &originals[j]),
        None => false,
    };
    before || behind
}

/// The tempos that a part carries: every first of the parts of a track does.
pub open spec fn carried(tempos: Seq<Tempo>, parts: int, slot: int) -> Seq<Tempo> {
    if slot % parts == 0 {
        tempos
    } else {
        Seq::empty()
    }
}

/// How far an attack is from the last note of a part; one of the same voice is close.
pub open spec fn distance_of(s: Stage, originals: Seq<Note>, i: usize, slot: int) -> int {
    let history = s.slots[slot];
    if history.len() == 0 {
        12
    } else {
        let j = history.last();
        let step = s.notes[i as int].pitch - s.notes[j as int].pitch;
        (if step < 0 {
            -step
        } else {
            step
        }) - (if predecessor(originals, i as int) == Some(j) {
            24int
        } else {
            0int
        })
    }
}

/// Where a part stands in an attack's order of preference, where it may take it.
pub open spec fn offer_key(
    s: Stage,
    originals: Seq<Note>,
    tempos: Seq<Tempo>,
    parts: int,
    tick: Tick,
    handoff: Option<Handoff>,
    i: usize,
    slot: int,
    offer: Offer,
) -> Option<Key> {
    let own = carried(tempos, parts, slot);
    let history = s.slots[slot];
    let supporting = handoff matches Some(h) && i == h.support;
    let barred = handoff matches Some(h) && (slot == h.held_slot || ((i == h.lead || i == h.support)
        && slot >= parts));
    let end: Tick = if history.len() == 0 {
        0
    } else {
        s.notes[history.last() as int].off
    };
    let distance = distance_of(s, originals, i, slot) as i64;
    if barred || !is_exact_span(tick, s.notes[i as int].off, own) {
        None
    } else if end > tick {
        let j = history.last() as int;
        let age = tick - s.notes[j].on;
        if slot >= parts || age < 24 || (age < 96 && !offer.outweighs && !supporting)
            || !is_exact_span(s.notes[j].on, tick, own) {
            None
        } else if leads_source(originals, j, i as int, offer.strong) {
            Some((3, offer.holding, distance))
        } else {
            Some((1, offer.holding, distance))
        }
    } else if !is_exact_span(end, tick, own) {
        None
    } else if slot >= parts {
        Some((2, 0, distance))
    } else {
        Some((0, 0, distance))
    }
}

/// The first parts that an attack may take, with where they stand.
pub open spec fn offers_of(
    s: Stage,
    originals: Seq<Note>,
    tempos: Seq<Tempo>,
    parts: int,
    tick: Tick,
    handoff: Option<Handoff>,
    i: usize,
    offers: Seq<Offer>,
    n: int,
) -> Seq<(usize, Key)>
    decreases n,
{
    if n <= 0 {
        Seq::empty()
    } else {
        let before = offers_of(s, originals, tempos, parts, tick, handoff, i, offers, n - 1);
        match offer_key(
            s,
            originals,
            tempos,
            parts,
            tick,
            handoff,
            i,
            n - 1,
            offers[n - 1],
        ) {
            Some(key) => before.push(((n - 1) as usize, key)),
            None => before,
        }
    }
}

/// The parts that an attack may take, in its order of preference.
pub open spec fn preferences(
    s: Stage,
    originals: Seq<Note>,
    tempos: Seq<Tempo>,
    parts: int,
    tick: Tick,
    handoff: Option<Handoff>,
    i: usize,
    offers: Seq<Offer>,
) -> Seq<usize> {
    stable_sort(
        offers_of(
            s,
            originals,
            tempos,
            parts,
            tick,
            handoff,
            i,
            offers,
            s.slots.len() as int,
        ),
        |o: (usize, Key)| o.1,
    ).map_values(|o: (usize, Key)| o.0)
}

/// Where a part stands in an attack's order of preference, where it may take it.
fn weigh(
    notes: &Vec<Note>,
    slots: &Vec<Vec<usize>>,
    policy: &Policy,
    tick: Tick,
    handoff: &Option<Handoff>,
    i: usize,
    slot: usize,
    offer: &Offer,
) -> (r: Option<Key>)
    requires
        is_stage(stage_of(notes@, slots@)),
        are_timed(notes@),
        policy.originals.len() == notes.len(),
        i < notes.len(),
        slot < slots.len(),
        policy.parts > 0,
        tick >= 0,
    ensures
        r == offer_key(
            stage_of(notes@, slots@),
            policy.originals@,
            policy.tempos@,
            policy.parts as int,
            tick,
            *handoff,
            i,
            slot as int,
            *offer,
        ),
{
    let ghost s = stage_of(notes@, slots@);
    let history = &slots[slot];
    proof {
        assert(s.slots[slot as int] == history@);
        if history.len() > 0 {
            assert(s.slots[slot as int][history.len() - 1] < notes.len());
        }
    }
    let supporting = match handoff {
        Some(h) => i == h.support,
        None => false,
    };
    let barred = match handoff {
        Some(h) => slot == h.held_slot || ((i == h.lead || i == h.support) && slot >= policy.parts),
        None => false,
    };
    if barred {
        return None;
    }
    let carries = slot % policy.parts == 0;
    let none: Vec<Tempo> = Vec::new();
    let own: &[Tempo] = if carries {
        policy.tempos
    } else {
        none.as_slice()
    };
    proof {
        assert(own@ =~= carried(policy.tempos@, policy.parts as int, slot as int));
    }
    if !exact_span(tick, notes[i].off, own) {
        return None;
    }
    let (end, distance): (Tick, i64) = if history.len() == 0 {
        (0, 12)
    } else {
        let j = history[history.len() - 1];
        let step: i64 = notes[i].pitch as i64 - notes[j].pitch as i64;
        let far: i64 = if step < 0 {
            -step
        } else {
            step
        };
        let same: bool = match find_predecessor(policy.originals, i) {
            Some(p) => p == j,
            None => false,
        };
        (
            notes[j].off,
            if same {
                far - 24
            } else {
                far
            },
        )
    };
    if end > tick {
        let j = history[history.len() - 1];
        proof {
            assert(0 <= notes@[j as int].on);
        }
        let age: Tick = tick - notes[j].on;
        if slot >= policy.parts || age < 24 || (age < 96 && !offer.outweighs && !supporting)
            || !exact_span(notes[j].on, tick, own) {
            return None;
        }
        if held_source_lead(policy.originals, j, i, offer.strong) {
            Some((3, offer.holding, distance))
        } else {
            Some((1, offer.holding, distance))
        }
    } else if !exact_span(end, tick, own) {
        None
    } else if slot >= policy.parts {
        Some((2, 0, distance))
    } else {
        Some((0, 0, distance))
    }
}

/// The parts that an attack may take, in its order of preference.
#[verifier::rlimit(40)]
pub fn prefer(
    notes: &Vec<Note>,
    slots: &Vec<Vec<usize>>,
    policy: &Policy,
    tick: Tick,
    handoff: &Option<Handoff>,
    i: usize,
    offers: &Vec<Offer>,
) -> (r: Vec<usize>)
    requires
        is_stage(stage_of(notes@, slots@)),
        are_timed(notes@),
        policy.originals.len() == notes.len(),
        i < notes.len(),
        offers.len() == slots.len(),
        policy.parts > 0,
        tick >= 0,
    ensures
        r@ == preferences(
            stage_of(notes@, slots@),
            policy.originals@,
            policy.tempos@,
            policy.parts as int,
            tick,
            *handoff,
            i,
            offers@,
        ),
        forall|k: int| 0 <= k < r.len() ==> (#[trigger] r@[k]) < slots.len(),
{
    let ghost s = stage_of(notes@, slots@);
    let mut found: Vec<usize> = Vec::new();
    let mut keys: Vec<Key> = Vec::new();
    let ghost mut list: Seq<(usize, Key)> = Seq::empty();
    let mut slot: usize = 0;
    while slot < slots.len()
        invariant
            slot <= slots.len(),
            s == stage_of(notes@, slots@),
            is_stage(s),
            are_timed(notes@),
            policy.originals.len() == notes.len(),
            i < notes.len(),
            offers.len() == slots.len(),
            policy.parts > 0,
            tick >= 0,
            list == offers_of(
                s,
                policy.originals@,
                policy.tempos@,
                policy.parts as int,
                tick,
                *handoff,
                i,
                offers@,
                slot as int,
            ),
            found.len() == list.len(),
            keys.len() == list.len(),
            forall|k: int| 0 <= k < list.len() ==> (#[trigger] list[k]).0 == found[k] && list[k].1 == keys[k],
            forall|k: int| 0 <= k < found.len() ==> (#[trigger] found[k]) < slots.len(),
        decreases slots.len() - slot,
    {
        match weigh(notes, slots, policy, tick, handoff, i, slot, &offers[slot]) {
            Some(key) => {
                found.push(slot);
                keys.push(key);
                proof {
                    list = list.push((slot, key));
                }
            },
            None => {},
        }
        slot += 1;
    }
    let sequence = order(&keys);
    let ghost key = |o: (usize, Key)| o.1;
    let ghost f = |o: (usize, Key)| o.0;
    let ghost at = |k: usize| list[k as int];
    proof {
        lemma_order_sorts(list, keys@, key);
    }
    let mut r: Vec<usize> = Vec::new();
    let mut k: usize = 0;
    while k < sequence.len()
        invariant
            k <= sequence.len() == found.len() == list.len(),
            forall|k: int| 0 <= k < sequence.len() ==> (#[trigger] sequence[k]) < found.len(),
            forall|k: int| 0 <= k < list.len() ==> (#[trigger] list[k]).0 == found[k],
            forall|k: int| 0 <= k < found.len() ==> (#[trigger] found[k]) < slots.len(),
            r.len() == k,
            forall|j: int| 0 <= j < k ==> #[trigger] r[j] == list[sequence[j] as int].0 && r[j] < slots.len(),
        decreases sequence.len() - k,
    {
        proof {
            assert(list[sequence[k as int] as int].0 == found[sequence[k as int] as int]);
        }
        r.push(found[sequence[k]]);
        k += 1;
    }
    proof {
        let sorted = stable_sort(list, key);
        assert(sequence@.map_values(at) == sorted);
        assert forall|j: int| 0 <= j < r.len() implies r@[j] == sorted.map_values(f)[j] by {
            assert(sequence@.map_values(at)[j] == at(sequence@[j]));
            assert(r[j] == list[sequence[j] as int].0);
        }
        assert(r@ =~= sorted.map_values(f));
    }
    r
}

} // verus!
