//! What the notes of a score are like before they are arranged, and how loud they become.
use crate::score::{part_views, Note, Score, Tick, TrackView};
use vstd::prelude::*;

verus! {

/// How notes are given to tracks and parts.
#[derive(Clone, Copy, Debug, PartialEq, Eq, Structural)]
pub enum Layout {
    Voices,
    Hands,
    Roles,
    Learned,
}

impl Layout {
    pub open spec fn label(self) -> Seq<char> {
        match self {
            Layout::Voices => "voices"@,
            Layout::Hands => "hands"@,
            Layout::Roles => "roles"@,
            Layout::Learned => "learned"@,
        }
    }

    /// The word for a layout.
    pub fn name(self) -> (name: &'static str)
        ensures
            name@ == self.label(),
    {
        match self {
            Layout::Voices => "voices",
            Layout::Hands => "hands",
            Layout::Roles => "roles",
            Layout::Learned => "learned",
        }
    }
}

/// How the volume of all notes is moved.
#[derive(Clone, Copy, Debug, PartialEq, Eq, Structural)]
pub enum Gain {
    Unchanged,
    Auto,
    Shift(i32),
}

/// The volumes that sounding notes are brought into.
#[derive(Clone, Copy, Debug, PartialEq, Eq, Structural)]
pub struct VolumeRange {
    pub min: i32,
    pub max: i32,
}

/// A volume brought into a range: 1 to 15 are spread evenly over it, rounded, and silence
/// stays silence.
pub open spec fn compressed(range: VolumeRange, volume: int) -> int {
    if volume == 0 {
        0
    } else {
        range.min + ((volume - 1) * (range.max - range.min) + 7) / 14
    }
}

pub open spec fn is_range(range: VolumeRange) -> bool {
    1 <= range.min <= range.max <= 15
}

impl VolumeRange {
    /// Whether a range leads from a positive volume up to the greatest at most.
    pub fn is_valid(self) -> (r: bool)
        ensures
            r == is_range(self),
    {
        1 <= self.min && self.min <= self.max && self.max <= 15
    }

    /// Brings a volume into the range.
    pub fn compress(self, volume: i32) -> (r: i32)
        requires
            is_range(self),
            0 <= volume <= 15,
        ensures
            r == compressed(self, volume as int),
            volume > 0 ==> self.min <= r <= self.max,
    {
        if volume == 0 {
            0
        } else {
            proof {
                let v = volume - 1;
                let d = self.max - self.min;
                assert(0 <= v * d <= 14 * d) by (nonlinear_arith)
                    requires
                        0 <= v <= 14,
                        0 <= d,
                ;
            }
            self.min + ((volume - 1) * (self.max - self.min) + 7) / 14
        }
    }
}

/// A louder note stays at least as loud in a range.
pub proof fn law_compression_keeps_order(range: VolumeRange, a: int, b: int)
    requires
        is_range(range),
        0 <= a <= b <= 15,
    ensures
        compressed(range, a) <= compressed(range, b),
        0 <= compressed(range, a) <= 15,
        a > 0 ==> range.min <= compressed(range, a) <= range.max,
        a == 1 ==> compressed(range, a) == range.min,
        a == 15 ==> compressed(range, a) == range.max,
{
    let d: int = range.max - range.min;
    if a > 0 {
        assert(0 <= (a - 1) * d <= (b - 1) * d <= 14 * d) by (nonlinear_arith)
            requires
                1 <= a <= b <= 15,
                0 <= d,
        ;
        assert(a == 1 ==> (a - 1) * d == 0) by (nonlinear_arith);
        assert(a == 15 ==> (a - 1) * d == 14 * d) by (nonlinear_arith);
    } else if b > 0 {
        assert(0 <= (b - 1) * d) by (nonlinear_arith)
            requires
                1 <= b,
                0 <= d,
        ;
    }
}

/// What became of the notes of a score.
#[derive(Clone, Copy, Debug, PartialEq, Eq, Structural)]
pub struct FoldStats {
    pub total: usize,
    pub kept: usize,
    pub truncated: usize,
    pub dropped: usize,
    pub spill: usize,
    pub volume_shift: i32,
}

impl Default for FoldStats {
    fn default() -> (stats: Self)
        ensures
            stats == (FoldStats {
                total: 0,
                kept: 0,
                truncated: 0,
                dropped: 0,
                spill: 0,
                volume_shift: 0,
            }),
    {
        FoldStats { total: 0, kept: 0, truncated: 0, dropped: 0, spill: 0, volume_shift: 0 }
    }
}

/// An arranged score, with a report on it.
#[derive(Debug)]
pub struct FoldResult {
    pub score: Score,
    pub report: String,
    pub stats: FoldStats,
}

/// Why the notes of a score cannot be arranged. Tracks and parts are counted from one.
#[derive(Clone, Copy, Debug, PartialEq, Eq, Structural)]
pub enum NoteFault {
    /// A note overlaps the one before it, comes before it, or does not last.
    Overlap { track: usize, part: usize, tick: Tick },
    /// A note is too short to be written.
    Short { track: usize, part: usize, tick: Tick },
    /// A volume is none of the language.
    Volume { track: usize, part: usize, volume: i32 },
}

/// A note with what it is weighed by: how much the pitch moves around it and at its start,
/// in halves, its volume in the source, and its weight in eighths.
#[derive(Clone, Copy, Debug)]
pub struct WorkingNote {
    pub note: Note,
    pub activity: u8,
    pub onset_activity: u8,
    pub original_velocity: i32,
    pub base: i64,
}

/// The first of the notes before one that have ended less than a quarter before it begins.
pub open spec fn first_near(part: Seq<Note>, i: int, j: int) -> int
    decreases j,
{
    if 0 < j <= part.len() && part[j - 1].off > part[i].on - 96 {
        first_near(part, i, j - 1)
    } else {
        j
    }
}

/// The end of the notes that begin less than a quarter behind the start of one.
pub open spec fn last_near(part: Seq<Note>, i: int, k: int) -> int
    decreases part.len() - k,
{
    if 0 <= k < part.len() && part[k].on < part[i].on + 96 {
        last_near(part, i, k + 1)
    } else {
        k
    }
}

/// Whether a pitch occurs between two places.
pub open spec fn occurs(part: Seq<Note>, j: int, k: int, pitch: i32) -> bool {
    exists|q: int| j <= q < k && (#[trigger] part[q]).pitch == pitch
}

/// How many different pitches there are between two places.
pub open spec fn pitch_count(part: Seq<Note>, j: int, k: int) -> int
    decreases k - j,
{
    if k <= j {
        0
    } else {
        pitch_count(part, j, k - 1) + (if occurs(part, j, k - 1, part[k - 1].pitch) {
            0int
        } else {
            1int
        })
    }
}

/// Whether the pitch moves to a note, and whether it moves on from it, in halves.
pub open spec fn activity_of(part: Seq<Note>, i: int) -> int {
    (if i > 0 && part[i - 1].pitch != part[i].pitch {
        1int
    } else {
        0int
    }) + (if i + 1 < part.len() && part[i + 1].pitch != part[i].pitch {
        1int
    } else {
        0int
    })
}

/// Whether the pitch moves to a note from one that ended no more than a quarter before.
pub open spec fn onset_of(part: Seq<Note>, i: int) -> int {
    if i > 0 && part[i - 1].pitch != part[i].pitch && part[i].on - part[i - 1].off <= 96 {
        1
    } else {
        0
    }
}

pub open spec fn least_of(a: int, b: int) -> int {
    if a < b {
        a
    } else {
        b
    }
}

/// What a note weighs in eighths: by its volume, its movement, the pitches around it and its
/// length.
pub open spec fn base_of(part: Seq<Note>, i: int) -> int {
    24 * part[i].vel + 240 * activity_of(part, i) + 64 * least_of(
        pitch_count(part, first_near(part, i, i), last_near(part, i, i)),
        6,
    ) + least_of(part[i].off - part[i].on, 384)
}

pub open spec fn working(part: Seq<Note>, i: int) -> WorkingNote {
    WorkingNote {
        note: part[i],
        activity: activity_of(part, i) as u8,
        onset_activity: onset_of(part, i) as u8,
        original_velocity: part[i].vel,
        base: base_of(part, i) as i64,
    }
}

/// What is wrong with a note.
pub open spec fn note_fault(part: Seq<Note>, i: int, track: int, index: int) -> Option<NoteFault> {
    let previous = if i > 0 {
        part[i - 1].off as int
    } else {
        0
    };
    let note = part[i];
    let t = (track + 1) as usize;
    let p = (index + 1) as usize;
    if note.on < previous || note.off <= note.on {
        Some(NoteFault::Overlap { track: t, part: p, tick: note.on })
    } else if note.off - note.on < 6 {
        Some(NoteFault::Short { track: t, part: p, tick: note.on })
    } else if note.vel < 0 || note.vel > 15 {
        Some(NoteFault::Volume { track: t, part: p, volume: note.vel })
    } else {
        None
    }
}

/// Notes with the first ones of a part.
pub open spec fn with_part_notes(
    before: Seq<WorkingNote>,
    part: Seq<Note>,
    track: int,
    index: int,
    n: int,
) -> Result<Seq<WorkingNote>, NoteFault>
    decreases n,
{
    if n <= 0 {
        Ok(before)
    } else {
        match with_part_notes(before, part, track, index, n - 1) {
            Err(e) => Err(e),
            Ok(notes) => match note_fault(part, n - 1, track, index) {
                Some(fault) => Err(fault),
                None => Ok(notes.push(working(part, n - 1))),
            },
        }
    }
}

pub open spec fn with_track_notes(
    before: Seq<WorkingNote>,
    parts: Seq<Seq<Note>>,
    track: int,
    n: int,
) -> Result<Seq<WorkingNote>, NoteFault>
    decreases n,
{
    if n <= 0 {
        Ok(before)
    } else {
        match with_track_notes(before, parts, track, n - 1) {
            Err(e) => Err(e),
            Ok(notes) => with_part_notes(
                notes,
                parts[n - 1],
                track,
                n - 1,
                parts[n - 1].len() as int,
            ),
        }
    }
}

/// The notes of the first tracks with what they are weighed by.
pub open spec fn analyzed(tracks: Seq<TrackView>, n: int) -> Result<Seq<WorkingNote>, NoteFault>
    decreases n,
{
    if n <= 0 {
        Ok(Seq::empty())
    } else {
        match analyzed(tracks, n - 1) {
            Err(e) => Err(e),
            Ok(notes) => with_track_notes(
                notes,
                tracks[n - 1].parts,
                n - 1,
                tracks[n - 1].parts.len() as int,
            ),
        }
    }
}

proof fn lemma_part_notes_fail(before: Seq<WorkingNote>, part: Seq<Note>, track: int, index: int, from: int, to: int)
    requires
        0 <= from <= to,
        with_part_notes(before, part, track, index, from) is Err,
    ensures
        with_part_notes(before, part, track, index, to) == with_part_notes(
            before,
            part,
            track,
            index,
            from,
        ),
    decreases to - from,
{
    if from < to {
        lemma_part_notes_fail(before, part, track, index, from, to - 1);
    }
}

proof fn lemma_track_notes_fail(before: Seq<WorkingNote>, parts: Seq<Seq<Note>>, track: int, from: int, to: int)
    requires
        0 <= from <= to,
        with_track_notes(before, parts, track, from) is Err,
    ensures
        with_track_notes(before, parts, track, to) == with_track_notes(before, parts, track, from),
    decreases to - from,
{
    if from < to {
        lemma_track_notes_fail(before, parts, track, from, to - 1);
    }
}

proof fn lemma_analyzed_fails(tracks: Seq<TrackView>, from: int, to: int)
    requires
        0 <= from <= to,
        analyzed(tracks, from) is Err,
    ensures
        analyzed(tracks, to) == analyzed(tracks, from),
    decreases to - from,
{
    if from < to {
        lemma_analyzed_fails(tracks, from, to - 1);
    }
}

/// Counts the pitches around a note.
fn count_near(part: &Vec<Note>, i: usize) -> (n: usize)
    requires
        i < part.len(),
    ensures
        n == pitch_count(part@, first_near(part@, i as int, i as int), last_near(part@, i as int, i as int)),
{
    let on = part[i].on;
    let mut j: usize = i;
    while j > 0 && part[j - 1].off as i128 > on as i128 - 96
        invariant
            j <= i < part.len(),
            on == part[i as int].on,
            first_near(part@, i as int, i as int) == first_near(part@, i as int, j as int),
        decreases j,
    {
        j -= 1;
    }
    let mut k: usize = i;
    while k < part.len() && (part[k].on as i128) < on as i128 + 96
        invariant
            i <= k <= part.len(),
            i < part.len(),
            on == part[i as int].on,
            last_near(part@, i as int, i as int) == last_near(part@, i as int, k as int),
        decreases part.len() - k,
    {
        k += 1;
    }
    let mut n: usize = 0;
    let mut q: usize = j;
    while q < k
        invariant
            j <= q <= k <= part.len(),
            n == pitch_count(part@, j as int, q as int),
            n <= q,
        decreases k - q,
    {
        let pitch = part[q].pitch;
        let mut known: bool = false;
        let mut p: usize = j;
        while p < q
            invariant
                j <= p <= q < part.len(),
                pitch == part[q as int].pitch,
                known == occurs(part@, j as int, p as int, pitch),
            decreases q - p,
        {
            if part[p].pitch == pitch {
                known = true;
                proof {
                    assert(part@[p as int].pitch == pitch);
                }
            }
            proof {
                if known && part@[p as int].pitch != pitch {
                    let x = choose|x: int| j <= x < p && (#[trigger] part@[x]).pitch == pitch;
                    assert(part@[x].pitch == pitch);
                }
                assert(known == occurs(part@, j as int, p + 1, pitch));
            }
            p += 1;
        }
        if !known {
            n += 1;
        }
        q += 1;
    }
    n
}

/// Tells what is wrong with a note.
fn find_fault(part: &Vec<Note>, i: usize, track: usize, index: usize) -> (r: Option<NoteFault>)
    requires
        i < part.len(),
        track < usize::MAX,
        index < usize::MAX,
        i > 0 ==> part[i - 1].off >= 0,
    ensures
        r == note_fault(part@, i as int, track as int, index as int),
        r is None ==> part[i as int].off >= 0 && part[i as int].on >= 0,
{
    let note = part[i];
    let previous: Tick = if i > 0 {
        part[i - 1].off
    } else {
        0
    };
    if note.on < previous || note.off <= note.on {
        return Some(NoteFault::Overlap { track: track + 1, part: index + 1, tick: note.on });
    }
    if note.off - note.on < 6 {
        return Some(NoteFault::Short { track: track + 1, part: index + 1, tick: note.on });
    }
    if note.vel < 0 || note.vel > 15 {
        return Some(NoteFault::Volume { track: track + 1, part: index + 1, volume: note.vel });
    }
    None
}

fn weigh_note(part: &Vec<Note>, i: usize, track: usize, index: usize) -> (w: WorkingNote)
    requires
        i < part.len(),
        i > 0 ==> part[i - 1].off >= 0,
        note_fault(part@, i as int, track as int, index as int) is None,
    ensures
        w == working(part@, i as int),
        0 <= w.base <= 24 * 15 + 480 + 384 + 384,
{
    let note = part[i];
    let mut activity: u8 = 0;
    let mut onset: u8 = 0;
    if i > 0 && part[i - 1].pitch != note.pitch {
        activity += 1;
        if note.on - part[i - 1].off <= 96 {
            onset = 1;
        }
    }
    if i + 1 < part.len() && part[i + 1].pitch != note.pitch {
        activity += 1;
    }
    let near = count_near(part, i);
    let pitches: i64 = if near < 6 {
        near as i64
    } else {
        6
    };
    let length: i64 = if note.off - note.on < 384 {
        note.off - note.on
    } else {
        384
    };
    let base: i64 = 24 * note.vel as i64 + 240 * activity as i64 + 64 * pitches + length;
    WorkingNote {
        note,
        activity,
        onset_activity: onset,
        original_velocity: note.vel,
        base,
    }
}

fn analyze_part(out: &mut Vec<WorkingNote>, part: &Vec<Note>, track: usize, index: usize) -> (r: Result<(), NoteFault>)
    requires
        track < usize::MAX,
        index < usize::MAX,
    ensures
        match r {
            Ok(_) => with_part_notes(
                old(out)@,
                part@,
                track as int,
                index as int,
                part.len() as int,
            ) == Ok::<_, NoteFault>(final(out)@),
            Err(e) => with_part_notes(
                old(out)@,
                part@,
                track as int,
                index as int,
                part.len() as int,
            ) == Err::<Seq<WorkingNote>, _>(e),
        },
{
    let ghost before = out@;
    let mut i: usize = 0;
    while i < part.len()
        invariant
            i <= part.len(),
            track < usize::MAX,
            index < usize::MAX,
            before == old(out)@,
            i > 0 ==> part[i - 1].off >= 0,
            with_part_notes(before, part@, track as int, index as int, i as int) == Ok::<
                _,
                NoteFault,
            >(out@),
        decreases part.len() - i,
    {
        match find_fault(part, i, track, index) {
            Some(fault) => {
                proof {
                    lemma_part_notes_fail(
                        before,
                        part@,
                        track as int,
                        index as int,
                        i + 1,
                        part.len() as int,
                    );
                }
                return Err(fault);
            },
            None => {
                let w = weigh_note(part, i, track, index);
                out.push(w);
            },
        }
        i += 1;
    }
    Ok(())
}

/// Weighs the notes of a score, or tells what is wrong with the first that cannot be
/// arranged.
pub fn analyze(score: &Score) -> (r: Result<Vec<WorkingNote>, NoteFault>)
    ensures
        match r {
            Ok(notes) => analyzed(score@.tracks, score@.tracks.len() as int) == Ok::<_, NoteFault>(
                notes@,
            ),
            Err(e) => analyzed(score@.tracks, score@.tracks.len() as int) == Err::<
                Seq<WorkingNote>,
                _,
            >(e),
        },
{
    let ghost tracks = score@.tracks;
    let mut out: Vec<WorkingNote> = Vec::new();
    let mut ti: usize = 0;
    while ti < score.tracks.len()
        invariant
            ti <= score.tracks.len(),
            tracks == score@.tracks,
            analyzed(tracks, ti as int) == Ok::<_, NoteFault>(out@),
        decreases score.tracks.len() - ti,
    {
        let parts = &score.tracks[ti].parts;
        let ghost before = out@;
        let ghost all = part_views(parts@);
        let mut pi: usize = 0;
        while pi < parts.len()
            invariant
                pi <= parts.len(),
                ti < score.tracks.len(),
                tracks == score@.tracks,
                all == part_views(parts@),
                all == tracks[ti as int].parts,
                analyzed(tracks, ti as int) == Ok::<_, NoteFault>(before),
                with_track_notes(before, all, ti as int, pi as int) == Ok::<_, NoteFault>(out@),
            decreases parts.len() - pi,
        {
            match analyze_part(&mut out, &parts[pi], ti, pi) {
                Err(e) => {
                    proof {
                        lemma_track_notes_fail(
                            before,
                            all,
                            ti as int,
                            pi + 1,
                            all.len() as int,
                        );
                        lemma_analyzed_fails(tracks, ti + 1, tracks.len() as int);
                    }
                    return Err(e);
                },
                Ok(_) => {},
            }
            pi += 1;
        }
        ti += 1;
    }
    Ok(out)
}

/// The loudest of the first of some notes.
pub open spec fn loudest(notes: Seq<WorkingNote>, kept: Seq<usize>, n: int) -> i32
    decreases n,
{
    if n <= 1 {
        notes[kept[0] as int].note.vel
    } else if notes[kept[n - 1] as int].note.vel > loudest(notes, kept, n - 1) {
        notes[kept[n - 1] as int].note.vel
    } else {
        loudest(notes, kept, n - 1)
    }
}

/// By how much the volume of the notes is moved: so that the loudest is as loud as can be,
/// or by a number.
pub open spec fn shift_of(notes: Seq<WorkingNote>, kept: Seq<usize>, gain: Gain) -> int {
    if kept.len() == 0 {
        0
    } else {
        match gain {
            Gain::Unchanged => 0,
            Gain::Auto => 15 - loudest(notes, kept, kept.len() as int),
            Gain::Shift(shift) => shift as int,
        }
    }
}

pub open spec fn within_volume(v: int) -> int {
    if v < 0 {
        0
    } else if v > 15 {
        15
    } else {
        v
    }
}

/// A note with its volume moved, no further than volumes go.
pub open spec fn shifted(w: WorkingNote, shift: int) -> WorkingNote {
    WorkingNote {
        note: Note {
            on: w.note.on,
            off: w.note.off,
            pitch: w.note.pitch,
            vel: within_volume(w.note.vel + shift) as i32,
            src: w.note.src,
        },
        activity: w.activity,
        onset_activity: w.onset_activity,
        original_velocity: w.original_velocity,
        base: w.base,
    }
}

/// Notes of which the first that are kept have their volume moved.
pub open spec fn louder(notes: Seq<WorkingNote>, kept: Seq<usize>, shift: int, n: int) -> Seq<WorkingNote>
    decreases n,
{
    if n <= 0 {
        notes
    } else {
        let before = louder(notes, kept, shift, n - 1);
        before.update(kept[n - 1] as int, shifted(before[kept[n - 1] as int], shift))
    }
}

/// How many of the first notes that are kept would become louder or softer than volumes go.
pub open spec fn clipped_of(notes: Seq<WorkingNote>, kept: Seq<usize>, shift: int, n: int) -> int
    decreases n,
{
    if n <= 0 {
        0
    } else {
        let v = louder(notes, kept, shift, n - 1)[kept[n - 1] as int].note.vel + shift;
        clipped_of(notes, kept, shift, n - 1) + (if within_volume(v) != v {
            1int
        } else {
            0int
        })
    }
}

/// The loudest of the notes that are kept.
pub fn find_loudest(notes: &Vec<WorkingNote>, kept: &Vec<usize>) -> (r: Option<i32>)
    requires
        forall|k: int| 0 <= k < kept.len() ==> (#[trigger] kept[k]) < notes.len(),
    ensures
        r == (if kept.len() == 0 {
            None
        } else {
            Some(loudest(notes@, kept@, kept.len() as int))
        }),
{
    if kept.len() == 0 {
        return None;
    }
    proof {
        assert(kept[0] < notes.len());
    }
    let mut top: i32 = notes[kept[0]].note.vel;
    let mut k: usize = 1;
    while k < kept.len()
        invariant
            1 <= k <= kept.len(),
            forall|k: int| 0 <= k < kept.len() ==> (#[trigger] kept[k]) < notes.len(),
            top == loudest(notes@, kept@, k as int),
        decreases kept.len() - k,
    {
        proof {
            assert(kept[k as int] < notes.len());
        }
        if notes[kept[k]].note.vel > top {
            top = notes[kept[k]].note.vel;
        }
        k += 1;
    }
    Some(top)
}

/// Moves the volume of the notes that are kept; returns by how much, and how many of them
/// went as far as volumes go.
pub fn shift_volume(notes: &mut Vec<WorkingNote>, kept: &Vec<usize>, gain: Gain) -> (r: (i32, usize))
    requires
        forall|k: int| 0 <= k < kept.len() ==> (#[trigger] kept[k]) < old(notes).len(),
        forall|i: int| 0 <= i < old(notes).len() ==> 0 <= (#[trigger] old(notes)[i]).note.vel <= 15,
    ensures
        r.0 == shift_of(old(notes)@, kept@, gain),
        final(notes)@ == louder(old(notes)@, kept@, r.0 as int, kept.len() as int),
        r.1 == clipped_of(old(notes)@, kept@, r.0 as int, kept.len() as int),
        forall|i: int|
            0 <= i < final(notes).len() ==> 0 <= (#[trigger] final(notes)[i]).note.vel <= 15,
        final(notes).len() == old(notes).len(),
{
    let ghost before = notes@;
    proof {
        if kept.len() > 0 {
            lemma_loudest(before, kept@, kept.len() as int);
        }
    }
    let shift: i32 = match find_loudest(notes, kept) {
        None => 0,
        Some(top) => match gain {
            Gain::Unchanged => 0,
            Gain::Auto => 15 - top,
            Gain::Shift(shift) => shift,
        },
    };
    let mut clipped: usize = 0;
    let mut k: usize = 0;
    while k < kept.len()
        invariant
            k <= kept.len(),
            before.len() == notes.len(),
            forall|k: int| 0 <= k < kept.len() ==> (#[trigger] kept[k]) < notes.len(),
            notes@ == louder(before, kept@, shift as int, k as int),
            clipped == clipped_of(before, kept@, shift as int, k as int),
            clipped <= k,
            forall|i: int| 0 <= i < notes.len() ==> 0 <= (#[trigger] notes[i]).note.vel <= 15,
        decreases kept.len() - k,
    {
        let i = kept[k];
        proof {
            assert(kept[k as int] < notes.len());
        }
        let w = notes[i];
        let value: i64 = w.note.vel as i64 + shift as i64;
        let bounded: i64 = if value < 0 {
            0
        } else if value > 15 {
            15
        } else {
            value
        };
        if value != bounded {
            clipped += 1;
        }
        let note = Note {
            on: w.note.on,
            off: w.note.off,
            pitch: w.note.pitch,
            vel: bounded as i32,
            src: w.note.src,
        };
        notes.set(
            i,
            WorkingNote {
                note,
                activity: w.activity,
                onset_activity: w.onset_activity,
                original_velocity: w.original_velocity,
                base: w.base,
            },
        );
        k += 1;
    }
    (shift, clipped)
}

proof fn lemma_loudest(notes: Seq<WorkingNote>, kept: Seq<usize>, n: int)
    requires
        1 <= n <= kept.len(),
        forall|k: int| 0 <= k < kept.len() ==> (#[trigger] kept[k]) < notes.len(),
        forall|i: int| 0 <= i < notes.len() ==> 0 <= (#[trigger] notes[i]).note.vel <= 15,
    ensures
        0 <= loudest(notes, kept, n) <= 15,
    decreases n,
{
    assert(kept[n - 1] < notes.len());
    assert(kept[0] < notes.len());
    if n > 1 {
        lemma_loudest(notes, kept, n - 1);
    }
}

} // verus!
