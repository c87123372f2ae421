//! What is counted of a note, of the notes around it and of those before it in its part, to
//! tell how much it matters.
use crate::order::keep;
use crate::score::{part_views, Note, Score, ScoreView, Tick, TrackView};
use vstd::prelude::*;

verus! {

/// How far back a part is looked at, in ticks.
pub const REACH: i64 = 384;

/// Notes that begin together, or that sound together, beside one of them: how many they are,
/// how many are lower and how many equally high, the highest pitch, the sums of the pitches
/// and of the durations, and the greatest volume, at least 1.
#[derive(Clone, Copy, Debug, PartialEq, Eq)]
pub struct Crowd {
    pub count: usize,
    pub below: usize,
    pub equal: usize,
    pub top: i32,
    pub pitches: i128,
    pub durations: i128,
    pub loudest: i32,
}

/// The notes of a part that end within the last 384 ticks before a note: how many they are,
/// how many of them begin within the last 96 ticks, how many pitches they have, the lowest
/// and the highest, for how long they sound within that time, their pitches times these
/// durations, and how much of that time is filled.
#[derive(Clone, Copy, Debug, PartialEq, Eq)]
pub struct Window {
    pub count: usize,
    pub recent: usize,
    pub distinct: usize,
    pub low: i32,
    pub high: i32,
    pub weight: i128,
    pub pitches: i128,
    pub occupied: i128,
}

/// What is counted of a note.
#[derive(Clone, Copy, Debug, PartialEq, Eq)]
pub struct Row {
    pub duration: Tick,
    pub pitch: i32,
    pub volume: i32,
    /// The notes that begin with it.
    pub attack: Crowd,
    /// The notes that sound when it begins.
    pub sounding: Crowd,
    /// The silence before it in its part, where that is no longer than 384 ticks.
    pub gap: Option<Tick>,
    /// The step from the note before it, or 0 where that is too far away.
    pub step: i64,
    pub window: Window,
    /// How long the pitch has been repeated at its end.
    pub run: Tick,
    /// 3 on a quarter, 2 on an eighth, 1 on a sixteenth, else 0.
    pub beat: u8,
}

pub open spec fn is_member(note: Note, tick: Tick, attack: bool) -> bool {
    if attack {
        note.on == tick
    } else {
        note.on <= tick < note.off
    }
}

pub open spec fn larger(a: i32, b: i32) -> i32 {
    if a < b {
        b
    } else {
        a
    }
}

pub open spec fn smaller(a: i32, b: i32) -> i32 {
    if b < a {
        b
    } else {
        a
    }
}

pub open spec fn one_if(b: bool) -> int {
    if b {
        1
    } else {
        0
    }
}

pub ghost struct CrowdView {
    pub count: int,
    pub below: int,
    pub equal: int,
    pub top: i32,
    pub pitches: int,
    pub durations: int,
    pub loudest: i32,
}

impl View for Crowd {
    type V = CrowdView;

    open spec fn view(&self) -> CrowdView {
        CrowdView {
            count: self.count as int,
            below: self.below as int,
            equal: self.equal as int,
            top: self.top,
            pitches: self.pitches as int,
            durations: self.durations as int,
            loudest: self.loudest,
        }
    }
}

/// Those of the first notes that begin at a tick, or that sound at it, beside a note of some
/// pitch that is one of them.
pub open spec fn crowd_of(notes: Seq<Note>, tick: Tick, attack: bool, pitch: i32, n: int) -> CrowdView
    decreases n,
{
    if n <= 0 {
        CrowdView {
            count: 0,
            below: 0,
            equal: 0,
            top: pitch,
            pitches: 0,
            durations: 0,
            loudest: 1,
        }
    } else {
        let c = crowd_of(notes, tick, attack, pitch, n - 1);
        let note = notes[n - 1];
        if is_member(note, tick, attack) {
            CrowdView {
                count: c.count + 1,
                below: c.below + one_if(note.pitch < pitch),
                equal: c.equal + one_if(note.pitch == pitch),
                top: larger(c.top, note.pitch),
                pitches: c.pitches + note.pitch,
                durations: c.durations + (note.off - note.on),
                loudest: larger(c.loudest, note.vel),
            }
        } else {
            c
        }
    }
}

/// Whether every note lasts and none begins before the score.
pub open spec fn are_lasting(notes: Seq<Note>) -> bool {
    forall|i: int| 0 <= i < notes.len() ==> 0 <= (#[trigger] notes[i]).on < notes[i].off
}

fn find_crowd(notes: &Vec<Note>, tick: Tick, attack: bool, pitch: i32) -> (c: Crowd)
    requires
        are_lasting(notes@),
    ensures
        c@ == crowd_of(notes@, tick, attack, pitch, notes.len() as int),
{
    let mut c = Crowd {
        count: 0,
        below: 0,
        equal: 0,
        top: pitch,
        pitches: 0,
        durations: 0,
        loudest: 1,
    };
    let mut i: usize = 0;
    while i < notes.len()
        invariant
            i <= notes.len(),
            are_lasting(notes@),
            c@ == crowd_of(notes@, tick, attack, pitch, i as int),
            c.count <= i,
            c.below <= i,
            c.equal <= i,
            -0x8000_0000 * i <= c.pitches <= 0x8000_0000 * i,
            0 <= c.durations <= 0x7fff_ffff_ffff_ffff * i,
        decreases notes.len() - i,
    {
        let note = &notes[i];
        let member = if attack {
            note.on == tick
        } else {
            note.on <= tick && tick < note.off
        };
        proof {
            assert(0 <= notes[i as int].on < notes[i as int].off);
            assert(0x7fff_ffff_ffff_ffff * (i + 1) <= 0x7fff_ffff_ffff_ffff
                * 0xffff_ffff_ffff_ffff);
        }
        if member {
            c.count = c.count + 1;
            if note.pitch < pitch {
                c.below = c.below + 1;
            }
            if note.pitch == pitch {
                c.equal = c.equal + 1;
            }
            if c.top < note.pitch {
                c.top = note.pitch;
            }
            c.pitches = c.pitches + note.pitch as i128;
            c.durations = c.durations + (note.off - note.on) as i128;
            if c.loudest < note.vel {
                c.loudest = note.vel;
            }
        }
        i += 1;
    }
    c
}

/// The first of the notes before one, counted back, that end within its reach.
pub open spec fn reach_start(part: Seq<Note>, k: int, j: int) -> int
    decreases j,
{
    if 0 < j && part[j - 1].off > part[k].on - REACH {
        reach_start(part, k, j - 1)
    } else {
        j
    }
}

pub ghost struct WindowView {
    pub count: int,
    pub recent: int,
    pub distinct: int,
    pub low: i32,
    pub high: i32,
    pub weight: int,
    pub pitches: int,
    pub occupied: int,
    /// The tick up to which the time is counted as filled.
    pub cursor: int,
}

pub open spec fn latest(a: int, b: int) -> int {
    if a < b {
        b
    } else {
        a
    }
}

pub open spec fn earliest(a: int, b: int) -> int {
    if b < a {
        b
    } else {
        a
    }
}

/// Whether one of the notes of a part from one on, up to another, has a pitch.
pub open spec fn has_pitch(part: Seq<Note>, from: int, to: int, pitch: i32) -> bool {
    exists|j: int| from <= j < to && (#[trigger] part[j]).pitch == pitch
}

/// The notes from one on, up to another, as they lie before a tick.
pub open spec fn window_of(part: Seq<Note>, tick: Tick, from: int, to: int) -> WindowView
    decreases to - from,
{
    if to <= from {
        WindowView {
            count: 0,
            recent: 0,
            distinct: 0,
            low: 0,
            high: 0,
            weight: 0,
            pitches: 0,
            occupied: 0,
            cursor: tick - REACH,
        }
    } else {
        let w = window_of(part, tick, from, to - 1);
        let note = part[to - 1];
        let left = latest(tick - REACH, note.on as int);
        let right = earliest(tick as int, note.off as int);
        let within = latest(right - left, 0);
        let begin = latest(left, w.cursor);
        WindowView {
            count: w.count + 1,
            recent: w.recent + one_if(note.on >= tick - 96),
            distinct: w.distinct + one_if(!has_pitch(part, from, to - 1, note.pitch)),
            low: if w.count == 0 {
                note.pitch
            } else {
                smaller(w.low, note.pitch)
            },
            high: if w.count == 0 {
                note.pitch
            } else {
                larger(w.high, note.pitch)
            },
            weight: w.weight + within,
            pitches: w.pitches + note.pitch * within,
            occupied: w.occupied + latest(right - begin, 0),
            cursor: if right > begin {
                right
            } else {
                w.cursor
            },
        }
    }
}

/// Whether a window is what is counted.
pub open spec fn counts(w: Window, v: WindowView) -> bool {
    &&& w.count == v.count
    &&& w.recent == v.recent
    &&& w.distinct == v.distinct
    &&& w.low == v.low
    &&& w.high == v.high
    &&& w.weight == v.weight
    &&& w.pitches == v.pitches
    &&& w.occupied == v.occupied
}

fn find_start(part: &Vec<Note>, k: usize) -> (from: usize)
    requires
        k < part.len(),
        are_lasting(part@),
    ensures
        from == reach_start(part@, k as int, k as int),
        from <= k,
{
    let mut j: usize = k;
    proof {
        assert(0 <= part[k as int].on);
    }
    while j > 0 && part[j - 1].off > part[k].on - REACH
        invariant
            j <= k < part.len(),
            0 <= part[k as int].on,
            reach_start(part@, k as int, j as int) == reach_start(part@, k as int, k as int),
        decreases j,
    {
        j -= 1;
    }
    j
}

fn find_pitch(part: &Vec<Note>, from: usize, to: usize, pitch: i32) -> (r: bool)
    requires
        from <= to <= part.len(),
    ensures
        r == has_pitch(part@, from as int, to as int, pitch),
{
    let mut j: usize = from;
    while j < to
        invariant
            from <= j <= to <= part.len(),
            forall|i: int| from <= i < j ==> (#[trigger] part[i]).pitch != pitch,
        decreases to - j,
    {
        if part[j].pitch == pitch {
            return true;
        }
        j += 1;
    }
    false
}

#[verifier::rlimit(40)]
fn find_window(part: &Vec<Note>, tick: Tick, from: usize, to: usize) -> (w: Window)
    requires
        from <= to <= part.len(),
        tick >= 0,
        are_lasting(part@),
    ensures
        counts(w, window_of(part@, tick, from as int, to as int)),
{
    let mut w = Window {
        count: 0,
        recent: 0,
        distinct: 0,
        low: 0,
        high: 0,
        weight: 0,
        pitches: 0,
        occupied: 0,
    };
    let mut cursor: i128 = tick as i128 - REACH as i128;
    let mut j: usize = from;
    while j < to
        invariant
            from <= j <= to <= part.len(),
            tick >= 0,
            are_lasting(part@),
            counts(w, window_of(part@, tick, from as int, j as int)),
            cursor == window_of(part@, tick, from as int, j as int).cursor,
            tick - REACH <= cursor <= tick,
            w.count <= j - from,
            w.recent <= j - from,
            w.distinct <= j - from,
            0 <= w.weight <= 384 * (j - from),
            0 <= w.occupied <= 384 * (j - from),
            -0xc0_0000_0000 * (j - from) <= w.pitches <= 0xc0_0000_0000 * (j - from),
        decreases to - j,
    {
        let ghost before = window_of(part@, tick, from as int, j as int);
        let note = &part[j];
        proof {
            assert(0 <= part[j as int].on < part[j as int].off);
        }
        let start: i128 = tick as i128 - REACH as i128;
        let left: i128 = if start < note.on as i128 {
            note.on as i128
        } else {
            start
        };
        let right: i128 = if note.off < tick {
            note.off as i128
        } else {
            tick as i128
        };
        let within: i128 = if right > left {
            right - left
        } else {
            0
        };
        let begin: i128 = if left < cursor {
            cursor
        } else {
            left
        };
        proof {
            assert(0 <= within <= 384);
            assert(-0xc0_0000_0000 <= note.pitch * within <= 0xc0_0000_0000) by (nonlinear_arith)
                requires
                    0 <= within <= 384,
                    -0x8000_0000 <= note.pitch <= 0x7fff_ffff,
            ;
        }
        if note.on as i128 >= tick as i128 - 96 {
            w.recent = w.recent + 1;
        }
        if !find_pitch(part, from, j, note.pitch) {
            w.distinct = w.distinct + 1;
        }
        if w.count == 0 || note.pitch < w.low {
            w.low = note.pitch;
        }
        if w.count == 0 || note.pitch > w.high {
            w.high = note.pitch;
        }
        w.count = w.count + 1;
        w.weight = w.weight + within;
        w.pitches = w.pitches + note.pitch as i128 * within;
        if right > begin {
            w.occupied = w.occupied + (right - begin);
            cursor = right;
        }
        j += 1;
    }
    w
}

/// Where the repetition of a note's pitch begins: notes follow one another within 12 ticks.
pub open spec fn run_start(part: Seq<Note>, k: int) -> Tick
    decreases k,
{
    if 0 < k && part[k].on - part[k - 1].off <= 12 && part[k].pitch == part[k - 1].pitch {
        run_start(part, k - 1)
    } else {
        part[k].on
    }
}

pub open spec fn beat_of(tick: int) -> int {
    if tick % 96 == 0 {
        3
    } else if tick % 48 == 0 {
        2
    } else if tick % 24 == 0 {
        1
    } else {
        0
    }
}

/// Whether the note before one in its part is within its reach.
pub open spec fn is_reached(part: Seq<Note>, k: int) -> bool {
    0 < k && part[k].on - part[k - 1].off <= REACH
}

/// Whether a row is what is counted of a note of a part, among all notes.
pub open spec fn is_row(row: Row, notes: Seq<Note>, part: Seq<Note>, k: int) -> bool {
    let note = part[k];
    let n = notes.len() as int;
    &&& row.duration == note.off - note.on
    &&& row.pitch == note.pitch
    &&& row.volume == note.vel
    &&& row.attack@ == crowd_of(notes, note.on, true, note.pitch, n)
    &&& row.sounding@ == crowd_of(notes, note.on, false, note.pitch, n)
    &&& row.gap == if is_reached(part, k) {
        Some((note.on - part[k - 1].off) as i64)
    } else {
        None
    }
    &&& row.step == if is_reached(part, k) {
        note.pitch - part[k - 1].pitch
    } else {
        0
    }
    &&& counts(row.window, window_of(part, note.on, reach_start(part, k, k), k))
    &&& row.run == note.off - run_start(part, k)
    &&& row.beat == beat_of(note.on as int)
}

/// Whether notes of a part last and follow one another.
pub open spec fn is_line(part: Seq<Note>) -> bool {
    &&& are_lasting(part)
    &&& forall|k: int| 0 < k < part.len() ==> part[k - 1].off <= (#[trigger] part[k]).on
}

/// Whether rows, from a place on, are those of the notes of a part.
pub open spec fn are_rows(rows: Seq<Row>, at: int, notes: Seq<Note>, part: Seq<Note>, n: int) -> bool {
    forall|k: int| 0 <= k < n ==> is_row(#[trigger] rows[at + k], notes, part, k)
}

/// How many notes the first parts of a track have.
pub open spec fn notes_in(parts: Seq<Seq<Note>>, n: int) -> int
    decreases n,
{
    if n <= 0 {
        0
    } else {
        notes_in(parts, n - 1) + parts[n - 1].len()
    }
}

/// How many notes the first tracks of a score have.
pub open spec fn notes_before(tracks: Seq<TrackView>, n: int) -> int
    decreases n,
{
    if n <= 0 {
        0
    } else {
        notes_before(tracks, n - 1) + notes_in(tracks[n - 1].parts, tracks[n - 1].parts.len() as int)
    }
}

/// Whether rows are those of the first parts of a track, which begin at a place.
pub open spec fn are_track_rows(
    rows: Seq<Row>,
    at: int,
    notes: Seq<Note>,
    parts: Seq<Seq<Note>>,
    n: int,
) -> bool {
    forall|p: int|
        0 <= p < n ==> are_rows(
            rows,
            at + notes_in(parts, p),
            notes,
            #[trigger] parts[p],
            parts[p].len() as int,
        )
}

/// Whether rows are those of the first tracks of a score.
pub open spec fn are_score_rows(rows: Seq<Row>, score: ScoreView, n: int) -> bool {
    forall|t: int|
        0 <= t < n ==> are_track_rows(
            rows,
            notes_before(score.tracks, t),
            score.notes(),
            (#[trigger] score.tracks[t]).parts,
            score.tracks[t].parts.len() as int,
        )
}

fn row_for(notes: &Vec<Note>, part: &Vec<Note>, k: usize, beginning: Tick) -> (row: Row)
    requires
        are_lasting(notes@),
        is_line(part@),
        k < part.len(),
        beginning == run_start(part@, k as int),
        0 <= beginning,
    ensures
        is_row(row, notes@, part@, k as int),
{
    let note = &part[k];
    proof {
        assert(0 <= part[k as int].on < part[k as int].off);
    }
    let mut gap: Option<Tick> = None;
    let mut step: i64 = 0;
    if k > 0 {
        let last = &part[k - 1];
        proof {
            assert(0 <= part[k - 1].on < part[k - 1].off);
        }
        if note.on - last.off <= REACH {
            gap = Some(note.on - last.off);
            step = note.pitch as i64 - last.pitch as i64;
        }
    }
    let from = find_start(part, k);
    let beat: u8 = if note.on % 96 == 0 {
        3
    } else if note.on % 48 == 0 {
        2
    } else if note.on % 24 == 0 {
        1
    } else {
        0
    };
    Row {
        duration: note.off - note.on,
        pitch: note.pitch,
        volume: note.vel,
        attack: find_crowd(notes, note.on, true, note.pitch),
        sounding: find_crowd(notes, note.on, false, note.pitch),
        gap,
        step,
        window: find_window(part, note.on, from, k),
        run: note.off - beginning,
        beat,
    }
}

fn push_rows(rows: &mut Vec<Row>, notes: &Vec<Note>, part: &Vec<Note>)
    requires
        are_lasting(notes@),
        is_line(part@),
    ensures
        final(rows).len() == old(rows).len() + part.len(),
        final(rows)@.take(old(rows).len() as int) == old(rows)@,
        are_rows(final(rows)@, old(rows).len() as int, notes@, part@, part.len() as int),
{
    let ghost start = rows@;
    let mut beginning: Tick = 0;
    let mut k: usize = 0;
    proof {
        assert(rows@.take(start.len() as int) =~= start);
    }
    while k < part.len()
        invariant
            k <= part.len(),
            are_lasting(notes@),
            is_line(part@),
            rows.len() == start.len() + k,
            rows@.take(start.len() as int) == start,
            are_rows(rows@, start.len() as int, notes@, part@, k as int),
            k > 0 ==> beginning == run_start(part@, k - 1),
            0 <= beginning,
        decreases part.len() - k,
    {
        proof {
            assert(0 <= part[k as int].on < part[k as int].off);
        }
        let mut repeated = false;
        if k > 0 {
            proof {
                assert(0 <= part[k - 1].on < part[k - 1].off);
            }
            repeated = part[k].on - part[k - 1].off <= 12 && part[k].pitch == part[k - 1].pitch;
        }
        if !repeated {
            beginning = part[k].on;
        }
        let ghost before = rows@;
        let row = row_for(notes, part, k, beginning);
        rows.push(row);
        proof {
            assert(rows@.take(start.len() as int) =~= start) by {
                assert(before.take(start.len() as int) =~= start);
                assert forall|i: int| 0 <= i < start.len() implies rows@[i] == start[i] by {
                    assert(before.take(start.len() as int)[i] == before[i]);
                }
            }
            assert forall|i: int| 0 <= i < k + 1 implies is_row(
                #[trigger] rows@[start.len() + i],
                notes@,
                part@,
                i,
            ) by {
                if i < k {
                    assert(rows@[start.len() + i] == before[start.len() + i]);
                }
            }
        }
        k += 1;
    }
}

proof fn lemma_rows_stay(a: Seq<Row>, b: Seq<Row>, at: int, notes: Seq<Note>, part: Seq<Note>)
    requires
        0 <= at,
        at + part.len() <= a.len() <= b.len(),
        b.take(a.len() as int) == a,
        are_rows(a, at, notes, part, part.len() as int),
    ensures
        are_rows(b, at, notes, part, part.len() as int),
{
    assert forall|k: int| 0 <= k < part.len() implies is_row(
        #[trigger] b[at + k],
        notes,
        part,
        k,
    ) by {
        assert(b.take(a.len() as int)[at + k] == b[at + k]);
        assert(is_row(a[at + k], notes, part, k));
    }
}

proof fn lemma_notes_in(parts: Seq<Seq<Note>>, p: int, n: int)
    requires
        0 <= p < n <= parts.len(),
    ensures
        0 <= notes_in(parts, p),
        notes_in(parts, p) + parts[p].len() <= notes_in(parts, n),
    decreases n,
{
    if p < n - 1 {
        lemma_notes_in(parts, p, n - 1);
    } else if p > 0 {
        lemma_notes_in(parts, p - 1, p);
    }
}

proof fn lemma_notes_before(tracks: Seq<TrackView>, t: int, n: int)
    requires
        0 <= t < n <= tracks.len(),
    ensures
        0 <= notes_before(tracks, t),
        notes_before(tracks, t) + notes_in(tracks[t].parts, tracks[t].parts.len() as int)
            <= notes_before(tracks, n),
    decreases n,
{
    let parts = tracks[n - 1].parts;
    if parts.len() > 0 {
        lemma_notes_in(parts, 0, parts.len() as int);
    }
    if t < n - 1 {
        lemma_notes_before(tracks, t, n - 1);
    } else if t > 0 {
        lemma_notes_before(tracks, t - 1, t);
        let earlier = tracks[t - 1].parts;
        if earlier.len() > 0 {
            lemma_notes_in(earlier, 0, earlier.len() as int);
        }
    }
}

proof fn lemma_track_rows_stay(
    a: Seq<Row>,
    b: Seq<Row>,
    at: int,
    notes: Seq<Note>,
    parts: Seq<Seq<Note>>,
    n: int,
)
    requires
        0 <= at,
        0 <= n <= parts.len(),
        at + notes_in(parts, n) <= a.len() <= b.len(),
        b.take(a.len() as int) == a,
        are_track_rows(a, at, notes, parts, n),
    ensures
        are_track_rows(b, at, notes, parts, n),
{
    assert forall|p: int| 0 <= p < n implies are_rows(
        b,
        at + notes_in(parts, p),
        notes,
        #[trigger] parts[p],
        parts[p].len() as int,
    ) by {
        lemma_notes_in(parts, p, n);
        lemma_rows_stay(a, b, at + notes_in(parts, p), notes, parts[p]);
    }
}

/// Whether the notes of a score last, and those of each part follow one another.
pub open spec fn has_lines(score: ScoreView) -> bool {
    &&& are_lasting(score.notes())
    &&& forall|t: int, p: int|
        #![trigger score.tracks[t].parts[p]]
        0 <= t < score.tracks.len() && 0 <= p < score.tracks[t].parts.len() ==> is_line(
            score.tracks[t].parts[p],
        )
}

proof fn lemma_prefix(a: Seq<Row>, b: Seq<Row>, c: Seq<Row>)
    requires
        a.len() <= b.len() <= c.len(),
        b.take(a.len() as int) == a,
        c.take(b.len() as int) == b,
    ensures
        c.take(a.len() as int) == a,
{
    assert forall|i: int| 0 <= i < a.len() implies c[i] == a[i] by {
        assert(c.take(b.len() as int)[i] == c[i]);
        assert(b.take(a.len() as int)[i] == b[i]);
    }
    assert(c.take(a.len() as int) =~= a);
}

#[verifier::rlimit(40)]
fn push_track(rows: &mut Vec<Row>, notes: &Vec<Note>, parts: &Vec<Vec<Note>>)
    requires
        are_lasting(notes@),
        forall|p: int| 0 <= p < parts.len() ==> is_line(#[trigger] part_views(parts@)[p]),
    ensures
        final(rows).len() == old(rows).len() + notes_in(part_views(parts@), parts.len() as int),
        final(rows).len() >= old(rows).len(),
        final(rows)@.take(old(rows).len() as int) == old(rows)@,
        are_track_rows(
            final(rows)@,
            old(rows).len() as int,
            notes@,
            part_views(parts@),
            parts.len() as int,
        ),
{
    let ghost base = rows@;
    let ghost views = part_views(parts@);
    proof {
        assert(base.take(base.len() as int) =~= base);
    }
    let mut p: usize = 0;
    while p < parts.len()
        invariant
            p <= parts.len(),
            are_lasting(notes@),
            views == part_views(parts@),
            forall|p: int| 0 <= p < parts.len() ==> is_line(#[trigger] views[p]),
            rows.len() == base.len() + notes_in(views, p as int),
            base.len() <= rows.len(),
            rows@.take(base.len() as int) == base,
            are_track_rows(rows@, base.len() as int, notes@, views, p as int),
        decreases parts.len() - p,
    {
        let ghost before = rows@;
        proof {
            assert(is_line(views[p as int]));
            assert(views[p as int] == parts[p as int]@);
        }
        push_rows(rows, notes, &parts[p]);
        proof {
            let now = rows@;
            lemma_track_rows_stay(before, now, base.len() as int, notes@, views, p as int);
            lemma_prefix(base, before, now);
            assert forall|q: int| 0 <= q < p + 1 implies are_rows(
                now,
                base.len() + notes_in(views, q),
                notes@,
                #[trigger] views[q],
                views[q].len() as int,
            ) by {
                if q == p {
                    assert(base.len() + notes_in(views, q) == before.len());
                }
            }
        }
        p += 1;
    }
}

/// Counts what is to be counted of every note of a score, in the order of its tracks, their
/// parts and the notes of these.
#[verifier::rlimit(40)]
pub fn features(score: &Score) -> (rows: Vec<Row>)
    requires
        has_lines(score@),
    ensures
        rows.len() == notes_before(score@.tracks, score@.tracks.len() as int),
        are_score_rows(rows@, score@, score@.tracks.len() as int),
{
    let notes = score.all_notes();
    let mut rows: Vec<Row> = Vec::new();
    let mut t: usize = 0;
    while t < score.tracks.len()
        invariant
            t <= score.tracks.len(),
            has_lines(score@),
            notes@ == score@.notes(),
            rows.len() == notes_before(score@.tracks, t as int),
            are_score_rows(rows@, score@, t as int),
        decreases score.tracks.len() - t,
    {
        let parts = &score.tracks[t].parts;
        let ghost views = part_views(parts@);
        let ghost base = rows@;
        proof {
            assert(score@.tracks[t as int].parts == views);
            assert forall|p: int| 0 <= p < parts.len() implies is_line(#[trigger] views[p]) by {
                assert(is_line(score@.tracks[t as int].parts[p]));
            }
        }
        push_track(&mut rows, &notes, parts);
        proof {
            let now = rows@;
            assert forall|u: int| 0 <= u < t + 1 implies are_track_rows(
                now,
                notes_before(score@.tracks, u),
                score@.notes(),
                (#[trigger] score@.tracks[u]).parts,
                score@.tracks[u].parts.len() as int,
            ) by {
                if u < t {
                    lemma_notes_before(score@.tracks, u, t as int);
                    lemma_track_rows_stay(
                        base,
                        now,
                        notes_before(score@.tracks, u),
                        notes@,
                        score@.tracks[u].parts,
                        score@.tracks[u].parts.len() as int,
                    );
                }
            }
        }
        t += 1;
    }
    rows
}

proof fn lemma_crowd_prefix(a: Seq<Note>, b: Seq<Note>, tick: Tick, attack: bool, pitch: i32, n: int)
    requires
        0 <= n <= a.len(),
        n <= b.len(),
        forall|i: int| 0 <= i < n ==> a[i] == b[i],
    ensures
        crowd_of(a, tick, attack, pitch, n) == crowd_of(b, tick, attack, pitch, n),
    decreases n,
{
    if n > 0 {
        lemma_crowd_prefix(a, b, tick, attack, pitch, n - 1);
    }
}

/// Only notes that have begun are counted beside a note: what comes later changes nothing.
pub proof fn law_crowd_looks_back(notes: Seq<Note>, tick: Tick, attack: bool, pitch: i32)
    ensures
        crowd_of(notes, tick, attack, pitch, notes.len() as int) == ({
            let begun = keep(notes, |n: Note| n.on <= tick);
            crowd_of(begun, tick, attack, pitch, begun.len() as int)
        }),
    decreases notes.len(),
{
    let f = |n: Note| n.on <= tick;
    if notes.len() > 0 {
        let front = notes.drop_last();
        let fewer = keep(front, f);
        let begun = keep(notes, f);
        law_crowd_looks_back(front, tick, attack, pitch);
        lemma_crowd_prefix(notes, front, tick, attack, pitch, front.len() as int);
        if notes.last().on <= tick {
            assert(begun == fewer.push(notes.last()));
            lemma_crowd_prefix(begun, fewer, tick, attack, pitch, fewer.len() as int);
        } else {
            assert(begun == fewer);
        }
    }
}

} // verus!
