//! What a piano roll shows of a score, and the words around it.
use crate::audibility::Audibility;
use crate::harmony::pitch_class;
use crate::options::{grouped, number};
use crate::playback::PlaybackState;
use crate::score::{part_views, Note, Score, Tick, TrackView};
use crate::text::{chars_of, number_text, padded_front, push_count, push_number, push_padded, push_text, string_of};
use crate::workflow::{SplitChunkPreview, SplitPreview};
use vstd::prelude::*;

verus! {

/// The lowest and the highest pitch that are shown of the first notes: those of a piano, and
/// further ones where notes have them.
pub open spec fn range_of(notes: Seq<Note>, n: int) -> (i32, i32)
    decreases n,
{
    if n <= 0 {
        (21, 108)
    } else {
        let before = range_of(notes, n - 1);
        let pitch = notes[n - 1].pitch;
        (
            if pitch < before.0 {
                pitch
            } else {
                before.0
            },
            if pitch > before.1 {
                pitch
            } else {
                before.1
            },
        )
    }
}

/// Finds the pitches that are shown.
pub fn pitch_range(score: &Score) -> (r: (i32, i32))
    ensures
        r == range_of(score@.notes(), score@.notes().len() as int),
{
    let notes = score.all_notes();
    let mut low: i32 = 21;
    let mut high: i32 = 108;
    let mut i: usize = 0;
    while i < notes.len()
        invariant
            i <= notes.len(),
            (low, high) == range_of(notes@, i as int),
        decreases notes.len() - i,
    {
        let pitch = notes[i].pitch;
        if pitch < low {
            low = pitch;
        }
        if pitch > high {
            high = pitch;
        }
        i += 1;
    }
    (low, high)
}

/// Every note of a score is within the range that is shown of it, and so are the keys of a piano.
pub proof fn law_range_holds_notes(notes: Seq<Note>, n: int, k: int)
    requires
        0 <= k < n <= notes.len(),
    ensures
        range_of(notes, n).0 <= notes[k].pitch <= range_of(notes, n).1,
        range_of(notes, n).0 <= 21,
        108 <= range_of(notes, n).1,
    decreases n,
{
    lemma_piano_range(notes, n - 1);
    if k < n - 1 {
        law_range_holds_notes(notes, n - 1, k);
    }
}

proof fn lemma_piano_range(notes: Seq<Note>, n: int)
    ensures
        range_of(notes, n).0 <= 21,
        108 <= range_of(notes, n).1,
    decreases n,
{
    if n > 0 {
        lemma_piano_range(notes, n - 1);
    }
}

/// The pitches between two that are called C, each with its octave.
pub open spec fn octaves(low: int, high: int) -> Seq<(i32, i32)>
    decreases high - low + 1,
{
    if high < low {
        Seq::empty()
    } else {
        let before = octaves(low, high - 1);
        if high % 12 == 0 {
            before.push((high as i32, (high / 12 - 1) as i32))
        } else {
            before
        }
    }
}

/// Finds the pitches that are marked with their octaves.
pub fn octave_marks(low: i32, high: i32) -> (r: Vec<(i32, i32)>)
    ensures
        r@ == octaves(low as int, high as int),
{
    let mut r: Vec<(i32, i32)> = Vec::new();
    let mut p: i64 = low as i64;
    if low > high {
        return r;
    }
    while p <= high as i64
        invariant
            low as i64 <= p <= high as i64 + 1,
            r@ == octaves(low as int, p - 1),
        decreases high as i64 + 1 - p,
    {
        if pitch_class(p as i32) == 0 {
            let octave: i64 = (p + 2147483652) / 12 - 178956972;
            proof {
                assert((p + 2147483652) / 12 == p as int / 12 + 178956971);
            }
            r.push((p as i32, octave as i32));
        }
        p += 1;
    }
    r
}

/// The multiples of a step between two numbers.
pub open spec fn multiples(step: int, from: int, to: int) -> Seq<int> {
    let first = (from + step - 1) / step;
    let last = to / step;
    Seq::new(
        if last < first {
            0
        } else {
            (last - first + 1) as nat
        },
        |i: int| (first + i) * step,
    )
}

/// Numbers are multiples between two others exactly where they are listed.
pub proof fn law_multiples(step: int, from: int, to: int, x: int)
    requires
        step > 0,
        0 <= from,
    ensures
        multiples(step, from, to).contains(x) == (from <= x <= to && x % step == 0),
{
    let first = (from + step - 1) / step;
    let last = to / step;
    let list = multiples(step, from, to);
    lemma_bounds(step, from, to);
    if list.contains(x) {
        let i = choose|i: int| 0 <= i < list.len() && list[i] == x;
        assert(x == (first + i) * step);
        assert(first * step <= x <= last * step) by (nonlinear_arith)
            requires
                x == (first + i) * step,
                0 <= i,
                first + i <= last,
                step > 0,
        ;
        assert(x % step == 0) by {
            vstd::arithmetic::div_mod::lemma_mod_multiples_basic(first + i, step);
        }
    }
    if from <= x <= to && x % step == 0 {
        let q = x / step;
        vstd::arithmetic::div_mod::lemma_fundamental_div_mod(x, step);
        assert(x == q * step) by (nonlinear_arith)
            requires
                x == step * q + 0,
        ;
        assert(first <= q) by (nonlinear_arith)
            requires
                x == q * step,
                from <= x,
                (first - 1) * step < from,
                step > 0,
        ;
        assert(q <= last) by (nonlinear_arith)
            requires
                x == q * step,
                x <= to,
                to < (last + 1) * step,
                step > 0,
        ;
        assert(list[q - first] == x);
    }
}

proof fn lemma_bounds(step: int, from: int, to: int)
    requires
        step > 0,
        0 <= from,
    ensures
        ({
            let first = (from + step - 1) / step;
            let last = to / step;
            &&& 0 <= first
            &&& (first - 1) * step < from <= first * step
            &&& last * step <= to < (last + 1) * step
        }),
{
    let first = (from + step - 1) / step;
    let last = to / step;
    vstd::arithmetic::div_mod::lemma_fundamental_div_mod(from + step - 1, step);
    vstd::arithmetic::div_mod::lemma_fundamental_div_mod(to, step);
    vstd::arithmetic::div_mod::lemma_mod_bound(from + step - 1, step);
    vstd::arithmetic::div_mod::lemma_mod_bound(to, step);
    vstd::arithmetic::div_mod::lemma_div_pos_is_pos(from + step - 1, step);
    assert((first - 1) * step < from <= first * step) by (nonlinear_arith)
        requires
            from + step - 1 == step * first + (from + step - 1) % step,
            0 <= (from + step - 1) % step < step,
    ;
    assert(last * step <= to < (last + 1) * step) by (nonlinear_arith)
        requires
            to == step * last + to % step,
            0 <= to % step < step,
    ;
}

/// How far apart the lines of the grid are: a bar, or four where much is shown.
pub open spec fn grid_step(span: int) -> int {
    if span > 96 * 64 {
        1536
    } else {
        384
    }
}

/// Finds the ticks at which lines are drawn.
pub fn grid_ticks(start: Tick, span: Tick) -> (r: Vec<Tick>)
    requires
        0 <= start,
        0 <= span,
        start + span <= i64::MAX - 1536,
    ensures
        r@.map_values(|t: Tick| t as int) == multiples(
            grid_step(span as int),
            start as int,
            start + span,
        ),
{
    let step: i64 = if span > 96 * 64 {
        1536
    } else {
        384
    };
    let end: i64 = start + span;
    let ghost first = (start + step - 1) / (step as int);
    let ghost last = end as int / (step as int);
    let ghost wanted = multiples(step as int, start as int, end as int);
    proof {
        lemma_bounds(step as int, start as int, end as int);
    }
    let mut r: Vec<Tick> = Vec::new();
    let mut tick: i64 = (start + (step - 1)) / step * step;
    let ghost mut k: int = 0;
    proof {
        assert(tick == first * step);
        assert(r@.map_values(|t: Tick| t as int) =~= wanted.take(0));
    }
    while tick <= end
        invariant
            step == 384 || step == 1536,
            0 <= tick,
            end <= i64::MAX - 1536,
            tick == (first + k) * step,
            0 <= k,
            last * step <= end < (last + 1) * step,
            wanted == multiples(step as int, start as int, end as int),
            first == (start + step - 1) / (step as int),
            last == end as int / (step as int),
            r.len() == k,
            k <= wanted.len(),
            r@.map_values(|t: Tick| t as int) == wanted.take(k),
        decreases end + step - tick,
    {
        proof {
            assert(first + k <= last) by (nonlinear_arith)
                requires
                    (first + k) * step <= end,
                    end < (last + 1) * step,
                    step > 0,
            ;
            assert((first + k) * step + step == (first + k + 1) * step) by (nonlinear_arith);
        }
        let ghost before = r@;
        r.push(tick);
        tick = tick + step;
        proof {
            assert(wanted[k] == (first + k) * step);
            assert(r@.map_values(|t: Tick| t as int) =~= wanted.take(k + 1));
            k = k + 1;
        }
    }
    proof {
        assert(first + k > last) by (nonlinear_arith)
            requires
                (first + k) * step > end,
                last * step <= end,
                step > 0,
        ;
        assert(wanted.take(k) =~= wanted);
    }
    r
}

/// A note as it is shown: the stretch that is in sight, and whether it is heard.
#[derive(Clone, Copy, Debug, PartialEq, Eq)]
pub struct ShownNote {
    pub track: usize,
    pub part: usize,
    pub from: Tick,
    pub to: Tick,
    pub note: Note,
    pub audible: bool,
}

/// Whether a part is heard, where there is a player.
pub open spec fn is_audible(sound: Option<Audibility>, track: int, part: int) -> bool {
    match sound {
        None => true,
        Some(a) => {
            &&& track < a.switches().len()
            &&& a.switches()[track]
            &&& track < a.part_switches().len()
            &&& part < a.part_switches()[track].len()
            &&& a.part_switches()[track][part]
        },
    }
}

pub open spec fn shown_note(track: int, part: int, note: Note, start: Tick, end: Tick, audible: bool) -> ShownNote {
    ShownNote {
        track: track as usize,
        part: part as usize,
        from: if note.on > start {
            note.on
        } else {
            start
        },
        to: if note.off < end {
            note.off
        } else {
            end
        },
        note,
        audible,
    }
}

/// What is shown of the first notes of a part between two ticks.
pub open spec fn shown_part(
    track: int,
    part: int,
    notes: Seq<Note>,
    start: Tick,
    end: Tick,
    audible: bool,
    n: int,
) -> Seq<ShownNote>
    decreases n,
{
    if n <= 0 {
        Seq::empty()
    } else {
        let before = shown_part(track, part, notes, start, end, audible, n - 1);
        let note = notes[n - 1];
        if note.off <= start || note.on >= end {
            before
        } else {
            before.push(shown_note(track, part, note, start, end, audible))
        }
    }
}

/// What is shown of the first parts of a track.
pub open spec fn shown_track(
    track: int,
    parts: Seq<Seq<Note>>,
    start: Tick,
    end: Tick,
    sound: Option<Audibility>,
    n: int,
) -> Seq<ShownNote>
    decreases n,
{
    if n <= 0 {
        Seq::empty()
    } else {
        shown_track(track, parts, start, end, sound, n - 1) + shown_part(
            track,
            n - 1,
            parts[n - 1],
            start,
            end,
            is_audible(sound, track, n - 1),
            parts[n - 1].len() as int,
        )
    }
}

/// What is shown of the first tracks of a score.
pub open spec fn shown_score(
    tracks: Seq<TrackView>,
    start: Tick,
    end: Tick,
    sound: Option<Audibility>,
    n: int,
) -> Seq<ShownNote>
    decreases n,
{
    if n <= 0 {
        Seq::empty()
    } else {
        shown_score(tracks, start, end, sound, n - 1) + shown_track(
            n - 1,
            tracks[n - 1].parts,
            start,
            end,
            sound,
            tracks[n - 1].parts.len() as int,
        )
    }
}

fn push_part(
    out: &mut Vec<ShownNote>,
    track: usize,
    part: usize,
    notes: &Vec<Note>,
    start: Tick,
    end: Tick,
    audible: bool,
)
    ensures
        final(out)@ == old(out)@ + shown_part(
            track as int,
            part as int,
            notes@,
            start,
            end,
            audible,
            notes.len() as int,
        ),
{
    let ghost base = out@;
    let mut i: usize = 0;
    proof {
        assert(base + Seq::<ShownNote>::empty() =~= base);
    }
    while i < notes.len()
        invariant
            i <= notes.len(),
            out@ == base + shown_part(
                track as int,
                part as int,
                notes@,
                start,
                end,
                audible,
                i as int,
            ),
        decreases notes.len() - i,
    {
        let note = notes[i];
        if !(note.off <= start || note.on >= end) {
            let ghost before = out@;
            out.push(
                ShownNote {
                    track,
                    part,
                    from: if note.on > start {
                        note.on
                    } else {
                        start
                    },
                    to: if note.off < end {
                        note.off
                    } else {
                        end
                    },
                    note,
                    audible,
                },
            );
            proof {
                let list = shown_part(
                    track as int,
                    part as int,
                    notes@,
                    start,
                    end,
                    audible,
                    i as int,
                );
                assert(out@ =~= base + list.push(out@.last()));
            }
        }
        i += 1;
    }
}

fn push_track(
    out: &mut Vec<ShownNote>,
    track: usize,
    parts: &Vec<Vec<Note>>,
    start: Tick,
    end: Tick,
    sound: &Option<Audibility>,
)
    ensures
        final(out)@ == old(out)@ + shown_track(
            track as int,
            part_views(parts@),
            start,
            end,
            *sound,
            parts.len() as int,
        ),
{
    let ghost base = out@;
    let ghost views = part_views(parts@);
    let mut p: usize = 0;
    proof {
        assert(base + Seq::<ShownNote>::empty() =~= base);
    }
    while p < parts.len()
        invariant
            p <= parts.len(),
            views == part_views(parts@),
            out@ == base + shown_track(track as int, views, start, end, *sound, p as int),
        decreases parts.len() - p,
    {
        let audible = match sound {
            None => true,
            Some(a) => a.enabled(track, p),
        };
        let ghost before = shown_track(track as int, views, start, end, *sound, p as int);
        push_part(out, track, p, &parts[p], start, end, audible);
        proof {
            let more = shown_part(
                track as int,
                p as int,
                views[p as int],
                start,
                end,
                audible,
                views[p as int].len() as int,
            );
            assert(base + before + more =~= base + (before + more));
        }
        p += 1;
    }
}

/// Finds the notes that are in sight from a tick on.
pub fn shown_notes(score: &Score, start: Tick, span: Tick, sound: &Option<Audibility>) -> (r: Vec<ShownNote>)
    requires
        i64::MIN <= start + span <= i64::MAX,
    ensures
        r@ == shown_score(
            score@.tracks,
            start,
            (start + span) as Tick,
            *sound,
            score@.tracks.len() as int,
        ),
{
    let end: Tick = start + span;
    let mut out: Vec<ShownNote> = Vec::new();
    let mut t: usize = 0;
    while t < score.tracks.len()
        invariant
            t <= score.tracks.len(),
            end == start + span,
            out@ == shown_score(score@.tracks, start, end, *sound, t as int),
        decreases score.tracks.len() - t,
    {
        push_track(&mut out, t, &score.tracks[t].parts, start, end, sound);
        t += 1;
    }
    out
}

/// The marks of the first scrolls, but for the first of all, that begin between two ticks:
/// which each is, and where it begins.
pub open spec fn marks_of(chunks: Seq<SplitChunkPreview>, start: int, end: int, n: int) -> Seq<(usize, Tick)>
    decreases n,
{
    if n <= 1 {
        Seq::empty()
    } else {
        let before = marks_of(chunks, start, end, n - 1);
        if start <= chunks[n - 1].start <= end {
            before.push(((n - 1) as usize, chunks[n - 1].start))
        } else {
            before
        }
    }
}

/// Finds the scrolls whose beginnings are in sight.
pub fn scroll_marks(split: &SplitPreview, start: Tick, span: Tick) -> (r: Vec<(usize, Tick)>)
    requires
        i64::MIN <= start + span <= i64::MAX,
    ensures
        r@ == marks_of(split.chunks@, start as int, start + span, split.chunks.len() as int),
{
    let end: Tick = start + span;
    let mut r: Vec<(usize, Tick)> = Vec::new();
    if split.chunks.len() == 0 {
        return r;
    }
    let mut i: usize = 1;
    while i < split.chunks.len()
        invariant
            1 <= i <= split.chunks.len(),
            end == start + span,
            r@ == marks_of(split.chunks@, start as int, end as int, i as int),
        decreases split.chunks.len() - i,
    {
        let at = split.chunks[i].start;
        if start <= at && at <= end {
            r.push((i, at));
        }
        i += 1;
    }
    r
}

/// The words for a note.
pub open spec fn note_words(track: int, part: int, note: Note) -> Seq<char> {
    "트랙 "@ + number_text(track + 1) + " · 파트 "@ + number_text(part + 1) + "\nMIDI "@
        + number_text(note.pitch as int) + " · v"@ + number_text(note.vel as int) + "\n"@
        + number_text(note.on as int) + "–"@ + number_text(note.off as int) + "틱"@
}

/// Says what a note is.
pub fn note_label(track: usize, part: usize, note: &Note) -> (r: String)
    ensures
        r@ == note_words(track as int, part as int, *note),
{
    let mut out = chars_of("트랙 ");
    push_count(&mut out, track as u128 + 1);
    push_text(&mut out, " · 파트 ");
    push_count(&mut out, part as u128 + 1);
    push_text(&mut out, "\nMIDI ");
    push_number(&mut out, note.pitch as i64);
    push_text(&mut out, " · v");
    push_number(&mut out, note.vel as i64);
    push_text(&mut out, "\n");
    push_number(&mut out, note.on);
    push_text(&mut out, "–");
    push_number(&mut out, note.off);
    push_text(&mut out, "틱");
    string_of(&out)
}

/// A time in hours, minutes and seconds, without hours where there are none.
pub open spec fn time_words(seconds: int) -> Seq<char> {
    let two = |n: int| padded_front(number_text(n), 2, '0');
    if seconds >= 3600 {
        number_text(seconds / 3600) + ":"@ + two((seconds / 60) % 60) + ":"@ + two(seconds % 60)
    } else {
        two(seconds / 60) + ":"@ + two(seconds % 60)
    }
}

/// Writes a time.
pub fn playback_time(seconds: u64) -> (r: String)
    ensures
        r@ == time_words(seconds as int),
{
    let mut out: Vec<char> = Vec::new();
    proof {
        assert(out@ =~= Seq::<char>::empty());
    }
    if seconds >= 3600 {
        push_count(&mut out, (seconds / 3600) as u128);
        proof {
            assert(out@ =~= number_text(seconds as int / 3600));
        }
        push_text(&mut out, ":");
        push_padded(&mut out, ((seconds / 60) % 60) as u128, 2, '0');
        push_text(&mut out, ":");
        push_padded(&mut out, (seconds % 60) as u128, 2, '0');
    } else {
        push_padded(&mut out, (seconds / 60) as u128, 2, '0');
        proof {
            assert(out@ =~= padded_front(number_text(seconds as int / 60), 2, '0'));
        }
        push_text(&mut out, ":");
        push_padded(&mut out, (seconds % 60) as u128, 2, '0');
    }
    string_of(&out)
}

/// The greatest of the first of some lengths.
pub open spec fn greatest(widths: Seq<usize>, n: int) -> usize
    decreases n,
{
    if n <= 0 {
        0
    } else if widths[n - 1] > greatest(widths, n - 1) {
        widths[n - 1]
    } else {
        greatest(widths, n - 1)
    }
}

/// The length of the longest part of the first tracks.
pub open spec fn widest_of(widths: Seq<Vec<usize>>, n: int) -> usize
    decreases n,
{
    if n <= 0 {
        0
    } else {
        let own = greatest(widths[n - 1]@, widths[n - 1].len() as int);
        let before = widest_of(widths, n - 1);
        if own > before {
            own
        } else {
            before
        }
    }
}

fn find_widest(widths: &Vec<Vec<usize>>) -> (r: usize)
    ensures
        r == widest_of(widths@, widths.len() as int),
{
    let mut r: usize = 0;
    let mut t: usize = 0;
    while t < widths.len()
        invariant
            t <= widths.len(),
            r == widest_of(widths@, t as int),
        decreases widths.len() - t,
    {
        let list = &widths[t];
        let mut own: usize = 0;
        let mut p: usize = 0;
        while p < list.len()
            invariant
                p <= list.len(),
                own == greatest(list@, p as int),
            decreases list.len() - p,
        {
            if list[p] > own {
                own = list[p];
            }
            p += 1;
        }
        if own > r {
            r = own;
        }
        t += 1;
    }
    r
}

/// The words for a scroll, with words for the time that it covers.
pub open spec fn scroll_words(index: int, range: Seq<char>, widest: int, limit: int) -> Seq<char> {
    padded_front(number_text(index + 1), 2, '0') + "장 · "@ + range + "\n가장 긴 파트 "@ + grouped(
        number_text(widest),
    ) + "자 / "@ + grouped(number_text(limit)) + "자\n클릭하여 이 구간 보기"@
}

/// Says what a scroll is: which one, the time that it covers, and how long its longest part is.
pub fn scroll_label(split: &SplitPreview, index: usize, range: &str) -> (r: String)
    requires
        index < split.chunks.len(),
    ensures
        r@ == scroll_words(
            index as int,
            range@,
            widest_of(
                split.chunks[index as int].part_widths@,
                split.chunks[index as int].part_widths.len() as int,
            ) as int,
            split.limit as int,
        ),
{
    let widest = find_widest(&split.chunks[index].part_widths);
    let mut out: Vec<char> = Vec::new();
    push_padded(&mut out, index as u128 + 1, 2, '0');
    proof {
        assert(out@ =~= padded_front(number_text(index as int + 1), 2, '0'));
    }
    push_text(&mut out, "장 · ");
    push_text(&mut out, range);
    push_text(&mut out, "\n가장 긴 파트 ");
    push_text(&mut out, number(widest).as_str());
    push_text(&mut out, "자 / ");
    push_text(&mut out, number(split.limit).as_str());
    push_text(&mut out, "자\n클릭하여 이 구간 보기");
    string_of(&out)
}

/// The words for a stretch of ticks.
pub open spec fn tick_words(start: int, end: int) -> Seq<char> {
    number_text(start) + "–"@ + number_text(end) + " 틱"@
}

/// Says which ticks a scroll covers, where times are not known.
pub fn tick_range(start: Tick, end: Tick) -> (r: String)
    ensures
        r@ == tick_words(start as int, end as int),
{
    let mut out: Vec<char> = Vec::new();
    push_number(&mut out, start);
    proof {
        assert(out@ =~= number_text(start as int));
    }
    push_text(&mut out, "–");
    push_number(&mut out, end);
    push_text(&mut out, " 틱");
    string_of(&out)
}

/// Which buttons of a player can be pressed.
#[derive(Clone, Copy, Debug, PartialEq, Eq, Structural)]
pub struct Buttons {
    pub play: bool,
    pub pause: bool,
    pub stop: bool,
}

/// Tells which buttons can be pressed, where there is something to play or not.
pub fn buttons(can_play: bool, state: PlaybackState) -> (r: Buttons)
    ensures
        r.play == (can_play && state != PlaybackState::Playing),
        r.pause == (state == PlaybackState::Playing),
        r.stop == can_play,
{
    let playing = state == PlaybackState::Playing;
    Buttons { play: can_play && !playing, pause: playing, stop: can_play }
}

/// Why a sound device cannot be used.
#[derive(Clone, Copy, Debug, PartialEq, Eq, Structural)]
pub enum OutputFault {
    /// It has no channels, or takes no samples.
    Invalid,
    /// It takes too few or too many samples in a second.
    SampleRate { rate: u32 },
}

/// Checks how a sound device takes samples.
pub fn check_output(channels: u16, rate: u32) -> (r: Result<(), OutputFault>)
    ensures
        match r {
            Ok(_) => channels > 0 && 16_000 <= rate <= 192_000,
            Err(OutputFault::Invalid) => channels == 0 || rate == 0,
            Err(OutputFault::SampleRate { rate: own }) => own == rate && channels > 0 && rate > 0
                && !(16_000 <= rate <= 192_000),
        },
{
    if channels == 0 || rate == 0 {
        Err(OutputFault::Invalid)
    } else if rate < 16_000 || rate > 192_000 {
        Err(OutputFault::SampleRate { rate })
    } else {
        Ok(())
    }
}

} // verus!
