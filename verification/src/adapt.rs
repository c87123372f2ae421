//! Making a score one that mobile players can read, by moving its moments a little.
use crate::boundaries::{bounds, is_graph, is_valid, ordered, span_fits, with_point, with_span, Boundaries, Graph, Span};
use crate::mobile::{inverse_table, is_listed};
use crate::resolve::MoveFault;
use crate::score::{by_onset, part_views, sort_notes, Note, Score, ScoreView, Tempo, Tick, TrackView};
use crate::text::{chars_of, copy_chars, cut, find_char, integer_of, parse_i64, same_chars, string_views};
use crate::voices::{insert_tick, with_tick};
use crate::writer::EmitError;
use vstd::prelude::*;

verus! {

/// Why a score cannot be made one that mobile players can read.
#[derive(Clone, Copy, Debug, PartialEq, Eq)]
pub enum MobileFault {
    /// A stretch that comes before the start or ends before it begins.
    BadSpan { start: Tick, end: Tick },
    /// The notes of a part, both counted from one, overlap or do not last.
    Overlap { track: usize, part: usize },
    /// There are more moments than can be counted.
    TooMany,
    /// The moments cannot be moved so that every stretch can be written.
    Moving { fault: MoveFault },
    /// A part cannot be written.
    Emit { error: EmitError },
    /// The outcome is not one that mobile players can read.
    Unverified,
}

/// A graph with one more stretch.
pub open spec fn spanned(g: Graph, start: Tick, end: Tick) -> Result<Graph, MobileFault> {
    if !bounds(start, end) {
        Err(MobileFault::BadSpan { start, end })
    } else if g.original.len() + 2 > usize::MAX {
        Err(MobileFault::TooMany)
    } else {
        Ok(with_span(g, start, end))
    }
}

/// A graph with the stretches of the first notes of a part, and the end of the last.
pub open spec fn with_notes(g: Graph, notes: Seq<Note>, n: int, track: int, part: int) -> Result<
    (Graph, Tick),
    MobileFault,
>
    decreases n,
{
    if n <= 0 {
        Ok((g, 0))
    } else {
        match with_notes(g, notes, n - 1, track, part) {
            Err(e) => Err(e),
            Ok((before, previous)) => {
                let note = notes[n - 1];
                if note.on < previous || note.off <= note.on {
                    Err(
                        MobileFault::Overlap {
                            track: (track + 1) as usize,
                            part: (part + 1) as usize,
                        },
                    )
                } else {
                    match spanned(before, previous, note.on) {
                        Err(e) => Err(e),
                        Ok(rest) => match spanned(rest, note.on, note.off) {
                            Err(e) => Err(e),
                            Ok(all) => Ok((all, note.off)),
                        },
                    }
                }
            },
        }
    }
}

/// The moments of the first notes of the part that carries the tempos, in order.
pub open spec fn carrier(notes: Seq<Note>, n: int) -> Seq<Tick>
    decreases n,
{
    if n <= 0 {
        seq![0]
    } else {
        with_tick(with_tick(carrier(notes, n - 1), notes[n - 1].on), notes[n - 1].off)
    }
}

/// Moments with those of the first tempos, in order.
pub open spec fn with_tempo_ticks(points: Seq<Tick>, tempos: Seq<Tempo>, n: int) -> Seq<Tick>
    decreases n,
{
    if n <= 0 {
        points
    } else {
        with_tick(with_tempo_ticks(points, tempos, n - 1), tempos[n - 1].0)
    }
}

/// A graph with the stretches between the first of some moments.
pub open spec fn chained(g: Graph, points: Seq<Tick>, n: int) -> Result<Graph, MobileFault>
    decreases n,
{
    if n <= 1 {
        Ok(g)
    } else {
        match chained(g, points, n - 1) {
            Err(e) => Err(e),
            Ok(before) => spanned(before, points[n - 2], points[n - 1]),
        }
    }
}

/// A graph with the silence between the last note and the last tempo.
pub open spec fn with_last_tempo(g: Graph, previous: Tick, tempos: Seq<Tempo>) -> Result<
    Graph,
    MobileFault,
> {
    if tempos.len() > 0 && tempos.last().0 > previous {
        spanned(g, previous, tempos.last().0)
    } else {
        Ok(g)
    }
}

/// A graph with the stretches of a part.
pub open spec fn with_part(g: Graph, notes: Seq<Note>, tempos: Seq<Tempo>, track: int, part: int) -> Result<
    Graph,
    MobileFault,
> {
    let sorted = by_onset(notes);
    let n = sorted.len() as int;
    match with_notes(g, sorted, n, track, part) {
        Err(e) => Err(e),
        Ok((all, previous)) => if part != 0 {
            Ok(all)
        } else {
            match with_last_tempo(all, previous, tempos) {
                Err(e) => Err(e),
                Ok(longer) => {
                    let points = with_tempo_ticks(carrier(sorted, n), tempos, tempos.len() as int);
                    chained(longer, points, points.len() as int)
                },
            }
        },
    }
}

/// A graph with the stretches of the first parts of a track.
pub open spec fn with_parts(
    g: Graph,
    parts: Seq<Seq<Note>>,
    tempos: Seq<Tempo>,
    track: int,
    n: int,
) -> Result<Graph, MobileFault>
    decreases n,
{
    if n <= 0 {
        Ok(g)
    } else {
        match with_parts(g, parts, tempos, track, n - 1) {
            Err(e) => Err(e),
            Ok(before) => with_part(before, parts[n - 1], tempos, track, n - 1),
        }
    }
}

/// The stretches of the first tracks.
pub open spec fn with_tracks(tracks: Seq<TrackView>, tempos: Seq<Tempo>, n: int) -> Result<
    Graph,
    MobileFault,
>
    decreases n,
{
    if n <= 0 {
        Ok(Graph { original: seq![0], spans: Seq::empty() })
    } else {
        match with_tracks(tracks, tempos, n - 1) {
            Err(e) => Err(e),
            Ok(before) => with_parts(
                before,
                tracks[n - 1].parts,
                tempos,
                n - 1,
                tracks[n - 1].parts.len() as int,
            ),
        }
    }
}

/// Whether a line opens a section.
pub open spec fn opens_section(line: Seq<char>) -> bool {
    line.len() > 0 && line[0] == '['
}

/// Whether the section that the first lines end in is that of the time signatures.
pub open spec fn under_signatures(lines: Seq<Seq<char>>, n: int) -> bool
    decreases n,
{
    if n <= 0 {
        false
    } else if opens_section(lines[n - 1]) {
        lines[n - 1] == "[time-signature]"@
    } else {
        under_signatures(lines, n - 1)
    }
}

/// The tick that a line of the time signatures begins with.
pub open spec fn line_tick(line: Seq<char>) -> Option<Tick> {
    match cut(line, '=') {
        None => None,
        Some((tick, _)) => match integer_of(tick) {
            Some(t) => if i64::MIN <= t <= i64::MAX {
                Some(t as Tick)
            } else {
                None
            },
            None => None,
        },
    }
}

/// The tick of a line, where it stands among the time signatures.
pub open spec fn signature_tick(lines: Seq<Seq<char>>, i: int) -> Option<Tick> {
    if !opens_section(lines[i]) && under_signatures(lines, i) {
        line_tick(lines[i])
    } else {
        None
    }
}

/// A graph with the moments of the time signatures in the first lines.
pub open spec fn with_signatures(g: Graph, lines: Seq<Seq<char>>, n: int) -> Result<Graph, MobileFault>
    decreases n,
{
    if n <= 0 {
        Ok(g)
    } else {
        match with_signatures(g, lines, n - 1) {
            Err(e) => Err(e),
            Ok(before) => match signature_tick(lines, n - 1) {
                Some(tick) => if tick < 0 {
                    Ok(before)
                } else if before.original.len() + 2 > usize::MAX {
                    Err(MobileFault::TooMany)
                } else {
                    Ok(
                        Graph {
                            original: with_point(before.original, tick),
                            spans: before.spans,
                        },
                    )
                },
                None => Ok(before),
            },
        }
    }
}

/// The moments of a score and the stretches between them, before neighbours are tied.
pub open spec fn met(score: ScoreView) -> Result<Graph, MobileFault> {
    match with_tracks(score.tracks, score.all_tempos(), score.tracks.len() as int) {
        Err(e) => Err(e),
        Ok(g) => with_signatures(g, score.tail, score.tail.len() as int),
    }
}

/// The moments of a score and the stretches between them.
pub open spec fn graph_of(score: ScoreView) -> Result<Graph, MobileFault> {
    match met(score) {
        Err(e) => Err(e),
        Ok(g) => Ok(ordered(g)),
    }
}

/// Whether mobile players can read a score.
pub open spec fn compatible(score: ScoreView) -> bool {
    graph_of(score) matches Ok(g) && forall|i: int|
        0 <= i < g.spans.len() ==> is_valid(#[trigger] g.spans[i], g.original)
}

proof fn lemma_with_notes_fails(g: Graph, notes: Seq<Note>, from: int, to: int, track: int, part: int)
    requires
        0 <= from <= to,
        with_notes(g, notes, from, track, part) is Err,
    ensures
        with_notes(g, notes, to, track, part) is Err,
        with_notes(g, notes, to, track, part)->Err_0 == with_notes(
            g,
            notes,
            from,
            track,
            part,
        )->Err_0,
    decreases to - from,
{
    if from < to {
        lemma_with_notes_fails(g, notes, from, to - 1, track, part);
    }
}

proof fn lemma_chained_fails(g: Graph, points: Seq<Tick>, from: int, to: int)
    requires
        0 <= from <= to,
        chained(g, points, from) is Err,
    ensures
        chained(g, points, to) == chained(g, points, from),
    decreases to - from,
{
    if from < to {
        lemma_chained_fails(g, points, from, to - 1);
    }
}

proof fn lemma_with_parts_fails(
    g: Graph,
    parts: Seq<Seq<Note>>,
    tempos: Seq<Tempo>,
    track: int,
    from: int,
    to: int,
)
    requires
        0 <= from <= to,
        with_parts(g, parts, tempos, track, from) is Err,
    ensures
        with_parts(g, parts, tempos, track, to) == with_parts(g, parts, tempos, track, from),
    decreases to - from,
{
    if from < to {
        lemma_with_parts_fails(g, parts, tempos, track, from, to - 1);
    }
}

proof fn lemma_with_tracks_fails(tracks: Seq<TrackView>, tempos: Seq<Tempo>, from: int, to: int)
    requires
        0 <= from <= to,
        with_tracks(tracks, tempos, from) is Err,
    ensures
        with_tracks(tracks, tempos, to) == with_tracks(tracks, tempos, from),
    decreases to - from,
{
    if from < to {
        lemma_with_tracks_fails(tracks, tempos, from, to - 1);
    }
}

proof fn lemma_with_signatures_fails(g: Graph, lines: Seq<Seq<char>>, from: int, to: int)
    requires
        0 <= from <= to,
        with_signatures(g, lines, from) is Err,
    ensures
        with_signatures(g, lines, to) == with_signatures(g, lines, from),
    decreases to - from,
{
    if from < to {
        lemma_with_signatures_fails(g, lines, from, to - 1);
    }
}

fn span_out(b: &mut Boundaries, start: Tick, end: Tick) -> (r: Result<(), MobileFault>)
    requires
        old(b).valid(),
    ensures
        match r {
            Ok(_) => final(b).valid() && spanned(old(b).graph(), start, end) == Ok::<
                _,
                MobileFault,
            >(final(b).graph()),
            Err(e) => spanned(old(b).graph(), start, end) == Err::<Graph, _>(e),
        },
{
    if start < 0 || end < start {
        return Err(MobileFault::BadSpan { start, end });
    }
    if b.points() > usize::MAX - 2 {
        return Err(MobileFault::TooMany);
    }
    b.add_span(start, end);
    Ok(())
}

/// Takes up the stretches of the notes of a part, and returns the end of the last.
fn take_notes(b: &mut Boundaries, notes: &Vec<Note>, track: usize, part: usize) -> (r: Result<
    Tick,
    MobileFault,
>)
    requires
        old(b).valid(),
        track < usize::MAX,
        part < usize::MAX,
    ensures
        match r {
            Ok(previous) => final(b).valid() && with_notes(
                old(b).graph(),
                notes@,
                notes.len() as int,
                track as int,
                part as int,
            ) == Ok::<_, MobileFault>((final(b).graph(), previous)),
            Err(e) => with_notes(
                old(b).graph(),
                notes@,
                notes.len() as int,
                track as int,
                part as int,
            ) == Err::<(Graph, Tick), _>(e),
        },
{
    let ghost g = b.graph();
    let mut previous: Tick = 0;
    let mut i: usize = 0;
    while i < notes.len()
        invariant
            i <= notes.len(),
            track < usize::MAX,
            part < usize::MAX,
            g == old(b).graph(),
            b.valid(),
            with_notes(g, notes@, i as int, track as int, part as int) == Ok::<_, MobileFault>(
                (b.graph(), previous),
            ),
        decreases notes.len() - i,
    {
        let note = notes[i];
        let ghost n = notes.len() as int;
        if note.on < previous || note.off <= note.on {
            let fault = MobileFault::Overlap { track: track + 1, part: part + 1 };
            proof {
                lemma_with_notes_fails(g, notes@, i + 1, n, track as int, part as int);
            }
            return Err(fault);
        }
        match span_out(b, previous, note.on) {
            Err(e) => {
                proof {
                    lemma_with_notes_fails(g, notes@, i + 1, n, track as int, part as int);
                }
                return Err(e);
            },
            Ok(_) => {},
        }
        match span_out(b, note.on, note.off) {
            Err(e) => {
                proof {
                    lemma_with_notes_fails(g, notes@, i + 1, n, track as int, part as int);
                }
                return Err(e);
            },
            Ok(_) => {},
        }
        previous = note.off;
        i += 1;
    }
    Ok(previous)
}

/// The moments of the part that carries the tempos, in order.
fn carrier_points(notes: &Vec<Note>, tempos: &Vec<Tempo>) -> (points: Vec<Tick>)
    ensures
        points@ == with_tempo_ticks(carrier(notes@, notes.len() as int), tempos@, tempos.len() as int),
{
    let mut points: Vec<Tick> = Vec::new();
    points.push(0);
    let mut i: usize = 0;
    proof {
        assert(points@ =~= seq![0i64]);
    }
    while i < notes.len()
        invariant
            i <= notes.len(),
            points@ == carrier(notes@, i as int),
        decreases notes.len() - i,
    {
        insert_tick(&mut points, notes[i].on);
        insert_tick(&mut points, notes[i].off);
        i += 1;
    }
    let ghost base = points@;
    let mut i: usize = 0;
    while i < tempos.len()
        invariant
            i <= tempos.len(),
            points@ == with_tempo_ticks(base, tempos@, i as int),
        decreases tempos.len() - i,
    {
        insert_tick(&mut points, tempos[i].0);
        i += 1;
    }
    points
}

fn chain(b: &mut Boundaries, points: &Vec<Tick>) -> (r: Result<(), MobileFault>)
    requires
        old(b).valid(),
    ensures
        match r {
            Ok(_) => final(b).valid() && chained(old(b).graph(), points@, points.len() as int)
                == Ok::<_, MobileFault>(final(b).graph()),
            Err(e) => chained(old(b).graph(), points@, points.len() as int) == Err::<Graph, _>(e),
        },
{
    let ghost g = b.graph();
    if points.len() == 0 {
        return Ok(());
    }
    let mut i: usize = 1;
    while i < points.len()
        invariant
            1 <= i <= points.len(),
            g == old(b).graph(),
            b.valid(),
            chained(g, points@, i as int) == Ok::<_, MobileFault>(b.graph()),
        decreases points.len() - i,
    {
        match span_out(b, points[i - 1], points[i]) {
            Err(e) => {
                proof {
                    lemma_chained_fails(g, points@, i + 1, points.len() as int);
                }
                return Err(e);
            },
            Ok(_) => {},
        }
        i += 1;
    }
    Ok(())
}

fn take_part(
    b: &mut Boundaries,
    notes: &Vec<Note>,
    tempos: &Vec<Tempo>,
    track: usize,
    part: usize,
) -> (r: Result<(), MobileFault>)
    requires
        old(b).valid(),
        track < usize::MAX,
        part < usize::MAX,
    ensures
        match r {
            Ok(_) => final(b).valid() && with_part(
                old(b).graph(),
                notes@,
                tempos@,
                track as int,
                part as int,
            ) == Ok::<_, MobileFault>(final(b).graph()),
            Err(e) => with_part(old(b).graph(), notes@, tempos@, track as int, part as int)
                == Err::<Graph, _>(e),
        },
{
    let sorted = sort_notes(notes);
    let previous = match take_notes(b, &sorted, track, part) {
        Err(e) => return Err(e),
        Ok(previous) => previous,
    };
    if part != 0 {
        return Ok(());
    }
    if tempos.len() > 0 && tempos[tempos.len() - 1].0 > previous {
        match span_out(b, previous, tempos[tempos.len() - 1].0) {
            Err(e) => return Err(e),
            Ok(_) => {},
        }
    }
    let points = carrier_points(&sorted, tempos);
    chain(b, &points)
}

fn take_tracks(b: &mut Boundaries, score: &Score, tempos: &Vec<Tempo>) -> (r: Result<(), MobileFault>)
    requires
        old(b).valid(),
        old(b).graph() == (Graph { original: seq![0i64], spans: Seq::empty() }),
    ensures
        match r {
            Ok(_) => final(b).valid() && with_tracks(
                score@.tracks,
                tempos@,
                score@.tracks.len() as int,
            ) == Ok::<_, MobileFault>(final(b).graph()),
            Err(e) => with_tracks(score@.tracks, tempos@, score@.tracks.len() as int) == Err::<
                Graph,
                _,
            >(e),
        },
{
    let ghost tracks = score@.tracks;
    let mut ti: usize = 0;
    while ti < score.tracks.len()
        invariant
            ti <= score.tracks.len(),
            tracks == score@.tracks,
            b.valid(),
            with_tracks(tracks, tempos@, ti as int) == Ok::<_, MobileFault>(b.graph()),
        decreases score.tracks.len() - ti,
    {
        let parts = &score.tracks[ti].parts;
        let ghost g = b.graph();
        let ghost all = part_views(parts@);
        let mut pi: usize = 0;
        while pi < parts.len()
            invariant
                pi <= parts.len(),
                ti < score.tracks.len(),
                tracks == score@.tracks,
                all == part_views(parts@),
                all == tracks[ti as int].parts,
                b.valid(),
                with_tracks(tracks, tempos@, ti as int) == Ok::<_, MobileFault>(g),
                with_parts(g, all, tempos@, ti as int, pi as int) == Ok::<_, MobileFault>(
                    b.graph(),
                ),
            decreases parts.len() - pi,
        {
            match take_part(b, &parts[pi], tempos, ti, pi) {
                Err(e) => {
                    proof {
                        lemma_with_parts_fails(
                            g,
                            all,
                            tempos@,
                            ti as int,
                            pi + 1,
                            all.len() as int,
                        );
                        lemma_with_tracks_fails(tracks, tempos@, ti + 1, tracks.len() as int);
                    }
                    return Err(e);
                },
                Ok(_) => {},
            }
            pi += 1;
        }
        ti += 1;
    }
    Ok(())
}

/// Reads the tick of a line of the time signatures.
pub(crate) fn read_tick(line: &Vec<char>) -> (r: Option<Tick>)
    ensures
        r == line_tick(line@),
{
    let at = find_char(line, '=', 0);
    if at >= line.len() {
        return None;
    }
    let front = copy_chars(line, 0, at);
    proof {
        assert(front@ =~= line@.take(at as int));
    }
    parse_i64(&front)
}

/// Which section the next line stands in: whether that of the time signatures.
pub(crate) fn section_after(line: &Vec<char>, before: bool) -> (r: bool)
    ensures
        r == (if opens_section(line@) {
            line@ == "[time-signature]"@
        } else {
            before
        }),
{
    if line.len() > 0 && line[0] == '[' {
        same_chars(line, &chars_of("[time-signature]"))
    } else {
        before
    }
}

fn take_signatures(b: &mut Boundaries, tail: &Vec<String>) -> (r: Result<(), MobileFault>)
    requires
        old(b).valid(),
    ensures
        match r {
            Ok(_) => final(b).valid() && with_signatures(
                old(b).graph(),
                string_views(tail@),
                tail.len() as int,
            ) == Ok::<_, MobileFault>(final(b).graph()),
            Err(e) => with_signatures(old(b).graph(), string_views(tail@), tail.len() as int)
                == Err::<Graph, _>(e),
        },
{
    let ghost g = b.graph();
    let ghost lines = string_views(tail@);
    let mut among: bool = false;
    let mut i: usize = 0;
    while i < tail.len()
        invariant
            i <= tail.len(),
            lines == string_views(tail@),
            among == under_signatures(lines, i as int),
            g == old(b).graph(),
            b.valid(),
            with_signatures(g, lines, i as int) == Ok::<_, MobileFault>(b.graph()),
        decreases tail.len() - i,
    {
        let line = chars_of(tail[i].as_str());
        proof {
            assert(lines[i as int] == line@);
        }
        let section = line.len() > 0 && line[0] == '[';
        if !section && among {
            match read_tick(&line) {
                Some(tick) => {
                    if tick >= 0 {
                        if b.points() > usize::MAX - 2 {
                            proof {
                                lemma_with_signatures_fails(g, lines, i + 1, lines.len() as int);
                            }
                            return Err(MobileFault::TooMany);
                        }
                        b.index(tick);
                    }
                },
                None => {},
            }
        }
        among = section_after(&line, among);
        i += 1;
    }
    Ok(())
}

/// The moments of a score and the stretches between them.
pub(crate) fn boundaries(score: &Score) -> (r: Result<(Vec<Tick>, Vec<Span>), MobileFault>)
    ensures
        match r {
            Ok((original, spans)) => {
                &&& graph_of(score@) == Ok::<_, MobileFault>(
                    Graph { original: original@, spans: spans@ },
                )
                &&& is_graph(Graph { original: original@, spans: spans@ })
                &&& is_graph(met(score@)->Ok_0)
            },
            Err(e) => graph_of(score@) == Err::<Graph, _>(e),
        },
{
    let mut b = Boundaries::new();
    b.index(0);
    proof {
        assert(b.graph().original =~= seq![0i64]);
    }
    let tempos = score.tempos();
    match take_tracks(&mut b, score, &tempos) {
        Err(e) => return Err(e),
        Ok(_) => {},
    }
    match take_signatures(&mut b, &score.tail) {
        Err(e) => return Err(e),
        Ok(_) => {},
    }
    proof {
        b.lemma_graph();
    }
    let (original, spans) = b.preserve_order();
    Ok((original, spans))
}

/// Tells whether mobile players can read a score.
pub fn score_is_compatible(score: &Score) -> (r: bool)
    ensures
        r == compatible(score@),
{
    match boundaries(score) {
        Err(_) => false,
        Ok((original, spans)) => {
            let table = inverse_table();
            let ghost g = Graph { original: original@, spans: spans@ };
            let mut i: usize = 0;
            while i < spans.len()
                invariant
                    i <= spans.len(),
                    g == (Graph { original: original@, spans: spans@ }),
                    is_graph(g),
                    graph_of(score@) == Ok::<_, MobileFault>(g),
                    table.len() == 768,
                    forall|t: int| 0 <= t < 768 ==> #[trigger] table[t] == is_listed(t),
                    forall|k: int| 0 <= k < i ==> is_valid(#[trigger] g.spans[k], g.original),
                decreases spans.len() - i,
            {
                proof {
                    assert(crate::boundaries::leads_on(g.original, g.spans[i as int]));
                    assert(g.original[spans[i as int].start as int] >= 0);
                    assert(g.original[spans[i as int].end as int] >= 0);
                }
                if !span_fits(spans[i], &original, &table) {
                    proof {
                        let all = graph_of(score@)->Ok_0;
                        assert(all.spans[i as int] == spans[i as int]);
                        assert(!is_valid(all.spans[i as int], all.original));
                    }
                    return false;
                }
                i += 1;
            }
            true
        },
    }
}

} // verus!
