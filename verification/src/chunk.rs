//! The MML of every part of a score between two ticks.
use crate::lengths::LengthTable;
use crate::score::{Note, Score, ScoreView, Tempo, Tick};
use crate::text::ascii_chars;
use crate::writer::{emit_with, part_text, EmitError};
use rayon::iter::{IndexedParallelIterator, IntoParallelRefIterator, ParallelIterator};
use vstd::prelude::*;
use vstd::string::*;

verus! {

/// The least number of notes for which parts are encoded side by side.
pub const MIN_WORK: usize = 16384;

/// Which part of which track cannot be written between two ticks, and why.
#[derive(Clone, Copy, Debug, PartialEq, Eq, Structural)]
pub struct ChunkError {
    pub track: usize,
    pub part: usize,
    pub cause: EmitError,
}

/// The beats per minute that apply at a tick: those of the last tempo at or before it.
pub open spec fn tempo_at(tempos: Seq<Tempo>, tick: int) -> i32
    decreases tempos.len(),
{
    if tempos.len() == 0 {
        120
    } else if tempos.last().0 <= tick {
        tempos.last().1
    } else {
        tempo_at(tempos.drop_last(), tick)
    }
}

/// The tempos strictly between two ticks, counted from the first of these.
pub open spec fn inner_tempos(tempos: Seq<Tempo>, a: int, b: int) -> Seq<Tempo>
    decreases tempos.len(),
{
    if tempos.len() == 0 {
        Seq::empty()
    } else {
        let before = inner_tempos(tempos.drop_last(), a, b);
        let (tick, value) = tempos.last();
        if a < tick < b {
            before.push(((tick - a) as Tick, value))
        } else {
            before
        }
    }
}

/// The tempos between two ticks, counted from the first, at which one always stands.
pub open spec fn local_tempos(tempos: Seq<Tempo>, a: int, b: int) -> Seq<Tempo> {
    seq![(0 as Tick, tempo_at(tempos, a))] + inner_tempos(tempos, a, b)
}

/// What of a note sounds between two ticks, counted from the first.
pub open spec fn clipped(note: Note, a: int, b: int) -> Option<Note> {
    let on = if note.on < a {
        a
    } else {
        note.on as int
    };
    let off = if note.off > b {
        b
    } else {
        note.off as int
    };
    if on < off {
        Some(Note { on: (on - a) as Tick, off: (off - a) as Tick, ..note })
    } else {
        None
    }
}

/// What of some notes sounds between two ticks, without what is too short to write where
/// that is dropped.
pub open spec fn sliced(notes: Seq<Note>, a: int, b: int, drop_short: bool) -> Seq<Note>
    decreases notes.len(),
{
    if notes.len() == 0 {
        Seq::empty()
    } else {
        let before = sliced(notes.drop_last(), a, b, drop_short);
        match clipped(notes.last(), a, b) {
            Some(note) => if drop_short && note.off - note.on < 6 {
                before
            } else {
                before.push(note)
            },
            None => before,
        }
    }
}

/// The MML of one part between two ticks. The first part of a track carries the tempos.
pub open spec fn chunk_part(
    score: ScoreView,
    tempos: Seq<Tempo>,
    ti: int,
    pi: int,
    a: int,
    b: int,
    drop_short: bool,
) -> Result<Seq<u8>, EmitError> {
    part_text(
        sliced(score.tracks[ti].parts[pi], a, b, drop_short),
        if pi == 0 {
            local_tempos(tempos, a, b)
        } else {
            Seq::empty()
        },
        b - a,
    )
}

/// What keeps a part of a track, from some part on, from being written.
pub open spec fn track_fault(
    score: ScoreView,
    tempos: Seq<Tempo>,
    ti: int,
    pi: int,
    a: int,
    b: int,
    drop_short: bool,
) -> Option<ChunkError>
    decreases score.tracks[ti].parts.len() - pi,
{
    if pi < 0 || pi >= score.tracks[ti].parts.len() {
        None
    } else {
        match chunk_part(score, tempos, ti, pi, a, b, drop_short) {
            Err(cause) => Some(ChunkError { track: ti as usize, part: pi as usize, cause }),
            Ok(_) => track_fault(score, tempos, ti, pi + 1, a, b, drop_short),
        }
    }
}

/// What keeps a part, from some track on, from being written.
pub open spec fn chunk_fault(
    score: ScoreView,
    tempos: Seq<Tempo>,
    ti: int,
    a: int,
    b: int,
    drop_short: bool,
) -> Option<ChunkError>
    decreases score.tracks.len() - ti,
{
    if ti < 0 || ti >= score.tracks.len() {
        None
    } else {
        match track_fault(score, tempos, ti, 0, a, b, drop_short) {
            Some(e) => Some(e),
            None => chunk_fault(score, tempos, ti + 1, a, b, drop_short),
        }
    }
}

/// The MML of every part of every track between two ticks.
pub open spec fn chunk_texts(
    score: ScoreView,
    tempos: Seq<Tempo>,
    a: int,
    b: int,
    drop_short: bool,
) -> Seq<Seq<Seq<char>>> {
    Seq::new(
        score.tracks.len(),
        |ti: int|
            Seq::new(
                score.tracks[ti].parts.len(),
                |pi: int|
                    ascii_chars(chunk_part(score, tempos, ti, pi, a, b, drop_short)->Ok_0),
            ),
    )
}

/// Whether every part between two ticks can be written in no more than some characters.
pub open spec fn chunk_fits(
    score: ScoreView,
    tempos: Seq<Tempo>,
    a: int,
    b: int,
    drop_short: bool,
    limit: int,
) -> Result<bool, ChunkError> {
    match chunk_fault(score, tempos, 0, a, b, drop_short) {
        Some(e) => Err(e),
        None => Ok(within(chunk_texts(score, tempos, a, b, drop_short), limit)),
    }
}

/// Whether no text is longer than some number of characters.
pub open spec fn within(texts: Seq<Seq<Seq<char>>>, limit: int) -> bool {
    forall|ti: int, pi: int|
        0 <= ti < texts.len() && 0 <= pi < texts[ti].len() ==> (#[trigger] texts[ti][pi]).len()
            <= limit
}

/// Texts as their characters.
pub open spec fn text_views(texts: Seq<Vec<String>>) -> Seq<Seq<Seq<char>>> {
    Seq::new(
        texts.len(),
        |ti: int| Seq::new(texts[ti].len() as nat, |pi: int| texts[ti]@[pi]@),
    )
}

/// Finds the beats per minute that apply at a tick.
pub fn find_tempo(tempos: &[Tempo], tick: Tick) -> (r: i32)
    ensures
        r == tempo_at(tempos@, tick as int),
{
    let mut i: usize = tempos.len();
    proof {
        assert(tempos@.take(i as int) =~= tempos@);
    }
    while i > 0
        invariant
            i <= tempos.len(),
            tempo_at(tempos@.take(i as int), tick as int) == tempo_at(tempos@, tick as int),
        decreases i,
    {
        proof {
            assert(tempos@.take(i as int).drop_last() =~= tempos@.take(i - 1));
        }
        if tempos[i - 1].0 <= tick {
            return tempos[i - 1].1;
        }
        i -= 1;
    }
    120
}

/// Moves the tempos between two ticks to the first of these.
pub fn rebase_tempos(tempos: &[Tempo], a: Tick, b: Tick) -> (r: Vec<Tempo>)
    requires
        0 <= a,
    ensures
        r@ == local_tempos(tempos@, a as int, b as int),
{
    let mut r: Vec<Tempo> = Vec::new();
    r.push((0, find_tempo(tempos, a)));
    let ghost first = r@;
    let mut i: usize = 0;
    proof {
        assert(tempos@.take(0) =~= Seq::<Tempo>::empty());
        assert(r@ =~= first + inner_tempos(tempos@.take(0), a as int, b as int));
        assert(first =~= seq![(0 as Tick, tempo_at(tempos@, a as int))]);
    }
    while i < tempos.len()
        invariant
            i <= tempos.len(),
            0 <= a,
            r@ == first + inner_tempos(tempos@.take(i as int), a as int, b as int),
        decreases tempos.len() - i,
    {
        let (tick, value) = tempos[i];
        proof {
            assert(tempos@.take(i + 1).drop_last() =~= tempos@.take(i as int));
        }
        if a < tick && tick < b {
            r.push((tick - a, value));
        }
        i += 1;
        proof {
            assert(r@ =~= first + inner_tempos(tempos@.take(i as int), a as int, b as int));
        }
    }
    proof {
        assert(tempos@.take(i as int) =~= tempos@);
    }
    r
}

/// Cuts notes to what sounds between two ticks.
pub fn slice_notes(notes: &[Note], a: Tick, b: Tick, drop_short: bool) -> (r: Vec<Note>)
    requires
        0 <= a <= b,
    ensures
        r@ == sliced(notes@, a as int, b as int, drop_short),
{
    let mut r: Vec<Note> = Vec::new();
    let mut i: usize = 0;
    proof {
        assert(notes@.take(0) =~= Seq::<Note>::empty());
    }
    while i < notes.len()
        invariant
            i <= notes.len(),
            0 <= a <= b,
            r@ == sliced(notes@.take(i as int), a as int, b as int, drop_short),
        decreases notes.len() - i,
    {
        let note = notes[i];
        let on: Tick = if note.on < a {
            a
        } else {
            note.on
        };
        let off: Tick = if note.off > b {
            b
        } else {
            note.off
        };
        proof {
            assert(notes@.take(i + 1).drop_last() =~= notes@.take(i as int));
        }
        if on < off {
            if !drop_short || off - on >= 6 {
                r.push(Note { on: on - a, off: off - a, ..note });
            }
        }
        i += 1;
    }
    proof {
        assert(notes@.take(i as int) =~= notes@);
    }
    r
}

/// One part to be written, and whether it carries the tempos.
pub struct PartJob<'a> {
    notes: &'a Vec<Note>,
    leads: bool,
}

/// The two ticks between which parts are written, and the tempos between them.
pub struct Span {
    a: Tick,
    b: Tick,
    drop_short: bool,
    local: Vec<Tempo>,
}

spec fn job_text(job: PartJob, span: Span) -> Result<Seq<u8>, EmitError> {
    part_text(
        sliced(job.notes@, span.a as int, span.b as int, span.drop_short),
        if job.leads {
            span.local@
        } else {
            Seq::empty()
        },
        span.b - span.a,
    )
}

spec fn is_result(r: Result<String, EmitError>, text: Result<Seq<u8>, EmitError>) -> bool {
    match r {
        Ok(s) => text matches Ok(bytes) && s@ == ascii_chars(bytes),
        Err(e) => text == Err::<Seq<u8>, _>(e),
    }
}

fn encode_part(job: &PartJob, span: &Span, table: &LengthTable) -> (r: Result<String, EmitError>)
    requires
        0 <= span.a <= span.b,
        table.well_formed(),
    ensures
        is_result(r, job_text(*job, *span)),
{
    let notes = slice_notes(job.notes, span.a, span.b, span.drop_short);
    if job.leads {
        emit_with(&notes, &span.local, span.b - span.a, table)
    } else {
        let none: Vec<Tempo> = Vec::new();
        proof {
            assert(none@ =~= Seq::<Tempo>::empty());
        }
        emit_with(&notes, &none, span.b - span.a, table)
    }
}

/// Encodes parts side by side, with `par_iter`, `with_min_len`, `map` and `collect` of
/// `rayon`. Collecting into a vector keeps the order of the items whatever the order in which
/// they are done, so that the result at each position is what encoding the part at that
/// position gives.
#[verifier::external_body]
fn encode_side_by_side(
    jobs: &Vec<PartJob>,
    span: &Span,
    table: &LengthTable,
    grain: usize,
) -> (r: Vec<Result<String, EmitError>>)
    requires
        0 <= span.a <= span.b,
        table.well_formed(),
        grain >= 1,
    ensures
        r.len() == jobs.len(),
        forall|i: int|
            0 <= i < jobs.len() ==> is_result(#[trigger] r@[i], job_text(jobs@[i], *span)),
{
    jobs.par_iter().with_min_len(grain).map(|job| encode_part(job, span, table)).collect()
}

/// Encodes parts in the order in which they are given: side by side where that pays.
fn encode_jobs(jobs: &Vec<PartJob>, work: usize, span: &Span, table: &LengthTable) -> (r: Vec<
    Result<String, EmitError>,
>)
    requires
        0 <= span.a <= span.b,
        table.well_formed(),
    ensures
        r.len() == jobs.len(),
        forall|i: int|
            0 <= i < jobs.len() ==> is_result(#[trigger] r@[i], job_text(jobs@[i], *span)),
{
    if work >= MIN_WORK && jobs.len() >= 2 {
        let share: usize = jobs.len() / 32;
        return encode_side_by_side(
            jobs,
            span,
            table,
            if share < 1 {
                1
            } else {
                share
            },
        );
    }
    let mut r: Vec<Result<String, EmitError>> = Vec::new();
    let mut i: usize = 0;
    while i < jobs.len()
        invariant
            i <= jobs.len(),
            0 <= span.a <= span.b,
            table.well_formed(),
            r.len() == i,
            forall|k: int| 0 <= k < i ==> is_result(#[trigger] r@[k], job_text(jobs@[k], *span)),
        decreases jobs.len() - i,
    {
        r.push(encode_part(&jobs[i], span, table));
        i += 1;
    }
    r
}

/// The number of parts of the first tracks.
spec fn parts_before(score: ScoreView, ti: int) -> int
    decreases ti,
{
    if ti <= 0 {
        0
    } else {
        parts_before(score, ti - 1) + score.tracks[ti - 1].parts.len()
    }
}

/// Whether the job of a part stands where that part's turn is.
spec fn is_job(jobs: Seq<PartJob>, score: ScoreView, ti: int, pi: int) -> bool {
    let job = jobs[parts_before(score, ti) + pi];
    job.notes@ == score.tracks[ti].parts[pi] && job.leads == (pi == 0)
}

proof fn lemma_parts_before(score: ScoreView, ti: int, tj: int)
    requires
        0 <= ti <= tj,
    ensures
        0 <= parts_before(score, ti) <= parts_before(score, tj),
        ti < tj ==> parts_before(score, ti) + score.tracks[ti].parts.len() <= parts_before(
            score,
            tj,
        ),
    decreases tj,
{
    if ti < tj {
        lemma_parts_before(score, ti, tj - 1);
    } else if ti > 0 {
        lemma_parts_before(score, ti - 1, ti - 1);
    }
}

proof fn lemma_track_fault(
    score: ScoreView,
    tempos: Seq<Tempo>,
    ti: int,
    from: int,
    pi: int,
    a: int,
    b: int,
    drop_short: bool,
)
    requires
        0 <= from <= pi <= score.tracks[ti].parts.len(),
        forall|k: int|
            from <= k < pi ==> #[trigger] chunk_part(score, tempos, ti, k, a, b, drop_short) is Ok,
    ensures
        track_fault(score, tempos, ti, from, a, b, drop_short) == track_fault(
            score,
            tempos,
            ti,
            pi,
            a,
            b,
            drop_short,
        ),
    decreases pi - from,
{
    if from < pi {
        assert(chunk_part(score, tempos, ti, from, a, b, drop_short) is Ok);
        lemma_track_fault(score, tempos, ti, from + 1, pi, a, b, drop_short);
    }
}

/// Where nothing keeps a chunk from being written, every part of it can be.
pub proof fn lemma_no_fault(
    score: ScoreView,
    tempos: Seq<Tempo>,
    from: int,
    ti: int,
    pi: int,
    a: int,
    b: int,
    drop_short: bool,
)
    requires
        chunk_fault(score, tempos, from, a, b, drop_short) is None,
        0 <= from <= ti < score.tracks.len(),
        0 <= pi < score.tracks[ti].parts.len(),
    ensures
        chunk_part(score, tempos, ti, pi, a, b, drop_short) is Ok,
    decreases score.tracks.len() - from,
{
    if from < ti {
        lemma_no_fault(score, tempos, from + 1, ti, pi, a, b, drop_short);
    } else {
        lemma_no_track_fault(score, tempos, ti, 0, pi, a, b, drop_short);
    }
}

proof fn lemma_no_track_fault(
    score: ScoreView,
    tempos: Seq<Tempo>,
    ti: int,
    from: int,
    pi: int,
    a: int,
    b: int,
    drop_short: bool,
)
    requires
        track_fault(score, tempos, ti, from, a, b, drop_short) is None,
        0 <= from <= pi < score.tracks[ti].parts.len(),
    ensures
        chunk_part(score, tempos, ti, pi, a, b, drop_short) is Ok,
    decreases pi - from,
{
    if from < pi {
        lemma_no_track_fault(score, tempos, ti, from + 1, pi, a, b, drop_short);
    }
}

/// Writes every part of a score between two ticks.
pub fn encode_chunk_parts(
    score: &Score,
    tempos: &[Tempo],
    a: Tick,
    b: Tick,
    drop_short: bool,
    table: &LengthTable,
) -> (r: Result<Vec<Vec<String>>, ChunkError>)
    requires
        0 <= a <= b,
        table.well_formed(),
    ensures
        match r {
            Ok(texts) => chunk_fault(score@, tempos@, 0, a as int, b as int, drop_short) is None
                && text_views(texts@) == chunk_texts(
                score@,
                tempos@,
                a as int,
                b as int,
                drop_short,
            ),
            Err(e) => chunk_fault(score@, tempos@, 0, a as int, b as int, drop_short) == Some(e),
        },
{
    let span = Span { a, b, drop_short, local: rebase_tempos(tempos, a, b) };
    let ghost view = score@;
    let mut jobs: Vec<PartJob> = Vec::new();
    let mut work: usize = 0;
    let mut ti: usize = 0;
    while ti < score.tracks.len()
        invariant
            ti <= score.tracks.len(),
            view == score@,
            jobs.len() == parts_before(view, ti as int),
            forall|tj: int, pj: int|
                0 <= tj < ti && 0 <= pj < view.tracks[tj].parts.len() ==> #[trigger] is_job(jobs@, view, tj, pj),
        decreases score.tracks.len() - ti,
    {
        let parts = &score.tracks[ti].parts;
        let mut pi: usize = 0;
        while pi < parts.len()
            invariant
                ti < score.tracks.len(),
                parts == &score.tracks[ti as int].parts,
                pi <= parts.len(),
                view == score@,
                jobs.len() == parts_before(view, ti as int) + pi,
                forall|tj: int, pj: int|
                    0 <= tj < ti && 0 <= pj < view.tracks[tj].parts.len() ==> #[trigger] is_job(jobs@, view, tj, pj),
                forall|pj: int|
                    0 <= pj < pi ==> #[trigger] is_job(jobs@, view, ti as int, pj),
            decreases parts.len() - pi,
        {
            let notes = &parts[pi];
            let ghost before = jobs@;
            jobs.push(PartJob { notes, leads: pi == 0 });
            proof {
                assert forall|tj: int, pj: int|
                    0 <= tj < ti && 0 <= pj < view.tracks[tj].parts.len() implies #[trigger] is_job(jobs@, view, tj, pj) by {
                    lemma_parts_before(view, tj, ti as int);
                    assert(is_job(before, view, tj, pj));
                    assert(jobs@[parts_before(view, tj) + pj] == before[parts_before(view, tj)
                        + pj]);
                }
                lemma_parts_before(view, 0, ti as int);
                assert forall|pj: int| 0 <= pj < pi + 1 implies #[trigger] is_job(
                    jobs@,
                    view,
                    ti as int,
                    pj,
                ) by {
                    if pj < pi {
                        assert(is_job(before, view, ti as int, pj));
                    }
                }
            }
            work = work.saturating_add(notes.len());
            pi += 1;
        }
        ti += 1;
    }
    let results = encode_jobs(&jobs, work, &span, table);
    let mut texts: Vec<Vec<String>> = Vec::new();
    let mut next: usize = 0;
    let mut ti: usize = 0;
    while ti < score.tracks.len()
        invariant
            ti <= score.tracks.len(),
            view == score@,
            0 <= a <= b,
            span.a == a,
            span.b == b,
            span.drop_short == drop_short,
            span.local@ == local_tempos(tempos@, a as int, b as int),
            jobs.len() == parts_before(view, view.tracks.len() as int),
            results.len() == jobs.len(),
            forall|i: int|
                0 <= i < jobs.len() ==> is_result(#[trigger] results@[i], job_text(jobs@[i], span)),
            forall|tj: int, pj: int|
                0 <= tj < view.tracks.len() && 0 <= pj < view.tracks[tj].parts.len() ==> #[trigger] is_job(jobs@, view, tj, pj),
            next == parts_before(view, ti as int),
            texts.len() == ti,
            chunk_fault(view, tempos@, 0, a as int, b as int, drop_short) == chunk_fault(
                view,
                tempos@,
                ti as int,
                a as int,
                b as int,
                drop_short,
            ),
            text_views(texts@) == chunk_texts(
                view,
                tempos@,
                a as int,
                b as int,
                drop_short,
            ).take(ti as int),
        decreases score.tracks.len() - ti,
    {
        let count: usize = score.tracks[ti].parts.len();
        let mut list: Vec<String> = Vec::new();
        let ghost goal = chunk_texts(view, tempos@, a as int, b as int, drop_short);
        let mut pi: usize = 0;
        proof {
            lemma_parts_before(view, ti as int, view.tracks.len() as int);
            assert(view.tracks[ti as int].parts.len() == count);
        }
        while pi < count
            invariant
                ti < view.tracks.len(),
                pi <= count,
                count == view.tracks[ti as int].parts.len(),
                0 <= a <= b,
                span.a == a,
                span.b == b,
                span.drop_short == drop_short,
                span.local@ == local_tempos(tempos@, a as int, b as int),
                jobs.len() == parts_before(view, view.tracks.len() as int),
                parts_before(view, ti as int) + count <= jobs.len(),
                results.len() == jobs.len(),
                forall|i: int|
                    0 <= i < jobs.len() ==> is_result(
                        #[trigger] results@[i],
                        job_text(jobs@[i], span),
                    ),
                forall|tj: int, pj: int|
                    0 <= tj < view.tracks.len() && 0 <= pj < view.tracks[tj].parts.len() ==> #[trigger] is_job(jobs@, view, tj, pj),
                view == score@,
                goal == chunk_texts(view, tempos@, a as int, b as int, drop_short),
                next == parts_before(view, ti as int) + pi,
                list.len() == pi,
                chunk_fault(view, tempos@, 0, a as int, b as int, drop_short) == chunk_fault(
                    view,
                    tempos@,
                    ti as int,
                    a as int,
                    b as int,
                    drop_short,
                ),
                forall|k: int|
                    0 <= k < pi ==> #[trigger] chunk_part(
                        view,
                        tempos@,
                        ti as int,
                        k,
                        a as int,
                        b as int,
                        drop_short,
                    ) is Ok,
                forall|k: int| 0 <= k < pi ==> (#[trigger] list@[k])@ == goal[ti as int][k],
            decreases count - pi,
        {
            proof {
                let job = jobs@[parts_before(view, ti as int) + pi];
                assert(is_job(jobs@, view, ti as int, pi as int));
                assert(job.notes@ == view.tracks[ti as int].parts[pi as int]);
                assert(job_text(job, span) == chunk_part(
                    view,
                    tempos@,
                    ti as int,
                    pi as int,
                    a as int,
                    b as int,
                    drop_short,
                ));
                assert(is_result(results@[next as int], job_text(jobs@[next as int], span)));
            }
            match &results[next] {
                Err(cause) => {
                    proof {
                        lemma_track_fault(
                            view,
                            tempos@,
                            ti as int,
                            0,
                            pi as int,
                            a as int,
                            b as int,
                            drop_short,
                        );
                    }
                    return Err(ChunkError { track: ti, part: pi, cause: *cause });
                },
                Ok(text) => {
                    list.push(text.clone());
                },
            }
            next += 1;
            pi += 1;
        }
        proof {
            lemma_track_fault(
                view,
                tempos@,
                ti as int,
                0,
                pi as int,
                a as int,
                b as int,
                drop_short,
            );
        }
        let ghost before = text_views(texts@);
        let ghost row = Seq::new(list.len() as nat, |k: int| list@[k]@);
        proof {
            assert(row =~= goal[ti as int]);
        }
        texts.push(list);
        ti += 1;
        proof {
            assert(text_views(texts@) =~= before.push(row));
            assert(text_views(texts@) =~= goal.take(ti as int));
        }
    }
    proof {
        let goal = chunk_texts(view, tempos@, a as int, b as int, drop_short);
        assert(goal.take(ti as int) =~= goal);
    }
    Ok(texts)
}

/// The lengths of texts, one track behind the other.
pub open spec fn widths_of(texts: Seq<Seq<Seq<char>>>) -> Seq<int>
    decreases texts.len(),
{
    if texts.len() == 0 {
        Seq::empty()
    } else {
        widths_of(texts.drop_last()) + Seq::new(
            texts.last().len(),
            |i: int| texts.last()[i].len() as int,
        )
    }
}

/// The number of characters of each part.
pub fn text_widths(texts: &Vec<Vec<String>>) -> (widths: Vec<usize>)
    ensures
        widths@.map_values(|w: usize| w as int) == widths_of(text_views(texts@)),
{
    let mut widths: Vec<usize> = Vec::new();
    let ghost view = text_views(texts@);
    let ghost f = |w: usize| w as int;
    let mut ti: usize = 0;
    proof {
        assert(view.take(0) =~= Seq::<Seq<Seq<char>>>::empty());
        assert(widths@.map_values(f) =~= Seq::<int>::empty());
    }
    while ti < texts.len()
        invariant
            ti <= texts.len(),
            view == text_views(texts@),
            f == (|w: usize| w as int),
            widths@.map_values(f) == widths_of(view.take(ti as int)),
        decreases texts.len() - ti,
    {
        let ghost before = widths@.map_values(f);
        let ghost row = Seq::new(view[ti as int].len(), |i: int| view[ti as int][i].len() as int);
        let mut pi: usize = 0;
        proof {
            assert(before + row.take(0) =~= before);
        }
        while pi < texts[ti].len()
            invariant
                ti < texts.len(),
                pi <= texts[ti as int].len(),
                view == text_views(texts@),
                f == (|w: usize| w as int),
                row == Seq::new(view[ti as int].len(), |i: int| view[ti as int][i].len() as int),
                widths@.map_values(f) == before + row.take(pi as int),
            decreases texts[ti as int].len() - pi,
        {
            let width: usize = texts[ti][pi].as_str().unicode_len();
            let ghost now = widths@;
            widths.push(width);
            proof {
                assert(row[pi as int] == width);
                assert(widths@.map_values(f) =~= now.map_values(f).push(width as int));
                assert(widths@.map_values(f) =~= before + row.take(pi + 1));
            }
            pi += 1;
        }
        proof {
            assert(row.take(pi as int) =~= row);
            assert(view.take(ti + 1).drop_last() =~= view.take(ti as int));
        }
        ti += 1;
    }
    proof {
        assert(view.take(ti as int) =~= view);
    }
    widths
}

/// No text is longer than a limit exactly where no width is greater.
pub proof fn lemma_within(texts: Seq<Seq<Seq<char>>>, limit: int)
    ensures
        within(texts, limit) <==> forall|i: int|
            0 <= i < widths_of(texts).len() ==> #[trigger] widths_of(texts)[i] <= limit,
    decreases texts.len(),
{
    let widths = widths_of(texts);
    if texts.len() > 0 {
        let front = texts.drop_last();
        lemma_within(front, limit);
        let before = widths_of(front);
        let n = texts.len() - 1;
        if within(texts, limit) {
            assert(within(front, limit)) by {
                assert forall|ti: int, pi: int|
                    0 <= ti < front.len() && 0 <= pi < front[ti].len() implies (
                #[trigger] front[ti][pi]).len() <= limit by {
                    assert(texts[ti][pi].len() <= limit);
                }
            }
            assert forall|i: int| 0 <= i < widths.len() implies #[trigger] widths[i] <= limit by {
                if i < before.len() {
                    assert(widths[i] == before[i]);
                } else {
                    assert(widths[i] == texts[n][i - before.len()].len());
                }
            }
        }
        if forall|i: int| 0 <= i < widths.len() ==> #[trigger] widths[i] <= limit {
            assert forall|i: int| 0 <= i < before.len() implies #[trigger] before[i] <= limit by {
                assert(widths[i] <= limit);
            }
            assert forall|ti: int, pi: int|
                0 <= ti < texts.len() && 0 <= pi < texts[ti].len() implies (
            #[trigger] texts[ti][pi]).len() <= limit by {
                if ti < n {
                    assert(front[ti][pi].len() <= limit);
                } else {
                    assert(widths[before.len() + pi] <= limit);
                }
            }
        }
    }
}

/// Whether no width is greater than a limit.
pub fn all_within(widths: &Vec<usize>, limit: usize) -> (r: bool)
    ensures
        r <==> forall|i: int| 0 <= i < widths.len() ==> #[trigger] widths[i] <= limit,
{
    let mut i: usize = 0;
    while i < widths.len()
        invariant
            i <= widths.len(),
            forall|k: int| 0 <= k < i ==> #[trigger] widths[k] <= limit,
        decreases widths.len() - i,
    {
        if widths[i] > limit {
            return false;
        }
        i += 1;
    }
    true
}

/// Whether every part between two ticks can be written in no more than some characters.
pub fn fits(
    score: &Score,
    tempos: &[Tempo],
    a: Tick,
    b: Tick,
    drop_short: bool,
    limit: usize,
    table: &LengthTable,
) -> (r: Result<bool, ChunkError>)
    requires
        0 <= a <= b,
        table.well_formed(),
    ensures
        r == chunk_fits(score@, tempos@, a as int, b as int, drop_short, limit as int),
{
    let texts = match encode_chunk_parts(score, tempos, a, b, drop_short, table) {
        Err(e) => {
            return Err(e);
        },
        Ok(texts) => texts,
    };
    let widths = text_widths(&texts);
    let all = all_within(&widths, limit);
    proof {
        let view = text_views(texts@);
        lemma_within(view, limit as int);
        lemma_all_within(widths@, view, limit as int);
    }
    Ok(all)
}

pub proof fn lemma_all_within(widths: Seq<usize>, texts: Seq<Seq<Seq<char>>>, limit: int)
    requires
        widths.map_values(|w: usize| w as int) == widths_of(texts),
    ensures
        within(texts, limit) <==> forall|i: int|
            0 <= i < widths.len() ==> #[trigger] widths[i] <= limit,
{
    lemma_within(texts, limit);
    let all = widths_of(texts);
    let f = |w: usize| w as int;
    assert(all.len() == widths.len());
    assert forall|i: int| 0 <= i < widths.len() implies all[i] == #[trigger] widths[i] by {
        assert(widths.map_values(f)[i] == widths[i]);
    }
    if within(texts, limit) {
        assert forall|i: int| 0 <= i < widths.len() implies #[trigger] widths[i] <= limit by {
            assert(all[i] <= limit);
        }
    }
    if forall|i: int| 0 <= i < widths.len() ==> #[trigger] widths[i] <= limit {
        assert forall|i: int| 0 <= i < all.len() implies #[trigger] all[i] <= limit by {
            assert(widths[i] <= limit);
        }
    }
}

} // verus!
