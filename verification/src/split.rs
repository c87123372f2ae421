//! Cutting a score into scrolls whose parts keep within a number of characters.
use crate::chunk::{chunk_fault, chunk_fits, encode_chunk_parts, fits, within};
use crate::cuts::{all_in_range, gaps, gaps_of, in_range, is_barred, legal_cuts};
use crate::frame::{signature_views, signatures, signatures_of};
use crate::lengths::LengthTable;
use crate::order::{keep, lemma_stable_sort};
use crate::score::{
    copy_tempos, flat, last_end, law_last_end, Note, Score, ScoreView, Tempo, Tick, TrackView,
};
use crate::scroll::{
    choose_end, end_of_scroll, furthest, furthest_fitting, is_far_enough, is_near, latest_key,
    longest_key, make_scroll, preferred, scroll_of, scroll_views, sort_latest, sort_longest,
    ticks_set, ScrollView,
};
use crate::text::{
    chars_of, number_text, padded_back, padded_front, push_chars, push_count, push_number, push_padded,
    push_padded_back, push_text, string_of,
};
use vstd::prelude::*;

pub use crate::scroll::{ScrollChunk, SplitError, SplitOptions, SplitResult};

verus! {

/// How far the planning of the scrolls of a score has come: those planned so far, the tick at
/// which the next begins, the ticks from which nothing leads on, and whether the next search
/// has to look at every cut.
#[verifier::ext_equal]
pub struct Plan {
    pub spans: Seq<(int, int)>,
    pub pos: int,
    pub dead: Set<int>,
    pub exact: bool,
}

pub enum Planning {
    Open(Plan),
    Done(Seq<(int, int)>),
    Failed(SplitError),
}

/// What planning the next scroll, or taking the last one back, makes of a plan.
pub open spec fn plan_on(
    score: ScoreView,
    tempos: Seq<Tempo>,
    total: int,
    options: SplitOptions,
    plan: Plan,
) -> Planning {
    let limit = options.limit as int;
    if plan.pos >= total {
        Planning::Done(plan.spans)
    } else {
        match furthest(score, tempos, total, plan.pos, limit, plan.dead, plan.exact) {
            Err(e) => if plan.spans.len() == 0 {
                Planning::Failed(e)
            } else {
                Planning::Open(
                    Plan {
                        spans: plan.spans.drop_last(),
                        pos: plan.spans.last().0,
                        dead: plan.dead.insert(plan.pos),
                        exact: true,
                    },
                )
            },
            Ok(best) => match end_of_scroll(
                score,
                tempos,
                total,
                options,
                plan.pos,
                best,
                plan.dead,
            ) {
                Err(e) => Planning::Failed(e),
                Ok(end) => if end <= plan.pos {
                    Planning::Failed(SplitError::Stuck { tick: plan.pos as Tick })
                } else {
                    match scroll_of(score, tempos, plan.pos, end, limit, false) {
                        Err(e) => Planning::Failed(e),
                        Ok(_) => Planning::Open(
                            Plan {
                                spans: plan.spans.push((plan.pos, end)),
                                pos: end,
                                dead: plan.dead,
                                exact: false,
                            },
                        ),
                    }
                },
            },
        }
    }
}

/// The plan that nothing has been added to.
pub open spec fn empty_plan() -> Plan {
    Plan { spans: Seq::empty(), pos: 0, dead: Set::empty(), exact: false }
}

/// How far planning has come after some steps.
pub open spec fn planned(
    score: ScoreView,
    tempos: Seq<Tempo>,
    total: int,
    options: SplitOptions,
    steps: nat,
) -> Planning
    decreases steps,
{
    if steps == 0 {
        Planning::Open(empty_plan())
    } else {
        match planned(score, tempos, total, options, (steps - 1) as nat) {
            Planning::Open(plan) => plan_on(score, tempos, total, options, plan),
            end => end,
        }
    }
}

proof fn lemma_planned_ends(
    score: ScoreView,
    tempos: Seq<Tempo>,
    total: int,
    options: SplitOptions,
    n: nat,
    m: nat,
)
    requires
        n <= m,
        !(planned(score, tempos, total, options, n) is Open),
    ensures
        planned(score, tempos, total, options, m) == planned(score, tempos, total, options, n),
    decreases m - n,
{
    if n < m {
        lemma_planned_ends(score, tempos, total, options, n, (m - 1) as nat);
    }
}

/// Planning comes to one end at most: the steps that it takes do not matter.
pub proof fn law_one_plan(
    score: ScoreView,
    tempos: Seq<Tempo>,
    total: int,
    options: SplitOptions,
    n: nat,
    m: nat,
)
    requires
        !(planned(score, tempos, total, options, n) is Open),
        !(planned(score, tempos, total, options, m) is Open),
    ensures
        planned(score, tempos, total, options, n) == planned(score, tempos, total, options, m),
{
    if n <= m {
        lemma_planned_ends(score, tempos, total, options, n, m);
    } else {
        lemma_planned_ends(score, tempos, total, options, m, n);
    }
}

/// Whether spans follow one another from the start of a score up to a tick.
pub open spec fn follows(spans: Seq<(int, int)>, to: int) -> bool {
    &&& forall|i: int| 0 <= i < spans.len() ==> (#[trigger] spans[i]).0 < spans[i].1
    &&& forall|i: int|
        0 < i < spans.len() ==> (#[trigger] spans[i]).0 == spans[i - 1].1
    &&& spans.len() > 0 ==> spans[0].0 == 0 && spans.last().1 == to
    &&& spans.len() == 0 ==> to == 0
}

/// The greatest of some widths.
pub open spec fn greatest(widths: Seq<int>) -> int
    decreases widths.len(),
{
    if widths.len() == 0 {
        0
    } else if greatest(widths.drop_last()) < widths.last() {
        widths.last()
    } else {
        greatest(widths.drop_last())
    }
}

/// How the report tells the silence at which a scroll ends.
pub open spec fn gap_text(scroll: ScrollView, total: int, reference: bool) -> Seq<char> {
    if !reference && scroll.end == total {
        "end of score"@
    } else if scroll.gap > 0 {
        number_text(scroll.gap) + " ticks"@
    } else {
        "none (hard cut)"@
    }
}

/// The line of the report on a scroll.
pub open spec fn report_line(scroll: ScrollView, index: int, total: int, reference: bool) -> Seq<
    char,
> {
    "  "@ + padded_front(number_text(index + 1), 2, '0') + "  ticks "@ + padded_front(
        number_text(scroll.start),
        7,
        ' ',
    ) + ".."@ + padded_back(number_text(scroll.end), 7) + "  widest part "@ + padded_front(
        number_text(greatest(scroll.widths)),
        4,
        ' ',
    ) + "  cut gap "@ + gap_text(scroll, total, reference) + "\n"@
}

/// The lines of the report on the first scrolls.
pub open spec fn report_lines(
    scrolls: Seq<ScrollView>,
    n: int,
    total: int,
    reference: bool,
) -> Seq<char>
    decreases n,
{
    if n <= 0 {
        Seq::empty()
    } else {
        report_lines(scrolls, n - 1, total, reference) + report_line(
            scrolls[n - 1],
            n - 1,
            total,
            reference,
        )
    }
}

/// The report on scrolls.
pub open spec fn report_text(
    scrolls: Seq<ScrollView>,
    limit: int,
    total: int,
    reference: bool,
) -> Seq<char> {
    number_text(scrolls.len() as int) + " scrolls, limit "@ + number_text(limit)
        + " chars/part\n"@ + report_lines(scrolls, scrolls.len() as int, total, reference)
}

/// The report where there is nothing to cut.
pub open spec fn empty_report(limit: int) -> Seq<char> {
    "0 scrolls, limit "@ + number_text(limit) + " chars/part (score contains no notes)"@
}

fn widest(widths: &Vec<usize>) -> (r: usize)
    ensures
        r == greatest(widths@.map_values(|w: usize| w as int)),
{
    let ghost f = |w: usize| w as int;
    let ghost all = widths@.map_values(f);
    let mut r: usize = 0;
    let mut i: usize = 0;
    proof {
        assert(all.take(0) =~= Seq::<int>::empty());
    }
    while i < widths.len()
        invariant
            i <= widths.len(),
            f == (|w: usize| w as int),
            all == widths@.map_values(f),
            r == greatest(all.take(i as int)),
        decreases widths.len() - i,
    {
        proof {
            assert(all.take(i + 1).drop_last() =~= all.take(i as int));
            assert(all.take(i + 1).last() == widths[i as int]);
        }
        if r < widths[i] {
            r = widths[i];
        }
        i += 1;
    }
    proof {
        assert(all.take(i as int) =~= all);
    }
    r
}

fn make_report_line(chunk: &ScrollChunk, index: usize, total: Tick, reference: bool) -> (line: Vec<
    char,
>)
    requires
        0 <= chunk.start <= chunk.end,
    ensures
        line@ == report_line(chunk@, index as int, total as int, reference),
{
    let mut line = chars_of("  ");
    push_padded(&mut line, index as u128 + 1, 2, '0');
    push_text(&mut line, "  ticks ");
    push_padded(&mut line, chunk.start as u128, 7, ' ');
    push_text(&mut line, "..");
    push_padded_back(&mut line, chunk.end as u128, 7);
    push_text(&mut line, "  widest part ");
    push_padded(&mut line, widest(&chunk.widths) as u128, 4, ' ');
    push_text(&mut line, "  cut gap ");
    let mut gap: Vec<char> = Vec::new();
    if !reference && chunk.end == total {
        gap = chars_of("end of score");
    } else if chunk.gap > 0 {
        push_number(&mut gap, chunk.gap);
        push_text(&mut gap, " ticks");
        proof {
            assert(gap@ =~= number_text(chunk.gap as int) + " ticks"@);
        }
    } else {
        gap = chars_of("none (hard cut)");
    }
    push_chars(&mut line, &gap);
    push_text(&mut line, "\n");
    line
}

fn make_report(chunks: &Vec<ScrollChunk>, limit: usize, total: Tick, reference: bool) -> (r: String)
    requires
        forall|i: int| 0 <= i < chunks.len() ==> 0 <= (#[trigger] chunks[i]).start <= chunks[i].end,
    ensures
        r@ == report_text(scroll_views(chunks@), limit as int, total as int, reference),
{
    let ghost scrolls = scroll_views(chunks@);
    let mut out: Vec<char> = Vec::new();
    push_count(&mut out, chunks.len() as u128);
    push_text(&mut out, " scrolls, limit ");
    push_count(&mut out, limit as u128);
    push_text(&mut out, " chars/part\n");
    let ghost first = out@;
    let mut i: usize = 0;
    proof {
        assert(first =~= number_text(scrolls.len() as int) + " scrolls, limit "@ + number_text(
            limit as int,
        ) + " chars/part\n"@);
        assert(out@ =~= first + report_lines(scrolls, 0, total as int, reference));
    }
    while i < chunks.len()
        invariant
            i <= chunks.len(),
            forall|k: int|
                0 <= k < chunks.len() ==> 0 <= (#[trigger] chunks[k]).start <= chunks[k].end,
            scrolls == scroll_views(chunks@),
            out@ == first + report_lines(scrolls, i as int, total as int, reference),
        decreases chunks.len() - i,
    {
        let chunk = &chunks[i];
        let line = make_report_line(chunk, i, total, reference);
        push_chars(&mut out, &line);
        proof {
            assert(scrolls[i as int] == chunk@);
            assert(out@ =~= first + (report_lines(scrolls, i as int, total as int, reference)
                + line@));
        }
        i += 1;
    }
    string_of(&out)
}

fn make_empty_report(limit: usize) -> (r: String)
    ensures
        r@ == empty_report(limit as int),
{
    let mut out = chars_of("0 scrolls, limit ");
    push_count(&mut out, limit as u128);
    push_text(&mut out, " chars/part (score contains no notes)");
    string_of(&out)
}

/// Whether notes begin no earlier than the score and end behind their begin.
pub open spec fn valid_notes(notes: Seq<Note>) -> bool {
    forall|i: int| 0 <= i < notes.len() ==> 0 <= (#[trigger] notes[i]).on < notes[i].off
}

fn all_valid(notes: &Vec<Note>) -> (r: bool)
    ensures
        r == valid_notes(notes@),
{
    let mut i: usize = 0;
    while i < notes.len()
        invariant
            i <= notes.len(),
            forall|k: int| 0 <= k < i ==> 0 <= (#[trigger] notes[k]).on < notes[k].off,
        decreases notes.len() - i,
    {
        if notes[i].on < 0 || notes[i].off <= notes[i].on {
            proof {
                assert(!(0 <= notes[i as int].on < notes[i as int].off));
            }
            return false;
        }
        i += 1;
    }
    true
}

proof fn lemma_flat_contains<T>(lists: Seq<Seq<T>>, i: int, k: int)
    requires
        0 <= i < lists.len(),
        0 <= k < lists[i].len(),
    ensures
        flat(lists).contains(lists[i][k]),
    decreases lists.len(),
{
    let front = lists.drop_last();
    let all = flat(lists);
    if i < front.len() {
        lemma_flat_contains(front, i, k);
        let m = choose|m: int| 0 <= m < flat(front).len() && flat(front)[m] == front[i][k];
        assert(all[m] == lists[i][k]);
    } else {
        assert(all[flat(front).len() + k] == lists[i][k]);
    }
}

/// Every note of a part is one of the notes of the score.
pub proof fn lemma_part_note(score: ScoreView, ti: int, pi: int, k: int)
    requires
        0 <= ti < score.tracks.len(),
        0 <= pi < score.tracks[ti].parts.len(),
        0 <= k < score.tracks[ti].parts[pi].len(),
    ensures
        score.notes().contains(score.tracks[ti].parts[pi][k]),
{
    let lists = Seq::new(score.tracks.len(), |i: int| flat(score.tracks[i].parts));
    lemma_flat_contains(score.tracks[ti].parts, pi, k);
    let note = score.tracks[ti].parts[pi][k];
    let m = choose|m: int| 0 <= m < lists[ti].len() && lists[ti][m] == note;
    lemma_flat_contains(lists, ti, m);
}

proof fn lemma_all_in_range(score: ScoreView)
    requires
        valid_notes(score.notes()),
        last_end(score.notes()) < i64::MAX - 6,
    ensures
        all_in_range(score),
{
    law_last_end(score.notes());
    assert forall|ti: int, pi: int|
        0 <= ti < score.tracks.len() && 0 <= pi < score.tracks[ti].parts.len() implies in_range(
        #[trigger] score.tracks[ti].parts[pi],
    ) by {
        let notes = score.tracks[ti].parts[pi];
        assert forall|k: int| 0 <= k < notes.len() implies 0 <= (#[trigger] notes[k]).on
            < notes[k].off < i64::MAX - 6 by {
            lemma_part_note(score, ti, pi, k);
            let m = choose|m: int|
                0 <= m < score.notes().len() && score.notes()[m] == notes[k];
            assert(score.notes()[m].off <= last_end(score.notes()));
        }
    }
}

/// What is wrong with the options or with a score that has notes, before it is cut.
pub open spec fn split_fault(score: ScoreView, options: SplitOptions) -> Option<SplitError> {
    let notes = score.notes();
    let total = last_end(notes);
    let tempos = score.all_tempos();
    if options.limit == 0 {
        Some(SplitError::NoLimit)
    } else if options.min_gap < 0 || options.big_gap < 0 {
        Some(SplitError::NegativeGap)
    } else if notes.len() == 0 {
        None
    } else if total <= 0 {
        Some(SplitError::EmptyScore)
    } else if total >= i64::MAX - 6 {
        Some(SplitError::TooLong)
    } else if !valid_notes(notes) {
        Some(SplitError::InvalidNote)
    } else if exists|i: int| 0 <= i < tempos.len() && (#[trigger] tempos[i]).0 < 0 {
        Some(SplitError::NegativeTempo)
    } else {
        match chunk_fault(score, tempos, 0, 0, total as int, false) {
            Some(error) => Some(SplitError::Unencodable { error, end: total }),
            None => None,
        }
    }
}

/// Whether scrolls are those of the spans of a plan.
pub open spec fn are_scrolls(
    score: ScoreView,
    tempos: Seq<Tempo>,
    limit: int,
    reference: bool,
    spans: Seq<(int, int)>,
    scrolls: Seq<ScrollView>,
) -> bool {
    &&& scrolls.len() == spans.len()
    &&& forall|i: int|
        0 <= i < scrolls.len() ==> scroll_of(
            score,
            tempos,
            spans[i].0,
            spans[i].1,
            limit,
            reference,
        ) == Ok::<ScrollView, SplitError>(#[trigger] scrolls[i])
}

/// Whether ticks of a list are distinct and lie before the end of a score.
spec fn distinct_below(s: Seq<Tick>, total: int) -> bool {
    &&& forall|i: int| 0 <= i < s.len() ==> 0 <= (#[trigger] s[i]) < total
    &&& s.no_duplicates()
}

proof fn lemma_distinct_below(s: Seq<Tick>, total: int)
    requires
        distinct_below(s, total),
        total >= 0,
    ensures
        s.len() <= total,
{
    let ints = s.map_values(|t: Tick| t as int);
    assert(ints.no_duplicates());
    let range = vstd::set_lib::set_int_range(0, total);
    vstd::set_lib::lemma_int_range(0, total);
    ints.unique_seq_to_set();
    assert(ints.to_set().subset_of(range)) by {
        assert forall|x: int| ints.to_set().contains(x) implies range.contains(x) by {
            let i = choose|i: int| 0 <= i < ints.len() && ints[i] == x;
            assert(0 <= s[i] < total);
        }
    }
    vstd::set_lib::lemma_len_subset(ints.to_set(), range);
}

proof fn lemma_ticks_push(s: Seq<Tick>, t: Tick)
    ensures
        ticks_set(s.push(t)) == ticks_set(s).insert(t as int),
{
    let new = s.push(t);
    assert forall|x: int| ticks_set(new).contains(x) <==> ticks_set(s).insert(t as int).contains(
        x,
    ) by {
        if ticks_set(new).contains(x) {
            let i = choose|i: int| 0 <= i < new.len() && #[trigger] new[i] == x;
            if i < s.len() {
                assert(s[i] == x);
            }
        }
        if ticks_set(s).contains(x) {
            let i = choose|i: int| 0 <= i < s.len() && #[trigger] s[i] == x;
            assert(new[i] == x);
        }
        if x == t {
            assert(new[s.len() as int] == x);
        }
    }
    assert(ticks_set(new) =~= ticks_set(s).insert(t as int));
}

/// The spans of scrolls.
pub open spec fn spans_of(scrolls: Seq<ScrollView>) -> Seq<(int, int)> {
    Seq::new(scrolls.len(), |i: int| (scrolls[i].start, scrolls[i].end))
}

/// Whether scrolls and a report are what a score is cut into without loss.
pub open spec fn is_lossless(
    score: ScoreView,
    options: SplitOptions,
    scrolls: Seq<ScrollView>,
    report: Seq<char>,
) -> bool {
    let total = last_end(score.notes());
    let tempos = score.all_tempos();
    let limit = options.limit as int;
    &&& split_fault(score, options) is None
    &&& score.notes().len() == 0 ==> scrolls.len() == 0 && report == empty_report(limit)
    &&& score.notes().len() > 0 ==> {
        &&& exists|steps: nat|
            #[trigger] planned(score, tempos, total as int, options, steps) == Planning::Done(
                spans_of(scrolls),
            )
        &&& are_scrolls(score, tempos, limit, false, spans_of(scrolls), scrolls)
        &&& follows(spans_of(scrolls), total as int)
        &&& report == report_text(scrolls, limit, total as int, false)
    }
}

/// Whether cutting a score without loss ends in an error.
pub open spec fn lossless_error(score: ScoreView, options: SplitOptions, e: SplitError) -> bool {
    split_fault(score, options) == Some(e) || (score.notes().len() > 0 && split_fault(
        score,
        options,
    ) is None && exists|steps: nat|
        #[trigger] planned(
            score,
            score.all_tempos(),
            last_end(score.notes()) as int,
            options,
            steps,
        ) == Planning::Failed(e))
}

/// Cuts a score into scrolls without losing anything of it.
pub fn split_score(score: &Score, options: &SplitOptions) -> (r: Result<SplitResult, SplitError>)
    ensures
        match r {
            Ok(result) => {
                &&& is_lossless(score@, *options, scroll_views(result.chunks@), result.report@)
                &&& forall|i: int|
                    0 <= i < result.chunks.len() ==> (#[trigger] result.chunks[i]).is_plain()
            },
            Err(e) => lossless_error(score@, *options, e),
        },
{
    if options.limit == 0 {
        return Err(SplitError::NoLimit);
    }
    if options.min_gap < 0 || options.big_gap < 0 {
        return Err(SplitError::NegativeGap);
    }
    let all_notes = score.all_notes();
    if all_notes.len() == 0 {
        let chunks: Vec<ScrollChunk> = Vec::new();
        return Ok(SplitResult { chunks, report: make_empty_report(options.limit) });
    }
    let total = score.total_ticks();
    if total <= 0 {
        return Err(SplitError::EmptyScore);
    }
    if total >= i64::MAX - 6 {
        return Err(SplitError::TooLong);
    }
    if !all_valid(&all_notes) {
        return Err(SplitError::InvalidNote);
    }
    let tempos = score.tempos();
    let mut i: usize = 0;
    while i < tempos.len()
        invariant
            i <= tempos.len(),
            tempos@ == score@.all_tempos(),
            forall|k: int| 0 <= k < i ==> (#[trigger] tempos@[k]).0 >= 0,
            0 < total < i64::MAX - 6,
            total == last_end(score@.notes()),
            valid_notes(score@.notes()),
            score@.notes().len() > 0,
            options.limit > 0,
            options.min_gap >= 0,
            options.big_gap >= 0,
        decreases tempos.len() - i,
    {
        if tempos[i].0 < 0 {
            proof {
                assert(score@.all_tempos()[i as int].0 < 0);
            }
            return Err(SplitError::NegativeTempo);
        }
        i += 1;
    }
    let table = LengthTable::new();
    match encode_chunk_parts(score, &tempos, 0, total, false, &table) {
        Err(error) => {
            return Err(SplitError::Unencodable { error, end: total });
        },
        Ok(_) => {},
    }
    proof {
        lemma_all_in_range(score@);
        assert(split_fault(score@, *options) is None);
    }
    let cuts = legal_cuts(score, &tempos, total);
    let candidates = gaps(&all_notes, options.min_gap);
    let silent = gaps(&all_notes, 1);
    let sigs = signatures(&score.tail);
    let mut chunks: Vec<ScrollChunk> = Vec::new();
    let mut pos: Tick = 0;
    let mut dead: Vec<Tick> = Vec::new();
    let mut exact: bool = false;
    let ghost mut steps = 0nat;
    proof {
        assert(spans_of(scroll_views(chunks@)) =~= empty_plan().spans);
        assert(ticks_set(dead@) =~= Set::<int>::empty());
    }
    while pos < total
        invariant
            0 <= pos <= total,
            0 < total < i64::MAX - 6,
            total == last_end(score@.notes()),
            tempos@ == score@.all_tempos(),
            split_fault(score@, *options) is None,
            score@.notes().len() > 0,
            table.well_formed(),
            cuts.describes(|t: int| is_barred(score@, tempos@, total as int, t), total as int),
            candidates@ == gaps_of(score@.notes(), options.min_gap as int),
            forall|k: int|
                0 <= k < candidates.len() ==> (#[trigger] candidates[k]).0 >= 0
                    && candidates[k].1 > 0,
            silent@ == gaps_of(score@.notes(), 1),
            signature_views(sigs@) == signatures_of(score@.tail, score@.tail.len() as int),
            planned(score@, tempos@, total as int, *options, steps) == Planning::Open(
                Plan {
                    spans: spans_of(scroll_views(chunks@)),
                    pos: pos as int,
                    dead: ticks_set(dead@),
                    exact,
                },
            ),
            are_scrolls(
                score@,
                tempos@,
                options.limit as int,
                false,
                spans_of(scroll_views(chunks@)),
                scroll_views(chunks@),
            ),
            follows(spans_of(scroll_views(chunks@)), pos as int),
            forall|k: int| 0 <= k < chunks.len() ==> (#[trigger] chunks[k]).is_plain(),
            forall|k: int|
                0 <= k < chunks.len() ==> 0 <= (#[trigger] chunks[k]).start < chunks[k].end
                    <= pos,
            distinct_below(dead@, total as int),
            !ticks_set(dead@).contains(pos as int),
            forall|k: int|
                0 <= k < chunks.len() ==> !ticks_set(dead@).contains(
                    (#[trigger] chunks[k]).start as int,
                ),
        decreases total - dead.len(), total - pos,
    {
        let ghost plan = Plan {
            spans: spans_of(scroll_views(chunks@)),
            pos: pos as int,
            dead: ticks_set(dead@),
            exact,
        };
        let ghost before = scroll_views(chunks@);
        proof {
            lemma_distinct_below(dead@, total as int);
        }
        let found = furthest_fitting(
            score,
            &tempos,
            &cuts,
            total,
            pos,
            options.limit,
            &dead,
            exact,
            &table,
        );
        match found {
            Err(e) => {
                let ghost was = dead@;
                let ghost list = chunks@;
                dead.push(pos);
                proof {
                    lemma_ticks_push(was, pos);
                    assert forall|a: int, b: int|
                        0 <= a < dead.len() && 0 <= b < dead.len() && a != b implies dead@[a]
                        != dead@[b] by {
                        if b == was.len() {
                            assert(was[a] as int == dead@[a]);
                            assert(was[a] != pos);
                        } else if a == was.len() {
                            assert(was[b] as int == dead@[b]);
                            assert(was[b] != pos);
                        } else {
                            assert(was[a] != was[b]);
                        }
                    }
                    assert(distinct_below(dead@, total as int));
                    lemma_distinct_below(dead@, total as int);
                }
                match chunks.pop() {
                    None => {
                        proof {
                            assert(plan.spans.len() == 0);
                            assert(planned(
                                score@,
                                tempos@,
                                total as int,
                                *options,
                                (steps + 1) as nat,
                            ) == Planning::Failed(e));
                        }
                        return Err(e);
                    },
                    Some(previous) => {
                        proof {
                            steps = (steps + 1) as nat;
                            let n = list.len() - 1;
                            assert(previous == list[n]);
                            assert(chunks@ =~= list.drop_last());
                            assert(scroll_views(chunks@) =~= before.drop_last());
                            assert(spans_of(scroll_views(chunks@)) =~= plan.spans.drop_last());
                            assert(plan.spans.last() == (list[n].start as int, list[n].end as int));
                            assert forall|k: int| 0 <= k < chunks.len() implies 0 <= (
                            #[trigger] chunks[k]).start < chunks[k].end <= previous.start by {
                                assert(chunks[k] == list[k]);
                                lemma_follows_order(plan.spans, pos as int, k, n);
                                assert(plan.spans[k] == (list[k].start as int, list[k].end as int));
                                assert(plan.spans[n] == (list[n].start as int, list[n].end as int));
                            }
                            lemma_follows_front(plan.spans, pos as int);
                            assert forall|k: int| 0 <= k < chunks.len() implies !ticks_set(
                                dead@,
                            ).contains((#[trigger] chunks[k]).start as int) by {
                                assert(chunks[k] == list[k]);
                            }
                            assert forall|k: int| 0 <= k < chunks.len() implies (
                            #[trigger] chunks[k]).is_plain() by {
                                assert(chunks[k] == list[k]);
                            }
                            assert(list[n].start < pos);
                        }
                        pos = previous.start;
                        exact = true;
                    },
                }
            },
            Ok(best) => {
                let chosen = choose_end(
                    score,
                    &tempos,
                    &cuts,
                    &candidates,
                    total,
                    options,
                    pos,
                    best,
                    &dead,
                    &table,
                );
                let end = match chosen {
                    Err(e) => {
                        proof {
                            assert(planned(
                                score@,
                                tempos@,
                                total as int,
                                *options,
                                (steps + 1) as nat,
                            ) == Planning::Failed(e));
                        }
                        return Err(e);
                    },
                    Ok(end) => end,
                };
                match make_scroll(
                    score,
                    &tempos,
                    &sigs,
                    &silent,
                    pos,
                    end,
                    options.limit,
                    false,
                    &table,
                ) {
                    Err(e) => {
                        proof {
                            assert(planned(
                                score@,
                                tempos@,
                                total as int,
                                *options,
                                (steps + 1) as nat,
                            ) == Planning::Failed(e));
                        }
                        return Err(e);
                    },
                    Ok(chunk) => {
                        let ghost list = chunks@;
                        let ghost view = chunk@;
                        chunks.push(chunk);
                        proof {
                            steps = (steps + 1) as nat;
                            assert(scroll_views(chunks@) =~= before.push(view));
                            assert(spans_of(scroll_views(chunks@)) =~= plan.spans.push(
                                (pos as int, end as int),
                            ));
                            lemma_follows_push(plan.spans, pos as int, end as int);
                            assert forall|k: int| 0 <= k < chunks.len() implies 0 <= (
                            #[trigger] chunks[k]).start < chunks[k].end <= end by {
                                if k < list.len() {
                                    assert(chunks[k] == list[k]);
                                } else {
                                    assert(chunks[k]@ == view);
                                }
                            }
                        }
                        pos = end;
                        exact = false;
                    },
                }
            },
        }
    }
    proof {
        assert(planned(score@, tempos@, total as int, *options, (steps + 1) as nat)
            == Planning::Done(spans_of(scroll_views(chunks@))));
    }
    let report = make_report(&chunks, options.limit, total, false);
    Ok(SplitResult { chunks, report })
}

proof fn lemma_follows_order(spans: Seq<(int, int)>, to: int, i: int, j: int)
    requires
        follows(spans, to),
        0 <= i < j < spans.len(),
    ensures
        spans[i].1 <= spans[j].0,
    decreases j - i,
{
    assert(spans[j].0 == spans[j - 1].1);
    if i < j - 1 {
        lemma_follows_order(spans, to, i, j - 1);
        assert(spans[j - 1].0 < spans[j - 1].1);
    }
}

proof fn lemma_follows_front(spans: Seq<(int, int)>, to: int)
    requires
        follows(spans, to),
        spans.len() > 0,
    ensures
        follows(spans.drop_last(), spans.last().0),
{
    let front = spans.drop_last();
    assert forall|i: int| 0 < i < front.len() implies (#[trigger] front[i]).0 == front[i
        - 1].1 by {
        assert(front[i] == spans[i]);
        assert(front[i - 1] == spans[i - 1]);
    }
    if front.len() > 0 {
        assert(spans[spans.len() - 1].0 == spans[spans.len() - 2].1);
    }
}

proof fn lemma_follows_push(spans: Seq<(int, int)>, to: int, end: int)
    requires
        follows(spans, to),
        to < end,
    ensures
        follows(spans.push((to, end)), end),
{
    let new = spans.push((to, end));
    assert forall|i: int| 0 < i < new.len() implies (#[trigger] new[i]).0 == new[i - 1].1 by {
        assert(new[i - 1] == spans[i - 1]);
        if i < spans.len() {
            assert(new[i] == spans[i]);
        }
    }
}

/// The tempos of the first track that has any.
pub open spec fn leading_tempos(tracks: Seq<TrackView>, i: int) -> Seq<Tempo>
    decreases tracks.len() - i,
{
    if i < 0 || i >= tracks.len() {
        Seq::empty()
    } else if tracks[i].tempos.len() > 0 {
        tracks[i].tempos
    } else {
        leading_tempos(tracks, i + 1)
    }
}

/// Whether every part fits between two ticks by the reference rules.
pub open spec fn reference_fits(
    score: ScoreView,
    tempos: Seq<Tempo>,
    a: int,
    b: int,
    limit: int,
) -> Result<bool, SplitError> {
    match chunk_fits(score, tempos, a, b, true, limit) {
        Ok(r) => Ok(r),
        Err(error) => Err(SplitError::Part { cause: error.cause }),
    }
}

/// A search by halves for the furthest tick that fits; of those tried, the last counts.
pub open spec fn reference_furthest(
    score: ScoreView,
    tempos: Seq<Tempo>,
    pos: int,
    limit: int,
    lo: int,
    hi: int,
    best: Option<int>,
) -> Result<Option<int>, SplitError>
    decreases hi - lo + 1,
{
    if lo > hi {
        Ok(best)
    } else {
        let mid = lo + (hi - lo) / 2;
        match reference_fits(score, tempos, pos, mid, limit) {
            Err(e) => Err(e),
            Ok(true) => reference_furthest(score, tempos, pos, limit, mid + 1, hi, Some(mid)),
            Ok(false) => reference_furthest(score, tempos, pos, limit, lo, mid - 1, best),
        }
    }
}

/// Where a scroll ends by the reference rules, given the furthest tick that fits.
pub open spec fn reference_end(
    score: ScoreView,
    total: int,
    options: SplitOptions,
    pos: int,
    best: int,
) -> int {
    let window = keep(
        gaps_of(score.notes(), options.min_gap as int),
        |g: (Tick, Tick)| pos + 6 < g.0 <= best,
    );
    let list = preferred(window, pos, best, options.big_gap as int);
    if best < total && list.len() > 0 {
        list[0].0 as int
    } else {
        best
    }
}

/// The spans of the scrolls of a score by the reference rules, from a tick on.
pub open spec fn reference_spans(
    score: ScoreView,
    tempos: Seq<Tempo>,
    total: int,
    options: SplitOptions,
    spans: Seq<(int, int)>,
    pos: int,
) -> Result<Seq<(int, int)>, SplitError>
    decreases
            (if pos < total {
                total - pos
            } else {
                0
            }),
{
    let limit = options.limit as int;
    if pos >= total {
        Ok(spans)
    } else {
        match reference_furthest(score, tempos, pos, limit, pos + 1, total, None) {
            Err(e) => Err(e),
            Ok(None) => Err(SplitError::EventOverLimit),
            Ok(Some(best)) => {
                let end = reference_end(score, total, options, pos, best);
                if end <= pos {
                    Err(SplitError::Stuck { tick: pos as Tick })
                } else {
                    match scroll_of(score, tempos, pos, end, limit, true) {
                        Err(e) => Err(e),
                        Ok(_) => reference_spans(
                            score,
                            tempos,
                            total,
                            options,
                            spans.push((pos, end)),
                            end,
                        ),
                    }
                }
            },
        }
    }
}

/// What is wrong with the options or with a score that has notes, by the reference rules.
pub open spec fn reference_fault(score: ScoreView, options: SplitOptions) -> Option<SplitError> {
    let notes = score.notes();
    if options.limit == 0 {
        Some(SplitError::NoLimit)
    } else if options.min_gap < 0 || options.big_gap < 0 {
        Some(SplitError::NegativeGap)
    } else if notes.len() == 0 {
        None
    } else if !valid_notes(notes) {
        Some(SplitError::InvalidNote)
    } else if last_end(notes) + 1 >= i64::MAX - 6 {
        Some(SplitError::TooLong)
    } else {
        None
    }
}

/// The spans of all scrolls of a score by the reference rules.
pub open spec fn reference_plan(score: ScoreView, options: SplitOptions) -> Result<
    Seq<(int, int)>,
    SplitError,
> {
    reference_spans(
        score,
        leading_tempos(score.tracks, 0),
        last_end(score.notes()) + 1,
        options,
        Seq::empty(),
        0,
    )
}

fn choose_reference_end(
    candidates: &Vec<(Tick, Tick)>,
    total: Tick,
    options: &SplitOptions,
    pos: Tick,
    best: Tick,
    Ghost(score): Ghost<ScoreView>,
) -> (end: Tick)
    requires
        0 <= pos < best <= total < i64::MAX - 6,
        candidates@ == gaps_of(score.notes(), options.min_gap as int),
        forall|i: int|
            0 <= i < candidates.len() ==> (#[trigger] candidates[i]).0 >= 0 && candidates[i].1
                > 0,
    ensures
        end == reference_end(score, total as int, *options, pos as int, best as int),
        pos < end <= best,
{
    if best >= total {
        return best;
    }
    let ghost inside = |g: (Tick, Tick)| pos + 6 < g.0 <= best;
    let ghost near_by = |g: (Tick, Tick)| is_near(pos as int, best as int, g.0 as int);
    let ghost long_off = |g: (Tick, Tick)|
        is_far_enough(pos as int, best as int, g.0 as int) && g.1 >= options.big_gap;
    let span: i128 = best as i128 - pos as i128;
    let mut near: Vec<(Tick, Tick)> = Vec::new();
    let mut far: Vec<(Tick, Tick)> = Vec::new();
    let mut i: usize = 0;
    let ghost mut window = Seq::<(Tick, Tick)>::empty();
    proof {
        assert(candidates@.take(0) =~= Seq::<(Tick, Tick)>::empty());
    }
    while i < candidates.len()
        invariant
            i <= candidates.len(),
            0 <= pos < best < total < i64::MAX - 6,
            span == best - pos,
            inside == (|g: (Tick, Tick)| pos + 6 < g.0 <= best),
            near_by == (|g: (Tick, Tick)| is_near(pos as int, best as int, g.0 as int)),
            long_off == (|g: (Tick, Tick)|
                is_far_enough(pos as int, best as int, g.0 as int) && g.1 >= options.big_gap),
            forall|k: int|
                0 <= k < candidates.len() ==> (#[trigger] candidates[k]).0 >= 0 && candidates[k].1
                    > 0,
            window == keep(candidates@.take(i as int), inside),
            near@ == keep(window, near_by),
            far@ == keep(window, long_off),
            forall|k: int| 0 <= k < near.len() ==> inside(#[trigger] near[k]) && near[k].1 > 0,
            forall|k: int| 0 <= k < far.len() ==> inside(#[trigger] far[k]) && far[k].1 > 0,
        decreases candidates.len() - i,
    {
        let gap = candidates[i];
        proof {
            assert(candidates@.take(i + 1).drop_last() =~= candidates@.take(i as int));
            assert(candidates@.take(i + 1).last() == gap);
        }
        if pos + 6 < gap.0 && gap.0 <= best {
            let way: i128 = gap.0 as i128 - pos as i128;
            let ghost wider = window.push(gap);
            proof {
                assert(inside(gap));
                assert(wider.drop_last() =~= window);
            }
            if 20 * way >= 17 * span {
                near.push(gap);
            }
            if 5 * way >= 2 * span && gap.1 >= options.big_gap {
                far.push(gap);
            }
            proof {
                window = wider;
            }
        }
        i += 1;
    }
    proof {
        assert(candidates@.take(i as int) =~= candidates@);
        lemma_stable_sort(near@, |g: (Tick, Tick)| longest_key(g));
        lemma_stable_sort(far@, |g: (Tick, Tick)| latest_key(g));
    }
    let ghost list = preferred(window, pos as int, best as int, options.big_gap as int);
    let sorted_near = sort_longest(&near);
    if sorted_near.len() > 0 {
        proof {
            assert(list[0] == sorted_near@[0]);
            assert(near@.contains(sorted_near@[0]));
            let m = choose|m: int| 0 <= m < near.len() && near@[m] == sorted_near@[0];
            assert(inside(near[m]));
        }
        return sorted_near[0].0;
    }
    let sorted_far = sort_latest(&far);
    if sorted_far.len() > 0 {
        proof {
            assert(list[0] == sorted_far@[0]);
            assert(far@.contains(sorted_far@[0]));
            let m = choose|m: int| 0 <= m < far.len() && far@[m] == sorted_far@[0];
            assert(inside(far[m]));
        }
        return sorted_far[0].0;
    }
    best
}

/// Whether scrolls and a report are what a score is cut into by the reference rules.
pub open spec fn is_reference(
    score: ScoreView,
    options: SplitOptions,
    scrolls: Seq<ScrollView>,
    report: Seq<char>,
) -> bool {
    let total = last_end(score.notes()) + 1;
    let limit = options.limit as int;
    &&& reference_fault(score, options) is None
    &&& score.notes().len() == 0 ==> scrolls.len() == 0 && report == empty_report(limit)
    &&& score.notes().len() > 0 ==> {
        &&& reference_plan(score, options) == Ok::<_, SplitError>(spans_of(scrolls))
        &&& are_scrolls(
            score,
            leading_tempos(score.tracks, 0),
            limit,
            true,
            spans_of(scrolls),
            scrolls,
        )
        &&& follows(spans_of(scrolls), total)
        &&& report == report_text(scrolls, limit, total, true)
    }
}

/// Whether cutting a score by the reference rules ends in an error.
pub open spec fn reference_error(score: ScoreView, options: SplitOptions, e: SplitError) -> bool {
    reference_fault(score, options) == Some(e) || (score.notes().len() > 0 && reference_fault(
        score,
        options,
    ) is None && reference_plan(score, options) == Err::<Seq<(int, int)>, _>(e))
}

/// Cuts a score into scrolls by the reference rules: the score is taken to last one tick more
/// than its notes, any tick can be a cut, and what is too short to write is dropped.
pub fn split_score_python(score: &Score, options: &SplitOptions) -> (r: Result<
    SplitResult,
    SplitError,
>)
    ensures
        match r {
            Ok(result) => {
                &&& is_reference(score@, *options, scroll_views(result.chunks@), result.report@)
                &&& forall|i: int|
                    0 <= i < result.chunks.len() ==> (#[trigger] result.chunks[i]).is_plain()
            },
            Err(e) => reference_error(score@, *options, e),
        },
{
    if options.limit == 0 {
        return Err(SplitError::NoLimit);
    }
    if options.min_gap < 0 || options.big_gap < 0 {
        return Err(SplitError::NegativeGap);
    }
    let notes = score.all_notes();
    if notes.len() == 0 {
        let chunks: Vec<ScrollChunk> = Vec::new();
        return Ok(SplitResult { chunks, report: make_empty_report(options.limit) });
    }
    if !all_valid(&notes) {
        return Err(SplitError::InvalidNote);
    }
    let end = score.total_ticks();
    if end >= i64::MAX - 7 {
        return Err(SplitError::TooLong);
    }
    let total: Tick = end + 1;
    proof {
        law_last_end(score@.notes());
        let k = choose|k: int|
            0 <= k < score@.notes().len() && (#[trigger] score@.notes()[k]).off == last_end(
                score@.notes(),
            );
        assert(total > 0);
    }
    let mut first: usize = 0;
    while first < score.tracks.len() && score.tracks[first].tempos.len() == 0
        invariant
            first <= score.tracks.len(),
            leading_tempos(score@.tracks, first as int) == leading_tempos(score@.tracks, 0),
        decreases score.tracks.len() - first,
    {
        proof {
            assert(score@.tracks[first as int].tempos.len() == 0);
        }
        first += 1;
    }
    let tempos: Vec<Tempo> = if first < score.tracks.len() {
        proof {
            assert(score@.tracks[first as int].tempos == score.tracks[first as int].tempos@);
        }
        copy_tempos(&score.tracks[first].tempos)
    } else {
        Vec::new()
    };
    proof {
        assert(tempos@ =~= leading_tempos(score@.tracks, 0));
    }
    let table = LengthTable::new();
    let candidates = gaps(&notes, options.min_gap);
    let silent = gaps(&notes, 1);
    let sigs = signatures(&score.tail);
    let mut chunks: Vec<ScrollChunk> = Vec::new();
    let mut pos: Tick = 0;
    proof {
        assert(spans_of(scroll_views(chunks@)) =~= Seq::<(int, int)>::empty());
    }
    while pos < total
        invariant
            0 <= pos <= total,
            0 < total < i64::MAX - 6,
            total == last_end(score@.notes()) + 1,
            tempos@ == leading_tempos(score@.tracks, 0),
            reference_fault(score@, *options) is None,
            score@.notes().len() > 0,
            table.well_formed(),
            candidates@ == gaps_of(score@.notes(), options.min_gap as int),
            forall|k: int|
                0 <= k < candidates.len() ==> (#[trigger] candidates[k]).0 >= 0
                    && candidates[k].1 > 0,
            silent@ == gaps_of(score@.notes(), 1),
            signature_views(sigs@) == signatures_of(score@.tail, score@.tail.len() as int),
            reference_spans(
                score@,
                tempos@,
                total as int,
                *options,
                spans_of(scroll_views(chunks@)),
                pos as int,
            ) == reference_plan(score@, *options),
            are_scrolls(
                score@,
                tempos@,
                options.limit as int,
                true,
                spans_of(scroll_views(chunks@)),
                scroll_views(chunks@),
            ),
            follows(spans_of(scroll_views(chunks@)), pos as int),
            forall|k: int| 0 <= k < chunks.len() ==> (#[trigger] chunks[k]).is_plain(),
            forall|k: int|
                0 <= k < chunks.len() ==> 0 <= (#[trigger] chunks[k]).start < chunks[k].end,
        decreases total - pos,
    {
        let ghost before = scroll_views(chunks@);
        let ghost spans = spans_of(before);
        let mut lo: Tick = pos + 1;
        let mut hi: Tick = total;
        let mut found: Option<Tick> = None;
        let ghost searched = reference_furthest(
            score@,
            tempos@,
            pos as int,
            options.limit as int,
            pos + 1,
            total as int,
            None,
        );
        while lo <= hi
            invariant
                0 <= pos < lo,
                pos <= hi <= total < i64::MAX - 6,
                lo <= total + 1,
                table.well_formed(),
                found matches Some(t) ==> pos < t <= total,
                searched is Err ==> reference_plan(score@, *options) == Err::<Seq<(int, int)>, _>(
                    searched->Err_0,
                ),
                reference_fault(score@, *options) is None,
                score@.notes().len() > 0,
                searched == reference_furthest(
                    score@,
                    tempos@,
                    pos as int,
                    options.limit as int,
                    lo as int,
                    hi as int,
                    match found {
                        Some(t) => Some(t as int),
                        None => None,
                    },
                ),
            decreases hi - lo + 1,
        {
            let mid: Tick = lo + (hi - lo) / 2;
            match fits(score, &tempos, pos, mid, true, options.limit, &table) {
                Err(error) => {
                    return Err(SplitError::Part { cause: error.cause });
                },
                Ok(fit) => {
                    if fit {
                        found = Some(mid);
                        lo = mid + 1;
                    } else {
                        hi = mid - 1;
                    }
                },
            }
        }
        let best = match found {
            None => {
                return Err(SplitError::EventOverLimit);
            },
            Some(best) => best,
        };
        let end = choose_reference_end(&candidates, total, options, pos, best, Ghost(score@));
        match make_scroll(score, &tempos, &sigs, &silent, pos, end, options.limit, true, &table) {
            Err(e) => {
                return Err(e);
            },
            Ok(chunk) => {
                let ghost list = chunks@;
                let ghost view = chunk@;
                chunks.push(chunk);
                proof {
                    assert(scroll_views(chunks@) =~= before.push(view));
                    assert(spans_of(scroll_views(chunks@)) =~= spans.push((pos as int, end as int)));
                    lemma_follows_push(spans, pos as int, end as int);
                    assert forall|k: int| 0 <= k < chunks.len() implies 0 <= (
                    #[trigger] chunks[k]).start < chunks[k].end by {
                        if k < list.len() {
                            assert(chunks[k] == list[k]);
                        } else {
                            assert(chunks[k]@ == view);
                        }
                    }
                }
                pos = end;
            },
        }
    }
    let report = make_report(&chunks, options.limit, total, true);
    Ok(SplitResult { chunks, report })
}

} // verus!
