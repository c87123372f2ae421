//! Where nothing sounds, and where nothing is cut too short.
use crate::cuts::{
    by_span, gaps_of, harms_divided, harms_notes, harms_part, harms_parts, harms_tracks, in_gap,
    is_barred, last_between, silences, sounding_until, span_key,
};
use crate::order::{key_less, lemma_stable_sort};
use crate::score::{by_onset, onset_key, ticks_ascend, Note, ScoreView, Tempo, Tick};
use vstd::prelude::*;

verus! {

/// Whether no note begins or sounds from a tick until another.
pub open spec fn is_quiet(notes: Seq<Note>, start: int, end: int) -> bool {
    forall|i: int|
        0 <= i < notes.len() ==> (#[trigger] notes[i]).on >= end || (notes[i].on < start
            && notes[i].off <= start)
}

/// Whether a note that lasts ends at a tick, or the score begins there.
pub open spec fn is_let_go(notes: Seq<Note>, tick: int) -> bool {
    tick == 0 || exists|i: int|
        0 <= i < notes.len() && (#[trigger] notes[i]).off == tick && notes[i].on < notes[i].off
}

/// Whether a note begins at a tick.
pub open spec fn is_struck(notes: Seq<Note>, tick: int) -> bool {
    exists|i: int| 0 <= i < notes.len() && (#[trigger] notes[i]).on == tick
}

/// Whether every note lasts and begins no earlier than the score.
pub open spec fn all_last(notes: Seq<Note>) -> bool {
    forall|i: int| 0 <= i < notes.len() ==> 0 <= (#[trigger] notes[i]).on < notes[i].off
}

pub(crate) proof fn lemma_until(notes: Seq<Note>, n: int)
    requires
        0 <= n <= notes.len(),
    ensures
        sounding_until(notes, n) >= 0,
        forall|i: int| 0 <= i < n ==> (#[trigger] notes[i]).off <= sounding_until(notes, n),
        sounding_until(notes, n) == 0 || exists|i: int|
            0 <= i < n && (#[trigger] notes[i]).off == sounding_until(notes, n),
    decreases n,
{
    if n > 0 {
        lemma_until(notes, n - 1);
        if sounding_until(notes, n - 1) < notes[n - 1].off {
            assert(notes[n - 1].off == sounding_until(notes, n));
        } else if sounding_until(notes, n) != 0 {
            let i = choose|i: int|
                0 <= i < n - 1 && (#[trigger] notes[i]).off == sounding_until(notes, n - 1);
            assert(notes[i].off == sounding_until(notes, n));
        }
    }
}

spec fn spans_ascend(notes: Seq<Note>) -> bool {
    forall|i: int, j: int|
        #![trigger notes[i], notes[j]]
        0 <= i <= j < notes.len() ==> notes[i].on <= notes[j].on
}

proof fn lemma_silence(notes: Seq<Note>, n: int, least: int, k: int)
    requires
        all_last(notes),
        spans_ascend(notes),
        0 <= n <= notes.len(),
        0 <= k < silences(notes, n, least).len(),
    ensures
        ({
            let gap = silences(notes, n, least)[k];
            &&& gap.1 >= least && gap.1 > 0
            &&& is_quiet(notes, gap.0 as int, gap.0 + gap.1)
            &&& is_let_go(notes, gap.0 as int)
            &&& is_struck(notes, gap.0 + gap.1)
        }),
    decreases n,
{
    if n > 0 {
        let before = silences(notes, n - 1, least);
        if k < before.len() {
            lemma_silence(notes, n - 1, least, k);
            assert(silences(notes, n, least)[k] == before[k]);
        } else {
            let end = sounding_until(notes, n - 1);
            let on = notes[n - 1].on;
            lemma_until(notes, n - 1);
            assert forall|i: int| 0 <= i < notes.len() implies (#[trigger] notes[i]).on >= on || (
            notes[i].on < end && notes[i].off <= end) by {
                if i >= n - 1 {
                    assert(notes[n - 1].on <= notes[i].on);
                }
            }
            if end != 0 {
                let i = choose|i: int| 0 <= i < n - 1 && (#[trigger] notes[i]).off == end;
                assert(notes[i].on < notes[i].off);
            }
        }
    }
}

proof fn lemma_listed(notes: Seq<Note>, n: int, least: int, start: int, end: int)
    requires
        all_last(notes),
        spans_ascend(notes),
        0 <= n <= notes.len(),
        0 <= start < end,
        end - start >= least,
        is_quiet(notes, start, end),
        is_let_go(notes, start),
        exists|i: int| 0 <= i < n && (#[trigger] notes[i]).on == end,
        end <= i64::MAX,
    ensures
        silences(notes, n, least).contains((start as Tick, (end - start) as Tick)),
    decreases n,
{
    let w = choose|i: int| 0 <= i < n && (#[trigger] notes[i]).on == end;
    let gap = (start as Tick, (end - start) as Tick);
    if exists|i: int| 0 <= i < n - 1 && (#[trigger] notes[i]).on == end {
        lemma_listed(notes, n - 1, least, start, end);
        let before = silences(notes, n - 1, least);
        let k = choose|k: int| 0 <= k < before.len() && before[k] == gap;
        assert(silences(notes, n, least)[k] == gap);
    } else {
        assert(w == n - 1);
        lemma_until(notes, n - 1);
        assert forall|i: int| 0 <= i < n - 1 implies (#[trigger] notes[i]).off <= start by {
            assert(notes[i].on <= notes[n - 1].on);
            assert(notes[i].on != end);
        }
        if start != 0 {
            let i = choose|i: int|
                0 <= i < notes.len() && (#[trigger] notes[i]).off == start && notes[i].on
                    < notes[i].off;
            if i >= n - 1 {
                assert(notes[n - 1].on <= notes[i].on);
            }
            assert(i < n - 1);
            assert(sounding_until(notes, n - 1) >= start);
        }
        if sounding_until(notes, n - 1) != start {
            let i = choose|i: int|
                0 <= i < n - 1 && (#[trigger] notes[i]).off == sounding_until(notes, n - 1);
            assert(notes[i].off <= start);
        }
        assert(silences(notes, n, least)[silences(notes, n, least).len() - 1] == gap);
    }
}

proof fn lemma_by_span(notes: Seq<Note>)
    requires
        all_last(notes),
    ensures
        all_last(by_span(notes)),
        spans_ascend(by_span(notes)),
        by_span(notes).len() == notes.len(),
        forall|s: int, e: int|
            #[trigger] is_quiet(by_span(notes), s, e) <==> is_quiet(notes, s, e),
        forall|t: int| #[trigger] is_let_go(by_span(notes), t) <==> is_let_go(notes, t),
        forall|t: int| #[trigger] is_struck(by_span(notes), t) <==> is_struck(notes, t),
{
    let key = |n: Note| span_key(n);
    lemma_stable_sort(notes, key);
    let sorted = by_span(notes);
    assert forall|i: int| 0 <= i < sorted.len() implies 0 <= (#[trigger] sorted[i]).on < sorted[i].off by {
        assert(notes.contains(sorted[i]));
    }
    assert forall|i: int, j: int|
        #![trigger sorted[i], sorted[j]]
        0 <= i <= j < sorted.len() implies sorted[i].on <= sorted[j].on by {
        assert(!key_less(key(sorted[j]), key(sorted[i])));
    }
    lemma_same_members(notes, sorted);
    lemma_same_members(sorted, notes);
}

proof fn lemma_same_members(a: Seq<Note>, b: Seq<Note>)
    requires
        forall|i: int| 0 <= i < b.len() ==> a.contains(#[trigger] b[i]),
    ensures
        forall|s: int, e: int| #[trigger] is_quiet(a, s, e) ==> is_quiet(b, s, e),
        forall|t: int| #[trigger] is_let_go(b, t) ==> is_let_go(a, t),
        forall|t: int| #[trigger] is_struck(b, t) ==> is_struck(a, t),
{
    assert forall|s: int, e: int| #[trigger] is_quiet(a, s, e) implies is_quiet(b, s, e) by {
        assert forall|i: int| 0 <= i < b.len() implies (#[trigger] b[i]).on >= e || (b[i].on < s
            && b[i].off <= s) by {
            let k = choose|k: int| 0 <= k < a.len() && a[k] == b[i];
            assert(a[k].on >= e || (a[k].on < s && a[k].off <= s));
        }
    }
    assert forall|t: int| #[trigger] is_let_go(b, t) implies is_let_go(a, t) by {
        if t != 0 {
            let i = choose|i: int|
                0 <= i < b.len() && (#[trigger] b[i]).off == t && b[i].on < b[i].off;
            let k = choose|k: int| 0 <= k < a.len() && a[k] == b[i];
            assert(a[k].off == t);
        }
    }
    assert forall|t: int| #[trigger] is_struck(b, t) implies is_struck(a, t) by {
        let i = choose|i: int| 0 <= i < b.len() && (#[trigger] b[i]).on == t;
        let k = choose|k: int| 0 <= k < a.len() && a[k] == b[i];
        assert(a[k].on == t);
    }
}

/// What is listed as a gap is long enough, and nothing sounds in it: it leads from where the
/// score begins or a note ends to where the next one begins.
pub proof fn law_gaps_are_quiet(notes: Seq<Note>, least: int, k: int)
    requires
        all_last(notes),
        0 <= k < gaps_of(notes, least).len(),
    ensures
        ({
            let gap = gaps_of(notes, least)[k];
            &&& gap.1 >= least && gap.1 > 0
            &&& is_quiet(notes, gap.0 as int, gap.0 + gap.1)
            &&& is_let_go(notes, gap.0 as int)
            &&& is_struck(notes, gap.0 + gap.1)
        }),
{
    lemma_by_span(notes);
    lemma_silence(by_span(notes), notes.len() as int, least, k);
}

/// Every stretch in which nothing sounds, from where a note ends to where the next one begins,
/// is listed as a gap where it is long enough.
pub proof fn law_quiet_is_listed(notes: Seq<Note>, least: int, start: int, end: int)
    requires
        all_last(notes),
        0 <= start < end,
        end - start >= least,
        is_quiet(notes, start, end),
        is_let_go(notes, start),
        is_struck(notes, end),
    ensures
        gaps_of(notes, least).contains((start as Tick, (end - start) as Tick)),
{
    lemma_by_span(notes);
    let sorted = by_span(notes);
    assert(is_struck(sorted, end));
    let i = choose|i: int| 0 <= i < sorted.len() && (#[trigger] sorted[i]).on == end;
    lemma_listed(sorted, notes.len() as int, least, start, end);
}

/// Whether a tempo comes in at a tick.
pub open spec fn is_tempo_tick(tempos: Seq<Tempo>, tick: int) -> bool {
    exists|i: int| 0 <= i < tempos.len() && (#[trigger] tempos[i]).0 == tick
}

/// Whether two ticks bound one of the pieces that tempos divide a stretch into.
pub open spec fn is_piece(start: int, end: int, tempos: Seq<Tempo>, p: int, q: int) -> bool {
    &&& start <= p < q <= end
    &&& p == start || is_tempo_tick(tempos, p)
    &&& q == end || is_tempo_tick(tempos, q)
    &&& forall|i: int| 0 <= i < tempos.len() ==> !(p < (#[trigger] tempos[i]).0 < q)
}

/// Whether a cut inside a piece leaves less of it than can be written: of what sounds on either
/// side, of a rest behind the cut.
pub open spec fn is_too_near(p: int, q: int, sounding: bool, t: int) -> bool {
    p < t < q && ((sounding && t - p < 6) || q - t < 6)
}

proof fn lemma_divided(
    previous: int,
    start: int,
    end: int,
    sounding: bool,
    tempos: Seq<Tempo>,
    i: int,
    t: int,
    p: int,
    q: int,
)
    requires
        ticks_ascend(tempos),
        0 <= i <= tempos.len(),
        start <= previous,
        previous == start || (start < previous < end && is_tempo_tick(tempos, previous)),
        forall|k: int| 0 <= k < i ==> (#[trigger] tempos[k]).0 <= previous || tempos[k].0 >= end,
        forall|k: int|
            i <= k < tempos.len() && start < (#[trigger] tempos[k]).0 < end ==> previous
                < tempos[k].0,
        is_piece(start, end, tempos, p, q),
        previous <= p,
        is_too_near(p, q, sounding, t),
    ensures
        harms_divided(previous, start, end, sounding, tempos, i, t),
    decreases tempos.len() - i,
{
    if i >= tempos.len() {
        if p != previous {
            let k = choose|k: int| 0 <= k < tempos.len() && (#[trigger] tempos[k]).0 == p;
            assert(tempos[k].0 <= previous || tempos[k].0 >= end);
        }
        if q != end {
            let k = choose|k: int| 0 <= k < tempos.len() && (#[trigger] tempos[k]).0 == q;
            assert(tempos[k].0 <= previous || tempos[k].0 >= end);
        }
    } else {
        let tick = tempos[i].0 as int;
        if start < tick < end {
            assert(previous < tick);
            if p < tick {
                if p != previous {
                    let k = choose|k: int| 0 <= k < tempos.len() && (#[trigger] tempos[k]).0 == p;
                    if k < i {
                        assert(tempos[k].0 <= previous || tempos[k].0 >= end);
                    } else if k > i {
                        assert(tempos[i].0 < tempos[k].0);
                    }
                }
                assert(!(p < tempos[i].0 < q));
                if q < tick {
                    let k = choose|k: int| 0 <= k < tempos.len() && (#[trigger] tempos[k]).0 == q;
                    if k < i {
                        assert(tempos[k].0 <= previous || tempos[k].0 >= end);
                    } else if k > i {
                        assert(tempos[i].0 < tempos[k].0);
                    }
                }
                assert(q == tick);
            } else {
                assert forall|k: int| 0 <= k < i + 1 implies (#[trigger] tempos[k]).0 <= tick
                    || tempos[k].0 >= end by {
                    if k < i {
                        assert(tempos[k].0 < tempos[i].0);
                    }
                }
                assert forall|k: int|
                    i + 1 <= k < tempos.len() && start < (#[trigger] tempos[k]).0 < end implies tick
                    < tempos[k].0 by {
                    assert(tempos[i].0 < tempos[k].0);
                }
                assert(is_tempo_tick(tempos, tick));
                lemma_divided(tick, start, end, sounding, tempos, i + 1, t, p, q);
            }
        } else {
            assert forall|k: int| 0 <= k < i + 1 implies (#[trigger] tempos[k]).0 <= previous
                || tempos[k].0 >= end by {}
            lemma_divided(previous, start, end, sounding, tempos, i + 1, t, p, q);
        }
    }
}

proof fn lemma_divided_cause(
    previous: int,
    start: int,
    end: int,
    sounding: bool,
    tempos: Seq<Tempo>,
    i: int,
    t: int,
) -> (piece: (int, int))
    requires
        ticks_ascend(tempos),
        0 <= i <= tempos.len(),
        start <= previous,
        previous == start || (start < previous < end && is_tempo_tick(tempos, previous)),
        forall|k: int| 0 <= k < i ==> (#[trigger] tempos[k]).0 <= previous || tempos[k].0 >= end,
        harms_divided(previous, start, end, sounding, tempos, i, t),
    ensures
        is_piece(start, end, tempos, piece.0, piece.1),
        is_too_near(piece.0, piece.1, sounding, t),
    decreases tempos.len() - i,
{
    if i >= tempos.len() {
        (previous, end)
    } else {
        let tick = tempos[i].0 as int;
        if start < tick < end {
            if crate::cuts::harms(previous, tick, sounding, t) {
                assert forall|k: int| 0 <= k < tempos.len() implies !(previous < (
                #[trigger] tempos[k]).0 < tick) by {
                    if k > i {
                        assert(tempos[i].0 < tempos[k].0);
                    }
                }
                assert(is_tempo_tick(tempos, tick));
                (previous, tick)
            } else {
                assert forall|k: int| 0 <= k < i + 1 implies (#[trigger] tempos[k]).0 <= tick
                    || tempos[k].0 >= end by {
                    if k < i {
                        assert(tempos[k].0 < tempos[i].0);
                    }
                }
                assert(is_tempo_tick(tempos, tick));
                lemma_divided_cause(tick, start, end, sounding, tempos, i + 1, t)
            }
        } else {
            lemma_divided_cause(previous, start, end, sounding, tempos, i + 1, t)
        }
    }
}

proof fn lemma_harms_notes(notes: Seq<Note>, n: int, tempos: Seq<Tempo>, t: int, k: int)
    requires
        0 <= k < n <= notes.len(),
        harms_divided(
            notes[k].on as int,
            notes[k].on as int,
            notes[k].off as int,
            true,
            tempos,
            0,
            t,
        ),
    ensures
        harms_notes(notes, n, tempos, t),
    decreases n,
{
    if k < n - 1 {
        lemma_harms_notes(notes, n - 1, tempos, t, k);
    }
}

proof fn lemma_harms_parts(parts: Seq<Seq<Note>>, n: int, tempos: Seq<Tempo>, total: int, t: int, k: int)
    requires
        0 <= k < n <= parts.len(),
        harms_part(
            parts[k],
            if k == 0 {
                tempos
            } else {
                Seq::empty()
            },
            total,
            t,
        ),
    ensures
        harms_parts(parts, n, tempos, total, t),
    decreases n,
{
    if k < n - 1 {
        lemma_harms_parts(parts, n - 1, tempos, total, t, k);
    }
}

proof fn lemma_harms_tracks(score: ScoreView, n: int, tempos: Seq<Tempo>, total: int, t: int, k: int)
    requires
        0 <= k < n <= score.tracks.len(),
        harms_parts(
            score.tracks[k].parts,
            score.tracks[k].parts.len() as int,
            tempos,
            total,
            t,
        ),
    ensures
        harms_tracks(score, n, tempos, total, t),
    decreases n,
{
    if k < n - 1 {
        lemma_harms_tracks(score, n - 1, tempos, total, t, k);
    }
}

/// The tempos that are written in a part: in the first of a track all, and none in the others.
pub open spec fn tempos_in(part: int, tempos: Seq<Tempo>) -> Seq<Tempo> {
    if part == 0 {
        tempos
    } else {
        Seq::empty()
    }
}

/// Where a score may be cut, a note that sounds there, or the piece of it between two tempos,
/// keeps the shortest length that can be written on both sides of the cut.
pub proof fn law_cut_leaves_notes(
    score: ScoreView,
    tempos: Seq<Tempo>,
    total: int,
    t: int,
    track: int,
    part: int,
    k: int,
    p: int,
    q: int,
)
    requires
        ticks_ascend(tempos),
        0 <= track < score.tracks.len(),
        0 <= part < score.tracks[track].parts.len(),
        0 <= k < score.tracks[track].parts[part].len(),
        is_piece(
            score.tracks[track].parts[part][k].on as int,
            score.tracks[track].parts[part][k].off as int,
            tempos_in(part, tempos),
            p,
            q,
        ),
        !is_barred(score, tempos, total, t),
    ensures
        p < t < q ==> t - p >= 6 && q - t >= 6,
{
    if is_too_near(p, q, true, t) {
        let notes = score.tracks[track].parts[part];
        let note = notes[k];
        let inner = tempos_in(part, tempos);
        lemma_divided(note.on as int, note.on as int, note.off as int, true, inner, 0, t, p, q);
        lemma_stable_sort(notes, |n: Note| onset_key(n));
        let sorted = by_onset(notes);
        assert(sorted.contains(notes[k]));
        let m = choose|m: int| 0 <= m < sorted.len() && sorted[m] == note;
        lemma_harms_notes(sorted, sorted.len() as int, inner, t, m);
        let parts = score.tracks[track].parts;
        lemma_harms_parts(parts, parts.len() as int, tempos, total, t, part);
        lemma_harms_tracks(score, score.tracks.len() as int, tempos, total, t, track);
    }
}

/// A stretch of a part: one of its notes, or one of its rests up to the next note.
pub open spec fn is_stretch(notes: Seq<Note>, start: int, end: int, sounding: bool, k: int) -> bool {
    let sorted = by_onset(notes);
    &&& 0 <= k < sorted.len()
    &&& if sounding {
        start == sorted[k].on && end == sorted[k].off
    } else {
        end == sorted[k].on && start == (if k == 0 {
            0
        } else {
            sorted[k - 1].off as int
        })
    }
}

/// Whether a cut comes too near to an end of a piece of a stretch of a part.
pub open spec fn cuts_short(
    notes: Seq<Note>,
    tempos: Seq<Tempo>,
    sounding: bool,
    t: int,
    at: (int, int, int, int, int),
) -> bool {
    let (start, end, k, p, q) = at;
    &&& is_stretch(notes, start, end, sounding, k)
    &&& is_piece(start, end, tempos, p, q)
    &&& is_too_near(p, q, sounding, t)
}

/// Whether a cut comes too near to a tempo that follows the last note of a part, within the score.
pub open spec fn tears_tempo(notes: Seq<Note>, tempos: Seq<Tempo>, total: int, t: int, p: int, q: int) -> bool {
    let sorted = by_onset(notes);
    let end = if sorted.len() == 0 {
        0
    } else {
        sorted[sorted.len() - 1].off as int
    };
    &&& end <= p < q < total
    &&& is_tempo_tick(tempos, q)
    &&& p < t < q && q - t < 6
}

proof fn lemma_notes_cause(notes: Seq<Note>, n: int, tempos: Seq<Tempo>, t: int) -> (r: (
    bool,
    (int, int, int, int, int),
))
    requires
        ticks_ascend(tempos),
        0 <= n <= by_onset(notes).len(),
        harms_notes(by_onset(notes), n, tempos, t),
    ensures
        cuts_short(notes, tempos, r.0, t, r.1),
    decreases n,
{
    let sorted = by_onset(notes);
    let note = sorted[n - 1];
    let previous = if n == 1 {
        0
    } else {
        sorted[n - 2].off as int
    };
    if harms_notes(sorted, n - 1, tempos, t) {
        lemma_notes_cause(notes, n - 1, tempos, t)
    } else if harms_divided(previous, previous, note.on as int, false, tempos, 0, t) {
        let (p, q) = lemma_divided_cause(previous, previous, note.on as int, false, tempos, 0, t);
        (false, (previous, note.on as int, n - 1, p, q))
    } else {
        let (p, q) = lemma_divided_cause(
            note.on as int,
            note.on as int,
            note.off as int,
            true,
            tempos,
            0,
            t,
        );
        (true, (note.on as int, note.off as int, n - 1, p, q))
    }
}

/// Whether there is something in a part that a cut would leave too short.
pub open spec fn part_suffers(notes: Seq<Note>, tempos: Seq<Tempo>, total: int, t: int) -> bool {
    ||| exists|sounding: bool, at: (int, int, int, int, int)| #[trigger]
        cuts_short(notes, tempos, sounding, t, at)
    ||| exists|p: int, q: int| #[trigger] tears_tempo(notes, tempos, total, t, p, q)
}

proof fn lemma_part_cause(notes: Seq<Note>, tempos: Seq<Tempo>, total: int, t: int)
    requires
        ticks_ascend(tempos),
        harms_part(notes, tempos, total, t),
    ensures
        part_suffers(notes, tempos, total, t),
{
    let sorted = by_onset(notes);
    let n = sorted.len() as int;
    let end = if n == 0 {
        0
    } else {
        sorted[n - 1].off as int
    };
    if harms_notes(sorted, n, tempos, t) {
        let (sounding, at) = lemma_notes_cause(notes, n, tempos, t);
    } else {
        let last = last_between(tempos, tempos.len() as int, end, total)->Some_0;
        lemma_last_between(tempos, tempos.len() as int, end, total);
        let (p, q) = lemma_divided_cause(end, end, last, false, tempos, 0, t);
        assert(tears_tempo(notes, tempos, total, t, p, q));
    }
}

proof fn lemma_last_between(tempos: Seq<Tempo>, n: int, after: int, before: int)
    requires
        0 <= n <= tempos.len(),
        last_between(tempos, n, after, before) is Some,
    ensures
        after < last_between(tempos, n, after, before)->Some_0 < before,
        is_tempo_tick(tempos, last_between(tempos, n, after, before)->Some_0),
    decreases n,
{
    if n > 0 {
        if after < tempos[n - 1].0 < before {
            assert(tempos[n - 1].0 == last_between(tempos, n, after, before)->Some_0);
        } else {
            lemma_last_between(tempos, n - 1, after, before);
        }
    }
}

/// Whether there is something in a part of a score that a cut would leave too short.
pub open spec fn suffers(score: ScoreView, tempos: Seq<Tempo>, total: int, t: int, track: int, part: int) -> bool {
    &&& 0 <= track < score.tracks.len()
    &&& 0 <= part < score.tracks[track].parts.len()
    &&& part_suffers(score.tracks[track].parts[part], tempos_in(part, tempos), total, t)
}

proof fn lemma_parts_cause(score: ScoreView, track: int, n: int, tempos: Seq<Tempo>, total: int, t: int) -> (part: int)
    requires
        ticks_ascend(tempos),
        0 <= track < score.tracks.len(),
        0 <= n <= score.tracks[track].parts.len(),
        harms_parts(score.tracks[track].parts, n, tempos, total, t),
    ensures
        suffers(score, tempos, total, t, track, part),
    decreases n,
{
    let parts = score.tracks[track].parts;
    if harms_parts(parts, n - 1, tempos, total, t) {
        lemma_parts_cause(score, track, n - 1, tempos, total, t)
    } else {
        lemma_part_cause(parts[n - 1], tempos_in(n - 1, tempos), total, t);
        n - 1
    }
}

proof fn lemma_tracks_cause(score: ScoreView, n: int, tempos: Seq<Tempo>, total: int, t: int) -> (at: (int, int))
    requires
        ticks_ascend(tempos),
        0 <= n <= score.tracks.len(),
        harms_tracks(score, n, tempos, total, t),
    ensures
        suffers(score, tempos, total, t, at.0, at.1),
    decreases n,
{
    if harms_tracks(score, n - 1, tempos, total, t) {
        lemma_tracks_cause(score, n - 1, tempos, total, t)
    } else {
        let parts = score.tracks[n - 1].parts;
        (n - 1, lemma_parts_cause(score, n - 1, parts.len() as int, tempos, total, t))
    }
}

/// A score is barred from being cut at a tick only for a reason: the tick lies in a silence behind
/// its begin, or there is a part of which something would be too short to write.
pub proof fn law_barred_for_a_reason(score: ScoreView, tempos: Seq<Tempo>, total: int, t: int)
    requires
        ticks_ascend(tempos),
        is_barred(score, tempos, total, t),
    ensures
        in_gap(gaps_of(score.notes(), 1), t) || exists|track: int, part: int| #[trigger]
            suffers(score, tempos, total, t, track, part),
{
    if !in_gap(gaps_of(score.notes(), 1), t) {
        let (track, part) = lemma_tracks_cause(score, score.tracks.len() as int, tempos, total, t);
    }
}

/// A score is never cut inside a silence: what is silent before a note stays with it, but for the
/// tick at which the silence begins.
pub proof fn law_cut_keeps_silence(score: ScoreView, tempos: Seq<Tempo>, total: int, t: int, start: int, end: int)
    requires
        all_last(score.notes()),
        0 <= start < t <= end,
        is_quiet(score.notes(), start, end),
        is_let_go(score.notes(), start),
        is_struck(score.notes(), end),
    ensures
        is_barred(score, tempos, total, t),
{
    let notes = score.notes();
    law_quiet_is_listed(notes, 1, start, end);
    let gap = (start as Tick, (end - start) as Tick);
    let gaps = gaps_of(notes, 1);
    let i = choose|i: int| 0 <= i < gaps.len() && gaps[i] == gap;
    let w = choose|i: int| 0 <= i < notes.len() && (#[trigger] notes[i]).on == end;
    assert(gaps[i].0 < t <= gaps[i].0 + gaps[i].1);
}

} // verus!
