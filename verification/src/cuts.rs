//! The ticks at which a score can be cut without leaving anything too short to write.
use crate::order::{lemma_order_sorts, lemma_stable_sort, order, sorted_by, stable_sort, Key};
use crate::score::{by_onset, part_views, sort_notes, Note, Score, ScoreView, Tempo, Tick};
use vstd::prelude::*;

verus! {

/// The key by which notes are put in the order of their begin and then of their end.
pub open spec fn span_key(note: Note) -> Key {
    (note.on, note.off, 0)
}

/// The notes in the order of their begin and then of their end.
pub open spec fn by_span(notes: Seq<Note>) -> Seq<Note> {
    stable_sort(notes, |n: Note| span_key(n))
}

/// The tick up to which the first notes sound.
pub open spec fn sounding_until(notes: Seq<Note>, n: int) -> int
    decreases n,
{
    if n <= 0 {
        0
    } else if sounding_until(notes, n - 1) < notes[n - 1].off {
        notes[n - 1].off as int
    } else {
        sounding_until(notes, n - 1)
    }
}

/// The begins and lengths of the silences, of some length at least, before the first notes.
pub open spec fn silences(notes: Seq<Note>, n: int, least: int) -> Seq<(Tick, Tick)>
    decreases n,
{
    if n <= 0 {
        Seq::empty()
    } else {
        let before = silences(notes, n - 1, least);
        let end = sounding_until(notes, n - 1);
        let on = notes[n - 1].on;
        if on > end && on - end >= least {
            before.push((end as Tick, (on - end) as Tick))
        } else {
            before
        }
    }
}

/// The begins and lengths of the silences of some length at least between notes.
pub open spec fn gaps_of(notes: Seq<Note>, least: int) -> Seq<(Tick, Tick)> {
    silences(by_span(notes), notes.len() as int, least)
}

fn sort_by_span(notes: &[Note]) -> (sorted: Vec<Note>)
    ensures
        sorted@ == by_span(notes@),
        sorted.len() == notes.len(),
{
    let mut keys: Vec<Key> = Vec::new();
    let mut i: usize = 0;
    while i < notes.len()
        invariant
            i <= notes.len(),
            keys.len() == i,
            forall|k: int| 0 <= k < i ==> #[trigger] keys[k] == span_key(notes[k]),
        decreases notes.len() - i,
    {
        keys.push((notes[i].on, notes[i].off, 0));
        i += 1;
    }
    let sequence = order(&keys);
    let mut sorted: Vec<Note> = Vec::new();
    let mut i: usize = 0;
    let ghost f = |i: usize| notes@[i as int];
    while i < sequence.len()
        invariant
            i <= sequence.len() == notes.len(),
            f == (|i: usize| notes@[i as int]),
            forall|k: int| 0 <= k < sequence.len() ==> (#[trigger] sequence[k]) < notes.len(),
            sorted@ == sequence@.take(i as int).map_values(f),
        decreases sequence.len() - i,
    {
        sorted.push(notes[sequence[i]]);
        i += 1;
        proof {
            assert(sorted@ =~= sequence@.take(i as int).map_values(f));
        }
    }
    proof {
        assert(sequence@.take(i as int) =~= sequence@);
        lemma_order_sorts(notes@, keys@, |n: Note| span_key(n));
    }
    sorted
}

/// Finds the silences of some length at least between notes.
pub fn gaps(notes: &[Note], least: Tick) -> (r: Vec<(Tick, Tick)>)
    ensures
        r@ == gaps_of(notes@, least as int),
        forall|i: int| 0 <= i < r.len() ==> (#[trigger] r[i]).0 >= 0 && r[i].1 > 0 && r[i].0
            + r[i].1 <= i64::MAX,
{
    let sorted = sort_by_span(notes);
    let mut end: Tick = 0;
    let mut r: Vec<(Tick, Tick)> = Vec::new();
    let mut i: usize = 0;
    while i < sorted.len()
        invariant
            i <= sorted.len(),
            end == sounding_until(sorted@, i as int),
            0 <= end,
            r@ == silences(sorted@, i as int, least as int),
            forall|k: int|
                0 <= k < r.len() ==> (#[trigger] r[k]).0 >= 0 && r[k].1 > 0 && r[k].0 + r[k].1
                    <= i64::MAX,
        decreases sorted.len() - i,
    {
        let note = sorted[i];
        if note.on > end && note.on - end >= least {
            r.push((end, note.on - end));
        }
        if end < note.off {
            end = note.off;
        }
        i += 1;
    }
    r
}

/// Whether cutting at a tick would leave a piece of a stretch that is too short to write: a
/// note must keep the shortest length on both sides, a rest on the side behind the cut.
pub open spec fn harms(start: int, end: int, sounding: bool, t: int) -> bool {
    start < t < end && ((sounding && t < start + 6) || end - 6 < t)
}

/// Whether cutting at a tick harms a stretch, from a tick inside it on, that tempos divide.
pub open spec fn harms_divided(
    previous: int,
    start: int,
    end: int,
    sounding: bool,
    tempos: Seq<Tempo>,
    i: int,
    t: int,
) -> bool
    decreases tempos.len() - i,
{
    if i < 0 || i >= tempos.len() {
        harms(previous, end, sounding, t)
    } else {
        let tick = tempos[i].0 as int;
        if start < tick < end {
            harms(previous, tick, sounding, t) || harms_divided(
                tick,
                start,
                end,
                sounding,
                tempos,
                i + 1,
                t,
            )
        } else {
            harms_divided(previous, start, end, sounding, tempos, i + 1, t)
        }
    }
}

/// Whether cutting at a tick harms one of the first notes of a part or a rest before it.
pub open spec fn harms_notes(notes: Seq<Note>, n: int, tempos: Seq<Tempo>, t: int) -> bool
    decreases n,
{
    if n <= 0 {
        false
    } else {
        let note = notes[n - 1];
        let previous = if n == 1 {
            0
        } else {
            notes[n - 2].off as int
        };
        ||| harms_notes(notes, n - 1, tempos, t)
        ||| harms_divided(previous, previous, note.on as int, false, tempos, 0, t)
        ||| harms_divided(note.on as int, note.on as int, note.off as int, true, tempos, 0, t)
    }
}

/// The last of the first tempos that lies strictly between two ticks.
pub open spec fn last_between(tempos: Seq<Tempo>, n: int, after: int, before: int) -> Option<int>
    decreases n,
{
    if n <= 0 {
        None
    } else if after < tempos[n - 1].0 < before {
        Some(tempos[n - 1].0 as int)
    } else {
        last_between(tempos, n - 1, after, before)
    }
}

/// Whether cutting at a tick harms a part: its notes, its rests, or the rest that leads to the
/// last tempo behind its notes.
pub open spec fn harms_part(notes: Seq<Note>, tempos: Seq<Tempo>, total: int, t: int) -> bool {
    let sorted = by_onset(notes);
    let n = sorted.len() as int;
    let end = if n == 0 {
        0
    } else {
        sorted[n - 1].off as int
    };
    harms_notes(sorted, n, tempos, t) || (last_between(tempos, tempos.len() as int, end, total)
        matches Some(last) && harms_divided(end, end, last, false, tempos, 0, t))
}

/// Whether cutting at a tick harms one of the first parts of a track.
pub open spec fn harms_parts(
    parts: Seq<Seq<Note>>,
    n: int,
    tempos: Seq<Tempo>,
    total: int,
    t: int,
) -> bool
    decreases n,
{
    if n <= 0 {
        false
    } else {
        harms_parts(parts, n - 1, tempos, total, t) || harms_part(
            parts[n - 1],
            if n == 1 {
                tempos
            } else {
                Seq::empty()
            },
            total,
            t,
        )
    }
}

/// Whether cutting at a tick harms one of the first tracks.
pub open spec fn harms_tracks(
    score: ScoreView,
    n: int,
    tempos: Seq<Tempo>,
    total: int,
    t: int,
) -> bool
    decreases n,
{
    if n <= 0 {
        false
    } else {
        let parts = score.tracks[n - 1].parts;
        harms_tracks(score, n - 1, tempos, total, t) || harms_parts(
            parts,
            parts.len() as int,
            tempos,
            total,
            t,
        )
    }
}

/// Whether a tick lies behind the begin of a silence, up to its end.
pub open spec fn in_gap(gaps: Seq<(Tick, Tick)>, t: int) -> bool {
    exists|i: int| 0 <= i < gaps.len() && (#[trigger] gaps[i]).0 < t <= gaps[i].0 + gaps[i].1
}

/// Whether a score cannot be cut at a tick: there something would be too short to write, or a
/// silence would be torn from the notes behind it.
pub open spec fn is_barred(score: ScoreView, tempos: Seq<Tempo>, total: int, t: int) -> bool {
    in_gap(gaps_of(score.notes(), 1), t) || harms_tracks(
        score,
        score.tracks.len() as int,
        tempos,
        total,
        t,
    )
}

/// Whether a score can be cut at a tick; its end always counts.
pub open spec fn is_legal(barred: spec_fn(int) -> bool, total: int, t: int) -> bool {
    t == total || !barred(t)
}

/// The ticks up to some tick at which a score can be cut, in ascending order.
pub open spec fn legal_ticks(barred: spec_fn(int) -> bool, total: int, n: int) -> Seq<int>
    decreases n,
{
    if n <= 0 {
        Seq::empty()
    } else if is_legal(barred, total, n) {
        legal_ticks(barred, total, n - 1).push(n)
    } else {
        legal_ticks(barred, total, n - 1)
    }
}

/// Whether one of some closed ranges holds a tick.
pub open spec fn covers(ranges: Seq<(Tick, Tick)>, t: int) -> bool {
    exists|i: int| 0 <= i < ranges.len() && (#[trigger] ranges[i]).0 <= t <= ranges[i].1
}

proof fn lemma_covers_push(ranges: Seq<(Tick, Tick)>, r: (Tick, Tick), t: int)
    ensures
        covers(ranges.push(r), t) <==> covers(ranges, t) || r.0 <= t <= r.1,
{
    let new = ranges.push(r);
    if covers(ranges, t) {
        let i = choose|i: int|
            0 <= i < ranges.len() && (#[trigger] ranges[i]).0 <= t <= ranges[i].1;
        assert(new[i].0 <= t <= new[i].1);
    }
    if r.0 <= t <= r.1 {
        assert(new[ranges.len() as int].0 <= t <= new[ranges.len() as int].1);
    }
    if covers(new, t) {
        let i = choose|i: int| 0 <= i < new.len() && (#[trigger] new[i]).0 <= t <= new[i].1;
        if i < ranges.len() {
            assert(ranges[i].0 <= t <= ranges[i].1);
        }
    }
}

/// Bars the ticks at which a cut would leave a piece of a stretch too short.
fn bar_stretch(out: &mut Vec<(Tick, Tick)>, start: Tick, end: Tick, sounding: bool)
    requires
        0 <= start < i64::MAX - 6,
        0 <= end < i64::MAX - 6,
    ensures
        forall|t: int| #[trigger]
            covers(final(out)@, t) <==> covers(old(out)@, t) || harms(
                start as int,
                end as int,
                sounding,
                t,
            ),
{
    let ghost before = out@;
    if sounding {
        let last: Tick = if start + 5 < end - 1 {
            start + 5
        } else {
            end - 1
        };
        out.push((start + 1, last));
    }
    let ghost middle = out@;
    let first: Tick = if end - 5 > start + 1 {
        end - 5
    } else {
        start + 1
    };
    out.push((first, end - 1));
    proof {
        let last = if start + 5 < end - 1 {
            start + 5
        } else {
            end - 1
        };
        assert forall|t: int| #[trigger]
            covers(out@, t) <==> covers(before, t) || harms(
                start as int,
                end as int,
                sounding,
                t,
            ) by {
            if sounding {
                lemma_covers_push(before, ((start + 1) as Tick, last as Tick), t);
            }
            lemma_covers_push(middle, (first, (end - 1) as Tick), t);
        }
    }
}

/// Bars the ticks at which a cut would harm a stretch that tempos divide.
fn bar_divided(
    out: &mut Vec<(Tick, Tick)>,
    start: Tick,
    end: Tick,
    sounding: bool,
    tempos: &[Tempo],
)
    requires
        0 <= start < i64::MAX - 6,
        0 <= end < i64::MAX - 6,
    ensures
        forall|t: int| #[trigger]
            covers(final(out)@, t) <==> covers(old(out)@, t) || harms_divided(
                start as int,
                start as int,
                end as int,
                sounding,
                tempos@,
                0,
                t,
            ),
{
    let ghost before = out@;
    let ghost whole = |t: int|
        covers(before, t) || harms_divided(
            start as int,
            start as int,
            end as int,
            sounding,
            tempos@,
            0,
            t,
        );
    let mut previous: Tick = start;
    let mut i: usize = 0;
    while i < tempos.len()
        invariant
            i <= tempos.len(),
            0 <= start < i64::MAX - 6,
            0 <= end < i64::MAX - 6,
            0 <= previous < i64::MAX - 6,
            forall|t: int|
                #![trigger covers(out@, t)]
                #![trigger whole(t)]
                whole(t) == (covers(out@, t) || harms_divided(
                    previous as int,
                    start as int,
                    end as int,
                    sounding,
                    tempos@,
                    i as int,
                    t,
                )),
        decreases tempos.len() - i,
    {
        let tick: Tick = tempos[i].0;
        let ghost now = out@;
        let ghost left = previous;
        if start < tick && tick < end {
            bar_stretch(out, previous, tick, sounding);
            previous = tick;
        }
        proof {
            assert forall|t: int|
                #![trigger covers(out@, t)]
                #![trigger whole(t)]
                whole(t) == (covers(out@, t) || harms_divided(
                    previous as int,
                    start as int,
                    end as int,
                    sounding,
                    tempos@,
                    i + 1,
                    t,
                )) by {
                assert(whole(t) == (covers(now, t) || harms_divided(
                    left as int,
                    start as int,
                    end as int,
                    sounding,
                    tempos@,
                    i as int,
                    t,
                )));
            }
        }
        i += 1;
    }
    let ghost now = out@;
    bar_stretch(out, previous, end, sounding);
    proof {
        assert forall|t: int| #[trigger] covers(out@, t) <==> whole(t) by {
            assert(whole(t) == (covers(now, t) || harms_divided(
                previous as int,
                start as int,
                end as int,
                sounding,
                tempos@,
                i as int,
                t,
            )));
        }
    }
}

/// Whether the notes of a part keep clear of the end of the machine's range.
pub open spec fn in_range(notes: Seq<Note>) -> bool {
    forall|i: int|
        0 <= i < notes.len() ==> 0 <= (#[trigger] notes[i]).on < notes[i].off < i64::MAX - 6
}

/// Bars the ticks at which a cut would harm a part.
fn bar_part(out: &mut Vec<(Tick, Tick)>, notes: &Vec<Note>, tempos: &[Tempo], total: Tick)
    requires
        in_range(notes@),
        total < i64::MAX - 6,
    ensures
        forall|t: int| #[trigger]
            covers(final(out)@, t) <==> covers(old(out)@, t) || harms_part(
                notes@,
                tempos@,
                total as int,
                t,
            ),
{
    let sorted = sort_notes(notes);
    proof {
        lemma_stable_sort(notes@, |n: Note| crate::score::onset_key(n));
        assert forall|i: int| 0 <= i < sorted.len() implies 0 <= (#[trigger] sorted[i]).on
            < sorted[i].off < i64::MAX - 6 by {
            assert(notes@.contains(sorted@[i]));
        }
    }
    let ghost before = out@;
    let mut previous: Tick = 0;
    let mut i: usize = 0;
    while i < sorted.len()
        invariant
            i <= sorted.len(),
            in_range(sorted@),
            0 <= previous < i64::MAX - 6,
            previous == (if i == 0 {
                0
            } else {
                sorted[i - 1].off
            }),
            forall|t: int| #[trigger]
                covers(out@, t) <==> covers(before, t) || harms_notes(
                    sorted@,
                    i as int,
                    tempos@,
                    t,
                ),
        decreases sorted.len() - i,
    {
        let note = sorted[i];
        let ghost first = out@;
        bar_divided(out, previous, note.on, false, tempos);
        let ghost second = out@;
        bar_divided(out, note.on, note.off, true, tempos);
        proof {
            assert forall|t: int| #[trigger]
                covers(out@, t) <==> covers(before, t) || harms_notes(
                    sorted@,
                    i + 1,
                    tempos@,
                    t,
                ) by {
                assert(covers(first, t) || !covers(first, t));
                assert(covers(second, t) || !covers(second, t));
            }
        }
        previous = note.off;
        i += 1;
    }
    let ghost middle = out@;
    let mut k: usize = tempos.len();
    while k > 0 && !(previous < tempos[k - 1].0 && tempos[k - 1].0 < total)
        invariant
            k <= tempos.len(),
            last_between(tempos@, k as int, previous as int, total as int) == last_between(
                tempos@,
                tempos.len() as int,
                previous as int,
                total as int,
            ),
        decreases k,
    {
        k -= 1;
    }
    if k > 0 {
        bar_divided(out, previous, tempos[k - 1].0, false, tempos);
    }
    proof {
        assert forall|t: int| #[trigger]
            covers(out@, t) <==> covers(before, t) || harms_part(
                notes@,
                tempos@,
                total as int,
                t,
            ) by {
            assert(covers(middle, t) || !covers(middle, t));
        }
    }
}

/// Whether the notes of every part keep clear of the end of the machine's range.
pub open spec fn all_in_range(score: ScoreView) -> bool {
    forall|ti: int, pi: int|
        0 <= ti < score.tracks.len() && 0 <= pi < score.tracks[ti].parts.len() ==> in_range(
            #[trigger] score.tracks[ti].parts[pi],
        )
}

/// The ranges of ticks at which a score cannot be cut.
fn barred_ranges(score: &Score, tempos: &[Tempo], total: Tick) -> (r: Vec<(Tick, Tick)>)
    requires
        all_in_range(score@),
        total < i64::MAX - 6,
    ensures
        forall|t: int| #[trigger]
            covers(r@, t) <==> is_barred(score@, tempos@, total as int, t),
{
    let mut out: Vec<(Tick, Tick)> = Vec::new();
    let notes = score.all_notes();
    let silent = gaps(&notes, 1);
    let mut i: usize = 0;
    proof {
        assert forall|t: int| #[trigger]
            covers(out@, t) <==> in_gap(silent@.take(0), t) by {}
    }
    while i < silent.len()
        invariant
            i <= silent.len(),
            forall|k: int|
                0 <= k < silent.len() ==> (#[trigger] silent[k]).0 >= 0 && silent[k].1 > 0
                    && silent[k].0 + silent[k].1 <= i64::MAX,
            forall|t: int| #[trigger] covers(out@, t) <==> in_gap(silent@.take(i as int), t),
        decreases silent.len() - i,
    {
        let (start, length) = silent[i];
        let ghost before = out@;
        out.push((start + 1, start + length));
        proof {
            let r = ((start + 1) as Tick, (start + length) as Tick);
            assert forall|t: int| #[trigger]
                covers(out@, t) <==> in_gap(silent@.take(i + 1), t) by {
                lemma_covers_push(before, r, t);
                let old_part = silent@.take(i as int);
                let new_part = silent@.take(i + 1);
                assert(covers(before, t) <==> in_gap(old_part, t));
                if in_gap(old_part, t) {
                    let k = choose|k: int|
                        0 <= k < old_part.len() && (#[trigger] old_part[k]).0 < t <= old_part[k].0
                            + old_part[k].1;
                    assert(new_part[k].0 < t <= new_part[k].0 + new_part[k].1);
                }
                if r.0 <= t <= r.1 {
                    assert(new_part[i as int].0 < t <= new_part[i as int].0
                        + new_part[i as int].1);
                }
                if in_gap(new_part, t) {
                    let k = choose|k: int|
                        0 <= k < new_part.len() && (#[trigger] new_part[k]).0 < t <= new_part[k].0
                            + new_part[k].1;
                    if k < i {
                        assert(old_part[k].0 < t <= old_part[k].0 + old_part[k].1);
                    }
                }
            }
        }
        i += 1;
    }
    let ghost base = out@;
    proof {
        assert(silent@.take(i as int) =~= silent@);
    }
    let none: Vec<Tempo> = Vec::new();
    let mut ti: usize = 0;
    while ti < score.tracks.len()
        invariant
            ti <= score.tracks.len(),
            all_in_range(score@),
            total < i64::MAX - 6,
            none@ == Seq::<Tempo>::empty(),
            forall|t: int| #[trigger]
                covers(out@, t) <==> covers(base, t) || harms_tracks(
                    score@,
                    ti as int,
                    tempos@,
                    total as int,
                    t,
                ),
        decreases score.tracks.len() - ti,
    {
        let parts = &score.tracks[ti].parts;
        let ghost lists = part_views(parts@);
        let ghost first = out@;
        let mut pi: usize = 0;
        while pi < parts.len()
            invariant
                ti < score.tracks.len(),
                parts == &score.tracks[ti as int].parts,
                lists == part_views(parts@),
                pi <= parts.len(),
                all_in_range(score@),
                total < i64::MAX - 6,
                none@ == Seq::<Tempo>::empty(),
                forall|t: int| #[trigger]
                    covers(out@, t) <==> covers(first, t) || harms_parts(
                        lists,
                        pi as int,
                        tempos@,
                        total as int,
                        t,
                    ),
            decreases parts.len() - pi,
        {
            let ghost now = out@;
            proof {
                assert(score@.tracks[ti as int].parts[pi as int] == parts[pi as int]@);
                assert(in_range(parts[pi as int]@));
            }
            if pi == 0 {
                bar_part(&mut out, &parts[pi], tempos, total);
            } else {
                bar_part(&mut out, &parts[pi], &none, total);
            }
            proof {
                assert forall|t: int| #[trigger]
                    covers(out@, t) <==> covers(first, t) || harms_parts(
                        lists,
                        pi + 1,
                        tempos@,
                        total as int,
                        t,
                    ) by {
                    assert(covers(now, t) || !covers(now, t));
                }
            }
            pi += 1;
        }
        proof {
            assert forall|t: int| #[trigger]
                covers(out@, t) <==> covers(base, t) || harms_tracks(
                    score@,
                    ti + 1,
                    tempos@,
                    total as int,
                    t,
                ) by {
                assert(covers(first, t) || !covers(first, t));
                assert(score@.tracks[ti as int].parts == lists);
            }
        }
        ti += 1;
    }
    proof {
        assert forall|t: int| #[trigger]
            covers(out@, t) <==> is_barred(score@, tempos@, total as int, t) by {
            assert(covers(base, t) || !covers(base, t));
        }
    }
    out
}

proof fn lemma_legal_prefix(barred: spec_fn(int) -> bool, total: int, m: int, n: int)
    requires
        0 <= m <= n,
    ensures
        legal_ticks(barred, total, m).len() <= legal_ticks(barred, total, n).len(),
        forall|k: int|
            0 <= k < legal_ticks(barred, total, m).len() ==> #[trigger] legal_ticks(
                barred,
                total,
                n,
            )[k] == legal_ticks(barred, total, m)[k],
    decreases n - m,
{
    if m < n {
        lemma_legal_prefix(barred, total, m, n - 1);
    }
}

/// The legal ticks of a range in which every tick is legal follow one another.
proof fn lemma_legal_run(barred: spec_fn(int) -> bool, total: int, a: int, b: int)
    requires
        1 <= a,
        a - 1 <= b,
        forall|t: int| a <= t <= b ==> #[trigger] is_legal(barred, total, t),
    ensures
        legal_ticks(barred, total, b).len() == legal_ticks(barred, total, a - 1).len() + (b - a
            + 1),
        forall|t: int|
            a <= t <= b ==> legal_ticks(barred, total, b)[#[trigger] (legal_ticks(
                barred,
                total,
                a - 1,
            ).len() + (t - a))] == t,
    decreases b - a + 1,
{
    if a <= b {
        lemma_legal_run(barred, total, a, b - 1);
        assert(is_legal(barred, total, b));
    }
}

/// Ticks none of which is legal add nothing.
proof fn lemma_barred_run(barred: spec_fn(int) -> bool, total: int, m: int, n: int)
    requires
        0 <= m <= n,
        forall|t: int| m < t <= n ==> !#[trigger] is_legal(barred, total, t),
    ensures
        legal_ticks(barred, total, n) == legal_ticks(barred, total, m),
    decreases n - m,
{
    if m < n {
        assert(!is_legal(barred, total, n));
        lemma_barred_run(barred, total, m, n - 1);
    }
}

/// Every legal tick is in range, and they ascend.
pub proof fn lemma_legal_ticks(barred: spec_fn(int) -> bool, total: int, n: int)
    requires
        0 <= n,
    ensures
        forall|k: int|
            0 <= k < legal_ticks(barred, total, n).len() ==> 1 <= #[trigger] legal_ticks(
                barred,
                total,
                n,
            )[k] <= n && is_legal(barred, total, legal_ticks(barred, total, n)[k]),
        forall|i: int, j: int|
            #![trigger legal_ticks(barred, total, n)[i], legal_ticks(barred, total, n)[j]]
            0 <= i < j < legal_ticks(barred, total, n).len() ==> legal_ticks(barred, total, n)[i]
                < legal_ticks(barred, total, n)[j],
        legal_ticks(barred, total, n).len() <= n,
    decreases n,
{
    if n > 0 {
        lemma_legal_ticks(barred, total, n - 1);
    }
}

/// The number of legal ticks up to a tick tells apart which ticks lie behind it.
pub proof fn lemma_legal_count(barred: spec_fn(int) -> bool, total: int, n: int, k: int)
    requires
        0 <= n <= total,
        0 <= k < legal_ticks(barred, total, total).len(),
    ensures
        legal_ticks(barred, total, total)[k] <= n <==> k < legal_ticks(barred, total, n).len(),
    decreases total - n,
{
    lemma_legal_prefix(barred, total, n, total);
    lemma_legal_ticks(barred, total, n);
    lemma_legal_ticks(barred, total, total);
    let all = legal_ticks(barred, total, total);
    let c = legal_ticks(barred, total, n).len();
    if k >= c {
        // The tick at this rank was not there yet at `n`.
        lemma_rank_beyond(barred, total, n, total, k);
    } else {
        assert(all[k] == legal_ticks(barred, total, n)[k]);
    }
}

proof fn lemma_rank_beyond(barred: spec_fn(int) -> bool, total: int, n: int, m: int, k: int)
    requires
        0 <= n <= m,
        legal_ticks(barred, total, n).len() <= k < legal_ticks(barred, total, m).len(),
    ensures
        legal_ticks(barred, total, m)[k] > n,
    decreases m - n,
{
    if n < m {
        if k < legal_ticks(barred, total, m - 1).len() {
            lemma_rank_beyond(barred, total, n, m - 1, k);
        }
    }
}

/// The legal cuts of a score as ranges: each with its first and last tick and the number of
/// legal ticks before it.
pub struct LegalCuts {
    ranges: Vec<(Tick, Tick, Tick)>,
    count: Tick,
}

/// Whether ranges list the legal ticks below some tick.
spec fn lists(
    ranges: Seq<(Tick, Tick, Tick)>,
    barred: spec_fn(int) -> bool,
    total: int,
    next: int,
) -> bool {
    &&& forall|i: int|
        0 <= i < ranges.len() ==> {
            let (a, b, prior) = #[trigger] ranges[i];
            &&& 1 <= a <= b < next
            &&& forall|t: int| a <= t <= b ==> #[trigger] is_legal(barred, total, t)
            &&& prior == legal_ticks(barred, total, a - 1).len()
        }
    &&& forall|i: int, j: int|
        #![trigger ranges[i], ranges[j]]
        0 <= i < j < ranges.len() ==> ranges[i].1 < ranges[j].0
    &&& forall|t: int|
        1 <= t < next && #[trigger] is_legal(barred, total, t) ==> exists|i: int|
            0 <= i < ranges.len() && (#[trigger] ranges[i]).0 <= t <= ranges[i].1
}

proof fn lemma_lists_push(
    ranges: Seq<(Tick, Tick, Tick)>,
    barred: spec_fn(int) -> bool,
    total: int,
    next: int,
    a: Tick,
    b: Tick,
    prior: Tick,
)
    requires
        lists(ranges, barred, total, next),
        next == a,
        1 <= a <= b,
        prior == legal_ticks(barred, total, a - 1).len(),
        forall|t: int| a <= t <= b ==> #[trigger] is_legal(barred, total, t),
    ensures
        lists(ranges.push((a, b, prior)), barred, total, b + 1),
{
    let new = ranges.push((a, b, prior));
    assert forall|i: int| 0 <= i < new.len() implies {
        let (x, y, p) = #[trigger] new[i];
        &&& 1 <= x <= y < b + 1
        &&& forall|t: int| x <= t <= y ==> #[trigger] is_legal(barred, total, t)
        &&& p == legal_ticks(barred, total, x - 1).len()
    } by {
        if i < ranges.len() {
            assert(new[i] == ranges[i]);
        }
    }
    assert forall|i: int, j: int|
        #![trigger new[i], new[j]]
        0 <= i < j < new.len() implies new[i].1 < new[j].0 by {
        assert(new[i] == ranges[i]);
        if j < ranges.len() {
            assert(new[j] == ranges[j]);
        }
    }
    assert forall|t: int| 1 <= t < b + 1 && #[trigger] is_legal(barred, total, t) implies exists|
        i: int,
    |
        0 <= i < new.len() && (#[trigger] new[i]).0 <= t <= new[i].1 by {
        if t < next {
            let i = choose|i: int|
                0 <= i < ranges.len() && (#[trigger] ranges[i]).0 <= t <= ranges[i].1;
            assert(new[i].0 <= t <= new[i].1);
        } else {
            assert(new[ranges.len() as int].0 <= t <= new[ranges.len() as int].1);
        }
    }
}

proof fn lemma_lists_skip(
    ranges: Seq<(Tick, Tick, Tick)>,
    barred: spec_fn(int) -> bool,
    total: int,
    next: int,
    further: int,
)
    requires
        lists(ranges, barred, total, next),
        next <= further,
        forall|t: int| next <= t < further ==> !#[trigger] is_legal(barred, total, t),
    ensures
        lists(ranges, barred, total, further),
{
}

spec fn range_key(r: (Tick, Tick)) -> Key {
    (r.0, r.1, 0)
}

impl LegalCuts {
    /// Whether the ranges hold exactly the legal ticks up to the end of a score.
    pub closed spec fn describes(&self, barred: spec_fn(int) -> bool, total: int) -> bool {
        &&& 1 <= total < i64::MAX - 6
        &&& lists(self.ranges@, barred, total, total + 1)
        &&& self.count == legal_ticks(barred, total, total).len()
    }

    /// Leaves out of the ticks up to the end of a score those that some ranges hold.
    fn without(ranges: &Vec<(Tick, Tick)>, total: Tick, Ghost(barred): Ghost<
        spec_fn(int) -> bool,
    >) -> (cuts: Self)
        requires
            1 <= total < i64::MAX - 6,
            forall|t: int| barred(t) <==> #[trigger] covers(ranges@, t),
        ensures
            cuts.describes(barred, total as int),
    {
        let mut keys: Vec<Key> = Vec::new();
        let mut i: usize = 0;
        while i < ranges.len()
            invariant
                i <= ranges.len(),
                keys.len() == i,
                forall|k: int| 0 <= k < i ==> #[trigger] keys[k] == range_key(ranges[k]),
            decreases ranges.len() - i,
        {
            keys.push((ranges[i].0, ranges[i].1, 0));
            i += 1;
        }
        let sequence = order(&keys);
        let ghost f = |i: usize| ranges@[i as int];
        let ghost key = |r: (Tick, Tick)| range_key(r);
        let ghost sorted = sequence@.map_values(f);
        proof {
            lemma_order_sorts(ranges@, keys@, key);
            lemma_stable_sort(ranges@, key);
        }
        let mut list: Vec<(Tick, Tick, Tick)> = Vec::new();
        let mut next: Tick = 1;
        let mut count: Tick = 0;
        let mut i: usize = 0;
        while i < sequence.len()
            invariant
                i <= sequence.len() == ranges.len(),
                1 <= total < i64::MAX - 6,
                f == (|i: usize| ranges@[i as int]),
                key == (|r: (Tick, Tick)| range_key(r)),
                sorted == sequence@.map_values(f),
                sorted == stable_sort(ranges@, key),
                sorted_by(sorted, key),
                sorted.len() == ranges.len(),
                forall|k: int| 0 <= k < ranges.len() ==> sorted.contains(#[trigger] ranges@[k]),
                forall|k: int| 0 <= k < ranges.len() ==> ranges@.contains(#[trigger] sorted[k]),
                forall|k: int| 0 <= k < sequence.len() ==> (#[trigger] sequence[k]) < ranges.len(),
                forall|t: int| barred(t) <==> #[trigger] covers(ranges@, t),
                1 <= next <= total,
                lists(list@, barred, total as int, next as int),
                count == legal_ticks(barred, total as int, next - 1).len(),
                0 <= count < next,
                // Nothing before this range reaches further than `next`.
                forall|k: int|
                    0 <= k < i && 1 <= (#[trigger] sorted[k]).1 && sorted[k].0 < total && sorted[k].0
                        <= sorted[k].1 ==> sorted[k].1 < next || next == total,
            decreases sequence.len() - i,
        {
            let (from, to) = ranges[sequence[i]];
            proof {
                assert(sorted[i as int] == (from, to));
            }
            if from <= to && to >= 1 && from < total {
                let a: Tick = if from < 1 {
                    1
                } else {
                    from
                };
                let b: Tick = if to > total - 1 {
                    total - 1
                } else {
                    to
                };
                if next < a {
                    proof {
                        assert forall|t: int| next <= t <= a - 1 implies #[trigger] is_legal(
                            barred,
                            total as int,
                            t,
                        ) by {
                            if covers(ranges@, t) {
                                let k = choose|k: int|
                                    0 <= k < ranges.len() && (#[trigger] ranges@[k]).0 <= t
                                        <= ranges@[k].1;
                                assert(sorted.contains(ranges@[k]));
                                let m = choose|m: int|
                                    0 <= m < sorted.len() && sorted[m] == ranges@[k];
                                if m < i {
                                    assert(sorted[m].1 < next || next == total);
                                } else {
                                    assert(!crate::order::key_less(
                                        key(sorted[m]),
                                        key(sorted[i as int]),
                                    ));
                                }
                            }
                            assert(barred(t) <==> covers(ranges@, t));
                        }
                        lemma_legal_run(barred, total as int, next as int, a - 1);
                        lemma_lists_push(
                            list@,
                            barred,
                            total as int,
                            next as int,
                            next,
                            (a - 1) as Tick,
                            count,
                        );
                    }
                    list.push((next, a - 1, count));
                    count = count + (a - next);
                    proof {
                        assert(count == legal_ticks(barred, total as int, a - 1).len());
                    }
                }
                let ghost middle = if next < a {
                    a
                } else {
                    next
                };
                if b + 1 > next {
                    proof {
                        assert forall|t: int| middle <= t < b + 1 implies !#[trigger] is_legal(
                            barred,
                            total as int,
                            t,
                        ) by {
                            assert(ranges@.contains(sorted[i as int]));
                            let k = choose|k: int|
                                0 <= k < ranges.len() && ranges@[k] == sorted[i as int];
                            assert(ranges@[k].0 <= t <= ranges@[k].1);
                            assert(covers(ranges@, t));
                        }
                        lemma_lists_skip(list@, barred, total as int, middle as int, b + 1);
                        lemma_barred_run(barred, total as int, middle - 1, b as int);
                    }
                    next = b + 1;
                }
            }
            i += 1;
        }
        proof {
            assert forall|t: int| next <= t <= total implies #[trigger] is_legal(
                barred,
                total as int,
                t,
            ) by {
                if t < total && covers(ranges@, t) {
                    let k = choose|k: int|
                        0 <= k < ranges.len() && (#[trigger] ranges@[k]).0 <= t <= ranges@[k].1;
                    assert(sorted.contains(ranges@[k]));
                    let m = choose|m: int| 0 <= m < sorted.len() && sorted[m] == ranges@[k];
                    assert(sorted[m].1 < next || next == total);
                }
                assert(barred(t) <==> covers(ranges@, t));
            }
            lemma_legal_run(barred, total as int, next as int, total as int);
            lemma_lists_push(
                list@,
                barred,
                total as int,
                next as int,
                next,
                total,
                count,
            );
        }
        list.push((next, total, count));
        count = count + (total - next + 1);
        LegalCuts { ranges: list, count }
    }

    /// The number of legal ticks.
    pub(crate) fn len(&self, Ghost(barred): Ghost<spec_fn(int) -> bool>, Ghost(total): Ghost<int>) -> (n:
        Tick)
        requires
            self.describes(barred, total),
        ensures
            n == legal_ticks(barred, total, total).len(),
            n <= total < i64::MAX - 6,
    {
        proof {
            lemma_legal_ticks(barred, total, total);
        }
        self.count
    }

    /// The legal tick at a rank.
    pub(crate) fn tick(
        &self,
        rank: Tick,
        Ghost(barred): Ghost<spec_fn(int) -> bool>,
        Ghost(total): Ghost<int>,
    ) -> (t: Tick)
        requires
            self.describes(barred, total),
            0 <= rank < legal_ticks(barred, total, total).len(),
        ensures
            t == legal_ticks(barred, total, total)[rank as int],
            1 <= t <= total,
    {
        let ghost all = legal_ticks(barred, total, total);
        let ghost wanted = all[rank as int];
        proof {
            lemma_legal_ticks(barred, total, total);
        }
        let mut i: usize = 0;
        let mut high: usize = self.ranges.len();
        proof {
            assert(is_legal(barred, total, wanted));
            let w = choose|w: int|
                0 <= w < self.ranges.len() && (#[trigger] self.ranges@[w]).0 <= wanted
                    <= self.ranges@[w].1;
            assert(self.ranges.len() > 0);
            self.lemma_rank(barred, total, rank as int, w);
            self.lemma_first(barred, total);
        }
        while high - i > 1
            invariant
                self.describes(barred, total),
                i < high <= self.ranges.len(),
                0 <= rank < legal_ticks(barred, total, total).len(),
                self.ranges@[i as int].2 <= rank,
                high < self.ranges.len() ==> rank < self.ranges@[high as int].2,
            decreases high - i,
        {
            let middle: usize = i + (high - i) / 2;
            if self.ranges[middle].2 <= rank {
                i = middle;
            } else {
                high = middle;
            }
        }
        proof {
            self.lemma_holds_rank(barred, total, rank as int, i as int);
        }
        let (a, _, prior) = self.ranges[i];
        a + (rank - prior)
    }

    /// The rank of the first range is zero.
    proof fn lemma_first(&self, barred: spec_fn(int) -> bool, total: int)
        requires
            self.describes(barred, total),
            self.ranges.len() > 0,
        ensures
            self.ranges@[0].2 == 0,
    {
        let (a, b, prior) = self.ranges@[0];
        assert forall|t: int| 0 < t <= a - 1 implies !#[trigger] is_legal(barred, total, t) by {
            if is_legal(barred, total, t) {
                let i = choose|i: int|
                    0 <= i < self.ranges.len() && (#[trigger] self.ranges@[i]).0 <= t
                        <= self.ranges@[i].1;
                if i > 0 {
                    assert(self.ranges@[0].1 < self.ranges@[i].0);
                }
            }
        }
        lemma_barred_run(barred, total, 0, a - 1);
    }

    /// The tick at a rank lies in the range that its rank points to.
    proof fn lemma_rank(&self, barred: spec_fn(int) -> bool, total: int, rank: int, w: int)
        requires
            self.describes(barred, total),
            0 <= rank < legal_ticks(barred, total, total).len(),
            0 <= w < self.ranges.len(),
            self.ranges@[w].0 <= legal_ticks(barred, total, total)[rank] <= self.ranges@[w].1,
        ensures
            legal_ticks(barred, total, total)[rank] == self.ranges@[w].0 + (rank
                - self.ranges@[w].2),
            self.ranges@[w].2 <= rank,
    {
        let (a, b, prior) = self.ranges@[w];
        let all = legal_ticks(barred, total, total);
        let t = all[rank];
        lemma_legal_run(barred, total, a as int, b as int);
        lemma_legal_prefix(barred, total, b as int, total);
        lemma_legal_ticks(barred, total, total);
        let r = prior + (t - a);
        assert(legal_ticks(barred, total, b as int)[legal_ticks(barred, total, a - 1).len() + (t
            - a)] == t);
        assert(all[r] == t);
        if r < rank {
            assert(all[r] < all[rank]);
        } else if rank < r {
            assert(all[rank] < all[r]);
        }
    }

    proof fn lemma_holds_rank(&self, barred: spec_fn(int) -> bool, total: int, rank: int, i: int)
        requires
            self.describes(barred, total),
            0 <= rank < legal_ticks(barred, total, total).len(),
            0 <= i < self.ranges.len(),
            self.ranges@[i].2 <= rank,
            i + 1 < self.ranges.len() ==> rank < self.ranges@[i + 1].2,
        ensures
            legal_ticks(barred, total, total)[rank] == self.ranges@[i].0 + (rank
                - self.ranges@[i].2),
    {
        let all = legal_ticks(barred, total, total);
        let wanted = all[rank];
        lemma_legal_ticks(barred, total, total);
        assert(is_legal(barred, total, wanted));
        let w = choose|w: int|
            0 <= w < self.ranges.len() && (#[trigger] self.ranges@[w]).0 <= wanted
                <= self.ranges@[w].1;
        self.lemma_rank(barred, total, rank, w);
        if w > i {
            // The number of legal ticks before a range grows from range to range.
            self.lemma_priors(barred, total, i + 1, w);
        } else if w < i {
            let (a, b, prior) = self.ranges@[w];
            lemma_legal_run(barred, total, a as int, b as int);
            assert(self.ranges@[w].1 < self.ranges@[i].0);
            lemma_legal_prefix(barred, total, b as int, self.ranges@[i].0 - 1);
        }
    }

    proof fn lemma_priors(&self, barred: spec_fn(int) -> bool, total: int, i: int, j: int)
        requires
            self.describes(barred, total),
            0 <= i <= j < self.ranges.len(),
        ensures
            self.ranges@[i].2 <= self.ranges@[j].2,
    {
        if i < j {
            assert(self.ranges@[i].1 < self.ranges@[j].0);
            let x = self.ranges@[i];
            let y = self.ranges@[j];
            lemma_legal_prefix(barred, total, x.0 - 1, y.0 - 1);
        }
    }

    /// The number of legal ticks up to a tick, which is the rank of the first one behind it.
    pub(crate) fn first_after(
        &self,
        tick: Tick,
        Ghost(barred): Ghost<spec_fn(int) -> bool>,
        Ghost(total): Ghost<int>,
    ) -> (rank: Tick)
        requires
            self.describes(barred, total),
            0 <= tick < i64::MAX,
        ensures
            rank == legal_ticks(
                barred,
                total,
                if tick < total {
                    tick as int
                } else {
                    total
                },
            ).len(),
    {
        let mut low: usize = 0;
        let mut high: usize = self.ranges.len();
        while low < high
            invariant
                self.describes(barred, total),
                low <= high <= self.ranges.len(),
                forall|k: int| 0 <= k < low ==> (#[trigger] self.ranges@[k]).1 <= tick,
                forall|k: int|
                    high <= k < self.ranges.len() ==> (#[trigger] self.ranges@[k]).1 > tick,
            decreases high - low,
        {
            let middle: usize = low + (high - low) / 2;
            if self.ranges[middle].1 <= tick {
                proof {
                    assert forall|k: int| 0 <= k < middle + 1 implies (
                    #[trigger] self.ranges@[k]).1 <= tick by {
                        if k < middle {
                            assert(self.ranges@[k].1 < self.ranges@[middle as int].0);
                        }
                    }
                }
                low = middle + 1;
            } else {
                proof {
                    assert forall|k: int| middle <= k < self.ranges.len() implies (
                    #[trigger] self.ranges@[k]).1 > tick by {
                        if k > middle {
                            assert(self.ranges@[middle as int].1 < self.ranges@[k].0);
                        }
                    }
                }
                high = middle;
            }
        }
        if low == self.ranges.len() {
            proof {
                if tick < total {
                    assert forall|t: int| tick < t <= total implies !#[trigger] is_legal(
                        barred,
                        total,
                        t,
                    ) by {
                        if is_legal(barred, total, t) {
                            let i = choose|i: int|
                                0 <= i < self.ranges.len() && (#[trigger] self.ranges@[i]).0 <= t
                                    <= self.ranges@[i].1;
                            assert(self.ranges@[i].1 <= tick);
                        }
                    }
                    lemma_barred_run(barred, total, tick as int, total);
                }
            }
            self.count
        } else {
            let (a, b, prior) = self.ranges[low];
            proof {
                if tick < a - 1 {
                    assert forall|t: int| tick < t <= a - 1 implies !#[trigger] is_legal(
                        barred,
                        total,
                        t,
                    ) by {
                        if is_legal(barred, total, t) {
                            let i = choose|i: int|
                                0 <= i < self.ranges.len() && (#[trigger] self.ranges@[i]).0 <= t
                                    <= self.ranges@[i].1;
                            if i > low {
                                assert(self.ranges@[low as int].1 < self.ranges@[i].0);
                            } else if i < low {
                                assert(self.ranges@[i].1 <= tick);
                            }
                        }
                    }
                    lemma_barred_run(barred, total, tick as int, a - 1);
                } else {
                    lemma_legal_run(barred, total, a as int, tick as int);
                }
                lemma_legal_ticks(barred, total, a - 1);
            }
            if tick + 1 > a {
                prior + (tick + 1 - a)
            } else {
                prior
            }
        }
    }

    /// Whether a tick is legal.
    pub(crate) fn contains(
        &self,
        tick: Tick,
        Ghost(barred): Ghost<spec_fn(int) -> bool>,
        Ghost(total): Ghost<int>,
    ) -> (r: bool)
        requires
            self.describes(barred, total),
        ensures
            r <==> 1 <= tick <= total && is_legal(barred, total, tick as int),
    {
        let mut low: usize = 0;
        let mut high: usize = self.ranges.len();
        while low < high
            invariant
                self.describes(barred, total),
                low <= high <= self.ranges.len(),
                forall|k: int| 0 <= k < low ==> (#[trigger] self.ranges@[k]).1 < tick,
                forall|k: int|
                    high <= k < self.ranges.len() ==> (#[trigger] self.ranges@[k]).1 >= tick,
            decreases high - low,
        {
            let middle: usize = low + (high - low) / 2;
            if self.ranges[middle].1 < tick {
                proof {
                    assert forall|k: int| 0 <= k < middle + 1 implies (
                    #[trigger] self.ranges@[k]).1 < tick by {
                        if k < middle {
                            assert(self.ranges@[k].1 < self.ranges@[middle as int].0);
                        }
                    }
                }
                low = middle + 1;
            } else {
                proof {
                    assert forall|k: int| middle <= k < self.ranges.len() implies (
                    #[trigger] self.ranges@[k]).1 >= tick by {
                        if k > middle {
                            assert(self.ranges@[middle as int].1 < self.ranges@[k].0);
                        }
                    }
                }
                high = middle;
            }
        }
        let found = low < self.ranges.len() && self.ranges[low].0 <= tick;
        proof {
            if found {
                let (a, b, prior) = self.ranges@[low as int];
                assert(a <= tick <= b);
                assert(is_legal(barred, total, tick as int));
            } else if 1 <= tick <= total && is_legal(barred, total, tick as int) {
                let i = choose|i: int|
                    0 <= i < self.ranges.len() && (#[trigger] self.ranges@[i]).0 <= tick
                        <= self.ranges@[i].1;
                if i > low {
                    assert(self.ranges@[low as int].1 < self.ranges@[i].0);
                }
            }
        }
        found
    }
}

/// Finds the ticks at which a score can be cut.
pub fn legal_cuts(score: &Score, tempos: &[Tempo], total: Tick) -> (cuts: LegalCuts)
    requires
        all_in_range(score@),
        1 <= total < i64::MAX - 6,
    ensures
        cuts.describes(|t: int| is_barred(score@, tempos@, total as int, t), total as int),
{
    let ranges = barred_ranges(score, tempos, total);
    LegalCuts::without(
        &ranges,
        total,
        Ghost(|t: int| is_barred(score@, tempos@, total as int, t)),
    )
}

} // verus!
