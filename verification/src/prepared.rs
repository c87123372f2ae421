//! What mobile players are given of a score.
use crate::adapt::{chained, compatible, graph_of, met, spanned, with_last_tempo, with_notes, with_part, with_parts, with_signatures, with_tracks};
use crate::boundaries::{with_point, Graph};
use crate::order::lemma_stable_sort;
use crate::prepare::{comes_to, is_prepared, law_moments_stay_close, law_notes_are_kept, lemma_stays, moved_note, moved_notes, moved_parts, moved_tracks};
use crate::score::{by_onset, flat, onset_key, Note, ScoreView, Tempo, Tick, TrackView};
use vstd::prelude::*;

verus! {

/// Whether notes are those of another list, one for one, with the same pitch, volume and source,
/// and begin and end no more than three ticks from where those do.
pub open spec fn keeps_notes(before: Seq<Note>, after: Seq<Note>) -> bool {
    &&& after.len() == before.len()
    &&& forall|i: int|
        #![trigger before[i]]
        #![trigger after[i]]
        0 <= i < before.len() ==> {
            &&& after[i].pitch == before[i].pitch
            &&& after[i].vel == before[i].vel
            &&& after[i].src == before[i].src
            &&& -3 <= after[i].on - before[i].on <= 3
            &&& -3 <= after[i].off - before[i].off <= 3
        }
}

/// Whether no beginning and no end of a note has overtaken another: what came at one tick still
/// does, and what came earlier does not come later.
pub open spec fn keeps_order(before: Seq<Note>, after: Seq<Note>) -> bool {
    forall|i: int, j: int|
        #![trigger before[i], before[j]]
        0 <= i < before.len() && 0 <= j < before.len() ==> {
            &&& before[i].on <= before[j].on ==> after[i].on <= after[j].on
            &&& before[i].on <= before[j].off ==> after[i].on <= after[j].off
            &&& before[i].off <= before[j].on ==> after[i].off <= after[j].on
            &&& before[i].off <= before[j].off ==> after[i].off <= after[j].off
        }
}

/// Whether every moment of a list is one of another.
spec fn grows(a: Seq<Tick>, b: Seq<Tick>) -> bool {
    forall|t: Tick| #[trigger] a.contains(t) ==> b.contains(t)
}

/// Whether the beginning and the end of every note are among some moments.
spec fn marks_all(original: Seq<Tick>, notes: Seq<Note>) -> bool {
    forall|k: int|
        0 <= k < notes.len() ==> original.contains((#[trigger] notes[k]).on) && original.contains(
            notes[k].off,
        )
}

proof fn lemma_marks_grow(a: Seq<Tick>, b: Seq<Tick>, notes: Seq<Note>)
    requires
        grows(a, b),
        marks_all(a, notes),
    ensures
        marks_all(b, notes),
{
    assert forall|k: int| 0 <= k < notes.len() implies b.contains((#[trigger] notes[k]).on)
        && b.contains(notes[k].off) by {
        assert(a.contains(notes[k].on));
        assert(a.contains(notes[k].off));
    }
}

proof fn lemma_point(original: Seq<Tick>, tick: Tick)
    ensures
        grows(original, with_point(original, tick)),
        with_point(original, tick).contains(tick),
{
    let new = with_point(original, tick);
    if !original.contains(tick) {
        assert(new[new.len() - 1] == tick);
        assert forall|t: Tick| #[trigger] original.contains(t) implies new.contains(t) by {
            let k = choose|k: int| 0 <= k < original.len() && original[k] == t;
            assert(new[k] == t);
        }
    }
}

proof fn lemma_spanned(g: Graph, start: Tick, end: Tick)
    requires
        spanned(g, start, end) is Ok,
    ensures
        grows(g.original, spanned(g, start, end)->Ok_0.original),
        start < end ==> spanned(g, start, end)->Ok_0.original.contains(start) && spanned(
            g,
            start,
            end,
        )->Ok_0.original.contains(end),
{
    lemma_point(g.original, start);
    lemma_point(with_point(g.original, start), end);
}

proof fn lemma_notes(g: Graph, notes: Seq<Note>, n: int, track: int, part: int)
    requires
        0 <= n <= notes.len(),
        with_notes(g, notes, n, track, part) is Ok,
    ensures
        grows(g.original, with_notes(g, notes, n, track, part)->Ok_0.0.original),
        marks_all(with_notes(g, notes, n, track, part)->Ok_0.0.original, notes.take(n)),
    decreases n,
{
    if n > 0 {
        lemma_notes(g, notes, n - 1, track, part);
        let (before, previous) = with_notes(g, notes, n - 1, track, part)->Ok_0;
        let note = notes[n - 1];
        let rest = spanned(before, previous, note.on)->Ok_0;
        lemma_spanned(before, previous, note.on);
        lemma_spanned(rest, note.on, note.off);
        let all = spanned(rest, note.on, note.off)->Ok_0;
        lemma_marks_grow(before.original, rest.original, notes.take(n - 1));
        lemma_marks_grow(rest.original, all.original, notes.take(n - 1));
        assert forall|k: int| 0 <= k < n implies all.original.contains((#[trigger] notes.take(n)[k]).on)
            && all.original.contains(notes.take(n)[k].off) by {
            if k < n - 1 {
                assert(notes.take(n - 1)[k] == notes.take(n)[k]);
            }
        }
    }
}

proof fn lemma_chained(g: Graph, points: Seq<Tick>, n: int)
    requires
        chained(g, points, n) is Ok,
    ensures
        grows(g.original, chained(g, points, n)->Ok_0.original),
    decreases n,
{
    if n > 1 {
        lemma_chained(g, points, n - 1);
        lemma_spanned(chained(g, points, n - 1)->Ok_0, points[n - 2], points[n - 1]);
    }
}

proof fn lemma_part(g: Graph, notes: Seq<Note>, tempos: Seq<Tempo>, track: int, part: int)
    requires
        with_part(g, notes, tempos, track, part) is Ok,
    ensures
        grows(g.original, with_part(g, notes, tempos, track, part)->Ok_0.original),
        marks_all(with_part(g, notes, tempos, track, part)->Ok_0.original, notes),
{
    let sorted = by_onset(notes);
    let n = sorted.len() as int;
    lemma_notes(g, sorted, n, track, part);
    assert(sorted.take(n) =~= sorted);
    let (all, previous) = with_notes(g, sorted, n, track, part)->Ok_0;
    let end = with_part(g, notes, tempos, track, part)->Ok_0;
    if part == 0 {
        let longer = with_last_tempo(all, previous, tempos)->Ok_0;
        if tempos.len() > 0 && tempos.last().0 > previous {
            lemma_spanned(all, previous, tempos.last().0);
        }
        let points = crate::adapt::with_tempo_ticks(
            crate::adapt::carrier(sorted, n),
            tempos,
            tempos.len() as int,
        );
        lemma_chained(longer, points, points.len() as int);
        lemma_marks_grow(all.original, end.original, sorted);
    }
    lemma_stable_sort(notes, |x: Note| onset_key(x));
    assert forall|k: int| 0 <= k < notes.len() implies end.original.contains((#[trigger] notes[k]).on)
        && end.original.contains(notes[k].off) by {
        assert(sorted.contains(notes[k]));
        let q = choose|q: int| 0 <= q < sorted.len() && sorted[q] == notes[k];
        assert(end.original.contains(sorted[q].on));
    }
}

proof fn lemma_parts(g: Graph, parts: Seq<Seq<Note>>, tempos: Seq<Tempo>, track: int, n: int)
    requires
        0 <= n <= parts.len(),
        with_parts(g, parts, tempos, track, n) is Ok,
    ensures
        grows(g.original, with_parts(g, parts, tempos, track, n)->Ok_0.original),
        forall|p: int|
            0 <= p < n ==> marks_all(
                with_parts(g, parts, tempos, track, n)->Ok_0.original,
                #[trigger] parts[p],
            ),
    decreases n,
{
    if n > 0 {
        lemma_parts(g, parts, tempos, track, n - 1);
        let before = with_parts(g, parts, tempos, track, n - 1)->Ok_0;
        lemma_part(before, parts[n - 1], tempos, track, n - 1);
        let all = with_parts(g, parts, tempos, track, n)->Ok_0;
        assert forall|p: int| 0 <= p < n implies marks_all(all.original, #[trigger] parts[p]) by {
            if p < n - 1 {
                lemma_marks_grow(before.original, all.original, parts[p]);
            }
        }
    }
}

proof fn lemma_tracks(tracks: Seq<TrackView>, tempos: Seq<Tempo>, n: int)
    requires
        0 <= n <= tracks.len(),
        with_tracks(tracks, tempos, n) is Ok,
    ensures
        forall|t: int|
            0 <= t < n ==> marks_all(
                with_tracks(tracks, tempos, n)->Ok_0.original,
                flat((#[trigger] tracks[t]).parts),
            ),
    decreases n,
{
    if n > 0 {
        lemma_tracks(tracks, tempos, n - 1);
        let before = with_tracks(tracks, tempos, n - 1)->Ok_0;
        let parts = tracks[n - 1].parts;
        lemma_parts(before, parts, tempos, n - 1, parts.len() as int);
        let all = with_tracks(tracks, tempos, n)->Ok_0;
        lemma_flat_marks(all.original, parts);
        assert forall|t: int| 0 <= t < n implies marks_all(
            all.original,
            flat((#[trigger] tracks[t]).parts),
        ) by {
            if t < n - 1 {
                lemma_marks_grow(before.original, all.original, flat(tracks[t].parts));
            }
        }
    }
}

proof fn lemma_flat_marks(original: Seq<Tick>, lists: Seq<Seq<Note>>)
    requires
        forall|p: int| 0 <= p < lists.len() ==> marks_all(original, #[trigger] lists[p]),
    ensures
        marks_all(original, flat(lists)),
    decreases lists.len(),
{
    if lists.len() > 0 {
        let front = lists.drop_last();
        assert forall|p: int| 0 <= p < front.len() implies marks_all(original, #[trigger] front[p]) by {
            assert(front[p] == lists[p]);
        }
        lemma_flat_marks(original, front);
        let all = flat(lists);
        let n = flat(front).len() as int;
        assert(marks_all(original, lists[lists.len() - 1]));
        assert forall|k: int| 0 <= k < all.len() implies original.contains((#[trigger] all[k]).on)
            && original.contains(all[k].off) by {
            if k < n {
                assert(all[k] == flat(front)[k]);
            } else {
                assert(all[k] == lists.last()[k - n]);
            }
        }
    }
}

proof fn lemma_signatures(g: Graph, lines: Seq<Seq<char>>, n: int)
    requires
        with_signatures(g, lines, n) is Ok,
    ensures
        grows(g.original, with_signatures(g, lines, n)->Ok_0.original),
    decreases n,
{
    if n > 0 {
        lemma_signatures(g, lines, n - 1);
        let before = with_signatures(g, lines, n - 1)->Ok_0;
        match crate::adapt::signature_tick(lines, n - 1) {
            Some(tick) => {
                lemma_point(before.original, tick);
            },
            None => {},
        }
    }
}

proof fn lemma_all_marked(score: ScoreView)
    requires
        met(score) is Ok,
    ensures
        marks_all(met(score)->Ok_0.original, score.notes()),
{
    let n = score.tracks.len() as int;
    let g = with_tracks(score.tracks, score.all_tempos(), n)->Ok_0;
    lemma_tracks(score.tracks, score.all_tempos(), n);
    let lists = Seq::new(score.tracks.len(), |i: int| flat(score.tracks[i].parts));
    assert forall|p: int| 0 <= p < lists.len() implies marks_all(g.original, #[trigger] lists[p]) by {
        assert(lists[p] == flat(score.tracks[p].parts));
    }
    lemma_flat_marks(g.original, lists);
    lemma_signatures(g, score.tail, score.tail.len() as int);
    lemma_marks_grow(g.original, met(score)->Ok_0.original, score.notes());
}

proof fn lemma_flat_moved(original: Seq<Tick>, mapped: Seq<Tick>, lists: Seq<Seq<Note>>)
    ensures
        flat(moved_parts(original, mapped, lists)) == moved_notes(original, mapped, flat(lists)),
    decreases lists.len(),
{
    let moved = moved_parts(original, mapped, lists);
    if lists.len() == 0 {
        assert(flat(moved) =~= moved_notes(original, mapped, flat(lists)));
    } else {
        let front = lists.drop_last();
        lemma_flat_moved(original, mapped, front);
        assert(moved.drop_last() =~= moved_parts(original, mapped, front));
        assert(moved.last() == moved_notes(original, mapped, lists.last()));
        assert(flat(moved) =~= moved_notes(original, mapped, flat(lists)));
    }
}

proof fn lemma_moved_notes(original: Seq<Tick>, mapped: Seq<Tick>, score: ScoreView, out: ScoreView)
    requires
        moved_tracks(original, mapped, score.tracks, score.tracks.len() as int) == Ok::<
            _,
            crate::writer::EmitError,
        >(out.tracks),
    ensures
        out.notes() == moved_notes(original, mapped, score.notes()),
{
    let n = score.tracks.len() as int;
    let lists = Seq::new(score.tracks.len(), |i: int| flat(score.tracks[i].parts));
    if n > 0 {
        law_notes_are_kept(original, mapped, score.tracks, n, 0);
    }
    let moved = Seq::new(out.tracks.len(), |i: int| flat(out.tracks[i].parts));
    assert(moved =~= moved_parts(original, mapped, lists)) by {
        assert(moved.len() == lists.len());
        assert forall|i: int| 0 <= i < moved.len() implies moved[i] == moved_notes(
            original,
            mapped,
            lists[i],
        ) by {
            law_notes_are_kept(original, mapped, score.tracks, n, i);
            lemma_flat_moved(original, mapped, score.tracks[i].parts);
        }
    }
    lemma_flat_moved(original, mapped, lists);
}

/// A score that was made readable for mobile players is readable for them, and has the notes of
/// the first, one for one, with their pitches and volumes, each within three ticks of where it
/// was; what came at one tick still does, and nothing has overtaken anything else. Nothing has
/// moved exactly where the first was readable itself, and then it is unchanged.
pub proof fn law_prepared(score: ScoreView, out: ScoreView, n: int)
    requires
        comes_to(score, out, n),
    ensures
        compatible(out),
        keeps_notes(score.notes(), out.notes()),
        keeps_order(score.notes(), out.notes()),
        (n == 0) == compatible(score),
        compatible(score) ==> out == score,
{
    let g = graph_of(score)->Ok_0;
    let base = met(score)->Ok_0;
    let mapped = choose|mapped: Seq<Tick>| #[trigger] is_prepared(score, g, mapped, out, n);
    lemma_stays(score, g, mapped);
    let a = score.notes();
    let b = out.notes();
    if n != 0 {
        lemma_moved_notes(g.original, mapped, score, out);
        lemma_all_marked(score);
        assert forall|i: int|
            #![trigger a[i]]
            #![trigger b[i]]
            0 <= i < a.len() implies b[i] == moved_note(g.original, mapped, a[i]) && -3 <= b[i].on
            - a[i].on <= 3 && -3 <= b[i].off - a[i].off <= 3 by {
            law_moments_stay_close(base, mapped, a[i].on, a[i].on);
            law_moments_stay_close(base, mapped, a[i].off, a[i].off);
        }
        assert forall|i: int, j: int|
            #![trigger a[i], a[j]]
            0 <= i < a.len() && 0 <= j < a.len() implies {
            &&& a[i].on <= a[j].on ==> b[i].on <= b[j].on
            &&& a[i].on <= a[j].off ==> b[i].on <= b[j].off
            &&& a[i].off <= a[j].on ==> b[i].off <= b[j].on
            &&& a[i].off <= a[j].off ==> b[i].off <= b[j].off
        } by {
            assert(base.original.contains(a[i].on) && base.original.contains(a[i].off));
            assert(base.original.contains(a[j].on) && base.original.contains(a[j].off));
            law_moments_stay_close(base, mapped, a[i].on, a[j].on);
            law_moments_stay_close(base, mapped, a[i].on, a[j].off);
            law_moments_stay_close(base, mapped, a[i].off, a[j].on);
            law_moments_stay_close(base, mapped, a[i].off, a[j].off);
        }
    }
}

/// Making a score readable for mobile players that was made so before changes nothing.
pub proof fn law_prepared_stays(score: ScoreView, out: ScoreView, n: int, again: ScoreView, m: int)
    requires
        comes_to(score, out, n),
        comes_to(out, again, m),
    ensures
        again == out,
        m == 0,
{
    law_prepared(score, out, n);
    law_prepared(out, again, m);
}

} // verus!
