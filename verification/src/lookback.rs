//! What is counted of a note rests on what has sounded up to it.
use crate::order::keep;
use crate::salience::{are_rows, are_score_rows, are_track_rows, crowd_of, has_pitch, is_row, law_crowd_looks_back, notes_before, notes_in, reach_start, run_start, window_of, Crowd, Row, REACH};
use crate::score::{flat, Note, ScoreView, Tick, TrackView};
use vstd::prelude::*;

verus! {

/// Whether a part goes on from another with notes that begin behind a tick.
pub open spec fn goes_on(a: Seq<Note>, b: Seq<Note>, tick: Tick) -> bool {
    &&& a.len() <= b.len()
    &&& b.take(a.len() as int) == a
    &&& forall|k: int| a.len() <= k < b.len() ==> (#[trigger] b[k]).on > tick
}

/// Whether parts go on from others, one for one.
pub open spec fn all_go_on(a: Seq<Seq<Note>>, b: Seq<Seq<Note>>, tick: Tick) -> bool {
    a.len() == b.len() && forall|p: int|
        #![trigger a[p]]
        #![trigger b[p]]
        0 <= p < a.len() ==> goes_on(a[p], b[p], tick)
}

/// Whether a score goes on from another: its parts have further notes, which begin behind a tick.
pub open spec fn extends(a: ScoreView, b: ScoreView, tick: Tick) -> bool {
    a.tracks.len() == b.tracks.len() && forall|t: int|
        #![trigger a.tracks[t]]
        #![trigger b.tracks[t]]
        0 <= t < a.tracks.len() ==> all_go_on(a.tracks[t].parts, b.tracks[t].parts, tick)
}

spec fn begun(tick: Tick) -> spec_fn(Note) -> bool {
    |n: Note| n.on <= tick
}

proof fn lemma_keep_concat(a: Seq<Note>, b: Seq<Note>, f: spec_fn(Note) -> bool)
    ensures
        keep(a + b, f) == keep(a, f) + keep(b, f),
    decreases b.len(),
{
    if b.len() == 0 {
        assert(a + b =~= a);
        assert(keep(a, f) + keep(b, f) =~= keep(a, f));
    } else {
        assert((a + b).drop_last() =~= a + b.drop_last());
        lemma_keep_concat(a, b.drop_last(), f);
        assert(keep(a + b, f) =~= keep(a, f) + keep(b, f));
    }
}

proof fn lemma_keep_none(a: Seq<Note>, tick: Tick)
    requires
        forall|k: int| 0 <= k < a.len() ==> (#[trigger] a[k]).on > tick,
    ensures
        keep(a, begun(tick)) == Seq::<Note>::empty(),
    decreases a.len(),
{
    if a.len() > 0 {
        lemma_keep_none(a.drop_last(), tick);
    } else {
        assert(a =~= Seq::<Note>::empty());
    }
}

proof fn lemma_keep_part(a: Seq<Note>, b: Seq<Note>, tick: Tick, at: Tick)
    requires
        goes_on(a, b, tick),
        at <= tick,
    ensures
        keep(b, begun(at)) == keep(a, begun(at)),
{
    let tail = b.skip(a.len() as int);
    assert(b =~= a + tail);
    lemma_keep_concat(a, tail, begun(at));
    assert forall|k: int| 0 <= k < tail.len() implies (#[trigger] tail[k]).on > at by {
        assert(tail[k] == b[a.len() + k]);
    }
    lemma_keep_none(tail, at);
    assert(keep(a, begun(at)) + keep(tail, begun(at)) =~= keep(a, begun(at)));
}

proof fn lemma_keep_flat(a: Seq<Seq<Note>>, b: Seq<Seq<Note>>, f: spec_fn(Note) -> bool)
    requires
        a.len() == b.len(),
        forall|p: int| 0 <= p < a.len() ==> keep(#[trigger] a[p], f) == keep(b[p], f),
    ensures
        keep(flat(a), f) == keep(flat(b), f),
    decreases a.len(),
{
    if a.len() > 0 {
        let x = a.drop_last();
        let y = b.drop_last();
        assert forall|p: int| 0 <= p < x.len() implies keep(#[trigger] x[p], f) == keep(y[p], f) by {
            assert(x[p] == a[p] && y[p] == b[p]);
        }
        lemma_keep_flat(x, y, f);
        lemma_keep_concat(flat(x), a.last(), f);
        lemma_keep_concat(flat(y), b.last(), f);
        assert(keep(a[a.len() - 1], f) == keep(b[b.len() - 1], f));
    }
}

proof fn lemma_keep_score(a: ScoreView, b: ScoreView, tick: Tick, at: Tick)
    requires
        extends(a, b, tick),
        at <= tick,
    ensures
        keep(a.notes(), begun(at)) == keep(b.notes(), begun(at)),
{
    let x = Seq::new(a.tracks.len(), |i: int| flat(a.tracks[i].parts));
    let y = Seq::new(b.tracks.len(), |i: int| flat(b.tracks[i].parts));
    assert forall|t: int| 0 <= t < x.len() implies keep(#[trigger] x[t], begun(at)) == keep(
        y[t],
        begun(at),
    ) by {
        let p = a.tracks[t].parts;
        let q = b.tracks[t].parts;
        assert(all_go_on(p, q, tick));
        assert forall|i: int| 0 <= i < p.len() implies keep(#[trigger] p[i], begun(at)) == keep(
            q[i],
            begun(at),
        ) by {
            lemma_keep_part(p[i], q[i], tick, at);
        }
        lemma_keep_flat(p, q, begun(at));
    }
    lemma_keep_flat(x, y, begun(at));
}

proof fn lemma_same_crowd(a: ScoreView, b: ScoreView, tick: Tick, at: Tick, attack: bool, pitch: i32)
    requires
        extends(a, b, tick),
        at <= tick,
    ensures
        crowd_of(a.notes(), at, attack, pitch, a.notes().len() as int) == crowd_of(
            b.notes(),
            at,
            attack,
            pitch,
            b.notes().len() as int,
        ),
{
    lemma_keep_score(a, b, tick, at);
    law_crowd_looks_back(a.notes(), at, attack, pitch);
    law_crowd_looks_back(b.notes(), at, attack, pitch);
    let f = |n: Note| n.on <= at;
    assert(keep(a.notes(), f) == keep(a.notes(), begun(at)));
    assert(keep(b.notes(), f) == keep(b.notes(), begun(at)));
}

proof fn lemma_same_reach(a: Seq<Note>, b: Seq<Note>, k: int, j: int)
    requires
        0 <= j <= k < a.len(),
        k < b.len(),
        forall|i: int| 0 <= i <= k ==> a[i] == b[i],
    ensures
        reach_start(a, k, j) == reach_start(b, k, j),
        0 <= reach_start(a, k, j) <= j,
    decreases j,
{
    if 0 < j && a[j - 1].off > a[k].on - REACH {
        lemma_same_reach(a, b, k, j - 1);
    }
}

proof fn lemma_same_window(a: Seq<Note>, b: Seq<Note>, tick: Tick, from: int, to: int)
    requires
        0 <= from,
        to <= a.len(),
        to <= b.len(),
        forall|i: int| 0 <= i < to ==> #[trigger] a[i] == b[i],
    ensures
        window_of(a, tick, from, to) == window_of(b, tick, from, to),
    decreases to - from,
{
    if from < to {
        lemma_same_window(a, b, tick, from, to - 1);
        let pitch = a[to - 1].pitch;
        assert(has_pitch(a, from, to - 1, pitch) == has_pitch(b, from, to - 1, pitch)) by {
            if has_pitch(a, from, to - 1, pitch) {
                let j = choose|j: int| from <= j < to - 1 && (#[trigger] a[j]).pitch == pitch;
                assert(b[j].pitch == pitch);
            }
            if has_pitch(b, from, to - 1, pitch) {
                let j = choose|j: int| from <= j < to - 1 && (#[trigger] b[j]).pitch == pitch;
                assert(a[j].pitch == pitch);
            }
        }
    }
}

proof fn lemma_same_run(a: Seq<Note>, b: Seq<Note>, k: int)
    requires
        0 <= k < a.len(),
        k < b.len(),
        forall|i: int| 0 <= i <= k ==> #[trigger] a[i] == b[i],
    ensures
        run_start(a, k) == run_start(b, k),
    decreases k,
{
    assert(a[k] == b[k]);
    if 0 < k {
        assert(a[k - 1] == b[k - 1]);
        lemma_same_run(a, b, k - 1);
    }
}

proof fn lemma_one_crowd(a: Crowd, b: Crowd)
    requires
        a@ == b@,
    ensures
        a == b,
{
}

/// What is counted of a note rests on nothing that begins behind it: where further notes come to
/// the ends of the parts of a score, all behind a tick, the rows of the notes up to that tick
/// are the same.
pub proof fn law_rows_look_back(
    a: ScoreView,
    b: ScoreView,
    tick: Tick,
    t: int,
    p: int,
    k: int,
    row: Row,
    other: Row,
)
    requires
        extends(a, b, tick),
        0 <= t < a.tracks.len(),
        0 <= p < a.tracks[t].parts.len(),
        0 <= k < a.tracks[t].parts[p].len(),
        a.tracks[t].parts[p][k].on <= tick,
        is_row(row, a.notes(), a.tracks[t].parts[p], k),
        is_row(other, b.notes(), b.tracks[t].parts[p], k),
    ensures
        row == other,
{
    let x = a.tracks[t].parts[p];
    let y = b.tracks[t].parts[p];
    assert(all_go_on(a.tracks[t].parts, b.tracks[t].parts, tick));
    assert(goes_on(x, y, tick));
    assert forall|i: int| 0 <= i <= k implies #[trigger] x[i] == y[i] by {
        assert(y.take(x.len() as int)[i] == y[i]);
    }
    let note = x[k];
    assert(y[k] == note);
    if k > 0 {
        assert(x[k - 1] == y[k - 1]);
    }
    lemma_same_crowd(a, b, tick, note.on, true, note.pitch);
    lemma_same_crowd(a, b, tick, note.on, false, note.pitch);
    lemma_same_reach(x, y, k, k);
    lemma_same_window(x, y, note.on, reach_start(x, k, k), k);
    lemma_same_run(x, y, k);
    lemma_one_crowd(row.attack, other.attack);
    lemma_one_crowd(row.sounding, other.sounding);
}

/// Where the row of a note stands among all rows.
pub open spec fn row_place(score: ScoreView, t: int, p: int, k: int) -> int {
    notes_before(score.tracks, t) + notes_in(score.tracks[t].parts, p) + k
}

proof fn lemma_place_in_parts(parts: Seq<Seq<Note>>, n: int)
    requires
        0 <= n <= parts.len(),
    ensures
        flat(parts.take(n)).len() == notes_in(parts, n),
    decreases n,
{
    if n == 0 {
        assert(parts.take(0) =~= Seq::<Seq<Note>>::empty());
    } else {
        lemma_place_in_parts(parts, n - 1);
        assert(parts.take(n).drop_last() =~= parts.take(n - 1));
        assert(parts.take(n).last() == parts[n - 1]);
    }
}

proof fn lemma_flat_prefix(lists: Seq<Seq<Note>>, n: int, m: int, k: int)
    requires
        0 <= n < m <= lists.len(),
        0 <= k < lists[n].len(),
    ensures
        flat(lists.take(n)).len() + k < flat(lists.take(m)).len(),
        flat(lists.take(m))[flat(lists.take(n)).len() + k] == lists[n][k],
    decreases m,
{
    assert(lists.take(m).drop_last() =~= lists.take(m - 1));
    assert(lists.take(m).last() == lists[m - 1]);
    if n < m - 1 {
        lemma_flat_prefix(lists, n, m - 1, k);
    }
}

proof fn lemma_place_in_tracks(tracks: Seq<TrackView>, n: int)
    requires
        0 <= n <= tracks.len(),
    ensures
        flat(Seq::new(tracks.len(), |i: int| flat(tracks[i].parts)).take(n)).len() == notes_before(
            tracks,
            n,
        ),
    decreases n,
{
    let lists = Seq::new(tracks.len(), |i: int| flat(tracks[i].parts));
    if n == 0 {
        assert(lists.take(0) =~= Seq::<Seq<Note>>::empty());
    } else {
        lemma_place_in_tracks(tracks, n - 1);
        let parts = tracks[n - 1].parts;
        lemma_place_in_parts(parts, parts.len() as int);
        assert(parts.take(parts.len() as int) =~= parts);
        assert(lists.take(n).drop_last() =~= lists.take(n - 1));
        assert(lists.take(n).last() == flat(parts));
    }
}

/// There is one row for each note of a score, in the order of all its notes.
pub proof fn law_rows_follow_notes(score: ScoreView, t: int, p: int, k: int)
    requires
        0 <= t < score.tracks.len(),
        0 <= p < score.tracks[t].parts.len(),
        0 <= k < score.tracks[t].parts[p].len(),
    ensures
        notes_before(score.tracks, score.tracks.len() as int) == score.notes().len(),
        0 <= row_place(score, t, p, k) < score.notes().len(),
        score.notes()[row_place(score, t, p, k)] == score.tracks[t].parts[p][k],
{
    let n = score.tracks.len() as int;
    let lists = Seq::new(score.tracks.len(), |i: int| flat(score.tracks[i].parts));
    let parts = score.tracks[t].parts;
    lemma_place_in_tracks(score.tracks, n);
    lemma_place_in_tracks(score.tracks, t);
    lemma_place_in_parts(parts, p);
    assert(lists.take(n) =~= lists);
    assert(parts.take(parts.len() as int) =~= parts);
    lemma_flat_prefix(parts, p, parts.len() as int, k);
    let inner = notes_in(parts, p) + k;
    assert(lists[t] == flat(parts));
    lemma_flat_prefix(lists, t, n, inner);
}

/// The rows that are found for two scores, one of which goes on from the other, are the same for
/// the notes up to the tick behind which the further notes begin.
pub proof fn law_features_look_back(
    a: ScoreView,
    b: ScoreView,
    tick: Tick,
    rows: Seq<Row>,
    others: Seq<Row>,
    t: int,
    p: int,
    k: int,
)
    requires
        extends(a, b, tick),
        are_score_rows(rows, a, a.tracks.len() as int),
        are_score_rows(others, b, b.tracks.len() as int),
        0 <= t < a.tracks.len(),
        0 <= p < a.tracks[t].parts.len(),
        0 <= k < a.tracks[t].parts[p].len(),
        a.tracks[t].parts[p][k].on <= tick,
    ensures
        rows[row_place(a, t, p, k)] == others[row_place(b, t, p, k)],
{
    let x = a.tracks[t].parts;
    let y = b.tracks[t].parts;
    assert(all_go_on(x, y, tick));
    assert(goes_on(x[p], y[p], tick));
    assert(are_track_rows(rows, notes_before(a.tracks, t), a.notes(), x, x.len() as int));
    assert(are_track_rows(others, notes_before(b.tracks, t), b.notes(), y, y.len() as int));
    assert(are_rows(
        rows,
        notes_before(a.tracks, t) + notes_in(x, p),
        a.notes(),
        x[p],
        x[p].len() as int,
    ));
    assert(are_rows(
        others,
        notes_before(b.tracks, t) + notes_in(y, p),
        b.notes(),
        y[p],
        y[p].len() as int,
    ));
    assert(is_row(rows[row_place(a, t, p, k)], a.notes(), x[p], k));
    assert(is_row(others[row_place(b, t, p, k)], b.notes(), y[p], k));
    law_rows_look_back(
        a,
        b,
        tick,
        t,
        p,
        k,
        rows[row_place(a, t, p, k)],
        others[row_place(b, t, p, k)],
    );
}

} // verus!
