//! A scroll goes at the tempo of the score that it is cut from.
use crate::chunk::{chunk_fault, chunk_texts, inner_tempos, lemma_no_fault, local_tempos, tempo_at};
use crate::frame::{chunk_head, has_tempos, tempo_line, tempo_text};
use crate::lossless::{law_track_reads_back, lemma_empty_track, tempos_together, written_parts, written_texts};
use crate::numerals::law_number_reads_back;
use crate::order::{lemma_sort_sorted, sorted_by};
use crate::score::{tempo_event, tempo_key, ticks_ascend, track_tempos, with_all, with_events, with_head, with_line, with_tempo, ScoreView, Tempo, Tick, TrackView};
use crate::scroll::{renumbered, scroll_of, scroll_tracks};
use crate::storage::law_joined_pieces;
use crate::text::{begins_with, index_of, is_digit_char, joined, lemma_index_of, number_text};
use crate::writer::part_text;
use vstd::prelude::*;

verus! {

/// Whether a tempo has come by a tick, and no other that has come by then is later.
pub open spec fn is_latest(tempos: Seq<Tempo>, tick: int, i: int) -> bool {
    &&& 0 <= i < tempos.len()
    &&& tempos[i].0 <= tick
    &&& forall|j: int|
        0 <= j < tempos.len() && (#[trigger] tempos[j]).0 <= tick ==> tempos[j].0 <= tempos[i].0
}

/// Whether a score goes at some beats per minute at a tick: at those of the latest tempo that
/// has come by then, and at 120 where none has.
pub open spec fn in_force(tempos: Seq<Tempo>, tick: int, bpm: i32) -> bool {
    ||| exists|i: int| #[trigger] is_latest(tempos, tick, i) && tempos[i].1 == bpm
    ||| bpm == 120 && forall|i: int| 0 <= i < tempos.len() ==> (#[trigger] tempos[i]).0 > tick
}

pub(crate) proof fn lemma_tempo_at(tempos: Seq<Tempo>, tick: int)
    requires
        ticks_ascend(tempos),
    ensures
        in_force(tempos, tick, tempo_at(tempos, tick)),
        forall|bpm: i32| #[trigger] in_force(tempos, tick, bpm) ==> bpm == tempo_at(tempos, tick),
    decreases tempos.len(),
{
    let n = tempos.len() as int;
    if n > 0 {
        if tempos.last().0 <= tick {
            assert(is_latest(tempos, tick, n - 1));
            assert forall|bpm: i32| #[trigger] in_force(tempos, tick, bpm) implies bpm == tempo_at(
                tempos,
                tick,
            ) by {
                assert(tempos[n - 1].0 <= tick);
                let i = choose|i: int| #[trigger] is_latest(tempos, tick, i) && tempos[i].1 == bpm;
                assert(tempos[n - 1].0 <= tempos[i].0);
            }
        } else {
            let front = tempos.drop_last();
            lemma_tempo_at(front, tick);
            assert forall|bpm: i32| in_force(front, tick, bpm) implies #[trigger] in_force(
                tempos,
                tick,
                bpm,
            ) by {
                if exists|i: int| #[trigger] is_latest(front, tick, i) && front[i].1 == bpm {
                    let i = choose|i: int| #[trigger] is_latest(front, tick, i) && front[i].1 == bpm;
                    assert forall|j: int|
                        0 <= j < tempos.len() && (#[trigger] tempos[j]).0 <= tick implies tempos[j].0
                        <= tempos[i].0 by {
                        assert(j < n - 1);
                        assert(front[j] == tempos[j]);
                    }
                    assert(is_latest(tempos, tick, i));
                } else {
                    assert forall|i: int| 0 <= i < tempos.len() implies (#[trigger] tempos[i]).0
                        > tick by {
                        if i < n - 1 {
                            assert(front[i] == tempos[i]);
                        }
                    }
                }
            }
            assert forall|bpm: i32| #[trigger] in_force(tempos, tick, bpm) implies in_force(
                front,
                tick,
                bpm,
            ) by {
                if exists|i: int| #[trigger] is_latest(tempos, tick, i) && tempos[i].1 == bpm {
                    let i = choose|i: int|
                        #[trigger] is_latest(tempos, tick, i) && tempos[i].1 == bpm;
                    assert(front[i] == tempos[i]);
                    assert forall|j: int|
                        0 <= j < front.len() && (#[trigger] front[j]).0 <= tick implies front[j].0
                        <= front[i].0 by {
                        assert(front[j] == tempos[j]);
                    }
                    assert(is_latest(front, tick, i));
                } else {
                    assert forall|i: int| 0 <= i < front.len() implies (#[trigger] front[i]).0
                        > tick by {
                        assert(front[i] == tempos[i]);
                    }
                }
            }
        }
    }
}

/// Those tempos of a score that come between two ticks are those of its scroll, each as far from
/// the first tick as it is.
proof fn lemma_inner(tempos: Seq<Tempo>, a: int, b: int)
    requires
        ticks_ascend(tempos),
        0 <= a <= b <= i64::MAX,
    ensures
        ticks_ascend(inner_tempos(tempos, a, b)),
        forall|k: int|
            0 <= k < inner_tempos(tempos, a, b).len() ==> 0 < (#[trigger] inner_tempos(
                tempos,
                a,
                b,
            )[k]).0 < b - a && exists|j: int|
                0 <= j < tempos.len() && #[trigger] tempos[j] == (
                    (inner_tempos(tempos, a, b)[k].0 + a) as Tick,
                    inner_tempos(tempos, a, b)[k].1,
                ),
        forall|j: int|
            0 <= j < tempos.len() && a < (#[trigger] tempos[j]).0 < b ==> inner_tempos(
                tempos,
                a,
                b,
            ).contains(((tempos[j].0 - a) as Tick, tempos[j].1)),
    decreases tempos.len(),
{
    let n = tempos.len() as int;
    if n > 0 {
        let front = tempos.drop_last();
        lemma_inner(front, a, b);
        let before = inner_tempos(front, a, b);
        let all = inner_tempos(tempos, a, b);
        assert forall|k: int| 0 <= k < all.len() implies 0 < (#[trigger] all[k]).0 < b - a
            && exists|j: int|
            0 <= j < tempos.len() && #[trigger] tempos[j] == ((all[k].0 + a) as Tick, all[k].1) by {
            if k < before.len() {
                assert(all[k] == before[k]);
                let j = choose|j: int|
                    0 <= j < front.len() && #[trigger] front[j] == (
                        (before[k].0 + a) as Tick,
                        before[k].1,
                    );
                assert(tempos[j] == front[j]);
            } else {
                assert(tempos[n - 1] == ((all[k].0 + a) as Tick, all[k].1));
            }
        }
        assert forall|j: int| 0 <= j < tempos.len() && a < (#[trigger] tempos[j]).0 < b implies all.contains(
            ((tempos[j].0 - a) as Tick, tempos[j].1),
        ) by {
            if j < n - 1 {
                assert(front[j] == tempos[j]);
                let x = ((tempos[j].0 - a) as Tick, tempos[j].1);
                assert(before.contains(x));
                let k = choose|k: int| 0 <= k < before.len() && before[k] == x;
                assert(all[k] == x);
            } else {
                assert(all[all.len() - 1] == ((tempos[j].0 - a) as Tick, tempos[j].1));
            }
        }
        assert forall|i: int, j: int|
            #![trigger all[i], all[j]]
            0 <= i < j < all.len() implies all[i].0 < all[j].0 by {
            assert(all[i] == before[i]);
            if j < before.len() {
                assert(all[j] == before[j]);
            } else {
                let q = choose|q: int|
                    0 <= q < front.len() && #[trigger] front[q] == (
                        (before[i].0 + a) as Tick,
                        before[i].1,
                    );
                assert(tempos[q] == front[q]);
                assert(tempos[q].0 < tempos[n - 1].0);
            }
        }
    }
}

/// At every tick a scroll goes at the tempo at which the score goes there, from its first tick on
/// and up to its last, and no tempo of it lies outside.
pub proof fn law_scroll_keeps_tempo(tempos: Seq<Tempo>, a: int, b: int, t: int, bpm: i32)
    requires
        ticks_ascend(tempos),
        0 <= a <= t < b <= i64::MAX,
    ensures
        in_force(local_tempos(tempos, a, b), t - a, bpm) <==> in_force(tempos, t, bpm),
        local_tempos(tempos, a, b)[0].0 == 0,
        ticks_ascend(local_tempos(tempos, a, b)),
        forall|k: int|
            0 <= k < local_tempos(tempos, a, b).len() ==> 0 <= (#[trigger] local_tempos(
                tempos,
                a,
                b,
            )[k]).0 < b - a,
{
    let inner = inner_tempos(tempos, a, b);
    let local = local_tempos(tempos, a, b);
    lemma_inner(tempos, a, b);
    lemma_tempo_at(tempos, a);
    lemma_tempo_at(tempos, t);
    assert forall|k: int| 0 <= k < local.len() implies 0 <= (#[trigger] local[k]).0 < b - a by {
        if k > 0 {
            assert(local[k] == inner[k - 1]);
        }
    }
    assert forall|i: int, j: int|
        #![trigger local[i], local[j]]
        0 <= i < j < local.len() implies local[i].0 < local[j].0 by {
        assert(local[j] == inner[j - 1]);
        if i > 0 {
            assert(local[i] == inner[i - 1]);
        }
    }
    lemma_tempo_at(local, t - a);
    let own = tempo_at(local, t - a);
    assert(in_force(tempos, t, own)) by {
        assert(local[0].0 <= t - a);
        let i = choose|i: int| #[trigger] is_latest(local, t - a, i) && local[i].1 == own;
        assert(is_latest(local, t - a, i));
        if i > 0 {
            assert(local[i] == inner[i - 1]);
            let q = choose|q: int|
                0 <= q < tempos.len() && #[trigger] tempos[q] == (
                    (inner[i - 1].0 + a) as Tick,
                    inner[i - 1].1,
                );
            assert forall|j: int| 0 <= j < tempos.len() && (#[trigger] tempos[j]).0 <= t implies tempos[j].0
                <= tempos[q].0 by {
                if tempos[j].0 > a {
                    let x = ((tempos[j].0 - a) as Tick, tempos[j].1);
                    assert(inner.contains(x));
                    let k = choose|k: int| 0 <= k < inner.len() && inner[k] == x;
                    assert(local[k + 1] == x);
                    assert(local[k + 1].0 <= local[i].0);
                }
            }
            assert(is_latest(tempos, t, q));
        } else {
            assert forall|j: int| 0 <= j < tempos.len() && (#[trigger] tempos[j]).0 <= t implies tempos[j].0
                <= a by {
                if tempos[j].0 > a {
                    let x = ((tempos[j].0 - a) as Tick, tempos[j].1);
                    assert(inner.contains(x));
                    let k = choose|k: int| 0 <= k < inner.len() && inner[k] == x;
                    assert(local[k + 1] == x);
                    assert(local[k + 1].0 <= local[i].0);
                }
            }
            if exists|q: int| #[trigger] is_latest(tempos, a, q) && tempos[q].1 == own {
                let q = choose|q: int| #[trigger] is_latest(tempos, a, q) && tempos[q].1 == own;
                assert(is_latest(tempos, t, q));
            } else {
                assert(in_force(tempos, a, own));
                assert forall|q: int| 0 <= q < tempos.len() implies (#[trigger] tempos[q]).0 > t by {
                    assert(tempos[q].0 > a);
                }
            }
        }
    }
}

proof fn lemma_with_all_own(tempos: Seq<Tempo>, n: int)
    requires
        ticks_ascend(tempos),
        0 <= n <= tempos.len(),
    ensures
        with_all(Seq::empty(), tempos.take(n)) == tempos.take(n),
    decreases n,
{
    let part = tempos.take(n);
    if n > 0 {
        lemma_with_all_own(tempos, n - 1);
        assert(part.drop_last() =~= tempos.take(n - 1));
        if n > 1 {
            assert(tempos[n - 2].0 < tempos[n - 1].0);
        }
        assert(part.drop_last().push(part.last()) =~= part);
    } else {
        assert(part =~= Seq::<Tempo>::empty());
    }
}

/// A tempo that is there already changes nothing.
proof fn lemma_with_tempo_there(tempos: Seq<Tempo>, k: int)
    requires
        ticks_ascend(tempos),
        0 <= k < tempos.len(),
    ensures
        with_tempo(tempos, tempos[k]) == tempos,
    decreases tempos.len(),
{
    let n = tempos.len() as int;
    if k == n - 1 {
        assert(tempos.drop_last().push(tempos[k]) =~= tempos);
    } else {
        assert(tempos[k].0 < tempos[n - 1].0);
        lemma_with_tempo_there(tempos.drop_last(), k);
        assert(tempos.drop_last().push(tempos.last()) =~= tempos);
    }
}

proof fn lemma_with_all_again(tempos: Seq<Tempo>, n: int)
    requires
        ticks_ascend(tempos),
        0 <= n <= tempos.len(),
    ensures
        with_all(tempos, tempos.take(n)) == tempos,
    decreases n,
{
    if n > 0 {
        lemma_with_all_again(tempos, n - 1);
        assert(tempos.take(n).drop_last() =~= tempos.take(n - 1));
        lemma_with_tempo_there(tempos, n - 1);
    }
}

proof fn lemma_together(score: ScoreView, tempos: Seq<Tempo>, ti: int, a: int, b: int, short: bool, n: int)
    requires
        ticks_ascend(local_tempos(tempos, a, b)),
        0 < n <= score.tracks[ti].parts.len(),
    ensures
        tempos_together(written_parts(score, tempos, ti, a, b, short), n) == local_tempos(
            tempos,
            a,
            b,
        ),
    decreases n,
{
    let parts = written_parts(score, tempos, ti, a, b, short);
    let local = local_tempos(tempos, a, b);
    let key = |t: Tempo| tempo_key(t);
    if n == 1 {
        assert(sorted_by(local, key));
        lemma_sort_sorted(local, key);
        assert(parts[0].tempos == local);
        lemma_with_all_own(local, local.len() as int);
        assert(local.take(local.len() as int) =~= local);
        assert(tempos_together(parts, 0) == Seq::<Tempo>::empty());
    } else {
        lemma_together(score, tempos, ti, a, b, short, n - 1);
        assert(parts[n - 1].tempos == Seq::<Tempo>::empty());
        assert(sorted_by(Seq::<Tempo>::empty(), key));
        lemma_sort_sorted(Seq::<Tempo>::empty(), key);
    }
}

proof fn lemma_tracks_go(
    score: ScoreView,
    tempos: Seq<Tempo>,
    a: int,
    b: int,
    reference: bool,
    n: int,
)
    requires
        chunk_fault(score, tempos, 0, a, b, reference) is None,
        ticks_ascend(local_tempos(tempos, a, b)),
        0 <= n <= score.tracks.len(),
        scroll_tracks(score, chunk_texts(score, tempos, a, b, reference), reference, n) is Ok,
    ensures
        ({
            let tracks = scroll_tracks(
                score,
                chunk_texts(score, tempos, a, b, reference),
                reference,
                n,
            )->Ok_0;
            tracks.len() == n && forall|ti: int|
                0 <= ti < n ==> (#[trigger] tracks[ti]).tempos == if score.tracks[ti].parts.len() > 0 {
                    local_tempos(tempos, a, b)
                } else {
                    Seq::empty()
                }
        }),
    decreases n,
{
    let texts = chunk_texts(score, tempos, a, b, reference);
    if n > 0 {
        lemma_tracks_go(score, tempos, a, b, reference, n - 1);
        let ti = n - 1;
        let meta = score.tracks[ti].meta;
        let noted = if reference {
            renumbered(meta, ti)
        } else {
            meta
        };
        if score.tracks[ti].parts.len() == 0 {
            assert(texts[ti] =~= Seq::<Seq<char>>::empty());
            lemma_empty_track(noted, ti as usize);
        } else {
            let parts = written_parts(score, tempos, ti, a, b, reference);
            assert forall|i: int| 0 <= i < parts.len() implies part_text(
                (#[trigger] parts[i]).notes,
                parts[i].tempos,
                parts[i].total,
            ) is Ok by {
                lemma_no_fault(score, tempos, 0, ti, i, a, b, reference);
            }
            assert(written_texts(parts) =~= texts[ti]);
            law_track_reads_back(parts, noted, ti as usize);
            lemma_together(score, tempos, ti, a, b, reference, parts.len() as int);
        }
    }
}

proof fn lemma_event(tempo: Tempo)
    requires
        0 <= tempo.0,
        0 < tempo.1,
    ensures
        tempo_event(tempo_text(tempo)) == Some(tempo),
        !tempo_text(tempo).contains(','),
{
    let x = number_text(tempo.0 as int);
    let y = number_text(tempo.1 as int);
    let s = tempo_text(tempo);
    law_number_reads_back(tempo.0 as int);
    law_number_reads_back(tempo.1 as int);
    assert(s =~= x + seq!['T'] + y);
    lemma_index_of(s, 'T', 0);
    let i = index_of(s, 'T', 0);
    assert(s[x.len() as int] == 'T');
    assert(i == x.len()) by {
        if i < x.len() {
            assert(s[i] == x[i]);
            assert(is_digit_char(x[i]));
        }
    }
    assert(s.take(i) =~= x);
    assert(s.skip(i + 1) =~= y);
    if s.contains(',') {
        let k = choose|k: int| 0 <= k < s.len() && s[k] == ',';
        if k < x.len() {
            assert(is_digit_char(x[k]));
        } else if k > x.len() {
            assert(is_digit_char(y[k - x.len() - 1]));
        }
    }
}

proof fn lemma_events(tempos: Seq<Tempo>, list: Seq<Tempo>, n: int)
    requires
        0 <= n <= list.len(),
        forall|k: int| 0 <= k < list.len() ==> 0 <= (#[trigger] list[k]).0 && 0 < list[k].1,
    ensures
        with_events(tempos, list.map_values(|t: Tempo| tempo_text(t)), n) == with_all(
            tempos,
            list.take(n),
        ),
    decreases n,
{
    if n > 0 {
        lemma_events(tempos, list, n - 1);
        assert(0 <= list[n - 1].0);
        lemma_event(list[n - 1]);
        assert(list.take(n).drop_last() =~= list.take(n - 1));
    }
}

/// The line in which the head of a scroll writes its tempos reads as these.
proof fn lemma_line(before: Seq<Tempo>, tempos: Seq<Tempo>, a: int, b: int)
    requires
        forall|k: int|
            0 <= k < local_tempos(tempos, a, b).len() ==> 0 <= (#[trigger] local_tempos(
                tempos,
                a,
                b,
            )[k]).0 && 0 < local_tempos(tempos, a, b)[k].1,
    ensures
        with_line(before, tempo_line(tempos, a, b)) == with_all(
            before,
            local_tempos(tempos, a, b),
        ),
        begins_with(tempo_line(tempos, a, b), "tempo="@),
{
    let local = local_tempos(tempos, a, b);
    let texts = local.map_values(|t: Tempo| tempo_text(t));
    let line = tempo_line(tempos, a, b);
    let mark = "tempo="@;
    assert(line.take(mark.len() as int) =~= mark);
    assert(line.skip(mark.len() as int) =~= joined(texts, ','));
    assert forall|i: int| 0 <= i < texts.len() implies !(#[trigger] texts[i]).contains(',') by {
        assert(0 <= local[i].0);
        lemma_event(local[i]);
    }
    law_joined_pieces(texts, ',');
    lemma_events(before, local, local.len() as int);
    assert(local.take(local.len() as int) =~= local);
}

proof fn lemma_head(before: Seq<Tempo>, head: Seq<Seq<char>>, tempos: Seq<Tempo>, a: int, b: int, n: int)
    requires
        0 <= n <= chunk_head(head, tempos, a, b).len(),
        ticks_ascend(local_tempos(tempos, a, b)),
        before == Seq::<Tempo>::empty() || before == local_tempos(tempos, a, b),
        forall|k: int|
            0 <= k < local_tempos(tempos, a, b).len() ==> 0 <= (#[trigger] local_tempos(
                tempos,
                a,
                b,
            )[k]).0 && 0 < local_tempos(tempos, a, b)[k].1,
    ensures
        ({
            let now = with_head(before, chunk_head(head, tempos, a, b), n);
            &&& now == before || now == local_tempos(tempos, a, b)
            &&& (exists|k: int|
                0 <= k < n && begins_with(
                    #[trigger] chunk_head(head, tempos, a, b)[k],
                    "tempo="@,
                )) ==> now == local_tempos(tempos, a, b)
        }),
    decreases n,
{
    let local = local_tempos(tempos, a, b);
    let lines = chunk_head(head, tempos, a, b);
    if n > 0 {
        lemma_head(before, head, tempos, a, b, n - 1);
        lemma_line(with_head(before, lines, n - 1), tempos, a, b);
        lemma_with_all_own(local, local.len() as int);
        lemma_with_all_again(local, local.len() as int);
        assert(local.take(local.len() as int) =~= local);
    }
}

proof fn lemma_has_line(lines: Seq<Seq<char>>, n: int)
    requires
        has_tempos(lines, n),
        n <= lines.len(),
    ensures
        exists|k: int| 0 <= k < n && begins_with(#[trigger] lines[k], "tempo="@),
    decreases n,
{
    if !begins_with(lines[n - 1], "tempo="@) {
        lemma_has_line(lines, n - 1);
    }
}

proof fn lemma_track_tempos(tracks: Seq<TrackView>, local: Seq<Tempo>, n: int)
    requires
        0 <= n <= tracks.len(),
        ticks_ascend(local),
        forall|ti: int|
            0 <= ti < n ==> (#[trigger] tracks[ti]).tempos == local || tracks[ti].tempos == Seq::<
                Tempo,
            >::empty(),
    ensures
        track_tempos(tracks, n) == local || track_tempos(tracks, n) == Seq::<Tempo>::empty(),
    decreases n,
{
    if n > 0 {
        lemma_track_tempos(tracks, local, n - 1);
        lemma_with_all_own(local, local.len() as int);
        lemma_with_all_again(local, local.len() as int);
        assert(local.take(local.len() as int) =~= local);
        assert(tracks[n - 1].tempos == local || tracks[n - 1].tempos == Seq::<Tempo>::empty());
    }
}

/// A scroll is a score of its own that goes as the one that it is cut from: at every tick the
/// tempos that its head and its tracks write put the same beats per minute in force, and so do
/// those of each track alone.
pub proof fn law_scroll_plays_alone(
    score: ScoreView,
    tempos: Seq<Tempo>,
    a: int,
    b: int,
    limit: int,
    reference: bool,
    t: int,
    bpm: i32,
)
    requires
        ticks_ascend(tempos),
        forall|k: int| 0 <= k < tempos.len() ==> (#[trigger] tempos[k]).1 > 0,
        0 <= a <= t < b <= i64::MAX,
        scroll_of(score, tempos, a, b, limit, reference) is Ok,
    ensures
        ({
            let scroll = scroll_of(score, tempos, a, b, limit, reference)->Ok_0.score;
            &&& in_force(scroll.all_tempos(), t - a, bpm) <==> in_force(tempos, t, bpm)
            &&& forall|ti: int|
                0 <= ti < score.tracks.len() && score.tracks[ti].parts.len() > 0 ==> (in_force(
                    (#[trigger] scroll.tracks[ti]).tempos,
                    t - a,
                    bpm,
                ) <==> in_force(tempos, t, bpm))
        }),
{
    let local = local_tempos(tempos, a, b);
    let scroll = scroll_of(score, tempos, a, b, limit, reference)->Ok_0.score;
    let n = score.tracks.len() as int;
    law_scroll_keeps_tempo(tempos, a, b, t, bpm);
    lemma_tracks_go(score, tempos, a, b, reference, n);
    lemma_track_tempos(scroll.tracks, local, n);
    lemma_inner(tempos, a, b);
    lemma_tempo_at(tempos, a);
    assert forall|k: int| 0 <= k < local.len() implies 0 <= (#[trigger] local[k]).0 && 0
        < local[k].1 by {
        if k == 0 {
            let own = tempo_at(tempos, a);
            assert(in_force(tempos, a, own));
            if exists|i: int| #[trigger] is_latest(tempos, a, i) && tempos[i].1 == own {
                let i = choose|i: int| #[trigger] is_latest(tempos, a, i) && tempos[i].1 == own;
                assert(tempos[i].1 > 0);
            }
        } else {
            let inner = inner_tempos(tempos, a, b);
            assert(local[k] == inner[k - 1]);
            let j = choose|j: int|
                0 <= j < tempos.len() && #[trigger] tempos[j] == (
                    (inner[k - 1].0 + a) as Tick,
                    inner[k - 1].1,
                );
            assert(tempos[j].1 > 0);
        }
    }
    let head = score.head;
    let lines = chunk_head(head, tempos, a, b);
    lemma_line(Seq::empty(), tempos, a, b);
    lemma_head(track_tempos(scroll.tracks, n), head, tempos, a, b, lines.len() as int);
    assert(exists|k: int| 0 <= k < lines.len() && begins_with(#[trigger] lines[k], "tempo="@)) by {
        if has_tempos(head, head.len() as int) {
            lemma_has_line(head, head.len() as int);
            let k = choose|k: int|
                0 <= k < head.len() && begins_with(#[trigger] head[k], "tempo="@);
            assert(lines[k] == tempo_line(tempos, a, b));
        } else {
            assert(lines[lines.len() - 1] == tempo_line(tempos, a, b));
        }
    }
}

} // verus!
