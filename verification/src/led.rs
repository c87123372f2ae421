//! What stands out among notes, and what notes share.
use crate::attacks::{is_exact_span, is_writable, latest, lowest, pieces_writable, tempo_after};
use crate::chords::{bottom_of, median, next_below, top_of};
use crate::fold::WorkingNote;
use crate::musical::{band, band_size, from_high, high_first, nearest_centre, offset_of};
use crate::order::{key_less, lemma_stable_sort};
use crate::packing::{is_centre, Centre};
use crate::quiet::{is_piece, is_tempo_tick};
use crate::score::{ticks_ascend, Note, Tempo, Tick};
use crate::voicing::overlap_from;
use vstd::prelude::*;

verus! {

proof fn lemma_tempo_after(tempos: Seq<Tempo>, start: Tick, i: int)
    requires
        ticks_ascend(tempos),
        0 <= i <= tempos.len(),
        forall|k: int| 0 <= k < i ==> (#[trigger] tempos[k]).0 <= start,
    ensures
        i <= tempo_after(tempos, start, i) <= tempos.len(),
        forall|k: int| 0 <= k < tempo_after(tempos, start, i) ==> (#[trigger] tempos[k]).0 <= start,
        forall|k: int|
            tempo_after(tempos, start, i) <= k < tempos.len() ==> (#[trigger] tempos[k]).0 > start,
    decreases tempos.len() - i,
{
    if i < tempos.len() && tempos[i].0 <= start {
        lemma_tempo_after(tempos, start, i + 1);
    } else {
        assert forall|k: int| i <= k < tempos.len() implies (#[trigger] tempos[k]).0 > start by {
            if k > i {
                assert(tempos[i].0 < tempos[k].0);
            }
        }
    }
}

spec fn all_writable(tempos: Seq<Tempo>, start: Tick, from: Tick, end: Tick) -> bool {
    forall|p: int, q: int| #[trigger]
        is_piece(start as int, end as int, tempos, p, q) && from <= p ==> q - p >= 6
}

proof fn lemma_pieces(tempos: Seq<Tempo>, i: int, start: Tick, previous: Tick, end: Tick)
    requires
        ticks_ascend(tempos),
        0 <= i <= tempos.len(),
        start <= previous < end,
        previous == start || is_tempo_tick(tempos, previous as int),
        forall|k: int| 0 <= k < i ==> (#[trigger] tempos[k]).0 <= previous,
        forall|k: int| i <= k < tempos.len() ==> (#[trigger] tempos[k]).0 > previous,
    ensures
        pieces_writable(tempos, i, previous, end) <==> all_writable(tempos, start, previous, end),
    decreases tempos.len() - i,
{
    if i >= tempos.len() || tempos[i].0 >= end {
        assert forall|k: int| 0 <= k < tempos.len() implies !(previous < (#[trigger] tempos[k]).0 < end) by {
            if k > i {
                assert(tempos[i].0 < tempos[k].0);
            }
        }
        assert(is_piece(start as int, end as int, tempos, previous as int, end as int));
        assert forall|p: int, q: int| #[trigger]
            is_piece(start as int, end as int, tempos, p, q) && previous <= p implies p == previous && q
            == end by {
            if p != previous {
                let k = choose|k: int| 0 <= k < tempos.len() && (#[trigger] tempos[k]).0 == p;
                assert(!(previous < tempos[k].0 < end));
            }
            if q != end {
                let k = choose|k: int| 0 <= k < tempos.len() && (#[trigger] tempos[k]).0 == q;
                assert(!(previous < tempos[k].0 < end));
            }
        }
    } else {
        let tick = tempos[i].0;
        assert forall|k: int| 0 <= k < i + 1 implies (#[trigger] tempos[k]).0 <= tick by {}
        assert forall|k: int| i + 1 <= k < tempos.len() implies (#[trigger] tempos[k]).0 > tick by {
            assert(tempos[i].0 < tempos[k].0);
        }
        assert(is_tempo_tick(tempos, tick as int));
        lemma_pieces(tempos, i + 1, start, tick, end);
        assert(is_piece(start as int, end as int, tempos, previous as int, tick as int)) by {
            assert forall|k: int| 0 <= k < tempos.len() implies !(previous < (#[trigger] tempos[k]).0
                < tick) by {}
        }
        assert forall|p: int, q: int| #[trigger]
            is_piece(start as int, end as int, tempos, p, q) && previous <= p < tick implies p
            == previous && q == tick by {
            if p != previous {
                let k = choose|k: int| 0 <= k < tempos.len() && (#[trigger] tempos[k]).0 == p;
                assert(tempos[k].0 <= previous || tempos[k].0 >= tick);
            }
            assert(!(p < tempos[i].0 < q));
            if q != end && q != tick {
                let k = choose|k: int| 0 <= k < tempos.len() && (#[trigger] tempos[k]).0 == q;
                assert(tempos[k].0 <= previous || tempos[k].0 >= tick);
            }
        }
        if pieces_writable(tempos, i, previous, end) {
            assert(all_writable(tempos, start, previous, end)) by {
                assert forall|p: int, q: int| #[trigger]
                    is_piece(start as int, end as int, tempos, p, q) && previous <= p implies q - p >= 6 by {
                    assert(p < tick || tick <= p);
                }
            }
        }
        if all_writable(tempos, start, previous, end) {
            assert(all_writable(tempos, start, tick, end));
        }
    }
}

/// A stretch can be written exactly where every piece that tempos divide it into is as long as the
/// shortest note.
pub proof fn law_exact_spans(start: Tick, end: Tick, tempos: Seq<Tempo>)
    requires
        ticks_ascend(tempos),
        start < end,
    ensures
        is_exact_span(start, end, tempos) <==> forall|p: int, q: int| #[trigger]
            is_piece(start as int, end as int, tempos, p, q) ==> q - p >= 6,
{
    lemma_tempo_after(tempos, start, 0);
    lemma_pieces(tempos, tempo_after(tempos, start, 0), start, start, end);
    if forall|p: int, q: int| #[trigger]
        is_piece(start as int, end as int, tempos, p, q) ==> q - p >= 6 {
        assert(all_writable(tempos, start, start, end));
        lemma_whole(tempos, tempo_after(tempos, start, 0), start, end);
    }
    if is_exact_span(start, end, tempos) {
        assert forall|p: int, q: int| #[trigger] is_piece(start as int, end as int, tempos, p, q) implies q
            - p >= 6 by {
            assert(start <= p);
        }
    }
}

proof fn lemma_whole(tempos: Seq<Tempo>, i: int, previous: Tick, end: Tick)
    requires
        pieces_writable(tempos, i, previous, end),
        ticks_ascend(tempos),
        0 <= i <= tempos.len(),
        previous < end,
        forall|k: int| i <= k < tempos.len() ==> (#[trigger] tempos[k]).0 > previous,
    ensures
        is_writable(previous as int, end as int),
    decreases tempos.len() - i,
{
    if i < tempos.len() && tempos[i].0 < end {
        assert forall|k: int| i + 1 <= k < tempos.len() implies (#[trigger] tempos[k]).0 > tempos[i].0 by {
            assert(tempos[i].0 < tempos[k].0);
        }
        lemma_whole(tempos, i + 1, tempos[i].0, end);
    }
}

/// For how long two notes sound together.
pub open spec fn together(a: Note, b: Note) -> int {
    let from = if a.on > b.on {
        a.on
    } else {
        b.on
    };
    let to = if a.off < b.off {
        a.off
    } else {
        b.off
    };
    if to > from {
        to - from
    } else {
        0
    }
}

/// For how long a note sounds together with those of a voice from one on, taken one by one.
pub open spec fn with_voice(notes: Seq<Note>, x: Note, b: Seq<usize>, j: int) -> int
    decreases b.len() - j,
{
    if j < 0 || j >= b.len() {
        0
    } else {
        together(x, notes[b[j] as int]) + with_voice(notes, x, b, j + 1)
    }
}

/// For how long the notes of two voices, from one on in each, sound together, pair by pair.
pub open spec fn all_together(notes: Seq<Note>, a: Seq<usize>, b: Seq<usize>, i: int, j: int) -> int
    decreases a.len() - i,
{
    if i < 0 || i >= a.len() {
        0
    } else {
        with_voice(notes, notes[a[i] as int], b, j) + all_together(notes, a, b, i + 1, j)
    }
}

/// Whether the notes of a voice last and follow one another.
pub open spec fn is_voice(notes: Seq<Note>, ids: Seq<usize>) -> bool {
    &&& forall|k: int| 0 <= k < ids.len() ==> notes[(#[trigger] ids[k]) as int].on < notes[ids[k] as int].off
    &&& forall|k: int, m: int|
        #![trigger ids[k], ids[m]]
        0 <= k < m < ids.len() ==> notes[ids[k] as int].off <= notes[ids[m] as int].on
}

proof fn lemma_apart(notes: Seq<Note>, x: Note, b: Seq<usize>, j: int)
    requires
        0 <= j <= b.len(),
        forall|k: int| j <= k < b.len() ==> notes[(#[trigger] b[k]) as int].on >= x.off,
    ensures
        with_voice(notes, x, b, j) == 0,
    decreases b.len() - j,
{
    if j < b.len() {
        lemma_apart(notes, x, b, j + 1);
        assert(notes[b[j] as int].on >= x.off);
    }
}

proof fn lemma_column(notes: Seq<Note>, a: Seq<usize>, b: Seq<usize>, i: int, j: int)
    requires
        0 <= i <= a.len(),
        0 <= j < b.len(),
        forall|k: int|
            i <= k < a.len() ==> notes[(#[trigger] a[k]) as int].on >= notes[b[j] as int].off,
    ensures
        all_together(notes, a, b, i, j) == all_together(notes, a, b, i, j + 1),
    decreases a.len() - i,
{
    if i < a.len() {
        lemma_column(notes, a, b, i + 1, j);
        assert(notes[a[i] as int].on >= notes[b[j] as int].off);
    }
}

proof fn lemma_no_more(notes: Seq<Note>, a: Seq<usize>, b: Seq<usize>, i: int, j: int)
    requires
        0 <= i <= a.len(),
        j >= b.len(),
    ensures
        all_together(notes, a, b, i, j) == 0,
    decreases a.len() - i,
{
    if i < a.len() {
        lemma_no_more(notes, a, b, i + 1, j);
    }
}

proof fn lemma_overlap(notes: Seq<Note>, a: Seq<usize>, b: Seq<usize>, i: int, j: int)
    requires
        is_voice(notes, a),
        is_voice(notes, b),
        0 <= i <= a.len(),
        0 <= j <= b.len(),
    ensures
        overlap_from(notes, a, b, i, j) == all_together(notes, a, b, i, j),
    decreases a.len() - i + b.len() - j,
{
    if i >= a.len() {
    } else if j >= b.len() {
        lemma_no_more(notes, a, b, i, j);
    } else {
        let x = notes[a[i] as int];
        let y = notes[b[j] as int];
        lemma_overlap(notes, a, b, i + 1, j);
        lemma_overlap(notes, a, b, i, j + 1);
        assert(x.on < x.off && y.on < y.off);
        if x.off <= y.off {
            assert forall|k: int| j + 1 <= k < b.len() implies notes[(#[trigger] b[k]) as int].on >= x.off by {
                assert(notes[b[j] as int].off <= notes[b[k] as int].on);
            }
            lemma_apart(notes, x, b, j + 1);
        }
        if y.off <= x.off {
            assert forall|k: int| i + 1 <= k < a.len() implies notes[(#[trigger] a[k]) as int].on >= y.off by {
                assert(notes[a[i] as int].off <= notes[a[k] as int].on);
            }
            lemma_column(notes, a, b, i + 1, j);
        }
    }
}

/// Two voices overlap for as long as any note of the one sounds together with any of the other.
pub proof fn law_overlap(notes: Seq<Note>, a: Seq<usize>, b: Seq<usize>)
    requires
        is_voice(notes, a),
        is_voice(notes, b),
    ensures
        overlap_from(notes, a, b, 0, 0) == all_together(notes, a, b, 0, 0),
{
    lemma_overlap(notes, a, b, 0, 0);
}

/// The bass is the lowest note and of several the first, and what came last is the latest note and of
/// several the last.
pub proof fn law_lowest_and_latest(notes: Seq<Note>, core: Seq<(usize, usize)>, n: int, k: int)
    requires
        0 <= k < n <= core.len(),
    ensures
        0 <= lowest(notes, core, n) < n,
        0 <= latest(notes, core, n) < n,
        ({
            let low = notes[core[lowest(notes, core, n)].1 as int].pitch;
            let own = notes[core[k].1 as int].pitch;
            low < own || (low == own && lowest(notes, core, n) <= k)
        }),
        ({
            let late = notes[core[latest(notes, core, n)].1 as int].on;
            let own = notes[core[k].1 as int].on;
            late > own || (late == own && latest(notes, core, n) >= k)
        }),
    decreases n,
{
    if n > 1 {
        law_lowest_and_latest(notes, core, n - 1, if k < n - 1 {
            k
        } else {
            0
        });
    }
}

/// The highest and the lowest of some pitches are among them, and none lies beyond; the next below a
/// pitch is the highest of those below it.
pub proof fn law_outer_pitches(pitches: Seq<i32>, n: int, limit: int, k: int)
    requires
        0 <= k < n <= pitches.len(),
    ensures
        bottom_of(pitches, n) <= pitches[k] <= top_of(pitches, n),
        pitches.contains(top_of(pitches, n)),
        pitches.contains(bottom_of(pitches, n)),
        pitches[k] < limit ==> next_below(pitches, limit, n) is Some && pitches[k] <= next_below(
            pitches,
            limit,
            n,
        )->Some_0,
        next_below(pitches, limit, n) matches Some(p) ==> p < limit && pitches.contains(p),
    decreases n,
{
    assert(pitches.contains(pitches[n - 1]));
    assert(pitches.contains(pitches[0]));
    if n > 1 {
        law_outer_pitches(pitches, n - 1, limit, if k < n - 1 {
            k
        } else {
            0
        });
    } else {
        assert(next_below(pitches, limit, 0) is None);
    }
}

/// The middle one of three numbers is one of them, with no more than one on either side.
pub proof fn law_median(a: int, b: int, c: int)
    ensures
        ({
            let m = median(a, b, c);
            &&& m == a || m == b || m == c
            &&& (a <= m && b <= m) || (a <= m && c <= m) || (b <= m && c <= m)
            &&& (a >= m && b >= m) || (a >= m && c >= m) || (b >= m && c >= m)
        }),
{
}

/// Notes from high to low are cut into bands of even size: each note is in the band that its place
/// falls into, and no note of a later band is higher.
pub proof fn law_bands(notes: Seq<WorkingNote>, ids: Seq<usize>, bands: int, i: int, j: int)
    requires
        bands > 0,
        0 <= i <= j < ids.len(),
    ensures
        ({
            let sorted = from_high(notes, ids);
            let per = band_size(sorted.len() as int, bands);
            &&& sorted.len() == ids.len()
            &&& per > 0 && per * bands >= sorted.len()
            &&& 0 <= i % per < band(sorted, bands, i / per).len() <= per
            &&& band(sorted, bands, i / per)[i % per] == sorted[i]
            &&& notes[sorted[i] as int].note.pitch >= notes[sorted[j] as int].note.pitch
        }),
{
    let key = |i: usize| high_first(notes, i);
    lemma_stable_sort(ids, key);
    let sorted = from_high(notes, ids);
    let n = sorted.len() as int;
    let per = band_size(n, bands);
    assert(per > 0 && per * bands >= n) by (nonlinear_arith)
        requires
            per == (n + bands - 1) / bands,
            bands > 0,
            n > 0,
    ;
    assert(!key_less(key(sorted[j]), key(sorted[i])));
    let b = i / per;
    let r = i % per;
    vstd::arithmetic::div_mod::lemma_fundamental_div_mod(i, per);
    assert(0 <= r < per);
    assert(b * per + r == i) by (nonlinear_arith)
        requires
            i == per * b + r,
    ;
    assert((b + 1) * per == b * per + per) by (nonlinear_arith);
    assert(0 <= b * per) by (nonlinear_arith)
        requires
            b * per + r == i,
            i == per * b + r,
            0 <= r < per,
            i >= 0,
            per > 0,
            b == i / per,
    ;
}

pub(crate) proof fn lemma_ratios(a: int, m: int, b: int, n: int, c: int, k: int)
    requires
        m > 0,
        n > 0,
        k > 0,
        a * n <= b * m,
        b * k <= c * n,
    ensures
        a * k <= c * m,
{
    assert(a * k <= c * m) by (nonlinear_arith)
        requires
            m > 0,
            n > 0,
            k > 0,
            a * n <= b * m,
            b * k <= c * n,
    {
        assert((a * n) * k <= (b * m) * k);
        assert((b * k) * m <= (c * n) * m);
        assert((a * k) * n <= (c * m) * n);
    }
}

/// A note without a line belongs to the part whose middle is nearest to its pitch: that of no other
/// part is nearer.
pub proof fn law_nearest_middle(centres: Seq<Centre>, pitch: int, from: int, n: int, k: int)
    requires
        0 <= from <= k < n <= centres.len(),
        forall|i: int| 0 <= i < centres.len() ==> is_centre(#[trigger] centres[i]),
    ensures
        from <= nearest_centre(centres, pitch, from, n) < n,
        offset_of(centres[nearest_centre(centres, pitch, from, n)], pitch) * centres[k].len <= offset_of(
            centres[k],
            pitch,
        ) * centres[nearest_centre(centres, pitch, from, n)].len,
    decreases n - from,
{
    let last = n - 1;
    if n > from + 1 {
        let before = nearest_centre(centres, pitch, from, n - 1);
        law_nearest_middle(centres, pitch, from, n - 1, if k < last {
            k
        } else {
            from
        });
        assert(is_centre(centres[last]) && is_centre(centres[before]) && is_centre(centres[k]));
        if offset_of(centres[last], pitch) * centres[before].len < offset_of(centres[before], pitch)
            * centres[last].len {
            if k < last {
                lemma_ratios(
                    offset_of(centres[last], pitch),
                    centres[last].len as int,
                    offset_of(centres[before], pitch),
                    centres[before].len as int,
                    offset_of(centres[k], pitch),
                    centres[k].len as int,
                );
            }
        }
    }
}

} // verus!
