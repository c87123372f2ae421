//! Where a scroll ends rather than elsewhere.
use crate::cuts::{by_span, gaps_of, is_barred, silences};
use crate::order::{keep, key_less, lemma_stable_sort, stable_sort};
use crate::quiet::lemma_until;
use crate::score::{Note, ScoreView, Tempo, Tick};
use crate::scroll::{end_of_scroll, first_fitting, fits_between, gap_at, in_window, is_far_enough, is_near, last_fitting, latest_key, longest_key, preferred, SplitError, SplitOptions};
use vstd::prelude::*;

verus! {

proof fn lemma_keep<T>(s: Seq<T>, property: spec_fn(T) -> bool, x: T)
    ensures
        keep(s, property).contains(x) <==> s.contains(x) && property(x),
    decreases s.len(),
{
    if s.len() > 0 {
        let front = s.drop_last();
        let all = keep(s, property);
        let before = keep(front, property);
        lemma_keep(front, property, x);
        if all.contains(x) {
            let k = choose|k: int| 0 <= k < all.len() && all[k] == x;
            if k < before.len() {
                assert(before[k] == x);
                let m = choose|m: int| 0 <= m < front.len() && front[m] == x;
                assert(s[m] == x);
            } else {
                assert(s[s.len() - 1] == x);
            }
        }
        if s.contains(x) && property(x) {
            let m = choose|m: int| 0 <= m < s.len() && s[m] == x;
            if m < front.len() {
                assert(front[m] == x);
                let k = choose|k: int| 0 <= k < before.len() && before[k] == x;
                assert(all[k] == x);
            } else {
                assert(all[all.len() - 1] == x);
            }
        }
    }
}

proof fn lemma_silences(notes: Seq<Note>, n: int, least: int)
    requires
        0 <= n <= notes.len(),
    ensures
        forall|k: int|
            0 <= k < silences(notes, n, least).len() ==> (#[trigger] silences(notes, n, least)[k]).0 >= 0
                && silences(notes, n, least)[k].1 > 0,
    decreases n,
{
    if n > 0 {
        lemma_silences(notes, n - 1, least);
        lemma_until(notes, n - 1);
        let before = silences(notes, n - 1, least);
        let all = silences(notes, n, least);
        assert forall|k: int| 0 <= k < all.len() implies (#[trigger] all[k]).0 >= 0 && all[k].1 > 0 by {
            if k < before.len() {
                assert(all[k] == before[k]);
            }
        }
    }
}

/// Whether a scroll that begins at a tick may end where a silence begins, as far as its parts fit.
pub open spec fn may_end(
    score: ScoreView,
    tempos: Seq<Tempo>,
    total: int,
    options: SplitOptions,
    pos: int,
    best: int,
    dead: Set<int>,
    gap: (Tick, Tick),
) -> bool {
    &&& gaps_of(score.notes(), options.min_gap as int).contains(gap)
    &&& pos + 6 < gap.0 <= best
    &&& 1 <= gap.0 <= total
    &&& gap.0 == total || !is_barred(score, tempos, total, gap.0 as int)
    &&& !dead.contains(gap.0 as int)
    &&& fits_between(score, tempos, pos, gap.0 as int, options.limit as int) == Ok::<bool, SplitError>(
        true,
    )
}

/// Whether a silence begins in the last three twentieths of the way to the furthest cut.
pub open spec fn is_late(pos: int, best: int, gap: (Tick, Tick)) -> bool {
    100 * (gap.0 - pos) >= 85 * (best - pos)
}

/// Whether a silence is a long one that begins behind the first two fifths of the way.
pub open spec fn is_long(pos: int, best: int, big: int, gap: (Tick, Tick)) -> bool {
    10 * (gap.0 - pos) >= 4 * (best - pos) && gap.1 >= big
}

spec fn found(
    score: ScoreView,
    tempos: Seq<Tempo>,
    pos: int,
    limit: int,
    list: Seq<(Tick, Tick)>,
    i: int,
    k: int,
) -> bool {
    &&& i <= k < list.len()
    &&& fits_between(score, tempos, pos, list[k].0 as int, limit) == Ok::<bool, SplitError>(true)
    &&& forall|j: int|
        i <= j < k ==> fits_between(score, tempos, pos, (#[trigger] list[j]).0 as int, limit) == Ok::<
            bool,
            SplitError,
        >(false)
}

proof fn lemma_first_fitting(
    score: ScoreView,
    tempos: Seq<Tempo>,
    pos: int,
    best: int,
    limit: int,
    list: Seq<(Tick, Tick)>,
    i: int,
) -> (k: int)
    requires
        0 <= i <= list.len(),
        first_fitting(score, tempos, pos, best, limit, list, i) is Ok,
    ensures
        i <= k <= list.len(),
        k < list.len() ==> found(score, tempos, pos, limit, list, i, k) && first_fitting(
            score,
            tempos,
            pos,
            best,
            limit,
            list,
            i,
        ) == Ok::<int, SplitError>(list[k].0 as int),
        k == list.len() ==> first_fitting(score, tempos, pos, best, limit, list, i) == Ok::<
            int,
            SplitError,
        >(best) && forall|j: int|
            i <= j < list.len() ==> fits_between(
                score,
                tempos,
                pos,
                (#[trigger] list[j]).0 as int,
                limit,
            ) == Ok::<bool, SplitError>(false),
    decreases list.len() - i,
{
    if i >= list.len() {
        i
    } else {
        match fits_between(score, tempos, pos, list[i].0 as int, limit) {
            Ok(true) => i,
            _ => {
                assert(fits_between(score, tempos, pos, list[i].0 as int, limit) == Ok::<
                    bool,
                    SplitError,
                >(false));
                lemma_first_fitting(score, tempos, pos, best, limit, list, i + 1)
            },
        }
    }
}

/// A scroll that does not reach the end of the score ends at the begin of a silence, unless none is
/// fit for it, and then at the furthest cut. It never ends at another silence when one in the
/// last three twentieths of the way would do: of these it ends at the longest, and of several at
/// the last. Failing that it ends at the last of the long ones behind the first two fifths.
pub proof fn law_scroll_ends_at_silence(
    score: ScoreView,
    tempos: Seq<Tempo>,
    total: int,
    options: SplitOptions,
    pos: int,
    best: int,
    dead: Set<int>,
    rival: (Tick, Tick),
)
    requires
        pos <= best < total,
        end_of_scroll(score, tempos, total, options, pos, best, dead) is Ok,
    ensures
        ({
            let end = end_of_scroll(score, tempos, total, options, pos, best, dead)->Ok_0;
            ||| exists|gap: (Tick, Tick)| #[trigger]
                may_end(score, tempos, total, options, pos, best, dead, gap) && gap.0 == end && (
                if is_late(pos, best, gap) {
                    may_end(score, tempos, total, options, pos, best, dead, rival) && is_late(
                        pos,
                        best,
                        rival,
                    ) ==> gap.1 > rival.1 || (gap.1 == rival.1 && gap.0 >= rival.0)
                } else {
                    &&& is_long(pos, best, options.big_gap as int, gap)
                    &&& may_end(score, tempos, total, options, pos, best, dead, rival)
                        ==> !is_late(pos, best, rival) && (is_long(
                        pos,
                        best,
                        options.big_gap as int,
                        rival,
                    ) ==> gap.0 >= rival.0)
                })
            ||| end == best && (may_end(score, tempos, total, options, pos, best, dead, rival) ==> !is_late(
                pos,
                best,
                rival,
            ) && !is_long(pos, best, options.big_gap as int, rival))
        }),
{
    let limit = options.limit as int;
    let big = options.big_gap as int;
    let gaps = gaps_of(score.notes(), options.min_gap as int);
    let inside = |g: (Tick, Tick)| in_window(score, tempos, total, pos, best, dead, g);
    let near = |g: (Tick, Tick)| is_near(pos, best, g.0 as int);
    let far = |g: (Tick, Tick)| is_far_enough(pos, best, g.0 as int) && g.1 >= big;
    let longest = |g: (Tick, Tick)| longest_key(g);
    let latest = |g: (Tick, Tick)| latest_key(g);
    let window = keep(gaps, inside);
    let a = stable_sort(keep(window, near), longest);
    let b = stable_sort(keep(window, far), latest);
    let list = preferred(window, pos, best, big);
    assert(list == a + b);
    let k = lemma_first_fitting(score, tempos, pos, best, limit, list, 0);
    lemma_stable_sort(score.notes(), |n: Note| crate::cuts::span_key(n));
    lemma_silences(by_span(score.notes()), score.notes().len() as int, options.min_gap as int);
    lemma_stable_sort(keep(window, near), longest);
    lemma_stable_sort(keep(window, far), latest);
    // Every entry of the two lists may be an end as far as it fits.
    assert forall|m: int| 0 <= m < list.len() implies gaps.contains(#[trigger] list[m]) && inside(
        list[m],
    ) && list[m].0 >= 0 && list[m].1 > 0 && (m < a.len() ==> near(list[m])) && (m >= a.len() ==> far(
        list[m],
    )) by {
        if m < a.len() {
            assert(list[m] == a[m]);
            assert(keep(window, near).contains(a[m]));
            lemma_keep(window, near, a[m]);
        } else {
            assert(list[m] == b[m - a.len()]);
            assert(keep(window, far).contains(b[m - a.len()]));
            lemma_keep(window, far, b[m - a.len()]);
        }
        lemma_keep(gaps, inside, list[m]);
        let q = choose|q: int| 0 <= q < gaps.len() && gaps[q] == list[m];
        assert(gaps[q].0 >= 0 && gaps[q].1 > 0);
    }
    let comes = may_end(score, tempos, total, options, pos, best, dead, rival);
    // A rival stands in the lists.
    let r = if comes && is_late(pos, best, rival) {
        lemma_keep(gaps, inside, rival);
        lemma_keep(window, near, rival);
        let s = keep(window, near);
        let q = choose|q: int| 0 <= q < s.len() && s[q] == rival;
        assert(a.contains(s[q]));
        let q = choose|q: int| 0 <= q < a.len() && a[q] == rival;
        assert(list[q] == rival);
        q
    } else if comes && is_long(pos, best, big, rival) {
        lemma_keep(gaps, inside, rival);
        lemma_keep(window, far, rival);
        let s = keep(window, far);
        let q = choose|q: int| 0 <= q < s.len() && s[q] == rival;
        assert(b.contains(s[q]));
        let q = choose|q: int| 0 <= q < b.len() && b[q] == rival;
        assert(list[q + a.len()] == rival);
        q + a.len()
    } else {
        -1
    };
    assert(r >= 0 ==> r < list.len() && list[r] == rival && fits_between(
        score,
        tempos,
        pos,
        list[r].0 as int,
        limit,
    ) == Ok::<bool, SplitError>(true));
    if k < list.len() {
        let gap = list[k];
        assert(gaps.contains(gap) && inside(gap));
        assert(may_end(score, tempos, total, options, pos, best, dead, gap));
        assert(r >= 0 ==> k <= r);
        if k < a.len() {
            assert(near(gap));
            assert(is_late(pos, best, gap));
            if comes && is_late(pos, best, rival) {
                assert(a[k] == gap && a[r] == rival);
                assert(list[r].0 >= 0 && list[r].1 > 0);
                assert(!key_less(longest(a[r]), longest(a[k])));
            }
        } else {
            assert(far(gap));
            if comes {
                assert(!is_late(pos, best, rival));
                if is_long(pos, best, big, rival) {
                    assert(b[k - a.len()] == gap && b[r - a.len()] == rival);
                    assert(list[r].0 >= 0 && list[r].1 > 0);
                    assert(!key_less(latest(b[r - a.len()]), latest(b[k - a.len()])));
                }
            }
            if is_late(pos, best, gap) {
                lemma_keep(window, near, gap);
                lemma_keep(gaps, inside, gap);
                let s = keep(window, near);
                let q = choose|q: int| 0 <= q < s.len() && s[q] == gap;
                assert(a.contains(s[q]));
                let q = choose|q: int| 0 <= q < a.len() && a[q] == gap;
                assert(list[q] == gap);
                assert(false);
            }
        }
    } else {
        if r >= 0 {
            assert(fits_between(score, tempos, pos, list[r].0 as int, limit) == Ok::<bool, SplitError>(
                false,
            ));
        }
    }
}

/// Looking at every cut, the search finds the last open one below a rank up to which every part
/// fits: no later one does.
pub proof fn law_last_fitting(
    score: ScoreView,
    tempos: Seq<Tempo>,
    cuts: Seq<int>,
    a: int,
    limit: int,
    dead: Set<int>,
    first: int,
    rank: int,
) -> (k: int)
    requires
        0 <= first <= rank <= cuts.len(),
        last_fitting(score, tempos, cuts, a, limit, dead, first, rank) is Ok,
    ensures
        first <= k < rank,
        last_fitting(score, tempos, cuts, a, limit, dead, first, rank) == Ok::<int, SplitError>(cuts[k]),
        !dead.contains(cuts[k]),
        fits_between(score, tempos, a, cuts[k], limit) == Ok::<bool, SplitError>(true),
        forall|j: int|
            k < j < rank ==> dead.contains(#[trigger] cuts[j]) || fits_between(
                score,
                tempos,
                a,
                cuts[j],
                limit,
            ) == Ok::<bool, SplitError>(false),
    decreases rank - first,
{
    let tick = cuts[rank - 1];
    if dead.contains(tick) {
        law_last_fitting(score, tempos, cuts, a, limit, dead, first, rank - 1)
    } else {
        match fits_between(score, tempos, a, tick, limit) {
            Ok(true) => rank - 1,
            _ => {
                assert(fits_between(score, tempos, a, tick, limit) == Ok::<bool, SplitError>(false));
                law_last_fitting(score, tempos, cuts, a, limit, dead, first, rank - 1)
            },
        }
    }
}

/// The silence that is told of a scroll is one that begins where the scroll ends, and there is none
/// where no silence begins.
pub proof fn law_gap_at(gaps: Seq<(Tick, Tick)>, tick: Tick)
    ensures
        (exists|k: int| 0 <= k < gaps.len() && (#[trigger] gaps[k]).0 == tick) ==> exists|k: int|
            0 <= k < gaps.len() && (#[trigger] gaps[k]).0 == tick && gaps[k].1 == gap_at(
                gaps,
                tick as int,
            ),
        (forall|k: int| 0 <= k < gaps.len() ==> (#[trigger] gaps[k]).0 != tick) ==> gap_at(
            gaps,
            tick as int,
        ) == 0,
    decreases gaps.len(),
{
    if gaps.len() > 0 {
        let front = gaps.drop_last();
        let n = gaps.len() as int;
        law_gap_at(front, tick);
        if gaps.last().0 == tick {
            assert(gaps[n - 1].0 == tick);
        } else {
            if exists|k: int| 0 <= k < gaps.len() && (#[trigger] gaps[k]).0 == tick {
                let k = choose|k: int| 0 <= k < gaps.len() && (#[trigger] gaps[k]).0 == tick;
                assert(front[k].0 == tick);
                let m = choose|m: int|
                    0 <= m < front.len() && (#[trigger] front[m]).0 == tick && front[m].1 == gap_at(
                        front,
                        tick as int,
                    );
                assert(gaps[m].0 == tick);
            }
            if forall|k: int| 0 <= k < gaps.len() ==> (#[trigger] gaps[k]).0 != tick {
                assert forall|k: int| 0 <= k < front.len() implies (#[trigger] front[k]).0 != tick by {
                    assert(gaps[k].0 != tick);
                }
            }
        }
    }
}

} // verus!
