//! How bars are counted, and which time signature counts where.
use crate::assemble::with_mark;
use crate::bars::{at_most_tick, bar_from, is_metric, with_meter, Meter};
use crate::frame::{
    among_signatures, chunk_head, chunk_tail, has_signatures, inner_signatures, is_section,
    is_signatures, replaced, signature_at, signature_lines, with_signature, Signature,
};
use crate::score::{Tempo, Tick};
use crate::text::{begins_with, number_text};
use vstd::arithmetic::div_mod::{lemma_fundamental_div_mod, lemma_fundamental_div_mod_converse};
use vstd::prelude::*;

verus! {

/// Whether a meter is in force at a tick.
pub open spec fn is_meter_at(meters: Seq<Meter>, tick: int, i: int) -> bool {
    &&& 0 <= i < meters.len()
    &&& meters[i].0 <= tick
    &&& i + 1 < meters.len() ==> tick < meters[i + 1].0
}

proof fn lemma_next_quotient(x: int, d: int)
    requires
        d > 0,
        x >= 0,
    ensures
        0 <= x / d <= x,
        (x + 1) / d == x / d + (if (x + 1) % d == 0 {
            1int
        } else {
            0int
        }),
{
    let q = x / d;
    let r = x % d;
    lemma_fundamental_div_mod(x, d);
    assert(0 <= r < d);
    assert(0 <= q <= x) by (nonlinear_arith)
        requires
            x == d * q + r,
            0 <= r < d,
            x >= 0,
            d > 0,
    ;
    if r + 1 == d {
        assert(x + 1 == (q + 1) * d + 0) by (nonlinear_arith)
            requires
                x == d * q + r,
                r + 1 == d,
        ;
        lemma_fundamental_div_mod_converse(x + 1, d, q + 1, 0);
    } else {
        assert(x + 1 == q * d + (r + 1)) by (nonlinear_arith)
            requires
                x == d * q + r,
        ;
        lemma_fundamental_div_mod_converse(x + 1, d, q, r + 1);
    }
}

proof fn lemma_bar_step(meters: Seq<Meter>, t: int, i: int, j: int, bar: int)
    requires
        is_metric(meters),
        is_meter_at(meters, t, i),
        0 <= j <= i,
        bar >= 0,
        bar + (t + 1 - meters[j].0) <= i64::MAX,
    ensures
        bar_from(t + 1, meters, j, bar) == bar_from(t, meters, j, bar) + (if (t + 1 - meters[i].0) % (
        meters[i].1 as int) == 0 {
            1int
        } else {
            0int
        }),
    decreases i - j,
{
    let s = meters[j].0 as int;
    let d = meters[j].1 as int;
    assert(meters[j].1 > 0);
    if j < i {
        let m = meters[j + 1].0 as int;
        assert(meters[j].0 < meters[j + 1].0);
        if j + 1 < i {
            assert(meters[j + 1].0 < meters[i].0);
        }
        lemma_next_quotient(m - s, d);
        let next = bar + (m - s) / d;
        assert(at_most_tick(next) == next);
        lemma_bar_step(meters, t, i, j + 1, next);
    } else {
        lemma_next_quotient(t - s, d);
        lemma_next_quotient(t + 1 - s, d);
        if i + 1 < meters.len() && t + 1 >= meters[i + 1].0 {
            let m = meters[i + 1].0 as int;
            let next = bar + (m - s) / d;
            assert(meters[i + 1].1 > 0);
            lemma_next_quotient(0, meters[i + 1].1 as int);
            if i + 2 < meters.len() {
                assert(meters[i + 1].0 < meters[i + 2].0);
            }
            assert(bar_from(t + 1, meters, i + 1, next) == next);
        }
    }
}

/// The score begins in the first bar. From one tick to the next the number of the bar grows by
/// one exactly where a bar of the meter in force is full, counted from where the meter begins.
pub proof fn law_bars(meters: Seq<Meter>, t: int, i: int)
    requires
        is_metric(meters),
        meters.len() > 0,
        meters[0].0 == 0,
        0 <= t < i64::MAX - 1,
        is_meter_at(meters, t, i),
    ensures
        bar_from(0, meters, 0, 1) == 1,
        bar_from(t + 1, meters, 0, 1) == bar_from(t, meters, 0, 1) + (if (t + 1 - meters[i].0) % (
        meters[i].1 as int) == 0 {
            1int
        } else {
            0int
        }),
{
    lemma_bar_step(meters, t, i, 0, 1);
    assert(meters[0].1 > 0);
    lemma_next_quotient(0, meters[0].1 as int);
    if 1 < meters.len() {
        assert(meters[0].0 < meters[1].0);
    }
}

/// Whether the ticks of some settings ascend.
pub open spec fn settings_ascend<V>(s: Seq<(Tick, V)>) -> bool {
    forall|i: int, j: int| #![trigger s[i], s[j]] 0 <= i < j < s.len() ==> s[i].0 < s[j].0
}

/// A meter counts from its tick on, in place of the one that was set there; those at other ticks
/// stay.
pub proof fn law_with_meter(s: Seq<Meter>, p: Meter, other: Meter)
    requires
        settings_ascend(s),
    ensures
        settings_ascend(with_meter(s, p)),
        with_meter(s, p).contains(p),
        other.0 != p.0 ==> (with_meter(s, p).contains(other) <==> s.contains(other)),
        with_meter(s, p).contains(other) && other.0 == p.0 ==> other == p,
    decreases s.len(),
{
    let new = with_meter(s, p);
    let n = s.len() as int;
    if n == 0 || s.last().0 < p.0 {
        assert(new[n] == p);
        assert forall|i: int, j: int|
            #![trigger new[i], new[j]]
            0 <= i < j < new.len() implies new[i].0 < new[j].0 by {
            if j == n && i < n - 1 {
                assert(s[i].0 < s[n - 1].0);
            }
        }
        if s.contains(other) {
            let k = choose|k: int| 0 <= k < n && s[k] == other;
            assert(new[k] == other);
            if k < n - 1 {
                assert(s[k].0 < s[n - 1].0);
            }
        }
        if new.contains(other) {
            let k = choose|k: int| 0 <= k < new.len() && new[k] == other;
            if k < n {
                assert(s[k] == other);
                assert(s[k].0 <= s[n - 1].0);
            }
        }
    } else if s.last().0 == p.0 {
        assert(new[n - 1] == p);
        assert forall|i: int, j: int|
            #![trigger new[i], new[j]]
            0 <= i < j < new.len() implies new[i].0 < new[j].0 by {
            assert(s[i].0 < s[j].0);
        }
        if s.contains(other) {
            let k = choose|k: int| 0 <= k < n && s[k] == other;
            if k < n - 1 {
                assert(new[k] == other);
            }
        }
        if new.contains(other) {
            let k = choose|k: int| 0 <= k < new.len() && new[k] == other;
            if k < n - 1 {
                assert(s[k] == other);
                assert(s[k].0 < s[n - 1].0);
            }
        }
    } else {
        let front = s.drop_last();
        law_with_meter(front, p, other);
        let inner = with_meter(front, p);
        assert(new[inner.len() as int] == s[n - 1]);
        let at = choose|k: int| 0 <= k < inner.len() && inner[k] == p;
        assert(new[at] == p);
        if s.contains(other) {
            let k = choose|k: int| 0 <= k < n && s[k] == other;
            if k < n - 1 {
                assert(front[k] == other);
            }
        }
        if front.contains(other) {
            let k = choose|k: int| 0 <= k < front.len() && front[k] == other;
            assert(s[k] == other);
        }
        if inner.contains(other) {
            let k = choose|k: int| 0 <= k < inner.len() && inner[k] == other;
            assert(new[k] == other);
        }
        if new.contains(other) {
            let k = choose|k: int| 0 <= k < new.len() && new[k] == other;
            if k < inner.len() {
                assert(inner[k] == other);
            } else {
                assert(s[n - 1] == other);
            }
        }
        assert forall|i: int, j: int|
            #![trigger new[i], new[j]]
            0 <= i < j < new.len() implies new[i].0 < new[j].0 by {
            assert(new[i] == inner[i]);
            if j < inner.len() {
                assert(new[j] == inner[j]);
            } else {
                law_with_meter(front, p, inner[i]);
                assert(inner.contains(inner[i]));
                if inner[i].0 != p.0 {
                    let k = choose|k: int| 0 <= k < front.len() && front[k] == inner[i];
                    assert(s[k].0 < s[n - 1].0);
                }
            }
        }
    }
}

/// A time signature counts from its tick on, in place of the one that was set there; those at
/// other ticks stay.
pub proof fn law_with_signature(s: Seq<Signature>, p: Signature, other: Signature)
    requires
        settings_ascend(s),
    ensures
        settings_ascend(with_signature(s, p)),
        with_signature(s, p).contains(p),
        other.0 != p.0 ==> (with_signature(s, p).contains(other) <==> s.contains(other)),
        with_signature(s, p).contains(other) && other.0 == p.0 ==> other == p,
    decreases s.len(),
{
    let new = with_signature(s, p);
    let n = s.len() as int;
    if n == 0 || s.last().0 < p.0 {
        assert(new[n] == p);
        assert forall|i: int, j: int|
            #![trigger new[i], new[j]]
            0 <= i < j < new.len() implies new[i].0 < new[j].0 by {
            if j == n && i < n - 1 {
                assert(s[i].0 < s[n - 1].0);
            }
        }
        if s.contains(other) {
            let k = choose|k: int| 0 <= k < n && s[k] == other;
            assert(new[k] == other);
            if k < n - 1 {
                assert(s[k].0 < s[n - 1].0);
            }
        }
        if new.contains(other) {
            let k = choose|k: int| 0 <= k < new.len() && new[k] == other;
            if k < n {
                assert(s[k] == other);
                assert(s[k].0 <= s[n - 1].0);
            }
        }
    } else if s.last().0 == p.0 {
        assert(new[n - 1] == p);
        assert forall|i: int, j: int|
            #![trigger new[i], new[j]]
            0 <= i < j < new.len() implies new[i].0 < new[j].0 by {
            assert(s[i].0 < s[j].0);
        }
        if s.contains(other) {
            let k = choose|k: int| 0 <= k < n && s[k] == other;
            if k < n - 1 {
                assert(new[k] == other);
            }
        }
        if new.contains(other) {
            let k = choose|k: int| 0 <= k < new.len() && new[k] == other;
            if k < n - 1 {
                assert(s[k] == other);
                assert(s[k].0 < s[n - 1].0);
            }
        }
    } else {
        let front = s.drop_last();
        law_with_signature(front, p, other);
        let inner = with_signature(front, p);
        assert(new[inner.len() as int] == s[n - 1]);
        let at = choose|k: int| 0 <= k < inner.len() && inner[k] == p;
        assert(new[at] == p);
        if s.contains(other) {
            let k = choose|k: int| 0 <= k < n && s[k] == other;
            if k < n - 1 {
                assert(front[k] == other);
            }
        }
        if front.contains(other) {
            let k = choose|k: int| 0 <= k < front.len() && front[k] == other;
            assert(s[k] == other);
        }
        if inner.contains(other) {
            let k = choose|k: int| 0 <= k < inner.len() && inner[k] == other;
            assert(new[k] == other);
        }
        if new.contains(other) {
            let k = choose|k: int| 0 <= k < new.len() && new[k] == other;
            if k < inner.len() {
                assert(inner[k] == other);
            } else {
                assert(s[n - 1] == other);
            }
        }
        assert forall|i: int, j: int|
            #![trigger new[i], new[j]]
            0 <= i < j < new.len() implies new[i].0 < new[j].0 by {
            assert(new[i] == inner[i]);
            if j < inner.len() {
                assert(new[j] == inner[j]);
            } else {
                law_with_signature(front, p, inner[i]);
                assert(inner.contains(inner[i]));
                if inner[i].0 != p.0 {
                    let k = choose|k: int| 0 <= k < front.len() && front[k] == inner[i];
                    assert(s[k].0 < s[n - 1].0);
                }
            }
        }
    }
}

/// A time signature of a file counts from its tick on, in place of the one that was set there;
/// those at other ticks stay.
pub proof fn law_with_mark(s: Seq<(Tick, (u8, u32))>, p: (Tick, (u8, u32)), other: (Tick, (u8, u32)))
    requires
        settings_ascend(s),
    ensures
        settings_ascend(with_mark(s, p)),
        with_mark(s, p).contains(p),
        other.0 != p.0 ==> (with_mark(s, p).contains(other) <==> s.contains(other)),
        with_mark(s, p).contains(other) && other.0 == p.0 ==> other == p,
    decreases s.len(),
{
    let new = with_mark(s, p);
    let n = s.len() as int;
    if n == 0 || s.last().0 < p.0 {
        assert(new[n] == p);
        assert forall|i: int, j: int|
            #![trigger new[i], new[j]]
            0 <= i < j < new.len() implies new[i].0 < new[j].0 by {
            if j == n && i < n - 1 {
                assert(s[i].0 < s[n - 1].0);
            }
        }
        if s.contains(other) {
            let k = choose|k: int| 0 <= k < n && s[k] == other;
            assert(new[k] == other);
            if k < n - 1 {
                assert(s[k].0 < s[n - 1].0);
            }
        }
        if new.contains(other) {
            let k = choose|k: int| 0 <= k < new.len() && new[k] == other;
            if k < n {
                assert(s[k] == other);
                assert(s[k].0 <= s[n - 1].0);
            }
        }
    } else if s.last().0 == p.0 {
        assert(new[n - 1] == p);
        assert forall|i: int, j: int|
            #![trigger new[i], new[j]]
            0 <= i < j < new.len() implies new[i].0 < new[j].0 by {
            assert(s[i].0 < s[j].0);
        }
        if s.contains(other) {
            let k = choose|k: int| 0 <= k < n && s[k] == other;
            if k < n - 1 {
                assert(new[k] == other);
            }
        }
        if new.contains(other) {
            let k = choose|k: int| 0 <= k < new.len() && new[k] == other;
            if k < n - 1 {
                assert(s[k] == other);
                assert(s[k].0 < s[n - 1].0);
            }
        }
    } else {
        let front = s.drop_last();
        law_with_mark(front, p, other);
        let inner = with_mark(front, p);
        assert(new[inner.len() as int] == s[n - 1]);
        let at = choose|k: int| 0 <= k < inner.len() && inner[k] == p;
        assert(new[at] == p);
        if s.contains(other) {
            let k = choose|k: int| 0 <= k < n && s[k] == other;
            if k < n - 1 {
                assert(front[k] == other);
            }
        }
        if front.contains(other) {
            let k = choose|k: int| 0 <= k < front.len() && front[k] == other;
            assert(s[k] == other);
        }
        if inner.contains(other) {
            let k = choose|k: int| 0 <= k < inner.len() && inner[k] == other;
            assert(new[k] == other);
        }
        if new.contains(other) {
            let k = choose|k: int| 0 <= k < new.len() && new[k] == other;
            if k < inner.len() {
                assert(inner[k] == other);
            } else {
                assert(s[n - 1] == other);
            }
        }
        assert forall|i: int, j: int|
            #![trigger new[i], new[j]]
            0 <= i < j < new.len() implies new[i].0 < new[j].0 by {
            assert(new[i] == inner[i]);
            if j < inner.len() {
                assert(new[j] == inner[j]);
            } else {
                law_with_mark(front, p, inner[i]);
                assert(inner.contains(inner[i]));
                if inner[i].0 != p.0 {
                    let k = choose|k: int| 0 <= k < front.len() && front[k] == inner[i];
                    assert(s[k].0 < s[n - 1].0);
                }
            }
        }
    }
}

/// Whether a time signature has come by a tick, and no other that has come by then is later.
pub open spec fn is_latest_signature(sigs: Seq<Signature>, tick: int, i: int) -> bool {
    &&& 0 <= i < sigs.len()
    &&& sigs[i].0 <= tick
    &&& forall|j: int|
        0 <= j < sigs.len() && (#[trigger] sigs[j]).0 <= tick ==> sigs[j].0 <= sigs[i].0
}

/// Whether a time signature is in force at a tick: the latest that has come by then, and
/// four-four where none has.
pub open spec fn signature_in_force(sigs: Seq<Signature>, tick: int, text: Seq<char>) -> bool {
    ||| exists|i: int| #[trigger] is_latest_signature(sigs, tick, i) && sigs[i].1 == text
    ||| text == "4/4"@ && forall|i: int| 0 <= i < sigs.len() ==> (#[trigger] sigs[i]).0 > tick
}

proof fn lemma_signature_at(sigs: Seq<Signature>, tick: int)
    requires
        settings_ascend(sigs),
    ensures
        signature_in_force(sigs, tick, signature_at(sigs, tick)),
        forall|text: Seq<char>| #[trigger]
            signature_in_force(sigs, tick, text) ==> text == signature_at(sigs, tick),
    decreases sigs.len(),
{
    let n = sigs.len() as int;
    if n > 0 {
        let front = sigs.drop_last();
        if sigs.last().0 <= tick {
            assert(is_latest_signature(sigs, tick, n - 1)) by {
                assert forall|j: int| 0 <= j < sigs.len() && (#[trigger] sigs[j]).0 <= tick implies sigs[j].0
                    <= sigs[n - 1].0 by {}
            }
            assert forall|text: Seq<char>| #[trigger] signature_in_force(sigs, tick, text) implies text
                == signature_at(sigs, tick) by {
                assert(sigs[n - 1].0 <= tick);
                let i = choose|i: int| #[trigger]
                    is_latest_signature(sigs, tick, i) && sigs[i].1 == text;
                assert(sigs[n - 1].0 <= sigs[i].0);
                if i < n - 1 {
                    assert(sigs[i].0 < sigs[n - 1].0);
                }
            }
        } else {
            lemma_signature_at(front, tick);
            assert forall|text: Seq<char>| signature_in_force(front, tick, text) == #[trigger]
                signature_in_force(sigs, tick, text) by {
                if exists|i: int| #[trigger] is_latest_signature(front, tick, i) && front[i].1 == text {
                    let i = choose|i: int| #[trigger]
                        is_latest_signature(front, tick, i) && front[i].1 == text;
                    assert forall|j: int|
                        0 <= j < sigs.len() && (#[trigger] sigs[j]).0 <= tick implies sigs[j].0
                        <= sigs[i].0 by {
                        assert(j < n - 1);
                        assert(front[j] == sigs[j]);
                    }
                    assert(is_latest_signature(sigs, tick, i));
                }
                if exists|i: int| #[trigger] is_latest_signature(sigs, tick, i) && sigs[i].1 == text {
                    let i = choose|i: int| #[trigger]
                        is_latest_signature(sigs, tick, i) && sigs[i].1 == text;
                    assert(i < n - 1);
                    assert forall|j: int|
                        0 <= j < front.len() && (#[trigger] front[j]).0 <= tick implies front[j].0
                        <= front[i].0 by {
                        assert(front[j] == sigs[j]);
                    }
                    assert(is_latest_signature(front, tick, i));
                }
                if forall|i: int| 0 <= i < front.len() ==> (#[trigger] front[i]).0 > tick {
                    assert forall|i: int| 0 <= i < sigs.len() implies (#[trigger] sigs[i]).0 > tick by {
                        if i < n - 1 {
                            assert(front[i].0 > tick);
                        }
                    }
                }
                if forall|i: int| 0 <= i < sigs.len() ==> (#[trigger] sigs[i]).0 > tick {
                    assert forall|i: int| 0 <= i < front.len() implies (#[trigger] front[i]).0 > tick by {
                        assert(sigs[i].0 > tick);
                    }
                }
            }
        }
    }
}

/// Whether a line writes a time signature from a tick on.
pub open spec fn writes_signature(line: Seq<char>, tick: int, text: Seq<char>) -> bool {
    line == number_text(tick) + "="@ + text
}

/// Whether lines behind their heading write time signatures one after the other.
pub open spec fn writes_signatures(lines: Seq<Seq<char>>, sigs: Seq<Signature>) -> bool {
    &&& lines.len() == sigs.len() + 1
    &&& lines[0] == "[time-signature]"@
    &&& forall|k: int| 0 <= k < sigs.len() ==> #[trigger] writes_signature(
        lines[k + 1],
        sigs[k].0 as int,
        sigs[k].1,
    )
}

spec fn inner(sigs: Seq<Signature>, a: int, b: int) -> Seq<Signature>
    decreases sigs.len(),
{
    if sigs.len() == 0 {
        Seq::empty()
    } else if a < sigs.last().0 < b {
        inner(sigs.drop_last(), a, b).push(((sigs.last().0 - a) as Tick, sigs.last().1))
    } else {
        inner(sigs.drop_last(), a, b)
    }
}

proof fn lemma_inner(sigs: Seq<Signature>, a: int, b: int, t: int)
    requires
        settings_ascend(sigs),
        0 <= a <= t < b,
        b <= i64::MAX,
    ensures
        inner(sigs, a, b).len() == inner_signatures(sigs, a, b).len(),
        forall|k: int|
            0 <= k < inner(sigs, a, b).len() ==> #[trigger] writes_signature(
                inner_signatures(sigs, a, b)[k],
                inner(sigs, a, b)[k].0 as int,
                inner(sigs, a, b)[k].1,
            ),
        forall|k: int|
            0 <= k < inner(sigs, a, b).len() ==> 0 < (#[trigger] inner(sigs, a, b)[k]).0 < b - a,
        forall|k: int|
            0 <= k < inner(sigs, a, b).len() ==> sigs.len() > 0 && (#[trigger] inner(sigs, a, b)[k]).0
                + a <= sigs.last().0,
        settings_ascend(inner(sigs, a, b)),
        signature_at(sigs, t) == signature_at(
            seq![(0i64, signature_at(sigs, a))] + inner(sigs, a, b),
            t - a,
        ),
    decreases sigs.len(),
{
    let all = inner(sigs, a, b);
    let lines = inner_signatures(sigs, a, b);
    if sigs.len() == 0 {
        let whole = seq![(0i64, signature_at(sigs, a))] + all;
        assert(whole.last() == whole[0]);
    } else {
        let front = sigs.drop_last();
        let last = sigs.last();
        lemma_inner(front, a, b, t);
        let before = inner(front, a, b);
        let ahead = inner_signatures(front, a, b);
        if front.len() > 0 {
            assert(sigs[sigs.len() - 2].0 < sigs[sigs.len() - 1].0);
        }
        if a < last.0 < b {
            let own = number_text(last.0 - a) + seq!['='] + last.1;
            reveal_strlit("=");
            assert("="@ =~= seq!['=']);
            assert forall|k: int| 0 <= k < all.len() implies #[trigger] writes_signature(
                lines[k],
                all[k].0 as int,
                all[k].1,
            ) by {
                if k < before.len() {
                    assert(writes_signature(ahead[k], before[k].0 as int, before[k].1));
                }
            }
            assert forall|k: int| 0 <= k < all.len() implies 0 < (#[trigger] all[k]).0 < b - a && all[k].0
                + a <= last.0 by {
                if k < before.len() {
                    assert(all[k] == before[k]);
                }
            }
            assert forall|i: int, j: int|
                #![trigger all[i], all[j]]
                0 <= i < j < all.len() implies all[i].0 < all[j].0 by {
                assert(all[i] == before[i]);
                if j < before.len() {
                    assert(all[j] == before[j]);
                }
            }
            let short = seq![(0i64, signature_at(front, a))] + before;
            let whole = seq![(0i64, signature_at(sigs, a))] + all;
            assert(whole.drop_last() =~= short);
            assert(whole.last() == all.last());
        } else {
            assert forall|k: int| 0 <= k < all.len() implies 0 < (#[trigger] all[k]).0 < b - a && all[k].0
                + a <= last.0 by {
                assert(all[k] == before[k]);
            }
            let whole = seq![(0i64, signature_at(sigs, a))] + all;
            if last.0 <= a {
                assert(before.len() == 0) by {
                    if before.len() > 0 {
                        assert(before[0].0 > 0);
                        assert(before[0].0 + a <= front.last().0);
                    }
                }
                assert(whole.last() == whole[0]);
            }
        }
    }
}

/// The lines on the time signatures of a scroll write ticks that ascend from its begin, and at every
/// tick of the scroll they put the time signature in force that the score has there.
pub proof fn law_scroll_keeps_signatures(sigs: Seq<Signature>, a: int, b: int, t: int, text: Seq<char>) -> (
written: Seq<Signature>)
    requires
        settings_ascend(sigs),
        0 <= a <= t < b <= i64::MAX,
    ensures
        settings_ascend(written),
        writes_signatures(signature_lines(sigs, a, b), written),
        signature_in_force(sigs, t, text) <==> signature_in_force(written, t - a, text),
        written[0].0 == 0,
{
    let written = seq![(0i64, signature_at(sigs, a))] + inner(sigs, a, b);
    let lines = signature_lines(sigs, a, b);
    lemma_inner(sigs, a, b, t);
    assert forall|i: int, j: int|
        #![trigger written[i], written[j]]
        0 <= i < j < written.len() implies written[i].0 < written[j].0 by {
        assert(written[j] == inner(sigs, a, b)[j - 1]);
        if i > 0 {
            assert(written[i] == inner(sigs, a, b)[i - 1]);
        }
    }
    assert forall|k: int| 0 <= k < written.len() implies #[trigger] writes_signature(
        lines[k + 1],
        written[k].0 as int,
        written[k].1,
    ) by {
        if k == 0 {
            reveal_with_fuel(crate::text::decimal, 2);
            reveal_strlit("0=");
            reveal_strlit("=");
            assert(number_text(0) =~= seq!['0']);
            assert(lines[1] =~= number_text(0) + "="@ + written[0].1);
        } else {
            assert(lines[k + 1] == inner_signatures(sigs, a, b)[k - 1]);
            assert(writes_signature(
                inner_signatures(sigs, a, b)[k - 1],
                inner(sigs, a, b)[k - 1].0 as int,
                inner(sigs, a, b)[k - 1].1,
            ));
        }
    }
    lemma_signature_at(sigs, t);
    lemma_signature_at(written, t - a);
    written
}

/// Whether a line belongs to the time signatures: it opens their section or stands in it.
pub open spec fn is_about_signatures(lines: Seq<Seq<char>>, k: int) -> bool {
    is_signatures(lines[k]) || (among_signatures(lines, k) && !is_section(lines[k]))
}

proof fn lemma_replaced(lines: Seq<Seq<char>>, n: int, section: Seq<Seq<char>>, k: int)
    requires
        0 <= k < n <= lines.len(),
        !is_about_signatures(lines, k),
    ensures
        replaced(lines, n, section).contains(lines[k]),
    decreases n,
{
    let all = replaced(lines, n, section);
    let before = replaced(lines, n - 1, section);
    if k < n - 1 {
        lemma_replaced(lines, n - 1, section, k);
        let m = choose|m: int| 0 <= m < before.len() && before[m] == lines[k];
        assert(all[m] == lines[k]);
    } else {
        assert(all[all.len() - 1] == lines[k]);
    }
}

proof fn lemma_nothing_replaced(lines: Seq<Seq<char>>, n: int, section: Seq<Seq<char>>)
    requires
        0 <= n <= lines.len(),
        !has_signatures(lines, n),
    ensures
        replaced(lines, n, section) == lines.take(n),
        !among_signatures(lines, n),
    decreases n,
{
    if n > 0 {
        lemma_nothing_replaced(lines, n - 1, section);
        assert(lines.take(n) =~= lines.take(n - 1).push(lines[n - 1]));
    } else {
        assert(lines.take(0) =~= Seq::<Seq<char>>::empty());
    }
}

/// A scroll keeps every line behind the tracks that is not about time signatures. Where there were
/// none, those of the scroll follow what there was.
pub proof fn law_tail_keeps_lines(tail: Seq<Seq<char>>, sigs: Seq<Signature>, a: int, b: int, k: int)
    requires
        0 <= k < tail.len(),
    ensures
        !is_about_signatures(tail, k) ==> chunk_tail(tail, sigs, a, b).contains(tail[k]),
        !has_signatures(tail, tail.len() as int) ==> chunk_tail(tail, sigs, a, b) == tail
            + signature_lines(sigs, a, b),
{
    let section = signature_lines(sigs, a, b);
    let n = tail.len() as int;
    let all = chunk_tail(tail, sigs, a, b);
    if !is_about_signatures(tail, k) {
        lemma_replaced(tail, n, section, k);
        let kept = replaced(tail, n, section);
        let m = choose|m: int| 0 <= m < kept.len() && kept[m] == tail[k];
        assert(all[m] == tail[k]);
    }
    if !has_signatures(tail, n) {
        lemma_nothing_replaced(tail, n, section);
        assert(tail.take(n) =~= tail);
    }
}

/// A scroll keeps every line before the tracks in its place but those that write tempos.
pub proof fn law_head_keeps_lines(head: Seq<Seq<char>>, tempos: Seq<Tempo>, a: int, b: int, k: int)
    requires
        0 <= k < head.len(),
        !begins_with(head[k], "tempo="@),
    ensures
        chunk_head(head, tempos, a, b).len() >= head.len(),
        chunk_head(head, tempos, a, b)[k] == head[k],
{
}

} // verus!
