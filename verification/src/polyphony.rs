//! How many notes sound together, and for how long.
use crate::order::{
    insert_by, lemma_order_sorts, lemma_stable_sort, order, sorted_by, stable_sort, Key,
};
use crate::score::{Note, Tick};
use vstd::prelude::*;

verus! {

/// The number of notes that sound at a tick.
pub open spec fn voices(notes: Seq<Note>, t: int) -> int
    decreases notes.len(),
{
    if notes.len() == 0 {
        0
    } else {
        voices(notes.drop_last(), t) + (if notes.last().on <= t < notes.last().off {
            1int
        } else {
            0int
        })
    }
}

/// The ticks at which the notes that last begin.
pub open spec fn begins(notes: Seq<Note>) -> Seq<Tick>
    decreases notes.len(),
{
    if notes.len() == 0 {
        Seq::empty()
    } else if notes.last().off > notes.last().on {
        begins(notes.drop_last()).push(notes.last().on)
    } else {
        begins(notes.drop_last())
    }
}

/// The ticks at which the notes that last end.
pub open spec fn ends(notes: Seq<Note>) -> Seq<Tick>
    decreases notes.len(),
{
    if notes.len() == 0 {
        Seq::empty()
    } else if notes.last().off > notes.last().on {
        ends(notes.drop_last()).push(notes.last().off)
    } else {
        ends(notes.drop_last())
    }
}

/// The number of ticks of a list up to a tick.
pub open spec fn count_until(s: Seq<Tick>, t: int) -> int
    decreases s.len(),
{
    if s.len() == 0 {
        0
    } else {
        count_until(s.drop_last(), t) + (if s.last() <= t {
            1int
        } else {
            0int
        })
    }
}

pub proof fn lemma_voices(notes: Seq<Note>, t: int)
    ensures
        voices(notes, t) == count_until(begins(notes), t) - count_until(ends(notes), t),
        0 <= voices(notes, t) <= notes.len(),
    decreases notes.len(),
{
    if notes.len() > 0 {
        lemma_voices(notes.drop_last(), t);
        let front = notes.drop_last();
        if notes.last().off > notes.last().on {
            assert(begins(notes).drop_last() =~= begins(front));
            assert(ends(notes).drop_last() =~= ends(front));
        }
    }
}

pub open spec fn tick_key(t: Tick) -> Key {
    (t, 0, 0)
}

proof fn lemma_count_insert(s: Seq<Tick>, x: Tick, t: int)
    ensures
        count_until(insert_by(s, x, |t: Tick| tick_key(t)), t) == count_until(s, t) + (if x <= t {
            1int
        } else {
            0int
        }),
    decreases s.len(),
{
    let key = |t: Tick| tick_key(t);
    let new = insert_by(s, x, key);
    if s.len() == 0 || !crate::order::key_less(key(x), key(s.last())) {
        assert(new.drop_last() =~= s);
    } else {
        lemma_count_insert(s.drop_last(), x, t);
        assert(new.drop_last() =~= insert_by(s.drop_last(), x, key));
    }
}

proof fn lemma_count_sorted(s: Seq<Tick>, t: int)
    ensures
        count_until(stable_sort(s, |t: Tick| tick_key(t)), t) == count_until(s, t),
    decreases s.len(),
{
    let key = |t: Tick| tick_key(t);
    if s.len() > 0 {
        lemma_count_sorted(s.drop_last(), t);
        lemma_count_insert(stable_sort(s.drop_last(), key), s.last(), t);
    }
}

spec fn ascends(s: Seq<Tick>) -> bool {
    forall|i: int, j: int| #![trigger s[i], s[j]] 0 <= i <= j < s.len() ==> s[i] <= s[j]
}

proof fn lemma_count_position(s: Seq<Tick>, t: int, p: int)
    requires
        0 <= p <= s.len(),
        forall|i: int| 0 <= i < p ==> #[trigger] s[i] <= t,
        forall|i: int| p <= i < s.len() ==> #[trigger] s[i] > t,
    ensures
        count_until(s, t) == p,
    decreases s.len(),
{
    if s.len() > 0 {
        let front = s.drop_last();
        if p == s.len() {
            lemma_count_position(front, t, p - 1);
            assert(s[s.len() - 1] <= t);
        } else {
            lemma_count_position(front, t, p);
            assert(s[s.len() - 1] > t);
        }
    }
}

proof fn lemma_count_at_least(s: Seq<Tick>, t: int, p: int)
    requires
        0 <= p <= s.len(),
        forall|i: int| 0 <= i < p ==> #[trigger] s[i] <= t,
    ensures
        p <= count_until(s, t) <= s.len(),
    decreases s.len(),
{
    if s.len() > 0 {
        let front = s.drop_last();
        if p == s.len() {
            lemma_count_at_least(front, t, p - 1);
            assert(s[s.len() - 1] <= t);
        } else {
            lemma_count_at_least(front, t, p);
        }
    }
}

fn sort_ticks(s: &Vec<Tick>) -> (r: Vec<Tick>)
    ensures
        r@ == stable_sort(s@, |t: Tick| tick_key(t)),
        ascends(r@),
        r.len() == s.len(),
{
    let mut keys: Vec<Key> = Vec::new();
    let mut i: usize = 0;
    while i < s.len()
        invariant
            i <= s.len(),
            keys.len() == i,
            forall|k: int| 0 <= k < i ==> #[trigger] keys[k] == tick_key(s@[k]),
        decreases s.len() - i,
    {
        keys.push((s[i], 0, 0));
        i += 1;
    }
    let sequence = order(&keys);
    let ghost f = |i: usize| s@[i as int];
    let mut r: Vec<Tick> = Vec::new();
    let mut i: usize = 0;
    while i < sequence.len()
        invariant
            i <= sequence.len(),
            f == (|i: usize| s@[i as int]),
            forall|k: int| 0 <= k < sequence.len() ==> (#[trigger] sequence[k]) < s.len(),
            r@ == sequence@.take(i as int).map_values(f),
        decreases sequence.len() - i,
    {
        r.push(s[sequence[i]]);
        i += 1;
        proof {
            assert(r@ =~= sequence@.take(i as int).map_values(f));
        }
    }
    proof {
        let key = |t: Tick| tick_key(t);
        assert(sequence@.take(i as int) =~= sequence@);
        lemma_order_sorts(s@, keys@, key);
        lemma_stable_sort(s@, key);
        assert forall|a: int, b: int|
            #![trigger r@[a], r@[b]]
            0 <= a <= b < r.len() implies r@[a] <= r@[b] by {
            assert(sorted_by(r@, key));
        }
    }
    r
}

/// The number of ticks between two at which a number of notes sounds.
pub open spec fn ticks_with(notes: Seq<Note>, v: int, a: int, b: int) -> int
    decreases b - a,
{
    if b <= a {
        0
    } else {
        ticks_with(notes, v, a, b - 1) + (if voices(notes, b - 1) == v {
            1int
        } else {
            0int
        })
    }
}

proof fn lemma_ticks_constant(notes: Seq<Note>, v: int, a: int, b: int, c: int, level: int)
    requires
        a <= b <= c,
        forall|t: int| b <= t < c ==> #[trigger] voices(notes, t) == level,
    ensures
        ticks_with(notes, v, a, c) == ticks_with(notes, v, a, b) + (if v == level {
            c - b
        } else {
            0
        }),
    decreases c - b,
{
    if b < c {
        lemma_ticks_constant(notes, v, a, b, c - 1, level);
        assert(voices(notes, c - 1) == level);
    }
}

/// The first and the last tick at which a note that lasts begins or ends; the start of the
/// score counts as a first one.
pub open spec fn first_event(notes: Seq<Note>) -> int
    decreases notes.len(),
{
    if notes.len() == 0 {
        0
    } else {
        let before = first_event(notes.drop_last());
        let last = notes.last();
        if last.off > last.on && last.on < before {
            last.on as int
        } else {
            before
        }
    }
}

/// The last tick at which a note that lasts ends, or where there is none the start.
pub open spec fn last_event(notes: Seq<Note>) -> int
    decreases notes.len(),
{
    if notes.len() == 0 {
        0
    } else {
        let before = last_event(notes.drop_last());
        let last = notes.last();
        if last.off > last.on && (begins(notes.drop_last()).len() == 0 || last.off > before) {
            last.off as int
        } else {
            before
        }
    }
}

/// Whether a list tells, for every number of notes, for how many ticks so many sound.
pub open spec fn is_histogram(h: Seq<u128>, notes: Seq<Note>) -> bool {
    let a = first_event(notes);
    let b = last_event(notes);
    &&& forall|v: int| 0 <= v < h.len() ==> #[trigger] h[v] == ticks_with(notes, v, a, b)
    &&& forall|v: int| v >= h.len() ==> #[trigger] ticks_with(notes, v, a, b) == 0
    &&& h.len() > 0 ==> h[h.len() - 1] > 0
}

proof fn lemma_event_bounds(notes: Seq<Note>)
    ensures
        first_event(notes) <= 0,
        forall|i: int|
            0 <= i < begins(notes).len() ==> first_event(notes) <= #[trigger] begins(notes)[i],
        forall|i: int|
            0 <= i < ends(notes).len() ==> #[trigger] ends(notes)[i] <= last_event(notes),
        begins(notes).len() == ends(notes).len(),
        begins(notes).len() == 0 ==> first_event(notes) == 0 && last_event(notes) == 0,
        first_event(notes) < 0 ==> exists|i: int|
            0 <= i < begins(notes).len() && #[trigger] begins(notes)[i] == first_event(notes),
        begins(notes).len() > 0 ==> exists|i: int|
            0 <= i < ends(notes).len() && #[trigger] ends(notes)[i] == last_event(notes),
        forall|i: int| 0 <= i < begins(notes).len() ==> #[trigger] begins(notes)[i] < ends(notes)[i],
        i64::MIN <= first_event(notes),
        i64::MIN <= last_event(notes) <= i64::MAX,
    decreases notes.len(),
{
    if notes.len() > 0 {
        let front = notes.drop_last();
        lemma_event_bounds(front);
        let last = notes.last();
        if last.off > last.on {
            let n = begins(front).len() as int;
            assert(begins(notes)[n] == last.on);
            assert(ends(notes)[n] == last.off);
            assert forall|i: int| 0 <= i < begins(notes).len() implies first_event(notes)
                <= #[trigger] begins(notes)[i] by {
                if i < n {
                    assert(begins(front)[i] == begins(notes)[i]);
                }
            }
            assert forall|i: int| 0 <= i < ends(notes).len() implies #[trigger] ends(notes)[i]
                <= last_event(notes) by {
                if i < n {
                    assert(ends(front)[i] == ends(notes)[i]);
                }
            }
            assert forall|i: int| 0 <= i < begins(notes).len() implies #[trigger] begins(notes)[i]
                < ends(notes)[i] by {
                if i < n {
                    assert(begins(front)[i] == begins(notes)[i]);
                    assert(ends(front)[i] == ends(notes)[i]);
                }
            }
            if first_event(notes) < 0 && first_event(notes) == first_event(front) {
                let i = choose|i: int|
                    0 <= i < n && #[trigger] begins(front)[i] == first_event(front);
                assert(begins(notes)[i] == first_event(notes));
            }
            if n > 0 && last_event(notes) == last_event(front) {
                let i = choose|i: int|
                    0 <= i < n && #[trigger] ends(front)[i] == last_event(front);
                assert(ends(notes)[i] == last_event(notes));
            }
        }
    }
}

proof fn lemma_same_elements(s: Seq<Tick>, t: Seq<Tick>)
    requires
        t == stable_sort(s, |t: Tick| tick_key(t)),
    ensures
        s.len() == t.len(),
        forall|i: int| 0 <= i < s.len() ==> t.contains(#[trigger] s[i]),
        forall|i: int| 0 <= i < t.len() ==> s.contains(#[trigger] t[i]),
{
    lemma_stable_sort(s, |t: Tick| tick_key(t));
}

/// Finds for how many ticks each number of notes sounds.
#[verifier::rlimit(60)]
pub fn polyphony_histogram(notes: &[Note]) -> (h: Vec<u128>)
    ensures
        is_histogram(h@, notes@),
{
    let mut ons: Vec<Tick> = Vec::new();
    let mut offs: Vec<Tick> = Vec::new();
    let mut i: usize = 0;
    proof {
        assert(notes@.take(0) =~= Seq::<Note>::empty());
    }
    while i < notes.len()
        invariant
            i <= notes.len(),
            ons@ == begins(notes@.take(i as int)),
            offs@ == ends(notes@.take(i as int)),
        decreases notes.len() - i,
    {
        proof {
            assert(notes@.take(i + 1).drop_last() =~= notes@.take(i as int));
        }
        if notes[i].off > notes[i].on {
            ons.push(notes[i].on);
            offs.push(notes[i].off);
        }
        i += 1;
    }
    proof {
        assert(notes@.take(i as int) =~= notes@);
        lemma_event_bounds(notes@);
    }
    let ups = sort_ticks(&ons);
    let downs = sort_ticks(&offs);
    let ghost a = first_event(notes@);
    let ghost b = last_event(notes@);
    proof {
        lemma_same_elements(ons@, ups@);
        lemma_same_elements(offs@, downs@);
        assert forall|t: int| #[trigger] voices(notes@, t) == count_until(ups@, t) - count_until(
            downs@,
            t,
        ) && 0 <= voices(notes@, t) <= notes.len() by {
            lemma_voices(notes@, t);
            lemma_count_sorted(ons@, t);
            lemma_count_sorted(offs@, t);
        }
        if ups.len() > 0 {
            assert(ons@.contains(ups@[0]));
        }
    }
    let mut h: Vec<u128> = Vec::new();
    if downs.len() == 0 {
        return h;
    }
    let mut u: usize = 0;
    let mut d: usize = 0;
    // What lies before the first event is silent.
    let mut previous: Tick = if ups.len() > 0 && ups[0] < 0 {
        ups[0]
    } else {
        0
    };
    proof {
        if ups.len() > 0 {
            if a < 0 {
                let k = choose|k: int|
                    0 <= k < begins(notes@).len() && #[trigger] begins(notes@)[k] == a;
                assert(ups@.contains(ons@[k]));
                let m = choose|m: int| 0 <= m < ups.len() && ups@[m] == ons@[k];
                assert(ups@[0] <= ups@[m]);
            }
            let k = choose|k: int| 0 <= k < ons.len() && ons@[k] == ups@[0];
            assert(a <= begins(notes@)[k]);
        }
        assert(previous == a);
        assert forall|k: int| 0 <= k < downs.len() implies previous <= #[trigger] downs@[k]
            <= b by {
            assert(offs@.contains(downs@[k]));
            let m = choose|m: int| 0 <= m < offs.len() && offs@[m] == downs@[k];
            assert(ends(notes@)[m] == downs@[k]);
            assert(begins(notes@)[m] < ends(notes@)[m]);
            assert(a <= begins(notes@)[m]);
        }
        assert forall|k: int| 0 <= k < ups.len() implies previous <= #[trigger] ups@[k] < b by {
            assert(ons@.contains(ups@[k]));
            let m = choose|m: int| 0 <= m < ons.len() && ons@[m] == ups@[k];
            assert(begins(notes@)[m] == ups@[k]);
            assert(begins(notes@)[m] < ends(notes@)[m]);
            assert(ends(notes@)[m] <= b);
        }
        assert(downs@[0] >= a && downs@[0] <= b);
        let w = choose|w: int| 0 <= w < ends(notes@).len() && #[trigger] ends(notes@)[w] == b;
        assert(downs@.contains(offs@[w]));
        assert forall|v: int| #[trigger] ticks_with(notes@, v, a, previous as int) == 0 by {}
    }
    while d < downs.len()
        invariant
            u <= ups.len() == downs.len(),
            d <= downs.len(),
            d <= u,
            ascends(ups@),
            ascends(downs@),
            a == first_event(notes@),
            a <= previous <= b,
            downs.len() > 0,
            forall|k: int| 0 <= k < downs.len() ==> #[trigger] downs@[k] <= b,
            forall|k: int| 0 <= k < ups.len() ==> #[trigger] ups@[k] < b,
            // The events so far are those up to `previous`.
            forall|k: int| 0 <= k < u ==> #[trigger] ups@[k] <= previous,
            forall|k: int| 0 <= k < d ==> #[trigger] downs@[k] <= previous,
            forall|k: int| u <= k < ups.len() ==> #[trigger] ups@[k] >= previous,
            forall|k: int| d <= k < downs.len() ==> #[trigger] downs@[k] >= previous,
            forall|t: int|
                #[trigger] voices(notes@, t) == count_until(ups@, t) - count_until(downs@, t),
            forall|v: int|
                0 <= v < h.len() ==> #[trigger] h[v] == ticks_with(
                    notes@,
                    v,
                    a,
                    previous as int,
                ),
            forall|v: int|
                v >= h.len() ==> #[trigger] ticks_with(notes@, v, a, previous as int) == 0,
            forall|v: int| #[trigger] ticks_with(notes@, v, a, previous as int) <= previous - a,
            h.len() > 0 ==> h[h.len() - 1] > 0,
            i64::MIN <= a <= i64::MAX,
            forall|t: int| 0 <= #[trigger] voices(notes@, t) <= notes.len(),
        decreases ups.len() - u + (downs.len() - d),
    {
        let rise: bool = u < ups.len() && ups[u] <= downs[d];
        proof {
            if !rise && d == u {
                let t = downs@[d as int] as int;
                assert forall|k: int| u <= k < ups.len() implies #[trigger] ups@[k] > t by {
                    assert(ups@[u as int] <= ups@[k]);
                }
                lemma_count_position(ups@, t, u as int);
                assert forall|k: int| 0 <= k < d + 1 implies #[trigger] downs@[k] <= t by {
                    assert(downs@[k] <= downs@[d as int]);
                }
                lemma_count_at_least(downs@, t, d + 1);
                assert(voices(notes@, t) >= 0);
            }
        }
        let tick: Tick = if rise {
            ups[u]
        } else {
            downs[d]
        };
        if tick > previous {
            let level: usize = u - d;
            proof {
                assert forall|t: int| previous <= t < tick implies #[trigger] voices(notes@, t)
                    == level by {
                    assert forall|k: int| u <= k < ups.len() implies #[trigger] ups@[k] > t by {
                        assert(ups@[u as int] <= ups@[k]);
                    }
                    assert forall|k: int| d <= k < downs.len() implies #[trigger] downs@[k]
                        > t by {
                        assert(downs@[d as int] <= downs@[k]);
                    }
                    lemma_count_position(ups@, t, u as int);
                    lemma_count_position(downs@, t, d as int);
                }
                assert forall|v: int| #[trigger] ticks_with(notes@, v, a, tick as int)
                    == ticks_with(notes@, v, a, previous as int) + (if v == level {
                    tick - previous
                } else {
                    0
                }) by {
                    lemma_ticks_constant(
                        notes@,
                        v,
                        a,
                        previous as int,
                        tick as int,
                        level as int,
                    );
                }
            }
            let ghost before = h@;
            while h.len() <= level
                invariant
                    before.len() <= h.len(),
                    forall|v: int| 0 <= v < before.len() ==> #[trigger] h[v] == before[v],
                    forall|v: int| before.len() <= v < h.len() ==> #[trigger] h[v] == 0,
                    h.len() <= level + 1 || h.len() == before.len(),
                decreases level + 1 - h.len(),
            {
                h.push(0);
            }
            let more: u128 = (tick as i128 - previous as i128) as u128;
            proof {
                assert(h[level as int] == ticks_with(notes@, level as int, a, previous as int));
            }
            h.set(level, h[level] + more);
            proof {
                assert forall|v: int| 0 <= v < h.len() implies #[trigger] h[v] == ticks_with(
                    notes@,
                    v,
                    a,
                    tick as int,
                ) by {
                    assert(ticks_with(notes@, v, a, previous as int) == (if v < before.len() {
                        before[v] as int
                    } else {
                        0
                    }));
                }
            }
        }
        previous = tick;
        if rise {
            u += 1;
        } else {
            d += 1;
        }
        proof {
            assert forall|k: int| u <= k < ups.len() implies #[trigger] ups@[k] >= previous by {
                if rise {
                    assert(ups@[u - 1] <= ups@[k]);
                } else {
                    assert(ups@[u as int] <= ups@[k]);
                }
            }
            assert forall|k: int| d <= k < downs.len() implies #[trigger] downs@[k]
                >= previous by {
                if rise {
                    assert(downs@[d as int] <= downs@[k]);
                } else {
                    assert(downs@[d - 1] <= downs@[k]);
                }
            }
        }
    }
    proof {
        let w = choose|w: int| 0 <= w < downs.len() && downs@[w] == b;
        assert(downs@[w] <= previous);
    }
    h
}

pub(crate) proof fn lemma_ticks_counted(notes: Seq<Note>, v: int, a: int, b: int, t: int)
    requires
        a <= t < b,
        voices(notes, t) == v,
    ensures
        ticks_with(notes, v, a, b) > 0,
    decreases b - a,
{
    lemma_ticks_nonnegative(notes, v, a, b - 1);
    if t < b - 1 {
        lemma_ticks_counted(notes, v, a, b - 1, t);
    }
}

proof fn lemma_ticks_nonnegative(notes: Seq<Note>, v: int, a: int, b: int)
    ensures
        ticks_with(notes, v, a, b) >= 0,
    decreases b - a,
{
    if a < b {
        lemma_ticks_nonnegative(notes, v, a, b - 1);
    }
}

pub proof fn lemma_ticks_witness(notes: Seq<Note>, v: int, a: int, b: int) -> (t: int)
    requires
        ticks_with(notes, v, a, b) > 0,
    ensures
        a <= t < b,
        voices(notes, t) == v,
    decreases b - a,
{
    if voices(notes, b - 1) == v {
        b - 1
    } else {
        lemma_ticks_witness(notes, v, a, b - 1)
    }
}

proof fn lemma_sounding_between(notes: Seq<Note>, t: int)
    requires
        voices(notes, t) > 0,
    ensures
        first_event(notes) <= t < last_event(notes),
    decreases notes.len(),
{
    let front = notes.drop_last();
    let last = notes.last();
    lemma_event_bounds(notes);
    lemma_event_bounds(front);
    lemma_voices(front, t);
    if last.on <= t < last.off {
        let n = begins(front).len() as int;
        assert(begins(notes)[n] == last.on);
        assert(ends(notes)[n] == last.off);
    } else {
        lemma_sounding_between(front, t);
        if begins(front).len() == 0 {
            assert(false);
        }
    }
}

/// Whether a number is the greatest of notes that sound at one tick.
pub open spec fn is_max_voices(notes: Seq<Note>, n: int) -> bool {
    &&& forall|t: int| #[trigger] voices(notes, t) <= n
    &&& n > 0 ==> exists|t: int| #[trigger] voices(notes, t) == n
    &&& n >= 0
}

/// The greatest number of notes that sound together.
pub fn max_polyphony(notes: &[Note]) -> (n: usize)
    ensures
        is_max_voices(notes@, n as int),
{
    let h = polyphony_histogram(notes);
    let ghost a = first_event(notes@);
    let ghost b = last_event(notes@);
    let n: usize = if h.len() == 0 {
        0
    } else {
        h.len() - 1
    };
    proof {
        assert forall|t: int| #[trigger] voices(notes@, t) <= n by {
            if voices(notes@, t) > 0 {
                lemma_sounding_between(notes@, t);
                lemma_ticks_counted(notes@, voices(notes@, t), a, b, t);
                if voices(notes@, t) >= h.len() {
                    assert(ticks_with(notes@, voices(notes@, t), a, b) == 0);
                }
            }
        }
        if n > 0 {
            let t = lemma_ticks_witness(notes@, n as int, a, b);
            assert(voices(notes@, t) == n);
        }
    }
    n
}

} // verus!
