//! The bars of a score.
use crate::frame::{among_signatures, is_section};
use crate::score::Tick;
use crate::text::{chars_of, copy_chars, cut, find_char, integer_of, parse_i64, same_chars, string_views, trim, trimmed};
use vstd::prelude::*;

verus! {

/// The tick from which bars have a length, and that length.
pub type Meter = (Tick, Tick);

/// A number within the range of ticks that a text writes, spaces around it aside.
pub open spec fn tick_of(s: Seq<char>) -> Option<int> {
    match integer_of(trimmed(s)) {
        Some(n) => if i64::MIN <= n <= i64::MAX {
            Some(n)
        } else {
            None
        },
        None => None,
    }
}

/// The meter that a line such as `384=3/4` writes.
pub open spec fn meter_of(line: Seq<char>) -> Option<Meter> {
    match cut(line, '=') {
        None => None,
        Some((tick, signature)) => match cut(signature, '/') {
            None => None,
            Some((num, den)) => match (tick_of(tick), tick_of(num), tick_of(den)) {
                (Some(t), Some(n), Some(d)) => if t < 0 || n <= 0 || d <= 0 || d > 384 || n * (384int
                    / d) > i64::MAX {
                    None
                } else {
                    Some((t as Tick, (n * (384int / d)) as Tick))
                },
                _ => None,
            },
        },
    }
}

/// Meters with one more, in place of the one at its tick; the ticks ascend.
pub open spec fn with_meter(meters: Seq<Meter>, new: Meter) -> Seq<Meter>
    decreases meters.len(),
{
    if meters.len() == 0 || meters.last().0 < new.0 {
        meters.push(new)
    } else if meters.last().0 == new.0 {
        meters.drop_last().push(new)
    } else {
        with_meter(meters.drop_last(), new).push(meters.last())
    }
}

/// The meters that the first lines write.
pub open spec fn meters_of(lines: Seq<Seq<char>>, n: int) -> Seq<Meter>
    decreases n,
{
    if n <= 0 {
        Seq::empty()
    } else {
        let before = meters_of(lines, n - 1);
        let line = lines[n - 1];
        if !is_section(line) && among_signatures(lines, n - 1) {
            match meter_of(trimmed(line)) {
                Some(new) => with_meter(before, new),
                None => before,
            }
        } else {
            before
        }
    }
}

/// Meters of which one begins with the score: where none is written, whole notes.
pub open spec fn from_start(meters: Seq<Meter>) -> Seq<Meter> {
    if meters.len() > 0 && meters[0].0 == 0 {
        meters
    } else {
        seq![(0i64, 384i64)] + meters
    }
}

/// Whether meters begin no earlier than the score, one after the other, and bars last.
pub open spec fn is_metric(meters: Seq<Meter>) -> bool {
    &&& forall|i: int| 0 <= i < meters.len() ==> (#[trigger] meters[i]).0 >= 0 && meters[i].1 > 0
    &&& forall|i: int, j: int|
        #![trigger meters[i], meters[j]]
        0 <= i < j < meters.len() ==> meters[i].0 < meters[j].0
}

proof fn lemma_with_meter(meters: Seq<Meter>, new: Meter)
    requires
        is_metric(meters),
        new.0 >= 0,
        new.1 > 0,
    ensures
        is_metric(with_meter(meters, new)),
        with_meter(meters, new).len() > 0,
        with_meter(meters, new).last().0 == (if meters.len() == 0 || meters.last().0 < new.0 {
            new.0
        } else {
            meters.last().0
        }),
    decreases meters.len(),
{
    let all = with_meter(meters, new);
    if meters.len() == 0 || meters.last().0 < new.0 {
        assert forall|i: int, j: int|
            #![trigger all[i], all[j]]
            0 <= i < j < all.len() implies all[i].0 < all[j].0 by {
            if j < meters.len() {
                assert(meters[i].0 < meters[j].0);
            } else if i < meters.len() - 1 {
                assert(meters[i].0 < meters[meters.len() - 1].0);
            }
        }
    } else if meters.last().0 == new.0 {
        assert forall|i: int, j: int|
            #![trigger all[i], all[j]]
            0 <= i < j < all.len() implies all[i].0 < all[j].0 by {
            assert(meters[i].0 < meters[j].0);
        }
    } else {
        let front = meters.drop_last();
        assert(is_metric(front)) by {
            assert forall|i: int, j: int|
                #![trigger front[i], front[j]]
                0 <= i < j < front.len() implies front[i].0 < front[j].0 by {
                assert(meters[i].0 < meters[j].0);
            }
            assert forall|i: int| 0 <= i < front.len() implies (#[trigger] front[i]).0 >= 0
                && front[i].1 > 0 by {
                assert(meters[i].0 >= 0);
            }
        }
        lemma_with_meter(front, new);
        let inner = with_meter(front, new);
        let last = meters.len() - 1;
        if front.len() > 0 {
            assert(meters[last - 1].0 < meters[last].0);
        }
        assert forall|i: int, j: int|
            #![trigger all[i], all[j]]
            0 <= i < j < all.len() implies all[i].0 < all[j].0 by {
            if j < inner.len() {
                assert(inner[i].0 < inner[j].0);
            } else if i < inner.len() - 1 {
                assert(inner[i].0 < inner[inner.len() - 1].0);
            }
        }
        assert forall|i: int| 0 <= i < all.len() implies (#[trigger] all[i]).0 >= 0 && all[i].1
            > 0 by {
            if i < inner.len() {
                assert(inner[i].0 >= 0);
            } else {
                assert(meters[last].0 >= 0);
            }
        }
    }
}

fn insert_meter(meters: &mut Vec<Meter>, new: Meter)
    ensures
        final(meters)@ == with_meter(old(meters)@, new),
{
    let ghost before = meters@;
    let mut i: usize = meters.len();
    let mut same: bool = false;
    proof {
        assert(before.take(i as int) =~= before);
        assert(with_meter(before.take(i as int), new) + before.skip(i as int) =~= with_meter(
            before,
            new,
        ));
    }
    while i > 0 && !same && meters[i - 1].0 >= new.0
        invariant
            i <= before.len(),
            before == meters@,
            with_meter(before.take(i as int), new) + before.skip(i as int) == with_meter(before, new),
            same ==> i > 0 && before[i - 1].0 == new.0,
        decreases i, (if same {
            0int
        } else {
            1int
        }),
    {
        proof {
            assert(before.take(i as int).drop_last() =~= before.take(i - 1));
            assert(before.take(i as int).last() == before[i - 1]);
        }
        if meters[i - 1].0 == new.0 {
            same = true;
        } else {
            proof {
                assert(with_meter(before.take(i - 1), new).push(before[i - 1]) + before.skip(
                    i as int,
                ) =~= with_meter(before.take(i - 1), new) + before.skip(i - 1));
            }
            i -= 1;
        }
    }
    proof {
        if i > 0 {
            assert(before.take(i as int).last() == before[i - 1]);
        }
    }
    if same {
        meters.set(i - 1, new);
        proof {
            assert(meters@ =~= before.take(i as int).drop_last().push(new) + before.skip(i as int));
        }
    } else {
        meters.insert(i, new);
        proof {
            assert(meters@ =~= before.take(i as int).push(new) + before.skip(i as int));
        }
    }
}

fn read_number(s: &Vec<char>) -> (r: Option<Tick>)
    ensures
        match r {
            Some(n) => tick_of(s@) == Some(n as int),
            None => tick_of(s@) is None,
        },
{
    parse_i64(&trim(s))
}

fn read_meter(line: &Vec<char>) -> (r: Option<Meter>)
    ensures
        r == meter_of(line@),
        r is Some ==> r->Some_0.0 >= 0 && r->Some_0.1 > 0,
{
    let equals = find_char(line, '=', 0);
    if equals == line.len() {
        return None;
    }
    let left = copy_chars(line, 0, equals);
    let signature = copy_chars(line, equals + 1, line.len());
    proof {
        assert(left@ =~= line@.take(equals as int));
        assert(signature@ =~= line@.skip(equals + 1));
    }
    let slash = find_char(&signature, '/', 0);
    if slash == signature.len() {
        return None;
    }
    let above = copy_chars(&signature, 0, slash);
    let below = copy_chars(&signature, slash + 1, signature.len());
    proof {
        assert(above@ =~= signature@.take(slash as int));
        assert(below@ =~= signature@.skip(slash + 1));
    }
    let tick = match read_number(&left) {
        Some(n) => n,
        None => return None,
    };
    let num = match read_number(&above) {
        Some(n) => n,
        None => return None,
    };
    let den = match read_number(&below) {
        Some(n) => n,
        None => return None,
    };
    if tick < 0 || num <= 0 || den <= 0 || den > 384 {
        return None;
    }
    let unit: i128 = 384 / den as i128;
    proof {
        let n = num as int;
        let u = unit as int;
        let d = den as int;
        assert(1 <= 384int / d <= 384) by (nonlinear_arith)
            requires
                1 <= d <= 384,
        ;
        assert(n <= n * u <= n * 384) by (nonlinear_arith)
            requires
                n >= 1,
                1 <= u <= 384,
        ;
    }
    let length: i128 = num as i128 * unit;
    if length > i64::MAX as i128 {
        return None;
    }
    Some((tick, length as Tick))
}

/// Reads how long bars are out of the lines behind the tracks.
pub fn bar_map(tail: &Vec<String>) -> (meters: Vec<Meter>)
    ensures
        meters@ == from_start(meters_of(string_views(tail@), tail.len() as int)),
        is_metric(meters@),
        meters.len() > 0,
        meters[0].0 == 0,
{
    let ghost lines = string_views(tail@);
    let mut meters: Vec<Meter> = Vec::new();
    let mut within: bool = false;
    let mut i: usize = 0;
    while i < tail.len()
        invariant
            i <= tail.len(),
            lines == string_views(tail@),
            within == among_signatures(lines, i as int),
            meters@ == meters_of(lines, i as int),
            is_metric(meters@),
        decreases tail.len() - i,
    {
        let line = trim(&chars_of(tail[i].as_str()));
        proof {
            assert(lines[i as int] == tail@[i as int]@);
        }
        if line.len() > 0 && line[0] == '[' {
            within = same_chars(&line, &chars_of("[time-signature]"));
        } else if within {
            match read_meter(&line) {
                Some(new) => {
                    proof {
                        lemma_with_meter(meters@, new);
                    }
                    insert_meter(&mut meters, new);
                },
                None => {},
            }
        }
        i += 1;
    }
    let ghost found = meters@;
    if meters.len() == 0 || meters[0].0 != 0 {
        meters.insert(0, (0, 384));
        proof {
            assert(meters@ =~= seq![(0i64, 384i64)] + found);
            assert forall|i: int, j: int|
                #![trigger meters@[i], meters@[j]]
                0 <= i < j < meters@.len() implies meters@[i].0 < meters@[j].0 by {
                assert(found[j - 1].0 >= 0);
                if i > 0 {
                    assert(found[i - 1].0 < found[j - 1].0);
                } else if j > 1 {
                    assert(found[0].0 < found[j - 1].0);
                    assert(found[0].0 >= 0);
                } else {
                    assert(found[0].0 >= 0);
                }
            }
            assert forall|i: int| 0 <= i < meters@.len() implies (#[trigger] meters@[i]).0 >= 0
                && meters@[i].1 > 0 by {
                if i > 0 {
                    assert(found[i - 1].0 >= 0);
                }
            }
        }
    }
    meters
}

/// A number no greater than the greatest tick.
pub open spec fn at_most_tick(n: int) -> int {
    if n > i64::MAX {
        i64::MAX as int
    } else {
        n
    }
}

/// The number of the bar that a tick lies in, counted on from a meter.
pub open spec fn bar_from(tick: int, meters: Seq<Meter>, i: int, bar: int) -> int
    decreases meters.len() - i,
{
    if i < 0 || i >= meters.len() {
        bar
    } else if i + 1 < meters.len() && tick >= meters[i + 1].0 {
        bar_from(
            tick,
            meters,
            i + 1,
            at_most_tick(bar + (meters[i + 1].0 - meters[i].0) / (meters[i].1 as int)),
        )
    } else {
        at_most_tick(bar + (tick - meters[i].0) / (meters[i].1 as int))
    }
}

/// Tells the number of the bar that a tick lies in, counted from one.
pub fn bar_of(tick: Tick, meters: &Vec<Meter>) -> (bar: Tick)
    requires
        tick >= 0,
        is_metric(meters@),
        meters.len() > 0,
        meters[0].0 == 0,
    ensures
        bar == bar_from(tick as int, meters@, 0, 1),
        bar >= 1,
{
    let mut bar: Tick = 1;
    let mut i: usize = 0;
    while i < meters.len()
        invariant
            i <= meters.len(),
            tick >= 0,
            is_metric(meters@),
            i < meters.len() ==> tick >= meters[i as int].0,
            bar >= 1,
            bar_from(tick as int, meters@, 0, 1) == bar_from(
                tick as int,
                meters@,
                i as int,
                bar as int,
            ),
        decreases meters.len() - i,
    {
        let (start, length) = meters[i];
        proof {
            assert(meters@[i as int].0 >= 0 && meters@[i as int].1 > 0);
        }
        let last = i + 1 >= meters.len() || tick < meters[i + 1].0;
        let end: Tick = if last {
            tick
        } else {
            meters[i + 1].0
        };
        proof {
            if !last {
                assert(meters@[i as int].0 < meters@[i + 1].0);
            }
            let d = end - start;
            let l = length as int;
            assert(0 <= d / l <= d) by (nonlinear_arith)
                requires
                    d >= 0,
                    l >= 1,
            ;
        }
        let more: i128 = bar as i128 + (end as i128 - start as i128) / (length as i128);
        let next: Tick = if more > i64::MAX as i128 {
            i64::MAX
        } else {
            more as Tick
        };
        if last {
            return next;
        }
        bar = next;
        i += 1;
    }
    bar
}

} // verus!
