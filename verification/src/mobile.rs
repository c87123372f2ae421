//! The lengths that can be written for mobile players.
use crate::score::Tick;
use vstd::prelude::*;

verus! {

/// The lengths that one sign writes, in the order in which they are tried.
pub open spec fn signs() -> Seq<int> {
    seq![384, 576, 192, 288, 96, 144, 48, 72, 24, 36, 12, 18, 6, 9, 64, 32, 16, 8]
}

/// The lengths below this one are looked up.
pub const TABLE_TICKS: usize = 768;

/// Whether numbers choose one, two or three different signs: a single one three times, two
/// with the second repeated, or three that ascend.
pub open spec fn chooses(i: int, j: int, k: int) -> bool {
    0 <= i <= j <= k < 18 && (i == j ==> j == k)
}

/// What the chosen signs last together.
pub open spec fn chosen_ticks(i: int, j: int, k: int) -> int {
    signs()[i] + (if j > i {
        signs()[j]
    } else {
        0
    }) + (if k > j {
        signs()[k]
    } else {
        0
    })
}

/// Whether chosen signs last for a number of ticks.
pub open spec fn lasts(i: int, j: int, k: int, ticks: int) -> bool {
    chooses(i, j, k) && chosen_ticks(i, j, k) == ticks
}

/// Whether at most three different signs last for a number of ticks together.
pub open spec fn is_sum(ticks: int) -> bool {
    exists|i: int, j: int, k: int| lasts(i, j, k, ticks)
}

/// Whether a length is found by looking it up.
pub open spec fn is_listed(ticks: int) -> bool {
    0 <= ticks < 768 && is_sum(ticks)
}

/// The lengths by which a remainder is taken, one after the other.
pub open spec fn steps() -> Seq<int> {
    seq![384, 192, 96, 48, 24, 12, 6]
}

/// Whether a length is found, or its remainder by one of the steps from a given one on.
pub open spec fn is_found(ticks: int, step: int) -> bool
    decreases 7 - step,
{
    if step < 0 || step >= 7 {
        ticks == 0
    } else {
        is_listed(ticks) || is_found(ticks % steps()[step], step + 1)
    }
}

/// What is left of a length when as many dotted whole notes are taken off as bring it to
/// two whole notes at most.
pub open spec fn shortened(ticks: int) -> int {
    if ticks > 768 {
        ticks - ((ticks - 769) / 576 + 1) * 576
    } else {
        ticks
    }
}

/// Whether a length can be written for mobile players.
pub open spec fn is_compatible(ticks: int) -> bool {
    ticks >= 0 && is_found(shortened(ticks), 0)
}

spec fn earlier(i: int, j: int, k: int, a: int, b: int, c: int) -> bool {
    i < a || (i == a && (j < b || (j == b && k < c)))
}

/// Whether a table holds all that is chosen before some choice, and nothing that is no sum.
spec fn holds_before(table: Seq<bool>, a: int, b: int, c: int) -> bool {
    &&& table.len() == 768
    &&& forall|t: int| 0 <= t < 768 && #[trigger] table[t] ==> is_sum(t)
    &&& forall|i: int, j: int, k: int|
        #![trigger chosen_ticks(i, j, k)]
        chooses(i, j, k) && earlier(i, j, k, a, b, c) && chosen_ticks(i, j, k) < 768
            ==> table[chosen_ticks(i, j, k)]
}

fn mark(table: &mut Vec<bool>, ticks: usize, Ghost(i): Ghost<int>, Ghost(j): Ghost<int>, Ghost(k): Ghost<int>)
    requires
        holds_before(old(table)@, i, j, k),
        lasts(i, j, k, ticks as int),
    ensures
        holds_before(final(table)@, i, j, k + 1),
{
    let ghost before = table@;
    if ticks < 768 {
        table.set(ticks, true);
        proof {
            assert(table@ == before.update(ticks as int, true));
            assert forall|t: int| 0 <= t < 768 && #[trigger] table@[t] implies is_sum(t) by {
                if t == ticks {
                    assert(lasts(i, j, k, t));
                } else {
                    assert(before[t]);
                }
            }
        }
    }
    proof {
        assert forall|x: int, y: int, z: int|
            #![trigger chosen_ticks(x, y, z)]
            chooses(x, y, z) && earlier(x, y, z, i, j, k + 1) && chosen_ticks(x, y, z)
                < 768 implies table@[chosen_ticks(x, y, z)] by {
            lemma_signs();
            if earlier(x, y, z, i, j, k) {
                assert(before[chosen_ticks(x, y, z)]);
            } else {
                assert(x == i && y == j && z == k);
            }
        }
    }
}

proof fn lemma_signs()
    ensures
        forall|i: int| 0 <= i < 18 ==> 6 <= #[trigger] signs()[i] <= 576,
        signs().len() == 18,
{
}

fn sign_list() -> (list: Vec<usize>)
    ensures
        list.len() == 18,
        forall|i: int| 0 <= i < 18 ==> #[trigger] list[i] == signs()[i],
{
    vec![384, 576, 192, 288, 96, 144, 48, 72, 24, 36, 12, 18, 6, 9, 64, 32, 16, 8]
}

/// Lists the lengths that at most three different signs write.
#[verifier::rlimit(40)]
pub fn inverse_table() -> (table: Vec<bool>)
    ensures
        table.len() == 768,
        forall|t: int| 0 <= t < 768 ==> #[trigger] table[t] == is_listed(t),
{
    let list = sign_list();
    let mut table: Vec<bool> = Vec::new();
    let mut i: usize = 0;
    while i < TABLE_TICKS
        invariant
            i <= 768,
            table.len() == i,
            forall|t: int| 0 <= t < i ==> !#[trigger] table[t],
        decreases 768 - i,
    {
        table.push(false);
        i += 1;
    }
    let mut i: usize = 0;
    while i < 18
        invariant
            i <= 18,
            list.len() == 18,
            forall|x: int| 0 <= x < 18 ==> #[trigger] list[x] == signs()[x],
            holds_before(table@, i as int, i as int, i as int),
        decreases 18 - i,
    {
        proof {
            lemma_signs();
        }
        let a = list[i];
        mark(&mut table, a, Ghost(i as int), Ghost(i as int), Ghost(i as int));
        let mut j: usize = i + 1;
        proof {
            assert(holds_before(table@, i as int, j as int, j as int));
        }
        while j < 18
            invariant
                i < j <= 18,
                a == signs()[i as int],
                a <= 576,
                list.len() == 18,
                forall|x: int| 0 <= x < 18 ==> #[trigger] list[x] == signs()[x],
                holds_before(table@, i as int, j as int, j as int),
            decreases 18 - j,
        {
            proof {
                lemma_signs();
            }
            let b = list[j];
            mark(&mut table, a + b, Ghost(i as int), Ghost(j as int), Ghost(j as int));
            let mut k: usize = j + 1;
            while k < 18
                invariant
                    i < j < k <= 18,
                    a == signs()[i as int],
                    b == signs()[j as int],
                    a <= 576,
                    b <= 576,
                    list.len() == 18,
                    forall|x: int| 0 <= x < 18 ==> #[trigger] list[x] == signs()[x],
                    holds_before(table@, i as int, j as int, k as int),
                decreases 18 - k,
            {
                proof {
                    lemma_signs();
                }
                mark(&mut table, a + b + list[k], Ghost(i as int), Ghost(j as int), Ghost(k as int));
                k += 1;
            }
            j += 1;
            proof {
                assert(holds_before(table@, i as int, j as int, j as int));
            }
        }
        i += 1;
        proof {
            assert(holds_before(table@, i as int, i as int, i as int));
        }
    }
    proof {
        lemma_signs();
        assert forall|t: int| 0 <= t < 768 implies #[trigger] table[t] == is_listed(t) by {
            if is_sum(t) {
                let (x, y, z) = choose|x: int, y: int, z: int| lasts(x, y, z, t);
                assert(table[chosen_ticks(x, y, z)]);
            }
        }
    }
    table
}

/// Tells whether a length can be written for mobile players, with the list of those that
/// need no remainder.
pub fn fits_table(table: &Vec<bool>, ticks: Tick) -> (r: bool)
    requires
        table.len() == 768,
        forall|t: int| 0 <= t < 768 ==> #[trigger] table[t] == is_listed(t),
    ensures
        r == is_compatible(ticks as int),
{
    if ticks < 0 {
        return false;
    }
    let mut rest: Tick = ticks;
    if rest > 768 {
        let whole: Tick = (rest - 769) / 576 + 1;
        rest = rest - whole * 576;
    }
    let list: Vec<Tick> = vec![384, 192, 96, 48, 24, 12, 6];
    let mut step: usize = 0;
    while step < 7
        invariant
            step <= 7,
            list.len() == 7,
            forall|x: int| 0 <= x < 7 ==> #[trigger] list[x] == steps()[x],
            table.len() == 768,
            forall|t: int| 0 <= t < 768 ==> #[trigger] table[t] == is_listed(t),
            0 <= rest,
            ticks >= 0,
            is_compatible(ticks as int) == is_found(rest as int, step as int),
        decreases 7 - step,
    {
        if rest < 768 && table[rest as usize] {
            return true;
        }
        proof {
            assert(list[step as int] == steps()[step as int]);
        }
        rest = rest % list[step];
        step += 1;
    }
    rest == 0
}

/// Tells whether a length can be written for mobile players.
pub fn compatible_duration(ticks: Tick) -> (r: bool)
    ensures
        r == is_compatible(ticks as int),
{
    fits_table(&inverse_table(), ticks)
}

/// Every multiple of the smallest step can be written.
pub proof fn law_steps_are_compatible(n: nat)
    ensures
        is_compatible(6 * n as int),
{
    let ticks = 6 * n as int;
    let s = shortened(ticks);
    let q: int = (ticks - 769) / 576 + 1;
    let m: int = if ticks > 768 {
        n - q * 96
    } else {
        n as int
    };
    assert(s == 6 * m);
    lemma_found(m, 0);
}

proof fn lemma_found(m: int, step: int)
    requires
        0 <= step <= 7,
        m >= 0,
        step == 7 ==> m == 0,
    ensures
        is_found(6 * m, step),
    decreases 7 - step,
{
    if step < 7 {
        let d = steps()[step];
        let e: int = d / 6;
        assert(d == 6 * e && e > 0);
        vstd::arithmetic::div_mod::lemma_truncate_middle(m, 6, e);
        if step == 6 {
            assert(m % 1 == 0);
        }
        lemma_found(m % e, step + 1);
    }
}

} // verus!
