//! Comparing fractions.
use vstd::prelude::*;

verus! {

proof fn lemma_ratio(a: int, m: int, b: int, n: int)
    requires
        0 <= a,
        0 <= b,
        m > 0,
        n > 0,
    ensures
        a / m < b / n ==> a * n < b * m,
        a / m > b / n ==> a * n > b * m,
        a / m == b / n ==> (a * n < b * m) == ((a % m) * n < (b % n) * m),
{
    let p = a / m;
    let q = b / n;
    let r = a % m;
    let s = b % n;
    vstd::arithmetic::div_mod::lemma_fundamental_div_mod(a, m);
    vstd::arithmetic::div_mod::lemma_fundamental_div_mod(b, n);
    vstd::arithmetic::div_mod::lemma_mod_bound(a, m);
    vstd::arithmetic::div_mod::lemma_mod_bound(b, n);
    assert(a * n == p * m * n + r * n) by (nonlinear_arith)
        requires
            a == m * p + r,
    ;
    assert(b * m == q * m * n + s * m) by (nonlinear_arith)
        requires
            b == n * q + s,
    ;
    assert(0 <= r * n < m * n) by (nonlinear_arith)
        requires
            0 <= r < m,
            n > 0,
    ;
    assert(0 <= s * m < m * n) by (nonlinear_arith)
        requires
            0 <= s < n,
            m > 0,
    ;
    if p < q {
        assert(p * m * n + m * n <= q * m * n) by (nonlinear_arith)
            requires
                p + 1 <= q,
                m > 0,
                n > 0,
        ;
    } else if p > q {
        assert(q * m * n + m * n <= p * m * n) by (nonlinear_arith)
            requires
                q + 1 <= p,
                m > 0,
                n > 0,
        ;
    }
}

/// Tells whether one fraction is less than another, however large they are.
pub fn less_ratio(a: u128, m: u64, b: u128, n: u64) -> (r: bool)
    requires
        m > 0,
        n > 0,
    ensures
        r == (a * n < b * m),
{
    let p: u128 = a / m as u128;
    let q: u128 = b / n as u128;
    let x: u128 = a % m as u128;
    let y: u128 = b % n as u128;
    proof {
        lemma_ratio(a as int, m as int, b as int, n as int);
        assert(x * n <= 0xffff_ffff_ffff_ffff * 0xffff_ffff_ffff_ffff) by (nonlinear_arith)
            requires
                0 <= x <= 0xffff_ffff_ffff_ffff,
                0 <= n <= 0xffff_ffff_ffff_ffff,
        ;
        assert(y * m <= 0xffff_ffff_ffff_ffff * 0xffff_ffff_ffff_ffff) by (nonlinear_arith)
            requires
                0 <= y <= 0xffff_ffff_ffff_ffff,
                0 <= m <= 0xffff_ffff_ffff_ffff,
        ;
    }
    if p == q {
        x * (n as u128) < y * (m as u128)
    } else {
        p < q
    }
}

/// Tells whether the mean of some pitches, given by their sum and how many they are, is less than
/// that of others.
pub fn less_mean(a: i128, m: u64, b: i128, n: u64) -> (r: bool)
    requires
        m > 0,
        n > 0,
        -m * 0x8000_0000 <= a <= m * 0x8000_0000,
        -n * 0x8000_0000 <= b <= n * 0x8000_0000,
    ensures
        r == (a * n < b * m),
{
    let x: i128 = a + m as i128 * 0x8000_0000;
    let y: i128 = b + n as i128 * 0x8000_0000;
    proof {
        assert((x * n < y * m) == (a * n < b * m)) by (nonlinear_arith)
            requires
                x == a + m * 0x8000_0000,
                y == b + n * 0x8000_0000,
        ;
    }
    less_ratio(x as u128, m, y as u128, n)
}

} // verus!
