//! Fixed-point continuous coordinates and exact integer division helpers.
//!
//! A continuous position is carried as a [`Fixed`] value: a signed count of
//! `1 / 65536` units.  All coordinate transforms divide such values by a
//! positive scale, so the library needs floor, ceiling and round-to-nearest
//! division on signed integers, each proved against the mathematical
//! quotient.

use vstd::arithmetic::div_mod::{
    lemma_fundamental_div_mod, lemma_fundamental_div_mod_converse,
};
use vstd::prelude::*;

verus! {

/// Number of [`Fixed`] units in 1.0: a `Fixed` with `raw == 65536` is one.
pub const FX_ONE: i64 = 65536;

/// Largest magnitude accepted by the division helpers below.
pub const DIV_IN_MAX: i64 = 0x4000_0000_0000_0000;

/// A continuous scalar in units of `1 / 65536`.
///
/// The narrow `i32` payload keeps every product formed by the coordinate
/// transforms comfortably inside `i64`.
#[derive(Clone, Copy, PartialEq, Eq, Structural, Debug)]
pub struct Fixed {
    pub raw: i32,
}

impl Fixed {
    /// The scalar `raw / 65536`.
    pub fn from_raw(raw: i32) -> (f: Fixed)
        ensures
            f.raw == raw,
    {
        Fixed { raw }
    }

    /// The integer `i` as a fixed-point scalar.
    pub fn from_int(i: i32) -> (f: Fixed)
        requires
            -32768 <= i <= 32767,
        ensures
            f.raw == i * FX_ONE,
    {
        Fixed { raw: i * 65536 }
    }

    /// True when the scalar is strictly positive, as a scale must be.
    pub fn is_positive(&self) -> (r: bool)
        ensures
            r == (self.raw >= 1),
    {
        self.raw >= 1
    }
}

/// `floor(n / d)` over the mathematical rationals, for `d > 0`.
///
/// Integer division on `int` is Euclidean, which coincides with floor
/// division whenever the divisor is positive.
pub open spec fn floor_div_spec(n: int, d: int) -> int {
    n / d
}

/// `ceil(n / d)` over the mathematical rationals, for `d > 0`.
pub open spec fn ceil_div_spec(n: int, d: int) -> int {
    -((-n) / d)
}

/// `n / d` rounded to the nearest integer, ties away from zero, for `d > 0`.
pub open spec fn round_div_spec(n: int, d: int) -> int {
    if n >= 0 {
        (2 * n + d) / (2 * d)
    } else {
        -((2 * (-n) + d) / (2 * d))
    }
}

/// Floor division of a signed numerator by a positive divisor.
pub fn floor_div(n: i64, d: i64) -> (q: i64)
    requires
        1 <= d,
        -DIV_IN_MAX <= n <= DIV_IN_MAX,
    ensures
        q == floor_div_spec(n as int, d as int),
        n >= 0 ==> 0 <= q <= n,
        n < 0 ==> n <= q <= 0,
        n >= d ==> q >= 1,
{
    if n >= 0 {
        let q0 = (n as u64) / (d as u64);
        proof {
            lemma_fundamental_div_mod(n as int, d as int);
            assert(d * (n as int / d as int) <= n as int);
            assert(n as int / d as int <= n as int) by (nonlinear_arith)
                requires
                    1 <= d as int,
                    0 <= n as int,
                    d * (n as int / d as int) <= n as int,
            {}
            let qq = n as int / d as int;
            let rr = n as int % d as int;
            assert(n >= d ==> qq >= 1) by (nonlinear_arith)
                requires
                    1 <= d as int,
                    n as int == (d as int) * qq + rr,
                    0 <= rr < d as int,
                    0 <= qq,
            {}
        }
        q0 as i64
    } else {
        let m = (-n) as u64;
        let du = d as u64;
        let q0 = m / du;
        let r0 = m % du;
        proof {
            lemma_fundamental_div_mod(m as int, du as int);
        }
        if r0 == 0 {
            proof {
                // n == d * (-q0) + 0, so -q0 is the Euclidean quotient.
                assert(n as int == (-(q0 as int)) * (d as int) + 0) by (nonlinear_arith)
                    requires
                        m as int == (du as int) * (q0 as int) + (r0 as int),
                        r0 as int == 0,
                        n as int == -(m as int),
                        du as int == d as int,
                {}
                lemma_fundamental_div_mod_converse(n as int, d as int, -(q0 as int), 0);
                assert(q0 as int <= m as int) by (nonlinear_arith)
                    requires
                        m as int == (du as int) * (q0 as int) + (r0 as int),
                        0 <= r0 as int,
                        0 <= q0 as int,
                        1 <= du as int,
                {}
            }
            -(q0 as i64)
        } else {
            proof {
                // n == d * (-q0 - 1) + (d - r0), with 0 <= d - r0 < d.
                assert(n as int == (-(q0 as int) - 1) * (d as int) + (d as int - r0 as int))
                    by (nonlinear_arith)
                    requires
                        m as int == (du as int) * (q0 as int) + (r0 as int),
                        n as int == -(m as int),
                        du as int == d as int,
                {}
                lemma_fundamental_div_mod_converse(
                    n as int,
                    d as int,
                    -(q0 as int) - 1,
                    d as int - r0 as int,
                );
                assert(q0 as int + 1 <= m as int) by (nonlinear_arith)
                    requires
                        m as int == (du as int) * (q0 as int) + (r0 as int),
                        1 <= r0 as int,
                        0 <= q0 as int,
                        1 <= du as int,
                {}
            }
            -(q0 as i64) - 1
        }
    }
}

/// Largest magnitude accepted by the wide division helper.
pub const DIV_IN_MAX_WIDE: i128 = 0x4000_0000_0000_0000_0000_0000_0000_0000;

/// Floor division of a wide signed numerator by a positive divisor.
pub fn floor_div_wide(n: i128, d: i128) -> (q: i128)
    requires
        1 <= d,
        -DIV_IN_MAX_WIDE <= n <= DIV_IN_MAX_WIDE,
    ensures
        q == floor_div_spec(n as int, d as int),
        n >= 0 ==> 0 <= q <= n,
        n < 0 ==> n <= q <= 0,
{
    if n >= 0 {
        let q0 = (n as u128) / (d as u128);
        proof {
            lemma_fundamental_div_mod(n as int, d as int);
            assert(d * (n as int / d as int) <= n as int);
            assert(n as int / d as int <= n as int) by (nonlinear_arith)
                requires
                    1 <= d as int,
                    0 <= n as int,
                    d * (n as int / d as int) <= n as int,
            {}
        }
        q0 as i128
    } else {
        let m = (-n) as u128;
        let du = d as u128;
        let q0 = m / du;
        let r0 = m % du;
        proof {
            lemma_fundamental_div_mod(m as int, du as int);
        }
        if r0 == 0 {
            proof {
                assert(n as int == (-(q0 as int)) * (d as int) + 0) by (nonlinear_arith)
                    requires
                        m as int == (du as int) * (q0 as int) + (r0 as int),
                        r0 as int == 0,
                        n as int == -(m as int),
                        du as int == d as int,
                {}
                lemma_fundamental_div_mod_converse(n as int, d as int, -(q0 as int), 0);
                assert(q0 as int <= m as int) by (nonlinear_arith)
                    requires
                        m as int == (du as int) * (q0 as int) + (r0 as int),
                        0 <= r0 as int,
                        0 <= q0 as int,
                        1 <= du as int,
                {}
            }
            -(q0 as i128)
        } else {
            proof {
                assert(n as int == (-(q0 as int) - 1) * (d as int) + (d as int - r0 as int))
                    by (nonlinear_arith)
                    requires
                        m as int == (du as int) * (q0 as int) + (r0 as int),
                        n as int == -(m as int),
                        du as int == d as int,
                {}
                lemma_fundamental_div_mod_converse(
                    n as int,
                    d as int,
                    -(q0 as int) - 1,
                    d as int - r0 as int,
                );
                assert(q0 as int + 1 <= m as int) by (nonlinear_arith)
                    requires
                        m as int == (du as int) * (q0 as int) + (r0 as int),
                        1 <= r0 as int,
                        0 <= q0 as int,
                        1 <= du as int,
                {}
            }
            -(q0 as i128) - 1
        }
    }
}

/// `n / d` truncated toward zero, for `d > 0`: floor for a non-negative
/// numerator, ceiling for a negative one.
pub open spec fn trunc_div_spec(n: int, d: int) -> int {
    if n >= 0 {
        n / d
    } else {
        -((-n) / d)
    }
}

/// Truncating division of a signed numerator by a positive divisor.
pub fn trunc_div(n: i64, d: i64) -> (q: i64)
    requires
        1 <= d,
        -DIV_IN_MAX <= n <= DIV_IN_MAX,
    ensures
        q == trunc_div_spec(n as int, d as int),
        n >= 0 ==> 0 <= q <= n,
        n < 0 ==> n <= q <= 0,
{
    if n >= 0 {
        floor_div(n, d)
    } else {
        -floor_div(-n, d)
    }
}

/// Ceiling division of a signed numerator by a positive divisor.
pub fn ceil_div(n: i64, d: i64) -> (q: i64)
    requires
        1 <= d,
        -DIV_IN_MAX <= n <= DIV_IN_MAX,
    ensures
        q == ceil_div_spec(n as int, d as int),
        n >= 0 ==> 0 <= q <= n,
        n < 0 ==> n <= q <= 0,
{
    -floor_div(-n, d)
}

/// Round-to-nearest division (ties away from zero) of a signed numerator by
/// a positive divisor.
pub fn round_div(n: i64, d: i64) -> (q: i64)
    requires
        1 <= d <= 0x1000_0000_0000_0000,
        -0x1000_0000_0000_0000 <= n <= 0x1000_0000_0000_0000,
    ensures
        q == round_div_spec(n as int, d as int),
        n >= 0 ==> 0 <= q <= n + 1,
        n < 0 ==> n - 1 <= q <= 0,
{
    proof {
        lemma_round_div_close(n as int, d as int);
        let qs = round_div_spec(n as int, d as int);
        assert((n >= 0 ==> 0 <= qs <= n + 1) && (n < 0 ==> n - 1 <= qs <= 0))
            by (nonlinear_arith)
            requires
                1 <= d as int,
                n as int - d as int <= qs * (d as int) <= n as int + d as int,
                n >= 0 ==> qs >= 0,
                n < 0 ==> qs <= 0,
        {}
    }
    if n >= 0 {
        floor_div(2 * n + d, 2 * d)
    } else {
        -floor_div(2 * (-n) + d, 2 * d)
    }
}

/// The rounded quotient is within one of the true quotient: scaled back up by
/// the divisor it stays within `d` of the numerator.
pub proof fn lemma_round_div_close(n: int, d: int)
    requires
        1 <= d,
    ensures
        n - d <= round_div_spec(n, d) * d <= n + d,
        n >= 0 ==> round_div_spec(n, d) >= 0,
        n < 0 ==> round_div_spec(n, d) <= 0,
{
    if n >= 0 {
        let q = (2 * n + d) / (2 * d);
        lemma_fundamental_div_mod(2 * n + d, 2 * d);
        let r = (2 * n + d) % (2 * d);
        assert(2 * n + d == 2 * d * q + r);
        assert(0 <= r < 2 * d);
        assert(n - d <= q * d <= n + d && q >= 0) by (nonlinear_arith)
            requires
                2 * n + d == 2 * d * q + r,
                0 <= r < 2 * d,
                1 <= d,
                0 <= n,
        {}
        assert(round_div_spec(n, d) == q);
        assert(round_div_spec(n, d) * d == q * d);
    } else {
        let m = -n;
        let q = (2 * m + d) / (2 * d);
        lemma_fundamental_div_mod(2 * m + d, 2 * d);
        let r = (2 * m + d) % (2 * d);
        assert(2 * m + d == 2 * d * q + r);
        assert(0 <= r < 2 * d);
        assert(m - d <= q * d <= m + d && q >= 0) by (nonlinear_arith)
            requires
                2 * m + d == 2 * d * q + r,
                0 <= r < 2 * d,
                1 <= d,
                0 < m,
        {}
        assert(round_div_spec(n, d) == -q);
        assert(round_div_spec(n, d) * d == -(q * d)) by (nonlinear_arith)
            requires
                round_div_spec(n, d) == -q,
        {}
    }
}

/// A quotient is no larger in magnitude than any bound the numerator stays
/// under, scaled by the divisor.
pub proof fn lemma_floor_div_bound(n: int, d: int, b: int)
    requires
        1 <= d,
        0 <= b,
        -(b * d) <= n <= b * d,
    ensures
        -b <= floor_div_spec(n, d) <= b,
{
    let q = n / d;
    let r = n % d;
    lemma_fundamental_div_mod(n, d);
    assert(-b <= q <= b) by (nonlinear_arith)
        requires
            n == d * q + r,
            0 <= r < d,
            1 <= d,
            0 <= b,
            -(b * d) <= n <= b * d,
    {}
}

/// Floor division distributes over a sum of numerators up to a carry of one.
pub proof fn lemma_floor_div_add(a: int, b: int, d: int)
    requires
        1 <= d,
    ensures
        floor_div_spec(a, d) + floor_div_spec(b, d) <= floor_div_spec(a + b, d)
            <= floor_div_spec(a, d) + floor_div_spec(b, d) + 1,
{
    let qa = a / d;
    let ra = a % d;
    let qb = b / d;
    let rb = b % d;
    lemma_fundamental_div_mod(a, d);
    lemma_fundamental_div_mod(b, d);
    if ra + rb < d {
        assert(a + b == (qa + qb) * d + (ra + rb)) by (nonlinear_arith)
            requires
                a == d * qa + ra,
                b == d * qb + rb,
        {}
        lemma_fundamental_div_mod_converse(a + b, d, qa + qb, ra + rb);
    } else {
        assert(a + b == (qa + qb + 1) * d + (ra + rb - d)) by (nonlinear_arith)
            requires
                a == d * qa + ra,
                b == d * qb + rb,
        {}
        lemma_fundamental_div_mod_converse(a + b, d, qa + qb + 1, ra + rb - d);
    }
}

} // verus!
