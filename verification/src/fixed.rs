//! Fixed-point quantities and rounding division.
//!
//! Every real-valued quantity of this crate (seconds, beats, beats per minute)
//! is held as a whole number of millionths. Products and quotients of such
//! quantities are rounded once, to the nearest whole number, with halves going
//! away from zero.

use vstd::prelude::*;

verus! {

/// The quotient `n / d` rounded to the nearest integer, halves away from zero.
/// Meaningful for `d > 0`.
pub open spec fn div_round(n: int, d: int) -> int {
    if n >= 0 {
        (2 * n + d) / (2 * d)
    } else {
        -((d - 2 * n) / (2 * d))
    }
}

/// The quotient `n / d` rounded like `div_round`, for a divisor of either
/// sign. Meaningful for `d != 0`.
pub open spec fn div_round_signed(n: int, d: int) -> int {
    if d > 0 {
        div_round(n, d)
    } else {
        div_round(-n, -d)
    }
}

/// `i` clamped into `lo ..= hi`.
pub open spec fn clamp(i: int, lo: int, hi: int) -> int {
    if i < lo {
        lo
    } else if i > hi {
        hi
    } else {
        i
    }
}

/// Largest magnitude of a numerator that `div_round_i128` accepts.
pub const NUMERATOR_LIMIT: i128 = 0x4000_0000_0000_0000_0000_0000_0000_0000;

/// Computes `div_round(n, d)`.
pub fn div_round_i128(n: i128, d: u64) -> (q: i128)
    requires
        d > 0,
        -NUMERATOR_LIMIT <= n <= NUMERATOR_LIMIT,
    ensures
        q == div_round(n as int, d as int),
{
    let wide: u128 = d as u128;
    if n >= 0 {
        let m: u128 = n as u128;
        let q: u128 = (2 * m + wide) / (2 * wide);
        assert(2 * q <= 2 * m + wide) by (nonlinear_arith)
            requires
                q == (2 * m + wide) / (2 * wide),
                wide > 0,
        ;
        q as i128
    } else {
        let m: u128 = (-n) as u128;
        let q: u128 = (2 * m + wide) / (2 * wide);
        assert(2 * q <= 2 * m + wide) by (nonlinear_arith)
            requires
                q == (2 * m + wide) / (2 * wide),
                wide > 0,
        ;
        -(q as i128)
    }
}

/// Computes `div_round_signed(n, d)`.
pub fn div_round_signed_i128(n: i128, d: i64) -> (q: i128)
    requires
        d != 0,
        -NUMERATOR_LIMIT <= n <= NUMERATOR_LIMIT,
    ensures
        q == div_round_signed(n as int, d as int),
{
    if d > 0 {
        div_round_i128(n, d as u64)
    } else if d == i64::MIN {
        div_round_i128(-n, 0x8000_0000_0000_0000u64)
    } else {
        div_round_i128(-n, (-d) as u64)
    }
}

/// Clamps a wide integer into the range of `i64`.
pub fn clamp_i64(i: i128) -> (r: i64)
    ensures
        r == clamp(i as int, i64::MIN as int, i64::MAX as int),
{
    if i < i64::MIN as i128 {
        i64::MIN
    } else if i > i64::MAX as i128 {
        i64::MAX
    } else {
        i as i64
    }
}

/// Clamps a wide integer into the range of `i32`.
pub fn clamp_i32(i: i128) -> (r: i32)
    ensures
        r == clamp(i as int, i32::MIN as int, i32::MAX as int),
{
    if i < i32::MIN as i128 {
        i32::MIN
    } else if i > i32::MAX as i128 {
        i32::MAX
    } else {
        i as i32
    }
}

/// A product is bounded by the product of the bounds of its factors.
pub proof fn lemma_product_bound(a: int, b: int, bound_a: int, bound_b: int)
    requires
        -bound_a <= a <= bound_a,
        -bound_b <= b <= bound_b,
    ensures
        -(bound_a * bound_b) <= a * b <= bound_a * bound_b,
{
    assert(-(bound_a * bound_b) <= a * b <= bound_a * bound_b) by (nonlinear_arith)
        requires
            -bound_a <= a <= bound_a,
            -bound_b <= b <= bound_b,
    ;
}

/// `div_round` never moves past zero: a non-negative numerator gives a
/// non-negative quotient, a non-positive one a non-positive quotient.
pub proof fn lemma_div_round_sign(n: int, d: int)
    requires
        d > 0,
    ensures
        n >= 0 ==> div_round(n, d) >= 0,
        n <= 0 ==> div_round(n, d) <= 0,
        n == 0 ==> div_round(n, d) == 0,
{
    assert(n >= 0 ==> (2 * n + d) / (2 * d) >= 0) by (nonlinear_arith)
        requires
            d > 0,
    ;
    assert(n <= 0 ==> (d - 2 * n) / (2 * d) >= 0) by (nonlinear_arith)
        requires
            d > 0,
    ;
    assert(d / (2 * d) == 0) by (nonlinear_arith)
        requires
            d > 0,
    ;
}

/// `div_round` is monotone in its numerator.
pub proof fn lemma_div_round_monotone(a: int, b: int, d: int)
    requires
        d > 0,
        a <= b,
    ensures
        div_round(a, d) <= div_round(b, d),
{
    lemma_div_round_sign(a, d);
    lemma_div_round_sign(b, d);
    if a >= 0 {
        assert((2 * a + d) / (2 * d) <= (2 * b + d) / (2 * d)) by (nonlinear_arith)
            requires
                d > 0,
                a <= b,
        ;
    } else if b < 0 {
        assert((d - 2 * b) / (2 * d) <= (d - 2 * a) / (2 * d)) by (nonlinear_arith)
            requires
                d > 0,
                a <= b,
        ;
    }
}

/// `div_round(n, d)` is a nearest integer to `n / d`: it lies within half a
/// unit of the exact quotient.
pub proof fn lemma_div_round_nearest(n: int, d: int)
    requires
        d > 0,
    ensures
        -d <= 2 * (div_round(n, d) * d - n) <= d,
{
    if n >= 0 {
        let q = (2 * n + d) / (2 * d);
        assert(q * (2 * d) <= 2 * n + d < (q + 1) * (2 * d)) by (nonlinear_arith)
            requires
                q == (2 * n + d) / (2 * d),
                d > 0,
        ;
        assert(q * (2 * d) == 2 * (q * d)) by (nonlinear_arith);
        assert((q + 1) * (2 * d) == 2 * (q * d) + 2 * d) by (nonlinear_arith);
    } else {
        let q = (d - 2 * n) / (2 * d);
        assert(q * (2 * d) <= d - 2 * n < (q + 1) * (2 * d)) by (nonlinear_arith)
            requires
                q == (d - 2 * n) / (2 * d),
                d > 0,
        ;
        assert(q * (2 * d) == 2 * (q * d)) by (nonlinear_arith);
        assert((q + 1) * (2 * d) == 2 * (q * d) + 2 * d) by (nonlinear_arith);
        assert((-q) * d == -(q * d)) by (nonlinear_arith);
    }
}

/// The rounded quotient is no larger in magnitude than the numerator.
pub proof fn lemma_div_round_signed_bound(n: int, d: int)
    requires
        d != 0,
    ensures
        n >= 0 ==> -n <= div_round_signed(n, d) <= n,
        n <= 0 ==> n <= div_round_signed(n, d) <= -n,
{
    let m = if d > 0 {
        n
    } else {
        -n
    };
    let e = if d > 0 {
        d
    } else {
        -d
    };
    lemma_div_round_sign(m, e);
    lemma_div_round_nearest(m, e);
    let q = div_round(m, e);
    if m >= 0 && q > m {
        assert(q * e >= (m + 1) * e) by (nonlinear_arith)
            requires
                q >= m + 1,
                e >= 1,
        ;
        assert((m + 1) * e >= m + e) by (nonlinear_arith)
            requires
                m >= 0,
                e >= 1,
        ;
    }
    if m <= 0 && q < m {
        assert(q * e <= (m - 1) * e) by (nonlinear_arith)
            requires
                q <= m - 1,
                e >= 1,
        ;
        assert((m - 1) * e <= m - e) by (nonlinear_arith)
            requires
                m <= 0,
                e >= 1,
        ;
    }
}

/// Whether one integer divides another does not depend on their signs.
pub proof fn lemma_divisible_magnitude(a: int, n: int)
    requires
        n != 0,
    ensures
        (a % n == 0) == ((if a < 0 {
            -a
        } else {
            a
        }) % (if n < 0 {
            -n
        } else {
            n
        }) == 0),
{
    let size = if a < 0 {
        -a
    } else {
        a
    };
    let step = if n < 0 {
        -n
    } else {
        n
    };
    if a % n == 0 {
        let q = a / n;
        assert(a == q * n) by (nonlinear_arith)
            requires
                q == a / n,
                a % n == 0,
                n != 0,
        ;
        let k = if (a < 0) == (n < 0) {
            q
        } else {
            -q
        };
        assert(size == k * step) by (nonlinear_arith)
            requires
                a == q * n,
                size == if a < 0 {
                    -a
                } else {
                    a
                },
                step == if n < 0 {
                    -n
                } else {
                    n
                },
                k == if (a < 0) == (n < 0) {
                    q
                } else {
                    -q
                },
        ;
        vstd::arithmetic::div_mod::lemma_mod_multiples_basic(k, step);
    }
    if size % step == 0 {
        let q = size / step;
        assert(size == q * step) by (nonlinear_arith)
            requires
                q == size / step,
                size % step == 0,
                step > 0,
        ;
        let k = if (a < 0) == (n < 0) {
            q
        } else {
            -q
        };
        assert(a == k * n) by (nonlinear_arith)
            requires
                size == q * step,
                size == if a < 0 {
                    -a
                } else {
                    a
                },
                step == if n < 0 {
                    -n
                } else {
                    n
                },
                k == if (a < 0) == (n < 0) {
                    q
                } else {
                    -q
                },
        ;
        if n > 0 {
            vstd::arithmetic::div_mod::lemma_mod_multiples_basic(k, n);
        } else {
            lemma_multiple_of_negative(k, n);
        }
    }
}

/// A multiple of a negative divisor leaves no remainder.
proof fn lemma_multiple_of_negative(k: int, n: int)
    requires
        n < 0,
    ensures
        (k * n) % n == 0,
{
    assert((k * n) % n == 0) by (nonlinear_arith)
        requires
            n < 0,
    ;
}

/// The largest magnitude that `mul_div_round` tells; beyond it the result is
/// held at this bound.
pub const WIDE_LIMIT: i128 = 0x1_0000_0000_0000_0000;

/// The rounded quotient of a non-negative numerator, taken apart along a
/// split of one of its factors: with `s == a * d + b`, the quotient of
/// `m * s` by `d` is `m * a` more than that of `m * b`.
pub proof fn lemma_div_round_split(m: int, s: int, a: int, b: int, d: int)
    requires
        d > 0,
        0 <= m,
        0 <= a,
        0 <= b < d,
        s == a * d + b,
    ensures
        div_round(m * s, d) == m * a + div_round(m * b, d),
        0 <= m * b,
        0 <= m * s,
{
    let x = 2 * (m * s) + d;
    let y = 2 * (m * b) + d;
    assert(0 <= m * b) by (nonlinear_arith)
        requires
            0 <= m,
            0 <= b,
    ;
    assert(m * s == (m * a) * d + m * b) by (nonlinear_arith)
        requires
            s == a * d + b,
    ;
    assert(0 <= (m * a) * d) by (nonlinear_arith)
        requires
            0 <= m,
            0 <= a,
            0 < d,
    ;
    assert(x == (m * a) * (2 * d) + y) by (nonlinear_arith)
        requires
            x == 2 * (m * s) + d,
            y == 2 * (m * b) + d,
            m * s == (m * a) * d + m * b,
    ;
    vstd::arithmetic::div_mod::lemma_fundamental_div_mod(y, 2 * d);
    vstd::arithmetic::div_mod::lemma_mod_pos_bound(y, 2 * d);
    let q = y / (2 * d);
    let r = y % (2 * d);
    assert(x == (m * a + q) * (2 * d) + r) by (nonlinear_arith)
        requires
            x == (m * a) * (2 * d) + y,
            y == (2 * d) * q + r,
    ;
    vstd::arithmetic::div_mod::lemma_fundamental_div_mod_converse(x, 2 * d, m * a + q, r);
}

/// Computes the rounded quotient of the product `way * share` by `unit`,
/// held within `WIDE_LIMIT` of zero. The product itself may be wider than
/// any machine integer.
pub fn mul_div_round(way: i128, share: i128, unit: u64) -> (r: i128)
    requires
        unit > 0,
        -0x4000_0000_0000_0000 <= way <= 0x4000_0000_0000_0000,
        -NUMERATOR_LIMIT <= share <= NUMERATOR_LIMIT,
    ensures
        r == clamp(div_round(way * share, unit as int), -WIDE_LIMIT as int, WIDE_LIMIT as int),
{
    let m: u128 = if way < 0 {
        (-way) as u128
    } else {
        way as u128
    };
    let s: u128 = if share < 0 {
        (-share) as u128
    } else {
        share as u128
    };
    let negative: bool = (way < 0) != (share < 0);
    let d: u128 = unit as u128;
    let a: u128 = s / d;
    let b: u128 = s % d;
    proof {
        vstd::arithmetic::div_mod::lemma_fundamental_div_mod(s as int, d as int);
        assert(s == a * d + b) by (nonlinear_arith)
            requires
                s == d * a + b,
        ;
        lemma_div_round_split(m as int, s as int, a as int, b as int, d as int);
        lemma_div_round_sign(m * b, d as int);
        assert(way * share == if negative {
            -(m * s)
        } else {
            m * s
        }) by (nonlinear_arith)
            requires
                m == if way < 0 {
                    -way
                } else {
                    way as int
                },
                s == if share < 0 {
                    -share
                } else {
                    share as int
                },
                negative == ((way < 0) != (share < 0)),
        ;
        assert(m * s == 0 ==> div_round(m * s, d as int) == 0) by {
            lemma_div_round_sign(0, d as int);
        }
    }
    if a >= 0x1_0000_0000_0000_0000 {
        proof {
            assert(m >= 1 ==> m * a >= a) by (nonlinear_arith)
                requires
                    0 <= a,
                    0 <= m,
            ;
            assert(m == 0 ==> m * s == 0) by (nonlinear_arith);
        }
        if m == 0 {
            0
        } else if negative {
            -WIDE_LIMIT
        } else {
            WIDE_LIMIT
        }
    } else {
        proof {
            lemma_product_bound(
                m as int,
                a as int,
                0x4000_0000_0000_0000,
                0x1_0000_0000_0000_0000,
            );
            lemma_product_bound(
                m as int,
                b as int,
                0x4000_0000_0000_0000,
                0x1_0000_0000_0000_0000,
            );
        }
        let rest: u128 = (2 * (m * b) + d) / (2 * d);
        assert(2 * rest <= 2 * (m * b) + d) by (nonlinear_arith)
            requires
                rest == (2 * (m * b) + d) / (2 * d),
                d > 0,
        ;
        let q: u128 = m * a + rest;
        if q >= 0x1_0000_0000_0000_0000 {
            if negative {
                -WIDE_LIMIT
            } else {
                WIDE_LIMIT
            }
        } else if negative {
            -(q as i128)
        } else {
            q as i128
        }
    }
}

} // verus!
