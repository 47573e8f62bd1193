//! Fixed-point scalar arithmetic.
//!
//! A scalar is an `i64` counting micro-units: `SCALE` of them stand for the
//! real value `1.0`. Products and quotients are truncated toward zero, the
//! square root rounds down; each executable operation is proved to return
//! exactly the value of its specification function over `int`.

use vstd::arithmetic::div_mod::lemma_div_is_ordered;
use vstd::arithmetic::div_mod::lemma_fundamental_div_mod_converse;
use vstd::prelude::*;

verus! {

/// Number of micro-units that stand for the real value 1.0.
pub const SCALE: i64 = 1_000_000;

/// Whether a mathematical integer fits in an `i64`.
pub open spec fn fits_i64(x: int) -> bool {
    i64::MIN <= x <= i64::MAX
}

/// The magnitude of an integer.
pub open spec fn iabs(x: int) -> int {
    if x >= 0 {
        x
    } else {
        -x
    }
}

/// Division of `n` by a positive `d`, truncated toward zero.
pub open spec fn tdiv(n: int, d: int) -> int {
    if n >= 0 {
        n / d
    } else {
        -((-n) / d)
    }
}

/// Fixed-point product of two micro-unit scalars.
pub open spec fn fmul(a: int, b: int) -> int {
    tdiv(a * b, SCALE as int)
}

/// Fixed-point quotient of a micro-unit scalar by a positive micro-unit scalar.
pub open spec fn fdiv(a: int, b: int) -> int {
    tdiv(a * (SCALE as int), b)
}

/// The integer square root, rounded down.
pub open spec fn sqrt_floor(x: nat) -> nat
    decreases x,
{
    if x == 0 {
        0
    } else {
        let r = sqrt_floor((x - 1) as nat);
        if (r + 1) * (r + 1) <= x {
            r + 1
        } else {
            r
        }
    }
}

/// The square of any integer is non-negative.
pub proof fn lemma_square_nonneg(a: int)
    by (nonlinear_arith)
    ensures
        a * a >= 0,
{
}

/// A product is bounded by the product of the factors' bounds.
pub proof fn lemma_mul_le(a: int, b: int, x: int, y: int)
    by (nonlinear_arith)
    requires
        -x <= a <= x,
        -y <= b <= y,
    ensures
        -(x * y) <= a * b <= x * y,
{
}

/// Multiplication by a non-negative factor keeps an order, on either side.
pub proof fn lemma_mul_mono(a: int, b: int, c: int)
    by (nonlinear_arith)
    requires
        a <= b,
        0 <= c,
    ensures
        a * c <= b * c,
        c * a <= c * b,
{
}

/// A quotient of non-negatives stays under any `b` whose multiple covers the
/// numerator.
pub proof fn lemma_div_le(n: int, d: int, b: int)
    requires
        d >= 1,
        0 <= n,
        0 <= b,
        n <= b * d + d - 1,
    ensures
        n / d <= b,
{
    lemma_div_is_ordered(n, b * d + d - 1, d);
    lemma_fundamental_div_mod_converse(b * d + d - 1, d, b, d - 1);
}

/// Truncating division stays within `b` whenever the numerator's magnitude is
/// under the next multiple of the divisor.
pub proof fn lemma_tdiv_le(n: int, d: int, b: int)
    requires
        d >= 1,
        0 <= b,
        -(b * d + d - 1) <= n <= b * d + d - 1,
    ensures
        -b <= tdiv(n, d) <= b,
{
    if n >= 0 {
        lemma_div_le(n, d, b);
        assert(n / d >= 0) by (nonlinear_arith)
            requires
                n >= 0,
                d >= 1,
        ;
    } else {
        lemma_div_le(-n, d, b);
        assert((-n) / d >= 0) by (nonlinear_arith)
            requires
                -n >= 0,
                d >= 1,
        ;
    }
}

/// Truncating division by a positive divisor keeps the numerators' order.
pub proof fn lemma_tdiv_mono(n1: int, n2: int, d: int)
    requires
        d >= 1,
        n1 <= n2,
    ensures
        tdiv(n1, d) <= tdiv(n2, d),
{
    if n1 >= 0 {
        lemma_div_is_ordered(n1, n2, d);
    } else if n2 < 0 {
        lemma_div_is_ordered(-n2, -n1, d);
    } else {
        assert((-n1) / d >= 0) by (nonlinear_arith)
            requires
                -n1 >= 0,
                d >= 1,
        ;
        assert(n2 / d >= 0) by (nonlinear_arith)
            requires
                n2 >= 0,
                d >= 1,
        ;
    }
}

/// Dividing an exact multiple undoes the multiplication.
pub proof fn lemma_tdiv_exact(a: int, d: int)
    requires
        1 <= d,
    ensures
        tdiv(a * d, d) == a,
{
    if a >= 0 {
        assert(a * d >= 0) by (nonlinear_arith)
            requires
                a >= 0,
                d >= 1,
        ;
        assert((a * d) / d == a) by (nonlinear_arith)
            requires
                d >= 1,
        ;
    } else {
        assert(a * d < 0) by (nonlinear_arith)
            requires
                a < 0,
                d >= 1,
        ;
        assert(-(a * d) == (-a) * d) by (nonlinear_arith);
        assert(((-a) * d) / d == -a) by (nonlinear_arith)
            requires
                d >= 1,
        ;
    }
}

/// The rounded-down square root is what its name says: its square does not
/// exceed the argument, the next square does.
pub proof fn lemma_sqrt_floor_bounds(x: nat)
    ensures
        sqrt_floor(x) * sqrt_floor(x) <= x,
        x < (sqrt_floor(x) + 1) * (sqrt_floor(x) + 1),
    decreases x,
{
    if x == 0 {
        assert(sqrt_floor(0) == 0);
        assert(x < (sqrt_floor(x) + 1) * (sqrt_floor(x) + 1)) by (nonlinear_arith)
            requires
                x == 0,
                sqrt_floor(x) == 0,
        ;
    } else {
        lemma_sqrt_floor_bounds((x - 1) as nat);
        let r = sqrt_floor((x - 1) as nat);
        assert(r * r <= x - 1);
        assert(x - 1 < (r + 1) * (r + 1));
        if (r + 1) * (r + 1) <= x {
            assert(sqrt_floor(x) == r + 1);
            assert((r + 1 + 1) * (r + 1 + 1) > x) by (nonlinear_arith)
                requires
                    x - 1 < (r + 1) * (r + 1),
                    r >= 0,
            ;
            assert(x < (sqrt_floor(x) + 1) * (sqrt_floor(x) + 1));
        } else {
            assert(sqrt_floor(x) == r);
            assert(x < (sqrt_floor(x) + 1) * (sqrt_floor(x) + 1));
        }
    }
}

/// Any integer whose square brackets `x` the same way is the rounded-down
/// square root of `x`.
pub proof fn lemma_sqrt_floor_unique(x: nat, r: nat)
    requires
        r * r <= x,
        x < (r + 1) * (r + 1),
    ensures
        r == sqrt_floor(x),
{
    let s = sqrt_floor(x);
    lemma_sqrt_floor_bounds(x);
    if r < s {
        assert((r + 1) * (r + 1) <= s * s) by (nonlinear_arith)
            requires
                r + 1 <= s,
                r >= 0,
        ;
    }
    if s < r {
        assert((s + 1) * (s + 1) <= r * r) by (nonlinear_arith)
            requires
                s + 1 <= r,
                s >= 0,
        ;
    }
}

/// The rounded-down square root never decreases.
pub proof fn lemma_sqrt_floor_mono(x: nat, y: nat)
    requires
        x <= y,
    ensures
        sqrt_floor(x) <= sqrt_floor(y),
{
    let a = sqrt_floor(x);
    let b = sqrt_floor(y);
    lemma_sqrt_floor_bounds(x);
    lemma_sqrt_floor_bounds(y);
    if b < a {
        assert((b + 1) * (b + 1) <= a * a) by (nonlinear_arith)
            requires
                b + 1 <= a,
                b >= 0,
        ;
    }
}

/// Wide truncating division, the shared workhorse of the fixed-point
/// operations.
pub fn tdiv_i128(n: i128, d: i128) -> (r: i128)
    requires
        d >= 1,
        n > i128::MIN,
    ensures
        r as int == tdiv(n as int, d as int),
{
    if n >= 0 {
        let q: u128 = (n as u128) / (d as u128);
        proof {
            vstd::arithmetic::div_mod::lemma_div_nonincreasing(n as int, d as int);
        }
        q as i128
    } else {
        let q: u128 = ((-n) as u128) / (d as u128);
        proof {
            vstd::arithmetic::div_mod::lemma_div_nonincreasing(-(n as int), d as int);
        }
        -(q as i128)
    }
}

/// Fixed-point product of two scalars, exact per `fmul`.
pub fn mul_fixed(a: i64, b: i64) -> (r: i64)
    requires
        fits_i64(fmul(a as int, b as int)),
    ensures
        r as int == fmul(a as int, b as int),
{
    proof {
        assert((a as int) * (b as int) < i128::MAX && (a as int) * (b as int) > i128::MIN)
            by (nonlinear_arith)
            requires
                i64::MIN <= a <= i64::MAX,
                i64::MIN <= b <= i64::MAX,
        ;
    }
    let p: i128 = (a as i128) * (b as i128);
    let q: i128 = tdiv_i128(p, SCALE as i128);
    q as i64
}

/// Fixed-point quotient of `a` by a positive `b`, exact per `fdiv`.
pub fn div_fixed(a: i64, b: i64) -> (r: i64)
    requires
        b >= 1,
        fits_i64(fdiv(a as int, b as int)),
    ensures
        r as int == fdiv(a as int, b as int),
{
    proof {
        assert((a as int) * (SCALE as int) < i128::MAX && (a as int) * (SCALE as int) > i128::MIN)
            by (nonlinear_arith)
            requires
                i64::MIN <= a <= i64::MAX,
        ;
    }
    let p: i128 = (a as i128) * (SCALE as i128);
    let q: i128 = tdiv_i128(p, b as i128);
    q as i64
}

/// Division of `n` by a positive `d`, truncated toward zero, exact per `tdiv`.
pub fn div_trunc(n: i64, d: i64) -> (r: i64)
    requires
        d >= 1,
        n > i64::MIN,
    ensures
        r as int == tdiv(n as int, d as int),
{
    if n >= 0 {
        ((n as u64) / (d as u64)) as i64
    } else {
        -((((-n) as u64) / (d as u64)) as i64)
    }
}

/// The integer square root of `x`, rounded down.
pub fn isqrt(x: u128) -> (r: u64)
    requires
        x < 0x4000_0000_0000_0000_0000_0000_0000_0000u128,
    ensures
        r as nat == sqrt_floor(x as nat),
        (r as int) * (r as int) <= x as int,
        (x as int) < ((r as int) + 1) * ((r as int) + 1),
{
    let mut lo: u64 = 0;
    let mut hi: u64 = 0x8000_0000_0000_0000u64;
    proof {
        assert((hi as int) * (hi as int) == 0x4000_0000_0000_0000_0000_0000_0000_0000int);
    }
    while lo + 1 < hi
        invariant
            lo < hi,
            hi <= 0x8000_0000_0000_0000u64,
            (lo as int) * (lo as int) <= x as int,
            (x as int) < (hi as int) * (hi as int),
        decreases hi - lo,
    {
        let mid: u64 = lo + (hi - lo) / 2;
        proof {
            assert((mid as int) * (mid as int) <= 0x4000_0000_0000_0000_0000_0000_0000_0000int)
                by (nonlinear_arith)
                requires
                    0 <= mid as int <= 0x8000_0000_0000_0000int,
            ;
        }
        let m: u128 = (mid as u128) * (mid as u128);
        if m <= x {
            lo = mid;
        } else {
            hi = mid;
        }
    }
    proof {
        lemma_sqrt_floor_unique(x as nat, lo as nat);
    }
    lo
}

} // verus!
