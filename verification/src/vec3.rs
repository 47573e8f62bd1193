//! The 3-component vector: point, direction or RGB color.
//!
//! Components are fixed-point micro-unit scalars. Each executable operation
//! returns exactly the value of a specification function over the
//! mathematical vector `V3`; randomized helpers promise what holds of every
//! outcome of the generator.

use crate::fixed::fdiv;
use crate::fixed::fits_i64;
use crate::fixed::fmul;
use crate::fixed::lemma_mul_le;
use crate::fixed::lemma_sqrt_floor_bounds;
use crate::fixed::lemma_sqrt_floor_mono;
use crate::fixed::lemma_sqrt_floor_unique;
use crate::fixed::lemma_square_nonneg;
use crate::fixed::lemma_tdiv_le;
use crate::fixed::div_fixed;
use crate::fixed::isqrt;
use crate::fixed::sqrt_floor;
use crate::fixed::tdiv;
use crate::fixed::tdiv_i128;
use crate::fixed::SCALE;
use crate::rng::sample_range;
use vstd::arithmetic::div_mod::lemma_fundamental_div_mod;
use vstd::arithmetic::div_mod::lemma_mod_bound;
use vstd::prelude::*;

verus! {

/// Largest component magnitude the vector operations accept; far beyond any
/// value the renderer produces, it only keeps the wide intermediate products
/// of a dot or cross product inside an `i128`.
pub const COMP_MAX: i64 = 0x4000_0000_0000_0000;

/// Magnitudes under this many micro-units count as zero; the classical
/// near-zero threshold of one part in 10^8 lies below one micro-unit, so at
/// this resolution only the exact zero survives it.
pub const NEAR_EPS: i64 = 1;

/// Retry budget of the rejection samplers; each draw accepts with better
/// than a two-in-five chance, so the budget is never exhausted in practice.
pub const SAMPLE_RETRIES: u64 = 10000;

/// Least accepted squared length of a sample that will be normalized: half
/// a unit squared. Shorter samples lose relative precision to the
/// fixed-point grid and are redrawn.
pub const UNIT_SAMPLE_MIN_LS: i64 = 250_000;

/// The mathematical value of a vector: three unbounded integers, each
/// counting micro-units.
pub struct V3 {
    pub x: int,
    pub y: int,
    pub z: int,
}

/// A point, direction or RGB color: three fixed-point components.
#[derive(Clone, Copy, Debug, PartialEq, Eq, Structural)]
pub struct Vec3 {
    pub x: i64,
    pub y: i64,
    pub z: i64,
}

impl View for Vec3 {
    type V = V3;

    open spec fn view(&self) -> V3 {
        V3 { x: self.x as int, y: self.y as int, z: self.z as int }
    }
}

/// All three components lie within `b` in magnitude.
pub open spec fn vbound(v: V3, b: int) -> bool {
    &&& -b <= v.x <= b
    &&& -b <= v.y <= b
    &&& -b <= v.z <= b
}

/// The zero vector.
pub open spec fn svzero() -> V3 {
    V3 { x: 0, y: 0, z: 0 }
}

/// The all-ones vector (the color white).
pub open spec fn svone() -> V3 {
    V3 { x: SCALE as int, y: SCALE as int, z: SCALE as int }
}

/// Component-wise sum.
pub open spec fn svadd(a: V3, b: V3) -> V3 {
    V3 { x: a.x + b.x, y: a.y + b.y, z: a.z + b.z }
}

/// Component-wise difference.
pub open spec fn svsub(a: V3, b: V3) -> V3 {
    V3 { x: a.x - b.x, y: a.y - b.y, z: a.z - b.z }
}

/// Component-wise negation.
pub open spec fn svneg(a: V3) -> V3 {
    V3 { x: -a.x, y: -a.y, z: -a.z }
}

/// Component-wise fixed-point product.
pub open spec fn svmul(a: V3, b: V3) -> V3 {
    V3 { x: fmul(a.x, b.x), y: fmul(a.y, b.y), z: fmul(a.z, b.z) }
}

/// Scaling by a fixed-point scalar.
pub open spec fn svscale(a: V3, s: int) -> V3 {
    V3 { x: fmul(a.x, s), y: fmul(a.y, s), z: fmul(a.z, s) }
}

/// Division by a positive fixed-point scalar.
pub open spec fn svdiv(a: V3, s: int) -> V3 {
    V3 { x: fdiv(a.x, s), y: fdiv(a.y, s), z: fdiv(a.z, s) }
}

/// The dot product: the three real products are summed exactly and truncated
/// to micro-units once.
pub open spec fn sdot(a: V3, b: V3) -> int {
    tdiv(a.x * b.x + a.y * b.y + a.z * b.z, SCALE as int)
}

/// The squared length is the dot product of a vector with itself.
pub open spec fn sls(a: V3) -> int {
    sdot(a, a)
}

/// Clips a negative integer to zero on the way to `nat`.
pub open spec fn nat_of(x: int) -> nat {
    if x >= 0 {
        x as nat
    } else {
        0
    }
}

/// The fixed-point length: the rounded-down square root of the squared
/// length, rescaled to micro-units.
pub open spec fn slen(a: V3) -> int {
    sqrt_floor(nat_of(sls(a) * (SCALE as int))) as int
}

/// The cross product; each component truncates once.
pub open spec fn scross(a: V3, b: V3) -> V3 {
    V3 {
        x: tdiv(a.y * b.z - a.z * b.y, SCALE as int),
        y: tdiv(a.z * b.x - a.x * b.z, SCALE as int),
        z: tdiv(a.x * b.y - a.y * b.x, SCALE as int),
    }
}

/// Division of every component by the vector's own length.
pub open spec fn snormalize(a: V3) -> V3 {
    svdiv(a, slen(a))
}

/// Whether every component's magnitude is below the near-zero threshold.
pub open spec fn snear_zero(a: V3) -> bool {
    &&& -(NEAR_EPS as int) < a.x < NEAR_EPS as int
    &&& -(NEAR_EPS as int) < a.y < NEAR_EPS as int
    &&& -(NEAR_EPS as int) < a.z < NEAR_EPS as int
}

/// The dot product of a vector with itself is exactly its squared length,
/// for every vector.
pub proof fn lemma_dot_self_is_length_squared(v: V3)
    ensures
        sdot(v, v) == sls(v),
{
}

/// Negating a vector leaves its squared length unchanged.
pub proof fn lemma_sls_neg(a: V3)
    ensures
        sls(svneg(a)) == sls(a),
{
    assert((-a.x) * (-a.x) == a.x * a.x) by (nonlinear_arith);
    assert((-a.y) * (-a.y) == a.y * a.y) by (nonlinear_arith);
    assert((-a.z) * (-a.z) == a.z * a.z) by (nonlinear_arith);
}

/// A squared length is never negative.
pub proof fn lemma_sls_nonneg(a: V3)
    ensures
        0 <= sls(a),
{
    lemma_square_nonneg(a.x);
    lemma_square_nonneg(a.y);
    lemma_square_nonneg(a.z);
    let sum = a.x * a.x + a.y * a.y + a.z * a.z;
    assert(sum / (SCALE as int) >= 0) by (nonlinear_arith)
        requires
            sum >= 0,
    ;
}

/// One component of a normalization stays within twice the unit scale: the
/// length under-approximates the true magnitude by less than a factor of two.
proof fn lemma_norm_comp(c: int, sum: int, s: int, l: int)
    requires
        c * c <= sum,
        0 <= sum,
        s == sum / (SCALE as int),
        1 <= s,
        l == sqrt_floor(nat_of(s * (SCALE as int))) as int,
    ensures
        -(2 * (SCALE as int)) <= fdiv(c, l) <= 2 * (SCALE as int),
        1000 <= l,
{
    let sc = SCALE as int;
    assert(sc <= s * sc <= sum) by (nonlinear_arith)
        requires
            1 <= s,
            s == sum / sc,
            sc == 1000000,
            0 <= sum,
    ;
    assert(nat_of(s * sc) == (s * sc) as nat);
    assert(1000 * 1000 <= 1000000 && 1000000 < 1001 * 1001) by (nonlinear_arith);
    lemma_sqrt_floor_unique(1000000nat, 1000nat);
    lemma_sqrt_floor_mono(1000000nat, (s * sc) as nat);
    assert(1000 <= l);
    lemma_sqrt_floor_bounds((s * sc) as nat);
    assert(s * sc < (l + 1) * (l + 1));
    lemma_fundamental_div_mod(sum, sc);
    lemma_mod_bound(sum, sc);
    assert(sum < (s + 1) * sc) by (nonlinear_arith)
        requires
            sum == sc * s + sum % sc,
            sum % sc < sc,
    ;
    assert(c * c < (2 * l) * (2 * l)) by (nonlinear_arith)
        requires
            c * c <= sum,
            sum < (s + 1) * sc,
            1 <= s,
            1 <= sc,
            1000 <= l,
            s * sc < (l + 1) * (l + 1),
    ;
    assert(-(2 * l) + 1 <= c <= 2 * l - 1) by (nonlinear_arith)
        requires
            c * c < (2 * l) * (2 * l),
            1 <= l,
    ;
    assert(-((2 * sc - 1) * l + l - 1) <= c * sc <= (2 * sc - 1) * l + l - 1) by (nonlinear_arith)
        requires
            -(2 * l) + 1 <= c <= 2 * l - 1,
            1 <= l,
            1 <= sc,
    ;
    lemma_tdiv_le(c * sc, l, 2 * sc - 1);
}

/// A normalized component brackets the rescaled component: the division
/// truncates, so its square falls at most one quotient step short.
proof fn lemma_comp_squares(c: int, l: int)
    requires
        1 <= l,
    ensures
        fdiv(c, l) * fdiv(c, l) * (l * l) <= (c * (SCALE as int)) * (c * (SCALE as int)),
        (c * (SCALE as int)) * (c * (SCALE as int)) < (crate::fixed::iabs(fdiv(c, l)) + 1) * (
        crate::fixed::iabs(fdiv(c, l)) + 1) * (l * l),
        crate::fixed::iabs(fdiv(c, l)) * crate::fixed::iabs(fdiv(c, l)) == fdiv(c, l) * fdiv(
            c,
            l,
        ),
{
    let sc = SCALE as int;
    let a = crate::fixed::iabs(c);
    let n = a * sc;
    assert(n >= 0) by (nonlinear_arith)
        requires
            n == a * sc,
            a >= 0,
            sc >= 0,
    ;
    let f = n / l;
    lemma_fundamental_div_mod(n, l);
    lemma_mod_bound(n, l);
    assert(f >= 0) by (nonlinear_arith)
        requires
            f == n / l,
            n >= 0,
            l >= 1,
    ;
    assert(l * f <= n);
    assert(n < l * (f + 1)) by (nonlinear_arith)
        requires
            n == l * f + n % l,
            n % l < l,
    ;
    assert(f * f * (l * l) <= n * n) by (nonlinear_arith)
        requires
            l * f <= n,
            0 <= f,
            0 <= l,
    ;
    assert(n * n < (f + 1) * (f + 1) * (l * l)) by (nonlinear_arith)
        requires
            n < l * (f + 1),
            0 <= n,
            0 <= l,
    ;
    if c >= 0 {
        assert(fdiv(c, l) == f);
    } else {
        assert(c * sc == -n) by (nonlinear_arith)
            requires
                a == -c,
                n == a * sc,
        ;
        assert(fdiv(c, l) == -f);
        assert((-f) * (-f) == f * f) by (nonlinear_arith);
    }
    assert((c * sc) * (c * sc) == n * n) by (nonlinear_arith)
        requires
            c * sc == n || c * sc == -n,
    ;
    assert(crate::fixed::iabs(fdiv(c, l)) == f);
}

/// Normalizing any vector of at least half a unit's length yields a unit
/// direction up to truncation: its micro-unit length comes out within seven
/// steps below or four steps above the unit scale. Shorter vectors lose
/// relative precision to the fixed-point grid and are excluded.
pub proof fn lemma_normalized_unit_length(v: V3)
    requires
        250_000 <= sls(v),
    ensures
        SCALE as int - 7 <= slen(snormalize(v)) <= SCALE as int + 4,
{
    let sc = SCALE as int;
    let sum = v.x * v.x + v.y * v.y + v.z * v.z;
    lemma_square_nonneg(v.x);
    lemma_square_nonneg(v.y);
    lemma_square_nonneg(v.z);
    let s = sls(v);
    let l = slen(v);
    lemma_fundamental_div_mod(sum, sc);
    lemma_mod_bound(sum, sc);
    assert(sc * s <= sum <= sc * s + sc - 1);
    assert(sc * s == s * sc) by (nonlinear_arith);
    crate::fixed::lemma_mul_mono(0, s, sc);
    assert(nat_of(s * sc) == (s * sc) as nat);
    lemma_sqrt_floor_bounds((s * sc) as nat);
    assert(l * l <= s * sc < (l + 1) * (l + 1));
    crate::fixed::lemma_mul_mono(250000, s, sc);
    assert(500000 * 500000 <= 250000000000 && 250000000000 < 500001 * 500001)
        by (nonlinear_arith);
    lemma_sqrt_floor_unique(250000000000nat, 500000nat);
    lemma_sqrt_floor_mono(250000000000nat, (s * sc) as nat);
    assert(500000 <= l);
    assert(l * l <= sum);
    assert(sum <= (l + 1) * (l + 1) + sc - 2);
    // the three normalized components, their squares, and the brackets
    let ex = fdiv(v.x, l);
    let ey = fdiv(v.y, l);
    let ez = fdiv(v.z, l);
    lemma_comp_squares(v.x, l);
    lemma_comp_squares(v.y, l);
    lemma_comp_squares(v.z, l);
    lemma_norm_comp(v.x, sum, s, l);
    lemma_norm_comp(v.y, sum, s, l);
    lemma_norm_comp(v.z, sum, s, l);
    let qx = crate::fixed::iabs(ex);
    let qy = crate::fixed::iabs(ey);
    let qz = crate::fixed::iabs(ez);
    let q_sq = ex * ex + ey * ey + ez * ez;
    let p = qx + qy + qz;
    assert((v.x * sc) * (v.x * sc) == (v.x * v.x) * (sc * sc)) by (nonlinear_arith);
    assert((v.y * sc) * (v.y * sc) == (v.y * v.y) * (sc * sc)) by (nonlinear_arith);
    assert((v.z * sc) * (v.z * sc) == (v.z * v.z) * (sc * sc)) by (nonlinear_arith);
    // lower machinery: sum * sc^2 < (q_sq + 2p + 3) * l^2
    assert((qx + 1) * (qx + 1) * (l * l) == (qx * qx + 2 * qx + 1) * (l * l))
        by (nonlinear_arith);
    assert((qy + 1) * (qy + 1) * (l * l) == (qy * qy + 2 * qy + 1) * (l * l))
        by (nonlinear_arith);
    assert((qz + 1) * (qz + 1) * (l * l) == (qz * qz + 2 * qz + 1) * (l * l))
        by (nonlinear_arith);
    assert(sum * (sc * sc) == (v.x * v.x) * (sc * sc) + (v.y * v.y) * (sc * sc) + (v.z * v.z)
        * (sc * sc)) by (nonlinear_arith)
        requires
            sum == v.x * v.x + v.y * v.y + v.z * v.z,
    ;
    assert((q_sq + 2 * p + 3) * (l * l) == (qx * qx + 2 * qx + 1) * (l * l) + (qy * qy + 2 * qy
        + 1) * (l * l) + (qz * qz + 2 * qz + 1) * (l * l)) by (nonlinear_arith)
        requires
            q_sq == qx * qx + qy * qy + qz * qz,
            p == qx + qy + qz,
            qx * qx == ex * ex,
            qy * qy == ey * ey,
            qz * qz == ez * ez,
            q_sq == ex * ex + ey * ey + ez * ez,
    ;
    assert(sum * (sc * sc) < (q_sq + 2 * p + 3) * (l * l));
    // upper machinery: q_sq * l^2 <= sum * sc^2
    assert(q_sq * (l * l) == ex * ex * (l * l) + ey * ey * (l * l) + ez * ez * (l * l))
        by (nonlinear_arith)
        requires
            q_sq == ex * ex + ey * ey + ez * ez,
    ;
    assert(q_sq * (l * l) <= sum * (sc * sc));
    // cancel l^2 below: sc^2 < q_sq + 2p + 3
    assert((sc * sc) * (l * l) <= sum * (sc * sc)) by (nonlinear_arith)
        requires
            l * l <= sum,
            0 <= sc * sc,
    ;
    assert(sc * sc < q_sq + 2 * p + 3) by (nonlinear_arith)
        requires
            (sc * sc) * (l * l) < (q_sq + 2 * p + 3) * (l * l),
            1 <= l,
    ;
    // components stay under twice the scale, so the cross terms are small
    assert(p <= 6 * sc);
    assert(q_sq >= sc * sc - 12 * sc - 2);
    // chain the upper bound down to q_sq <= sc^2 + 9sc
    assert(((l + 1) * (l + 1) + sc - 2) * (sc * sc) <= (sc * sc + 9 * sc) * (l * l))
        by (nonlinear_arith)
        requires
            sc <= 2 * l,
            sc == 1000000,
    ;
    assert(sum * (sc * sc) <= ((l + 1) * (l + 1) + sc - 2) * (sc * sc)) by (nonlinear_arith)
        requires
            sum <= (l + 1) * (l + 1) + sc - 2,
            0 <= sc * sc,
    ;
    assert(q_sq <= sc * sc + 9 * sc) by (nonlinear_arith)
        requires
            q_sq * (l * l) <= (sc * sc + 9 * sc) * (l * l),
            1 <= l,
    ;
    // squared length of the normalization
    let nrm = snormalize(v);
    assert(nrm.x == ex && nrm.y == ey && nrm.z == ez);
    let s2 = sls(nrm);
    assert(q_sq >= 0) by (nonlinear_arith)
        requires
            q_sq == ex * ex + ey * ey + ez * ez,
    ;
    assert(s2 == q_sq / sc);
    crate::fixed::lemma_div_le(q_sq, sc, sc + 9);
    vstd::arithmetic::div_mod::lemma_div_is_ordered((sc - 13) * sc, q_sq, sc);
    vstd::arithmetic::div_mod::lemma_div_by_multiple(sc - 13, sc);
    assert(sc - 13 <= s2 <= sc + 9);
    // and its length
    let l2 = slen(nrm);
    crate::fixed::lemma_mul_mono(0, s2, sc);
    assert(nat_of(s2 * sc) == (s2 * sc) as nat);
    lemma_sqrt_floor_bounds((s2 * sc) as nat);
    assert(l2 * l2 <= s2 * sc < (l2 + 1) * (l2 + 1));
    assert(s2 * sc <= (sc + 9) * sc) by (nonlinear_arith)
        requires
            s2 <= sc + 9,
            0 <= sc,
    ;
    assert((sc - 13) * sc <= s2 * sc) by (nonlinear_arith)
        requires
            sc - 13 <= s2,
            0 <= sc,
    ;
    assert(l2 <= sc + 4) by (nonlinear_arith)
        requires
            l2 * l2 <= (sc + 9) * sc,
            sc == 1000000,
            0 <= l2,
    ;
    assert(sc - 7 <= l2) by (nonlinear_arith)
        requires
            (sc - 13) * sc < (l2 + 1) * (l2 + 1),
            sc == 1000000,
            0 <= l2,
    ;
}

/// Normalization keeps every component within twice the unit scale, and the
/// length of anything with a positive squared length is itself positive.
pub proof fn lemma_normalized_bounds(v: V3)
    requires
        1 <= sls(v),
    ensures
        1000 <= slen(v),
        vbound(snormalize(v), 2 * (SCALE as int)),
{
    lemma_square_nonneg(v.x);
    lemma_square_nonneg(v.y);
    lemma_square_nonneg(v.z);
    let sum = v.x * v.x + v.y * v.y + v.z * v.z;
    lemma_norm_comp(v.x, sum, sls(v), slen(v));
    lemma_norm_comp(v.y, sum, sls(v), slen(v));
    lemma_norm_comp(v.z, sum, sls(v), slen(v));
}

impl Vec3 {
    /// The zero vector: the color black, the origin.
    pub fn zero() -> (r: Vec3)
        ensures
            r@ == svzero(),
    {
        Vec3 { x: 0, y: 0, z: 0 }
    }

    /// The all-ones vector: the color white.
    pub fn one() -> (r: Vec3)
        ensures
            r@ == svone(),
    {
        Vec3 { x: SCALE, y: SCALE, z: SCALE }
    }

    /// Component-wise sum.
    pub fn add(self, rhs: Vec3) -> (r: Vec3)
        requires
            fits_i64(self@.x + rhs@.x),
            fits_i64(self@.y + rhs@.y),
            fits_i64(self@.z + rhs@.z),
        ensures
            r@ == svadd(self@, rhs@),
    {
        Vec3 { x: self.x + rhs.x, y: self.y + rhs.y, z: self.z + rhs.z }
    }

    /// Component-wise difference.
    pub fn sub(self, rhs: Vec3) -> (r: Vec3)
        requires
            fits_i64(self@.x - rhs@.x),
            fits_i64(self@.y - rhs@.y),
            fits_i64(self@.z - rhs@.z),
        ensures
            r@ == svsub(self@, rhs@),
    {
        Vec3 { x: self.x - rhs.x, y: self.y - rhs.y, z: self.z - rhs.z }
    }

    /// Component-wise negation.
    pub fn neg(self) -> (r: Vec3)
        requires
            self@.x > i64::MIN,
            self@.y > i64::MIN,
            self@.z > i64::MIN,
        ensures
            r@ == svneg(self@),
    {
        Vec3 { x: -self.x, y: -self.y, z: -self.z }
    }

    /// Component-wise fixed-point product; attenuation acts on colors this
    /// way.
    pub fn mul(self, rhs: Vec3) -> (r: Vec3)
        requires
            fits_i64(fmul(self@.x, rhs@.x)),
            fits_i64(fmul(self@.y, rhs@.y)),
            fits_i64(fmul(self@.z, rhs@.z)),
        ensures
            r@ == svmul(self@, rhs@),
    {
        Vec3 {
            x: crate::fixed::mul_fixed(self.x, rhs.x),
            y: crate::fixed::mul_fixed(self.y, rhs.y),
            z: crate::fixed::mul_fixed(self.z, rhs.z),
        }
    }

    /// Scaling by a fixed-point scalar.
    pub fn scale(self, s: i64) -> (r: Vec3)
        requires
            fits_i64(fmul(self@.x, s as int)),
            fits_i64(fmul(self@.y, s as int)),
            fits_i64(fmul(self@.z, s as int)),
        ensures
            r@ == svscale(self@, s as int),
    {
        Vec3 {
            x: crate::fixed::mul_fixed(self.x, s),
            y: crate::fixed::mul_fixed(self.y, s),
            z: crate::fixed::mul_fixed(self.z, s),
        }
    }

    /// Division by a positive fixed-point scalar.
    pub fn div_scalar(self, s: i64) -> (r: Vec3)
        requires
            s >= 1,
            fits_i64(fdiv(self@.x, s as int)),
            fits_i64(fdiv(self@.y, s as int)),
            fits_i64(fdiv(self@.z, s as int)),
        ensures
            r@ == svdiv(self@, s as int),
    {
        Vec3 {
            x: div_fixed(self.x, s),
            y: div_fixed(self.y, s),
            z: div_fixed(self.z, s),
        }
    }

    /// The dot product.
    pub fn dot(&self, rhs: &Vec3) -> (r: i64)
        requires
            vbound(self@, COMP_MAX as int),
            vbound(rhs@, COMP_MAX as int),
            fits_i64(sdot(self@, rhs@)),
        ensures
            r as int == sdot(self@, rhs@),
    {
        proof {
            lemma_mul_le(self@.x, rhs@.x, COMP_MAX as int, COMP_MAX as int);
            lemma_mul_le(self@.y, rhs@.y, COMP_MAX as int, COMP_MAX as int);
            lemma_mul_le(self@.z, rhs@.z, COMP_MAX as int, COMP_MAX as int);
        }
        let p: i128 = (self.x as i128) * (rhs.x as i128) + (self.y as i128) * (rhs.y as i128)
            + (self.z as i128) * (rhs.z as i128);
        let q: i128 = tdiv_i128(p, SCALE as i128);
        q as i64
    }

    /// The cross product.
    pub fn cross(&self, rhs: &Vec3) -> (r: Vec3)
        requires
            vbound(self@, COMP_MAX as int),
            vbound(rhs@, COMP_MAX as int),
            fits_i64(scross(self@, rhs@).x),
            fits_i64(scross(self@, rhs@).y),
            fits_i64(scross(self@, rhs@).z),
        ensures
            r@ == scross(self@, rhs@),
    {
        proof {
            lemma_mul_le(self@.y, rhs@.z, COMP_MAX as int, COMP_MAX as int);
            lemma_mul_le(self@.z, rhs@.y, COMP_MAX as int, COMP_MAX as int);
            lemma_mul_le(self@.z, rhs@.x, COMP_MAX as int, COMP_MAX as int);
            lemma_mul_le(self@.x, rhs@.z, COMP_MAX as int, COMP_MAX as int);
            lemma_mul_le(self@.x, rhs@.y, COMP_MAX as int, COMP_MAX as int);
            lemma_mul_le(self@.y, rhs@.x, COMP_MAX as int, COMP_MAX as int);
        }
        let px: i128 = (self.y as i128) * (rhs.z as i128) - (self.z as i128) * (rhs.y as i128);
        let py: i128 = (self.z as i128) * (rhs.x as i128) - (self.x as i128) * (rhs.z as i128);
        let pz: i128 = (self.x as i128) * (rhs.y as i128) - (self.y as i128) * (rhs.x as i128);
        Vec3 {
            x: tdiv_i128(px, SCALE as i128) as i64,
            y: tdiv_i128(py, SCALE as i128) as i64,
            z: tdiv_i128(pz, SCALE as i128) as i64,
        }
    }

    /// The squared length.
    pub fn length_squared(&self) -> (r: i64)
        requires
            vbound(self@, COMP_MAX as int),
            fits_i64(sls(self@)),
        ensures
            r as int == sls(self@),
            r >= 0,
    {
        proof {
            lemma_sls_nonneg(self@);
        }
        self.dot(self)
    }

    /// The length, rounded down to micro-units.
    pub fn length(&self) -> (r: i64)
        requires
            vbound(self@, COMP_MAX as int),
            fits_i64(sls(self@)),
        ensures
            r as int == slen(self@),
            r >= 0,
    {
        let ls = self.length_squared();
        proof {
            assert(0 <= (ls as int) * (SCALE as int) <= 0x8000_0000_0000_0000_0000_0000int)
                by (nonlinear_arith)
                requires
                    0 <= ls as int <= 0x7fff_ffff_ffff_ffffint,
            ;
        }
        let wide: u128 = (ls as u128) * (SCALE as u128);
        let root: u64 = isqrt(wide);
        proof {
            assert(nat_of(sls(self@) * (SCALE as int)) == wide as nat);
            assert((root as int) * (root as int) <= wide as int);
            assert(root as int <= 0x100_0000_0000_0000int) by (nonlinear_arith)
                requires
                    (root as int) * (root as int) <= wide as int,
                    wide as int <= 0x8000_0000_0000_0000_0000_0000int,
                    0 <= root as int,
            ;
        }
        root as i64
    }

    /// The unit vector of a non-degenerate vector: every component divided by
    /// the length. A vector whose squared length truncates to zero has no
    /// direction at this resolution and is excluded, as is dividing by a zero
    /// length.
    pub fn normalized(&self) -> (r: Vec3)
        requires
            vbound(self@, COMP_MAX as int),
            fits_i64(sls(self@)),
            1 <= sls(self@),
        ensures
            r@ == snormalize(self@),
            vbound(r@, 2 * (SCALE as int)),
    {
        proof {
            lemma_normalized_bounds(self@);
        }
        let len = self.length();
        Vec3 {
            x: div_fixed(self.x, len),
            y: div_fixed(self.y, len),
            z: div_fixed(self.z, len),
        }
    }

    /// Whether the vector is degenerate: every component under the near-zero
    /// threshold.
    pub fn near_zero(&self) -> (r: bool)
        ensures
            r == snear_zero(self@),
    {
        self.x < NEAR_EPS && -NEAR_EPS < self.x && self.y < NEAR_EPS && -NEAR_EPS < self.y
            && self.z < NEAR_EPS && -NEAR_EPS < self.z
    }

    /// A vector with each component drawn uniformly from `lo..hi`.
    pub fn random(lo: i64, hi: i64, rng: &mut rand::rngs::StdRng) -> (r: Vec3)
        requires
            lo < hi,
        ensures
            lo as int <= r@.x < hi as int,
            lo as int <= r@.y < hi as int,
            lo as int <= r@.z < hi as int,
    {
        let x = sample_range(rng, lo, hi);
        let y = sample_range(rng, lo, hi);
        let z = sample_range(rng, lo, hi);
        Vec3 { x, y, z }
    }

    /// Rejection sampling of the open unit ball: draw from the cube until the
    /// length falls inside. Acceptance is better than an even chance per
    /// draw, so the retry budget is unreachable in practice; exhausting it
    /// falls back to the ball's center, which keeps the function total.
    pub fn random_in_unit_sphere(rng: &mut rand::rngs::StdRng) -> (r: Vec3)
        ensures
            vbound(r@, SCALE as int),
            sls(r@) < SCALE as int,
    {
        let mut tries: u64 = 0;
        while tries < SAMPLE_RETRIES
            decreases SAMPLE_RETRIES - tries,
        {
            let v = Vec3::random(-SCALE, SCALE, rng);
            proof {
                lemma_sls_nonneg(v@);
                lemma_mul_le(v@.x, v@.x, 1000000, 1000000);
                lemma_mul_le(v@.y, v@.y, 1000000, 1000000);
                lemma_mul_le(v@.z, v@.z, 1000000, 1000000);
                lemma_tdiv_le(
                    v@.x * v@.x + v@.y * v@.y + v@.z * v@.z,
                    1000000,
                    3000000,
                );
            }
            let len = v.length();
            if len < SCALE {
                proof {
                    let s = sls(v@);
                    let sc = SCALE as int;
                    lemma_sqrt_floor_bounds((s * sc) as nat);
                    assert(s < sc) by (nonlinear_arith)
                        requires
                            0 <= s,
                            sc == 1000000,
                            s * sc < (slen(v@) + 1) * (slen(v@) + 1),
                            slen(v@) < sc,
                            0 <= slen(v@),
                    ;
                }
                return v;
            }
            tries = tries + 1;
        }
        Vec3::zero()
    }

    /// A unit direction: a unit-ball sample, normalized. Samples shorter
    /// than half a unit lose relative precision to the fixed-point grid and
    /// are redrawn, so the result's length provably brackets the unit scale;
    /// if the retry budget is ever exhausted, a fixed unit direction stands
    /// in, which keeps the function total.
    pub fn random_unit_vector(rng: &mut rand::rngs::StdRng) -> (r: Vec3)
        ensures
            vbound(r@, 2 * (SCALE as int)),
            SCALE as int - 7 <= slen(r@) <= SCALE as int + 4,
            exists|w: V3|
                UNIT_SAMPLE_MIN_LS as int <= sls(w) < SCALE as int && r@ == #[trigger] snormalize(
                    w,
                ),
    {
        let mut tries: u64 = 0;
        while tries < SAMPLE_RETRIES
            decreases SAMPLE_RETRIES - tries,
        {
            let v = Vec3::random_in_unit_sphere(rng);
            proof {
                lemma_sls_nonneg(v@);
            }
            let ls = v.length_squared();
            if ls >= UNIT_SAMPLE_MIN_LS {
                let u = v.normalized();
                proof {
                    lemma_normalized_unit_length(v@);
                    assert(UNIT_SAMPLE_MIN_LS as int <= sls(v@) < SCALE as int && u@
                        == snormalize(v@));
                }
                return u;
            }
            tries = tries + 1;
        }
        let fallback = Vec3 { x: SCALE, y: 0, z: 0 };
        proof {
            lemma_fallback_is_normalized(fallback@);
        }
        fallback
    }
}

/// The fixed fallback direction of `random_unit_vector` is itself the
/// normalization of an interior half-unit sample, and its length is exactly
/// the unit scale.
proof fn lemma_fallback_is_normalized(u: V3)
    requires
        u == (V3 { x: SCALE as int, y: 0, z: 0 }),
    ensures
        exists|w: V3|
            UNIT_SAMPLE_MIN_LS as int <= sls(w) < SCALE as int && u == #[trigger] snormalize(w),
        SCALE as int - 7 <= slen(u) <= SCALE as int + 4,
{
    let w = V3 { x: 500000, y: 0, z: 0 };
    assert(sls(w) == 250000);
    assert(500000 * 500000 <= 250000 * 1000000 && 250000 * 1000000 < 500001 * 500001)
        by (nonlinear_arith);
    lemma_sqrt_floor_unique((250000 * 1000000) as nat, 500000nat);
    assert(slen(w) == 500000);
    crate::fixed::lemma_tdiv_exact(1000000, 500000);
    assert(fdiv(w.x, 500000) == 1000000);
    assert(fdiv(0, 500000) == 0);
    assert(snormalize(w) == u);
    lemma_normalized_unit_length(w);
}

} // verus!
