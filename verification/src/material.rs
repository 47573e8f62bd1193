//! Surface materials and their scattering rules.
//!
//! The material set is closed, so dispatch is a tagged enumeration: a diffuse
//! Lambertian surface and a specular Metal surface with a fuzz radius.

use crate::fixed::fits_i64;
use crate::fixed::fmul;
use crate::fixed::SCALE;
use crate::hittable::rec_wf;
use crate::hittable::ray_wf;
use crate::hittable::HitRecord;
use crate::ray::Ray;
use crate::vec3::sdot;
use crate::vec3::sls;
use crate::vec3::snear_zero;
use crate::vec3::snormalize;
use crate::vec3::svadd;
use crate::vec3::svscale;
use crate::vec3::svsub;
use crate::vec3::vbound;
use crate::vec3::UNIT_SAMPLE_MIN_LS;
use crate::vec3::Vec3;
use crate::vec3::V3;
use vstd::prelude::*;

verus! {

/// Each component of a color lies between zero and one.
pub open spec fn color_unit(c: V3) -> bool {
    &&& 0 <= c.x <= SCALE as int
    &&& 0 <= c.y <= SCALE as int
    &&& 0 <= c.z <= SCALE as int
}

/// A diffuse surface with a fixed reflectance color.
#[derive(Clone, Copy, Debug, PartialEq, Eq, Structural)]
pub struct Lambertian {
    pub albedo: Vec3,
}

impl Lambertian {
    /// A diffuse surface of the given reflectance.
    pub fn new(albedo: Vec3) -> (m: Lambertian)
        ensures
            m.albedo == albedo,
    {
        Lambertian { albedo }
    }
}

/// The roughness radius of a metal surface, held in bounds at construction.
#[derive(Clone, Copy, Debug, PartialEq, Eq, Structural)]
pub struct Fuzz {
    value: i64,
}

impl Fuzz {
    /// The held radius, kept abstract: `new` pins it down.
    pub closed spec fn spec_value(self) -> int {
        self.value as int
    }

    /// Clamps the requested radius into the unit interval.
    pub fn new(value: i64) -> (f: Fuzz)
        ensures
            f.spec_value() == if value > SCALE {
                SCALE as int
            } else if value < 0 {
                0
            } else {
                value as int
            },
            0 <= f.spec_value() <= SCALE as int,
    {
        if value > SCALE {
            Fuzz { value: SCALE }
        } else if value < 0 {
            Fuzz { value: 0 }
        } else {
            Fuzz { value }
        }
    }

    /// Reads the radius back out.
    pub fn value(&self) -> (v: i64)
        ensures
            v as int == self.spec_value(),
    {
        self.value
    }
}

/// A specular surface: mirror reflection blurred by a fuzz radius.
#[derive(Clone, Copy, Debug, PartialEq, Eq, Structural)]
pub struct Metal {
    pub albedo: Vec3,
    pub fuzz: Fuzz,
}

impl Metal {
    /// A metal surface of the given reflectance and roughness.
    pub fn new(albedo: Vec3, fuzz: Fuzz) -> (m: Metal)
        ensures
            m.albedo == albedo,
            m.fuzz == fuzz,
    {
        Metal { albedo, fuzz }
    }
}

/// The closed set of surface materials.
#[derive(Clone, Copy, Debug, PartialEq, Eq, Structural)]
pub enum Material {
    Lambertian(Lambertian),
    Metal(Metal),
}

/// A well-formed material carries a color inside the unit cube; a metal's
/// fuzz radius is kept in the unit interval by construction.
pub open spec fn material_wf(m: Material) -> bool {
    match m {
        Material::Lambertian(l) => color_unit(l.albedo@),
        Material::Metal(mt) => color_unit(mt.albedo@) && 0 <= mt.fuzz.spec_value()
            <= SCALE as int,
    }
}

/// Mirror reflection of `a` about `b`.
pub open spec fn sreflect(a: V3, b: V3) -> V3 {
    svsub(a, svscale(b, 2 * sdot(a, b)))
}

/// Largest component magnitude `reflect` accepts.
pub const REFLECT_MAX: i64 = 100_000_000;

/// Mirror reflection of `a` about `b`: `a` minus twice its projection.
pub fn reflect(a: &Vec3, b: &Vec3) -> (r: Vec3)
    requires
        vbound(a@, REFLECT_MAX as int),
        vbound(b@, REFLECT_MAX as int),
    ensures
        r@ == sreflect(a@, b@),
{
    proof {
        lemma_reflect_fits(a@, b@);
    }
    let d = a.dot(b);
    a.sub(b.scale(2 * d))
}

/// Whether a vector is one of the six exact unit vectors along the axes.
pub open spec fn is_axis_unit(n: V3) -> bool {
    ||| n == (V3 { x: SCALE as int, y: 0, z: 0 })
    ||| n == (V3 { x: -(SCALE as int), y: 0, z: 0 })
    ||| n == (V3 { x: 0, y: SCALE as int, z: 0 })
    ||| n == (V3 { x: 0, y: -(SCALE as int), z: 0 })
    ||| n == (V3 { x: 0, y: 0, z: SCALE as int })
    ||| n == (V3 { x: 0, y: 0, z: -(SCALE as int) })
}

/// Reflection about an axis-aligned unit vector preserves the squared
/// length exactly: the projection divides out without truncation and only
/// one component changes sign. About other unit vectors the same holds only
/// up to truncation error.
pub proof fn lemma_reflect_axis_preserves_length(v: V3, n: V3)
    requires
        is_axis_unit(n),
    ensures
        sls(sreflect(v, n)) == sls(v),
{
    let sc = SCALE as int;
    vstd::arithmetic::div_mod::lemma_div_of0(sc);
    if n.x != 0 {
        let e = n.x;
        assert(v.x * e + v.y * 0 + v.z * 0 == v.x * e);
        assert(v.x * e == (if e == sc { v.x } else { -v.x }) * sc) by (nonlinear_arith)
            requires
                e == sc || e == -sc,
        ;
        crate::fixed::lemma_tdiv_exact(if e == sc { v.x } else { -v.x }, sc);
        let d = sdot(v, n);
        assert(e * (2 * d) == (2 * (if e == sc { d } else { -d })) * sc) by (nonlinear_arith)
            requires
                e == sc || e == -sc,
        ;
        crate::fixed::lemma_tdiv_exact(2 * (if e == sc { d } else { -d }), sc);
        assert(sreflect(v, n).x == -v.x);
        assert(sreflect(v, n).y == v.y && sreflect(v, n).z == v.z);
        assert((-v.x) * (-v.x) == v.x * v.x) by (nonlinear_arith);
    } else if n.y != 0 {
        let e = n.y;
        assert(v.x * 0 + v.y * e + v.z * 0 == v.y * e);
        assert(v.y * e == (if e == sc { v.y } else { -v.y }) * sc) by (nonlinear_arith)
            requires
                e == sc || e == -sc,
        ;
        crate::fixed::lemma_tdiv_exact(if e == sc { v.y } else { -v.y }, sc);
        let d = sdot(v, n);
        assert(e * (2 * d) == (2 * (if e == sc { d } else { -d })) * sc) by (nonlinear_arith)
            requires
                e == sc || e == -sc,
        ;
        crate::fixed::lemma_tdiv_exact(2 * (if e == sc { d } else { -d }), sc);
        assert(sreflect(v, n).y == -v.y);
        assert(sreflect(v, n).x == v.x && sreflect(v, n).z == v.z);
        assert((-v.y) * (-v.y) == v.y * v.y) by (nonlinear_arith);
    } else {
        let e = n.z;
        assert(v.x * 0 + v.y * 0 + v.z * e == v.z * e);
        assert(v.z * e == (if e == sc { v.z } else { -v.z }) * sc) by (nonlinear_arith)
            requires
                e == sc || e == -sc,
        ;
        crate::fixed::lemma_tdiv_exact(if e == sc { v.z } else { -v.z }, sc);
        let d = sdot(v, n);
        assert(e * (2 * d) == (2 * (if e == sc { d } else { -d })) * sc) by (nonlinear_arith)
            requires
                e == sc || e == -sc,
        ;
        crate::fixed::lemma_tdiv_exact(2 * (if e == sc { d } else { -d }), sc);
        assert(sreflect(v, n).z == -v.z);
        assert(sreflect(v, n).x == v.x && sreflect(v, n).y == v.y);
        assert((-v.z) * (-v.z) == v.z * v.z) by (nonlinear_arith);
    }
}

/// The outcome of a scattering event: the outgoing ray and the color
/// attenuation it carries.
#[derive(Clone, Copy, Debug, PartialEq, Eq, Structural)]
pub struct ScatterResult {
    pub scattered: Ray,
    pub attenuation: Vec3,
}

/// The reflectance a material attenuates by.
pub open spec fn albedo_of(m: Material) -> Vec3 {
    match m {
        Material::Lambertian(l) => l.albedo,
        Material::Metal(mt) => mt.albedo,
    }
}

impl Lambertian {
    /// Diffuse scattering: the normal plus a random unit direction, falling
    /// back to the normal itself when the sum cancels to zero. Always
    /// scatters.
    pub fn scatter(
        &self,
        _ray: &Ray,
        rec: &HitRecord,
        rng: &mut rand::rngs::StdRng,
    ) -> (res: Option<ScatterResult>)
        requires
            rec_wf(rec@),
        ensures
            res matches Some(s) && s.attenuation == self.albedo && s.scattered@.origin
                == rec@.position && !snear_zero(s.scattered@.direction) && ray_wf(s.scattered@),
            res matches Some(s) ==> exists|w: V3|
                UNIT_SAMPLE_MIN_LS as int <= sls(w) < SCALE as int && s.scattered@.direction == (
                if snear_zero(#[trigger] svadd(rec@.normal, snormalize(w))) {
                    rec@.normal
                } else {
                    svadd(rec@.normal, snormalize(w))
                }),
    {
        let u = Vec3::random_unit_vector(rng);
        let dir0 = rec.normal.add(u);
        let dir = if dir0.near_zero() {
            rec.normal
        } else {
            dir0
        };
        proof {
            let w = choose|w: V3|
                UNIT_SAMPLE_MIN_LS as int <= sls(w) < SCALE as int && u@ == #[trigger] snormalize(
                    w,
                );
            assert(svadd(rec@.normal, snormalize(w)) == dir0@);
            assert(dir@ == (if snear_zero(svadd(rec@.normal, snormalize(w))) {
                rec@.normal
            } else {
                svadd(rec@.normal, snormalize(w))
            }));
            if snear_zero(rec@.normal) {
                let n = rec@.normal;
                assert(n.x * n.x + n.y * n.y + n.z * n.z == 0) by (nonlinear_arith)
                    requires
                        n.x == 0,
                        n.y == 0,
                        n.z == 0,
                ;
                vstd::arithmetic::div_mod::lemma_div_of0(SCALE as int);
                assert(sls(rec@.normal) == 0);
            }
        }
        Some(
            ScatterResult {
                scattered: Ray::new(rec.position, dir),
                attenuation: self.albedo,
            },
        )
    }
}

impl Metal {
    /// Specular scattering: the incident direction, normalized, mirrored
    /// about the normal and blurred by a fuzz sample; absorbed when the
    /// outcome points into the surface. Without fuzz the outcome is a pure
    /// function of the inputs, and the contract pins it down. A degenerate
    /// incident direction, whose squared length truncates to zero, cannot be
    /// normalized and is absorbed.
    pub fn scatter(
        &self,
        ray: &Ray,
        rec: &HitRecord,
        rng: &mut rand::rngs::StdRng,
    ) -> (res: Option<ScatterResult>)
        requires
            rec_wf(rec@),
            ray_wf(ray@),
            0 <= self.fuzz.spec_value() <= SCALE as int,
        ensures
            res matches Some(s) ==> s.attenuation == self.albedo && s.scattered@.origin
                == rec@.position && sdot(s.scattered@.direction, rec@.normal) > 0 && ray_wf(
                s.scattered@,
            ),
            res matches Some(s) ==> exists|w: V3|
                vbound(w, self.fuzz.spec_value()) && s.scattered@.direction == #[trigger] svadd(
                    sreflect(snormalize(ray@.direction), rec@.normal),
                    w,
                ),
            self.fuzz.spec_value() == 0 && sls(ray@.direction) >= 1 ==> {
                let refl = sreflect(snormalize(ray@.direction), rec@.normal);
                &&& (res is Some <==> sdot(refl, rec@.normal) > 0)
                &&& (res matches Some(s) ==> s.scattered@.direction == refl)
            },
    {
        proof {
            lemma_dir_ls_fits(ray@.direction);
        }
        let dls = ray.direction.length_squared();
        if dls < 1 {
            return None;
        }
        let unit_in = ray.direction.normalized();
        let reflected = reflect(&unit_in, &rec.normal);
        proof {
            lemma_reflect_unit_bound(unit_in@, rec@.normal);
        }
        let fuzz_vec = Vec3::random_in_unit_sphere(rng);
        let f = self.fuzz.value();
        proof {
            crate::fixed::lemma_mul_le(fuzz_vec@.x, f as int, SCALE as int, f as int);
            crate::fixed::lemma_mul_le(fuzz_vec@.y, f as int, SCALE as int, f as int);
            crate::fixed::lemma_mul_le(fuzz_vec@.z, f as int, SCALE as int, f as int);
            assert((SCALE as int) * (f as int) == (f as int) * (SCALE as int))
                by (nonlinear_arith);
            crate::fixed::lemma_tdiv_le(fuzz_vec@.x * (f as int), 1000000, f as int);
            crate::fixed::lemma_tdiv_le(fuzz_vec@.y * (f as int), 1000000, f as int);
            crate::fixed::lemma_tdiv_le(fuzz_vec@.z * (f as int), 1000000, f as int);
            if f == 0 {
                vstd::arithmetic::div_mod::lemma_div_of0(SCALE as int);
            }
        }
        let scaled = fuzz_vec.scale(f);
        let dir = reflected.add(scaled);
        proof {
            lemma_scatter_dot_fits(dir@, rec@.normal);
            assert(dir@ == svadd(sreflect(snormalize(ray@.direction), rec@.normal), scaled@));
        }
        let d = dir.dot(&rec.normal);
        if d > 0 {
            Some(
                ScatterResult {
                    scattered: Ray::new(rec.position, dir),
                    attenuation: self.albedo,
                },
            )
        } else {
            None
        }
    }
}

impl Material {
    /// Dispatches scattering to the surface's own rule.
    pub fn scatter(
        &self,
        ray: &Ray,
        rec: &HitRecord,
        rng: &mut rand::rngs::StdRng,
    ) -> (res: Option<ScatterResult>)
        requires
            rec_wf(rec@),
            ray_wf(ray@),
            material_wf(*self),
        ensures
            res matches Some(s) ==> s.attenuation == albedo_of(*self) && s.scattered@.origin
                == rec@.position && ray_wf(s.scattered@),
            self matches Material::Lambertian(_) ==> res matches Some(s) && !snear_zero(
                s.scattered@.direction,
            ),
            self matches Material::Metal(m) ==> (res matches Some(s) ==> sdot(
                s.scattered@.direction,
                rec@.normal,
            ) > 0 && exists|w: V3|
                vbound(w, m.fuzz.spec_value()) && s.scattered@.direction == #[trigger] svadd(
                    sreflect(snormalize(ray@.direction), rec@.normal),
                    w,
                )),
            self matches Material::Metal(m) && m.fuzz.spec_value() == 0 && sls(ray@.direction)
                >= 1 ==> {
                let refl = sreflect(snormalize(ray@.direction), rec@.normal);
                &&& (res is Some <==> sdot(refl, rec@.normal) > 0)
                &&& (res matches Some(s) ==> s.scattered@.direction == refl)
            },
    {
        match self {
            Material::Lambertian(l) => l.scatter(ray, rec, rng),
            Material::Metal(m) => m.scatter(ray, rec, rng),
        }
    }
}

/// A direction within the ray bound has a squared length that fits.
pub proof fn lemma_dir_ls_fits(d: V3)
    requires
        vbound(d, crate::hittable::DIR_MAX as int),
    ensures
        fits_i64(sls(d)),
        0 <= sls(d) <= 3_000_000_000_000int,
{
    crate::fixed::lemma_mul_le(d.x, d.x, 1_000_000_000int, 1_000_000_000int);
    crate::fixed::lemma_mul_le(d.y, d.y, 1_000_000_000int, 1_000_000_000int);
    crate::fixed::lemma_mul_le(d.z, d.z, 1_000_000_000int, 1_000_000_000int);
    crate::fixed::lemma_tdiv_le(
        d.x * d.x + d.y * d.y + d.z * d.z,
        1000000,
        3_000_000_000_000int,
    );
    crate::vec3::lemma_sls_nonneg(d);
}

/// Reflecting one near-unit vector about another stays within a tight
/// bound.
proof fn lemma_reflect_unit_bound(a: V3, b: V3)
    requires
        vbound(a, 2_000_000int),
        vbound(b, 2_000_000int),
    ensures
        vbound(sreflect(a, b), 100_000_000int),
        fits_i64(sreflect(a, b).x + 1_000_000),
{
    crate::fixed::lemma_mul_le(a.x, b.x, 2_000_000int, 2_000_000int);
    crate::fixed::lemma_mul_le(a.y, b.y, 2_000_000int, 2_000_000int);
    crate::fixed::lemma_mul_le(a.z, b.z, 2_000_000int, 2_000_000int);
    crate::fixed::lemma_tdiv_le(
        a.x * b.x + a.y * b.y + a.z * b.z,
        1000000,
        12_000_000int,
    );
    let d2 = 2 * sdot(a, b);
    crate::fixed::lemma_mul_le(b.x, d2, 2_000_000int, 24_000_000int);
    crate::fixed::lemma_mul_le(b.y, d2, 2_000_000int, 24_000_000int);
    crate::fixed::lemma_mul_le(b.z, d2, 2_000_000int, 24_000_000int);
    crate::fixed::lemma_tdiv_le(b.x * d2, 1000000, 48_000_000int);
    crate::fixed::lemma_tdiv_le(b.y * d2, 1000000, 48_000_000int);
    crate::fixed::lemma_tdiv_le(b.z * d2, 1000000, 48_000_000int);
}

/// The scatter direction's projection on the normal fits.
proof fn lemma_scatter_dot_fits(dir: V3, n: V3)
    requires
        vbound(dir, 101_000_000int),
        vbound(n, 2_000_000int),
    ensures
        fits_i64(sdot(dir, n)),
{
    crate::fixed::lemma_mul_le(dir.x, n.x, 101_000_000int, 2_000_000int);
    crate::fixed::lemma_mul_le(dir.y, n.y, 101_000_000int, 2_000_000int);
    crate::fixed::lemma_mul_le(dir.z, n.z, 101_000_000int, 2_000_000int);
    crate::fixed::lemma_tdiv_le(
        dir.x * n.x + dir.y * n.y + dir.z * n.z,
        1000000,
        606_000_000_000int,
    );
}

/// Within `reflect`'s input bound every intermediate value fits.
proof fn lemma_reflect_fits(a: V3, b: V3)
    requires
        vbound(a, REFLECT_MAX as int),
        vbound(b, REFLECT_MAX as int),
    ensures
        fits_i64(sdot(a, b)),
        -(100_000_000_000int) <= sdot(a, b) <= 100_000_000_000int,
        fits_i64(fmul(b.x, 2 * sdot(a, b))),
        fits_i64(fmul(b.y, 2 * sdot(a, b))),
        fits_i64(fmul(b.z, 2 * sdot(a, b))),
        fits_i64(a.x - fmul(b.x, 2 * sdot(a, b))),
        fits_i64(a.y - fmul(b.y, 2 * sdot(a, b))),
        fits_i64(a.z - fmul(b.z, 2 * sdot(a, b))),
        vbound(sreflect(a, b), 100_000_000_000_000_000int),
{
    let m = REFLECT_MAX as int;
    crate::fixed::lemma_mul_le(a.x, b.x, m, m);
    crate::fixed::lemma_mul_le(a.y, b.y, m, m);
    crate::fixed::lemma_mul_le(a.z, b.z, m, m);
    crate::fixed::lemma_tdiv_le(
        a.x * b.x + a.y * b.y + a.z * b.z,
        1000000,
        100_000_000_000int,
    );
    let d2 = 2 * sdot(a, b);
    crate::fixed::lemma_mul_le(b.x, d2, m, 200_000_000_000int);
    crate::fixed::lemma_mul_le(b.y, d2, m, 200_000_000_000int);
    crate::fixed::lemma_mul_le(b.z, d2, m, 200_000_000_000int);
    crate::fixed::lemma_tdiv_le(b.x * d2, 1000000, 20_000_000_000_000int);
    crate::fixed::lemma_tdiv_le(b.y * d2, 1000000, 20_000_000_000_000int);
    crate::fixed::lemma_tdiv_le(b.z * d2, 1000000, 20_000_000_000_000int);
}

} // verus!
