//! Ray/scene intersection: spheres, and an ordered collection reduced to the
//! nearest hit.
//!
//! The quadratic for a sphere is solved in fixed point, exactly as the
//! specification functions state it. Accepted hits pass a range guard on the
//! derived position and normal: values that real geometry cannot produce but
//! that the truncated quadratic cannot formally exclude are rejected rather
//! than propagated, the fixed-point counterpart of refusing non-finite
//! intermediates.

use crate::fixed::fdiv;
use crate::fixed::fits_i64;
use crate::fixed::fmul;
use crate::fixed::isqrt;
use crate::fixed::lemma_mul_le;
use crate::fixed::lemma_mul_mono;
use crate::fixed::lemma_tdiv_le;
use crate::fixed::mul_fixed;
use crate::fixed::sqrt_floor;
use crate::fixed::tdiv;
use crate::fixed::tdiv_i128;
use crate::fixed::SCALE;
use crate::material::material_wf;
use crate::material::Material;
use crate::ray::sray_at;
use crate::ray::Ray;
use crate::ray::RayS;
use crate::vec3::nat_of;
use crate::vec3::sdot;
use crate::vec3::sls;
use crate::vec3::svdiv;
use crate::vec3::svneg;
use crate::vec3::svsub;
use crate::vec3::vbound;
use crate::vec3::Vec3;
use crate::vec3::V3;
use crate::vec3::COMP_MAX;
use vstd::prelude::*;

verus! {

/// Largest magnitude of a sphere center component.
pub const GEO_MAX: i64 = 1_000_000_000;

/// Largest magnitude of a ray direction component.
pub const DIR_MAX: i64 = 1_000_000_000;

/// Largest sphere radius; the least is one micro-unit, since a positive
/// radius at this resolution means at least one step.
pub const RAD_MAX: i64 = 1_000_000_000;

/// Largest magnitude of an accepted hit position component, and of a ray
/// origin component: scattered rays start at accepted hits.
pub const POS_MAX: i64 = 1_000_000_000_000;

/// Far edge of every search window; hits beyond a million units are out of
/// any scene.
pub const T_MAX: i64 = 1_000_000_000_000;

/// Largest magnitude of an accepted outward-normal component.
pub const NORM_MAX: i64 = 2_000_000;

/// Least accepted squared length of an outward normal: a quarter, half a
/// unit squared.
pub const NORM_MIN_LS: i64 = 250_000;

/// A ray the intersection routines accept: origin within the reachable
/// volume, direction bounded.
pub open spec fn ray_wf(r: RayS) -> bool {
    &&& vbound(r.origin, POS_MAX as int)
    &&& vbound(r.direction, DIR_MAX as int)
}

/// The mathematical value of a hit record.
pub struct HitRecordS {
    pub position: V3,
    pub normal: V3,
    pub material: Material,
    pub t: int,
    pub front_face: bool,
}

/// The record of the nearest intersection: where, how far along the ray,
/// which side was struck, and whose surface.
#[derive(Clone, Copy, Debug, PartialEq, Eq, Structural)]
pub struct HitRecord {
    pub position: Vec3,
    pub normal: Vec3,
    pub material: Material,
    pub t: i64,
    pub front_face: bool,
}

impl View for HitRecord {
    type V = HitRecordS;

    open spec fn view(&self) -> HitRecordS {
        HitRecordS {
            position: self.position@,
            normal: self.normal@,
            material: self.material,
            t: self.t as int,
            front_face: self.front_face,
        }
    }
}

/// The record built from an outward normal: the stored normal opposes the
/// incident direction, and `front_face` says whether they already did.
pub open spec fn mk_record(
    material: Material,
    position: V3,
    t: int,
    ray: RayS,
    outward: V3,
) -> HitRecordS {
    let front = sdot(ray.direction, outward) < 0;
    HitRecordS {
        position,
        normal: if front {
            outward
        } else {
            svneg(outward)
        },
        material,
        t,
        front_face: front,
    }
}

/// What every accepted record satisfies: bounded position, a near-unit
/// normal, a parameter inside the global window, a well-formed material.
pub open spec fn rec_wf(rec: HitRecordS) -> bool {
    &&& vbound(rec.position, POS_MAX as int)
    &&& vbound(rec.normal, NORM_MAX as int)
    &&& NORM_MIN_LS as int <= sls(rec.normal)
    &&& -(T_MAX as int) <= rec.t <= T_MAX as int
    &&& material_wf(rec.material)
}

impl HitRecord {
    /// Orients the outward normal against the incident ray and stores which
    /// side was struck.
    pub fn new(
        material: Material,
        position: Vec3,
        t: i64,
        ray: &Ray,
        outward_normal: &Vec3,
    ) -> (rec: HitRecord)
        requires
            vbound(ray@.direction, COMP_MAX as int),
            vbound(outward_normal@, COMP_MAX as int),
            fits_i64(sdot(ray@.direction, outward_normal@)),
        ensures
            rec@ == mk_record(material, position@, t as int, ray@, outward_normal@),
    {
        let front_face = ray.direction.dot(outward_normal) < 0;
        let normal = if front_face {
            *outward_normal
        } else {
            outward_normal.neg()
        };
        HitRecord { position, material, normal, t, front_face }
    }
}

/// A sphere with its surface material.
#[derive(Clone, Copy, Debug, PartialEq, Eq, Structural)]
pub struct Sphere {
    pub center: Vec3,
    pub radius: i64,
    pub material: Material,
}

/// A sphere the renderer accepts: bounded center, positive bounded radius,
/// well-formed material.
pub open spec fn sphere_wf(s: Sphere) -> bool {
    &&& vbound(s.center@, GEO_MAX as int)
    &&& 1 <= s.radius <= RAD_MAX
    &&& material_wf(s.material)
}

impl Sphere {
    /// A sphere at a center with a radius and a material.
    pub fn new(center: Vec3, radius: i64, material: Material) -> (s: Sphere)
        ensures
            s.center == center,
            s.radius == radius,
            s.material == material,
    {
        Sphere { center, radius, material }
    }
}

/// The quadratic's leading coefficient: the direction's squared length.
pub open spec fn sph_a(r: RayS) -> int {
    sdot(r.direction, r.direction)
}

/// Center-to-origin offset.
pub open spec fn sph_oc(s: Sphere, r: RayS) -> V3 {
    svsub(r.origin, s.center@)
}

/// Half the quadratic's middle coefficient.
pub open spec fn sph_half_b(s: Sphere, r: RayS) -> int {
    sdot(sph_oc(s, r), r.direction)
}

/// The quadratic's constant coefficient.
pub open spec fn sph_c(s: Sphere, r: RayS) -> int {
    sls(sph_oc(s, r)) - fmul(s.radius as int, s.radius as int)
}

/// The reduced discriminant, truncated to micro-units once.
pub open spec fn sph_disc(s: Sphere, r: RayS) -> int {
    tdiv(sph_half_b(s, r) * sph_half_b(s, r) - sph_a(r) * sph_c(s, r), SCALE as int)
}

/// The discriminant's square root in micro-units, rounded down.
pub open spec fn sph_sqrt_disc(s: Sphere, r: RayS) -> int {
    sqrt_floor(nat_of(sph_disc(s, r) * (SCALE as int))) as int
}

/// The nearer root of the quadratic.
pub open spec fn sph_root1(s: Sphere, r: RayS) -> int {
    fdiv(-sph_half_b(s, r) - sph_sqrt_disc(s, r), sph_a(r))
}

/// The farther root of the quadratic.
pub open spec fn sph_root2(s: Sphere, r: RayS) -> int {
    fdiv(-sph_half_b(s, r) + sph_sqrt_disc(s, r), sph_a(r))
}

/// Which root, if any, the intersection reports: the nearer root when it
/// falls inside the window, else the farther, else none. A degenerate
/// direction, whose squared length truncates to zero, reports none rather
/// than dividing by it.
pub open spec fn sph_chosen_root(s: Sphere, r: RayS, tmin: int, tmax: int) -> Option<int> {
    if sph_a(r) <= 0 {
        None
    } else if sph_disc(s, r) < 0 {
        None
    } else if tmin <= sph_root1(s, r) && sph_root1(s, r) <= tmax {
        Some(sph_root1(s, r))
    } else if tmin <= sph_root2(s, r) && sph_root2(s, r) <= tmax {
        Some(sph_root2(s, r))
    } else {
        None
    }
}

/// The outward normal at the hit point: the offset from the center, divided
/// by the radius.
pub open spec fn sph_outward(s: Sphere, r: RayS, t: int) -> V3 {
    svdiv(svsub(sray_at(r, t), s.center@), s.radius as int)
}

/// The record a sphere reports for an accepted root.
pub open spec fn sph_record(s: Sphere, r: RayS, t: int) -> HitRecordS {
    mk_record(s.material, sray_at(r, t), t, r, sph_outward(s, r, t))
}

/// The range guard on an accepted root's derived values; real geometry
/// always passes it.
pub open spec fn sph_guard(s: Sphere, r: RayS, t: int) -> bool {
    &&& vbound(sray_at(r, t), POS_MAX as int)
    &&& vbound(sph_outward(s, r, t), NORM_MAX as int)
    &&& NORM_MIN_LS as int <= sls(sph_outward(s, r, t))
}

/// What a sphere reports for a ray and a window.
pub open spec fn sphere_hit(s: Sphere, r: RayS, tmin: int, tmax: int) -> Option<HitRecordS> {
    match sph_chosen_root(s, r, tmin, tmax) {
        None => None,
        Some(t) => if sph_guard(s, r, t) {
            Some(sph_record(s, r, t))
        } else {
            None
        },
    }
}

/// The record view of an optional record.
pub open spec fn opt_rec_view(o: Option<HitRecord>) -> Option<HitRecordS> {
    match o {
        Option::None => None,
        Option::Some(rec) => Some(rec@),
    }
}

/// Everything the quadratic's coefficients need fits, with the stated
/// magnitudes.
proof fn lemma_sph_coeff_fits(s: Sphere, r: RayS)
    requires
        sphere_wf(s),
        ray_wf(r),
    ensures
        fits_i64(sph_a(r)),
        0 <= sph_a(r) <= 3_000_000_000_000int,
        vbound(sph_oc(s, r), 1_001_000_000_000int),
        fits_i64(sph_half_b(s, r)),
        -3_003_000_000_000_000int <= sph_half_b(s, r) <= 3_003_000_000_000_000int,
        fits_i64(sls(sph_oc(s, r))),
        0 <= sls(sph_oc(s, r)) <= 3_006_003_000_000_000_000int,
        fits_i64(fmul(s.radius as int, s.radius as int)),
        0 <= fmul(s.radius as int, s.radius as int) <= 1_000_000_000_000int,
        fits_i64(sph_c(s, r)),
        -3_006_004_000_000_000_000int <= sph_c(s, r) <= 3_006_004_000_000_000_000int,
    {
        let d = r.direction;
        let oc = sph_oc(s, r);
        lemma_mul_le(d.x, d.x, DIR_MAX as int, DIR_MAX as int);
        lemma_mul_le(d.y, d.y, DIR_MAX as int, DIR_MAX as int);
        lemma_mul_le(d.z, d.z, DIR_MAX as int, DIR_MAX as int);
        lemma_tdiv_le(d.x * d.x + d.y * d.y + d.z * d.z, 1000000, 3_000_000_000_000int);
        crate::vec3::lemma_sls_nonneg(d);
        lemma_mul_le(oc.x, d.x, 1_001_000_000_000int, DIR_MAX as int);
        lemma_mul_le(oc.y, d.y, 1_001_000_000_000int, DIR_MAX as int);
        lemma_mul_le(oc.z, d.z, 1_001_000_000_000int, DIR_MAX as int);
        lemma_tdiv_le(
            oc.x * d.x + oc.y * d.y + oc.z * d.z,
            1000000,
            3_003_000_000_000_000int,
        );
        lemma_mul_le(oc.x, oc.x, 1_001_000_000_000int, 1_001_000_000_000int);
        lemma_mul_le(oc.y, oc.y, 1_001_000_000_000int, 1_001_000_000_000int);
        lemma_mul_le(oc.z, oc.z, 1_001_000_000_000int, 1_001_000_000_000int);
        lemma_tdiv_le(
            oc.x * oc.x + oc.y * oc.y + oc.z * oc.z,
            1000000,
            3_006_003_000_000_000_000int,
        );
        crate::vec3::lemma_sls_nonneg(oc);
        lemma_mul_le(s.radius as int, s.radius as int, RAD_MAX as int, RAD_MAX as int);
        lemma_tdiv_le(
            (s.radius as int) * (s.radius as int),
            1000000,
            1_000_000_000_000int,
        );
        assert(0 <= (s.radius as int) * (s.radius as int)) by (nonlinear_arith)
            requires
                1 <= s.radius,
        ;
        assert(0 <= tdiv((s.radius as int) * (s.radius as int), 1000000)) by (nonlinear_arith)
            requires
                0 <= (s.radius as int) * (s.radius as int),
        ;
    }

impl Sphere {
    /// Solves the intersection quadratic within a window, per `sphere_hit`.
    pub fn hit(&self, ray: &Ray, t_min: i64, t_max: i64) -> (res: Option<HitRecord>)
        requires
            sphere_wf(*self),
            ray_wf(ray@),
            -T_MAX <= t_min <= t_max <= T_MAX,
        ensures
            opt_rec_view(res) == sphere_hit(*self, ray@, t_min as int, t_max as int),
            res matches Some(rec) ==> rec_wf(rec@) && t_min as int <= rec@.t <= t_max as int
                && rec@ == sph_record(*self, ray@, rec@.t),
    {
        proof {
            lemma_sph_coeff_fits(*self, ray@);
        }
        let oc = ray.origin.sub(self.center);
        let a = ray.direction.dot(&ray.direction);
        let half_b = oc.dot(&ray.direction);
        let c_ls = oc.length_squared();
        let r2 = mul_fixed(self.radius, self.radius);
        let c = c_ls - r2;
        if a <= 0 {
            return None;
        }
        proof {
            lemma_mul_le(half_b as int, half_b as int, 3_003_000_000_000_000int, 3_003_000_000_000_000int);
            lemma_mul_le(a as int, c as int, 3_000_000_000_000int, 3_006_004_000_000_000_000int);
        }
        let num: i128 = (half_b as i128) * (half_b as i128) - (a as i128) * (c as i128);
        proof {
            lemma_tdiv_le(num as int, 1000000, 19_000_000_000_000_000_000_000_000int);
        }
        let disc: i128 = tdiv_i128(num, SCALE as i128);
        if disc < 0 {
            return None;
        }
        proof {
            assert((disc as int) * (SCALE as int) <= 19_000_000_000_000_000_000_000_000_000_000int)
                by (nonlinear_arith)
                requires
                    0 <= disc as int <= 19_000_000_000_000_000_000_000_000int,
            ;
        }
        let sq: u64 = isqrt((disc as u128) * (SCALE as u128));
        proof {
            assert(sq as int <= 5_000_000_000_000_000int) by (nonlinear_arith)
                requires
                    (sq as int) * (sq as int) <= (disc as int) * (SCALE as int),
                    (disc as int) * (SCALE as int) <= 19_000_000_000_000_000_000_000_000_000_000int,
                    0 <= sq as int,
            ;
            assert(nat_of(sph_disc(*self, ray@) * (SCALE as int)) == ((disc as u128) * (
            SCALE as u128)) as nat);
        }
        let neg_hb: i128 = -(half_b as i128);
        proof {
            assert(-9_000_000_000_000_000_000_000_000int <= (neg_hb as int - sq as int) * (
            SCALE as int) <= 9_000_000_000_000_000_000_000_000int) by (nonlinear_arith)
                requires
                    -3_003_000_000_000_000int <= neg_hb as int <= 3_003_000_000_000_000int,
                    0 <= sq as int <= 5_000_000_000_000_000int,
            ;
        }
        let num1: i128 = (neg_hb - (sq as i128)) * (SCALE as i128);
        let root1: i128 = tdiv_i128(num1, a as i128);
        proof {
            assert(root1 as int == sph_root1(*self, ray@));
        }
        let tmin_w: i128 = t_min as i128;
        let tmax_w: i128 = t_max as i128;
        let root: i64;
        if tmin_w <= root1 && root1 <= tmax_w {
            root = root1 as i64;
        } else {
            proof {
                assert(-9_000_000_000_000_000_000_000_000int <= (neg_hb as int + sq as int) * (
                SCALE as int) <= 9_000_000_000_000_000_000_000_000int) by (nonlinear_arith)
                    requires
                        -3_003_000_000_000_000int <= neg_hb as int <= 3_003_000_000_000_000int,
                        0 <= sq as int <= 5_000_000_000_000_000int,
                ;
            }
            let num2: i128 = (neg_hb + (sq as i128)) * (SCALE as i128);
            let root2: i128 = tdiv_i128(num2, a as i128);
            proof {
                assert(root2 as int == sph_root2(*self, ray@));
            }
            if tmin_w <= root2 && root2 <= tmax_w {
                root = root2 as i64;
            } else {
                return None;
            }
        }
        proof {
            assert(sph_chosen_root(*self, ray@, t_min as int, t_max as int) == Some(
                root as int,
            ));
            lemma_at_fits(ray@, root as int);
        }
        let position = ray.at(root);
        if !(-POS_MAX <= position.x && position.x <= POS_MAX && -POS_MAX <= position.y
            && position.y <= POS_MAX && -POS_MAX <= position.z && position.z <= POS_MAX) {
            return None;
        }
        let diff = position.sub(self.center);
        proof {
            lemma_outward_fits(*self, diff@);
        }
        let outward = diff.div_scalar(self.radius);
        if !(-NORM_MAX <= outward.x && outward.x <= NORM_MAX && -NORM_MAX <= outward.y
            && outward.y <= NORM_MAX && -NORM_MAX <= outward.z && outward.z <= NORM_MAX) {
            return None;
        }
        proof {
            lemma_mul_le(outward@.x, outward@.x, NORM_MAX as int, NORM_MAX as int);
            lemma_mul_le(outward@.y, outward@.y, NORM_MAX as int, NORM_MAX as int);
            lemma_mul_le(outward@.z, outward@.z, NORM_MAX as int, NORM_MAX as int);
            lemma_tdiv_le(
                outward@.x * outward@.x + outward@.y * outward@.y + outward@.z * outward@.z,
                1000000,
                12_000_000int,
            );
        }
        let nls = outward.length_squared();
        if nls < NORM_MIN_LS {
            return None;
        }
        proof {
            lemma_mul_le(ray@.direction.x, outward@.x, DIR_MAX as int, NORM_MAX as int);
            lemma_mul_le(ray@.direction.y, outward@.y, DIR_MAX as int, NORM_MAX as int);
            lemma_mul_le(ray@.direction.z, outward@.z, DIR_MAX as int, NORM_MAX as int);
            lemma_tdiv_le(
                ray@.direction.x * outward@.x + ray@.direction.y * outward@.y
                    + ray@.direction.z * outward@.z,
                1000000,
                6_000_000_000int,
            );
        }
        proof {
            crate::vec3::lemma_sls_neg(outward@);
        }
        let rec = HitRecord::new(self.material, position, root, ray, &outward);
        Some(rec)
    }
}

/// Evaluating a ray at a window parameter stays within bounds.
proof fn lemma_at_fits(r: RayS, t: int)
    requires
        ray_wf(r),
        -(T_MAX as int) <= t <= T_MAX as int,
    ensures
        fits_i64(fmul(r.direction.x, t)),
        fits_i64(fmul(r.direction.y, t)),
        fits_i64(fmul(r.direction.z, t)),
        fits_i64(r.origin.x + fmul(r.direction.x, t)),
        fits_i64(r.origin.y + fmul(r.direction.y, t)),
        fits_i64(r.origin.z + fmul(r.direction.z, t)),
{
    lemma_mul_le(r.direction.x, t, DIR_MAX as int, T_MAX as int);
    lemma_mul_le(r.direction.y, t, DIR_MAX as int, T_MAX as int);
    lemma_mul_le(r.direction.z, t, DIR_MAX as int, T_MAX as int);
    lemma_tdiv_le(r.direction.x * t, 1000000, 1_000_000_000_000_000_000int);
    lemma_tdiv_le(r.direction.y * t, 1000000, 1_000_000_000_000_000_000int);
    lemma_tdiv_le(r.direction.z * t, 1000000, 1_000_000_000_000_000_000int);
}

/// The parameter part of what a sphere reports.
pub open spec fn sphere_hit_t(s: Sphere, r: RayS, tmin: int, tmax: int) -> Option<int> {
    match sphere_hit(s, r, tmin, tmax) {
        Some(rec) => Some(rec.t),
        None => None,
    }
}

/// An accepted record carries the chosen root, inside the window.
pub proof fn lemma_sphere_hit_some_props(s: Sphere, r: RayS, tmin: int, tmax: int)
    requires
        sphere_hit(s, r, tmin, tmax) is Some,
    ensures
        sph_chosen_root(s, r, tmin, tmax) matches Some(t) && sphere_hit(s, r, tmin, tmax)
            == Some(sph_record(s, r, t)) && tmin <= t <= tmax && sph_record(s, r, t).t == t,
{
}

/// The nearer root never exceeds the farther one.
proof fn lemma_roots_ordered(s: Sphere, r: RayS)
    requires
        1 <= sph_a(r),
    ensures
        sph_root1(s, r) <= sph_root2(s, r),
{
    let hb = sph_half_b(s, r);
    let sq = sph_sqrt_disc(s, r);
    assert(0 <= sq);
    crate::fixed::lemma_mul_mono(-hb - sq, -hb + sq, SCALE as int);
    crate::fixed::lemma_tdiv_mono((-hb - sq) * (SCALE as int), (-hb + sq) * (SCALE as int), sph_a(r));
}

/// A hit found inside a narrow window is reported unchanged by any wider
/// window with the same near edge.
pub proof fn lemma_sphere_hit_widen(s: Sphere, r: RayS, tmin: int, b: int, bw: int)
    requires
        b <= bw,
        sphere_hit(s, r, tmin, b) is Some,
    ensures
        sphere_hit(s, r, tmin, bw) == sphere_hit(s, r, tmin, b),
{
    lemma_roots_ordered(s, r);
    let r1 = sph_root1(s, r);
    let r2 = sph_root2(s, r);
    if !(tmin <= r1 && r1 <= b) {
        assert(tmin <= r2 && r2 <= b);
        assert(r1 < tmin);
    }
}

/// Shrinking the window onto a reported hit keeps that hit.
pub proof fn lemma_sphere_hit_narrow(s: Sphere, r: RayS, tmin: int, b: int, bw: int)
    requires
        b <= bw,
        sphere_hit(s, r, tmin, bw) matches Some(rec) && rec.t <= b,
    ensures
        sphere_hit(s, r, tmin, b) == sphere_hit(s, r, tmin, bw),
{
    lemma_roots_ordered(s, r);
    let r1 = sph_root1(s, r);
    let r2 = sph_root2(s, r);
    lemma_sphere_hit_some_props(s, r, tmin, bw);
    if !(tmin <= r1 && r1 <= bw) {
        assert(tmin <= r2 && r2 <= bw);
        assert(r1 < tmin);
    }
}

/// An ordered collection of spheres.
pub struct HittableList {
    pub items: Vec<Sphere>,
}

impl View for HittableList {
    type V = Seq<Sphere>;

    open spec fn view(&self) -> Seq<Sphere> {
        self.items@
    }
}

/// Every member is a well-formed sphere.
pub open spec fn list_wf(items: Seq<Sphere>) -> bool {
    forall|i: int| 0 <= i < items.len() ==> sphere_wf(#[trigger] items[i])
}

/// What the scan reports: members queried first to last, each against the
/// window shrunk to the best parameter found so far, the last acceptance
/// winning.
pub open spec fn list_hit(items: Seq<Sphere>, r: RayS, tmin: int, tmax: int) -> Option<
    HitRecordS,
>
    decreases items.len(),
{
    if items.len() == 0 {
        None
    } else {
        let prev = list_hit(items.drop_last(), r, tmin, tmax);
        let bound = match prev {
            Some(p) => p.t,
            None => tmax,
        };
        match sphere_hit(items.last(), r, tmin, bound) {
            Some(rec) => Some(rec),
            None => prev,
        }
    }
}

impl HittableList {
    /// A collection over the given members.
    pub fn new(items: Vec<Sphere>) -> (l: HittableList)
        ensures
            l@ == items@,
    {
        HittableList { items }
    }

    /// A single pass over the members with a shrinking far edge: the
    /// globally nearest valid hit, whatever the insertion order.
    pub fn hit(&self, ray: &Ray, t_min: i64, t_max: i64) -> (res: Option<HitRecord>)
        requires
            list_wf(self@),
            ray_wf(ray@),
            -T_MAX <= t_min <= t_max <= T_MAX,
        ensures
            opt_rec_view(res) == list_hit(self@, ray@, t_min as int, t_max as int),
            res matches Some(rec) ==> rec_wf(rec@) && t_min as int <= rec@.t <= t_max as int,
    {
        let mut result: Option<HitRecord> = None;
        let mut closest_so_far: i64 = t_max;
        let n = self.items.len();
        let mut idx: usize = 0;
        while idx < n
            invariant
                n == self.items.len(),
                idx <= n,
                list_wf(self@),
                ray_wf(ray@),
                -T_MAX <= t_min <= t_max <= T_MAX,
                opt_rec_view(result) == list_hit(
                    self@.take(idx as int),
                    ray@,
                    t_min as int,
                    t_max as int,
                ),
                match result {
                    Some(rec) => closest_so_far == rec.t && rec_wf(rec@) && t_min <= rec.t
                        <= t_max,
                    None => closest_so_far == t_max,
                },
                t_min <= closest_so_far <= t_max,
            decreases n - idx,
        {
            let item = self.items[idx];
            let cur = item.hit(ray, t_min, closest_so_far);
            proof {
                assert(self@.take(idx as int + 1).drop_last() =~= self@.take(idx as int));
                assert(self@.take(idx as int + 1).last() == self@[idx as int]);
            }
            if let Some(rec) = cur {
                closest_so_far = rec.t;
                result = Some(rec);
            }
            idx = idx + 1;
        }
        proof {
            assert(self@.take(n as int) =~= self@);
        }
        result
    }
}

/// What the scan reports, described without the scan: nothing when no member
/// reports a hit in the full window; otherwise a full-window hit of some
/// member, no farther than every member's own full-window hit.
pub proof fn lemma_list_hit_characterization(items: Seq<Sphere>, r: RayS, tmin: int, tmax: int)
    ensures
        match list_hit(items, r, tmin, tmax) {
            None => forall|i: int|
                0 <= i < items.len() ==> #[trigger] sphere_hit(items[i], r, tmin, tmax) is None,
            Some(rec) => {
                &&& tmin <= rec.t <= tmax
                &&& exists|i: int|
                    0 <= i < items.len() && #[trigger] sphere_hit(items[i], r, tmin, tmax)
                        == Some(rec)
                &&& forall|i: int|
                    0 <= i < items.len() ==> match #[trigger] sphere_hit(
                        items[i],
                        r,
                        tmin,
                        tmax,
                    ) {
                        Some(other) => rec.t <= other.t,
                        None => true,
                    }
            },
        },
    decreases items.len(),
{
    if items.len() == 0 {
    } else {
        let prefix = items.drop_last();
        lemma_list_hit_characterization(prefix, r, tmin, tmax);
        let prev = list_hit(prefix, r, tmin, tmax);
        let last = items.last();
        assert(forall|i: int| 0 <= i < prefix.len() ==> prefix[i] == items[i]);
        assert(last == items[items.len() - 1]);
        match prev {
            None => {
                let cur = sphere_hit(last, r, tmin, tmax);
                if cur is Some {
                    lemma_sphere_hit_some_props(last, r, tmin, tmax);
                }
            },
            Some(p) => {
                let cur = sphere_hit(last, r, tmin, p.t);
                match cur {
                    None => {
                        // any full-window hit of the last member lies beyond p.t
                        match sphere_hit(last, r, tmin, tmax) {
                            Some(other) => {
                                lemma_sphere_hit_some_props(last, r, tmin, tmax);
                                if other.t <= p.t {
                                    lemma_sphere_hit_narrow(last, r, tmin, p.t, tmax);
                                }
                            },
                            None => {},
                        }
                    },
                    Some(rec) => {
                        lemma_sphere_hit_some_props(last, r, tmin, p.t);
                        lemma_sphere_hit_widen(last, r, tmin, p.t, tmax);
                    },
                }
            },
        }
    }
}

/// The scan's parameter does not depend on the members' order: collections
/// holding the same spheres report hits at the same parameter, or none at
/// all.
pub proof fn lemma_list_hit_order_independent(
    s1: Seq<Sphere>,
    s2: Seq<Sphere>,
    r: RayS,
    tmin: int,
    tmax: int,
)
    requires
        s1.to_multiset() == s2.to_multiset(),
    ensures
        (list_hit(s1, r, tmin, tmax) is Some) == (list_hit(s2, r, tmin, tmax) is Some),
        match (list_hit(s1, r, tmin, tmax), list_hit(s2, r, tmin, tmax)) {
            (Some(a), Some(b)) => a.t == b.t,
            _ => true,
        },
{
    lemma_list_hit_characterization(s1, r, tmin, tmax);
    lemma_list_hit_characterization(s2, r, tmin, tmax);
    s1.to_multiset_ensures();
    s2.to_multiset_ensures();
    match (list_hit(s1, r, tmin, tmax), list_hit(s2, r, tmin, tmax)) {
        (Some(a), Some(b)) => {
            lemma_member_carries_over(s1, s2, r, tmin, tmax, a);
            lemma_member_carries_over(s2, s1, r, tmin, tmax, b);
        },
        (Some(a), None) => {
            lemma_member_carries_over(s1, s2, r, tmin, tmax, a);
        },
        (None, Some(b)) => {
            lemma_member_carries_over(s2, s1, r, tmin, tmax, b);
        },
        (None, None) => {},
    }
}

/// A member of one collection reporting a record is matched by a member of
/// the other collection reporting the same record.
proof fn lemma_member_carries_over(
    s1: Seq<Sphere>,
    s2: Seq<Sphere>,
    r: RayS,
    tmin: int,
    tmax: int,
    rec: HitRecordS,
)
    requires
        s1.to_multiset() == s2.to_multiset(),
        exists|i: int|
            0 <= i < s1.len() && #[trigger] sphere_hit(s1[i], r, tmin, tmax) == Some(rec),
    ensures
        exists|j: int|
            0 <= j < s2.len() && #[trigger] sphere_hit(s2[j], r, tmin, tmax) == Some(rec),
{
    let i = choose|i: int|
        0 <= i < s1.len() && #[trigger] sphere_hit(s1[i], r, tmin, tmax) == Some(rec);
    let x = s1[i];
    s1.to_multiset_ensures();
    s2.to_multiset_ensures();
    assert(s1.contains(x));
    assert(s2.to_multiset().count(x) > 0);
    assert(s2.contains(x));
    let j = choose|j: int| 0 <= j < s2.len() && s2[j] == x;
    assert(sphere_hit(s2[j], r, tmin, tmax) == Some(rec));
}

/// When exactly one sphere attains the nearest parameter, the reported
/// record itself does not depend on the members' order.
pub proof fn lemma_list_hit_record_order_independent(
    s1: Seq<Sphere>,
    s2: Seq<Sphere>,
    r: RayS,
    tmin: int,
    tmax: int,
)
    requires
        s1.to_multiset() == s2.to_multiset(),
        forall|x: Sphere, y: Sphere|
            s1.contains(x) && s1.contains(y) && #[trigger] sphere_hit_t(x, r, tmin, tmax)
                is Some && sphere_hit_t(x, r, tmin, tmax) == #[trigger] sphere_hit_t(
                y,
                r,
                tmin,
                tmax,
            ) ==> x == y,
    ensures
        list_hit(s1, r, tmin, tmax) == list_hit(s2, r, tmin, tmax),
{
    lemma_list_hit_order_independent(s1, s2, r, tmin, tmax);
    lemma_list_hit_characterization(s1, r, tmin, tmax);
    lemma_list_hit_characterization(s2, r, tmin, tmax);
    s1.to_multiset_ensures();
    s2.to_multiset_ensures();
    match (list_hit(s1, r, tmin, tmax), list_hit(s2, r, tmin, tmax)) {
        (Some(a), Some(b)) => {
            let i = choose|i: int|
                0 <= i < s1.len() && #[trigger] sphere_hit(s1[i], r, tmin, tmax) == Some(a);
            let j = choose|j: int|
                0 <= j < s2.len() && #[trigger] sphere_hit(s2[j], r, tmin, tmax) == Some(b);
            let x = s1[i];
            let y = s2[j];
            assert(s1.contains(x));
            assert(s2.contains(y));
            assert(s1.to_multiset().count(y) > 0);
            assert(s1.contains(y));
            assert(sphere_hit_t(x, r, tmin, tmax) == Some(a.t));
            assert(sphere_hit_t(y, r, tmin, tmax) == Some(b.t));
            assert(x == y);
        },
        _ => {},
    }
}

/// Dividing a guarded offset by the radius fits.
proof fn lemma_outward_fits(s: Sphere, diff: V3)
    requires
        sphere_wf(s),
        vbound(diff, 1_001_000_000_000int),
    ensures
        fits_i64(fdiv(diff.x, s.radius as int)),
        fits_i64(fdiv(diff.y, s.radius as int)),
        fits_i64(fdiv(diff.z, s.radius as int)),
{
    let rad = s.radius as int;
    let b = 1_001_000_000_000_000_000int;
    lemma_mul_le(diff.x, SCALE as int, 1_001_000_000_000int, SCALE as int);
    lemma_mul_le(diff.y, SCALE as int, 1_001_000_000_000int, SCALE as int);
    lemma_mul_le(diff.z, SCALE as int, 1_001_000_000_000int, SCALE as int);
    lemma_mul_mono(1, rad, b);
    lemma_tdiv_le(diff.x * (SCALE as int), rad, b);
    lemma_tdiv_le(diff.y * (SCALE as int), rad, b);
    lemma_tdiv_le(diff.z * (SCALE as int), rad, b);
}

} // verus!
