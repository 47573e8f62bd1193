//! The pinhole camera: a fixed rectangular viewport mapped to primary rays.

use crate::fixed::fmul;
use crate::fixed::lemma_mul_le;
use crate::fixed::lemma_tdiv_le;
use crate::fixed::mul_fixed;
use crate::fixed::SCALE;
use crate::hittable::ray_wf;
use crate::ray::Ray;
use crate::vec3::svadd;
use crate::vec3::svdiv;
use crate::vec3::svscale;
use crate::vec3::svsub;
use crate::vec3::svzero;
use crate::vec3::vbound;
use crate::vec3::Vec3;
use crate::vec3::V3;
use vstd::prelude::*;

verus! {

/// Largest magnitude of a camera field component.
pub const CAM_MAX: i64 = 100_000_000;

/// The default aspect ratio, sixteen ninths, truncated to micro-units.
pub const DEFAULT_ASPECT_RATIO: i64 = 1_777_777;

/// The default viewport height of two units.
pub const DEFAULT_VIEWPORT_HEIGHT: i64 = 2_000_000;

/// The default focal length of one unit.
pub const DEFAULT_FOCAL_LENGTH: i64 = 1_000_000;

/// The mathematical value of a camera.
pub struct CameraS {
    pub origin: V3,
    pub horizontal: V3,
    pub vertical: V3,
    pub lower_left_corner: V3,
}

/// The viewport, precomputed once per render.
#[derive(Clone, Copy, Debug, PartialEq, Eq, Structural)]
pub struct Camera {
    pub origin: Vec3,
    pub horizontal: Vec3,
    pub vertical: Vec3,
    pub lower_left_corner: Vec3,
}

impl View for Camera {
    type V = CameraS;

    open spec fn view(&self) -> CameraS {
        CameraS {
            origin: self.origin@,
            horizontal: self.horizontal@,
            vertical: self.vertical@,
            lower_left_corner: self.lower_left_corner@,
        }
    }
}

/// Every camera field is bounded.
pub open spec fn camera_wf(c: CameraS) -> bool {
    &&& vbound(c.origin, CAM_MAX as int)
    &&& vbound(c.horizontal, CAM_MAX as int)
    &&& vbound(c.vertical, CAM_MAX as int)
    &&& vbound(c.lower_left_corner, CAM_MAX as int)
}

/// The camera derived from the viewport parameters: width from the aspect
/// ratio, axes along x and y, the lower-left corner back from the origin by
/// half of each axis and the focal length.
pub open spec fn scam_make(aspect_ratio: int, viewport_height: int, focal_length: int) -> CameraS {
    let viewport_width = fmul(aspect_ratio, viewport_height);
    let horizontal = V3 { x: viewport_width, y: 0, z: 0 };
    let vertical = V3 { x: 0, y: viewport_height, z: 0 };
    let origin = svzero();
    CameraS {
        origin,
        horizontal,
        vertical,
        lower_left_corner: svsub(
            svsub(
                svsub(origin, svdiv(horizontal, 2 * (SCALE as int))),
                svdiv(vertical, 2 * (SCALE as int)),
            ),
            V3 { x: 0, y: 0, z: focal_length },
        ),
    }
}

/// The direction of the primary ray for viewport coordinates `u`, `v`.
pub open spec fn scam_dir(c: CameraS, u: int, v: int) -> V3 {
    svsub(
        svadd(svadd(c.lower_left_corner, svscale(c.horizontal, u)), svscale(c.vertical, v)),
        c.origin,
    )
}

impl Camera {
    /// Precomputes the viewport from its three parameters.
    pub fn new(aspect_ratio: i64, viewport_height: i64, focal_length: i64) -> (c: Camera)
        requires
            0 <= aspect_ratio <= 8 * SCALE,
            0 <= viewport_height <= 8 * SCALE,
            0 <= focal_length <= 8 * SCALE,
        ensures
            c@ == scam_make(aspect_ratio as int, viewport_height as int, focal_length as int),
            camera_wf(c@),
    {
        proof {
            lemma_mul_le(aspect_ratio as int, viewport_height as int, 8_000_000int, 8_000_000int);
            lemma_tdiv_le(
                (aspect_ratio as int) * (viewport_height as int),
                1000000,
                64_000_000int,
            );
            lemma_mul_le(
                fmul(aspect_ratio as int, viewport_height as int),
                SCALE as int,
                64_000_000int,
                SCALE as int,
            );
            lemma_tdiv_le(
                fmul(aspect_ratio as int, viewport_height as int) * (SCALE as int),
                2_000_000,
                32_000_000int,
            );
            lemma_mul_le(viewport_height as int, SCALE as int, 8_000_000int, SCALE as int);
            lemma_tdiv_le((viewport_height as int) * (SCALE as int), 2_000_000, 4_000_000int);
            vstd::arithmetic::div_mod::lemma_div_of0(2_000_000int);
        }
        let viewport_width = mul_fixed(aspect_ratio, viewport_height);
        let horizontal = Vec3 { x: viewport_width, y: 0, z: 0 };
        let vertical = Vec3 { x: 0, y: viewport_height, z: 0 };
        let origin = Vec3::zero();
        let two_units: i64 = 2 * SCALE;
        let lower_left_corner = origin.sub(horizontal.div_scalar(two_units)).sub(
            vertical.div_scalar(two_units),
        ).sub(Vec3 { x: 0, y: 0, z: focal_length });
        Camera { origin, horizontal, vertical, lower_left_corner }
    }

    /// The primary ray toward normalized image coordinates `u`, `v`; a unit
    /// of jitter above one is allowed for edge samples.
    pub fn get_ray(&self, u: i64, v: i64) -> (r: Ray)
        requires
            camera_wf(self@),
            0 <= u <= 2 * SCALE,
            0 <= v <= 2 * SCALE,
        ensures
            r@.origin == self@.origin,
            r@.direction == scam_dir(self@, u as int, v as int),
            ray_wf(r@),
    {
        proof {
            lemma_mul_le(self@.horizontal.x, u as int, CAM_MAX as int, 2_000_000int);
            lemma_mul_le(self@.horizontal.y, u as int, CAM_MAX as int, 2_000_000int);
            lemma_mul_le(self@.horizontal.z, u as int, CAM_MAX as int, 2_000_000int);
            lemma_tdiv_le(self@.horizontal.x * (u as int), 1000000, 200_000_000int);
            lemma_tdiv_le(self@.horizontal.y * (u as int), 1000000, 200_000_000int);
            lemma_tdiv_le(self@.horizontal.z * (u as int), 1000000, 200_000_000int);
            lemma_mul_le(self@.vertical.x, v as int, CAM_MAX as int, 2_000_000int);
            lemma_mul_le(self@.vertical.y, v as int, CAM_MAX as int, 2_000_000int);
            lemma_mul_le(self@.vertical.z, v as int, CAM_MAX as int, 2_000_000int);
            lemma_tdiv_le(self@.vertical.x * (v as int), 1000000, 200_000_000int);
            lemma_tdiv_le(self@.vertical.y * (v as int), 1000000, 200_000_000int);
            lemma_tdiv_le(self@.vertical.z * (v as int), 1000000, 200_000_000int);
        }
        let direction = self.lower_left_corner.add(self.horizontal.scale(u)).add(
            self.vertical.scale(v),
        ).sub(self.origin);
        Ray::new(self.origin, direction)
    }
}

impl Default for Camera {
    /// The reference viewport: sixteen-ninths aspect, height two, focal
    /// length one.
    fn default() -> (c: Camera)
        ensures
            c@ == scam_make(
                DEFAULT_ASPECT_RATIO as int,
                DEFAULT_VIEWPORT_HEIGHT as int,
                DEFAULT_FOCAL_LENGTH as int,
            ),
            camera_wf(c@),
    {
        Camera::new(DEFAULT_ASPECT_RATIO, DEFAULT_VIEWPORT_HEIGHT, DEFAULT_FOCAL_LENGTH)
    }
}

} // verus!
