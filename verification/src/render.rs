//! The path estimator and the render driver.
//!
//! `ray_color` follows the scatter chain down a depth budget, multiplying
//! attenuations, and falls back to the sky gradient when a ray escapes the
//! scene; `render` averages jittered samples per pixel and quantizes them.

use crate::camera::camera_wf;
use crate::camera::scam_dir;
use crate::camera::Camera;
use crate::camera::CameraS;
use crate::fixed::div_trunc;
use crate::fixed::fmul;
use crate::fixed::isqrt;
use crate::fixed::lemma_div_le;
use crate::fixed::lemma_mul_le;
use crate::fixed::lemma_tdiv_le;
use crate::fixed::sqrt_floor;
use crate::fixed::tdiv;
use crate::fixed::SCALE;
use crate::hittable::list_hit;
use crate::hittable::list_wf;
use crate::hittable::ray_wf;
use crate::hittable::HittableList;
use crate::hittable::Sphere;
use crate::hittable::T_MAX;
use crate::material::color_unit;
use crate::material::lemma_dir_ls_fits;
use crate::ray::Ray;
use crate::ray::RayS;
use crate::rng::sample_range;
use crate::vec3::nat_of;
use crate::vec3::sls;
use crate::vec3::snormalize;
use crate::vec3::svadd;
use crate::vec3::svscale;
use crate::vec3::svone;
use crate::vec3::svzero;
use crate::vec3::Vec3;
use crate::vec3::V3;
use vstd::prelude::*;

verus! {

/// Near edge of the estimator's search window: a thousandth of a unit, so a
/// bounced ray cannot re-strike its own starting surface.
pub const EPS_T: i64 = 1000;

/// The sky color at the top of the gradient.
pub open spec fn sky_blue() -> V3 {
    V3 { x: 500_000, y: 700_000, z: 1_000_000 }
}

/// The background radiance: white blended toward sky blue by the height of
/// the unit direction. The blend parameter is clamped into the unit
/// interval: geometric unit directions land inside it anyway, and the clamp
/// keeps the radiance of near-degenerate directions, whose fixed-point
/// normalization overshoots, inside the unit cube.
pub open spec fn sbackground(r: RayS) -> V3 {
    let u = snormalize(r.direction);
    let t0 = tdiv(u.y + SCALE as int, 2);
    let t = if t0 < 0 {
        0int
    } else if t0 > SCALE as int {
        SCALE as int
    } else {
        t0
    };
    svadd(svscale(svone(), SCALE as int - t), svscale(sky_blue(), t))
}

/// One channel of the blend stays within the blend parameter.
proof fn lemma_blend_channel(cb: int, t: int)
    requires
        0 <= cb <= SCALE as int,
        0 <= t <= SCALE as int,
    ensures
        0 <= fmul(cb, t) <= t,
{
    crate::fixed::lemma_mul_mono(cb, SCALE as int, t);
    assert((SCALE as int) * t == t * (SCALE as int)) by (nonlinear_arith);
    lemma_tdiv_le(cb * t, 1000000, t);
    assert(0 <= cb * t) by (nonlinear_arith)
        requires
            0 <= cb,
            0 <= t,
    ;
    assert(cb * t / 1000000 >= 0) by (nonlinear_arith)
        requires
            0 <= cb * t,
    ;
}

/// Attenuating a unit-interval channel by a unit-interval factor stays in
/// the unit interval.
proof fn lemma_attenuate_unit(a: int, c: int)
    requires
        0 <= a <= SCALE as int,
        0 <= c <= SCALE as int,
    ensures
        0 <= fmul(a, c) <= SCALE as int,
{
    lemma_mul_le(a, c, SCALE as int, SCALE as int);
    lemma_tdiv_le(a * c, 1000000, 1000000);
    assert(0 <= a * c) by (nonlinear_arith)
        requires
            0 <= a,
            0 <= c,
    ;
    assert(a * c / 1000000 >= 0) by (nonlinear_arith)
        requires
            0 <= a * c,
    ;
}

/// The background gradient of a ray with a non-degenerate direction.
fn background(ray: &Ray) -> (c: Vec3)
    requires
        ray_wf(ray@),
        1 <= sls(ray@.direction),
    ensures
        c@ == sbackground(ray@),
        color_unit(c@),
{
    proof {
        lemma_dir_ls_fits(ray@.direction);
    }
    let unit = ray.direction.normalized();
    let t0 = div_trunc(unit.y + SCALE, 2);
    let t = if t0 < 0 {
        0
    } else if t0 > SCALE {
        SCALE
    } else {
        t0
    };
    proof {
        crate::fixed::lemma_tdiv_exact(SCALE as int - t as int, SCALE as int);
        assert((SCALE as int) * (SCALE as int - t as int) == (SCALE as int - t as int) * (
        SCALE as int)) by (nonlinear_arith);
        lemma_blend_channel(sky_blue().x, t as int);
        lemma_blend_channel(sky_blue().y, t as int);
        lemma_blend_channel(sky_blue().z, t as int);
    }
    let white = Vec3::one().scale(SCALE - t);
    let blue = Vec3 { x: 500_000, y: 700_000, z: 1_000_000 }.scale(t);
    white.add(blue)
}

/// The recursive Monte-Carlo estimator. With no depth left, black. A ray
/// whose direction's squared length truncates to zero cannot be intersected
/// or normalized and is also treated as extinguished. Otherwise: the nearest
/// hit's material scatters and the estimator recurses, an absorbed ray turns
/// black, and an escaping ray takes the background gradient.
pub fn ray_color(ray: &Ray, world: &HittableList, depth: u32, rng: &mut rand::rngs::StdRng) -> (c:
    Vec3)
    requires
        ray_wf(ray@),
        list_wf(world@),
    ensures
        depth == 0 ==> c@ == svzero(),
        depth > 0 && sls(ray@.direction) == 0 ==> c@ == svzero(),
        depth > 0 && 1 <= sls(ray@.direction) && list_hit(
            world@,
            ray@,
            EPS_T as int,
            T_MAX as int,
        ) is None ==> c@ == sbackground(ray@),
        color_unit(c@),
    decreases depth,
{
    if depth == 0 {
        return Vec3::zero();
    }
    proof {
        lemma_dir_ls_fits(ray@.direction);
    }
    let dls = ray.direction.length_squared();
    if dls < 1 {
        return Vec3::zero();
    }
    match world.hit(ray, EPS_T, T_MAX) {
        Some(rec) => {
            match rec.material.scatter(ray, &rec, rng) {
                Some(s) => {
                    let child = ray_color(&s.scattered, world, depth - 1, rng);
                    proof {
                        let alb = s.attenuation@;
                        lemma_attenuate_unit(alb.x, child@.x);
                        lemma_attenuate_unit(alb.y, child@.y);
                        lemma_attenuate_unit(alb.z, child@.z);
                    }
                    s.attenuation.mul(child)
                },
                None => Vec3::zero(),
            }
        },
        None => background(ray),
    }
}

/// One color channel averaged over the samples, gamma-corrected by a square
/// root, clamped just under one, and quantized to a byte.
pub open spec fn squantize(c: int, spp: int) -> int {
    let avg = tdiv(c, spp);
    let g = sqrt_floor(nat_of(avg * (SCALE as int))) as int;
    let clamped = if g > 999_000 {
        999_000int
    } else {
        g
    };
    tdiv(256 * clamped, SCALE as int)
}

/// The jittered primary ray for pixel column `i`, row `j`: the jitters land
/// in `[0, SCALE)` and are folded into the normalized viewport coordinates.
pub open spec fn pixel_ray(
    cam: CameraS,
    i: int,
    j: int,
    width: int,
    height: int,
    ju: int,
    jv: int,
) -> RayS {
    RayS {
        origin: cam.origin,
        direction: scam_dir(
            cam,
            tdiv(i * (SCALE as int) + ju, width - 1),
            tdiv(j * (SCALE as int) + jv, height - 1),
        ),
    }
}

/// What one estimator sample for pixel `(i, j)` can be under jitters `ju`,
/// `jv`: a color of the unit cube, and exactly the background whenever the
/// depth budget is positive and the jittered ray is non-degenerate and
/// escapes the whole scene.
pub open spec fn sample_ok(
    items: Seq<Sphere>,
    cam: CameraS,
    i: int,
    j: int,
    width: int,
    height: int,
    depth: int,
    ju: int,
    jv: int,
    c: V3,
) -> bool {
    &&& 0 <= ju < SCALE as int
    &&& 0 <= jv < SCALE as int
    &&& color_unit(c)
    &&& (depth > 0 && 1 <= sls(pixel_ray(cam, i, j, width, height, ju, jv).direction)
        && list_hit(
        items,
        pixel_ray(cam, i, j, width, height, ju, jv),
        EPS_T as int,
        T_MAX as int,
    ) is None ==> c == sbackground(pixel_ray(cam, i, j, width, height, ju, jv)))
}

/// A color some draw of the generator admits for pixel `(i, j)`.
pub open spec fn admissible_sample(
    items: Seq<Sphere>,
    cam: CameraS,
    i: int,
    j: int,
    width: int,
    height: int,
    depth: int,
    c: V3,
) -> bool {
    exists|ju: int, jv: int|
        #[trigger] sample_ok(items, cam, i, j, width, height, depth, ju, jv, c)
}

/// Whether `acc` is a sum of `n` admissible samples for pixel `(i, j)`.
pub open spec fn sample_sum(
    items: Seq<Sphere>,
    cam: CameraS,
    i: int,
    j: int,
    width: int,
    height: int,
    depth: int,
    n: nat,
    acc: V3,
) -> bool
    decreases n,
{
    if n == 0 {
        acc == svzero()
    } else {
        exists|prev: V3, c: V3|
            #![trigger svadd(prev, c)]
            {
                &&& sample_sum(items, cam, i, j, width, height, depth, (n - 1) as nat, prev)
                &&& admissible_sample(items, cam, i, j, width, height, depth, c)
                &&& acc == svadd(prev, c)
            }
    }
}

/// Whether a pixel's bytes are the channel-wise quantization of an
/// accumulated color.
pub open spec fn px_matches(acc: V3, spp: int, px: (u8, u8, u8)) -> bool {
    &&& px.0 as int == squantize(acc.x, spp)
    &&& px.1 as int == squantize(acc.y, spp)
    &&& px.2 as int == squantize(acc.z, spp)
}

/// What a finished pixel must carry: the quantization of some sum of the
/// right number of admissible samples for its own coordinates. Pixels are
/// stored row-major, top row first.
pub open spec fn pixel_ok(
    items: Seq<Sphere>,
    cam: CameraS,
    width: int,
    height: int,
    spp: int,
    depth: int,
    k: int,
    px: (u8, u8, u8),
) -> bool {
    exists|acc: V3|
        #![trigger px_matches(acc, spp, px)]
        {
            &&& sample_sum(
                items,
                cam,
                k % width,
                height - 1 - k / width,
                width,
                height,
                depth,
                spp as nat,
                acc,
            )
            &&& px_matches(acc, spp, px)
        }
}

/// One channel of `format_color`.
fn quantize_channel(c: i64, spp: i64) -> (q: u8)
    requires
        1 <= spp,
        i64::MIN < c,
    ensures
        q as int == squantize(c as int, spp as int),
        q <= 255,
{
    let avg = div_trunc(c, spp);
    let g: u64 = if avg <= 0 {
        proof {
            assert(sqrt_floor(0nat) == 0);
        }
        0
    } else {
        proof {
            assert(0 <= (avg as int) * (SCALE as int) <= 0x8000_0000_0000_0000_0000_0000int)
                by (nonlinear_arith)
                requires
                    0 <= avg as int <= 0x7fff_ffff_ffff_ffffint,
            ;
        }
        isqrt((avg as u128) * (SCALE as u128))
    };
    let clamped: u64 = if g > 999_000 {
        999_000
    } else {
        g
    };
    proof {
        lemma_div_le(256 * (clamped as int), SCALE as int, 255);
    }
    ((256 * clamped) / 1_000_000) as u8
}

impl Vec3 {
    /// The pixel bytes of an accumulated color: each channel averaged over
    /// the samples, gamma-corrected, clamped and quantized.
    pub fn format_color(&self, samples_per_pixel: u32) -> (rgb: (u8, u8, u8))
        requires
            1 <= samples_per_pixel,
            i64::MIN < self@.x,
            i64::MIN < self@.y,
            i64::MIN < self@.z,
        ensures
            rgb.0 as int == squantize(self@.x, samples_per_pixel as int),
            rgb.1 as int == squantize(self@.y, samples_per_pixel as int),
            rgb.2 as int == squantize(self@.z, samples_per_pixel as int),
    {
        let spp = samples_per_pixel as i64;
        (quantize_channel(self.x, spp), quantize_channel(self.y, spp), quantize_channel(
            self.z,
            spp,
        ))
    }
}

/// Renders the scene: rows top to bottom, pixels left to right, each the
/// quantized average of jittered samples. Which draws the generator hands
/// out is chance; that every pixel is the quantization of a sum of that
/// many admissible samples for its own coordinates is not, and is ensured.
pub fn render(
    world: &HittableList,
    camera: &Camera,
    image_width: u32,
    image_height: u32,
    samples_per_pixel: u32,
    max_depth: u32,
    rng: &mut rand::rngs::StdRng,
) -> (pixels: Vec<(u8, u8, u8)>)
    requires
        list_wf(world@),
        camera_wf(camera@),
        2 <= image_width <= 10000,
        2 <= image_height <= 10000,
        1 <= samples_per_pixel <= 10000,
    ensures
        pixels@.len() == (image_width as int) * (image_height as int),
        forall|k: int|
            0 <= k < pixels@.len() ==> pixel_ok(
                world@,
                camera@,
                image_width as int,
                image_height as int,
                samples_per_pixel as int,
                max_depth as int,
                k,
                #[trigger] pixels@[k],
            ),
{
    let mut pixels: Vec<(u8, u8, u8)> = Vec::new();
    let mut j: u32 = image_height;
    proof {
        assert((image_height as int - image_height as int) * (image_width as int) == 0)
            by (nonlinear_arith);
    }
    while j > 0
        invariant
            list_wf(world@),
            camera_wf(camera@),
            2 <= image_width <= 10000,
            2 <= image_height <= 10000,
            1 <= samples_per_pixel <= 10000,
            j <= image_height,
            pixels@.len() == (image_height as int - j as int) * (image_width as int),
            forall|k: int|
                0 <= k < pixels@.len() ==> pixel_ok(
                    world@,
                    camera@,
                    image_width as int,
                    image_height as int,
                    samples_per_pixel as int,
                    max_depth as int,
                    k,
                    #[trigger] pixels@[k],
                ),
        decreases j,
    {
        j = j - 1;
        let mut i: u32 = 0;
        while i < image_width
            invariant
                list_wf(world@),
                camera_wf(camera@),
                2 <= image_width <= 10000,
                2 <= image_height <= 10000,
                1 <= samples_per_pixel <= 10000,
                j < image_height,
                i <= image_width,
                pixels@.len() == (image_height as int - j as int - 1) * (image_width as int)
                    + i as int,
                forall|k: int|
                    0 <= k < pixels@.len() ==> pixel_ok(
                        world@,
                        camera@,
                        image_width as int,
                        image_height as int,
                        samples_per_pixel as int,
                        max_depth as int,
                        k,
                        #[trigger] pixels@[k],
                    ),
            decreases image_width - i,
        {
            let mut acc = Vec3::zero();
            let mut s: u32 = 0;
            proof {
                assert(sample_sum(
                    world@,
                    camera@,
                    i as int,
                    j as int,
                    image_width as int,
                    image_height as int,
                    max_depth as int,
                    0nat,
                    acc@,
                ));
            }
            while s < samples_per_pixel
                invariant
                    list_wf(world@),
                    camera_wf(camera@),
                    2 <= image_width <= 10000,
                    2 <= image_height <= 10000,
                    1 <= samples_per_pixel <= 10000,
                    j < image_height,
                    i < image_width,
                    s <= samples_per_pixel,
                    0 <= acc@.x <= (s as int) * (SCALE as int),
                    0 <= acc@.y <= (s as int) * (SCALE as int),
                    0 <= acc@.z <= (s as int) * (SCALE as int),
                    sample_sum(
                        world@,
                        camera@,
                        i as int,
                        j as int,
                        image_width as int,
                        image_height as int,
                        max_depth as int,
                        s as nat,
                        acc@,
                    ),
                decreases samples_per_pixel - s,
            {
                let ju = sample_range(rng, 0, SCALE);
                let jv = sample_range(rng, 0, SCALE);
                let u = div_trunc((i as i64) * SCALE + ju, (image_width - 1) as i64);
                let v = div_trunc((j as i64) * SCALE + jv, (image_height - 1) as i64);
                proof {
                    lemma_div_le(
                        (i as int) * (SCALE as int) + ju as int,
                        image_width as int - 1,
                        2_000_000,
                    );
                    lemma_div_le(
                        (j as int) * (SCALE as int) + jv as int,
                        image_height as int - 1,
                        2_000_000,
                    );
                }
                let r = camera.get_ray(u, v);
                let sample = ray_color(&r, world, max_depth, rng);
                proof {
                    assert(r@ == pixel_ray(
                        camera@,
                        i as int,
                        j as int,
                        image_width as int,
                        image_height as int,
                        ju as int,
                        jv as int,
                    ));
                    assert(sample_ok(
                        world@,
                        camera@,
                        i as int,
                        j as int,
                        image_width as int,
                        image_height as int,
                        max_depth as int,
                        ju as int,
                        jv as int,
                        sample@,
                    ));
                    assert(admissible_sample(
                        world@,
                        camera@,
                        i as int,
                        j as int,
                        image_width as int,
                        image_height as int,
                        max_depth as int,
                        sample@,
                    ));
                    assert((s as int) * (SCALE as int) + (SCALE as int) == (s as int + 1) * (
                    SCALE as int)) by (nonlinear_arith);
                    assert((s as int) * (SCALE as int) <= 10000 * (SCALE as int))
                        by (nonlinear_arith)
                        requires
                            0 <= s as int <= 10000,
                    ;
                }
                let ghost prev_acc = acc@;
                acc = acc.add(sample);
                proof {
                    let n1: nat = (s + 1) as nat;
                    assert(sample_sum(
                        world@,
                        camera@,
                        i as int,
                        j as int,
                        image_width as int,
                        image_height as int,
                        max_depth as int,
                        (n1 - 1) as nat,
                        prev_acc,
                    ));
                    assert(acc@ == svadd(prev_acc, sample@));
                    assert(sample_sum(
                        world@,
                        camera@,
                        i as int,
                        j as int,
                        image_width as int,
                        image_height as int,
                        max_depth as int,
                        n1,
                        acc@,
                    ));
                }
                s = s + 1;
            }
            let px = acc.format_color(samples_per_pixel);
            proof {
                let wi = image_width as int;
                let hgt = image_height as int;
                let k = pixels@.len() as int;
                assert(k == (hgt - 1 - j as int) * wi + i as int);
                vstd::arithmetic::div_mod::lemma_fundamental_div_mod_converse(
                    k,
                    wi,
                    hgt - 1 - j as int,
                    i as int,
                );
                assert(k % wi == i as int && hgt - 1 - k / wi == j as int);
                assert(sample_sum(
                    world@,
                    camera@,
                    k % wi,
                    hgt - 1 - k / wi,
                    wi,
                    hgt,
                    max_depth as int,
                    (samples_per_pixel as int) as nat,
                    acc@,
                ));
                assert(px_matches(acc@, samples_per_pixel as int, px));
                assert(pixel_ok(
                    world@,
                    camera@,
                    wi,
                    hgt,
                    samples_per_pixel as int,
                    max_depth as int,
                    k,
                    px,
                ));
            }
            let ghost pre_pixels = pixels@;
            pixels.push(px);
            proof {
                assert forall|k2: int|
                    0 <= k2 < pixels@.len() implies pixel_ok(
                    world@,
                    camera@,
                    image_width as int,
                    image_height as int,
                    samples_per_pixel as int,
                    max_depth as int,
                    k2,
                    #[trigger] pixels@[k2],
                ) by {
                    if k2 < pre_pixels.len() {
                        assert(pixels@[k2] == pre_pixels[k2]);
                    } else {
                        assert(pixels@[k2] == px);
                    }
                }
            }
            i = i + 1;
        }
        proof {
            assert((image_height as int - j as int - 1) * (image_width as int) + (
            image_width as int) == (image_height as int - j as int) * (image_width as int))
                by (nonlinear_arith);
        }
    }
    proof {
        assert((image_height as int - 0) * (image_width as int) == (image_width as int) * (
        image_height as int)) by (nonlinear_arith);
    }
    pixels
}

} // verus!
