//! The camera and renderer: viewport geometry, jittered per-pixel rays, the
//! recursive diffuse colour, and the render loop that fills the image
//! buffer in scanline order.

use vstd::prelude::*;

verus! {

use vstd::arithmetic::div_mod::{
    lemma_div_multiples_vanish, lemma_div_pos_is_pos, lemma_fundamental_div_mod,
    lemma_fundamental_div_mod_converse, lemma_mod_division_less_than_divisor,
    lemma_multiply_divide_le,
};
use crate::fixed::{
    fx_add, fx_mul, fx_sub, fx_tdiv, fxdiv, fxmul, iabs, in64, lemma_fxmul_bound,
    lemma_fxmul_scale_identity, lemma_tdiv_le, lemma_tdiv_mag, lemma_tdiv_monotone,
    lemma_tdiv_neg, tdiv, HALF, SCALE,
};
use crate::ray::{ray_in_bounds, HitRecord, Hittable, Interval, Ray, DIR_LIMIT};
use crate::rtweekend::{RandomSource, INFINITY};
use crate::vec3::{len_spec, lemma_fxmul_nonneg, unit_sample, Point3, Rgba8, Vec3};

/// Near bound of every scatter query (0.001): suppresses self-intersection
/// at a bounce's exit point.
pub const T_MIN_EPS: i64 = 65;

/// Sky gradient endpoint (0.5, 0.7, 1.0): red channel.
pub const SKY_R: i64 = 32768;

/// Sky gradient endpoint: green channel.
pub const SKY_G: i64 = 45875;

/// Sky gradient endpoint: blue channel.
pub const SKY_B: i64 = 65536;

/// Every colour `ray_color` returns lies in `[0, COLOR_LIMIT]` (1.0) per
/// channel.
pub const COLOR_LIMIT: i64 = 65536;

/// Owns the image geometry and drives the render: an outer loop over rows,
/// an inner loop over columns, and per pixel an accumulation of jittered
/// samples.
pub struct Camera {
    pub aspect_ratio: i64,
    pub img_width: i32,
    pub samples_per_pixel: i32,
    pub max_depth: i32,
    pub pixel_samples_scale: i64,
    pub img_height: i32,
    pub center: Point3,
    pub pixel00_loc: Point3,
    pub pixel_delta_u: Vec3,
    pub pixel_delta_v: Vec3,
}

/// Configuration the renderer accepts: a positive aspect ratio up to 16,
/// a width up to 4096, and a sample count up to 65536.
pub open spec fn config_wf(c: Camera) -> bool {
    &&& 1 <= c.aspect_ratio <= 16 * SCALE
    &&& 1 <= c.img_width <= 4096
    &&& 1 <= c.samples_per_pixel <= 65536
    &&& 0 <= c.max_depth
}

/// Image height: width over aspect ratio rounded to the nearest integer
/// (half up), and at least 1.
pub open spec fn derived_height(c: Camera) -> int {
    let t = tdiv(c.img_width as int * SCALE + tdiv(c.aspect_ratio as int, 2), c.aspect_ratio as int);
    if t < 1 {
        1
    } else {
        t
    }
}

/// The width-to-height ratio of the image, in fixed point.
pub open spec fn width_ratio(c: Camera) -> int {
    tdiv(c.img_width as int * SCALE, derived_height(c))
}

/// Viewport width: height 2.0 scaled by the image's width-to-height ratio.
pub open spec fn viewport_width(c: Camera) -> int {
    fxmul(2 * SCALE, width_ratio(c))
}

/// Per-pixel step along the viewport's rightward edge.
pub open spec fn delta_u(c: Camera) -> int {
    fxdiv(viewport_width(c), c.img_width as int * SCALE)
}

/// Per-pixel step along the viewport's downward edge (negative: image rows
/// grow downward while world y grows upward).
pub open spec fn delta_v(c: Camera) -> int {
    fxdiv(-2 * (SCALE as int), derived_height(c) * SCALE)
}

/// Centre of the top-left pixel: the viewport's upper-left corner offset by
/// half a pixel step in each axis.
pub open spec fn pixel00_x(c: Camera) -> int {
    -fxdiv(viewport_width(c), 2 * SCALE) + fxmul(delta_u(c), HALF as int)
}

pub open spec fn pixel00_y(c: Camera) -> int {
    SCALE + fxmul(delta_v(c), HALF as int)
}

pub open spec fn pixel00_z(c: Camera) -> int {
    -(SCALE as int)
}

/// The derived fields agree with the configuration.
pub open spec fn initialized(c: Camera) -> bool {
    &&& config_wf(c)
    &&& c.img_height as int == derived_height(c)
    &&& c.pixel_samples_scale as int == tdiv(SCALE as int, c.samples_per_pixel as int)
    &&& c.center == (Vec3 { x: 0i64, y: 0i64, z: 0i64 })
    &&& c.pixel_delta_u.x as int == delta_u(c)
    &&& c.pixel_delta_u.y == 0
    &&& c.pixel_delta_u.z == 0
    &&& c.pixel_delta_v.x == 0
    &&& c.pixel_delta_v.y as int == delta_v(c)
    &&& c.pixel_delta_v.z == 0
    &&& c.pixel00_loc.x as int == pixel00_x(c)
    &&& c.pixel00_loc.y as int == pixel00_y(c)
    &&& c.pixel00_loc.z as int == pixel00_z(c)
}

/// The blend factor of the sky gradient: half of the unit direction's y
/// plus one.
pub open spec fn sky_a(d: Vec3) -> int {
    fxmul(HALF as int, fxdiv(d.y as int, len_spec(d)) + SCALE)
}

/// One component of the sky gradient: white towards the horizon blended
/// into the sky colour `c` upward.
pub open spec fn sky_component(d: Vec3, c: int) -> int {
    fxmul(SCALE as int, SCALE - sky_a(d)) + fxmul(c, sky_a(d))
}

/// A jitter offset inside the unit pixel square.
pub open spec fn jitter_in_range(o: int) -> bool {
    -HALF <= o < HALF
}

/// The ray from the camera centre through the sample point of pixel
/// `(i, j)` jittered by `(ox, oy)`.
pub open spec fn pixel_ray(c: Camera, i: int, j: int, ox: int, oy: int) -> Ray {
    Ray {
        origin: c.center,
        direction: Vec3 {
            x: (pixel00_x(c) + fxmul(delta_u(c), i * SCALE + ox)) as i64,
            y: (pixel00_y(c) + fxmul(delta_v(c), j * SCALE + oy)) as i64,
            z: pixel00_z(c) as i64,
        },
    }
}

/// The scattered bounce ray: from the hit point, along the oriented normal
/// plus a drawn unit sample.
pub open spec fn bounce_ray(rec: HitRecord, u: Vec3) -> Ray {
    Ray {
        origin: rec.point,
        direction: Vec3 {
            x: (rec.normal.x + u.x) as i64,
            y: (rec.normal.y + u.y) as i64,
            z: (rec.normal.z + u.z) as i64,
        },
    }
}

/// Everything `ray_color` promises of a result.  With no depth left the
/// colour is black.  On a hit it is half of a colour the scattered bounce
/// ray can carry, for some drawn unit sample, with every channel in
/// `[0, 1]`.  On a miss it is the sky gradient, or black for the zero
/// direction, which cannot be normalised.
pub open spec fn ray_color_outcome<H: Hittable>(r: Ray, depth: int, world: H, c: Vec3) -> bool
    decreases depth,
{
    if depth <= 0 {
        c == (Vec3 { x: 0i64, y: 0i64, z: 0i64 })
    } else if world.hit_spec(r, T_MIN_EPS as int, INFINITY as int) is Some {
        &&& 0 <= c.x <= SCALE
        &&& 0 <= c.y <= SCALE
        &&& 0 <= c.z <= SCALE
        &&& exists|u: Vec3, b: Vec3|
            #![trigger unit_sample(u), fxmul(b.x as int, HALF as int)]
            unit_sample(u) && ray_color_outcome(
                bounce_ray(world.hit_spec(r, T_MIN_EPS as int, INFINITY as int).unwrap(), u),
                depth - 1,
                world,
                b,
            ) && c.x as int == fxmul(b.x as int, HALF as int) && c.y as int == fxmul(
                b.y as int,
                HALF as int,
            ) && c.z as int == fxmul(b.z as int, HALF as int)
    } else if r.direction == (Vec3 { x: 0i64, y: 0i64, z: 0i64 }) {
        c == (Vec3 { x: 0i64, y: 0i64, z: 0i64 })
    } else {
        &&& c.x as int == sky_component(r.direction, SKY_R as int)
        &&& c.y as int == sky_component(r.direction, SKY_G as int)
        &&& c.z as int == sky_component(r.direction, SKY_B as int)
    }
}

/// Introduction form of `ray_color_outcome`'s hit case.
proof fn lemma_outcome_hit<H: Hittable>(
    r: Ray,
    depth: int,
    world: H,
    rec: HitRecord,
    u: Vec3,
    b: Vec3,
    c: Vec3,
)
    requires
        depth > 0,
        world.hit_spec(r, T_MIN_EPS as int, INFINITY as int) == Some(rec),
        0 <= c.x <= SCALE,
        0 <= c.y <= SCALE,
        0 <= c.z <= SCALE,
        unit_sample(u),
        ray_color_outcome(bounce_ray(rec, u), depth - 1, world, b),
        c.x as int == fxmul(b.x as int, HALF as int),
        c.y as int == fxmul(b.y as int, HALF as int),
        c.z as int == fxmul(b.z as int, HALF as int),
    ensures
        ray_color_outcome(r, depth, world, c),
{
    let wrec = world.hit_spec(r, T_MIN_EPS as int, INFINITY as int).unwrap();
    assert(wrec == rec);
    assert(unit_sample(u) && ray_color_outcome(bounce_ray(wrec, u), depth - 1, world, b)
        && c.x as int == fxmul(b.x as int, HALF as int) && c.y as int == fxmul(
        b.y as int,
        HALF as int,
    ) && c.z as int == fxmul(b.z as int, HALF as int));
}

/// One drawn sample for pixel `(i, j)`: a colour the recursive trace can
/// return along some jittered ray through the pixel.
pub open spec fn sample_of_pixel<H: Hittable>(
    c: Camera,
    world: H,
    i: int,
    j: int,
    depth: int,
    col: Vec3,
) -> bool {
    exists|ox: int, oy: int|
        jitter_in_range(ox) && jitter_in_range(oy) && ray_color_outcome(
            #[trigger] pixel_ray(c, i, j, ox, oy),
            depth,
            world,
            col,
        )
}

/// Componentwise sum of a sample sequence: x channel.
pub open spec fn samples_sum_x(s: Seq<Vec3>) -> int
    decreases s.len(),
{
    if s.len() == 0 {
        0
    } else {
        samples_sum_x(s.drop_last()) + s.last().x
    }
}

/// Componentwise sum of a sample sequence: y channel.
pub open spec fn samples_sum_y(s: Seq<Vec3>) -> int
    decreases s.len(),
{
    if s.len() == 0 {
        0
    } else {
        samples_sum_y(s.drop_last()) + s.last().y
    }
}

/// Componentwise sum of a sample sequence: z channel.
pub open spec fn samples_sum_z(s: Seq<Vec3>) -> int
    decreases s.len(),
{
    if s.len() == 0 {
        0
    } else {
        samples_sum_z(s.drop_last()) + s.last().z
    }
}

/// The pixel stored at position `k` of the buffer: the quantised average
/// of `samples_per_pixel` drawn samples for the pixel in row `k / width`,
/// column `k % width`.
pub open spec fn pixel_of_samples<H: Hittable>(c: Camera, world: H, k: int, px: Rgba8) -> bool {
    exists|samples: Seq<Vec3>|
        {
            &&& #[trigger] samples.len() == c.samples_per_pixel
            &&& forall|t: int|
                0 <= t < samples.len() ==> sample_of_pixel(
                    c,
                    world,
                    k % (c.img_width as int),
                    k / (c.img_width as int),
                    c.max_depth as int,
                    #[trigger] samples[t],
                )
            &&& px.r as int == crate::vec3::channel_spec(
                fxmul(samples_sum_x(samples), c.pixel_samples_scale as int),
            )
            &&& px.g as int == crate::vec3::channel_spec(
                fxmul(samples_sum_y(samples), c.pixel_samples_scale as int),
            )
            &&& px.b as int == crate::vec3::channel_spec(
                fxmul(samples_sum_z(samples), c.pixel_samples_scale as int),
            )
            &&& px.a == 255
        }
}

impl Default for Camera {
    /// A square 100-pixel-wide camera, 10 samples per pixel, depth 10; the
    /// derived fields stay zeroed until `render` computes them.
    fn default() -> (c: Camera)
        ensures
            c.aspect_ratio == SCALE,
            c.img_width == 100,
            c.img_height == 1,
            c.samples_per_pixel == 10,
            c.pixel_samples_scale == 0,
            c.max_depth == 10,
            c.center == (Vec3 { x: 0i64, y: 0i64, z: 0i64 }),
            c.pixel00_loc == (Vec3 { x: 0i64, y: 0i64, z: 0i64 }),
            c.pixel_delta_u == (Vec3 { x: 0i64, y: 0i64, z: 0i64 }),
            c.pixel_delta_v == (Vec3 { x: 0i64, y: 0i64, z: 0i64 }),
    {
        Camera {
            aspect_ratio: SCALE,
            img_width: 100,
            img_height: 1,
            center: Vec3::zero(),
            pixel00_loc: Vec3::zero(),
            pixel_delta_u: Vec3::zero(),
            pixel_delta_v: Vec3::zero(),
            samples_per_pixel: 10,
            pixel_samples_scale: 0,
            max_depth: 10,
        }
    }
}

/// Coarse bounds on the derived viewport values, enough for the
/// initialisation arithmetic to stay representable.
proof fn lemma_viewport_coarse_bounds(c: Camera)
    requires
        config_wf(c),
    ensures
        1 <= derived_height(c) <= 0x1010_0000,
        0 <= width_ratio(c) <= 2 * c.aspect_ratio,
        0 <= viewport_width(c) <= 4 * c.aspect_ratio,
        viewport_width(c) == 2 * width_ratio(c),
        0 <= delta_u(c) <= viewport_width(c),
        delta_u(c) * (c.img_width as int) <= viewport_width(c),
        -2 * SCALE <= delta_v(c) <= 0,
        iabs(delta_v(c)) * derived_height(c) <= 2 * SCALE,
        iabs(pixel00_x(c)) <= 0x80_0000,
        iabs(pixel00_y(c)) <= 3 * SCALE,
        pixel00_z(c) == -(SCALE as int),
        0 <= tdiv(c.img_width as int * SCALE + tdiv(c.aspect_ratio as int, 2), c.aspect_ratio as int) <= 0x1010_0000,
{
    let ws = c.img_width as int * SCALE;
    let ar = c.aspect_ratio as int;
    let half_ar = tdiv(ar, 2);
    lemma_div_pos_is_pos(ar, 2);
    lemma_tdiv_mag(ar, 2);
    assert(0 <= half_ar <= ar);
    let num = ws + half_ar;
    let k0 = tdiv(num, ar);
    let ih = derived_height(c);
    lemma_div_pos_is_pos(num, ar);
    lemma_tdiv_mag(num, ar);
    assert(k0 <= num);
    let ratio = width_ratio(c);
    lemma_div_pos_is_pos(ws, ih);
    lemma_tdiv_mag(ws, ih);
    if k0 == 0 {
        lemma_fundamental_div_mod(num, ar);
        lemma_mod_division_less_than_divisor(num, ar);
        assert(ws < ar);
        assert(ih == 1);
        assert(ratio == tdiv(ws, 1));
        assert(ratio == ws / 1);
        assert(ratio <= 2 * ar);
    } else {
        assert(ih == k0);
        lemma_fundamental_div_mod(num, ar);
        lemma_mod_division_less_than_divisor(num, ar);
        assert(ws < ar * (k0 + 1)) by (nonlinear_arith)
            requires
                num == ar * k0 + num % ar,
                num % ar < ar,
                ws <= num,
        {}
        assert(ws <= k0 * (2 * ar)) by (nonlinear_arith)
            requires
                ws < ar * (k0 + 1),
                k0 >= 1,
                ar >= 1,
        {}
        lemma_multiply_divide_le(ws, k0, 2 * ar);
        assert(ratio == ws / k0);
    }
    // vw == 2 * ratio
    assert((2 * SCALE) * ratio == (SCALE as int) * (2 * ratio)) by (nonlinear_arith) {}
    lemma_div_multiples_vanish(2 * ratio, SCALE as int);
    assert(viewport_width(c) == tdiv((2 * SCALE) * ratio, SCALE as int));
    assert(tdiv((2 * SCALE) * ratio, SCALE as int) == ((SCALE as int) * (2 * ratio))
        / (SCALE as int));
    let vw = viewport_width(c);
    // delta_u
    let du = delta_u(c);
    assert(du == tdiv(vw * SCALE, ws));
    lemma_div_pos_is_pos(vw * SCALE, ws);
    lemma_fundamental_div_mod(vw * SCALE, ws);
    lemma_mod_division_less_than_divisor(vw * SCALE, ws);
    assert(du >= 0);
    assert(du * (c.img_width as int) <= vw && du <= vw) by (nonlinear_arith)
        requires
            vw * SCALE == ws * du + (vw * SCALE) % ws,
            0 <= (vw * SCALE) % ws,
            ws == c.img_width as int * SCALE,
            SCALE == 65536,
            1 <= c.img_width as int,
            du >= 0,
            vw >= 0,
    {}
    // delta_v
    let ihs = ih * SCALE;
    lemma_tdiv_neg(2 * (SCALE as int) * SCALE, ihs);
    assert(delta_v(c) == tdiv((-2 * (SCALE as int)) * SCALE, ihs));
    assert((-2 * (SCALE as int)) * SCALE == -(2 * (SCALE as int) * SCALE)) by (nonlinear_arith) {}
    let mv = tdiv(2 * (SCALE as int) * SCALE, ihs);
    lemma_div_pos_is_pos(2 * (SCALE as int) * SCALE, ihs);
    lemma_fundamental_div_mod(2 * (SCALE as int) * SCALE, ihs);
    lemma_mod_division_less_than_divisor(2 * (SCALE as int) * SCALE, ihs);
    assert(ihs >= 1);
    assert(mv * ih <= 2 * SCALE && mv <= 2 * SCALE) by (nonlinear_arith)
        requires
            2 * (SCALE as int) * SCALE == ihs * mv + (2 * (SCALE as int) * SCALE) % ihs,
            0 <= (2 * (SCALE as int) * SCALE) % ihs,
            ihs == ih * SCALE,
            SCALE == 65536,
            1 <= ih,
            mv >= 0,
    {}
    // pixel00
    lemma_tdiv_mag(vw * SCALE, 2 * (SCALE as int));
    lemma_tdiv_le(vw * SCALE, 2 * (SCALE as int), vw);
    lemma_fxmul_bound(du, HALF as int, vw, HALF as int);
    lemma_fxmul_bound(delta_v(c), HALF as int, 2 * (SCALE as int), HALF as int);
    assert(vw <= 4 * ar && ar <= 16 * SCALE);
}

impl Camera {
    /// Derives the image height, the sample scale and the viewport
    /// geometry from the configuration.
    fn initialize(&mut self)
        requires
            config_wf(*old(self)),
        ensures
            initialized(*final(self)),
            final(self).aspect_ratio == old(self).aspect_ratio,
            final(self).img_width == old(self).img_width,
            final(self).samples_per_pixel == old(self).samples_per_pixel,
            final(self).max_depth == old(self).max_depth,
    {
        proof {
            lemma_viewport_coarse_bounds(*old(self));
        }
        let w_fixed: i64 = (self.img_width as i64) * SCALE;
        let t = fx_tdiv(w_fixed + fx_tdiv(self.aspect_ratio, 2), self.aspect_ratio);
        self.img_height = if t < 1 {
            1
        } else {
            t as i32
        };
        self.pixel_samples_scale = fx_tdiv(SCALE, self.samples_per_pixel as i64);
        proof {
            lemma_tdiv_mag(SCALE as int, self.samples_per_pixel as int);
            lemma_viewport_coarse_bounds(*self);
            assert(derived_height(*self) == derived_height(*old(self)));
        }
        let ih_fixed: i64 = (self.img_height as i64) * SCALE;
        let ratio = fx_tdiv(w_fixed, self.img_height as i64);
        proof {
            lemma_tdiv_mag(w_fixed as int, self.img_height as int);
            lemma_fxmul_bound(2 * (SCALE as int), ratio as int, 2 * (SCALE as int), 0x1000_0000);
        }
        let viewport_width = fx_mul(2 * SCALE, ratio);
        self.center = Vec3::new(0, 0, 0);
        let viewport_u = Vec3::new(viewport_width, 0, 0);
        let viewport_v = Vec3::new(0, -(2 * SCALE), 0);
        proof {
            lemma_delta_fits(viewport_width as int, w_fixed as int);
            lemma_delta_fits(2 * (SCALE as int), ih_fixed as int);
            lemma_delta_fits(-2 * (SCALE as int), ih_fixed as int);
            lemma_delta_fits(viewport_width as int, 2 * (SCALE as int));
            lemma_delta_fits(0, w_fixed as int);
            lemma_delta_fits(0, ih_fixed as int);
            lemma_delta_fits(0, 2 * (SCALE as int));
            lemma_delta_fits(-(2 * (SCALE as int)), 2 * (SCALE as int));
        }
        self.pixel_delta_u = viewport_u.div(w_fixed);
        self.pixel_delta_v = viewport_v.div(ih_fixed);
        let viewport_upper_left = self
            .center
            .sub(Vec3::new(0, 0, SCALE))
            .sub(viewport_u.div(2 * SCALE))
            .sub(viewport_v.div(2 * SCALE));
        proof {
            lemma_fxmul_bound(self.pixel_delta_u.x as int, HALF as int, 0x2_0000_0000, HALF as int);
            lemma_fxmul_bound(self.pixel_delta_v.y as int, HALF as int, 0x2_0000_0000, HALF as int);
            lemma_fxmul_bound(0, HALF as int, 0, HALF as int);
            lemma_tdiv_mag(viewport_width as int * SCALE, 2 * (SCALE as int));
            lemma_tdiv_mag(viewport_width as int * SCALE, w_fixed as int);
            lemma_tdiv_mag(-2 * (SCALE as int) * SCALE, ih_fixed as int);
        }
        self.pixel00_loc = viewport_upper_left.add(
            self.pixel_delta_u.add(self.pixel_delta_v).mul(HALF),
        );
    }
}

/// A quotient `fxdiv(a, b)` with `iabs(a) <= 0x2_0000_0000` and `b >= SCALE`
/// stays within `0x2_0000_0000`.
proof fn lemma_delta_fits(a: int, b: int)
    requires
        iabs(a) <= 0x2_0000_0000,
        b >= SCALE,
    ensures
        iabs(fxdiv(a, b)) <= 0x2_0000_0000,
        in64(fxdiv(a, b)),
{
    assert(iabs(a * SCALE) <= 0x2_0000_0000 * iabs(b)) by (nonlinear_arith)
        requires
            iabs(a) <= 0x2_0000_0000,
            b >= SCALE,
            SCALE == 65536,
    {}
    lemma_tdiv_le(a * (SCALE as int), b, 0x2_0000_0000);
}

/// Fine bounds on a jittered pixel ray's direction: each component fits
/// well inside `DIR_LIMIT`.
proof fn lemma_get_ray_dir_bounds(c: Camera, i: int, j: int, ox: int, oy: int)
    requires
        initialized(c),
        0 <= i < c.img_width,
        0 <= j < derived_height(c),
        -HALF <= ox < HALF,
        -HALF <= oy < HALF,
    ensures
        iabs(fxmul(delta_u(c), i * SCALE + ox)) <= viewport_width(c),
        iabs(fxmul(delta_v(c), j * SCALE + oy)) <= 2 * SCALE,
        in64(fxmul(delta_u(c), i * SCALE + ox)),
        in64(fxmul(delta_v(c), j * SCALE + oy)),
        iabs(pixel00_x(c) + fxmul(delta_u(c), i * SCALE + ox)) <= DIR_LIMIT,
        iabs(pixel00_y(c) + fxmul(delta_v(c), j * SCALE + oy)) <= DIR_LIMIT,
        viewport_width(c) <= 0x40_0000,
{
    lemma_viewport_coarse_bounds(c);
    let du = delta_u(c);
    let vw = viewport_width(c);
    let w = c.img_width as int;
    let tu = i * SCALE + ox;
    assert(iabs(tu) <= w * SCALE) by (nonlinear_arith)
        requires
            tu == i * SCALE + ox,
            0 <= i < w,
            -HALF <= ox < HALF,
            HALF == 32768,
            SCALE == 65536,
            w >= 1,
    {}
    assert(iabs(du * tu) <= (du * w) * SCALE) by (nonlinear_arith)
        requires
            iabs(tu) <= w * SCALE,
            du >= 0,
            w >= 1,
            SCALE == 65536,
    {}
    lemma_tdiv_le(du * tu, SCALE as int, du * w);
    let dv = delta_v(c);
    let ih = derived_height(c);
    let tv = j * SCALE + oy;
    assert(iabs(tv) <= ih * SCALE) by (nonlinear_arith)
        requires
            tv == j * SCALE + oy,
            0 <= j < ih,
            -HALF <= oy < HALF,
            HALF == 32768,
            SCALE == 65536,
            ih >= 1,
    {}
    assert(iabs(dv * tv) <= (iabs(dv) * ih) * SCALE) by (nonlinear_arith)
        requires
            iabs(tv) <= ih * SCALE,
            ih >= 1,
            SCALE == 65536,
    {}
    lemma_tdiv_le(dv * tv, SCALE as int, iabs(dv) * ih);
}

impl Camera {
    /// A random offset in the unit square around a pixel centre:
    /// both components drawn from `[-0.5, 0.5)`.
    fn sample_square(rng: &mut RandomSource) -> (v: Vec3)
        ensures
            -HALF <= v.x < HALF,
            -HALF <= v.y < HALF,
            v.z == 0,
    {
        Vec3::new(
            fx_sub(rng.random_double(), HALF),
            fx_sub(rng.random_double(), HALF),
            0,
        )
    }

    /// A ray from the camera centre through a jittered sample point inside
    /// pixel `(i, j)`.
    fn get_ray(&self, i: i32, j: i32, rng: &mut RandomSource) -> (ray: Ray)
        requires
            initialized(*self),
            0 <= i < self.img_width,
            0 <= j,
            (j as int) < derived_height(*self),
        ensures
            ray.origin == self.center,
            ray_in_bounds(ray),
            exists|ox: int, oy: int|
                jitter_in_range(ox) && jitter_in_range(oy) && ray == #[trigger] pixel_ray(
                    *self,
                    i as int,
                    j as int,
                    ox,
                    oy,
                ),
    {
        let offset = Self::sample_square(rng);
        proof {
            lemma_get_ray_dir_bounds(*self, i as int, j as int, offset.x as int, offset.y as int);
        }
        let tu = fx_add((i as i64) * SCALE, offset.x);
        let tv = fx_add((j as i64) * SCALE, offset.y);
        let pixel_sample = self
            .pixel00_loc
            .add(self.pixel_delta_u.mul(tu))
            .add(self.pixel_delta_v.mul(tv));
        let ray_origin = self.center;
        let ray_direction = pixel_sample.sub(ray_origin);
        let ray = Ray::new(ray_origin, ray_direction);
        proof {
            assert(0 * (tu as int) == 0) by (nonlinear_arith) {}
            assert(0 * (tv as int) == 0) by (nonlinear_arith) {}
            assert(ray == pixel_ray(*self, i as int, j as int, offset.x as int, offset.y as int));
        }
        ray
    }
}

/// The sky blend factor for a unit direction lies in [0, 1].
proof fn lemma_sky_a_range(uy: int)
    requires
        iabs(uy) <= SCALE,
    ensures
        0 <= fxmul(HALF as int, uy + SCALE) <= SCALE,
{
    lemma_fxmul_nonneg(HALF as int, uy + SCALE);
    lemma_fxmul_bound(HALF as int, uy + SCALE, HALF as int, 2 * (SCALE as int));
}

/// A sky channel `(1 - a) + c * a` stays in [0, 1] for a blend factor and
/// a sky colour channel in [0, 1].
proof fn lemma_sky_channel_range(a: int, c: int)
    requires
        0 <= a <= SCALE,
        0 <= c <= SCALE,
    ensures
        0 <= SCALE - a + fxmul(c, a) <= SCALE,
{
    lemma_fxmul_nonneg(c, a);
    lemma_fxmul_scale_identity(a);
    assert(c * a <= (SCALE as int) * a) by (nonlinear_arith)
        requires
            0 <= a,
            c <= SCALE,
    {}
    lemma_tdiv_monotone(c * a, (SCALE as int) * a, SCALE as int);
}

impl Camera {
    /// The colour carried back along a ray.  With no depth left the ray is
    /// absorbed (black).  A hit scatters a diffuse bounce ray from the hit
    /// point around the oriented normal and keeps half of the bounced
    /// colour.  A miss returns the vertical white-to-sky gradient; a ray
    /// with the zero direction cannot be normalised and is absorbed.
    pub fn ray_color<H: Hittable>(
        r: &Ray,
        depth: i32,
        world: &H,
        rng: &mut RandomSource,
    ) -> (color: Vec3)
        requires
            world.wf(),
            ray_in_bounds(*r),
        ensures
            0 <= color.x <= COLOR_LIMIT,
            0 <= color.y <= COLOR_LIMIT,
            0 <= color.z <= COLOR_LIMIT,
            ray_color_outcome(*r, depth as int, *world, color),
            depth <= 0 ==> color == (Vec3 { x: 0i64, y: 0i64, z: 0i64 }),
            depth > 0 && world.hit_spec(*r, T_MIN_EPS as int, INFINITY as int) is None
                && r.direction == (Vec3 { x: 0i64, y: 0i64, z: 0i64 }) ==> color == (Vec3 {
                x: 0i64,
                y: 0i64,
                z: 0i64,
            }),
            depth > 0 && world.hit_spec(*r, T_MIN_EPS as int, INFINITY as int) is None
                && r.direction != (Vec3 { x: 0i64, y: 0i64, z: 0i64 }) ==> {
                &&& color.x as int == sky_component(r.direction, SKY_R as int)
                &&& color.y as int == sky_component(r.direction, SKY_G as int)
                &&& color.z as int == sky_component(r.direction, SKY_B as int)
            },
        decreases depth,
    {
        if depth <= 0 {
            return Vec3::zero();
        }
        let mut rec = HitRecord::default();
        if world.hit(r, Interval::new(T_MIN_EPS, INFINITY), &mut rec) {
            let bounce = Vec3::random_unit_vec(rng);
            let direction = rec.normal.add(bounce);
            let scattered = Ray::new(rec.point, direction);
            let bounced = Self::ray_color(&scattered, depth - 1, world, rng);
            proof {
                lemma_fxmul_bound(bounced.x as int, HALF as int, COLOR_LIMIT as int, HALF as int);
                lemma_fxmul_bound(bounced.y as int, HALF as int, COLOR_LIMIT as int, HALF as int);
                lemma_fxmul_bound(bounced.z as int, HALF as int, COLOR_LIMIT as int, HALF as int);
                lemma_fxmul_nonneg(bounced.x as int, HALF as int);
                lemma_fxmul_nonneg(bounced.y as int, HALF as int);
                lemma_fxmul_nonneg(bounced.z as int, HALF as int);
            }
            let color = bounced.mul(HALF);
            proof {
                let grec = world.hit_spec(*r, T_MIN_EPS as int, INFINITY as int).unwrap();
                assert(scattered == bounce_ray(grec, bounce));
                lemma_outcome_hit(*r, depth as int, *world, grec, bounce, bounced, color);
            }
            color
        } else {
            if r.direction.x == 0 && r.direction.y == 0 && r.direction.z == 0 {
                return Vec3::zero();
            }
            let unit_dir = r.direction.unit();
            let a = fx_mul(HALF, fx_add(unit_dir.y, SCALE));
            proof {
                lemma_fxmul_bound(HALF as int, unit_dir.y as int + SCALE, HALF as int, 2 * (
                SCALE as int));
                lemma_sky_a_range(unit_dir.y as int);
                assert(a as int == sky_a(r.direction));
                lemma_fxmul_scale_identity(SCALE - a as int);
                lemma_sky_channel_range(a as int, SKY_R as int);
                lemma_sky_channel_range(a as int, SKY_G as int);
                lemma_sky_channel_range(a as int, SKY_B as int);
            }
            Vec3::ones().mul(fx_sub(SCALE, a)).add(Vec3::new(SKY_R, SKY_G, SKY_B).mul(a))
        }
    }

    /// Renders the scene: for every row top to bottom, every column left to
    /// right, accumulates `samples_per_pixel` jittered samples through
    /// `ray_color`, averages, gamma-corrects and quantises.  The returned
    /// buffer holds one RGBA pixel per position, in scanline order.
    pub fn render<H: Hittable>(&mut self, world: &H, rng: &mut RandomSource) -> (pixels: Vec<Rgba8>)
        requires
            config_wf(*old(self)),
            world.wf(),
        ensures
            initialized(*final(self)),
            final(self).aspect_ratio == old(self).aspect_ratio,
            final(self).img_width == old(self).img_width,
            final(self).samples_per_pixel == old(self).samples_per_pixel,
            final(self).max_depth == old(self).max_depth,
            pixels.len() == derived_height(*final(self)) * old(self).img_width,
            forall|k: int| 0 <= k < pixels.len() ==> (#[trigger] pixels[k]).a == 255,
            forall|k: int|
                0 <= k < pixels.len() ==> pixel_of_samples(
                    *final(self),
                    *world,
                    k,
                    #[trigger] pixels[k],
                ),
    {
        self.initialize();
        let ghost cam = *self;
        let w = self.img_width;
        let h = self.img_height;
        let mut pixels: Vec<Rgba8> = Vec::new();
        let mut j: i32 = 0;
        while j < h
            invariant
                *self == cam,
                initialized(cam),
                world.wf(),
                w == cam.img_width,
                h == cam.img_height,
                0 <= j <= h,
                pixels.len() == j * w,
                forall|k: int| 0 <= k < pixels.len() ==> (#[trigger] pixels[k]).a == 255,
                forall|k: int|
                    0 <= k < pixels.len() ==> pixel_of_samples(cam, *world, k, #[trigger] pixels[k]),
            decreases h - j,
        {
            let mut i: i32 = 0;
            while i < w
                invariant
                    *self == cam,
                    initialized(cam),
                    world.wf(),
                    w == cam.img_width,
                    h == cam.img_height,
                    0 <= j < h,
                    0 <= i <= w,
                    pixels.len() == j * w + i,
                    forall|k: int| 0 <= k < pixels.len() ==> (#[trigger] pixels[k]).a == 255,
                    forall|k: int|
                        0 <= k < pixels.len() ==> pixel_of_samples(
                            cam,
                            *world,
                            k,
                            #[trigger] pixels[k],
                        ),
                decreases w - i,
            {
                let mut pixel_color = Vec3::zero();
                let ghost mut samples: Seq<Vec3> = Seq::<Vec3>::empty();
                let mut s: i32 = 0;
                while s < self.samples_per_pixel
                    invariant
                        *self == cam,
                        initialized(cam),
                        world.wf(),
                        0 <= j < cam.img_height,
                        0 <= i < cam.img_width,
                        0 <= s <= cam.samples_per_pixel,
                        0 <= pixel_color.x <= s * COLOR_LIMIT,
                        0 <= pixel_color.y <= s * COLOR_LIMIT,
                        0 <= pixel_color.z <= s * COLOR_LIMIT,
                        samples.len() == s,
                        pixel_color.x as int == samples_sum_x(samples),
                        pixel_color.y as int == samples_sum_y(samples),
                        pixel_color.z as int == samples_sum_z(samples),
                        forall|t: int|
                            0 <= t < samples.len() ==> sample_of_pixel(
                                cam,
                                *world,
                                i as int,
                                j as int,
                                cam.max_depth as int,
                                #[trigger] samples[t],
                            ),
                    decreases cam.samples_per_pixel - s,
                {
                    let r = self.get_ray(i, j, rng);
                    let sample = Self::ray_color(&r, self.max_depth, world, rng);
                    proof {
                        assert((s + 1) * COLOR_LIMIT <= 65536 * COLOR_LIMIT
                            && s * COLOR_LIMIT + COLOR_LIMIT == (s + 1) * COLOR_LIMIT)
                            by (nonlinear_arith)
                            requires
                                0 <= s < 65536,
                                COLOR_LIMIT == 65536,
                        {}
                        let (gox, goy) = choose|ox: int, oy: int|
                            jitter_in_range(ox) && jitter_in_range(oy) && r == pixel_ray(
                                cam,
                                i as int,
                                j as int,
                                ox,
                                oy,
                            );
                        assert(ray_color_outcome(
                            pixel_ray(cam, i as int, j as int, gox, goy),
                            cam.max_depth as int,
                            *world,
                            sample,
                        ));
                        assert(sample_of_pixel(
                            cam,
                            *world,
                            i as int,
                            j as int,
                            cam.max_depth as int,
                            sample,
                        ));
                    }
                    pixel_color.add_assign(sample);
                    proof {
                        let prev = samples;
                        samples = samples.push(sample);
                        assert(samples.drop_last() =~= prev);
                        assert(samples.last() == sample);
                        assert(samples_sum_x(samples) == samples_sum_x(prev) + sample.x);
                        assert(samples_sum_y(samples) == samples_sum_y(prev) + sample.y);
                        assert(samples_sum_z(samples) == samples_sum_z(prev) + sample.z);
                    }
                    s = s + 1;
                }
                proof {
                    lemma_tdiv_mag(SCALE as int, cam.samples_per_pixel as int);
                    lemma_div_pos_is_pos(SCALE as int, cam.samples_per_pixel as int);
                    assert(cam.samples_per_pixel * COLOR_LIMIT <= 65536 * COLOR_LIMIT)
                        by (nonlinear_arith)
                        requires
                            1 <= cam.samples_per_pixel <= 65536,
                            COLOR_LIMIT == 65536,
                    {}
                    lemma_fxmul_bound(
                        pixel_color.x as int,
                        cam.pixel_samples_scale as int,
                        65536 * (COLOR_LIMIT as int),
                        SCALE as int,
                    );
                    lemma_fxmul_bound(
                        pixel_color.y as int,
                        cam.pixel_samples_scale as int,
                        65536 * (COLOR_LIMIT as int),
                        SCALE as int,
                    );
                    lemma_fxmul_bound(
                        pixel_color.z as int,
                        cam.pixel_samples_scale as int,
                        65536 * (COLOR_LIMIT as int),
                        SCALE as int,
                    );
                }
                let avg = pixel_color.mul(self.pixel_samples_scale);
                let px = avg.rgba();
                proof {
                    let k = pixels.len() as int;
                    lemma_fundamental_div_mod_converse(k, cam.img_width as int, j as int, i as int);
                    assert(k % (cam.img_width as int) == i as int);
                    assert(k / (cam.img_width as int) == j as int);
                    assert(pixel_of_samples(cam, *world, k, px)) by {
                        assert(samples.len() == cam.samples_per_pixel);
                        assert(px.r as int == crate::vec3::channel_spec(
                            fxmul(samples_sum_x(samples), cam.pixel_samples_scale as int),
                        ));
                        assert(px.g as int == crate::vec3::channel_spec(
                            fxmul(samples_sum_y(samples), cam.pixel_samples_scale as int),
                        ));
                        assert(px.b as int == crate::vec3::channel_spec(
                            fxmul(samples_sum_z(samples), cam.pixel_samples_scale as int),
                        ));
                    }
                }
                pixels.push(px);
                i = i + 1;
            }
            proof {
                assert((j + 1) * w == j * w + w) by (nonlinear_arith) {}
            }
            j = j + 1;
        }
        proof {
            assert(pixels.len() == h * w);
        }
        pixels
    }
}

} // verus!
