//! Three-component fixed-point vectors, used both as points and directions.

use vstd::prelude::*;

verus! {

use vstd::arithmetic::div_mod::lemma_div_pos_is_pos;
use crate::fixed::{
    fx_add, fx_div, fx_mul, fx_sqrt, fx_sub, fxdiv, fxmul, fxsqrt, iabs,
    lemma_isqrt_at_least, lemma_tdiv_le, SCALE,
};
use crate::rtweekend::RandomSource;
use crate::fixed::tdiv;
use vstd::arithmetic::div_mod::lemma_div_is_ordered;

#[derive(Clone, Copy, Debug, PartialEq, Eq, Structural)]
pub struct Vec3 {
    pub x: i64,
    pub y: i64,
    pub z: i64,
}

pub type Point3 = Vec3;

/// An 8-bit RGBA colour, one byte per channel.
#[derive(Clone, Copy, Debug, PartialEq, Eq, Structural)]
pub struct Rgba8 {
    pub r: u8,
    pub g: u8,
    pub b: u8,
    pub a: u8,
}

/// Gamma raw ceiling: 0.999 in fixed point, the top of the clamp window.
pub const INTENSITY_MAX: i64 = 65470;

/// 255.99 in fixed point, the 8-bit quantisation factor.
pub const QUANT_SCALE: i64 = 16776560;

/// Gamma correction: the square root of a positive linear value.
pub open spec fn gamma_spec(x: int) -> int {
    if x > 0 {
        fxsqrt(x)
    } else {
        0
    }
}

/// One colour channel: gamma-correct, clamp into `[0, 0.999]`, scale by
/// 255.99 and keep the integer part.
pub open spec fn channel_spec(x: int) -> int {
    let clamped = crate::ray::clamp_spec(
        crate::ray::Interval { min: 0i64, max: INTENSITY_MAX },
        gamma_spec(x),
    );
    tdiv(fxmul(clamped, QUANT_SCALE as int), SCALE as int)
}

/// Fixed-point dot product, as an unbounded integer.
pub open spec fn dot_spec(a: Vec3, b: Vec3) -> int {
    fxmul(a.x as int, b.x as int) + fxmul(a.y as int, b.y as int) + fxmul(a.z as int, b.z as int)
}

/// Fixed-point squared length, as an unbounded integer.
pub open spec fn sqlen_spec(v: Vec3) -> int {
    dot_spec(v, v)
}

/// Fixed-point length: the square root of the sum of the raw component
/// squares.  The squares are not pre-truncated, so the length dominates
/// every component's magnitude and normalisation never overshoots.
pub open spec fn len_spec(v: Vec3) -> int {
    crate::fixed::isqrt((v.x * v.x + v.y * v.y + v.z * v.z) as nat) as int
}

/// The three squared-component terms and their sum are representable.
pub open spec fn sq_ok(v: Vec3) -> bool {
    &&& fxmul(v.x as int, v.x as int) <= i64::MAX
    &&& fxmul(v.y as int, v.y as int) <= i64::MAX
    &&& fxmul(v.z as int, v.z as int) <= i64::MAX
    &&& sqlen_spec(v) <= i64::MAX
}

/// An accepted rejection sample: a cube draw whose squared length lies in
/// `(1/16, 1]`.
pub open spec fn accepted_cube_sample(p: Vec3) -> bool {
    &&& -SCALE <= p.x < SCALE
    &&& -SCALE <= p.y < SCALE
    &&& -SCALE <= p.z < SCALE
    &&& 4096 < sqlen_spec(p) <= SCALE
}

/// What `random_unit_vec` returns: an accepted cube sample divided by its
/// fixed-point length, or the y axis after every draw missed.
pub open spec fn unit_sample(v: Vec3) -> bool {
    ||| v == (Vec3 { x: 0i64, y: SCALE, z: 0i64 })
    ||| exists|p: Vec3|
        #[trigger] accepted_cube_sample(p) && v.x as int == fxdiv(p.x as int, len_spec(p))
            && v.y as int == fxdiv(p.y as int, len_spec(p)) && v.z as int == fxdiv(
            p.z as int,
            len_spec(p),
        )
}

/// The length dominates each component's magnitude, and is at least 1 for
/// a non-zero vector.
pub proof fn lemma_len_dominates(v: Vec3)
    ensures
        len_spec(v) >= iabs(v.x as int),
        len_spec(v) >= iabs(v.y as int),
        len_spec(v) >= iabs(v.z as int),
        len_spec(v) >= 0,
        !(v.x == 0 && v.y == 0 && v.z == 0) ==> len_spec(v) >= 1,
{
    let n = v.x * v.x + v.y * v.y + v.z * v.z;
    assert(iabs(v.x as int) * iabs(v.x as int) <= n && iabs(v.y as int) * iabs(v.y as int) <= n
        && iabs(v.z as int) * iabs(v.z as int) <= n) by (nonlinear_arith)
        requires
            n == v.x * v.x + v.y * v.y + v.z * v.z,
    {}
    lemma_isqrt_at_least(n as nat, iabs(v.x as int) as nat);
    lemma_isqrt_at_least(n as nat, iabs(v.y as int) as nat);
    lemma_isqrt_at_least(n as nat, iabs(v.z as int) as nat);
    if !(v.x == 0 && v.y == 0 && v.z == 0) {
        assert(n >= 1) by (nonlinear_arith)
            requires
                n == v.x * v.x + v.y * v.y + v.z * v.z,
                v.x != 0 || v.y != 0 || v.z != 0,
        {}
        lemma_isqrt_at_least(n as nat, 1nat);
    }
}

/// A square rescaled by truncated division is never negative.
pub proof fn lemma_fxmul_square_nonneg(a: int)
    ensures
        fxmul(a, a) >= 0,
{
    assert(a * a >= 0) by (nonlinear_arith) {}
    if a * a > 0 {
        lemma_div_pos_is_pos(a * a, SCALE as int);
    }
}

/// Dot products of a vector with itself are never negative.
pub proof fn lemma_sqlen_nonneg(v: Vec3)
    ensures
        sqlen_spec(v) >= 0,
        fxmul(v.x as int, v.x as int) >= 0,
        fxmul(v.y as int, v.y as int) >= 0,
        fxmul(v.z as int, v.z as int) >= 0,
{
    lemma_fxmul_square_nonneg(v.x as int);
    lemma_fxmul_square_nonneg(v.y as int);
    lemma_fxmul_square_nonneg(v.z as int);
}

impl Vec3 {
    pub fn new(x: i64, y: i64, z: i64) -> (v: Vec3)
        ensures
            v == (Vec3 { x, y, z }),
    {
        Vec3 { x, y, z }
    }

    /// The vector with every component at the largest representable scalar.
    pub fn vec_max() -> (v: Vec3)
        ensures
            v.x == i64::MAX && v.y == i64::MAX && v.z == i64::MAX,
    {
        Vec3 { x: i64::MAX, y: i64::MAX, z: i64::MAX }
    }

    /// The vector with every component at the smallest representable scalar.
    pub fn vec_min() -> (v: Vec3)
        ensures
            v.x == i64::MIN && v.y == i64::MIN && v.z == i64::MIN,
    {
        Vec3 { x: i64::MIN, y: i64::MIN, z: i64::MIN }
    }

    pub fn zero() -> (v: Vec3)
        ensures
            v == (Vec3 { x: 0i64, y: 0i64, z: 0i64 }),
    {
        Vec3 { x: 0, y: 0, z: 0 }
    }

    pub fn ones() -> (v: Vec3)
        ensures
            v == (Vec3 { x: SCALE, y: SCALE, z: SCALE }),
    {
        Vec3 { x: SCALE, y: SCALE, z: SCALE }
    }

    /// Component-wise sum.
    pub fn add(self, rhs: Vec3) -> (v: Vec3)
        requires
            i64::MIN <= self.x + rhs.x <= i64::MAX,
            i64::MIN <= self.y + rhs.y <= i64::MAX,
            i64::MIN <= self.z + rhs.z <= i64::MAX,
        ensures
            v.x == self.x + rhs.x,
            v.y == self.y + rhs.y,
            v.z == self.z + rhs.z,
    {
        Vec3 { x: fx_add(self.x, rhs.x), y: fx_add(self.y, rhs.y), z: fx_add(self.z, rhs.z) }
    }

    /// Adds `rhs` onto `self` in place.
    pub fn add_assign(&mut self, rhs: Vec3)
        requires
            i64::MIN <= old(self).x + rhs.x <= i64::MAX,
            i64::MIN <= old(self).y + rhs.y <= i64::MAX,
            i64::MIN <= old(self).z + rhs.z <= i64::MAX,
        ensures
            final(self).x == old(self).x + rhs.x,
            final(self).y == old(self).y + rhs.y,
            final(self).z == old(self).z + rhs.z,
    {
        *self = self.add(rhs);
    }

    /// Component-wise difference.
    pub fn sub(self, rhs: Vec3) -> (v: Vec3)
        requires
            i64::MIN <= self.x - rhs.x <= i64::MAX,
            i64::MIN <= self.y - rhs.y <= i64::MAX,
            i64::MIN <= self.z - rhs.z <= i64::MAX,
        ensures
            v.x == self.x - rhs.x,
            v.y == self.y - rhs.y,
            v.z == self.z - rhs.z,
    {
        Vec3 { x: fx_sub(self.x, rhs.x), y: fx_sub(self.y, rhs.y), z: fx_sub(self.z, rhs.z) }
    }

    /// Scales every component by the fixed-point scalar `rhs`.
    pub fn mul(self, rhs: i64) -> (v: Vec3)
        requires
            i64::MIN <= fxmul(self.x as int, rhs as int) <= i64::MAX,
            i64::MIN <= fxmul(self.y as int, rhs as int) <= i64::MAX,
            i64::MIN <= fxmul(self.z as int, rhs as int) <= i64::MAX,
        ensures
            v.x as int == fxmul(self.x as int, rhs as int),
            v.y as int == fxmul(self.y as int, rhs as int),
            v.z as int == fxmul(self.z as int, rhs as int),
    {
        Vec3 { x: fx_mul(self.x, rhs), y: fx_mul(self.y, rhs), z: fx_mul(self.z, rhs) }
    }

    /// Divides every component by the fixed-point scalar `rhs`.
    pub fn div(self, rhs: i64) -> (v: Vec3)
        requires
            rhs != 0,
            i64::MIN <= fxdiv(self.x as int, rhs as int) <= i64::MAX,
            i64::MIN <= fxdiv(self.y as int, rhs as int) <= i64::MAX,
            i64::MIN <= fxdiv(self.z as int, rhs as int) <= i64::MAX,
        ensures
            v.x as int == fxdiv(self.x as int, rhs as int),
            v.y as int == fxdiv(self.y as int, rhs as int),
            v.z as int == fxdiv(self.z as int, rhs as int),
    {
        Vec3 { x: fx_div(self.x, rhs), y: fx_div(self.y, rhs), z: fx_div(self.z, rhs) }
    }

    /// Component-wise negation.
    pub fn neg(self) -> (v: Vec3)
        requires
            self.x != i64::MIN,
            self.y != i64::MIN,
            self.z != i64::MIN,
        ensures
            v.x == -self.x,
            v.y == -self.y,
            v.z == -self.z,
    {
        Vec3 { x: -self.x, y: -self.y, z: -self.z }
    }

    /// Component 0, 1 or 2; any other index breaks the contract.
    pub fn index(&self, index: usize) -> (r: i64)
        requires
            index < 3,
        ensures
            index == 0 ==> r == self.x,
            index == 1 ==> r == self.y,
            index == 2 ==> r == self.z,
    {
        if index == 0 {
            self.x
        } else if index == 1 {
            self.y
        } else {
            self.z
        }
    }

    /// Overwrites component 0, 1 or 2; any other index breaks the contract.
    pub fn index_mut(&mut self, index: usize, value: i64)
        requires
            index < 3,
        ensures
            index == 0 ==> *final(self) == (Vec3 { x: value, ..*old(self) }),
            index == 1 ==> *final(self) == (Vec3 { y: value, ..*old(self) }),
            index == 2 ==> *final(self) == (Vec3 { z: value, ..*old(self) }),
    {
        if index == 0 {
            self.x = value;
        } else if index == 1 {
            self.y = value;
        } else {
            self.z = value;
        }
    }

    /// Fixed-point squared length.
    pub fn squared_length(&self) -> (r: i64)
        requires
            sq_ok(*self),
        ensures
            r as int == sqlen_spec(*self),
            r >= 0,
    {
        proof {
            lemma_sqlen_nonneg(*self);
        }
        let sx = fx_mul(self.x, self.x);
        let sy = fx_mul(self.y, self.y);
        let sz = fx_mul(self.z, self.z);
        sx + sy + sz
    }

    /// Fixed-point length, from the raw component squares.
    pub fn length(&self) -> (r: i64)
        requires
            iabs(self.x as int) <= 0x4000_0000_0000_0000,
            iabs(self.y as int) <= 0x4000_0000_0000_0000,
            iabs(self.z as int) <= 0x4000_0000_0000_0000,
        ensures
            r as int == len_spec(*self),
            r >= 0,
    {
        let ax = Self::abs_raw(self.x);
        let ay = Self::abs_raw(self.y);
        let az = Self::abs_raw(self.z);
        proof {
            assert(ax * ax == self.x * self.x && ay * ay == self.y * self.y && az * az == self.z
                * self.z && ax * ax + ay * ay + az * az
                < 0x4000_0000_0000_0000_0000_0000_0000_0000u128) by (nonlinear_arith)
                requires
                    ax == iabs(self.x as int),
                    ay == iabs(self.y as int),
                    az == iabs(self.z as int),
                    ax <= 0x4000_0000_0000_0000u128,
                    ay <= 0x4000_0000_0000_0000u128,
                    az <= 0x4000_0000_0000_0000u128,
            {}
        }
        let n: u128 = ax * ax + ay * ay + az * az;
        let r = crate::fixed::isqrt_u128(n);
        proof {
            crate::fixed::lemma_isqrt_bounds(n as nat);
            assert(r < 0x8000_0000_0000_0000u128) by (nonlinear_arith)
                requires
                    r * r <= n,
                    n < 0x4000_0000_0000_0000_0000_0000_0000_0000u128,
            {}
        }
        r as i64
    }

    /// The magnitude of a raw scalar, as an unsigned value.
    fn abs_raw(v: i64) -> (r: u128)
        ensures
            r == iabs(v as int),
    {
        if v >= 0 {
            v as u128
        } else {
            (-(v as i128)) as u128
        }
    }

    /// Fixed-point dot product.
    pub fn dot(&self, rhs: &Vec3) -> (r: i64)
        requires
            i64::MIN <= fxmul(self.x as int, rhs.x as int) <= i64::MAX,
            i64::MIN <= fxmul(self.y as int, rhs.y as int) <= i64::MAX,
            i64::MIN <= fxmul(self.z as int, rhs.z as int) <= i64::MAX,
            i64::MIN <= fxmul(self.x as int, rhs.x as int) + fxmul(self.y as int, rhs.y as int)
                <= i64::MAX,
            i64::MIN <= dot_spec(*self, *rhs) <= i64::MAX,
        ensures
            r as int == dot_spec(*self, *rhs),
    {
        let px = fx_mul(self.x, rhs.x);
        let py = fx_mul(self.y, rhs.y);
        let pz = fx_mul(self.z, rhs.z);
        px + py + pz
    }

    /// Fixed-point cross product.
    pub fn cross(&self, rhs: &Vec3) -> (r: Vec3)
        requires
            i64::MIN <= fxmul(self.y as int, rhs.z as int) <= i64::MAX,
            i64::MIN <= fxmul(self.z as int, rhs.y as int) <= i64::MAX,
            i64::MIN <= fxmul(self.z as int, rhs.x as int) <= i64::MAX,
            i64::MIN <= fxmul(self.x as int, rhs.z as int) <= i64::MAX,
            i64::MIN <= fxmul(self.x as int, rhs.y as int) <= i64::MAX,
            i64::MIN <= fxmul(self.y as int, rhs.x as int) <= i64::MAX,
            i64::MIN <= fxmul(self.y as int, rhs.z as int) - fxmul(self.z as int, rhs.y as int)
                <= i64::MAX,
            i64::MIN <= fxmul(self.z as int, rhs.x as int) - fxmul(self.x as int, rhs.z as int)
                <= i64::MAX,
            i64::MIN <= fxmul(self.x as int, rhs.y as int) - fxmul(self.y as int, rhs.x as int)
                <= i64::MAX,
        ensures
            r.x as int == fxmul(self.y as int, rhs.z as int) - fxmul(self.z as int, rhs.y as int),
            r.y as int == fxmul(self.z as int, rhs.x as int) - fxmul(self.x as int, rhs.z as int),
            r.z as int == fxmul(self.x as int, rhs.y as int) - fxmul(self.y as int, rhs.x as int),
    {
        Vec3 {
            x: fx_sub(fx_mul(self.y, rhs.z), fx_mul(self.z, rhs.y)),
            y: fx_sub(fx_mul(self.z, rhs.x), fx_mul(self.x, rhs.z)),
            z: fx_sub(fx_mul(self.x, rhs.y), fx_mul(self.y, rhs.x)),
        }
    }

    /// The vector scaled to unit length: each component divided by the
    /// length.  Because the length dominates every component, no component
    /// of the result exceeds 1.0 in magnitude.
    pub fn unit(&self) -> (r: Vec3)
        requires
            iabs(self.x as int) <= 0x4000_0000_0000_0000,
            iabs(self.y as int) <= 0x4000_0000_0000_0000,
            iabs(self.z as int) <= 0x4000_0000_0000_0000,
            !(self.x == 0 && self.y == 0 && self.z == 0),
        ensures
            r.x as int == fxdiv(self.x as int, len_spec(*self)),
            r.y as int == fxdiv(self.y as int, len_spec(*self)),
            r.z as int == fxdiv(self.z as int, len_spec(*self)),
            iabs(r.x as int) <= SCALE,
            iabs(r.y as int) <= SCALE,
            iabs(r.z as int) <= SCALE,
            len_spec(*self) >= 16384 ==> SCALE - 10 <= sqlen_spec(r) <= SCALE + 12,
    {
        proof {
            lemma_len_dominates(*self);
            lemma_unit_component_in_range(self.x as int, len_spec(*self));
            lemma_unit_component_in_range(self.y as int, len_spec(*self));
            lemma_unit_component_in_range(self.z as int, len_spec(*self));
        }
        let len = self.length();
        let r = self.div(len);
        proof {
            if len_spec(*self) >= 16384 {
                lemma_unit_sqlen_band(*self, r);
            }
        }
        r
    }

    /// Gamma correction: the square root of a positive linear value.
    fn linear_to_gamma(x: i64) -> (r: i64)
        ensures
            r as int == gamma_spec(x as int),
            r >= 0,
    {
        if x > 0 {
            crate::fixed::fx_sqrt(x)
        } else {
            0
        }
    }

    /// The colour as four 8-bit channels: each component gamma-corrected,
    /// clamped into `[0, 0.999]`, scaled by 255.99 and truncated; alpha is
    /// always 255.
    pub fn rgba(&self) -> (c: Rgba8)
        ensures
            c.r as int == channel_spec(self.x as int),
            c.g as int == channel_spec(self.y as int),
            c.b as int == channel_spec(self.z as int),
            c.a == 255,
    {
        let intensity = crate::ray::Interval::new(0, INTENSITY_MAX);
        Rgba8 {
            r: Self::channel(intensity, self.x),
            g: Self::channel(intensity, self.y),
            b: Self::channel(intensity, self.z),
            a: 255,
        }
    }

    /// One quantised channel.
    fn channel(intensity: crate::ray::Interval, x: i64) -> (c: u8)
        requires
            intensity.min == 0,
            intensity.max == INTENSITY_MAX,
        ensures
            c as int == channel_spec(x as int),
    {
        let clamped = intensity.clamp(Self::linear_to_gamma(x));
        proof {
            crate::fixed::lemma_fxmul_bound(
                clamped as int,
                QUANT_SCALE as int,
                INTENSITY_MAX as int,
                QUANT_SCALE as int,
            );
            lemma_fxmul_nonneg(clamped as int, QUANT_SCALE as int);
        }
        let scaled = fx_mul(clamped, QUANT_SCALE);
        proof {
            lemma_div_is_ordered(scaled as int, 16759664int, 65536int);
        }
        let c64: u64 = (scaled as u64) / 65536u64;
        c64 as u8
    }

    /// Component-wise product.
    pub fn elemul(a: Vec3, b: Vec3) -> (r: Vec3)
        requires
            i64::MIN <= fxmul(a.x as int, b.x as int) <= i64::MAX,
            i64::MIN <= fxmul(a.y as int, b.y as int) <= i64::MAX,
            i64::MIN <= fxmul(a.z as int, b.z as int) <= i64::MAX,
        ensures
            r.x as int == fxmul(a.x as int, b.x as int),
            r.y as int == fxmul(a.y as int, b.y as int),
            r.z as int == fxmul(a.z as int, b.z as int),
    {
        Vec3 { x: fx_mul(a.x, b.x), y: fx_mul(a.y, b.y), z: fx_mul(a.z, b.z) }
    }

    /// A vector whose components are drawn uniformly from `[0, 1)`.
    pub fn random(rng: &mut RandomSource) -> (r: Vec3)
        ensures
            0 <= r.x < SCALE,
            0 <= r.y < SCALE,
            0 <= r.z < SCALE,
    {
        let x = rng.random_double();
        let y = rng.random_double();
        let z = rng.random_double();
        Vec3 { x, y, z }
    }

    /// A vector whose components are drawn uniformly from `[min, max)`.
    pub fn random_in_range(rng: &mut RandomSource, min: i64, max: i64) -> (r: Vec3)
        requires
            min < max,
        ensures
            min <= r.x < max,
            min <= r.y < max,
            min <= r.z < max,
    {
        let x = rng.random_double_in_range(min, max);
        let y = rng.random_double_in_range(min, max);
        let z = rng.random_double_in_range(min, max);
        Vec3 { x, y, z }
    }

    /// A random direction of unit length: samples the cube `[-1, 1)^3` and
    /// normalises a draw once its squared length lands in `(1/16, 1]`; the
    /// lower cutoff keeps the normalisation accurate in fixed point.
    /// Acceptance is so likely that 64 draws always suffice in practice;
    /// should they all miss, the y axis stands in.  No component of the
    /// result exceeds 1.0 in magnitude.
    pub fn random_unit_vec(rng: &mut RandomSource) -> (r: Vec3)
        ensures
            iabs(r.x as int) <= SCALE,
            iabs(r.y as int) <= SCALE,
            iabs(r.z as int) <= SCALE,
            unit_sample(r),
            SCALE - 10 <= sqlen_spec(r) <= SCALE + 12,
    {
        let mut tries: u64 = 64;
        while tries > 0
            decreases tries,
        {
            tries = tries - 1;
            let p = Self::random_in_range(rng, -SCALE, SCALE);
            proof {
                lemma_cube_sample_sq_ok(p);
            }
            let lensq = p.squared_length();
            if 4096 < lensq && lensq <= SCALE {
                proof {
                    if p.x == 0 && p.y == 0 && p.z == 0 {
                        assert(0int * 0int == 0int) by (nonlinear_arith) {}
                        assert(sqlen_spec(p) == 0);
                    }
                    assert(accepted_cube_sample(p));
                    lemma_sq_bracket(p.x as int);
                    lemma_sq_bracket(p.y as int);
                    lemma_sq_bracket(p.z as int);
                    lemma_isqrt_at_least(
                        (p.x * p.x + p.y * p.y + p.z * p.z) as nat,
                        16384nat,
                    );
                }
                let v = p.unit();
                proof {
                    assert(unit_sample(v));
                }
                return v;
            }
        }
        let axis = Vec3 { x: 0, y: SCALE, z: 0 };
        proof {
            crate::fixed::lemma_fxmul_scale_identity(SCALE as int);
            assert(0int * 0int == 0int) by (nonlinear_arith) {}
            assert(sqlen_spec(axis) == SCALE);
        }
        axis
    }

    /// A random unit-length direction on the hemisphere around `normal`:
    /// the draw is flipped when it points against `normal`.
    pub fn random_on_hemisphere(rng: &mut RandomSource, normal: &Vec3) -> (r: Vec3)
        requires
            iabs(normal.x as int) <= 0x1_0000_0000_0000,
            iabs(normal.y as int) <= 0x1_0000_0000_0000,
            iabs(normal.z as int) <= 0x1_0000_0000_0000,
        ensures
            iabs(r.x as int) <= SCALE,
            iabs(r.y as int) <= SCALE,
            iabs(r.z as int) <= SCALE,
            dot_spec(r, *normal) >= 0,
            SCALE - 10 <= sqlen_spec(r) <= SCALE + 12,
    {
        let on_unit_sphere = Self::random_unit_vec(rng);
        proof {
            crate::fixed::lemma_fxmul_bound(
                on_unit_sphere.x as int,
                normal.x as int,
                4 * SCALE as int,
                0x1_0000_0000_0000,
            );
            crate::fixed::lemma_fxmul_bound(
                on_unit_sphere.y as int,
                normal.y as int,
                4 * SCALE as int,
                0x1_0000_0000_0000,
            );
            crate::fixed::lemma_fxmul_bound(
                on_unit_sphere.z as int,
                normal.z as int,
                4 * SCALE as int,
                0x1_0000_0000_0000,
            );
        }
        if on_unit_sphere.dot(normal) > 0 {
            on_unit_sphere
        } else {
            proof {
                lemma_dot_of_negated(on_unit_sphere, *normal);
                lemma_sqlen_of_negated(on_unit_sphere);
            }
            on_unit_sphere.neg()
        }
    }
}

/// A component divided by a dominating length stays within one unit.
proof fn lemma_unit_component_in_range(c: int, l: int)
    requires
        1 <= l,
        iabs(c) <= l,
    ensures
        iabs(fxdiv(c, l)) <= SCALE,
{
    assert(iabs(c * SCALE) <= (SCALE as int) * iabs(l)) by (nonlinear_arith)
        requires
            iabs(c) <= l,
            1 <= l,
            SCALE == 65536,
    {}
    lemma_tdiv_le(c * (SCALE as int), l, SCALE as int);
}

/// One component of a normalisation, squared, bracketed by the length:
/// writing `q = c*SCALE / l` (truncated), `l^2 q^2` is at most `(c*SCALE)^2`,
/// which in turn is below `l^2 (q^2 + 2|q| + 1)`.
proof fn lemma_unit_comp_squares(c: int, l: int)
    requires
        1 <= l,
    ensures
        l * l * (fxdiv(c, l) * fxdiv(c, l)) <= (c * SCALE) * (c * SCALE),
        (c * SCALE) * (c * SCALE) < l * l * (fxdiv(c, l) * fxdiv(c, l)) + l * l * (2 * iabs(
            fxdiv(c, l),
        ) + 1),
{
    let x = iabs(c * (SCALE as int));
    let q = iabs(tdiv(c * (SCALE as int), l));
    crate::fixed::lemma_tdiv_mag(c * (SCALE as int), l);
    vstd::arithmetic::div_mod::lemma_fundamental_div_mod(x, l);
    vstd::arithmetic::div_mod::lemma_mod_division_less_than_divisor(x, l);
    assert(l * q <= x && x < l * (q + 1)) by (nonlinear_arith)
        requires
            x == l * (x / l) + x % l,
            0 <= x % l < l,
            q == x / l,
    {}
    assert(l * l * (q * q) <= x * x && x * x < l * l * (q * q) + l * l * (2 * q + 1))
        by (nonlinear_arith)
        requires
            0 <= l * q <= x,
            x < l * (q + 1),
            1 <= l,
            0 <= q,
    {}
    assert(x * x == (c * SCALE) * (c * SCALE) && q * q == fxdiv(c, l) * fxdiv(c, l))
        by (nonlinear_arith)
        requires
            x == iabs(c * (SCALE as int)),
            q == iabs(tdiv(c * (SCALE as int), l)),
            SCALE == 65536,
            fxdiv(c, l) == tdiv(c * (SCALE as int), l),
    {}
}

/// Law: a normalised vector whose source has length at least 1/4 has
/// fixed-point squared length within a dozen units of one.
pub proof fn lemma_unit_sqlen_band(v: Vec3, u: Vec3)
    requires
        len_spec(v) >= 16384,
        u.x as int == fxdiv(v.x as int, len_spec(v)),
        u.y as int == fxdiv(v.y as int, len_spec(v)),
        u.z as int == fxdiv(v.z as int, len_spec(v)),
    ensures
        SCALE - 10 <= sqlen_spec(u) <= SCALE + 12,
{
    let l = len_spec(v);
    let n = v.x * v.x + v.y * v.y + v.z * v.z;
    assert(n >= 0) by (nonlinear_arith)
        requires
            n == v.x * v.x + v.y * v.y + v.z * v.z,
    {}
    crate::fixed::lemma_isqrt_bounds(n as nat);
    assert(l * l <= n && n < l * l + 2 * l + 1) by (nonlinear_arith)
        requires
            crate::fixed::isqrt(n as nat) * crate::fixed::isqrt(n as nat) <= n as nat,
            (n as nat) < (crate::fixed::isqrt(n as nat) + 1) * (crate::fixed::isqrt(n as nat) + 1),
            l == crate::fixed::isqrt(n as nat) as int,
            n >= 0,
    {}
    lemma_len_dominates(v);
    lemma_unit_component_in_range(v.x as int, l);
    lemma_unit_component_in_range(v.y as int, l);
    lemma_unit_component_in_range(v.z as int, l);
    lemma_unit_comp_squares(v.x as int, l);
    lemma_unit_comp_squares(v.y as int, l);
    lemma_unit_comp_squares(v.z as int, l);
    let ux = u.x as int;
    let uy = u.y as int;
    let uz = u.z as int;
    let squ = ux * ux + uy * uy + uz * uz;
    // the three component brackets, summed
    assert(l * l * squ <= (SCALE as int) * SCALE * n && (SCALE as int) * SCALE * n < l * l * squ
        + l * l * (2 * (iabs(ux) + iabs(uy) + iabs(uz)) + 3)) by (nonlinear_arith)
        requires
            l * l * (ux * ux) <= (v.x as int * SCALE) * (v.x as int * SCALE),
            l * l * (uy * uy) <= (v.y as int * SCALE) * (v.y as int * SCALE),
            l * l * (uz * uz) <= (v.z as int * SCALE) * (v.z as int * SCALE),
            (v.x as int * SCALE) * (v.x as int * SCALE) < l * l * (ux * ux) + l * l * (2 * iabs(ux)
                + 1),
            (v.y as int * SCALE) * (v.y as int * SCALE) < l * l * (uy * uy) + l * l * (2 * iabs(uy)
                + 1),
            (v.z as int * SCALE) * (v.z as int * SCALE) < l * l * (uz * uz) + l * l * (2 * iabs(uz)
                + 1),
            squ == ux * ux + uy * uy + uz * uz,
            n == v.x * v.x + v.y * v.y + v.z * v.z,
            SCALE == 65536,
    {}
    // sqlen_spec(u) brackets squ
    lemma_sqlen_nonneg(u);
    lemma_sq_bracket(ux);
    lemma_sq_bracket(uy);
    lemma_sq_bracket(uz);
    let t = sqlen_spec(u);
    assert((SCALE as int) * t <= squ && squ < (SCALE as int) * t + 3 * SCALE);
    if t >= SCALE + 13 {
        assert(false) by (nonlinear_arith)
            requires
                l * l * squ <= (SCALE as int) * SCALE * n,
                n < l * l + 2 * l + 1,
                (SCALE as int) * (SCALE + 13) <= squ,
                l >= 16384,
                SCALE == 65536,
        {}
    }
    if t <= SCALE - 11 {
        assert(false) by (nonlinear_arith)
            requires
                (SCALE as int) * SCALE * n < l * l * squ + l * l * (2 * (iabs(ux) + iabs(uy)
                    + iabs(uz)) + 3),
                iabs(ux) <= SCALE,
                iabs(uy) <= SCALE,
                iabs(uz) <= SCALE,
                l * l <= n,
                squ < (SCALE as int) * t + 3 * SCALE,
                t <= SCALE - 11,
                l >= 16384,
                SCALE == 65536,
        {}
    }
}

/// The truncated square-over-SCALE of a scalar brackets its square.
proof fn lemma_sq_bracket(c: int)
    ensures
        (SCALE as int) * fxmul(c, c) <= c * c,
        c * c < (SCALE as int) * fxmul(c, c) + SCALE,
{
    assert(c * c >= 0) by (nonlinear_arith) {}
    crate::fixed::lemma_tdiv_mag(c * c, SCALE as int);
    vstd::arithmetic::div_mod::lemma_fundamental_div_mod(c * c, SCALE as int);
    vstd::arithmetic::div_mod::lemma_mod_division_less_than_divisor(c * c, SCALE as int);
}

/// Negating a vector keeps its fixed-point squared length.
proof fn lemma_sqlen_of_negated(a: Vec3)
    requires
        a.x != i64::MIN,
        a.y != i64::MIN,
        a.z != i64::MIN,
    ensures
        sqlen_spec(Vec3 { x: (-a.x) as i64, y: (-a.y) as i64, z: (-a.z) as i64 }) == sqlen_spec(a),
{
    assert((-a.x as int) * (-a.x as int) == (a.x as int) * (a.x as int) && (-a.y as int) * (-a.y
        as int) == (a.y as int) * (a.y as int) && (-a.z as int) * (-a.z as int) == (a.z as int) * (
    a.z as int)) by (nonlinear_arith) {}
}

/// Negating a vector negates its fixed-point dot with any other vector.
proof fn lemma_dot_of_negated(a: Vec3, b: Vec3)
    requires
        a.x != i64::MIN,
        a.y != i64::MIN,
        a.z != i64::MIN,
    ensures
        dot_spec(Vec3 { x: (-a.x) as i64, y: (-a.y) as i64, z: (-a.z) as i64 }, b) == -dot_spec(
            a,
            b,
        ),
{
    assert((-a.x as int) * (b.x as int) == -((a.x as int) * (b.x as int))) by (nonlinear_arith) {}
    assert((-a.y as int) * (b.y as int) == -((a.y as int) * (b.y as int))) by (nonlinear_arith) {}
    assert((-a.z as int) * (b.z as int) == -((a.z as int) * (b.z as int))) by (nonlinear_arith) {}
    crate::fixed::lemma_tdiv_neg((a.x as int) * (b.x as int), SCALE as int);
    crate::fixed::lemma_tdiv_neg((a.y as int) * (b.y as int), SCALE as int);
    crate::fixed::lemma_tdiv_neg((a.z as int) * (b.z as int), SCALE as int);
}

/// A fixed-point product of non-negative factors is non-negative.
pub proof fn lemma_fxmul_nonneg(a: int, b: int)
    requires
        a >= 0,
        b >= 0,
    ensures
        fxmul(a, b) >= 0,
{
    assert(a * b >= 0) by (nonlinear_arith)
        requires
            a >= 0,
            b >= 0,
    {}
    if a * b > 0 {
        lemma_div_pos_is_pos(a * b, SCALE as int);
    }
}

/// Samples from the unit cube have representable squared lengths.
proof fn lemma_cube_sample_sq_ok(p: Vec3)
    requires
        -SCALE <= p.x < SCALE,
        -SCALE <= p.y < SCALE,
        -SCALE <= p.z < SCALE,
    ensures
        sq_ok(p),
        fxmul(p.x as int, p.x as int) <= SCALE,
        fxmul(p.y as int, p.y as int) <= SCALE,
        fxmul(p.z as int, p.z as int) <= SCALE,
{
    crate::fixed::lemma_fxmul_bound(p.x as int, p.x as int, SCALE as int, SCALE as int);
    crate::fixed::lemma_fxmul_bound(p.y as int, p.y as int, SCALE as int, SCALE as int);
    crate::fixed::lemma_fxmul_bound(p.z as int, p.z as int, SCALE as int, SCALE as int);
    lemma_sqlen_nonneg(p);
}

} // verus!
