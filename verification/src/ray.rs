//! Rays, hit records, intervals, and the intersectable surfaces: spheres and
//! an aggregate of surfaces that reports the nearest hit.

use vstd::prelude::*;
use std::sync::Arc;

verus! {

use crate::fixed::{
    fx_add, fx_div, fx_mul, fx_sqrt, fx_sub, fxdiv, fxmul, fxsqrt, iabs, in64,
    lemma_fxmul_bound, lemma_tdiv_le, SCALE,
};
use crate::vec3::{dot_spec, lemma_sqlen_nonneg, sqlen_spec, Point3, Vec3};

/// Largest magnitude accepted for a ray origin and for a recorded hit point.
pub const ORIGIN_LIMIT: i64 = 0x400_0000;

/// Largest magnitude accepted for a ray direction component.
pub const DIR_LIMIT: i64 = 0x100_0000;

/// Largest magnitude accepted for a sphere's centre components and radius.
pub const COORD_LIMIT: i64 = 0x100_0000;

/// Largest root magnitude a sphere reports; farther intersections are
/// beyond the representable scene and count as misses.
pub const ROOT_LIMIT: i64 = 0x1000_0000_0000;

/// Largest magnitude of a recorded outward-normal component (2.0: a true
/// normal has length about 1).
pub const NORMAL_LIMIT: i64 = 131072;

/// A closed range of fixed-point scalars.  An empty range is written with
/// `min` above `max`, so that nothing is contained in it.
#[derive(Clone, Copy, Debug, PartialEq, Eq, Structural)]
pub struct Interval {
    pub min: i64,
    pub max: i64,
}

/// Strict membership, the test that accepts hit distances.
pub open spec fn surrounds_spec(i: Interval, x: int) -> bool {
    i.min < x < i.max
}

/// Saturation of `x` into `[min, max]`.
pub open spec fn clamp_spec(i: Interval, x: int) -> int {
    if x < i.min {
        i.min as int
    } else if x > i.max {
        i.max as int
    } else {
        x
    }
}

impl Interval {
    /// The empty interval: above every scalar from below, so that no scalar
    /// is contained or surrounded.
    pub fn default() -> (r: Interval)
        ensures
            r.min == i64::MAX,
            r.max == i64::MIN,
    {
        Interval { min: i64::MAX, max: i64::MIN }
    }

    pub fn new(min: i64, max: i64) -> (r: Interval)
        ensures
            r == (Interval { min, max }),
    {
        Interval { min, max }
    }

    /// The width of the range.
    pub fn size(&self) -> (r: i64)
        requires
            in64(self.max - self.min),
        ensures
            r == self.max - self.min,
    {
        self.max - self.min
    }

    /// Inclusive membership.
    pub fn contains(&self, x: i64) -> (b: bool)
        ensures
            b == (self.min <= x <= self.max),
    {
        self.min <= x && x <= self.max
    }

    /// Strict membership.
    pub fn surrounds(&self, x: i64) -> (b: bool)
        ensures
            b == surrounds_spec(*self, x as int),
    {
        self.min < x && x < self.max
    }

    /// Saturates `x` into the range.
    pub fn clamp(&self, x: i64) -> (r: i64)
        ensures
            r as int == clamp_spec(*self, x as int),
    {
        if x < self.min {
            self.min
        } else if x > self.max {
            self.max
        } else {
            x
        }
    }
}

/// A half-line: origin plus a non-negative multiple of a direction.  The
/// direction need not have unit length; distances are in units of it.
#[derive(Clone, Copy, Debug, PartialEq, Eq, Structural)]
pub struct Ray {
    pub origin: Point3,
    pub direction: Vec3,
}

/// Component `x` of the point a distance `t` along the ray.
pub open spec fn ray_at_x(r: Ray, t: int) -> int {
    r.origin.x + fxmul(r.direction.x as int, t)
}

/// Component `y` of the point a distance `t` along the ray.
pub open spec fn ray_at_y(r: Ray, t: int) -> int {
    r.origin.y + fxmul(r.direction.y as int, t)
}

/// Component `z` of the point a distance `t` along the ray.
pub open spec fn ray_at_z(r: Ray, t: int) -> int {
    r.origin.z + fxmul(r.direction.z as int, t)
}

/// Origin and direction components small enough for the intersection
/// arithmetic to stay representable.
pub open spec fn ray_in_bounds(r: Ray) -> bool {
    &&& iabs(r.origin.x as int) <= ORIGIN_LIMIT
    &&& iabs(r.origin.y as int) <= ORIGIN_LIMIT
    &&& iabs(r.origin.z as int) <= ORIGIN_LIMIT
    &&& iabs(r.direction.x as int) <= DIR_LIMIT
    &&& iabs(r.direction.y as int) <= DIR_LIMIT
    &&& iabs(r.direction.z as int) <= DIR_LIMIT
}

impl Ray {
    pub fn new(origin: Point3, direction: Vec3) -> (r: Ray)
        ensures
            r == (Ray { origin, direction }),
    {
        Ray { origin, direction }
    }

    /// The point a distance `t` along the ray: `origin + direction * t`.
    pub fn at(&self, t: i64) -> (p: Point3)
        requires
            in64(fxmul(self.direction.x as int, t as int)),
            in64(fxmul(self.direction.y as int, t as int)),
            in64(fxmul(self.direction.z as int, t as int)),
            in64(ray_at_x(*self, t as int)),
            in64(ray_at_y(*self, t as int)),
            in64(ray_at_z(*self, t as int)),
        ensures
            p.x as int == ray_at_x(*self, t as int),
            p.y as int == ray_at_y(*self, t as int),
            p.z as int == ray_at_z(*self, t as int),
    {
        self.origin.add(self.direction.mul(t))
    }
}

/// What an intersection test reports: the hit point, the normal oriented
/// against the incoming ray, the distance along the ray, and whether the
/// ray met the front (outward-facing) side.
#[derive(Clone, Copy, Debug, PartialEq, Eq, Structural)]
pub struct HitRecord {
    pub point: Point3,
    pub normal: Vec3,
    pub t: i64,
    pub front_face: bool,
}

impl Default for HitRecord {
    /// An all-zero record, overwritten by the first accepted hit.
    fn default() -> (r: HitRecord)
        ensures
            r == (HitRecord {
                point: Vec3 { x: 0i64, y: 0i64, z: 0i64 },
                normal: Vec3 { x: 0i64, y: 0i64, z: 0i64 },
                t: 0i64,
                front_face: false,
            }),
    {
        HitRecord {
            point: Vec3 { x: 0, y: 0, z: 0 },
            normal: Vec3 { x: 0, y: 0, z: 0 },
            t: 0,
            front_face: false,
        }
    }
}

impl HitRecord {
    /// Stores `outward_normal` oriented against the ray: kept as given when
    /// the ray meets the front face (direction against the normal), negated
    /// otherwise.
    fn set_face_normal(&mut self, r: &Ray, outward_normal: &Vec3)
        requires
            iabs(r.direction.x as int) <= DIR_LIMIT,
            iabs(r.direction.y as int) <= DIR_LIMIT,
            iabs(r.direction.z as int) <= DIR_LIMIT,
            iabs(outward_normal.x as int) <= NORMAL_LIMIT,
            iabs(outward_normal.y as int) <= NORMAL_LIMIT,
            iabs(outward_normal.z as int) <= NORMAL_LIMIT,
        ensures
            final(self).front_face == (dot_spec(r.direction, *outward_normal) < 0),
            final(self).normal == (if dot_spec(r.direction, *outward_normal) < 0 {
                *outward_normal
            } else {
                Vec3 {
                    x: -outward_normal.x as i64,
                    y: -outward_normal.y as i64,
                    z: -outward_normal.z as i64,
                }
            }),
            final(self).point == old(self).point,
            final(self).t == old(self).t,
    {
        proof {
            lemma_dot_small(r.direction, *outward_normal);
        }
        self.front_face = r.direction.dot(outward_normal) < 0;
        self.normal = if self.front_face {
            *outward_normal
        } else {
            outward_normal.neg()
        };
    }
}

/// Dot products of a bounded direction with a bounded normal are small.
proof fn lemma_dot_small(d: Vec3, n: Vec3)
    requires
        iabs(d.x as int) <= DIR_LIMIT,
        iabs(d.y as int) <= DIR_LIMIT,
        iabs(d.z as int) <= DIR_LIMIT,
        iabs(n.x as int) <= NORMAL_LIMIT,
        iabs(n.y as int) <= NORMAL_LIMIT,
        iabs(n.z as int) <= NORMAL_LIMIT,
    ensures
        iabs(fxmul(d.x as int, n.x as int)) <= 0x200_0000,
        iabs(fxmul(d.y as int, n.y as int)) <= 0x200_0000,
        iabs(fxmul(d.z as int, n.z as int)) <= 0x200_0000,
        iabs(dot_spec(d, n)) <= 0x600_0000,
{
    lemma_fxmul_bound(d.x as int, n.x as int, DIR_LIMIT as int, NORMAL_LIMIT as int);
    lemma_fxmul_bound(d.y as int, n.y as int, DIR_LIMIT as int, NORMAL_LIMIT as int);
    lemma_fxmul_bound(d.z as int, n.z as int, DIR_LIMIT as int, NORMAL_LIMIT as int);
}

/// The recorded point and normal lie within the representable scene.
pub open spec fn record_in_bounds(rec: HitRecord) -> bool {
    &&& iabs(rec.point.x as int) <= ORIGIN_LIMIT
    &&& iabs(rec.point.y as int) <= ORIGIN_LIMIT
    &&& iabs(rec.point.z as int) <= ORIGIN_LIMIT
    &&& iabs(rec.normal.x as int) <= NORMAL_LIMIT
    &&& iabs(rec.normal.y as int) <= NORMAL_LIMIT
    &&& iabs(rec.normal.z as int) <= NORMAL_LIMIT
}

/// The capability of being met by a ray within a distance interval.
pub trait Hittable {
    /// Well-formed enough for `hit`'s arithmetic: all coordinates within
    /// the representable scene.
    spec fn wf(&self) -> bool;

    /// What `hit` reports, as a function of the ray and the open interval
    /// of accepted distances.
    spec fn hit_spec(&self, r: Ray, t_min: int, t_max: int) -> Option<HitRecord>;

    /// Tests the ray against the surface over the open interval `ray_t`;
    /// on a hit, fills `rec` and returns true; otherwise leaves `rec`
    /// untouched and returns false.
    fn hit(&self, r: &Ray, ray_t: Interval, rec: &mut HitRecord) -> (b: bool)
        requires
            self.wf(),
            ray_in_bounds(*r),
        ensures
            b == self.hit_spec(*r, ray_t.min as int, ray_t.max as int) is Some,
            b ==> Some(*final(rec)) == self.hit_spec(*r, ray_t.min as int, ray_t.max as int),
            b ==> record_in_bounds(*final(rec)),
            !b ==> *final(rec) == *old(rec),
    ;
}

/// An immutable sphere: centre and (non-negative) radius.
#[derive(Clone, Copy, Debug, PartialEq, Eq, Structural)]
pub struct Sphere {
    pub center: Vec3,
    pub radius: i64,
}

impl Sphere {
    /// A sphere with the given centre; a negative radius is clamped to 0.
    pub fn new(center: Vec3, radius: i64) -> (s: Sphere)
        requires
            radius <= COORD_LIMIT,
        ensures
            s.center == center,
            s.radius == (if radius >= 0 {
                radius
            } else {
                0
            }),
    {
        Sphere { center, radius: if radius >= 0 { radius } else { 0 } }
    }
}

/// Centre and radius within the representable scene.
pub open spec fn sphere_in_bounds(s: Sphere) -> bool {
    &&& iabs(s.center.x as int) <= COORD_LIMIT
    &&& iabs(s.center.y as int) <= COORD_LIMIT
    &&& iabs(s.center.z as int) <= COORD_LIMIT
    &&& 0 <= s.radius <= COORD_LIMIT
}

/// Dot product of two component triples, in fixed point.
pub open spec fn dot3(ax: int, ay: int, az: int, bx: int, by: int, bz: int) -> int {
    fxmul(ax, bx) + fxmul(ay, by) + fxmul(az, bz)
}

/// What `Sphere::hit` reports: the quadratic `|O + tD - C|^2 = r^2` is
/// solved through its half-`b` form; the nearer root is accepted if the
/// interval strictly surrounds it, else the farther one; and the record is
/// built at the accepted root with the normal oriented against the ray.
/// Degenerate data (a zero direction square, a zero radius) and values
/// beyond the representable scene report a miss.
pub open spec fn sphere_hit_spec(sp: Sphere, r: Ray, t_min: int, t_max: int) -> Option<
    HitRecord,
> {
    let dx = r.direction.x as int;
    let dy = r.direction.y as int;
    let dz = r.direction.z as int;
    let ocx = sp.center.x - r.origin.x;
    let ocy = sp.center.y - r.origin.y;
    let ocz = sp.center.z - r.origin.z;
    let a = dot3(dx, dy, dz, dx, dy, dz);
    let h = dot3(dx, dy, dz, ocx, ocy, ocz);
    let c = dot3(ocx, ocy, ocz, ocx, ocy, ocz) - fxmul(sp.radius as int, sp.radius as int);
    let disc = fxmul(h, h) - fxmul(a, c);
    if disc < 0 {
        None
    } else if a == 0 || sp.radius == 0 {
        None
    } else {
        let sq = fxsqrt(disc);
        let near = fxdiv(h - sq, a);
        let far = fxdiv(h + sq, a);
        if t_min < near < t_max {
            sphere_record_at(sp, r, near)
        } else if t_min < far < t_max {
            sphere_record_at(sp, r, far)
        } else {
            None
        }
    }
}

/// The record a sphere reports at accepted root `t`: the point along the
/// ray, and the outward normal `(point - centre) / radius` oriented against
/// the ray.  A root or record beyond the representable scene is a miss.
pub open spec fn sphere_record_at(sp: Sphere, r: Ray, t: int) -> Option<HitRecord> {
    let px = ray_at_x(r, t);
    let py = ray_at_y(r, t);
    let pz = ray_at_z(r, t);
    if iabs(t) > ROOT_LIMIT {
        None
    } else if iabs(px) > ORIGIN_LIMIT || iabs(py) > ORIGIN_LIMIT || iabs(pz) > ORIGIN_LIMIT {
        None
    } else {
        let nx = fxdiv(px - sp.center.x, sp.radius as int);
        let ny = fxdiv(py - sp.center.y, sp.radius as int);
        let nz = fxdiv(pz - sp.center.z, sp.radius as int);
        if iabs(nx) > NORMAL_LIMIT || iabs(ny) > NORMAL_LIMIT || iabs(nz) > NORMAL_LIMIT {
            None
        } else {
            let front = dot3(
                r.direction.x as int,
                r.direction.y as int,
                r.direction.z as int,
                nx,
                ny,
                nz,
            ) < 0;
            Some(
                HitRecord {
                    point: Vec3 { x: px as i64, y: py as i64, z: pz as i64 },
                    normal: (if front {
                        Vec3 { x: nx as i64, y: ny as i64, z: nz as i64 }
                    } else {
                        Vec3 { x: (-nx) as i64, y: (-ny) as i64, z: (-nz) as i64 }
                    }),
                    t: t as i64,
                    front_face: front,
                },
            )
        }
    }
}

impl Hittable for Sphere {
    open spec fn wf(&self) -> bool {
        sphere_in_bounds(*self)
    }

    open spec fn hit_spec(&self, r: Ray, t_min: int, t_max: int) -> Option<HitRecord> {
        sphere_hit_spec(*self, r, t_min, t_max)
    }

    fn hit(&self, r: &Ray, ray_t: Interval, rec: &mut HitRecord) -> (b: bool) {
        proof {
            lemma_sphere_quadratic_fits(*self, *r);
        }
        let oc = self.center.sub(r.origin);
        let a = r.direction.squared_length();
        let h = r.direction.dot(&oc);
        let c = fx_sub(oc.squared_length(), fx_mul(self.radius, self.radius));
        let discriminant = fx_sub(fx_mul(h, h), fx_mul(a, c));
        if discriminant < 0 {
            return false;
        }
        if a == 0 || self.radius == 0 {
            return false;
        }
        let sqrtd = fx_sqrt(discriminant);
        proof {
            crate::fixed::lemma_isqrt_bounds(((discriminant as int) * (SCALE as int)) as nat);
            assert(sqrtd <= 0x100_0000_0000) by (nonlinear_arith)
                requires
                    (sqrtd as int) * (sqrtd as int) <= (discriminant as int) * (SCALE as int),
                    (discriminant as int) * (SCALE as int) <= 0x603_0000_0000_0000 * 0x1_0000,
                    sqrtd >= 0,
            {}
            lemma_sphere_root_fits(*self, *r, h as int, a as int, sqrtd as int);
        }
        let near = fx_div(fx_sub(h, sqrtd), a);
        let far = fx_div(fx_add(h, sqrtd), a);
        let root = if ray_t.surrounds(near) {
            near
        } else if ray_t.surrounds(far) {
            far
        } else {
            return false;
        };
        self.record_at(r, root, rec)
    }
}

impl Sphere {
    /// Builds the hit record at an accepted root, or reports a miss for
    /// values beyond the representable scene.
    fn record_at(&self, r: &Ray, root: i64, rec: &mut HitRecord) -> (b: bool)
        requires
            sphere_in_bounds(*self),
            ray_in_bounds(*r),
            self.radius != 0,
        ensures
            b == sphere_record_at(*self, *r, root as int) is Some,
            b ==> Some(*final(rec)) == sphere_record_at(*self, *r, root as int),
            b ==> record_in_bounds(*final(rec)),
            !b ==> *final(rec) == *old(rec),
    {
        if root > ROOT_LIMIT || root < -ROOT_LIMIT {
            return false;
        }
        proof {
            lemma_sphere_point_fits(*self, *r, root as int);
        }
        let point = r.at(root);
        if point.x > ORIGIN_LIMIT || point.x < -ORIGIN_LIMIT || point.y > ORIGIN_LIMIT
            || point.y < -ORIGIN_LIMIT || point.z > ORIGIN_LIMIT || point.z < -ORIGIN_LIMIT {
            return false;
        }
        proof {
            lemma_sphere_normal_fits(*self, *r, point);
        }
        let outward_normal = point.sub(self.center).div(self.radius);
        if outward_normal.x > NORMAL_LIMIT || outward_normal.x < -NORMAL_LIMIT
            || outward_normal.y > NORMAL_LIMIT || outward_normal.y < -NORMAL_LIMIT
            || outward_normal.z > NORMAL_LIMIT || outward_normal.z < -NORMAL_LIMIT {
            return false;
        }
        rec.t = root;
        rec.point = point;
        rec.set_face_normal(r, &outward_normal);
        true
    }
}

/// Every quantity of the sphere quadratic stays representable for bounded
/// spheres and rays.
proof fn lemma_sphere_quadratic_fits(sp: Sphere, r: Ray)
    requires
        sphere_in_bounds(sp),
        ray_in_bounds(r),
    ensures
        in64(sp.center.x - r.origin.x),
        in64(sp.center.y - r.origin.y),
        in64(sp.center.z - r.origin.z),
        iabs(fxmul(r.direction.x as int, r.direction.x as int)) <= 0x1_0000_0000,
        iabs(fxmul(r.direction.y as int, r.direction.y as int)) <= 0x1_0000_0000,
        iabs(fxmul(r.direction.z as int, r.direction.z as int)) <= 0x1_0000_0000,
        sqlen_spec(r.direction) <= 0x3_0000_0000,
        sqlen_spec(r.direction) >= 0,
        iabs(fxmul(r.direction.x as int, (sp.center.x - r.origin.x) as int)) <= 0x8_0000_0000,
        iabs(fxmul(r.direction.y as int, (sp.center.y - r.origin.y) as int)) <= 0x8_0000_0000,
        iabs(fxmul(r.direction.z as int, (sp.center.z - r.origin.z) as int)) <= 0x8_0000_0000,
        iabs(
            dot3(
                r.direction.x as int,
                r.direction.y as int,
                r.direction.z as int,
                sp.center.x - r.origin.x,
                sp.center.y - r.origin.y,
                sp.center.z - r.origin.z,
            ),
        ) <= 0x18_0000_0000,
        iabs(fxmul(sp.center.x - r.origin.x, sp.center.x - r.origin.x)) <= 0x40_0000_0000,
        iabs(fxmul(sp.center.y - r.origin.y, sp.center.y - r.origin.y)) <= 0x40_0000_0000,
        iabs(fxmul(sp.center.z - r.origin.z, sp.center.z - r.origin.z)) <= 0x40_0000_0000,
        iabs(fxmul(sp.radius as int, sp.radius as int)) <= 0x1_0000_0000,
        fxmul(sp.center.x - r.origin.x, sp.center.x - r.origin.x) >= 0,
        fxmul(sp.center.y - r.origin.y, sp.center.y - r.origin.y) >= 0,
        fxmul(sp.center.z - r.origin.z, sp.center.z - r.origin.z) >= 0,
        fxmul(sp.radius as int, sp.radius as int) >= 0,
        iabs(
            fxmul(
                dot3(
                    r.direction.x as int,
                    r.direction.y as int,
                    r.direction.z as int,
                    sp.center.x - r.origin.x,
                    sp.center.y - r.origin.y,
                    sp.center.z - r.origin.z,
                ),
                dot3(
                    r.direction.x as int,
                    r.direction.y as int,
                    r.direction.z as int,
                    sp.center.x - r.origin.x,
                    sp.center.y - r.origin.y,
                    sp.center.z - r.origin.z,
                ),
            ),
        ) <= 0x240_0000_0000_0000,
        iabs(
            fxmul(
                sqlen_spec(r.direction),
                dot3(
                    sp.center.x - r.origin.x,
                    sp.center.y - r.origin.y,
                    sp.center.z - r.origin.z,
                    sp.center.x - r.origin.x,
                    sp.center.y - r.origin.y,
                    sp.center.z - r.origin.z,
                ) - fxmul(sp.radius as int, sp.radius as int),
            ),
        ) <= 0x3C3_0000_0000_0000,
{
    let dx = r.direction.x as int;
    let dy = r.direction.y as int;
    let dz = r.direction.z as int;
    let ocx = sp.center.x - r.origin.x;
    let ocy = sp.center.y - r.origin.y;
    let ocz = sp.center.z - r.origin.z;
    let oc_l = 0x500_0000int;
    assert(oc_l * oc_l / (SCALE as int) == 0x19_0000_0000int) by (nonlinear_arith)
        requires
            oc_l == 0x500_0000int,
            SCALE == 65536,
    {}
    assert((DIR_LIMIT as int) * oc_l / (SCALE as int) == 0x5_0000_0000int) by (nonlinear_arith)
        requires
            oc_l == 0x500_0000int,
            DIR_LIMIT == 0x100_0000,
            SCALE == 65536,
    {}
    lemma_fxmul_bound(dx, dx, DIR_LIMIT as int, DIR_LIMIT as int);
    lemma_fxmul_bound(dy, dy, DIR_LIMIT as int, DIR_LIMIT as int);
    lemma_fxmul_bound(dz, dz, DIR_LIMIT as int, DIR_LIMIT as int);
    lemma_sqlen_nonneg(r.direction);
    lemma_fxmul_bound(dx, ocx, DIR_LIMIT as int, oc_l);
    lemma_fxmul_bound(dy, ocy, DIR_LIMIT as int, oc_l);
    lemma_fxmul_bound(dz, ocz, DIR_LIMIT as int, oc_l);
    lemma_fxmul_bound(ocx, ocx, oc_l, oc_l);
    lemma_fxmul_bound(ocy, ocy, oc_l, oc_l);
    lemma_fxmul_bound(ocz, ocz, oc_l, oc_l);
    crate::vec3::lemma_fxmul_square_nonneg(ocx);
    crate::vec3::lemma_fxmul_square_nonneg(ocy);
    crate::vec3::lemma_fxmul_square_nonneg(ocz);
    crate::vec3::lemma_fxmul_square_nonneg(sp.radius as int);
    lemma_fxmul_bound(sp.radius as int, sp.radius as int, COORD_LIMIT as int, COORD_LIMIT as int);
    let h = dot3(dx, dy, dz, ocx, ocy, ocz);
    let c = dot3(ocx, ocy, ocz, ocx, ocy, ocz) - fxmul(sp.radius as int, sp.radius as int);
    lemma_fxmul_bound(h, h, 0x18_0000_0000, 0x18_0000_0000);
    lemma_fxmul_bound(sqlen_spec(r.direction), c, 0x3_0000_0000, 0xC1_0000_0000);
}

/// The two candidate roots of the quadratic stay representable.
proof fn lemma_sphere_root_fits(sp: Sphere, r: Ray, h: int, a: int, sq: int)
    requires
        iabs(h) <= 0x18_0000_0000,
        0 < a,
        0 <= sq <= 0x100_0000_0000,
    ensures
        in64(h - sq),
        in64(h + sq),
        in64(fxdiv(h - sq, a)),
        in64(fxdiv(h + sq, a)),
{
    assert(iabs((h - sq) * (SCALE as int)) <= 0x118_0000_0000_0000int * iabs(a)) by (nonlinear_arith)
        requires
            iabs(h) <= 0x18_0000_0000,
            0 <= sq <= 0x100_0000_0000,
            a >= 1,
            SCALE == 65536,
    {}
    assert(iabs((h + sq) * (SCALE as int)) <= 0x118_0000_0000_0000int * iabs(a)) by (nonlinear_arith)
        requires
            iabs(h) <= 0x18_0000_0000,
            0 <= sq <= 0x100_0000_0000,
            a >= 1,
            SCALE == 65536,
    {}
    lemma_tdiv_le((h - sq) * (SCALE as int), a, 0x118_0000_0000_0000int);
    lemma_tdiv_le((h + sq) * (SCALE as int), a, 0x118_0000_0000_0000int);
}

/// The point at a root within `ROOT_LIMIT` stays representable.
proof fn lemma_sphere_point_fits(sp: Sphere, r: Ray, t: int)
    requires
        ray_in_bounds(r),
        iabs(t) <= ROOT_LIMIT,
    ensures
        in64(fxmul(r.direction.x as int, t)),
        in64(fxmul(r.direction.y as int, t)),
        in64(fxmul(r.direction.z as int, t)),
        in64(ray_at_x(r, t)),
        in64(ray_at_y(r, t)),
        in64(ray_at_z(r, t)),
{
    lemma_fxmul_bound(r.direction.x as int, t, DIR_LIMIT as int, ROOT_LIMIT as int);
    lemma_fxmul_bound(r.direction.y as int, t, DIR_LIMIT as int, ROOT_LIMIT as int);
    lemma_fxmul_bound(r.direction.z as int, t, DIR_LIMIT as int, ROOT_LIMIT as int);
}

/// The outward normal of a point within the scene stays representable.
proof fn lemma_sphere_normal_fits(sp: Sphere, r: Ray, point: Vec3)
    requires
        sphere_in_bounds(sp),
        sp.radius != 0,
        iabs(point.x as int) <= ORIGIN_LIMIT,
        iabs(point.y as int) <= ORIGIN_LIMIT,
        iabs(point.z as int) <= ORIGIN_LIMIT,
    ensures
        in64(point.x - sp.center.x),
        in64(point.y - sp.center.y),
        in64(point.z - sp.center.z),
        in64(fxdiv(point.x - sp.center.x, sp.radius as int)),
        in64(fxdiv(point.y - sp.center.y, sp.radius as int)),
        in64(fxdiv(point.z - sp.center.z, sp.radius as int)),
{
    let m = (ORIGIN_LIMIT + COORD_LIMIT) as int * (SCALE as int);
    lemma_normal_component_fits(point.x - sp.center.x, sp.radius as int, m);
    lemma_normal_component_fits(point.y - sp.center.y, sp.radius as int, m);
    lemma_normal_component_fits(point.z - sp.center.z, sp.radius as int, m);
}

proof fn lemma_normal_component_fits(num: int, rad: int, m: int)
    requires
        1 <= rad,
        0 <= m <= i64::MAX,
        iabs(num) * (SCALE as int) <= m,
    ensures
        in64(fxdiv(num, rad)),
{
    assert(iabs(num * SCALE) <= m * iabs(rad)) by (nonlinear_arith)
        requires
            1 <= rad,
            0 <= m,
            iabs(num) * (SCALE as int) <= m,
            SCALE == 65536,
    {}
    lemma_tdiv_le(num * (SCALE as int), rad, m);
}


/// A scene primitive: the closed set of surface variants a scene can hold.
#[derive(Clone, Copy, Debug)]
pub enum Surface {
    Sphere(Sphere),
}

/// What a primitive reports for a ray over a distance window.
pub open spec fn surface_hit_spec(s: Surface, r: Ray, t_min: int, t_max: int) -> Option<
    HitRecord,
> {
    match s {
        Surface::Sphere(sp) => sphere_hit_spec(sp, r, t_min, t_max),
    }
}

/// The primitive's coordinates are within the representable scene.
pub open spec fn surface_in_bounds(s: Surface) -> bool {
    match s {
        Surface::Sphere(sp) => sphere_in_bounds(sp),
    }
}

impl Hittable for Surface {
    open spec fn wf(&self) -> bool {
        surface_in_bounds(*self)
    }

    open spec fn hit_spec(&self, r: Ray, t_min: int, t_max: int) -> Option<HitRecord> {
        surface_hit_spec(*self, r, t_min, t_max)
    }

    fn hit(&self, r: &Ray, ray_t: Interval, rec: &mut HitRecord) -> (b: bool) {
        match self {
            Surface::Sphere(sp) => sp.hit(r, ray_t, rec),
        }
    }
}

/// The nearest-hit fold over a member sequence: each member is tested
/// against the window narrowed to the closest accepted distance so far, in
/// insertion order, so the final record is the nearest accepted hit.
pub open spec fn list_hit_spec(objs: Seq<Surface>, r: Ray, t_min: int, t_max: int) -> Option<
    HitRecord,
>
    decreases objs.len(),
{
    if objs.len() == 0 {
        None
    } else {
        let prev = list_hit_spec(objs.drop_last(), r, t_min, t_max);
        let cur_max = match prev {
            Some(rec) => rec.t as int,
            None => t_max,
        };
        match surface_hit_spec(objs.last(), r, t_min, cur_max) {
            Some(rec) => Some(rec),
            None => prev,
        }
    }
}

/// Every member's coordinates are within the representable scene.
pub open spec fn list_in_bounds(objs: Seq<Surface>) -> bool {
    forall|i: int| 0 <= i < objs.len() ==> surface_in_bounds(#[trigger] objs[i])
}

/// An insertion-ordered collection of shared surfaces, itself intersectable:
/// it reports the nearest hit among its members.
pub struct HittableList {
    pub objects: Vec<Arc<Surface>>,
}

impl HittableList {
    /// The members as plain surfaces, in insertion order.
    pub open spec fn surfaces(&self) -> Seq<Surface> {
        Seq::new(self.objects@.len(), |i: int| *self.objects@[i])
    }

    /// An empty scene.
    pub fn new() -> (l: HittableList)
        ensures
            l.surfaces() =~= Seq::<Surface>::empty(),
    {
        HittableList { objects: Vec::new() }
    }

    /// A scene holding one initial surface.
    pub fn from_object(object: Arc<Surface>) -> (l: HittableList)
        ensures
            l.surfaces() =~= Seq::<Surface>::empty().push(*object),
    {
        let mut list = Self::new();
        list.add(object);
        list
    }

    /// Removes every surface.
    pub fn clear(&mut self)
        ensures
            final(self).surfaces() =~= Seq::<Surface>::empty(),
    {
        self.objects.clear();
    }

    /// Appends a surface; insertion order is the order of `add` calls.
    pub fn add(&mut self, object: Arc<Surface>)
        ensures
            final(self).surfaces() =~= old(self).surfaces().push(*object),
    {
        self.objects.push(object);
    }
}

impl Hittable for HittableList {
    open spec fn wf(&self) -> bool {
        list_in_bounds(self.surfaces())
    }

    open spec fn hit_spec(&self, r: Ray, t_min: int, t_max: int) -> Option<HitRecord> {
        list_hit_spec(self.surfaces(), r, t_min, t_max)
    }

    fn hit(&self, r: &Ray, ray_t: Interval, rec: &mut HitRecord) -> (b: bool) {
        let ghost s = self.surfaces();
        let mut temp_rec = HitRecord::default();
        let mut hit_anything = false;
        let mut closest_so_far = ray_t.max;
        let mut i: usize = 0;
        while i < self.objects.len()
            invariant
                self.wf(),
                ray_in_bounds(*r),
                s == self.surfaces(),
                i <= self.objects.len(),
                s.len() == self.objects.len(),
                hit_anything == (list_hit_spec(s.take(i as int), *r, ray_t.min as int, ray_t.max as int) is Some),
                hit_anything ==> Some(*rec) == list_hit_spec(s.take(i as int), *r, ray_t.min as int, ray_t.max as int),
                hit_anything ==> record_in_bounds(*rec),
                hit_anything ==> closest_so_far == rec.t,
                !hit_anything ==> *rec == *old(rec) && closest_so_far == ray_t.max,
            decreases self.objects.len() - i,
        {
            proof {
                assert(s.take(i + 1).drop_last() =~= s.take(i as int));
                assert(s.take(i + 1).last() == s[i as int]);
                assert(surface_in_bounds(s[i as int]));
            }
            let object = &*self.objects[i];
            if object.hit(r, Interval::new(ray_t.min, closest_so_far), &mut temp_rec) {
                hit_anything = true;
                closest_so_far = temp_rec.t;
                *rec = temp_rec.clone();
            }
            i = i + 1;
        }
        proof {
            assert(s.take(s.len() as int) =~= s);
        }
        hit_anything
    }
}


/// Law: a record a sphere reports lies strictly inside the queried window:
/// the accepted root respects the open interval on both sides.
pub proof fn lemma_sphere_hit_in_interval(sp: Sphere, r: Ray, t_min: int, t_max: int)
    requires
        sphere_hit_spec(sp, r, t_min, t_max) is Some,
    ensures
        t_min < sphere_hit_spec(sp, r, t_min, t_max).unwrap().t < t_max,
{
}

/// Law: the reported normal is oriented against the incoming ray: its
/// fixed-point dot with the ray direction is never positive, and is
/// strictly negative whenever the front face was met.
pub proof fn lemma_sphere_normal_against_ray(sp: Sphere, r: Ray, t_min: int, t_max: int)
    requires
        sphere_hit_spec(sp, r, t_min, t_max) is Some,
    ensures
        dot_spec(r.direction, sphere_hit_spec(sp, r, t_min, t_max).unwrap().normal) <= 0,
        sphere_hit_spec(sp, r, t_min, t_max).unwrap().front_face ==> dot_spec(
            r.direction,
            sphere_hit_spec(sp, r, t_min, t_max).unwrap().normal,
        ) < 0,
{
    let rec = sphere_hit_spec(sp, r, t_min, t_max).unwrap();
    let t = rec.t as int;
    lemma_record_normal_against_ray(sp, r, t);
}

/// The record built at any root has its normal oriented against the ray.
proof fn lemma_record_normal_against_ray(sp: Sphere, r: Ray, t: int)
    requires
        sphere_record_at(sp, r, t) is Some,
    ensures
        dot_spec(r.direction, sphere_record_at(sp, r, t).unwrap().normal) <= 0,
        sphere_record_at(sp, r, t).unwrap().front_face ==> dot_spec(
            r.direction,
            sphere_record_at(sp, r, t).unwrap().normal,
        ) < 0,
{
    let px = ray_at_x(r, t);
    let py = ray_at_y(r, t);
    let pz = ray_at_z(r, t);
    let nx = fxdiv(px - sp.center.x, sp.radius as int);
    let ny = fxdiv(py - sp.center.y, sp.radius as int);
    let nz = fxdiv(pz - sp.center.z, sp.radius as int);
    let dx = r.direction.x as int;
    let dy = r.direction.y as int;
    let dz = r.direction.z as int;
    assert(dx * (-nx) == -(dx * nx)) by (nonlinear_arith) {}
    assert(dy * (-ny) == -(dy * ny)) by (nonlinear_arith) {}
    assert(dz * (-nz) == -(dz * nz)) by (nonlinear_arith) {}
    crate::fixed::lemma_tdiv_neg(dx * nx, SCALE as int);
    crate::fixed::lemma_tdiv_neg(dy * ny, SCALE as int);
    crate::fixed::lemma_tdiv_neg(dz * nz, SCALE as int);
}

/// Law, member form: what a surface reports lies strictly inside the window.
pub proof fn lemma_surface_hit_in_interval(s: Surface, r: Ray, t_min: int, t_max: int)
    requires
        surface_hit_spec(s, r, t_min, t_max) is Some,
    ensures
        t_min < surface_hit_spec(s, r, t_min, t_max).unwrap().t < t_max,
{
    match s {
        Surface::Sphere(sp) => lemma_sphere_hit_in_interval(sp, r, t_min, t_max),
    }
}

/// Shrinking the far bound cannot create a hit: a sphere that reports no
/// hit nearer than `m` reports none over the window capped at `m`.
pub proof fn lemma_sphere_hit_monotone(sp: Sphere, r: Ray, t_min: int, m: int, t_max: int)
    requires
        m <= t_max,
        match sphere_hit_spec(sp, r, t_min, t_max) {
            Option::None => true,
            Option::Some(rec) => m <= rec.t,
        },
    ensures
        sphere_hit_spec(sp, r, t_min, m) is None,
{
    let dx = r.direction.x as int;
    let dy = r.direction.y as int;
    let dz = r.direction.z as int;
    let ocx = sp.center.x - r.origin.x;
    let ocy = sp.center.y - r.origin.y;
    let ocz = sp.center.z - r.origin.z;
    let a = dot3(dx, dy, dz, dx, dy, dz);
    let h = dot3(dx, dy, dz, ocx, ocy, ocz);
    let c = dot3(ocx, ocy, ocz, ocx, ocy, ocz) - fxmul(sp.radius as int, sp.radius as int);
    let disc = fxmul(h, h) - fxmul(a, c);
    if disc >= 0 && a != 0 && sp.radius != 0 {
        let sq = fxsqrt(disc);
        let near = fxdiv(h - sq, a);
        let far = fxdiv(h + sq, a);
        assert(sq >= 0);
        lemma_sqlen_nonneg(r.direction);
        assert(a > 0);
        crate::fixed::lemma_tdiv_monotone((h - sq) * (SCALE as int), (h + sq) * (SCALE as int), a);
        assert(near <= far);
        if t_min < near < t_max {
            match sphere_record_at(sp, r, near) {
                Option::Some(rec) => {
                    assert(rec.t == near);
                },
                Option::None => {},
            }
        }
    }
}

/// Shrinking the far bound cannot create a hit, member form.
pub proof fn lemma_surface_hit_monotone(s: Surface, r: Ray, t_min: int, m: int, t_max: int)
    requires
        m <= t_max,
        match surface_hit_spec(s, r, t_min, t_max) {
            Option::None => true,
            Option::Some(rec) => m <= rec.t,
        },
    ensures
        surface_hit_spec(s, r, t_min, m) is None,
{
    match s {
        Surface::Sphere(sp) => lemma_sphere_hit_monotone(sp, r, t_min, m, t_max),
    }
}

/// When the fold reports no hit, no member hits anywhere in the window.
pub proof fn lemma_list_miss_all(objs: Seq<Surface>, r: Ray, t_min: int, t_max: int, k: int)
    requires
        list_hit_spec(objs, r, t_min, t_max) is None,
        0 <= k < objs.len(),
    ensures
        surface_hit_spec(objs[k], r, t_min, t_max) is None,
    decreases objs.len(),
{
    let prev = list_hit_spec(objs.drop_last(), r, t_min, t_max);
    assert(prev is None);
    if k == objs.len() - 1 {
        assert(objs.last() == objs[k]);
    } else {
        lemma_list_miss_all(objs.drop_last(), r, t_min, t_max, k);
        assert(objs.drop_last()[k] == objs[k]);
    }
}

/// Law: the aggregate's record is the nearest hit — however the members
/// are ordered, none of them reports a hit strictly closer than it.
pub proof fn lemma_list_hit_nearest(objs: Seq<Surface>, r: Ray, t_min: int, t_max: int, k: int)
    requires
        list_hit_spec(objs, r, t_min, t_max) is Some,
        0 <= k < objs.len(),
    ensures
        surface_hit_spec(
            objs[k],
            r,
            t_min,
            list_hit_spec(objs, r, t_min, t_max).unwrap().t as int,
        ) is None,
    decreases objs.len(),
{
    let res = list_hit_spec(objs, r, t_min, t_max).unwrap();
    let prev = list_hit_spec(objs.drop_last(), r, t_min, t_max);
    let cur_max = match prev {
        Option::Some(rec) => rec.t as int,
        Option::None => t_max,
    };
    let last_hit = surface_hit_spec(objs.last(), r, t_min, cur_max);
    match last_hit {
        Option::Some(rec) => {
            assert(res == rec);
            lemma_surface_hit_in_interval(objs.last(), r, t_min, cur_max);
            if k == objs.len() - 1 {
                assert(objs.last() == objs[k]);
                lemma_surface_hit_monotone(objs.last(), r, t_min, rec.t as int, cur_max);
            } else {
                assert(objs.drop_last()[k] == objs[k]);
                match prev {
                    Option::Some(prev_rec) => {
                        lemma_list_hit_nearest(objs.drop_last(), r, t_min, t_max, k);
                        lemma_surface_hit_monotone(
                            objs[k],
                            r,
                            t_min,
                            rec.t as int,
                            prev_rec.t as int,
                        );
                    },
                    Option::None => {
                        lemma_list_miss_all(objs.drop_last(), r, t_min, t_max, k);
                        lemma_surface_hit_monotone(objs[k], r, t_min, rec.t as int, t_max);
                    },
                }
            }
        },
        Option::None => {
            if k == objs.len() - 1 {
                assert(objs.last() == objs[k]);
            } else {
                assert(objs.drop_last()[k] == objs[k]);
                lemma_list_hit_nearest(objs.drop_last(), r, t_min, t_max, k);
            }
        },
    }
}


/// Widening the far bound preserves a reported hit: what a sphere reports
/// over a window it reports unchanged over any window with a farther bound.
pub proof fn lemma_sphere_hit_widen(sp: Sphere, r: Ray, t_min: int, m: int, t_max: int)
    requires
        m <= t_max,
        sphere_hit_spec(sp, r, t_min, m) is Some,
    ensures
        sphere_hit_spec(sp, r, t_min, t_max) == sphere_hit_spec(sp, r, t_min, m),
{
    let dx = r.direction.x as int;
    let dy = r.direction.y as int;
    let dz = r.direction.z as int;
    let ocx = sp.center.x - r.origin.x;
    let ocy = sp.center.y - r.origin.y;
    let ocz = sp.center.z - r.origin.z;
    let a = dot3(dx, dy, dz, dx, dy, dz);
    let h = dot3(dx, dy, dz, ocx, ocy, ocz);
    let c = dot3(ocx, ocy, ocz, ocx, ocy, ocz) - fxmul(sp.radius as int, sp.radius as int);
    let disc = fxmul(h, h) - fxmul(a, c);
    let sq = fxsqrt(disc);
    lemma_sqlen_nonneg(r.direction);
    crate::fixed::lemma_tdiv_monotone((h - sq) * (SCALE as int), (h + sq) * (SCALE as int), a);
}

/// Widening the far bound preserves a reported hit, member form.
pub proof fn lemma_surface_hit_widen(s: Surface, r: Ray, t_min: int, m: int, t_max: int)
    requires
        m <= t_max,
        surface_hit_spec(s, r, t_min, m) is Some,
    ensures
        surface_hit_spec(s, r, t_min, t_max) == surface_hit_spec(s, r, t_min, m),
{
    match s {
        Surface::Sphere(sp) => lemma_sphere_hit_widen(sp, r, t_min, m, t_max),
    }
}

/// Law: any record the aggregate reports lies strictly inside the queried
/// window.
pub proof fn lemma_list_hit_in_interval(objs: Seq<Surface>, r: Ray, t_min: int, t_max: int)
    requires
        list_hit_spec(objs, r, t_min, t_max) is Some,
    ensures
        t_min < list_hit_spec(objs, r, t_min, t_max).unwrap().t < t_max,
    decreases objs.len(),
{
    let prev = list_hit_spec(objs.drop_last(), r, t_min, t_max);
    let cur_max = match prev {
        Option::Some(rec) => rec.t as int,
        Option::None => t_max,
    };
    if prev is Some {
        lemma_list_hit_in_interval(objs.drop_last(), r, t_min, t_max);
    }
    match surface_hit_spec(objs.last(), r, t_min, cur_max) {
        Option::Some(rec) => {
            lemma_surface_hit_in_interval(objs.last(), r, t_min, cur_max);
        },
        Option::None => {},
    }
}

/// Law: the record the aggregate reports is one of its members' own
/// reports over the full window; with `lemma_list_hit_nearest` it is the
/// nearest of them, whatever the insertion order.
pub proof fn lemma_list_hit_is_member_hit(objs: Seq<Surface>, r: Ray, t_min: int, t_max: int)
    requires
        list_hit_spec(objs, r, t_min, t_max) is Some,
    ensures
        exists|k: int|
            0 <= k < objs.len() && surface_hit_spec(#[trigger] objs[k], r, t_min, t_max)
                == list_hit_spec(objs, r, t_min, t_max),
    decreases objs.len(),
{
    let res = list_hit_spec(objs, r, t_min, t_max);
    let prev = list_hit_spec(objs.drop_last(), r, t_min, t_max);
    let cur_max = match prev {
        Option::Some(rec) => rec.t as int,
        Option::None => t_max,
    };
    match surface_hit_spec(objs.last(), r, t_min, cur_max) {
        Option::Some(rec) => {
            if prev is Some {
                lemma_list_hit_in_interval(objs.drop_last(), r, t_min, t_max);
            }
            lemma_surface_hit_widen(objs.last(), r, t_min, cur_max, t_max);
            let k = objs.len() - 1;
            assert(objs[k as int] == objs.last());
            assert(surface_hit_spec(objs[k as int], r, t_min, t_max) == res);
        },
        Option::None => {
            lemma_list_hit_is_member_hit(objs.drop_last(), r, t_min, t_max);
            let k0 = choose|k: int|
                0 <= k < objs.drop_last().len() && surface_hit_spec(
                    #[trigger] objs.drop_last()[k],
                    r,
                    t_min,
                    t_max,
                ) == prev;
            assert(objs.drop_last()[k0] == objs[k0]);
            assert(surface_hit_spec(objs[k0], r, t_min, t_max) == res);
        },
    }
}


/// Law: a reported hit is stable under re-querying with the tight window
/// around its own distance: the sphere reports the same record over
/// `(t - 1, t + 1)`.
pub proof fn lemma_sphere_hit_requery(sp: Sphere, r: Ray, t_min: int, t_max: int)
    requires
        sphere_hit_spec(sp, r, t_min, t_max) is Some,
    ensures
        ({
            let rec = sphere_hit_spec(sp, r, t_min, t_max).unwrap();
            sphere_hit_spec(sp, r, rec.t - 1, rec.t + 1) == sphere_hit_spec(sp, r, t_min, t_max)
        }),
{
    let rec = sphere_hit_spec(sp, r, t_min, t_max).unwrap();
    let dx = r.direction.x as int;
    let dy = r.direction.y as int;
    let dz = r.direction.z as int;
    let ocx = sp.center.x - r.origin.x;
    let ocy = sp.center.y - r.origin.y;
    let ocz = sp.center.z - r.origin.z;
    let a = dot3(dx, dy, dz, dx, dy, dz);
    let h = dot3(dx, dy, dz, ocx, ocy, ocz);
    let c = dot3(ocx, ocy, ocz, ocx, ocy, ocz) - fxmul(sp.radius as int, sp.radius as int);
    let disc = fxmul(h, h) - fxmul(a, c);
    let sq = fxsqrt(disc);
    lemma_sqlen_nonneg(r.direction);
    assert(a > 0);
    crate::fixed::lemma_tdiv_monotone((h - sq) * (SCALE as int), (h + sq) * (SCALE as int), a);
    let near = fxdiv(h - sq, a);
    let far = fxdiv(h + sq, a);
    assert(near <= far);
    if t_min < near < t_max {
        assert(rec.t == near);
    } else {
        assert(rec.t == far);
        assert(near <= t_min);
    }
}


/// Narrowing the far bound onto a reported hit preserves it: what a sphere
/// reports with distance below `m` it reports unchanged over the window
/// capped at `m`.
pub proof fn lemma_sphere_hit_narrow(sp: Sphere, r: Ray, t_min: int, m: int, t_max: int)
    requires
        m <= t_max,
        sphere_hit_spec(sp, r, t_min, t_max) is Some,
        sphere_hit_spec(sp, r, t_min, t_max).unwrap().t < m,
    ensures
        sphere_hit_spec(sp, r, t_min, m) == sphere_hit_spec(sp, r, t_min, t_max),
{
    let rec = sphere_hit_spec(sp, r, t_min, t_max).unwrap();
    let dx = r.direction.x as int;
    let dy = r.direction.y as int;
    let dz = r.direction.z as int;
    let ocx = sp.center.x - r.origin.x;
    let ocy = sp.center.y - r.origin.y;
    let ocz = sp.center.z - r.origin.z;
    let a = dot3(dx, dy, dz, dx, dy, dz);
    let h = dot3(dx, dy, dz, ocx, ocy, ocz);
    let c = dot3(ocx, ocy, ocz, ocx, ocy, ocz) - fxmul(sp.radius as int, sp.radius as int);
    let disc = fxmul(h, h) - fxmul(a, c);
    let sq = fxsqrt(disc);
    lemma_sqlen_nonneg(r.direction);
    crate::fixed::lemma_tdiv_monotone((h - sq) * (SCALE as int), (h + sq) * (SCALE as int), a);
    let near = fxdiv(h - sq, a);
    let far = fxdiv(h + sq, a);
    assert(near <= far);
    if t_min < near < t_max {
        assert(rec.t == near);
    } else {
        assert(rec.t == far);
        assert(near <= t_min);
    }
}

/// Narrowing the far bound onto a reported hit preserves it, member form.
pub proof fn lemma_surface_hit_narrow(s: Surface, r: Ray, t_min: int, m: int, t_max: int)
    requires
        m <= t_max,
        surface_hit_spec(s, r, t_min, t_max) is Some,
        surface_hit_spec(s, r, t_min, t_max).unwrap().t < m,
    ensures
        surface_hit_spec(s, r, t_min, m) == surface_hit_spec(s, r, t_min, t_max),
{
    match s {
        Surface::Sphere(sp) => lemma_sphere_hit_narrow(sp, r, t_min, m, t_max),
    }
}

/// Law: the aggregate's answer is independent of insertion order: two
/// scenes holding the same surfaces as multisets agree on whether a ray
/// hits and at which distance.  Only on an exact distance tie may the
/// record itself come from a different member.
pub proof fn lemma_list_hit_order_independent(
    objs1: Seq<Surface>,
    objs2: Seq<Surface>,
    r: Ray,
    t_min: int,
    t_max: int,
)
    requires
        objs1.to_multiset() == objs2.to_multiset(),
    ensures
        (list_hit_spec(objs1, r, t_min, t_max) is Some) == (list_hit_spec(objs2, r, t_min, t_max)
            is Some),
        list_hit_spec(objs1, r, t_min, t_max) is Some ==> list_hit_spec(
            objs1,
            r,
            t_min,
            t_max,
        ).unwrap().t == list_hit_spec(objs2, r, t_min, t_max).unwrap().t,
{
    let res1 = list_hit_spec(objs1, r, t_min, t_max);
    let res2 = list_hit_spec(objs2, r, t_min, t_max);
    if res1 is Some {
        lemma_list_hit_misses_everywhere(objs1, objs2, r, t_min, t_max);
    }
    if res2 is Some {
        lemma_list_hit_misses_everywhere(objs2, objs1, r, t_min, t_max);
    }
    if res1 is Some && res2 is Some {
        lemma_list_hit_no_closer_elsewhere(objs1, objs2, r, t_min, t_max);
        lemma_list_hit_no_closer_elsewhere(objs2, objs1, r, t_min, t_max);
    }
}

/// A hit in one scene rules out a total miss in a scene with the same
/// members.
proof fn lemma_list_hit_misses_everywhere(
    objs1: Seq<Surface>,
    objs2: Seq<Surface>,
    r: Ray,
    t_min: int,
    t_max: int,
)
    requires
        objs1.to_multiset() == objs2.to_multiset(),
        list_hit_spec(objs1, r, t_min, t_max) is Some,
    ensures
        list_hit_spec(objs2, r, t_min, t_max) is Some,
{
    objs1.to_multiset_ensures();
    objs2.to_multiset_ensures();
    lemma_list_hit_is_member_hit(objs1, r, t_min, t_max);
    let res1 = list_hit_spec(objs1, r, t_min, t_max);
    let k1 = choose|k: int|
        0 <= k < objs1.len() && surface_hit_spec(#[trigger] objs1[k], r, t_min, t_max) == res1;
    let member = objs1[k1];
    assert(objs1.contains(member));
    assert(objs2.to_multiset().count(member) > 0);
    assert(objs2.contains(member));
    let k2 = choose|k: int| 0 <= k < objs2.len() && objs2[k] == member;
    if list_hit_spec(objs2, r, t_min, t_max) is None {
        lemma_list_miss_all(objs2, r, t_min, t_max, k2);
    }
}

/// The winning distance of one scene is no larger than that of a scene
/// with the same members.
proof fn lemma_list_hit_no_closer_elsewhere(
    objs1: Seq<Surface>,
    objs2: Seq<Surface>,
    r: Ray,
    t_min: int,
    t_max: int,
)
    requires
        objs1.to_multiset() == objs2.to_multiset(),
        list_hit_spec(objs1, r, t_min, t_max) is Some,
        list_hit_spec(objs2, r, t_min, t_max) is Some,
    ensures
        list_hit_spec(objs2, r, t_min, t_max).unwrap().t <= list_hit_spec(
            objs1,
            r,
            t_min,
            t_max,
        ).unwrap().t,
{
    objs1.to_multiset_ensures();
    objs2.to_multiset_ensures();
    let res1 = list_hit_spec(objs1, r, t_min, t_max);
    let rec1 = res1.unwrap();
    let rec2 = list_hit_spec(objs2, r, t_min, t_max).unwrap();
    if rec2.t > rec1.t {
        lemma_list_hit_is_member_hit(objs1, r, t_min, t_max);
        lemma_list_hit_in_interval(objs2, r, t_min, t_max);
        let k1 = choose|k: int|
            0 <= k < objs1.len() && surface_hit_spec(#[trigger] objs1[k], r, t_min, t_max) == res1;
        let member = objs1[k1];
        assert(objs1.contains(member));
        assert(objs2.to_multiset().count(member) > 0);
        assert(objs2.contains(member));
        let k2 = choose|k: int| 0 <= k < objs2.len() && objs2[k] == member;
        lemma_surface_hit_narrow(member, r, t_min, rec2.t as int, t_max);
        lemma_list_hit_nearest(objs2, r, t_min, t_max, k2);
        assert(false);
    }
}

} // verus!
