use std::sync::Arc;

use raytracer::fixed::SCALE;
use raytracer::ray::{HitRecord, Hittable, HittableList, Interval, Ray, Sphere, Surface};
use raytracer::rtweekend::INFINITY;
use raytracer::vec3::Vec3;

#[test]
fn test_at() {
    let ray = Ray::new(
        Vec3::new(SCALE, SCALE, SCALE),
        Vec3::new(SCALE, 2 * SCALE, 3 * SCALE),
    );
    assert_eq!(
        ray.at(3 * SCALE),
        Vec3::new(4 * SCALE, 7 * SCALE, 10 * SCALE)
    );
}

#[test]
fn empty_interval_holds_nothing() {
    let empty = Interval::default();
    assert!(!empty.contains(0));
    assert!(!empty.contains(i64::MAX));
    assert!(!empty.contains(i64::MIN));
    assert!(!empty.surrounds(0));
}

#[test]
fn interval_membership_and_clamp() {
    let window = Interval::new(SCALE, 3 * SCALE);
    assert!(window.contains(SCALE));
    assert!(window.contains(3 * SCALE));
    assert!(!window.surrounds(SCALE));
    assert!(!window.surrounds(3 * SCALE));
    assert!(window.surrounds(2 * SCALE));
    assert_eq!(window.size(), 2 * SCALE);
    assert_eq!(window.clamp(0), SCALE);
    assert_eq!(window.clamp(5 * SCALE), 3 * SCALE);
    assert_eq!(window.clamp(2 * SCALE), 2 * SCALE);
}

#[test]
fn sphere_front_hit_takes_near_root() {
    // unit-length ray straight at a sphere half a unit behind the image
    // plane: the near root is at t = 0.5
    let sphere = Sphere::new(Vec3::new(0, 0, -SCALE), SCALE / 2);
    let ray = Ray::new(Vec3::new(0, 0, 0), Vec3::new(0, 0, -SCALE));
    let mut rec = HitRecord::default();
    assert!(sphere.hit(&ray, Interval::new(65, INFINITY), &mut rec));
    assert_eq!(rec.t, SCALE / 2);
    assert_eq!(rec.point, Vec3::new(0, 0, -SCALE / 2));
    assert_eq!(rec.normal, Vec3::new(0, 0, SCALE));
    assert!(rec.front_face);
    // the accepted root lies strictly inside the queried window
    assert!(65 < rec.t && rec.t < INFINITY);
    // the normal is oriented against the incoming ray
    assert!(ray.direction.dot(&rec.normal) < 0);
    // re-querying with the tight window around the root reports the same hit
    let mut rec2 = HitRecord::default();
    assert!(sphere.hit(&ray, Interval::new(rec.t - 1, rec.t + 1), &mut rec2));
    assert_eq!(rec2, rec);
}

#[test]
fn sphere_inside_hit_falls_through_to_far_root() {
    // a ray starting at the centre: the near root is behind the origin, so
    // the far root is taken and the back face is reported
    let sphere = Sphere::new(Vec3::new(0, 0, -SCALE), SCALE / 2);
    let ray = Ray::new(Vec3::new(0, 0, -SCALE), Vec3::new(0, 0, -SCALE));
    let mut rec = HitRecord::default();
    assert!(sphere.hit(&ray, Interval::new(65, INFINITY), &mut rec));
    assert_eq!(rec.t, SCALE / 2);
    assert!(!rec.front_face);
    assert_eq!(rec.normal, Vec3::new(0, 0, SCALE));
    assert!(ray.direction.dot(&rec.normal) <= 0);
}

#[test]
fn sphere_miss_leaves_record_untouched() {
    let sphere = Sphere::new(Vec3::new(0, 0, -4 * SCALE), SCALE / 2);
    let ray = Ray::new(Vec3::new(0, 0, 0), Vec3::new(0, SCALE, 0));
    let mut rec = HitRecord::default();
    let before = rec.clone();
    assert!(!sphere.hit(&ray, Interval::new(65, INFINITY), &mut rec));
    assert_eq!(rec, before);
}

#[test]
fn sphere_negative_radius_clamps_to_zero() {
    let sphere = Sphere::new(Vec3::new(0, 0, 0), -5 * SCALE);
    assert_eq!(sphere.radius, 0);
}

#[test]
fn zero_radius_sphere_never_hits() {
    let sphere = Sphere::new(Vec3::new(0, 0, -SCALE), 0);
    let ray = Ray::new(Vec3::new(0, 0, 0), Vec3::new(0, 0, -SCALE));
    let mut rec = HitRecord::default();
    assert!(!sphere.hit(&ray, Interval::new(65, INFINITY), &mut rec));
}

#[test]
fn hit_outside_window_is_rejected() {
    let sphere = Sphere::new(Vec3::new(0, 0, -SCALE), SCALE / 2);
    let ray = Ray::new(Vec3::new(0, 0, 0), Vec3::new(0, 0, -SCALE));
    let mut rec = HitRecord::default();
    // both roots (0.5 and 1.5) lie outside (2, 3)
    assert!(!sphere.hit(&ray, Interval::new(2 * SCALE, 3 * SCALE), &mut rec));
}

#[test]
fn aggregate_reports_nearest_of_overlapping_spheres() {
    // two overlapping spheres along one ray: whichever insertion order,
    // the reported hit is the smaller t (1.0 on the nearer sphere)
    let near = Sphere::new(Vec3::new(0, 0, -2 * SCALE), SCALE);
    let far = Sphere::new(Vec3::new(0, 0, -3 * SCALE), SCALE);
    let ray = Ray::new(Vec3::new(0, 0, 0), Vec3::new(0, 0, -SCALE));

    let mut world_a = HittableList::new();
    world_a.add(Arc::new(Surface::Sphere(near)));
    world_a.add(Arc::new(Surface::Sphere(far)));
    let mut rec_a = HitRecord::default();
    assert!(world_a.hit(&ray, Interval::new(65, INFINITY), &mut rec_a));

    let mut world_b = HittableList::new();
    world_b.add(Arc::new(Surface::Sphere(far)));
    world_b.add(Arc::new(Surface::Sphere(near)));
    let mut rec_b = HitRecord::default();
    assert!(world_b.hit(&ray, Interval::new(65, INFINITY), &mut rec_b));

    assert_eq!(rec_a.t, SCALE);
    assert_eq!(rec_b.t, SCALE);
    assert_eq!(rec_a, rec_b);
}

#[test]
fn aggregate_construction_helpers() {
    let sphere = Sphere::new(Vec3::new(0, 0, -SCALE), SCALE / 2);
    let mut world = HittableList::from_object(Arc::new(Surface::Sphere(sphere)));
    let ray = Ray::new(Vec3::new(0, 0, 0), Vec3::new(0, 0, -SCALE));
    let mut rec = HitRecord::default();
    assert!(world.hit(&ray, Interval::new(65, INFINITY), &mut rec));
    world.clear();
    let mut rec2 = HitRecord::default();
    assert!(!world.hit(&ray, Interval::new(65, INFINITY), &mut rec2));
}

#[test]
fn hit_point_satisfies_sphere_equation() {
    // substituting the accepted hit point into the implicit sphere
    // equation |P - C|^2 = r^2 holds exactly on an axis-aligned hit and
    // within a few fixed-point units on an oblique one
    let sphere = Sphere::new(Vec3::new(0, 0, -SCALE), SCALE / 2);
    let ray = Ray::new(Vec3::new(0, 0, 0), Vec3::new(0, 0, -SCALE));
    let mut rec = HitRecord::default();
    assert!(sphere.hit(&ray, Interval::new(65, INFINITY), &mut rec));
    let lhs = rec.point.sub(sphere.center).squared_length();
    let rr = raytracer::fixed::fx_mul(sphere.radius, sphere.radius);
    assert_eq!(lhs, rr);

    let oblique = Sphere::new(Vec3::new(0, 0, -3 * SCALE), SCALE);
    let slanted = Ray::new(Vec3::new(0, 0, 0), Vec3::new(13107, 6554, -SCALE));
    let mut rec2 = HitRecord::default();
    assert!(oblique.hit(&slanted, Interval::new(65, INFINITY), &mut rec2));
    let lhs2 = rec2.point.sub(oblique.center).squared_length();
    let rr2 = raytracer::fixed::fx_mul(oblique.radius, oblique.radius);
    assert!((lhs2 - rr2).abs() <= 8, "residual {}", lhs2 - rr2);
}
