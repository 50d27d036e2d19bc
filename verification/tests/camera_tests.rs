use std::sync::Arc;

use raytracer::camera::Camera;
use raytracer::fixed::SCALE;
use raytracer::ray::{HittableList, Ray, Sphere, Surface};
use raytracer::rtweekend::{degrees_to_radians, RandomSource, PI};
use raytracer::vec3::Vec3;

fn two_sphere_world() -> HittableList {
    let mut world = HittableList::new();
    world.add(Arc::new(Surface::Sphere(Sphere::new(
        Vec3::new(0, 0, -SCALE),
        SCALE / 2,
    ))));
    world.add(Arc::new(Surface::Sphere(Sphere::new(
        Vec3::new(0, -6586368, -SCALE),
        100 * SCALE,
    ))));
    world
}

#[test]
fn depth_zero_is_black() {
    let world = two_sphere_world();
    let mut rng = RandomSource::seeded(1);
    let ray = Ray::new(Vec3::new(0, 0, 0), Vec3::new(0, 0, -SCALE));
    let color = Camera::ray_color(&ray, 0, &world, &mut rng);
    assert_eq!(color, Vec3::new(0, 0, 0));
}

#[test]
fn miss_straight_up_is_pure_sky() {
    let world = HittableList::new();
    let mut rng = RandomSource::seeded(1);
    let ray = Ray::new(Vec3::new(0, 0, 0), Vec3::new(0, SCALE, 0));
    let color = Camera::ray_color(&ray, 10, &world, &mut rng);
    assert_eq!(color, Vec3::new(32768, 45875, 65536));
}

#[test]
fn miss_straight_down_is_pure_white() {
    let world = HittableList::new();
    let mut rng = RandomSource::seeded(1);
    let ray = Ray::new(Vec3::new(0, 0, 0), Vec3::new(0, -SCALE, 0));
    let color = Camera::ray_color(&ray, 10, &world, &mut rng);
    assert_eq!(color, Vec3::new(SCALE, SCALE, SCALE));
}

#[test]
fn bounce_halves_brightness() {
    // one diffuse bounce keeps half of whatever the scattered ray returns,
    // so every channel is at most half of the brightest sky value
    let world = two_sphere_world();
    let mut rng = RandomSource::seeded(5);
    let ray = Ray::new(Vec3::new(0, 0, 0), Vec3::new(0, 0, -SCALE));
    let color = Camera::ray_color(&ray, 50, &world, &mut rng);
    assert!(color.x <= SCALE / 2);
    assert!(color.y <= SCALE / 2);
    assert!(color.z <= SCALE / 2);
    assert!(color.x >= 0 && color.y >= 0 && color.z >= 0);
}

#[test]
fn render_fills_one_pixel_per_position() {
    let world = two_sphere_world();
    let mut rng = RandomSource::seeded(3);
    let mut camera = Camera::default();
    camera.aspect_ratio = 16 * SCALE / 9;
    camera.img_width = 8;
    camera.samples_per_pixel = 2;
    camera.max_depth = 4;
    let pixels = camera.render(&world, &mut rng);
    // 8 / (16/9) = 4.5 rounds to 5
    assert_eq!(camera.img_height, 5);
    assert_eq!(pixels.len(), 40);
    for p in &pixels {
        assert_eq!(p.a, 255);
    }
}

#[test]
fn render_two_sphere_scene_reproduces_byte_stream() {
    // the core regression scenario: a 4x2 render of the two-sphere scene
    // with one sample per pixel and the deterministic source, emitted in
    // the scanline text form, matches this exact stream
    let world = two_sphere_world();
    let mut rng = RandomSource::seeded(7);
    let mut camera = Camera::default();
    camera.aspect_ratio = 2 * SCALE;
    camera.img_width = 4;
    camera.samples_per_pixel = 1;
    camera.max_depth = 50;
    let pixels = camera.render(&world, &mut rng);
    let mut out = format!("P3\n{} {}\n255\n", camera.img_width, camera.img_height);
    for p in &pixels {
        out += &format!("{} {} {}\n", p.r, p.g, p.b);
    }
    let expected = "P3\n4 2\n255\n\
        214 232 255\n\
        200 224 255\n\
        204 226 255\n\
        207 228 255\n\
        224 237 255\n\
        65 76 90\n\
        154 165 181\n\
        132 153 181\n";
    assert_eq!(out, expected);
}

#[test]
fn seeded_renders_are_reproducible() {
    let world = two_sphere_world();
    let mut camera_a = Camera::default();
    camera_a.aspect_ratio = 2 * SCALE;
    camera_a.img_width = 4;
    camera_a.samples_per_pixel = 2;
    camera_a.max_depth = 8;
    let mut camera_b = Camera::default();
    camera_b.aspect_ratio = 2 * SCALE;
    camera_b.img_width = 4;
    camera_b.samples_per_pixel = 2;
    camera_b.max_depth = 8;
    let mut rng_a = RandomSource::seeded(99);
    let mut rng_b = RandomSource::seeded(99);
    let pixels_a = camera_a.render(&world, &mut rng_a);
    let pixels_b = camera_b.render(&world, &mut rng_b);
    assert_eq!(pixels_a, pixels_b);
}

#[test]
fn thread_backed_draws_stay_in_range() {
    let mut rng = RandomSource::from_entropy();
    let mut distinct = false;
    let first = rng.random_double();
    assert!(0 <= first && first < SCALE);
    for _ in 0..100 {
        let r = rng.random_double();
        assert!(0 <= r && r < SCALE);
        if r != first {
            distinct = true;
        }
        let s = rng.random_double_in_range(5, 6);
        assert_eq!(s, 5);
        let t = rng.random_double_in_range(-7 * SCALE, 3 * SCALE);
        assert!(-7 * SCALE <= t && t < 3 * SCALE);
    }
    // an actual generator varies; 101 equal draws would mean no draw at all
    assert!(distinct);
}

#[test]
fn half_turn_in_radians_is_pi() {
    assert_eq!(degrees_to_radians(180 * SCALE), PI);
    assert_eq!(degrees_to_radians(0), 0);
}
