use raytracer::fixed::SCALE;
use raytracer::rtweekend::RandomSource;
use raytracer::vec3::{Rgba8, Vec3};

#[test]
fn test_eq() {
    assert_eq!(
        Vec3::new(SCALE, -2 * SCALE, 0),
        Vec3::new(SCALE, -2 * SCALE, 0)
    );
    assert_ne!(Vec3::new(SCALE, -2 * SCALE, 0), Vec3::new(-SCALE, 0, 0));
}

#[test]
fn test_add() {
    let vec1 = Vec3::new(SCALE, 2 * SCALE, 3 * SCALE).add(Vec3::new(4 * SCALE, -5 * SCALE, 0));
    let vec2 = Vec3::new(5 * SCALE, -3 * SCALE, 3 * SCALE);
    assert_eq!(vec1, vec2);
}

#[test]
fn test_sub() {
    let vec1 = Vec3::new(SCALE, 2 * SCALE, 3 * SCALE).sub(Vec3::new(4 * SCALE, -5 * SCALE, 0));
    let vec2 = Vec3::new(-3 * SCALE, 7 * SCALE, 3 * SCALE);
    assert_eq!(vec1, vec2);
}

#[test]
fn test_mul() {
    assert_eq!(
        Vec3::new(SCALE, -2 * SCALE, 0).mul(5 * SCALE),
        Vec3::new(5 * SCALE, -10 * SCALE, 0)
    );
}

#[test]
fn test_div() {
    assert_eq!(
        Vec3::new(SCALE, -2 * SCALE, 0).div(2 * SCALE),
        Vec3::new(SCALE / 2, -SCALE, 0)
    );
}

#[test]
fn test_neg() {
    assert_eq!(
        Vec3::new(SCALE, -2 * SCALE, 3 * SCALE).neg(),
        Vec3::new(-SCALE, 2 * SCALE, -3 * SCALE)
    );
}

#[test]
fn test_dot() {
    assert_eq!(
        Vec3::new(SCALE, 2 * SCALE, 3 * SCALE).dot(&Vec3::new(-2 * SCALE, 2 * SCALE, 3 * SCALE)),
        -2 * SCALE + 4 * SCALE + 9 * SCALE
    );
}

#[test]
fn test_cross() {
    assert_eq!(
        Vec3::new(SCALE, 2 * SCALE, 3 * SCALE).cross(&Vec3::new(2 * SCALE, 3 * SCALE, 4 * SCALE)),
        Vec3::new(8 * SCALE - 9 * SCALE, 6 * SCALE - 4 * SCALE, 3 * SCALE - 4 * SCALE)
    );
}

#[test]
fn test_length() {
    assert_eq!(Vec3::new(2 * SCALE, -2 * SCALE, SCALE).length(), 3 * SCALE);
}

#[test]
fn test_squared_length() {
    assert_eq!(
        Vec3::new(2 * SCALE, -2 * SCALE, SCALE).squared_length(),
        9 * SCALE
    );
}

#[test]
fn test_unit() {
    // 2/3, -2/3 and 1/3 rounded toward zero in fixed point
    assert_eq!(
        Vec3::new(2 * SCALE, -2 * SCALE, SCALE).unit(),
        Vec3::new(43690, -43690, 21845)
    );
}

#[test]
fn test_elemul() {
    assert_eq!(
        Vec3::elemul(
            Vec3::new(SCALE, 2 * SCALE, 3 * SCALE),
            Vec3::new(SCALE, 2 * SCALE, 3 * SCALE)
        ),
        Vec3::new(SCALE, 4 * SCALE, 9 * SCALE)
    );
}

#[test]
fn test_index() {
    let vec = Vec3::new(SCALE, 2 * SCALE, 3 * SCALE);
    assert_eq!(vec.index(0), SCALE);
    assert_eq!(vec.index(1), 2 * SCALE);
    assert_eq!(vec.index(2), 3 * SCALE);
}

#[test]
fn test_index_mut() {
    let mut vec = Vec3::new(SCALE, 2 * SCALE, 3 * SCALE);
    vec.index_mut(0, 2 * SCALE);
    vec.index_mut(1, 3 * SCALE);
    vec.index_mut(2, 0);
    assert_eq!(vec, Vec3::new(2 * SCALE, 3 * SCALE, 0));
}

#[test]
fn rgba_gamma_endpoints() {
    // 0 stays 0; 1.0 clamps at 0.999 and quantises to 255; 0.5 maps through
    // sqrt(0.5) ~ 0.7071 to 181
    assert_eq!(
        Vec3::new(0, SCALE, SCALE / 2).rgba(),
        Rgba8 { r: 0, g: 255, b: 181, a: 255 }
    );
}

#[test]
fn rgba_quarter_quantises_to_127() {
    // sqrt(0.25) = 0.5, and 0.5 * 255.99 truncates to 127
    assert_eq!(Vec3::new(SCALE / 4, 0, 0).rgba().r, 127);
}

#[test]
fn rgba_clamps_out_of_range() {
    // negative components clamp to 0, values above 1 to 255
    assert_eq!(
        Vec3::new(-5 * SCALE, 40 * SCALE, 0).rgba(),
        Rgba8 { r: 0, g: 255, b: 0, a: 255 }
    );
}

#[test]
fn random_vec_components_in_range() {
    let mut rng = RandomSource::seeded(11);
    for _ in 0..50 {
        let v = Vec3::random_in_range(&mut rng, -3 * SCALE, 5 * SCALE);
        for i in 0..3 {
            let c = v.index(i);
            assert!(-3 * SCALE <= c && c < 5 * SCALE);
        }
        let u = Vec3::random(&mut rng);
        for i in 0..3 {
            let c = u.index(i);
            assert!(0 <= c && c < SCALE);
        }
    }
}

#[test]
fn random_unit_vec_is_roughly_unit() {
    let mut rng = RandomSource::seeded(23);
    for _ in 0..50 {
        let v = Vec3::random_unit_vec(&mut rng);
        let sq = v.squared_length();
        // squared length within a dozen fixed-point units of one
        assert!(SCALE - 10 <= sq && sq <= SCALE + 12, "sq = {}", sq);
    }
}

#[test]
fn random_on_hemisphere_faces_normal() {
    let mut rng = RandomSource::seeded(37);
    let normal = Vec3::new(0, SCALE, 0);
    for _ in 0..50 {
        let v = Vec3::random_on_hemisphere(&mut rng, &normal);
        assert!(v.dot(&normal) >= 0);
    }
}
