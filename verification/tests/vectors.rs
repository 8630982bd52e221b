use raytracer::util::{LIMIT, SCALE};
use raytracer::vec3::{Color, Vec3};

fn xyz(v: Vec3) -> (i64, i64, i64) {
    (v.x(), v.y(), v.z())
}

fn rgb(c: Color) -> (i64, i64, i64) {
    (c.r(), c.g(), c.b())
}

#[test]
fn new_holds_components_in_the_world() {
    assert_eq!(xyz(Vec3::new(1, -2, 3)), (1, -2, 3));
    assert_eq!(xyz(Vec3::new(i64::MAX, i64::MIN, LIMIT + 1)), (LIMIT, -LIMIT, LIMIT));
    assert_eq!(xyz(Vec3::wide(i128::MAX, i128::MIN, -7)), (LIMIT, -LIMIT, -7));
}

#[test]
fn sums_and_differences() {
    let a = Vec3::new(1_000_000, 2_000_000, 3_000_000);
    let b = Vec3::new(500_000, -500_000, 250_000);
    assert_eq!(xyz(a.add(b)), (1_500_000, 1_500_000, 3_250_000));
    assert_eq!(xyz(a.sub(b)), (500_000, 2_500_000, 2_750_000));
    assert_eq!(xyz(a.neg()), (-1_000_000, -2_000_000, -3_000_000));
    assert_eq!(xyz(a.add_scalar(SCALE)), (2_000_000, 3_000_000, 4_000_000));
    assert_eq!(xyz(a.sub_scalar(SCALE)), (0, 1_000_000, 2_000_000));
    assert_eq!(xyz(a.add_scalar(i64::MAX)), (LIMIT, LIMIT, LIMIT));
    assert_eq!(xyz(a.sub_scalar(i64::MAX)), (-LIMIT, -LIMIT, -LIMIT));
}

#[test]
fn sums_saturate_at_the_boundary() {
    let far = Vec3::new(LIMIT, -LIMIT, LIMIT - 1);
    assert_eq!(xyz(far.add(far)), (LIMIT, -LIMIT, LIMIT));
    assert_eq!(xyz(far.sub(far.neg())), (LIMIT, -LIMIT, LIMIT));
}

#[test]
fn products_and_quotients() {
    let a = Vec3::new(1_500_000, -2_000_000, 1);
    let b = Vec3::new(2_000_000, 500_000, 999_999);
    assert_eq!(xyz(a.mul(b)), (3_000_000, -1_000_000, 0));
    assert_eq!(xyz(a.scale(2 * SCALE)), (3_000_000, -4_000_000, 2));
    assert_eq!(xyz(a.scale(-500_000)), (-750_000, 1_000_000, -1));
    assert_eq!(xyz(a.div(b)), (750_000, -4_000_000, 1));
    assert_eq!(xyz(a.div_scalar(2 * SCALE)), (750_000, -1_000_000, 0));
    assert_eq!(xyz(a.div_scalar(-2 * SCALE)), (-750_000, 1_000_000, -1));
    assert_eq!(xyz(a.div_scalar(0)), (LIMIT, -LIMIT, LIMIT));
    assert_eq!(xyz(Vec3::new(0, 0, 0).div_scalar(0)), (0, 0, 0));
    assert_eq!(xyz(a.scale(i64::MAX)), (LIMIT, -LIMIT, LIMIT));
}

#[test]
fn inner_products_and_lengths() {
    let a = Vec3::new(3_000_000, 4_000_000, 0);
    let b = Vec3::new(1_000_000, 1_000_000, 1_000_000);
    assert_eq!(a.dot_wide(b), 7_000_000_000_000);
    assert_eq!(a.dot(b), 7_000_000);
    assert_eq!(a.length_squared(), 25_000_000);
    assert_eq!(a.length(), 5_000_000);
    assert_eq!(b.length(), 1_732_050);
    assert_eq!(Vec3::new(0, 0, 0).length(), 0);
    let corner = Vec3::new(LIMIT, LIMIT, LIMIT);
    assert_eq!(corner.dot(corner), 3_000_000_000_000);
    assert_eq!(corner.length(), 1_732_050_807);
    assert_eq!(Vec3::new(-1, 0, 0).dot(Vec3::new(1, 0, 0)), -1);
}

#[test]
fn cross_products() {
    let x = Vec3::new(SCALE, 0, 0);
    let y = Vec3::new(0, SCALE, 0);
    let z = Vec3::new(0, 0, SCALE);
    assert_eq!(xyz(x.cross(y)), (0, 0, SCALE));
    assert_eq!(xyz(y.cross(z)), (SCALE, 0, 0));
    assert_eq!(xyz(z.cross(x)), (0, SCALE, 0));
    assert_eq!(xyz(y.cross(x)), (0, 0, -SCALE));
    let a = Vec3::new(1_000_000, 2_000_000, 3_000_000);
    let b = Vec3::new(4_000_000, 5_000_000, 6_000_000);
    assert_eq!(xyz(a.cross(b)), (-3_000_000, 6_000_000, -3_000_000));
    assert_eq!(xyz(a.cross(a)), (0, 0, 0));
}

#[test]
fn unit_vectors() {
    assert_eq!(xyz(Vec3::new(3_000_000, 4_000_000, 0).unit_vector()), (600_000, 800_000, 0));
    assert_eq!(xyz(Vec3::new(0, 0, -250).unit_vector()), (0, 0, -SCALE));
    assert_eq!(xyz(Vec3::new(0, 0, 0).unit_vector()), (0, 0, 0));
    assert_eq!(xyz(Vec3::new(1, 1, 0).unit_vector()), (707_213, 707_213, 0));
    assert_eq!(xyz(Vec3::new(-1, 2, -2).unit_vector()), (-333_334, 666_666, -666_667));
    assert!(Vec3::new(1, 1, 0).unit_vector().is_unit());
    assert!(Vec3::new(0, -1, 0).unit_vector().is_unit());
    let from = Vec3::new(5, 5, 5);
    assert_eq!(xyz(Vec3::direction_between(&from, &Vec3::new(8, 1, 5))), (600_000, -800_000, 0));
    assert_eq!(xyz(Vec3::direction_between(&from, &from)), (0, 0, 0));
    let diagonal = Vec3::new(SCALE, SCALE, SCALE).unit_vector();
    assert_eq!(xyz(diagonal), (577_350, 577_350, 577_350));
    assert!(diagonal.is_unit());
    assert!(!Vec3::new(SCALE, SCALE, 0).is_unit());
    assert!(!Vec3::new(0, 0, 0).is_unit());
    assert!(Vec3::new(0, 0, 1_000_999).is_unit());
    assert!(!Vec3::new(0, 0, 1_001_000).is_unit());
    assert!(Vec3::new(0, 999_000, 0).is_unit());
    assert!(!Vec3::new(0, 998_999, 0).is_unit());
}

#[test]
fn near_zero_means_zero_at_this_resolution() {
    assert!(Vec3::new(0, 0, 0).near_zero());
    assert!(!Vec3::new(0, 1, 0).near_zero());
    assert!(!Vec3::new(0, 0, -1).near_zero());
}

#[test]
fn reflection_mirrors_in_the_plane() {
    let n = Vec3::new(0, 0, SCALE);
    assert_eq!(xyz(Vec3::new(600_000, 0, -800_000).reflect(n)), (600_000, 0, 800_000));
    assert_eq!(xyz(Vec3::new(0, 0, SCALE).reflect(n)), (0, 0, -SCALE));
    assert_eq!(xyz(Vec3::new(SCALE, 0, 0).reflect(n)), (SCALE, 0, 0));
    let tilted = Vec3::new(600_000, 800_000, 0);
    assert_eq!(xyz(Vec3::new(-SCALE, 0, 0).reflect(tilted)), (-280_000, 960_000, 0));
}

#[test]
fn refraction_at_ratio_one_goes_straight_on() {
    let n = Vec3::new(0, 0, SCALE);
    let head_on = Vec3::new(0, 0, -SCALE);
    assert_eq!(xyz(head_on.refract(&n, SCALE)), (0, 0, -SCALE));
    let slanted = Vec3::new(600_000, 0, -800_000);
    assert_eq!(xyz(slanted.refract(&n, SCALE)), (600_000, 0, -800_000));
}

#[test]
fn refraction_bends_towards_the_normal_in_a_denser_medium() {
    let n = Vec3::new(0, 0, SCALE);
    let slanted = Vec3::new(600_000, 0, -800_000);
    let bent = slanted.refract(&n, 500_000);
    assert_eq!(xyz(bent), (300_000, 0, -953_939));
    assert_eq!(slanted.cos_theta(&n), 800_000);
    assert_eq!(Vec3::new(0, 0, -2 * SCALE).cos_theta(&n), SCALE);
}

#[test]
fn vectors_go_onto_the_unit_sphere() {
    assert_eq!(xyz(Vec3::new(300_000, -400_000, 0).onto_unit_sphere()), (600_000, -800_000, 0));
    assert_eq!(xyz(Vec3::new(0, 0, SCALE).onto_unit_sphere()), (0, 0, SCALE));
    assert_eq!(xyz(Vec3::new(900_000, -1_200_000, 0).onto_unit_sphere()), (600_000, -800_000, 0));
    assert_eq!(xyz(Vec3::new(0, -2_000, 0).onto_unit_sphere()), (0, -SCALE, 0));
    assert_eq!(xyz(Vec3::new(0, -1_999, 0).onto_unit_sphere()), (SCALE, 0, 0));
    assert_eq!(xyz(Vec3::new(0, 0, 0).onto_unit_sphere()), (SCALE, 0, 0));
    assert_eq!(xyz(Vec3::in_range(-SCALE, SCALE, Vec3::new(0, 500_000, 999_999))), (-SCALE, 0, 999_998));
    assert_eq!(xyz(Vec3::direction_of(Vec3::new(500_000, 500_000, 750_000))), (0, 0, SCALE));
    assert_eq!(xyz(Vec3::direction_of(Vec3::new(50_000, 500_000, 800_000))), (-832_051, 0, 554_700));
    assert_eq!(xyz(Vec3::direction_of(Vec3::new(500_000, 500_000, 500_000))), (SCALE, 0, 0));
}

#[test]
fn hemisphere_side() {
    let n = Vec3::new(0, 0, SCALE);
    assert_eq!(xyz(Vec3::new(1, 2, 3).on_hemisphere(n)), (1, 2, 3));
    assert_eq!(xyz(Vec3::new(1, 2, -3).on_hemisphere(n)), (-1, -2, 3));
    assert_eq!(xyz(Vec3::new(1, 2, 0).on_hemisphere(n)), (-1, -2, 0));
}

#[test]
fn random_vectors_stay_in_their_ranges() {
    let n = Vec3::new(0, SCALE, 0);
    for _ in 0..500 {
        let u = Vec3::random();
        assert!(0 <= u.x() && u.x() < SCALE);
        assert!(0 <= u.y() && u.y() < SCALE);
        assert!(0 <= u.z() && u.z() < SCALE);
        let r = Vec3::random_range(-2 * SCALE, 3 * SCALE);
        assert!(-2 * SCALE <= r.x() && r.x() < 3 * SCALE);
        assert!(-2 * SCALE <= r.y() && r.y() < 3 * SCALE);
        assert!(-2 * SCALE <= r.z() && r.z() < 3 * SCALE);
        let d = Vec3::random_unit_vector();
        assert!(d.is_unit());
        let h = Vec3::random_on_hemisphere(n);
        assert!(h.is_unit());
        assert!(h.dot_wide(n) >= 0);
    }
}

#[test]
fn colours() {
    let a = Color::new(500_000, 250_000, 0);
    let b = Color::new(500_000, 500_000, 1_000_000);
    assert_eq!(rgb(a), (500_000, 250_000, 0));
    assert_eq!(rgb(a.add(b)), (1_000_000, 750_000, 1_000_000));
    assert_eq!(rgb(b.sub(a)), (0, 250_000, 1_000_000));
    assert_eq!(rgb(a.mul(b)), (250_000, 125_000, 0));
    assert_eq!(rgb(a.scale(500_000)), (250_000, 125_000, 0));
    assert_eq!(rgb(Vec3::new(1, 2, 3).add_color(a)), (500_001, 250_002, 3));
    assert_eq!(rgb(Color::new(i64::MAX, 0, i64::MIN)), (LIMIT, 0, -LIMIT));
    assert_eq!(rgb(Color::wide(i128::MAX, 5, i128::MIN)), (LIMIT, 5, -LIMIT));
    let mut sum = a;
    sum.add_assign(b);
    sum.add_assign(b);
    assert_eq!(rgb(sum), (1_500_000, 1_250_000, 2_000_000));
}

#[test]
fn channels_are_gamma_corrected_and_clamped() {
    assert_eq!(Color::channel(0), 0);
    assert_eq!(Color::channel(-SCALE), 0);
    assert_eq!(Color::channel(SCALE), 255);
    assert_eq!(Color::channel(50 * SCALE), 255);
    assert_eq!(Color::channel(250_000), 128);
    assert_eq!(Color::channel(500_000), 181);
    assert_eq!(Color::channel(998_001), 255);
    assert_eq!(Color::channel(990_000), 254);
    assert_eq!(Color::channel(1), 0);
    assert_eq!(Color::channel(16), 1);
}

#[test]
fn pixel_lines() {
    let mut out = Vec::new();
    Color::new(SCALE, 250_000, 0).write_color(&mut out);
    Color::new(0, 0, 0).write_color(&mut out);
    Color::new(500_000, 700_000, SCALE).write_color(&mut out);
    assert_eq!(out, b"255 128 0\n0 0 0\n181 214 255\n".to_vec());
}
