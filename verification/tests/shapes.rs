use raytracer::hit::{HitRecord, Hittables, Primitive};
use raytracer::material::{Dielectric, Lambertian, Material, Metal};
use raytracer::quad::Quad;
use raytracer::ray::Ray;
use raytracer::sphere::{Sphere, RADIUS_LIMIT};
use raytracer::util::{Interval, INFINITY, LIMIT, SCALE};
use raytracer::vec3::{Color, Vec3};

fn xyz(v: Vec3) -> (i64, i64, i64) {
    (v.x(), v.y(), v.z())
}

fn grey() -> Material {
    Material::Lambertian(Lambertian::new(Color::new(500_000, 500_000, 500_000)))
}

fn forward() -> Interval {
    Interval::new(1_000, INFINITY)
}

fn unit_quad() -> Quad {
    Quad::new(
        Vec3::new(-500_000, -500_000, 0),
        Vec3::new(500_000, -500_000, 0),
        Vec3::new(500_000, 500_000, 0),
        Vec3::new(-500_000, 500_000, 0),
        grey(),
    )
}

#[test]
fn ray_points() {
    let ray = Ray::new(Vec3::new(1_000_000, 2_000_000, 3_000_000), Vec3::new(0, -500_000, 1));
    assert_eq!(xyz(ray.at(0)), (1_000_000, 2_000_000, 3_000_000));
    assert_eq!(xyz(ray.at(2 * SCALE)), (1_000_000, 1_000_000, 3_000_002));
    assert_eq!(xyz(ray.at(-SCALE)), (1_000_000, 2_500_000, 2_999_999));
    assert_eq!(xyz(ray.at(500_000)), (1_000_000, 1_750_000, 3_000_000));
    assert_eq!(xyz(ray.at(i64::MAX)), (1_000_000, -LIMIT, LIMIT));
}

#[test]
fn head_on_ray_hits_at_distance_minus_radius() {
    let sphere = Sphere::new(Vec3::new(0, 0, -SCALE), 500_000, grey());
    let ray = Ray::new(Vec3::new(0, 0, 0), Vec3::new(0, 0, -SCALE));
    let rec = sphere.hit(&ray, forward()).expect("the ray meets the sphere");
    assert_eq!(rec.t, 500_000);
    assert_eq!(xyz(rec.p), (0, 0, -500_000));
    assert_eq!(xyz(rec.normal), (0, 0, SCALE));
    assert!(rec.front_face);
}

#[test]
fn slanted_head_on_ray_has_a_normal_along_the_ray() {
    let sphere = Sphere::new(Vec3::new(0, 0, 0), SCALE, grey());
    let direction = Vec3::new(-600_000, -800_000, 0);
    let ray = Ray::new(Vec3::new(3_000_000, 4_000_000, 0), direction);
    let rec = sphere.hit(&ray, forward()).expect("the ray meets the sphere");
    assert_eq!(rec.t, 4_000_000);
    assert_eq!(xyz(rec.p), (600_000, 800_000, 0));
    assert_eq!(xyz(rec.normal), (600_000, 800_000, 0));
    assert_eq!(xyz(rec.normal.cross(direction)), (0, 0, 0));
    assert_eq!(rec.normal.dot_wide(direction), -1_000_000_000_000);
    assert!(rec.front_face);
}

#[test]
fn rays_that_pass_by_or_point_away_miss() {
    let sphere = Sphere::new(Vec3::new(0, 0, -SCALE), 500_000, grey());
    let origin = Vec3::new(0, 0, 0);
    assert!(sphere.hit(&Ray::new(origin, Vec3::new(0, SCALE, 0)), forward()).is_none());
    assert!(sphere.hit(&Ray::new(origin, Vec3::new(0, 0, SCALE)), forward()).is_none());
    assert!(sphere.hit(&Ray::new(origin, Vec3::new(SCALE, 0, -SCALE)), forward()).is_none());
    assert!(sphere.hit(&Ray::new(origin, Vec3::new(0, 0, 0)), forward()).is_none());
}

#[test]
fn touching_ray_counts_once() {
    let sphere = Sphere::new(Vec3::new(0, SCALE, -2 * SCALE), SCALE, grey());
    let ray = Ray::new(Vec3::new(0, 0, 0), Vec3::new(0, 0, -SCALE));
    let rec = sphere.hit(&ray, forward()).expect("the ray touches the sphere");
    assert_eq!(rec.t, 2 * SCALE);
    assert_eq!(xyz(rec.p), (0, 0, -2 * SCALE));
    assert_eq!(xyz(rec.normal), (0, SCALE, 0));
    assert!(!rec.front_face);
}

#[test]
fn ray_from_inside_hits_the_far_side_from_behind() {
    let sphere = Sphere::new(Vec3::new(0, 0, 0), 2 * SCALE, grey());
    let ray = Ray::new(Vec3::new(0, 0, 0), Vec3::new(SCALE, 0, 0));
    let rec = sphere.hit(&ray, forward()).expect("the ray leaves the sphere");
    assert_eq!(rec.t, 2 * SCALE);
    assert_eq!(xyz(rec.p), (2 * SCALE, 0, 0));
    assert_eq!(xyz(rec.normal), (-SCALE, 0, 0));
    assert!(!rec.front_face);
}

#[test]
fn sphere_hits_respect_the_interval() {
    let sphere = Sphere::new(Vec3::new(0, 0, -3 * SCALE), SCALE, grey());
    let ray = Ray::new(Vec3::new(0, 0, 0), Vec3::new(0, 0, -SCALE));
    assert_eq!(sphere.hit(&ray, forward()).map(|r| r.t), Some(2 * SCALE));
    assert_eq!(sphere.hit(&ray, Interval::new(2 * SCALE, INFINITY)).map(|r| r.t), Some(4 * SCALE));
    assert_eq!(sphere.hit(&ray, Interval::new(0, 2 * SCALE)).map(|r| r.t), None);
    assert_eq!(sphere.hit(&ray, Interval::new(0, 2 * SCALE + 1)).map(|r| r.t), Some(2 * SCALE));
    assert_eq!(sphere.hit(&ray, Interval::new(4 * SCALE, INFINITY)).map(|r| r.t), None);
    assert_eq!(sphere.hit(&ray, Interval::new(INFINITY, 0)).map(|r| r.t), None);
}

#[test]
fn sphere_radius_is_never_negative() {
    let centre = Vec3::new(0, 0, -SCALE);
    assert_eq!(Sphere::new(centre, -5, grey()).radius, 0);
    assert_eq!(Sphere::new(centre, 0, grey()).radius, 0);
    assert_eq!(Sphere::new(centre, 7, grey()).radius, 7);
    let ray = Ray::new(Vec3::new(0, 0, 0), Vec3::new(0, 0, -SCALE));
    assert!(Sphere::new(centre, -5, grey()).hit(&ray, forward()).is_none());
    assert!(Sphere::new(centre, RADIUS_LIMIT + 1, grey()).hit(&ray, forward()).is_none());
    let huge = Sphere::new(centre, RADIUS_LIMIT, grey()).hit(&ray, forward());
    assert_eq!(huge.map(|rec| rec.t), Some(RADIUS_LIMIT + SCALE));
    let raw = Sphere { center: centre, radius: -500_000, material: grey() };
    assert!(raw.hit(&ray, forward()).is_none());
}

#[test]
fn spheres_larger_than_the_world_are_hit_where_they_cross_it() {
    let sphere = Sphere::new(Vec3::new(LIMIT, 0, 0), 1_500 * SCALE, grey());
    let ray = Ray::new(Vec3::new(-900 * SCALE, 0, 0), Vec3::new(SCALE, 0, 0));
    let rec = sphere.hit(&ray, forward()).expect("the ray meets the sphere");
    assert_eq!(rec.t, 400 * SCALE);
    assert_eq!(xyz(rec.p), (-500 * SCALE, 0, 0));
    assert_eq!(xyz(rec.normal), (-SCALE, 0, 0));
    assert!(rec.front_face);
}

#[test]
fn long_directions_do_not_lose_a_hit() {
    let sphere = Sphere::new(Vec3::new(0, 0, -2_000_999), 500_000, grey());
    let ray = Ray::new(Vec3::new(0, 0, 0), Vec3::new(0, 0, -1_000 * SCALE));
    let rec = sphere.hit(&ray, forward()).expect("the ray goes through the centre");
    assert_eq!(rec.t, 1_500);
    assert_eq!(xyz(rec.p), (0, 0, -1_500_000));
    assert_eq!(xyz(rec.normal), (0, 0, SCALE));
    assert!(rec.front_face);
}

#[test]
fn tiny_spheres_have_unit_normals_too() {
    let speck = Sphere::new(Vec3::new(0, 0, -SCALE), 3, grey());
    let ray = Ray::new(Vec3::new(0, 0, 0), Vec3::new(0, 0, -SCALE));
    let rec = speck.hit(&ray, forward()).expect("the ray meets the speck");
    assert_eq!(rec.t, 999_997);
    assert_eq!(xyz(rec.normal), (0, 0, SCALE));
    let slanted = Ray::new(Vec3::new(3, 0, 0), Vec3::new(-3, 0, -SCALE));
    let rec = speck.hit(&slanted, forward()).expect("the ray meets the speck");
    assert!(rec.normal.is_unit());
    assert!(rec.normal.dot_wide(slanted.direction) <= 0);
    let dot = Sphere::new(Vec3::new(0, 0, -SCALE), 1, grey());
    let fast = Ray::new(Vec3::new(0, 0, 0), Vec3::new(0, 0, -3 * SCALE));
    let rec = dot.hit(&fast, forward()).expect("the ray meets the dot");
    assert_eq!(rec.t, 333_333);
    assert_eq!(xyz(rec.p), (0, 0, -999_999));
    assert_eq!(xyz(rec.normal), (0, 0, SCALE));
    assert!(rec.front_face);
}

#[test]
fn first_meeting_with_a_sphere() {
    let ray = Ray::new(Vec3::new(0, 0, 0), Vec3::new(0, 0, -SCALE));
    let centre = Vec3::new(0, 0, -SCALE);
    assert_eq!(ray.hit_sphere(centre, 500_000), 500_000);
    assert_eq!(ray.hit_sphere(centre, -500_000), 500_000);
    assert_eq!(ray.hit_sphere(Vec3::new(0, 2 * SCALE, -SCALE), 500_000), -SCALE);
    assert_eq!(ray.hit_sphere(centre, LIMIT + 1), -LIMIT - 1 + SCALE);
    assert_eq!(ray.hit_sphere(centre, RADIUS_LIMIT + 1), -SCALE);
    assert_eq!(ray.hit_sphere(centre, -RADIUS_LIMIT - 1), -SCALE);
    assert_eq!(ray.hit_sphere(centre, 3 * SCALE), -2 * SCALE);
    assert_eq!(Ray::new(centre, Vec3::new(0, 0, 0)).hit_sphere(centre, SCALE), -SCALE);
}

#[test]
fn quad_in_the_xy_plane_is_hit_from_above() {
    let quad = unit_quad();
    assert_eq!(xyz(quad.normal), (0, 0, SCALE));
    let ray = Ray::new(Vec3::new(0, 0, SCALE), Vec3::new(0, 0, -SCALE));
    let rec = quad.hit(&ray, forward()).expect("the ray meets the quad");
    assert_eq!(rec.t, SCALE);
    assert_eq!(xyz(rec.p), (0, 0, 0));
    assert_eq!(xyz(rec.normal), (0, 0, SCALE));
    assert!(rec.front_face);
}

#[test]
fn quad_is_hit_from_below_with_the_normal_turned() {
    let quad = unit_quad();
    let ray = Ray::new(Vec3::new(250_000, -250_000, -2 * SCALE), Vec3::new(0, 0, 4 * SCALE));
    let rec = quad.hit(&ray, forward()).expect("the ray meets the quad");
    assert_eq!(rec.t, 500_000);
    assert_eq!(xyz(rec.p), (250_000, -250_000, 0));
    assert_eq!(xyz(rec.normal), (0, 0, -SCALE));
    assert!(!rec.front_face);
}

#[test]
fn quad_edges_belong_to_it_and_the_outside_does_not() {
    let quad = unit_quad();
    let down = Vec3::new(0, 0, -SCALE);
    let from = |x: i64, y: i64| Ray::new(Vec3::new(x, y, SCALE), down);
    assert!(quad.hit(&from(500_000, 0), forward()).is_some());
    assert!(quad.hit(&from(500_000, 500_000), forward()).is_some());
    assert!(quad.hit(&from(500_001, 0), forward()).is_none());
    assert!(quad.hit(&from(0, -500_001), forward()).is_none());
    assert!(quad.hit(&from(-3 * SCALE, 0), forward()).is_none());
}

#[test]
fn parallel_rays_and_rays_behind_miss_the_quad() {
    let quad = unit_quad();
    let above = Vec3::new(0, 0, SCALE);
    assert!(quad.hit(&Ray::new(above, Vec3::new(SCALE, 0, 0)), forward()).is_none());
    assert!(quad.hit(&Ray::new(above, Vec3::new(0, 0, SCALE)), forward()).is_none());
    assert!(quad.hit(&Ray::new(above, Vec3::new(0, 0, 0)), forward()).is_none());
    let down = Ray::new(above, Vec3::new(0, 0, -SCALE));
    assert!(quad.hit(&down, Interval::new(1_000, SCALE)).is_none());
    assert!(quad.hit(&down, Interval::new(SCALE, INFINITY)).is_none());
    assert!(quad.hit(&down, Interval::new(999_999, 1_000_001)).is_some());
}

#[test]
fn quads_without_a_unit_normal_are_never_hit() {
    let line = Quad::new(
        Vec3::new(0, 0, 0),
        Vec3::new(SCALE, 0, 0),
        Vec3::new(2 * SCALE, 0, 0),
        Vec3::new(3 * SCALE, 0, 0),
        grey(),
    );
    assert_eq!(xyz(line.normal), (0, 0, 0));
    let ray = Ray::new(Vec3::new(0, 0, SCALE), Vec3::new(0, 0, -SCALE));
    assert!(line.hit(&ray, forward()).is_none());
    let mut stretched = unit_quad();
    stretched.normal = Vec3::new(0, 0, 2 * SCALE);
    assert!(stretched.hit(&ray, forward()).is_none());
}

#[test]
fn small_quads_have_unit_normals_too() {
    let speck = Quad::new(
        Vec3::new(0, 0, 0),
        Vec3::new(10, 0, 0),
        Vec3::new(10, 10, 0),
        Vec3::new(0, 10, 0),
        grey(),
    );
    assert_eq!(xyz(speck.normal), (0, 0, SCALE));
    let ray = Ray::new(Vec3::new(5, 5, SCALE), Vec3::new(0, 0, -SCALE));
    assert_eq!(speck.hit(&ray, forward()).map(|rec| rec.t), Some(SCALE));
    let beside = Ray::new(Vec3::new(11, 5, SCALE), Vec3::new(0, 0, -SCALE));
    assert!(speck.hit(&beside, forward()).is_none());
}

#[test]
fn quad_normal_follows_the_winding() {
    let floor = Quad::new(
        Vec3::new(-2_000_000, -500_000, -2_000_000),
        Vec3::new(-2_000_000, -500_000, 1_000_000),
        Vec3::new(2_000_000, -500_000, 1_000_000),
        Vec3::new(2_000_000, -500_000, -2_000_000),
        grey(),
    );
    assert_eq!(xyz(floor.normal), (0, SCALE, 0));
    let tilted = Quad::new(
        Vec3::new(0, 0, 0),
        Vec3::new(SCALE, 0, SCALE),
        Vec3::new(SCALE, SCALE, SCALE),
        Vec3::new(0, SCALE, 0),
        grey(),
    );
    assert_eq!(xyz(tilted.normal), (-707_107, 0, 707_106));
    assert!(tilted.normal.is_unit());
}

#[test]
fn scene_returns_the_nearest_hit_whatever_the_order() {
    let near = Primitive::Sphere(Sphere::new(Vec3::new(0, 0, -2 * SCALE), 500_000, grey()));
    let metal = Material::Metal(Metal::new(Color::new(SCALE, SCALE, SCALE), 0));
    let far = Primitive::Sphere(Sphere::new(Vec3::new(0, 0, -5 * SCALE), SCALE, metal));
    let glass = Material::Dielectric(Dielectric::new(1_500_000));
    let wall = Primitive::Quad(Quad::new(
        Vec3::new(-SCALE, -SCALE, -3 * SCALE),
        Vec3::new(SCALE, -SCALE, -3 * SCALE),
        Vec3::new(SCALE, SCALE, -3 * SCALE),
        Vec3::new(-SCALE, SCALE, -3 * SCALE),
        glass,
    ));
    let ray = Ray::new(Vec3::new(0, 0, 0), Vec3::new(0, 0, -SCALE));
    let orders = [[near, far, wall], [far, wall, near], [wall, near, far], [wall, far, near]];
    for order in orders {
        let mut world = Hittables::new();
        for p in order {
            world.add(p);
        }
        let rec = world.closest_hit(&ray, forward()).expect("the ray meets the scene");
        assert_eq!(rec.t, 1_500_000);
        assert!(matches!(rec.material, Material::Lambertian(_)));
        let behind = world.closest_hit(&ray, Interval::new(2_600_000, INFINITY));
        let rec = behind.expect("the ray meets the wall");
        assert_eq!(rec.t, 3 * SCALE);
        assert!(matches!(rec.material, Material::Dielectric(_)));
        let last = world.closest_hit(&ray, Interval::new(3 * SCALE, INFINITY));
        let rec = last.expect("the ray meets the far sphere");
        assert_eq!(rec.t, 4 * SCALE);
        assert!(matches!(rec.material, Material::Metal(_)));
        assert!(world.closest_hit(&ray, Interval::new(6 * SCALE, INFINITY)).is_none());
    }
}

#[test]
fn empty_scene_is_never_hit() {
    let world = Hittables::new();
    assert_eq!(world.objects.len(), 0);
    let ray = Ray::new(Vec3::new(0, 0, 0), Vec3::new(0, 0, -SCALE));
    assert!(world.closest_hit(&ray, Interval::new(i64::MIN, INFINITY)).is_none());
}

#[test]
fn every_hit_has_a_unit_normal_against_the_ray() {
    let mut world = Hittables::new();
    world.add(Primitive::Sphere(Sphere::new(Vec3::new(0, 0, -1_500_000), 500_000, grey())));
    world.add(Primitive::Sphere(Sphere::new(Vec3::new(-SCALE, 0, -1_500_000), 500_000, grey())));
    world.add(Primitive::Quad(Quad::new(
        Vec3::new(-2_000_000, -500_000, -2_000_000),
        Vec3::new(-2_000_000, -500_000, 1_000_000),
        Vec3::new(2_000_000, -500_000, 1_000_000),
        Vec3::new(2_000_000, -500_000, -2_000_000),
        grey(),
    )));
    let mut hits = 0;
    for i in -20..=20 {
        for j in -20..=20 {
            let direction = Vec3::new(i * 50_000, j * 50_000, -SCALE);
            let ray = Ray::new(Vec3::new(0, 0, 0), direction);
            if let Some(rec) = world.closest_hit(&ray, forward()) {
                hits += 1;
                assert!(rec.normal.is_unit());
                assert!(rec.normal.dot_wide(direction) <= 0);
                assert!(1_000 < rec.t);
                if rec.p.y() > -499_000 {
                    let centre = if rec.p.x() < -500_000 { -SCALE } else { 0 };
                    let w = rec.p.sub(Vec3::new(centre, 0, -1_500_000));
                    let gap = w.dot_wide(w) - 250_000_000_000;
                    assert!(-750_000_000 <= gap && gap <= 750_000_000);
                } else {
                    assert!(rec.p.y() == -500_000 || rec.p.y() == -500_001);
                }
            }
        }
    }
    assert!(hits > 100);
}

#[test]
fn face_normal_turns_against_the_ray() {
    let ray = Ray::new(Vec3::new(0, 0, 0), Vec3::new(0, 0, -SCALE));
    let p = Vec3::new(0, 0, -SCALE);
    let towards = HitRecord::facing(&ray, p, SCALE, Vec3::new(0, 0, SCALE), grey());
    assert!(towards.front_face);
    assert_eq!(xyz(towards.normal), (0, 0, SCALE));
    let mut rec = towards;
    rec.set_face_normal(&ray, Vec3::new(0, 600_000, -800_000));
    assert!(!rec.front_face);
    assert_eq!(xyz(rec.normal), (0, -600_000, 800_000));
    assert_eq!((xyz(rec.p), rec.t), ((0, 0, -SCALE), SCALE));
    rec.set_face_normal(&ray, Vec3::new(SCALE, 0, 0));
    assert!(!rec.front_face);
    assert_eq!(xyz(rec.normal), (-SCALE, 0, 0));
}
