use raytracer::camera::{Camera, PixelSample};
use raytracer::hit::{Hittables, Primitive};
use raytracer::material::{Lambertian, Material, Sample};
use raytracer::sphere::Sphere;
use raytracer::util::SCALE;
use raytracer::vec3::{Color, Vec3};

fn xyz(v: Vec3) -> (i64, i64, i64) {
    (v.x(), v.y(), v.z())
}

fn rgb(c: Color) -> (i64, i64, i64) {
    (c.r(), c.g(), c.b())
}

fn through(x: i64, y: i64, bounces: usize) -> PixelSample {
    let still = Sample { direction: Vec3::new(500_000, 500_000, 750_000), choice: 0 };
    PixelSample { offset: Vec3::new(x, y, 0), bounces: vec![still; bounces] }
}

fn white_sphere() -> Hittables {
    let white = Material::Lambertian(Lambertian::new(Color::new(SCALE, SCALE, SCALE)));
    let mut world = Hittables::new();
    world.add(Primitive::Sphere(Sphere::new(Vec3::new(0, 0, -SCALE), 500_000, white)));
    world
}

/// The numbers of the lines of a plain PPM body, one triple for each line.
fn triples(body: &str) -> Vec<(u32, u32, u32)> {
    let mut out = Vec::new();
    for line in body.lines() {
        let numbers: Vec<u32> = line.split(' ').map(|n| n.parse().expect("a number")).collect();
        assert_eq!(numbers.len(), 3);
        out.push((numbers[0], numbers[1], numbers[2]));
    }
    out
}

#[test]
fn viewport_of_the_usual_image() {
    let cam = Camera::new(1_250_000, 400, 30, 10);
    assert_eq!(cam.aspect_ratio, 1_250_000);
    assert_eq!((cam.image_width, cam.image_height), (400, 320));
    assert_eq!((cam.samples_per_pixel, cam.max_depth), (30, 10));
    assert_eq!(xyz(cam.camera_center), (0, 0, 0));
    assert_eq!(xyz(cam.pixel_delta_u), (6_250, 0, 0));
    assert_eq!(xyz(cam.pixel_delta_v), (0, -6_250, 0));
    assert_eq!(xyz(cam.pixel00_loc), (-1_246_875, 996_875, -1_000_000));
}

#[test]
fn image_height_is_rounded_down_and_at_least_one() {
    assert_eq!(Camera::new(16 * SCALE / 9, 1_920, 1, 1).image_height, 1_080);
    assert_eq!(Camera::new(1_500_000, 100, 1, 1).image_height, 66);
    assert_eq!(Camera::new(SCALE, 1, 1, 1).image_height, 1);
    assert_eq!(Camera::new(1_000 * SCALE, 10, 1, 1).image_height, 1);
    assert_eq!(Camera::new(SCALE, 0, 1, 1).image_height, 1);
    assert_eq!(Camera::new(-SCALE, 100, 1, 1).image_height, 1);
    assert_eq!(Camera::new(0, 100, 1, 1).image_height, u32::MAX);
    assert_eq!(Camera::new(0, 0, 1, 1).image_height, 1);
    assert_eq!(Camera::new(1, u32::MAX, 1, 1).image_height, u32::MAX);
}

#[test]
fn viewport_of_odd_images() {
    let small = Camera::new(SCALE, 2, 1, 1);
    assert_eq!(xyz(small.pixel_delta_u), (SCALE, 0, 0));
    assert_eq!(xyz(small.pixel_delta_v), (0, -SCALE, 0));
    assert_eq!(xyz(small.pixel00_loc), (-500_000, 500_000, -1_000_000));
    let empty = Camera::new(SCALE, 0, 1, 1);
    assert_eq!(xyz(empty.pixel_delta_u), (2_000_000, 0, 0));
    assert_eq!(xyz(empty.pixel_delta_v), (0, -2_000_000, 0));
    assert_eq!(xyz(empty.pixel00_loc), (1_000_000, 0, -1_000_000));
    let wide = Camera::new(3 * SCALE, 3, 1, 1);
    assert_eq!(wide.image_height, 1);
    assert_eq!(xyz(wide.pixel_delta_u), (2_000_000, 0, 0));
    assert_eq!(xyz(wide.pixel00_loc), (-2_000_000, 0, -1_000_000));
    let thirds = Camera::new(SCALE, 3, 1, 1);
    assert_eq!(xyz(thirds.pixel_delta_u), (666_666, 0, 0));
    assert_eq!(xyz(thirds.pixel_delta_v), (0, -666_666, 0));
    assert_eq!(xyz(thirds.pixel00_loc), (-666_666, 666_667, -1_000_000));
}

#[test]
fn pixels_are_square_however_wide_the_image() {
    let strip = Camera::new(1_000 * SCALE, 1_000, 1, 1);
    assert_eq!(strip.image_height, 1);
    assert_eq!(xyz(strip.pixel_delta_u), (2_000_000, 0, 0));
    assert_eq!(xyz(strip.pixel_delta_v), (0, -2_000_000, 0));
    assert_eq!(xyz(strip.pixel00_loc), (-999_000_000, 0, -1_000_000));
    let wider = Camera::new(4_000 * SCALE, 4_000, 1, 1);
    assert_eq!(xyz(wider.pixel_delta_u), (2_000_000, 0, 0));
    assert_eq!(xyz(wider.pixel00_loc), (-1_000_000_000, 0, -1_000_000));
}

#[test]
fn rays_pass_through_their_pixels() {
    let cam = Camera::new(1_250_000, 400, 30, 10);
    let corner = cam.get_ray_with(0, 0, &Vec3::new(0, 0, 0));
    assert_eq!(xyz(corner.origin), (0, 0, 0));
    assert_eq!(xyz(corner.direction), (-1_246_875, 996_875, -1_000_000));
    let inner = cam.get_ray_with(1, 2, &Vec3::new(500_000, 250_000, 0));
    assert_eq!(xyz(inner.direction), (-1_237_500, 982_812, -1_000_000));
    let last = cam.get_ray_with(399, 319, &Vec3::new(999_999, 999_999, 0));
    assert_eq!(xyz(last.direction), (1_253_124, -1_003_125, -1_000_000));
    for _ in 0..200 {
        let r = cam.get_ray(7, 11);
        assert_eq!(xyz(r.origin), (0, 0, 0));
        let (x, y, z) = xyz(r.direction);
        assert!(-1_246_875 + 7 * 6_250 <= x && x < -1_246_875 + 8 * 6_250);
        assert!(996_875 - 12 * 6_250 <= y && y <= 996_875 - 11 * 6_250);
        assert_eq!(z, -1_000_000);
        let square = cam.sample_square();
        assert!(0 <= square.x() && square.x() < SCALE);
        assert!(0 <= square.y() && square.y() < SCALE);
        assert_eq!(square.z(), 0);
    }
}

#[test]
fn pixel_of_an_empty_scene_has_the_colour_of_the_sky() {
    let cam = Camera::new(SCALE, 2, 1, 1);
    let world = Hittables::new();
    let centre = vec![through(500_000, 500_000, 1)];
    assert_eq!(rgb(cam.pixel_color_with(&world, 0, 0, &centre)), (750_000, 850_000, 1_000_000));
    for (i, j) in [(0, 0), (1, 0), (0, 1), (1, 1)] {
        for (x, y) in [(0, 0), (250_000, 750_000), (999_999, 1)] {
            let ray = cam.get_ray_with(i, j, &Vec3::new(x, y, 0));
            let pixel = cam.pixel_color_with(&world, i, j, &vec![through(x, y, 1)]);
            assert_eq!(rgb(pixel), rgb(ray.sky()));
        }
    }
}

#[test]
fn pixel_is_the_mean_of_its_rays() {
    let cam = Camera::new(SCALE, 2, 3, 1);
    let world = white_sphere();
    let hit = || through(500_000, 500_000, 1);
    let miss = || through(0, 0, 1);
    assert_eq!(rgb(cam.pixel_color_with(&world, 0, 0, &vec![hit()])), (0, SCALE, 0));
    assert_eq!(rgb(cam.pixel_color_with(&world, 0, 0, &vec![miss()])), (647_938, 788_762, SCALE));
    let mixed = cam.pixel_color_with(&world, 0, 0, &vec![hit(), hit(), miss()]);
    assert_eq!(rgb(mixed), (215_979, 929_587, 333_333));
    assert_eq!(rgb(cam.pixel_color_with(&world, 0, 0, &Vec::new())), (0, 0, 0));
}

#[test]
fn header_names_the_format_and_the_size() {
    let mut out = Vec::new();
    Camera::new(1_250_000, 400, 30, 10).write_header(&mut out);
    assert_eq!(out, b"P3\n400 320\n255\n".to_vec());
}

#[test]
fn image_of_an_empty_scene() {
    let cam = Camera::new(2 * SCALE, 4, 5, 3);
    let text = String::from_utf8(cam.render(&Hittables::new())).expect("plain text");
    let body = text.strip_prefix("P3\n4 2\n255\n").expect("the header");
    let pixels = triples(body);
    assert_eq!(pixels.len(), 8);
    for (k, (r, g, b)) in pixels.iter().enumerate() {
        assert_eq!(*b, 255);
        assert!(180 < *r && *r < 256 && 213 < *g && *g < 256);
        assert!(r < g);
        if k >= 4 {
            assert!(pixels[k - 4].0 <= *r);
        }
    }
}

#[test]
fn small_image_of_one_sphere() {
    let cam = Camera::new(SCALE, 2, 1, 1);
    let out = cam.render(&white_sphere());
    let text = String::from_utf8(out).expect("plain text");
    assert!(text.starts_with("P3\n2 2\n255\n"));
    assert!(text.ends_with('\n'));
    let body = &text["P3\n2 2\n255\n".len()..];
    let pixels = triples(body);
    assert_eq!(pixels.len(), 4);
    for (r, g, b) in pixels {
        assert!(r <= 255 && g <= 255 && b <= 255);
        assert!((r, g, b) == (0, 255, 0) || (r > 180 && g > 213 && b == 255));
    }
}

#[test]
fn rows_are_written_one_line_for_each_pixel() {
    let cam = Camera::new(SCALE, 3, 2, 4);
    let mut out = b"# ".to_vec();
    cam.render_row(&Hittables::new(), 2, &mut out);
    let text = String::from_utf8(out).expect("plain text");
    let body = text.strip_prefix("# ").expect("what was there");
    assert_eq!(triples(body).len(), 3);
    let none = Camera::new(SCALE, 0, 2, 4);
    assert_eq!(none.render(&Hittables::new()), b"P3\n0 1\n255\n".to_vec());
    let unsampled = Camera::new(SCALE, 2, 0, 4);
    assert_eq!(unsampled.render(&white_sphere()), b"P3\n2 2\n255\n0 0 0\n0 0 0\n0 0 0\n0 0 0\n".to_vec());
}

#[test]
fn random_pixels_of_a_sphere_mix_its_colour_and_the_sky() {
    let cam = Camera::new(SCALE, 2, 50, 1);
    let c = cam.pixel_color(&white_sphere(), 0, 0);
    assert!(0 <= c.r() && c.r() <= SCALE);
    assert!(500_000 <= c.g() && c.g() <= SCALE);
    assert!(0 <= c.b() && c.b() <= SCALE);
}

/// The variance of the red channel of a pixel over `runs` renderings.
fn red_variance(cam: &Camera, world: &Hittables, runs: i64) -> i64 {
    let reds: Vec<i64> = (0..runs).map(|_| cam.pixel_color(world, 0, 0).r()).collect();
    let mean = reds.iter().sum::<i64>() / runs;
    reds.iter().map(|r| (r - mean) * (r - mean) / SCALE).sum::<i64>() / runs
}

#[test]
fn more_samples_vary_less() {
    let world = white_sphere();
    let one = red_variance(&Camera::new(SCALE, 2, 1, 1), &world, 400);
    let many = red_variance(&Camera::new(SCALE, 2, 64, 1), &world, 400);
    assert!(one > 0);
    assert!(many < one);
    assert!(many * 8 < one);
}

#[test]
fn small_image_with_given_samples() {
    let cam = Camera::new(SCALE, 2, 1, 1);
    let level = || vec![through(500_000, 0, 1)];
    let samples = vec![vec![level(), level()], vec![level(), level()]];
    let out = cam.render_with(&white_sphere(), &samples).expect("the samples fit the image");
    let expected = "P3\n2 2\n255\n0 255 0\n209 228 255\n0 255 0\n233 242 255\n";
    assert_eq!(String::from_utf8(out).expect("plain text"), expected);
    let sky = cam.render_with(&Hittables::new(), &samples).expect("the samples fit the image");
    let expected = "P3\n2 2\n255\n204 226 255\n209 228 255\n237 245 255\n233 242 255\n";
    assert_eq!(String::from_utf8(sky).expect("plain text"), expected);
}

#[test]
fn samples_must_have_the_shape_of_the_image() {
    let cam = Camera::new(SCALE, 2, 1, 1);
    let world = Hittables::new();
    let centre = || vec![through(500_000, 500_000, 1)];
    assert!(cam.render_with(&world, &Vec::new()).is_none());
    assert!(cam.render_with(&world, &vec![vec![centre(), centre()]]).is_none());
    assert!(cam.render_with(&world, &vec![vec![centre(), centre()], vec![centre()]]).is_none());
    let unsampled = vec![vec![Vec::new(), centre()], vec![Vec::new(), Vec::new()]];
    let out = cam.render_with(&world, &unsampled).expect("the samples fit the image");
    let expected = "P3\n2 2\n255\n0 0 0\n221 236 255\n0 0 0\n0 0 0\n";
    assert_eq!(String::from_utf8(out).expect("plain text"), expected);
    let none = Camera::new(SCALE, 0, 1, 1);
    assert_eq!(none.render_with(&world, &vec![Vec::new()]), Some(b"P3\n0 1\n255\n".to_vec()));
}
