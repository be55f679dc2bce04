use rt_core::camera::Camera;
use rt_core::camera::CameraBuilder;
use rt_core::hit::HittableList;
use rt_core::material::Dielectric;
use rt_core::material::Lambertian;
use rt_core::material::Material;
use rt_core::material::Metal;
use rt_core::ray::Ray;
use rt_core::scalar::Scalar;
use rt_core::sphere::Sphere;
use rt_core::vec3::Color;
use rt_core::vec3::Vector3;

fn cs(x: f64) -> Scalar {
    Scalar::from_raw((x * 4294967296.0).round() as i64)
}

fn cf(a: &Scalar) -> f64 {
    a.raw() as f64 / 4294967296.0
}

fn cv(x: f64, y: f64, z: f64) -> Vector3 {
    Vector3::new(cs(x), cs(y), cs(z))
}

fn cclose(a: &Vector3, x: f64, y: f64, z: f64, tol: f64) -> bool {
    (cf(a.x()) - x).abs() <= tol && (cf(a.y()) - y).abs() <= tol && (cf(a.z()) - z).abs() <= tol
}

fn raw(x: i64, y: i64, z: i64) -> Vector3 {
    Vector3::new(Scalar::from_raw(x), Scalar::from_raw(y), Scalar::from_raw(z))
}

fn shaped(aspect_ratio: Scalar, image_width: i32) -> Camera {
    CameraBuilder { aspect_ratio, image_width, samples_per_pixel: 1, max_depth: 1 }.build()
}

fn black() -> Color {
    cv(0.0, 0.0, 0.0)
}

fn camera(width: i32, samples: i32, depth: usize) -> Camera {
    CameraBuilder {
        aspect_ratio: Scalar::from_int(16) / Scalar::from_int(9),
        image_width: width,
        samples_per_pixel: samples,
        max_depth: depth,
    }
    .build()
}

fn one_sphere(mat: Material) -> HittableList<Sphere> {
    HittableList::new(vec![Sphere::new(cv(0.0, 0.0, -1.0), cs(0.5), mat)])
}

fn one_enclosing_sphere() -> HittableList<Sphere> {
    HittableList::new(vec![Sphere::new(cv(0.0, 0.0, 0.0), cs(10.0), matte())])
}

fn matte() -> Material {
    Material::Lambertian(Lambertian::new(cv(0.5, 0.5, 0.5)))
}

fn sky_at(unit_y: f64) -> (f64, f64, f64) {
    let a = 0.5 * (unit_y + 1.0);
    (a + (1.0 - a) * 0.5, a + (1.0 - a) * 0.7, 1.0)
}

fn level_of(linear: f64) -> i64 {
    let g = if linear > 0.0 { linear.sqrt() } else { 0.0 };
    (256.0 * g.clamp(0.0, 0.999)) as i64
}

fn header(sizes: &str) -> Vec<u8> {
    let mut text = vec![b'P', b'3', b'\n'];
    text.extend_from_slice(sizes.as_bytes());
    text.extend_from_slice(b"\n255\n");
    text
}

fn lines_of(text: &[u8]) -> Vec<Vec<i64>> {
    let mut lines = Vec::new();
    for line in text.split(|b| *b == b'\n') {
        if line.is_empty() {
            continue;
        }
        let mut numbers = Vec::new();
        for word in line.split(|b| *b == b' ') {
            let mut n: i64 = 0;
            for digit in word.iter() {
                assert!(digit.is_ascii_digit());
                n = n * 10 + (*digit - b'0') as i64;
            }
            numbers.push(n);
        }
        lines.push(numbers);
    }
    lines
}

#[test]
fn default_parameters() {
    let b = CameraBuilder::default();
    assert_eq!(b.aspect_ratio.raw(), 7635497415);
    assert_eq!(b.image_width, 400);
    assert_eq!(b.samples_per_pixel, 1);
    assert_eq!(b.max_depth, 1);
    let n = CameraBuilder::new();
    assert_eq!(n.aspect_ratio, b.aspect_ratio);
    assert_eq!(n.image_width, 400);
    assert_eq!(n.samples_per_pixel, 1);
    assert_eq!(n.max_depth, 1);
    assert!(b.can_build());
}

#[test]
fn parameters_that_admit_no_camera() {
    let mut b = CameraBuilder::new();
    b.image_width = 0;
    assert!(!b.can_build());
    let mut b = CameraBuilder::new();
    b.image_width = -4;
    assert!(!b.can_build());
    let mut b = CameraBuilder::new();
    b.samples_per_pixel = 0;
    assert!(!b.can_build());
    let mut b = CameraBuilder::new();
    b.aspect_ratio = Scalar::zero();
    assert!(!b.can_build());
    let mut b = CameraBuilder::new();
    b.max_depth = 0;
    assert!(b.can_build());
}

#[test]
fn build_keeps_the_parameters() {
    let c = camera(400, 7, 3);
    assert_eq!(c.image_width(), 400);
    assert_eq!(c.samples_per_pixel(), 7);
    assert_eq!(c.max_depth(), 3);
    assert_eq!(c.aspect_ratio().raw(), 7635497415);
}

#[test]
fn height_is_width_over_aspect_ratio_rounded() {
    assert_eq!(camera(400, 1, 1).image_height(), 225);
    assert_eq!(camera(1600, 1, 1).image_height(), 900);
    assert_eq!(camera(100, 1, 1).image_height(), 56);
    assert_eq!(camera(10, 1, 1).image_height(), 6);
    assert_eq!(shaped(Scalar::one(), 37).image_height(), 37);
    assert_eq!(shaped(cs(2.0), 5).image_height(), 3);
}

#[test]
fn height_is_at_least_one() {
    assert_eq!(camera(1, 1, 1).image_height(), 1);
    assert_eq!(shaped(cs(100.0), 10).image_height(), 1);
    assert_eq!(shaped(cs(-2.0), 10).image_height(), 1);
}

#[test]
fn first_pixel_of_the_default_camera() {
    let c = camera(400, 1, 1);
    let r = c.ray_through(0, 0, &cv(0.0, 0.0, 0.0));
    assert_eq!(*r.origin(), cv(0.0, 0.0, 0.0));
    assert_eq!(
        *r.direction(),
        raw(-7616408672, 4275878553, -4294967296)
    );
    let du = 2.0 * (400.0 / 225.0) / 400.0;
    let dv = 2.0 / 225.0;
    assert!(cclose(r.direction(), -(400.0 / 225.0) + du / 2.0, 1.0 - dv / 2.0, -1.0, 1e-6));
}

#[test]
fn pixels_step_across_and_down() {
    let c = camera(400, 1, 1);
    let du = 2.0 * (400.0 / 225.0) / 400.0;
    let dv = 2.0 / 225.0;
    let x0 = -(400.0 / 225.0) + du / 2.0;
    let y0 = 1.0 - dv / 2.0;
    let r = c.ray_through(399, 224, &cv(0.0, 0.0, 0.0));
    assert!(cclose(r.direction(), x0 + 399.0 * du, y0 - 224.0 * dv, -1.0, 1e-5));
    let middle = c.ray_through(200, 112, &cv(-0.5, 0.0, 0.0));
    assert!(cclose(middle.direction(), 0.0, 0.0, -1.0, 1e-5));
    let moved = c.ray_through(10, 20, &cv(0.5, -0.5, 0.0));
    assert!(cclose(moved.direction(), x0 + 10.5 * du, y0 - 19.5 * dv, -1.0, 1e-5));
}

#[test]
fn get_ray_stays_within_the_pixel() {
    let c = camera(400, 1, 1);
    let centre = c.ray_through(123, 45, &cv(0.0, 0.0, 0.0));
    let du = 2.0 * (400.0 / 225.0) / 400.0;
    let dv = 2.0 / 225.0;
    let mut varies = false;
    for _ in 0..300 {
        let r = c.get_ray(123, 45);
        assert_eq!(*r.origin(), cv(0.0, 0.0, 0.0));
        let off = *r.direction() - *centre.direction();
        assert!(cf(off.x()).abs() <= du / 2.0 + 1e-6);
        assert!(cf(off.y()).abs() <= dv / 2.0 + 1e-6);
        assert_eq!(*off.z(), Scalar::zero());
        varies = varies || *r.direction() != *centre.direction();
    }
    assert!(varies);
}

#[test]
fn background_is_white_above_and_blue_below() {
    let up = Camera::background(&Ray::new(cv(0.0, 0.0, 0.0), cv(0.0, 1.0, 0.0)));
    assert_eq!(up, cv(1.0, 1.0, 1.0));
    let down = Camera::background(&Ray::new(cv(0.0, 0.0, 0.0), cv(0.0, -3.0, 0.0)));
    assert_eq!(down, raw(2147483648, 3006477107, 4294967296));
    let level = Camera::background(&Ray::new(cv(0.0, 0.0, 0.0), cv(2.0, 0.0, 0.0)));
    assert_eq!(level, raw(3221225472, 3650722201, 4294967296));
    assert!(cclose(&level, 0.75, 0.85, 1.0, 1e-9));
}

#[test]
fn background_of_a_short_direction_is_that_of_the_long_one() {
    let short = Vector3::new(Scalar::zero(), Scalar::from_raw(98304), Scalar::zero());
    let up = Camera::background(&Ray::new(cv(0.0, 0.0, 0.0), short));
    assert_eq!(up, cv(1.0, 1.0, 1.0));
    let slanted = raw(3, -4, 0);
    let seen = Camera::background(&Ray::new(cv(0.0, 0.0, 0.0), slanted));
    let (r, g, b) = sky_at(-0.8);
    assert!(cclose(&seen, r, g, b, 1e-8));
}

#[test]
fn background_lies_between_the_blue_of_the_sky_and_white() {
    for _ in 0..500 {
        let d = Vector3::random_in_range(cs(-1.0), cs(1.0));
        if d.is_zero() {
            continue;
        }
        let c = Camera::background(&Ray::new(cv(0.0, 0.0, 0.0), d));
        assert!(cs(0.5).le(c.x()) && c.x().le(c.y()) && c.y().le(c.z()));
        assert!(cs(0.7).le(c.y()));
        assert_eq!(*c.z(), Scalar::one());
        let tiny = Vector3::new(
            Scalar::from_raw(d.x().raw() >> 20),
            Scalar::from_raw(d.y().raw() >> 20),
            Scalar::from_raw(d.z().raw() >> 20),
        );
        if tiny.is_zero() {
            continue;
        }
        let t = Camera::background(&Ray::new(cv(0.0, 0.0, 0.0), tiny));
        assert!(cs(0.5).le(t.x()) && t.x().le(t.y()) && t.y().le(t.z()));
        assert_eq!(*t.z(), Scalar::one());
    }
}

#[test]
fn background_of_a_ray_without_direction_is_black() {
    let c = Camera::background(&Ray::new(cv(1.0, 2.0, 3.0), cv(0.0, 0.0, 0.0)));
    assert_eq!(c, black());
}

#[test]
fn no_light_comes_back_at_depth_zero() {
    let world = one_sphere(matte());
    let at_sphere = Ray::new(cv(0.0, 0.0, 0.0), cv(0.0, 0.0, -1.0));
    let at_sky = Ray::new(cv(0.0, 0.0, 0.0), cv(0.0, 1.0, 0.0));
    assert_eq!(Camera::ray_color(&at_sphere, &world, 0), black());
    assert_eq!(Camera::ray_color(&at_sky, &world, 0), black());
}

#[test]
fn a_ray_that_misses_brings_back_the_background() {
    let world = one_sphere(matte());
    let r = Ray::new(cv(0.0, 0.0, 0.0), cv(0.3, 0.9, 0.1));
    assert_eq!(Camera::ray_color(&r, &world, 5), Camera::background(&r));
    let empty: HittableList<Sphere> = HittableList::default();
    let at_sphere = Ray::new(cv(0.0, 0.0, 0.0), cv(0.0, 0.0, -1.0));
    assert_eq!(Camera::ray_color(&at_sphere, &empty, 1), Camera::background(&at_sphere));
}

#[test]
fn one_bounce_brings_back_no_light_from_a_surface() {
    let world = one_sphere(matte());
    let r = Ray::new(cv(0.0, 0.0, 0.0), cv(0.0, 0.0, -1.0));
    for _ in 0..50 {
        assert_eq!(Camera::ray_color(&r, &world, 1), black());
    }
}

#[test]
fn a_diffuse_sphere_halves_the_sky_at_two_bounces() {
    let world = one_sphere(matte());
    let r = Ray::new(cv(0.0, 0.0, 0.0), cv(0.0, 0.0, -1.0));
    for _ in 0..200 {
        let c = Camera::ray_color(&r, &world, 2);
        if c == black() {
            continue;
        }
        assert_eq!(*c.z(), cs(0.5));
        assert!(cf(c.x()) >= 0.25 - 1e-6 && cf(c.x()) <= 0.5 + 1e-6);
        assert!(cf(c.y()) >= 0.35 - 1e-6 && cf(c.y()) <= 0.5 + 1e-6);
    }
}

#[test]
fn a_mirror_shows_the_sky_behind_the_camera() {
    let mirror = Material::Metal(Metal::new(cv(1.0, 1.0, 1.0), Scalar::zero()));
    let world = one_sphere(mirror);
    let r = Ray::new(cv(0.0, 0.0, 0.0), cv(0.0, 0.0, -1.0));
    let back = Ray::new(cv(0.0, 0.0, -0.5), cv(0.0, 0.0, 1.0));
    let c = Camera::ray_color(&r, &world, 2);
    assert_eq!(c, Camera::background(&back));
    assert_eq!(c, raw(3221225472, 3650722201, 4294967296));
    assert_eq!(Camera::ray_color(&r, &world, 1), black());
}

#[test]
fn a_mirror_sphere_agrees_with_real_arithmetic() {
    let albedo = (0.8f64, 0.6f64, 0.2f64);
    let mirror = Material::Metal(Metal::new(cv(albedo.0, albedo.1, albedo.2), Scalar::zero()));
    let world = one_sphere(mirror);
    let c = camera(400, 1, 2);
    let du = 2.0 * (400.0 / 225.0) / 400.0;
    let dv = 2.0 / 225.0;
    let mut on_sphere = 0;
    let mut on_sky = 0;
    for j in (0..225).step_by(7) {
        for i in (0..400).step_by(7) {
            let x = -(400.0 / 225.0) + du * (i as f64 + 0.5);
            let y = 1.0 - dv * (j as f64 + 0.5);
            let d = (x, y, -1.0f64);
            let a = d.0 * d.0 + d.1 * d.1 + d.2 * d.2;
            let h = 1.0f64;
            let disc = h * h - a * 0.75;
            if disc.abs() < 0.02 {
                continue;
            }
            let seen = Camera::ray_color(&c.ray_through(i, j, &cv(0.0, 0.0, 0.0)), &world, 2);
            let expected = if disc < 0.0 {
                on_sky += 1;
                sky_at(y / a.sqrt())
            } else {
                on_sphere += 1;
                let t = (h - disc.sqrt()) / a;
                let p = (d.0 * t, d.1 * t, d.2 * t);
                let n = (p.0 / 0.5, p.1 / 0.5, (p.2 + 1.0) / 0.5);
                let dn = d.0 * n.0 + d.1 * n.1 + d.2 * n.2;
                let r = (d.0 - 2.0 * dn * n.0, d.1 - 2.0 * dn * n.1, d.2 - 2.0 * dn * n.2);
                let len = (r.0 * r.0 + r.1 * r.1 + r.2 * r.2).sqrt();
                let (sr, sg, sb) = sky_at(r.1 / len);
                (albedo.0 * sr, albedo.1 * sg, albedo.2 * sb)
            };
            assert!(
                cclose(&seen, expected.0, expected.1, expected.2, 1e-6),
                "pixel {} {}: {:?} against {:?}",
                i,
                j,
                seen,
                expected
            );
        }
    }
    assert!(on_sphere > 100 && on_sky > 1000);
}

#[test]
fn glass_lets_the_sky_through() {
    let glass = Material::Dielectric(Dielectric::new(cs(1.5)));
    let world = one_sphere(glass);
    let r = Ray::new(cv(0.0, 0.0, 0.0), cv(0.0, 0.0, -1.0));
    for _ in 0..50 {
        let c = Camera::ray_color(&r, &world, 50);
        assert_eq!(*c.z(), Scalar::one());
        assert!(cclose(&c, 0.75, 0.85, 1.0, 1e-6));
    }
}

#[test]
fn pixel_colour_of_the_sky_is_the_mean_of_its_samples() {
    let c = camera(400, 16, 4);
    let empty: HittableList<Sphere> = HittableList::default();
    let p = c.pixel_color(&empty, 200, 0);
    let unit_y = {
        let dv = 2.0 / 225.0;
        let y = 1.0 - dv / 2.0;
        y / (1.0f64 + y * y).sqrt()
    };
    let (r, g, b) = sky_at(unit_y);
    assert!(cclose(&p, r, g, b, 2e-3));
}

#[test]
fn pixel_colour_on_the_sphere_is_black_at_depth_one() {
    let c = camera(400, 4, 1);
    let world = one_sphere(matte());
    assert_eq!(c.pixel_color(&world, 200, 112), black());
}

#[test]
fn row_of_an_empty_scene() {
    let c = camera(8, 1, 1);
    let empty: HittableList<Sphere> = HittableList::default();
    assert_eq!(c.image_height(), 5);
    let text = c.render_row(&empty, 0);
    let lines = lines_of(&text);
    assert_eq!(lines.len(), 8);
    assert_eq!(*text.last().unwrap(), b'\n');
    for line in lines.iter() {
        assert_eq!(line.len(), 3);
        assert_eq!(line[2], 255);
        assert!(line[0] <= line[1] && line[1] <= 255);
    }
}

#[test]
fn image_of_an_empty_scene() {
    let c = camera(8, 2, 3);
    let empty: HittableList<Sphere> = HittableList::default();
    let text = c.render(&empty);
    assert!(text.starts_with(&header("8 5")));
    let lines = lines_of(&text[11..]);
    assert_eq!(lines.len(), 40);
    for line in lines.iter() {
        assert_eq!(line.len(), 3);
        for level in line.iter() {
            assert!(*level <= 255);
        }
    }
    let top = &lines[0];
    let bottom = &lines[39];
    assert!(top[0] > bottom[0]);
    assert!(top[1] > bottom[1]);
}

#[test]
fn image_is_the_header_then_the_rows() {
    let c = camera(16, 3, 1);
    let around = one_enclosing_sphere();
    assert_eq!(c.image_height(), 9);
    let mut expected = header("16 9");
    for _ in 0..16 * 9 {
        expected.extend_from_slice(b"0 0 0\n");
    }
    assert_eq!(c.render(&around), expected);
    let mut rows = header("16 9");
    for j in 0..9 {
        rows.extend_from_slice(&c.render_row(&around, j));
    }
    assert_eq!(rows, expected);
}

#[test]
fn image_without_bounces_is_black() {
    let c = camera(6, 2, 0);
    let empty: HittableList<Sphere> = HittableList::default();
    let mut expected = header("6 3");
    for _ in 0..6 * 3 {
        expected.extend_from_slice(b"0 0 0\n");
    }
    assert_eq!(c.render(&empty), expected);
    assert_eq!(c.pixel_color(&empty, 2, 1), black());
}

#[test]
fn single_sphere_with_one_sample_and_one_bounce() {
    let c = camera(400, 1, 1);
    let world = one_sphere(matte());
    let text = c.render(&world);
    assert!(text.starts_with(&header("400 225")));
    let lines = lines_of(&text[15..]);
    assert_eq!(lines.len(), 400 * 225);
    let du = 2.0 * (400.0 / 225.0) / 400.0;
    let dv = 2.0 / 225.0;
    let mut on_sphere = 0;
    for j in 0..225 {
        for i in 0..400 {
            let line = &lines[j * 400 + i];
            assert_eq!(line.len(), 3);
            let x = -(400.0 / 225.0) + du * (i as f64 + 0.5);
            let y = 1.0 - dv * (j as f64 + 0.5);
            let d2 = x * x + y * y + 1.0;
            let miss_by = 1.0 - 0.25 - 1.0 / d2;
            if miss_by < -0.02 {
                assert_eq!(*line, vec![0, 0, 0]);
                on_sphere += 1;
            } else if miss_by > 0.02 {
                let (r, g, b) = sky_at(y / d2.sqrt());
                assert!((line[0] - level_of(r)).abs() <= 1);
                assert!((line[1] - level_of(g)).abs() <= 1);
                assert_eq!(line[2], level_of(b));
                assert_eq!(line[2], 255);
            }
        }
    }
    assert!(on_sphere > 11500 && on_sphere < 12200);
    assert_eq!(lines[112 * 400 + 200], vec![0, 0, 0]);
    assert!((lines[0][0] - 237).abs() <= 1);
    assert!((lines[0][1] - 245).abs() <= 1);
    let last = &lines[224 * 400 + 200];
    assert!((last[0] - 194).abs() <= 1);
    assert!((last[1] - 220).abs() <= 1);
}

#[test]
fn ground_and_sphere_scene_renders_every_pixel() {
    let c = camera(40, 3, 5);
    let mut world = HittableList::default();
    world.add(Sphere::new(cv(0.0, 0.0, -1.0), cs(0.5), matte()));
    world.add(Sphere::new(cv(0.0, -100.5, -1.0), cs(100.0), matte()));
    let text = c.render(&world);
    assert!(text.starts_with(&header("40 23")));
    let lines = lines_of(&text[13..]);
    assert_eq!(lines.len(), 40 * 23);
    for line in lines.iter() {
        assert_eq!(line.len(), 3);
        for level in line.iter() {
            assert!(*level <= 255);
        }
    }
}
