use rt_core::hit::HitRecord;
use rt_core::material::Dielectric;
use rt_core::material::Lambertian;
use rt_core::material::Material;
use rt_core::material::Metal;
use rt_core::ray::Ray;
use rt_core::scalar::Scalar;
use rt_core::vec3::Color;
use rt_core::vec3::Vector3;

fn ms(x: f64) -> Scalar {
    Scalar::from_raw((x * 4294967296.0).round() as i64)
}

fn mf(a: &Scalar) -> f64 {
    a.raw() as f64 / 4294967296.0
}

fn mv(x: f64, y: f64, z: f64) -> Vector3 {
    Vector3::new(ms(x), ms(y), ms(z))
}

fn mraw(x: i64, y: i64, z: i64) -> Vector3 {
    Vector3::new(Scalar::from_raw(x), Scalar::from_raw(y), Scalar::from_raw(z))
}

fn mclose(a: &Vector3, x: f64, y: f64, z: f64, tol: f64) -> bool {
    (mf(a.x()) - x).abs() <= tol && (mf(a.y()) - y).abs() <= tol && (mf(a.z()) - z).abs() <= tol
}

fn floor_hit(front_face: bool, mat: Material) -> HitRecord {
    HitRecord { p: mv(1.0, 0.0, 2.0), normal: mv(0.0, 1.0, 0.0), t: ms(3.0), front_face, mat }
}

fn white() -> Color {
    mv(1.0, 1.0, 1.0)
}

#[test]
fn lambertian_sends_along_normal_plus_draw() {
    let m = Lambertian::new(mv(0.1, 0.2, 0.3));
    let rec = floor_hit(true, Material::Lambertian(m));
    let (attenuation, scattered) = m.scatter_with(&rec, mv(1.0, 0.0, 0.0)).unwrap();
    assert_eq!(attenuation, mv(0.1, 0.2, 0.3));
    assert_eq!(*scattered.origin(), mv(1.0, 0.0, 2.0));
    assert_eq!(*scattered.direction(), mv(1.0, 1.0, 0.0));
    let (_, up) = m.scatter_with(&rec, mv(0.0, 1.0, 0.0)).unwrap();
    assert_eq!(*up.direction(), mv(0.0, 2.0, 0.0));
}

#[test]
fn lambertian_falls_back_to_the_normal() {
    let m = Lambertian::new(mv(0.1, 0.2, 0.3));
    let rec = floor_hit(true, Material::Lambertian(m));
    let (attenuation, scattered) = m.scatter_with(&rec, mv(0.0, -1.0, 0.0)).unwrap();
    assert_eq!(attenuation, mv(0.1, 0.2, 0.3));
    assert_eq!(*scattered.direction(), mv(0.0, 1.0, 0.0));
    let almost = mraw(42, -4294967296 + 42, 0);
    let (_, again) = m.scatter_with(&rec, almost).unwrap();
    assert_eq!(*again.direction(), mv(0.0, 1.0, 0.0));
    let not_quite = mraw(43, -4294967296, 0);
    let (_, kept) = m.scatter_with(&rec, not_quite).unwrap();
    assert_eq!(*kept.direction(), mraw(43, 0, 0));
}

#[test]
fn lambertian_never_absorbs() {
    let m = Lambertian::new(mv(0.7, 0.6, 0.5));
    let rec = floor_hit(true, Material::Lambertian(m));
    let ray_in = Ray::new(mv(1.0, 3.0, 2.0), mv(0.0, -1.0, 0.0));
    for _ in 0..300 {
        let (attenuation, scattered) = m.scatter(&ray_in, &rec).unwrap();
        assert_eq!(attenuation, mv(0.7, 0.6, 0.5));
        assert_eq!(*scattered.origin(), rec.p);
        assert!(!scattered.direction().near_zero());
        let draw = *scattered.direction() - rec.normal;
        assert!((mf(&draw.length()) - 1.0).abs() < 1e-3 || *scattered.direction() == rec.normal);
    }
}

#[test]
fn polished_metal_mirrors() {
    let m = Metal::new(mv(0.8, 0.6, 0.2), Scalar::zero());
    let rec = floor_hit(true, Material::Metal(m));
    let ray_in = Ray::new(mv(0.0, 1.0, 2.0), mv(1.0, -1.0, 0.0));
    let (attenuation, scattered) = m.scatter_with(&ray_in, &rec, mv(0.0, -1.0, 0.0)).unwrap();
    assert_eq!(attenuation, mv(0.8, 0.6, 0.2));
    assert_eq!(*scattered.origin(), mv(1.0, 0.0, 2.0));
    let h = 0.5f64.sqrt();
    assert!(mclose(scattered.direction(), h, h, 0.0, 1e-8));
    assert_eq!(*scattered.direction(), mv(1.0, 1.0, 0.0).unit_vector());
}

#[test]
fn fuzz_moves_the_mirrored_direction_by_the_draw() {
    let m = Metal::new(mv(0.8, 0.6, 0.2), ms(0.5));
    let rec = floor_hit(true, Material::Metal(m));
    let ray_in = Ray::new(mv(0.0, 1.0, 2.0), mv(1.0, -1.0, 0.0));
    let (_, scattered) = m.scatter_with(&ray_in, &rec, mv(0.0, 0.0, 1.0)).unwrap();
    let h = 0.5f64.sqrt();
    assert!(mclose(scattered.direction(), h, h, 0.5, 1e-8));
    assert_eq!(*scattered.direction(), mv(1.0, 1.0, 0.0).unit_vector() + mv(0.0, 0.0, 0.5));
}

#[test]
fn metal_absorbs_what_would_enter_the_surface() {
    let m = Metal::new(mv(0.8, 0.6, 0.2), Scalar::one());
    let rec = floor_hit(true, Material::Metal(m));
    let ray_in = Ray::new(mv(0.0, 1.0, 2.0), mv(1.0, -1.0, 0.0));
    assert!(m.scatter_with(&ray_in, &rec, mv(0.0, -1.0, 0.0)).is_none());
    assert!(m.scatter_with(&ray_in, &rec, mv(0.0, 1.0, 0.0)).is_some());
    let level = Ray::new(mv(0.0, 0.0, 2.0), mv(1.0, 0.0, 0.0));
    assert!(m.scatter_with(&level, &rec, mv(0.0, 0.0, 1.0)).is_none());
}

#[test]
fn metal_mirrors_a_short_direction() {
    let m = Metal::new(mv(0.8, 0.6, 0.2), ms(0.5));
    let rec = floor_hit(true, Material::Metal(m));
    let ray_in = Ray::new(mv(0.0, 1.0, 2.0), mraw(0, -100, 0));
    let (_, scattered) = m.scatter_with(&ray_in, &rec, mv(1.0, 0.0, 0.0)).unwrap();
    assert_eq!(*scattered.direction(), mv(0.5, 1.0, 0.0));
    let tilted = HitRecord {
        p: mv(0.0, 0.0, 0.0),
        normal: mv(0.0, 0.6, 0.8),
        t: ms(1.0),
        front_face: true,
        mat: Material::Metal(m),
    };
    let slanted = Ray::new(mv(0.0, 1.0, 2.0), mraw(3, -7, -2));
    let (_, s) = m.scatter_with(&slanted, &tilted, mv(0.0, 0.0, 0.0)).unwrap();
    let d = (3.0f64, -7.0f64, -2.0f64);
    let dn = d.1 * 0.6 + d.2 * 0.8;
    let r = (d.0, d.1 - 2.0 * dn * 0.6, d.2 - 2.0 * dn * 0.8);
    let len = (r.0 * r.0 + r.1 * r.1 + r.2 * r.2).sqrt();
    assert!(mclose(s.direction(), r.0 / len, r.1 / len, r.2 / len, 1e-8));
}

#[test]
fn metal_absorbs_a_ray_without_direction() {
    let m = Metal::new(mv(0.8, 0.6, 0.2), Scalar::zero());
    let rec = floor_hit(true, Material::Metal(m));
    let ray_in = Ray::new(mv(0.0, 1.0, 2.0), mv(0.0, 0.0, 0.0));
    assert!(m.scatter_with(&ray_in, &rec, mv(0.0, 1.0, 0.0)).is_none());
    assert!(m.scatter(&ray_in, &rec).is_none());
}

#[test]
fn fuzz_is_held_between_zero_and_one() {
    let ray_in = Ray::new(mv(0.0, 1.0, 2.0), mv(1.0, -1.0, 0.0));
    let draw = mv(0.0, 0.0, 1.0);
    let h = 0.5f64.sqrt();
    let high = Metal::new(mv(0.8, 0.6, 0.2), ms(5.0));
    let (_, s) = high.scatter_with(&ray_in, &floor_hit(true, Material::Metal(high)), draw).unwrap();
    assert!(mclose(s.direction(), h, h, 1.0, 1e-8));
    assert_eq!(high, Metal::new(mv(0.8, 0.6, 0.2), Scalar::one()));
    let low = Metal::new(mv(0.8, 0.6, 0.2), ms(-3.0));
    let (_, s) = low.scatter_with(&ray_in, &floor_hit(true, Material::Metal(low)), draw).unwrap();
    assert!(mclose(s.direction(), h, h, 0.0, 1e-8));
    assert_eq!(low, Metal::new(mv(0.8, 0.6, 0.2), Scalar::zero()));
}

#[test]
fn fuzzy_metal_stays_near_the_mirrored_direction() {
    let fuzz = 0.3;
    let m = Metal::new(mv(0.8, 0.6, 0.2), ms(fuzz));
    let rec = floor_hit(true, Material::Metal(m));
    let ray_in = Ray::new(mv(0.0, 1.0, 2.0), mv(1.0, -1.0, 0.0));
    let mirrored = mv(1.0, 1.0, 0.0).unit_vector();
    let mut first: Option<Vector3> = None;
    let mut varies = false;
    for _ in 0..300 {
        match m.scatter(&ray_in, &rec) {
            Some((attenuation, scattered)) => {
                assert_eq!(attenuation, mv(0.8, 0.6, 0.2));
                let deviation = *scattered.direction() - mirrored;
                assert!(mf(&deviation.length()) <= fuzz + 1e-8);
                assert!(scattered.direction().dot(&rec.normal).gt(&Scalar::zero()));
                match first {
                    Some(d) => varies = varies || d != *scattered.direction(),
                    None => first = Some(*scattered.direction()),
                }
            }
            None => panic!("a cone this narrow does not reach the surface"),
        }
    }
    assert!(varies);
}

#[test]
fn grazing_fuzzy_metal_absorbs_some_rays() {
    let m = Metal::new(mv(0.8, 0.6, 0.2), Scalar::one());
    let rec = floor_hit(true, Material::Metal(m));
    let ray_in = Ray::new(mv(0.0, 1.0, 2.0), mv(1.0, -0.05, 0.0));
    let mut absorbed = 0;
    let mut sent_on = 0;
    for _ in 0..1000 {
        match m.scatter(&ray_in, &rec) {
            Some((_, scattered)) => {
                assert!(scattered.direction().dot(&rec.normal).gt(&Scalar::zero()));
                sent_on += 1;
            }
            None => absorbed += 1,
        }
    }
    assert!(absorbed > 300 && absorbed < 650, "absorbed {}", absorbed);
    assert_eq!(absorbed + sent_on, 1000);
}

#[test]
fn glass_refracts_a_ray_straight_down() {
    let m = Dielectric::new(ms(1.5));
    let rec = floor_hit(true, Material::Dielectric(m));
    let ray_in = Ray::new(mv(1.0, 3.0, 2.0), mv(0.0, -2.0, 0.0));
    let (attenuation, scattered) = m.scatter_with(&ray_in, &rec, ms(0.5)).unwrap();
    assert_eq!(attenuation, white());
    assert_eq!(*scattered.origin(), mv(1.0, 0.0, 2.0));
    assert_eq!(*scattered.direction(), mv(0.0, -1.0, 0.0));
}

#[test]
fn glass_reflects_where_the_draw_is_below_the_reflectance() {
    let m = Dielectric::new(ms(1.5));
    let rec = floor_hit(true, Material::Dielectric(m));
    let ray_in = Ray::new(mv(1.0, 3.0, 2.0), mv(0.0, -2.0, 0.0));
    let (attenuation, scattered) = m.scatter_with(&ray_in, &rec, ms(0.03)).unwrap();
    assert_eq!(attenuation, white());
    assert_eq!(*scattered.direction(), mv(0.0, 1.0, 0.0));
    let (_, through) = m.scatter_with(&ray_in, &rec, ms(0.05)).unwrap();
    assert_eq!(*through.direction(), mv(0.0, -1.0, 0.0));
}

#[test]
fn glass_bends_a_slanted_ray_by_snells_law() {
    let m = Dielectric::new(ms(1.5));
    let rec = floor_hit(true, Material::Dielectric(m));
    let ray_in = Ray::new(mv(0.0, 1.0, 2.0), mv(0.6, -0.8, 0.0));
    let (_, scattered) = m.scatter_with(&ray_in, &rec, Scalar::one()).unwrap();
    let sin_out: f64 = 0.6 / 1.5;
    let cos_out = (1.0 - sin_out * sin_out).sqrt();
    assert!(mclose(scattered.direction(), sin_out, -cos_out, 0.0, 1e-8));
}

#[test]
fn glass_reflects_all_light_beyond_the_critical_angle() {
    let m = Dielectric::new(ms(1.5));
    let rec = floor_hit(false, Material::Dielectric(m));
    let ray_in = Ray::new(mv(0.0, 1.0, 2.0), mv(0.8, -0.6, 0.0));
    let (attenuation, scattered) = m.scatter_with(&ray_in, &rec, Scalar::one()).unwrap();
    assert_eq!(attenuation, white());
    assert!(mclose(scattered.direction(), 0.8, 0.6, 0.0, 1e-8));
    let steep = Ray::new(mv(0.0, 1.0, 2.0), mv(0.6, -0.8, 0.0));
    let (_, out) = m.scatter_with(&steep, &rec, Scalar::one()).unwrap();
    let sin_out: f64 = 0.6 * 1.5;
    let cos_out = (1.0 - sin_out * sin_out).sqrt();
    assert!(mclose(out.direction(), sin_out, -cos_out, 0.0, 1e-8));
}

#[test]
fn glass_never_absorbs_a_ray_with_a_direction() {
    let m = Dielectric::new(ms(1.5));
    for front in [true, false].iter() {
        let rec = floor_hit(*front, Material::Dielectric(m));
        for _ in 0..300 {
            let d = Vector3::random_in_range(ms(-1.0), ms(1.0));
            if d.length() == Scalar::zero() {
                continue;
            }
            let inward = Vector3::new(*d.x(), -d.y().abs(), *d.z());
            let ray_in = Ray::new(mv(0.0, 1.0, 2.0), inward);
            let (attenuation, scattered) = m.scatter(&ray_in, &rec).unwrap();
            assert_eq!(attenuation, white());
            assert_eq!(*scattered.origin(), rec.p);
        }
    }
}

#[test]
fn glass_sends_on_a_short_direction() {
    let m = Dielectric::new(ms(1.5));
    let rec = floor_hit(true, Material::Dielectric(m));
    let level = Ray::new(mv(0.0, 1.0, 2.0), mraw(100, 0, 0));
    let (attenuation, scattered) = m.scatter(&level, &rec).unwrap();
    assert_eq!(attenuation, white());
    assert_eq!(*scattered.origin(), rec.p);
    let down = Ray::new(mv(0.0, 1.0, 2.0), mraw(0, -3, 0));
    let (_, through) = m.scatter_with(&down, &rec, ms(0.5)).unwrap();
    assert_eq!(*through.direction(), mv(0.0, -1.0, 0.0));
}

#[test]
fn lambertian_does_not_send_into_the_surface() {
    let m = Lambertian::new(mv(0.7, 0.6, 0.5));
    let normal = mv(1.0, 1.0, 1.0).unit_vector();
    let rec = HitRecord {
        p: mv(0.0, 0.0, 0.0),
        normal,
        t: ms(1.0),
        front_face: true,
        mat: Material::Lambertian(m),
    };
    let against = -mraw(65536, 65535, 65535).unit_vector();
    let (_, scattered) = m.scatter_with(&rec, against).unwrap();
    assert!(scattered.direction().dot(&normal).raw() >= -32);
    let ray_in = Ray::new(mv(1.0, 3.0, 2.0), mv(0.0, -1.0, 0.0));
    for _ in 0..500 {
        let (_, s) = m.scatter(&ray_in, &rec).unwrap();
        assert!(s.direction().dot(&normal).raw() >= -32);
    }
}

#[test]
fn glass_absorbs_what_admits_no_refraction() {
    let m = Dielectric::new(ms(1.5));
    let rec = floor_hit(true, Material::Dielectric(m));
    let still = Ray::new(mv(0.0, 1.0, 2.0), mv(0.0, 0.0, 0.0));
    assert!(m.scatter_with(&still, &rec, ms(0.5)).is_none());
    assert!(m.scatter(&still, &rec).is_none());
    let ray_in = Ray::new(mv(1.0, 3.0, 2.0), mv(0.0, -1.0, 0.0));
    let void = Dielectric::new(Scalar::zero());
    let from_outside = floor_hit(true, Material::Dielectric(void));
    let from_inside = floor_hit(false, Material::Dielectric(void));
    assert!(void.scatter_with(&ray_in, &from_outside, ms(0.5)).is_none());
    assert!(void.scatter_with(&ray_in, &from_inside, ms(0.5)).is_some());
    let odd = Dielectric::new(ms(-1.0));
    let from_outside = floor_hit(true, Material::Dielectric(odd));
    let from_inside = floor_hit(false, Material::Dielectric(odd));
    assert!(odd.scatter_with(&ray_in, &from_outside, ms(0.5)).is_none());
    assert!(odd.scatter_with(&ray_in, &from_inside, ms(0.5)).is_none());
}

#[test]
fn material_hands_the_ray_to_its_kind() {
    let ray_in = Ray::new(mv(0.0, 1.0, 2.0), mv(1.0, -1.0, 0.0));
    let diffuse = Material::Lambertian(Lambertian::new(mv(0.1, 0.2, 0.3)));
    let (a, _) = diffuse.scatter(&ray_in, &floor_hit(true, diffuse)).unwrap();
    assert_eq!(a, mv(0.1, 0.2, 0.3));
    let mirror = Material::Metal(Metal::new(mv(0.4, 0.5, 0.6), Scalar::zero()));
    let (a, s) = mirror.scatter(&ray_in, &floor_hit(true, mirror)).unwrap();
    assert_eq!(a, mv(0.4, 0.5, 0.6));
    assert_eq!(*s.direction(), mv(1.0, 1.0, 0.0).unit_vector());
    let glass = Material::Dielectric(Dielectric::new(ms(1.5)));
    let (a, _) = glass.scatter(&ray_in, &floor_hit(true, glass)).unwrap();
    assert_eq!(a, white());
}

#[test]
fn attenuation_of_physical_materials_lies_between_zero_and_one() {
    let ray_in = Ray::new(mv(0.0, 1.0, 2.0), mv(0.3, -1.0, 0.2));
    let materials = [
        Material::Lambertian(Lambertian::new(mv(0.0, 0.5, 1.0))),
        Material::Metal(Metal::new(mv(1.0, 0.25, 0.0), ms(0.2))),
        Material::Dielectric(Dielectric::new(ms(1.33))),
    ];
    for m in materials.iter() {
        for _ in 0..100 {
            if let Some((attenuation, _)) = m.scatter(&ray_in, &floor_hit(true, *m)) {
                for k in 0..3 {
                    assert!(Scalar::zero().le(&attenuation[k]));
                    assert!(attenuation[k].le(&Scalar::one()));
                }
            }
        }
    }
}
