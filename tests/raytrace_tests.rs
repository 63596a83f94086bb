use rand::rngs::StdRng;
use rand::SeedableRng;
use raytrace::camera::Camera;
use raytrace::fixed::{floor_div, fx_div, fx_mul, fx_sqrt, isqrt, ONE};
use raytrace::hit::{Hit, HitList, Sphere};
use raytrace::material::{schlik, Dielectric, Lambertian, Material, Metal};
use raytrace::random::{ball_candidate, unit_from, unit_vec3, vec3_in_unit_disc, vec3_in_unit_sphere};
use raytrace::ray::Ray3;
use raytrace::render::{background, finish_channel, render, render_pixel, screen_coords, Settings};
use raytrace::vec3::Vec3;

fn v(x: i64, y: i64, z: i64) -> Vec3 {
    Vec3::new(x, y, z)
}

fn raw_len_sq(a: Vec3) -> i128 {
    a.raw_dot(a)
}

fn grey() -> Material {
    Material::Lambertian(Lambertian { albedo: v(ONE / 2, ONE / 2, ONE / 2) })
}

fn sphere(center: Vec3, radius: i64, material: Material) -> Sphere {
    Sphere::new(center, radius, material).unwrap()
}

#[test]
fn scalar_arithmetic_rounds_down() {
    assert_eq!(floor_div(-7, 2), -4);
    assert_eq!(floor_div(7, 2), 3);
    assert_eq!(fx_mul(3 * ONE / 2, 2 * ONE), 3 * ONE);
    assert_eq!(fx_mul(-1, ONE / 2), -1);
    assert_eq!(fx_div(ONE, 3 * ONE), 333_333);
    assert_eq!(isqrt(16), 4);
    assert_eq!(isqrt(17), 4);
    assert_eq!(isqrt(0), 0);
    assert_eq!(fx_sqrt(ONE / 4), ONE / 2);
}

#[test]
fn vector_operations() {
    let a = v(ONE, 2 * ONE, 3 * ONE);
    let b = v(4 * ONE, 5 * ONE, 6 * ONE);
    assert_eq!(a.add(b), v(5 * ONE, 7 * ONE, 9 * ONE));
    assert_eq!(a.sub(b), v(-3 * ONE, -3 * ONE, -3 * ONE));
    assert_eq!(a.dot(b), 32 * ONE);
    assert_eq!(a.cross(b), v(-3 * ONE, 6 * ONE, -3 * ONE));
    assert_eq!(a.hadamard(b), v(4 * ONE, 10 * ONE, 18 * ONE));
    assert_eq!(a.scale(ONE / 2), v(ONE / 2, ONE, 3 * ONE / 2));
    assert_eq!(b.div_by(2 * ONE), v(2 * ONE, 5 * ONE / 2, 3 * ONE));
    assert_eq!(v(3 * ONE, 4 * ONE, 0).length(), 5 * ONE);
    assert_eq!(v(3 * ONE, 4 * ONE, 0).length_squared(), 25 * ONE);
}

#[test]
fn components_saturate() {
    let big = v(i64::MAX, i64::MIN, 0);
    assert_eq!(big, v(1_000_000_000_000, -1_000_000_000_000, 0));
    assert_eq!(big.add(big), big);
}

#[test]
fn normalized_has_unit_length() {
    assert_eq!(v(3 * ONE, 4 * ONE, 0).normalized(), v(600_000, 800_000, 0));
    for &(x, y, z) in &[(ONE, 2 * ONE, 3 * ONE), (-7 * ONE, ONE / 3, 12 * ONE), (123_456_789, -987_654, 5)] {
        let n = v(x, y, z).normalized();
        let l = raw_len_sq(n);
        let one = ONE as i128;
        assert!(l >= one * one - 9 * one && l <= one * one + 9 * one, "{:?} {}", n, l);
    }
}

#[test]
fn normalized_zero_is_zero() {
    assert_eq!(Vec3::zero().normalized(), Vec3::zero());
}

#[test]
fn reflection_negates_normal_part() {
    let d = v(ONE, -ONE, 0);
    let n = v(0, ONE, 0);
    let r = d.reflect(n);
    assert_eq!(r, v(ONE, ONE, 0));
    assert_eq!(r.dot(n), -d.dot(n));
    assert_eq!(raw_len_sq(r), raw_len_sq(d));
    let n2 = v(600_000, 800_000, 0);
    let d2 = v(2 * ONE, 3 * ONE, -5 * ONE);
    let r2 = d2.reflect(n2);
    assert_eq!(r2.dot(n2), -d2.dot(n2));
    assert_eq!(raw_len_sq(r2), raw_len_sq(d2));
}

#[test]
fn ray_at() {
    let r = Ray3 { origin: v(ONE, 0, 0), direction: v(0, ONE, 0) };
    assert_eq!(r.at(5 * ONE / 2), v(ONE, 5 * ONE / 2, 0));
}

#[test]
fn sphere_hit_from_outside() {
    let s = sphere(Vec3::zero(), ONE, grey());
    let ray = Ray3 { origin: v(0, 0, -5 * ONE), direction: v(0, 0, ONE) };
    let h = s.hit(ray, 10, 1_000_000_000_000).unwrap();
    assert_eq!(h, Hit { point: v(0, 0, -ONE), normal: v(0, 0, -ONE), t: 4 * ONE, front_face: true });
}

#[test]
fn sphere_hit_from_inside_is_back_face() {
    let s = sphere(Vec3::zero(), ONE, grey());
    let ray = Ray3 { origin: Vec3::zero(), direction: v(0, 0, ONE) };
    let h = s.hit(ray, 10, 1_000_000_000_000).unwrap();
    assert_eq!(h, Hit { point: v(0, 0, ONE), normal: v(0, 0, -ONE), t: ONE, front_face: false });
}

#[test]
fn sphere_hit_lies_on_surface() {
    // The ray passes through (-0.8, 0.6, 0) and (0.8, 0.6, 0) on the unit sphere.
    let s = sphere(Vec3::zero(), ONE, grey());
    let ray = Ray3 { origin: v(-5 * ONE, 600_000, 0), direction: v(ONE, 0, 0) };
    let h = s.hit(ray, 10, 1_000_000_000_000).unwrap();
    assert_eq!(h.t, 4_200_000);
    assert_eq!(h.point, v(-800_000, 600_000, 0));
    assert!((h.point.sub(s.center).length() - ONE).abs() <= 1);
    assert_eq!(h.normal, h.point.sub(s.center).div_by(ONE));
    let off = Ray3 { origin: v(-5 * ONE, 0, 0), direction: v(ONE, ONE / 10, ONE / 20).normalized() };
    let h2 = s.hit(off, 10, 1_000_000_000_000).unwrap();
    let p = off.at(h2.t);
    assert!((p.length() - ONE).abs() <= 10, "{:?}", p);
    let c = h2.normal.cross(h2.point);
    assert!(c.x.abs() <= 2 && c.y.abs() <= 2 && c.z.abs() <= 2, "{:?}", c);
}

#[test]
fn sphere_hit_excludes_t_max() {
    let s = sphere(Vec3::zero(), ONE, grey());
    let ray = Ray3 { origin: v(-5 * ONE, 600_000, 0), direction: v(ONE, 0, 0) };
    assert_eq!(s.hit(ray, 10, 4_200_000), None);
    assert_eq!(s.hit(ray, 10, 4_200_001).unwrap().t, 4_200_000);
    assert_eq!(s.hit(ray, 4_200_001, 5_000_000), None);
    assert_eq!(s.hit(ray, 4_200_000, 5_000_000).unwrap().t, 4_200_000);
    assert_eq!(s.hit(ray, 4_200_001, 6_000_000).unwrap().t, 5_800_000);
}

#[test]
fn sphere_missed() {
    let s = sphere(Vec3::zero(), ONE, grey());
    let ray = Ray3 { origin: v(-5 * ONE, 2 * ONE, 0), direction: v(ONE, 0, 0) };
    assert_eq!(s.hit(ray, 10, 1_000_000_000_000), None);
    let tangent = Ray3 { origin: v(-5 * ONE, ONE, 0), direction: v(ONE, 0, 0) };
    assert_eq!(s.hit(tangent, 10, 1_000_000_000_000), None);
}

#[test]
fn degenerate_sphere_rejected() {
    assert_eq!(Sphere::new(Vec3::zero(), 0, grey()), None);
    assert_eq!(Sphere::new(Vec3::zero(), -ONE, grey()), None);
    let bright = Material::Lambertian(Lambertian { albedo: v(2 * ONE, 0, 0) });
    assert_eq!(Sphere::new(Vec3::zero(), ONE, bright), None);
    let fuzzy = Material::Metal(Metal { albedo: v(ONE, ONE, ONE), fuzz: 2 * ONE });
    assert_eq!(Sphere::new(Vec3::zero(), ONE, fuzzy), None);
    let odd = Material::Dielectric(Dielectric { refraction_index: 0 });
    assert_eq!(Sphere::new(Vec3::zero(), ONE, odd), None);
}

#[test]
fn nearest_hit_wins_in_any_order() {
    let red = Material::Lambertian(Lambertian { albedo: v(ONE, 0, 0) });
    let blue = Material::Lambertian(Lambertian { albedo: v(0, 0, ONE) });
    let near = sphere(v(0, 0, -3 * ONE), ONE, red);
    let far = sphere(v(0, 0, -4 * ONE), ONE, blue);
    let ray = Ray3 { origin: Vec3::zero(), direction: v(0, 0, -ONE) };
    for objects in [vec![near, far], vec![far, near]] {
        let scene = HitList { objects };
        let (h, m) = scene.hit(ray, 10, 1_000_000_000_000).unwrap();
        assert_eq!(h.t, 2 * ONE);
        assert_eq!(m, red);
    }
    assert_eq!(HitList { objects: vec![] }.hit(ray, 10, 1_000_000_000_000), None);
}

#[test]
fn lambertian_keeps_albedo() {
    let l = Lambertian { albedo: v(ONE / 4, ONE / 2, ONE) };
    let hit = Hit { point: v(0, ONE, 0), normal: v(0, ONE, 0), t: ONE, front_face: true };
    let s = l.scatter_from(hit, v(ONE, 0, 0));
    assert_eq!(s.attenuation, l.albedo);
    assert_eq!(s.scattered.origin, hit.point);
    assert_eq!(s.scattered.direction, v(707_106, 707_106, 0));
}

#[test]
fn black_albedo_absorbs() {
    let black = Material::Lambertian(Lambertian { albedo: Vec3::zero() });
    let scene = HitList { objects: vec![sphere(Vec3::zero(), ONE, black)] };
    let ray = Ray3 { origin: v(0, 0, -5 * ONE), direction: v(0, 0, ONE) };
    let mut rng = StdRng::seed_from_u64(3);
    for _ in 0..20 {
        assert_eq!(render_pixel(&scene, ray, 50, 10, 1_000_000_000_000, &mut rng), Vec3::zero());
    }
}

#[test]
fn attenuation_stays_in_unit_range() {
    let mut rng = StdRng::seed_from_u64(11);
    let hit = Hit { point: v(0, ONE, 0), normal: v(0, ONE, 0), t: ONE, front_face: true };
    let ray = Ray3 { origin: v(0, 2 * ONE, -ONE), direction: v(0, -707_106, 707_106) };
    let mats = [
        grey(),
        Material::Metal(Metal { albedo: v(ONE, ONE / 3, 0), fuzz: ONE / 2 }),
        Material::Dielectric(Dielectric { refraction_index: 1_500_000 }),
    ];
    for m in mats.iter() {
        for _ in 0..20 {
            let s = m.scatter(ray, hit, &mut rng);
            for c in [s.attenuation.x, s.attenuation.y, s.attenuation.z] {
                assert!((0..=ONE).contains(&c));
            }
        }
    }
}

#[test]
fn metal_without_fuzz_mirrors() {
    let m = Metal { albedo: v(ONE, ONE, ONE), fuzz: 0 };
    let hit = Hit { point: Vec3::zero(), normal: v(0, ONE, 0), t: ONE, front_face: true };
    let ray = Ray3 { origin: v(-ONE, ONE, 0), direction: v(600_000, -800_000, 0) };
    let s = m.scatter_from(ray, hit, v(ONE / 2, 0, 0));
    assert_eq!(s.scattered.direction, v(600_000, 800_000, 0));
    assert_eq!(s.attenuation, m.albedo);
}

#[test]
fn dielectric_never_tints() {
    let d = Dielectric { refraction_index: 1_500_000 };
    let hit = Hit { point: Vec3::zero(), normal: v(0, ONE, 0), t: ONE, front_face: true };
    let ray = Ray3 { origin: v(0, ONE, 0), direction: v(0, -ONE, 0) };
    for u in [0, 1, ONE / 2, ONE - 1] {
        assert_eq!(d.scatter_from(ray, hit, u).attenuation, v(ONE, ONE, ONE));
    }
    // Head-on, the reflectance is 0.04: a draw above it refracts straight through.
    assert_eq!(schlik(ONE, 666_666), 40_000);
    assert_eq!(d.scatter_from(ray, hit, ONE / 2).scattered.direction, v(0, -ONE, 0));
    assert_eq!(d.scatter_from(ray, hit, 0).scattered.direction, v(0, ONE, 0));
}

#[test]
fn total_internal_reflection_always_reflects() {
    let d = Dielectric { refraction_index: 1_500_000 };
    // Leaving the glass: the normal points back inside, the angle is past critical.
    let hit = Hit { point: Vec3::zero(), normal: v(0, -ONE, 0), t: ONE, front_face: false };
    let ray = Ray3 { origin: v(-ONE, -ONE, 0), direction: v(800_000, 600_000, 0) };
    for u in [0, ONE / 3, ONE / 2, ONE - 1] {
        assert_eq!(d.scatter_from(ray, hit, u).scattered.direction, v(800_000, -600_000, 0));
    }
}

#[test]
fn background_gradient() {
    let up = Ray3 { origin: Vec3::zero(), direction: v(0, ONE, 0) };
    let down = Ray3 { origin: Vec3::zero(), direction: v(0, -ONE, 0) };
    let level = Ray3 { origin: Vec3::zero(), direction: v(ONE, 0, 0) };
    assert_eq!(background(&up), v(500_000, 700_000, ONE));
    assert_eq!(background(&down), v(ONE, ONE, ONE));
    assert_eq!(background(&level), v(750_000, 850_000, ONE));
}

#[test]
fn empty_scene_shows_sky() {
    let scene = HitList { objects: vec![] };
    let mut rng = StdRng::seed_from_u64(1);
    let up = Ray3 { origin: Vec3::zero(), direction: v(0, ONE, 0) };
    assert_eq!(render_pixel(&scene, up, 50, 10, 1_000_000_000_000, &mut rng), v(500_000, 700_000, ONE));
}

#[test]
fn depth_exhausted_is_black() {
    let scene = HitList { objects: vec![sphere(Vec3::zero(), ONE, grey())] };
    let mut rng = StdRng::seed_from_u64(1);
    let ray = Ray3 { origin: v(0, 0, -5 * ONE), direction: v(0, 0, ONE) };
    assert_eq!(render_pixel(&scene, ray, 0, 10, 1_000_000_000_000, &mut rng), Vec3::zero());
}

#[test]
fn channel_bytes() {
    assert_eq!(finish_channel(50 * ONE, 50), 255);
    assert_eq!(finish_channel(0, 50), 0);
    assert_eq!(finish_channel(ONE / 4, 1), 128);
    assert_eq!(finish_channel(ONE / 100, 1), 25);
}

#[test]
fn screen_coordinates_flip_rows() {
    assert_eq!(screen_coords(0, 0, 4, 4, 0, 0), (0, ONE));
    assert_eq!(screen_coords(3, 3, 4, 4, ONE / 2, ONE / 2), (875_000, 125_000));
}

#[test]
fn samplers_stay_in_the_unit_ball() {
    let mut rng = StdRng::seed_from_u64(5);
    let one = ONE as i128;
    for _ in 0..200 {
        let b = vec3_in_unit_sphere(&mut rng);
        assert!(raw_len_sq(b) <= one * one);
        let d = vec3_in_unit_disc(&mut rng);
        assert!(raw_len_sq(d) <= one * one && d.z == 0);
        let u = unit_vec3(&mut rng);
        assert!((raw_len_sq(u) - one * one).abs() <= 20 * one, "{:?}", u);
    }
}

#[test]
fn ball_candidates() {
    assert_eq!(ball_candidate(ONE / 2, ONE / 2, ONE / 2), Some(Vec3::zero()));
    assert_eq!(ball_candidate(0, 0, 0), None);
    assert_eq!(ball_candidate(0, ONE / 2, ONE / 2), Some(v(-ONE, 0, 0)));
    assert_eq!(unit_from(0, v(ONE / 2, 0, 0)), v(0, 0, -ONE));
    assert_eq!(unit_from(ONE / 2, v(0, ONE / 3, 0)), v(0, ONE, 0));
}

#[test]
fn camera_frames_the_view() {
    let c = Camera::new(Vec3::zero(), v(0, 0, -ONE), v(0, ONE, 0), ONE, ONE, 0);
    assert_eq!(c.u, v(ONE, 0, 0));
    assert_eq!(c.v, v(0, ONE, 0));
    assert_eq!(c.horizontal, v(2 * ONE, 0, 0));
    assert_eq!(c.vertical, v(0, 2 * ONE, 0));
    assert_eq!(c.lower_left_corner, v(-ONE, -ONE, -ONE));
    assert_eq!(c.lens_radius, 0);
    let r = c.ray_through(ONE / 2, ONE / 2, Vec3::zero());
    assert_eq!(r, Ray3 { origin: Vec3::zero(), direction: v(0, 0, -ONE) });
    let mut rng = StdRng::seed_from_u64(9);
    assert_eq!(c.ray(ONE / 2, ONE / 2, &mut rng), r);
}

#[test]
fn lens_offsets_the_origin() {
    let c = Camera::new(Vec3::zero(), v(0, 0, -ONE), v(0, ONE, 0), ONE, ONE, 2 * ONE);
    assert_eq!(c.lens_radius, ONE);
    let r = c.ray_through(ONE / 2, ONE / 2, v(ONE / 2, 0, 0));
    assert_eq!(r.origin, v(ONE / 2, 0, 0));
}

fn small_scene() -> (Camera, HitList) {
    let camera = Camera::new(v(0, 0, 3 * ONE), Vec3::zero(), v(0, ONE, 0), ONE, ONE, 0);
    let scene = HitList { objects: vec![sphere(Vec3::zero(), ONE, grey())] };
    (camera, scene)
}

#[test]
fn render_is_reproducible_with_a_seed() {
    let (camera, scene) = small_scene();
    let settings = Settings::reference();
    let a = render(4, 4, &camera, &scene, &settings, &mut StdRng::seed_from_u64(42));
    let b = render(4, 4, &camera, &scene, &settings, &mut StdRng::seed_from_u64(42));
    assert_eq!(a.len(), 64);
    assert_eq!(a, b);
    for p in 0..16 {
        assert_eq!(a[4 * p + 3], 255);
    }
    // The corners see only sky; the centre sees the sphere, darker than the sky.
    assert!(a[0] > 0 && a[2] == 255);
    let centre = 4 * (4 + 1);
    assert!(a[centre] < a[0]);
}

#[test]
fn reference_settings() {
    let s = Settings::reference();
    assert_eq!((s.samples_per_pixel, s.max_depth, s.t_min, s.t_max), (50, 50, 10, 1_000_000_000_000));
}

#[test]
fn short_vectors_normalize_to_unit_length() {
    let one = ONE as i128;
    for &(x, y, z) in &[(1, 1, 0), (1, 0, 0), (-3, 4, 12), (2, -1, 1)] {
        let n = v(x, y, z).normalized();
        let l = raw_len_sq(n);
        assert!(l >= one * one - 9 * one && l <= one * one + 9 * one, "{:?} {}", n, l);
    }
    assert_eq!(v(1, 1, 0).normalized(), v(707_107, 707_107, 0));
}

#[test]
fn centre_heading_falls_back_to_x_axis() {
    assert_eq!(unit_from(ONE / 2, Vec3::zero()), v(ONE, 0, 0));
}

#[test]
fn black_metal_absorbs() {
    let black = Material::Metal(Metal { albedo: Vec3::zero(), fuzz: ONE / 4 });
    let scene = HitList { objects: vec![sphere(Vec3::zero(), ONE, black)] };
    let ray = Ray3 { origin: v(0, 0, -5 * ONE), direction: v(0, 0, ONE) };
    let mut rng = StdRng::seed_from_u64(4);
    for depth in [0, 1, 50] {
        assert_eq!(render_pixel(&scene, ray, depth, 10, 1_000_000_000_000, &mut rng), Vec3::zero());
    }
}

#[test]
fn empty_scene_renders_sky_bytes() {
    let camera = Camera::new(v(0, 0, 3 * ONE), Vec3::zero(), v(0, ONE, 0), ONE, ONE, 0);
    let scene = HitList { objects: vec![] };
    let settings = Settings { samples_per_pixel: 4, max_depth: 5, t_min: 10, t_max: 1_000_000_000_000 };
    let img = render(3, 2, &camera, &scene, &settings, &mut StdRng::seed_from_u64(8));
    assert_eq!(img.len(), 24);
    for p in 0..6 {
        assert!(img[4 * p] <= img[4 * p + 1] && img[4 * p + 1] <= img[4 * p + 2]);
        assert_eq!(img[4 * p + 2], 255);
    }
    // The top row looks further up than the bottom row, so it is bluer.
    assert!(img[0] < img[4 * 3]);
}

#[test]
fn large_ground_sphere_is_hit_without_saturation() {
    let ground = sphere(v(0, -1000 * ONE, -ONE), 1000 * ONE, grey());
    let origin = v(13 * ONE, 2 * ONE, 3 * ONE);
    let down = Ray3 { origin, direction: v(0, -ONE, 0) };
    let h = ground.hit(down, 10, 1_000_000_000_000).unwrap();
    // 1002 - sqrt(999815) = 2.0925049...
    assert_eq!(h.t, 2_092_505);
    assert!(h.front_face);
    let dir = v(0, -500_000, -866_000).normalized();
    assert_eq!(dir, v(0, -500_012, -866_020));
    let oblique = Ray3 { origin, direction: dir };
    let h2 = ground.hit(oblique, 10, 1_000_000_000_000).unwrap();
    assert_eq!(h2.t, 4_169_059);
    assert!(h2.front_face);
    let off = h2.point.sub(ground.center).length() - ground.radius;
    assert!(off.abs() <= 10, "{}", off);
}

#[test]
fn unit_from_stays_near_unit_length() {
    let one = ONE as i128;
    for &u in &[0, 1, ONE / 7, ONE / 2, ONE - 1] {
        for &(x, y) in &[(ONE, 0), (1, 1), (-ONE / 3, ONE / 2), (0, -5), (0, 0)] {
            let r = unit_from(u, v(x, y, 0));
            assert!((raw_len_sq(r) - one * one).abs() <= 20 * one, "{} {:?}", u, r);
        }
    }
}
