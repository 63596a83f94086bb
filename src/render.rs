//! The path integrator: radiance along a ray, and the whole image.
use vstd::prelude::*;
use vstd::arithmetic::div_mod::{
    lemma_div_by_multiple, lemma_div_is_ordered, lemma_div_pos_is_pos,
    lemma_fundamental_div_mod_converse,
};
use crate::camera::{ray_spec, Camera};
use crate::fixed::{clamp, clamp_wide, floor_div, fx_mul, fx_sqrt, in_range, lemma_isqrt_unique, mul_spec, root, LIM, ONE};
use crate::hit::{list_hit_spec, HitList, Sphere};
use crate::material::{is_colour, scatter_possible, Material, Scatter};
use crate::random::in_unit_ball;
use crate::ray::Ray3;
use crate::vec3::{
    add_spec, hadamard_spec, lemma_normalized_bounded, lemma_root_exists, scale_spec, sub_spec,
    unit_bounded, v3, Vec3,
};

verus! {

/// The parameters that trade time for quality.
#[derive(Clone, Copy, Debug, PartialEq, Eq, Structural)]
pub struct Settings {
    pub samples_per_pixel: u32,
    pub max_depth: u32,
    pub t_min: i64,
    pub t_max: i64,
}

/// The most samples a pixel may take, so that their sum stays representable.
pub const MAX_SAMPLES: u32 = 1_000_000;

/// The widest or tallest image, so that screen coordinates stay representable.
pub const MAX_SIDE: usize = 1_000_000;

impl Settings {
    pub open spec fn wf(self) -> bool {
        1 <= self.samples_per_pixel <= MAX_SAMPLES
    }

    /// Fifty samples per pixel, fifty bounces, and intersections from `1e-5` on.
    pub fn reference() -> (r: Settings)
        ensures
            r == (Settings { samples_per_pixel: 50, max_depth: 50, t_min: 10, t_max: LIM }),
            r.wf(),
    {
        Settings { samples_per_pixel: 50, max_depth: 50, t_min: 10, t_max: LIM }
    }
}

/// The sky: white at the bottom, `(0.5, 0.7, 1)` at the top, blended by the
/// direction's height.
pub open spec fn background_spec(ray: Ray3) -> Vec3 {
    let t = mul_spec((ONE / 2) as int, clamp(ray.direction.y + ONE));
    add_spec(
        scale_spec(clamp(ONE - t), v3(ONE as int, ONE as int, ONE as int)),
        scale_spec(t, v3(500_000, 700_000, ONE as int)),
    )
}

/// The byte for a channel whose samples sum to `sum` over `n` samples: the
/// average, its square root, scaled to 256 levels and capped at 255.
pub open spec fn channel_byte(sum: int, n: int) -> int {
    let g = root((sum / n) * ONE);
    let b = (g * 256) / (ONE as int);
    if b > 255 { 255 } else { b }
}

/// The horizontal screen coordinate of column `x` shifted by `off` in `[0, 1)`.
pub open spec fn screen_s(x: int, w: int, off: int) -> int {
    (x * ONE + off) / w
}

/// The vertical screen coordinate of row `y`, counted from the top.
pub open spec fn screen_t(y: int, h: int, off: int) -> int {
    ((h - y) * ONE - off) / h
}

/// A blend of two colours is a colour.
pub proof fn lemma_hadamard_colour(a: Vec3, b: Vec3)
    requires
        is_colour(a),
        is_colour(b),
    ensures
        is_colour(hadamard_spec(a, b)),
{
    lemma_mul_colour(a.x as int, b.x as int);
    lemma_mul_colour(a.y as int, b.y as int);
    lemma_mul_colour(a.z as int, b.z as int);
}

proof fn lemma_mul_colour(a: int, b: int)
    requires
        0 <= a <= ONE,
        0 <= b <= ONE,
    ensures
        0 <= (a * b) / (ONE as int) <= a,
{
    assert(0 <= a * b <= a * ONE) by (nonlinear_arith)
        requires
            0 <= a <= ONE,
            0 <= b <= ONE,
    ;
    lemma_div_is_ordered(a * b, a * ONE, ONE as int);
    lemma_div_by_multiple(a, ONE as int);
    lemma_div_pos_is_pos(a * b, ONE as int);
}

/// The sky seen along a direction of height in `[-1, 1]` is a colour.
pub proof fn lemma_background_colour(ray: Ray3)
    requires
        -ONE <= ray.direction.y <= ONE,
    ensures
        is_colour(background_spec(ray)),
{
    let y = ray.direction.y as int;
    let t = mul_spec((ONE / 2) as int, clamp(y + ONE));
    assert(0 <= t <= ONE) by {
        let q = ((ONE / 2) as int) * (y + ONE);
        assert(0 <= q <= ONE * ONE) by (nonlinear_arith)
            requires
                q == ((ONE / 2) as int) * (y + ONE),
                -ONE <= y <= ONE,
        ;
        lemma_div_is_ordered(q, (ONE as int) * (ONE as int), ONE as int);
        lemma_div_by_multiple(ONE as int, ONE as int);
        lemma_div_pos_is_pos(q, ONE as int);
    }
    lemma_mul_colour(t, 500_000);
    lemma_mul_colour(t, 700_000);
    lemma_div_by_multiple(t, ONE as int);
    lemma_div_by_multiple(ONE - t, ONE as int);
    assert((t * 500_000) / (ONE as int) <= t / 2 + 1) by {
        assert(t * 500_000 == (t / 2) * ONE + (t % 2) * 500_000) by (nonlinear_arith)
            requires
                t == 2 * (t / 2) + t % 2,
        ;
        assert(t * 500_000 < (t / 2 + 1) * ONE) by (nonlinear_arith)
            requires
                t * 500_000 == (t / 2) * ONE + (t % 2) * 500_000,
                0 <= t % 2 < 2,
        ;
        lemma_div_is_ordered(t * 500_000, (t / 2 + 1) * ONE, ONE as int);
        lemma_div_by_multiple(t / 2 + 1, ONE as int);
    }
}

/// The sky seen along `ray`.
pub fn background(ray: &Ray3) -> (r: Vec3)
    requires
        ray.wf(),
    ensures
        r == background_spec(*ray),
        r.wf(),
{
    let t = fx_mul(ONE / 2, clamp_wide(ray.direction.y as i128 + ONE as i128));
    let white = Vec3::new(ONE, ONE, ONE);
    let zenith = Vec3::new(500_000, 700_000, ONE);
    white.scale(clamp_wide(ONE as i128 - t as i128)).add(zenith.scale(t))
}

/// `r` is the light arriving along `ray` for some draws of the random stream:
/// the sky where nothing is hit, black where something is hit and no bounce is
/// left, and otherwise the bounce's attenuation times the light arriving along
/// the bounced ray with one bounce fewer.
pub open spec fn radiance_possible(
    objs: Seq<Sphere>,
    ray: Ray3,
    depth: nat,
    t_min: int,
    t_max: int,
    r: Vec3,
) -> bool
    decreases depth,
{
    match list_hit_spec(objs, ray, t_min, t_max) {
        None => r == background_spec(ray),
        Some((h, m)) => if depth == 0 {
            r == v3(0, 0, 0)
        } else {
            exists|s: Scatter, rest: Vec3|
                scatter_possible(m, ray, h, s) && radiance_possible(
                    objs,
                    s.scattered,
                    (depth - 1) as nat,
                    t_min,
                    t_max,
                    rest,
                ) && r == hadamard_spec(s.attenuation, rest)
        },
    }
}

/// A diffuse or metal surface of black albedo.
pub open spec fn is_black(m: Material) -> bool {
    match m {
        Material::Lambertian(l) => l.albedo == (Vec3 { x: 0, y: 0, z: 0 }),
        Material::Metal(mm) => mm.albedo == (Vec3 { x: 0, y: 0, z: 0 }),
        Material::Dielectric(_) => false,
    }
}

/// A black surface hit first leaves the ray black, however deep the bounces go
/// and whatever the sky.
pub proof fn lemma_black_surface_is_black(
    objs: Seq<Sphere>,
    ray: Ray3,
    depth: nat,
    t_min: int,
    t_max: int,
    r: Vec3,
)
    requires
        list_hit_spec(objs, ray, t_min, t_max) matches Some((h, m)) && is_black(m),
        radiance_possible(objs, ray, depth, t_min, t_max, r),
    ensures
        r == (Vec3 { x: 0, y: 0, z: 0 }),
{
    if depth > 0 {
        let (h, m) = list_hit_spec(objs, ray, t_min, t_max).unwrap();
        let (sc, rest) = choose|sc: Scatter, rest: Vec3|
            scatter_possible(m, ray, h, sc) && radiance_possible(
                objs,
                sc.scattered,
                (depth - 1) as nat,
                t_min,
                t_max,
                rest,
            ) && r == hadamard_spec(sc.attenuation, rest);
        assert(sc.attenuation == (Vec3 { x: 0, y: 0, z: 0 }));
        assert(0 * (rest.x as int) == 0 && 0 * (rest.y as int) == 0 && 0 * (rest.z as int) == 0);
        assert(r == hadamard_spec(sc.attenuation, rest));
    } else {
        assert(r == v3(0, 0, 0));
    }
}

/// The light arriving along `ray`, bounced through the scene at most `depth`
/// times; black once the bounces run out.
pub fn render_pixel(
    scene: &HitList,
    ray: Ray3,
    depth: u32,
    t_min: i64,
    t_max: i64,
    rng: &mut rand::rngs::StdRng,
) -> (r: Vec3)
    requires
        scene.wf(),
        ray.wf(),
        unit_bounded(ray.direction),
    ensures
        r.wf(),
        is_colour(r),
        radiance_possible(scene.objects@, ray, depth as nat, t_min as int, t_max as int, r),
    decreases depth,
{
    match scene.hit(ray, t_min, t_max) {
        Some((hit, mat)) => {
            if depth == 0 {
                return Vec3::zero();
            }
            let s = mat.scatter(ray, hit, rng);
            let rest = render_pixel(scene, s.scattered, depth - 1, t_min, t_max, rng);
            proof {
                lemma_hadamard_colour(s.attenuation, rest);
            }
            s.attenuation.hadamard(rest)
        },
        None => {
            proof {
                lemma_background_colour(ray);
            }
            background(&ray)
        },
    }
}

/// See `channel_byte`.
pub fn finish_channel(sum: i64, n: i64) -> (r: u8)
    requires
        0 <= sum <= LIM,
        0 < n,
    ensures
        r as int == channel_byte(sum as int, n as int),
{
    let avg = sum / n;
    proof {
        lemma_div_pos_is_pos(sum as int, n as int);
        assert(sum as int <= sum as int * n as int) by (nonlinear_arith)
            requires
                0 <= sum,
                0 < n,
        ;
        lemma_div_is_ordered(sum as int, sum as int * n as int, n as int);
        lemma_div_by_multiple(sum as int, n as int);
    }
    let g = fx_sqrt(avg);
    proof {
        lemma_isqrt_unique(avg as int * ONE, g as int, root(avg as int * ONE));
    }
    let b = floor_div(g as i128 * 256, ONE as i128);
    if b > 255 {
        255
    } else {
        proof {
            lemma_div_pos_is_pos(g as int * 256, ONE as int);
        }
        b as u8
    }
}

/// See `screen_s`.
pub fn screen_coords(x: usize, y: usize, w: usize, h: usize, x_off: i64, y_off: i64) -> (r: (i64, i64))
    requires
        x < w <= MAX_SIDE,
        y < h <= MAX_SIDE,
        0 <= x_off < ONE,
        0 <= y_off < ONE,
    ensures
        r.0 as int == screen_s(x as int, w as int, x_off as int),
        r.1 as int == screen_t(y as int, h as int, y_off as int),
        in_range(r.0 as int),
        in_range(r.1 as int),
{
    assert(0 <= x as int * ONE <= LIM && 0 <= (h - y) as int * ONE <= LIM) by (nonlinear_arith)
        requires
            x < w <= MAX_SIDE,
            y < h <= MAX_SIDE,
    ;
    let s = floor_div(x as i128 * ONE as i128 + x_off as i128, w as i128);
    let t = floor_div((h - y) as i128 * ONE as i128 - y_off as i128, h as i128);
    proof {
        let sn = x as int * ONE + x_off;
        let tn = (h - y) as int * ONE - y_off;
        assert(0 <= sn <= LIM && 0 <= tn <= LIM) by (nonlinear_arith)
            requires
                sn == x as int * ONE + x_off,
                tn == (h - y) as int * ONE - y_off,
                x < w <= MAX_SIDE,
                y < h <= MAX_SIDE,
                0 <= x_off < ONE,
                0 <= y_off < ONE,
        ;
        lemma_div_pos_is_pos(sn, w as int);
        lemma_div_pos_is_pos(tn, h as int);
        assert(sn <= sn * w as int && tn <= tn * h as int) by (nonlinear_arith)
            requires
                0 <= sn,
                0 <= tn,
                1 <= w,
                1 <= h,
        ;
        lemma_div_is_ordered(sn, sn * w as int, w as int);
        lemma_div_by_multiple(sn, w as int);
        lemma_div_is_ordered(tn, tn * h as int, h as int);
        lemma_div_by_multiple(tn, h as int);
    }
    (s as i64, t as i64)
}

/// `c` is the light of one sample of pixel `(x, y)`: a camera ray through a
/// jittered point of the pixel, from some point of the lens.
pub open spec fn sample_possible(
    camera: Camera,
    objs: Seq<Sphere>,
    settings: Settings,
    x: int,
    y: int,
    w: int,
    h: int,
    c: Vec3,
) -> bool {
    exists|xo: int, yo: int, disc: Vec3|
        0 <= xo < ONE && 0 <= yo < ONE && disc.wf() && in_unit_ball(disc) && disc.z == 0
            && radiance_possible(
            objs,
            ray_spec(camera, screen_s(x, w, xo), screen_t(y, h, yo), disc),
            settings.max_depth as nat,
            settings.t_min as int,
            settings.t_max as int,
            c,
        )
}

/// `s` is, channel by channel, the sum of `k` samples of pixel `(x, y)`.
pub open spec fn sum_possible(
    camera: Camera,
    objs: Seq<Sphere>,
    settings: Settings,
    x: int,
    y: int,
    w: int,
    h: int,
    k: nat,
    s: Vec3,
) -> bool
    decreases k,
{
    if k == 0 {
        s == (Vec3 { x: 0, y: 0, z: 0 })
    } else {
        exists|prev: Vec3, c: Vec3|
            sum_possible(camera, objs, settings, x, y, w, h, (k - 1) as nat, prev)
                && sample_possible(camera, objs, settings, x, y, w, h, c) && s.x == prev.x + c.x
                && s.y == prev.y + c.y && s.z == prev.z + c.z
    }
}

/// The four bytes of pixel number `q` finish the sums `s` of `n` samples.
pub open spec fn pixel_matches(bytes: Seq<u8>, q: int, s: Vec3, n: int) -> bool {
    bytes[4 * q] == channel_byte(s.x as int, n) && bytes[4 * q + 1] == channel_byte(s.y as int, n)
        && bytes[4 * q + 2] == channel_byte(s.z as int, n) && bytes[4 * q + 3] == 255
}

/// Pixel number `q`, at column `q % w` of row `q / w`, holds the finished sum of
/// its samples.
pub open spec fn pixel_ok(
    camera: Camera,
    objs: Seq<Sphere>,
    settings: Settings,
    w: int,
    h: int,
    bytes: Seq<u8>,
    q: int,
) -> bool {
    exists|s: Vec3|
        sum_possible(camera, objs, settings, q % w, q / w, w, h, settings.samples_per_pixel as nat, s)
            && pixel_matches(bytes, q, s, settings.samples_per_pixel as int)
}

/// The sum of the samples of one pixel.
fn sample_pixel(
    x: usize,
    y: usize,
    w: usize,
    h: usize,
    camera: &Camera,
    scene: &HitList,
    settings: &Settings,
    rng: &mut rand::rngs::StdRng,
) -> (r: Vec3)
    requires
        x < w <= MAX_SIDE,
        y < h <= MAX_SIDE,
        camera.wf(),
        scene.wf(),
        settings.wf(),
    ensures
        0 <= r.x <= LIM && 0 <= r.y <= LIM && 0 <= r.z <= LIM,
        sum_possible(
            *camera,
            scene.objects@,
            *settings,
            x as int,
            y as int,
            w as int,
            h as int,
            settings.samples_per_pixel as nat,
            r,
        ),
{
    let mut sum = Vec3::zero();
    let mut k: u32 = 0;
    while k < settings.samples_per_pixel
        invariant
            settings.wf(),
            camera.wf(),
            scene.wf(),
            x < w <= MAX_SIDE,
            y < h <= MAX_SIDE,
            k <= settings.samples_per_pixel,
            0 <= sum.x <= k * ONE,
            0 <= sum.y <= k * ONE,
            0 <= sum.z <= k * ONE,
            sum_possible(
                *camera,
                scene.objects@,
                *settings,
                x as int,
                y as int,
                w as int,
                h as int,
                k as nat,
                sum,
            ),
        decreases settings.samples_per_pixel - k,
    {
        let x_off = crate::random::uniform(rng);
        let y_off = crate::random::uniform(rng);
        let (s, t) = screen_coords(x, y, w, h, x_off, y_off);
        let ray = camera.ray(s, t, rng);
        let c = render_pixel(scene, ray, settings.max_depth, settings.t_min, settings.t_max, rng);
        proof {
            let disc = choose|d: Vec3|
                d.wf() && in_unit_ball(d) && d.z == 0 && ray == ray_spec(*camera, s as int, t as int, d);
            assert(radiance_possible(
                scene.objects@,
                ray_spec(
                    *camera,
                    screen_s(x as int, w as int, x_off as int),
                    screen_t(y as int, h as int, y_off as int),
                    disc,
                ),
                settings.max_depth as nat,
                settings.t_min as int,
                settings.t_max as int,
                c,
            ));
            assert(sample_possible(
                *camera,
                scene.objects@,
                *settings,
                x as int,
                y as int,
                w as int,
                h as int,
                c,
            ));
        }
        let ghost prev = sum;
        sum = Vec3 { x: sum.x + c.x, y: sum.y + c.y, z: sum.z + c.z };
        k = k + 1;
        proof {
            assert(sum_possible(
                *camera,
                scene.objects@,
                *settings,
                x as int,
                y as int,
                w as int,
                h as int,
                (k - 1) as nat,
                prev,
            ));
        }
    }
    sum
}

/// The image as rows of RGBA bytes, the top row first: pixel `(x, y)` takes
/// bytes `4 (y w + x)` to `4 (y w + x) + 3`, and its colour bytes finish the sum
/// of its samples.
pub fn render(
    w: usize,
    h: usize,
    camera: &Camera,
    scene: &HitList,
    settings: &Settings,
    rng: &mut rand::rngs::StdRng,
) -> (r: Vec<u8>)
    requires
        w <= MAX_SIDE,
        h <= MAX_SIDE,
        camera.wf(),
        scene.wf(),
        settings.wf(),
    ensures
        r@.len() == w * h * 4,
        forall|q: int|
            0 <= q < w * h ==> #[trigger] pixel_ok(
                *camera,
                scene.objects@,
                *settings,
                w as int,
                h as int,
                r@,
                q,
            ),
{
    let mut pixels: Vec<u8> = Vec::new();
    let n = settings.samples_per_pixel as i64;
    let ghost spp = settings.samples_per_pixel as nat;
    let ghost sums: Seq<Vec3> = Seq::empty();
    let mut y: usize = 0;
    while y < h
        invariant
            w <= MAX_SIDE,
            h <= MAX_SIDE,
            y <= h,
            camera.wf(),
            scene.wf(),
            settings.wf(),
            n == settings.samples_per_pixel,
            spp == settings.samples_per_pixel,
            pixels@.len() == 4 * (y * w),
            sums.len() == y * w,
            forall|q: int|
                0 <= q < sums.len() ==> sum_possible(
                    *camera,
                    scene.objects@,
                    *settings,
                    q % (w as int),
                    q / (w as int),
                    w as int,
                    h as int,
                    spp,
                    #[trigger] sums[q],
                ) && pixel_matches(pixels@, q, sums[q], n as int),
        decreases h - y,
    {
        let mut x: usize = 0;
        while x < w
            invariant
                w <= MAX_SIDE,
                h <= MAX_SIDE,
                y < h,
                x <= w,
                camera.wf(),
                scene.wf(),
                settings.wf(),
                n == settings.samples_per_pixel,
                spp == settings.samples_per_pixel,
                pixels@.len() == 4 * (y * w + x),
                sums.len() == y * w + x,
                forall|q: int|
                    0 <= q < sums.len() ==> sum_possible(
                        *camera,
                        scene.objects@,
                        *settings,
                        q % (w as int),
                        q / (w as int),
                        w as int,
                        h as int,
                        spp,
                        #[trigger] sums[q],
                    ) && pixel_matches(pixels@, q, sums[q], n as int),
            decreases w - x,
        {
            let c = sample_pixel(x, y, w, h, camera, scene, settings, rng);
            let ghost before = pixels@;
            pixels.push(finish_channel(c.x, n));
            pixels.push(finish_channel(c.y, n));
            pixels.push(finish_channel(c.z, n));
            pixels.push(255);
            proof {
                let q0 = y * w + x;
                lemma_fundamental_div_mod_converse(q0 as int, w as int, y as int, x as int);
                let old_sums = sums;
                sums = sums.push(c);
                assert forall|q: int| 0 <= q < sums.len() implies sum_possible(
                    *camera,
                    scene.objects@,
                    *settings,
                    q % (w as int),
                    q / (w as int),
                    w as int,
                    h as int,
                    spp,
                    #[trigger] sums[q],
                ) && pixel_matches(pixels@, q, sums[q], n as int) by {
                    if q < q0 {
                        assert(sums[q] == old_sums[q]);
                        assert(pixels@[4 * q] == before[4 * q]);
                        assert(pixels@[4 * q + 1] == before[4 * q + 1]);
                        assert(pixels@[4 * q + 2] == before[4 * q + 2]);
                        assert(pixels@[4 * q + 3] == before[4 * q + 3]);
                    }
                }
            }
            x = x + 1;
        }
        proof {
            assert(y * w + w == (y + 1) * w) by (nonlinear_arith);
        }
        y = y + 1;
    }
    proof {
        assert forall|q: int| 0 <= q < w * h implies #[trigger] pixel_ok(
            *camera,
            scene.objects@,
            *settings,
            w as int,
            h as int,
            pixels@,
            q,
        ) by {
            assert(h * w == w * h) by (nonlinear_arith);
            let s = sums[q];
            assert(sum_possible(
                *camera,
                scene.objects@,
                *settings,
                q % (w as int),
                q / (w as int),
                w as int,
                h as int,
                spp,
                s,
            ));
            assert(pixel_matches(pixels@, q, s, settings.samples_per_pixel as int));
        }
        assert(h * w == w * h) by (nonlinear_arith);
    }
    pixels
}

/// The sky is never redder than green, nor greener than blue.
proof fn lemma_background_ordered(ray: Ray3)
    requires
        -ONE <= ray.direction.y <= ONE,
    ensures
        ({
            let b = background_spec(ray);
            0 <= b.x <= b.y <= b.z
        }),
{
    lemma_background_colour(ray);
    let y = ray.direction.y as int;
    let t = mul_spec((ONE / 2) as int, clamp(y + ONE));
    let q = ((ONE / 2) as int) * (y + ONE);
    assert(0 <= q <= ONE * ONE) by (nonlinear_arith)
        requires
            q == ((ONE / 2) as int) * (y + ONE),
            -ONE <= y <= ONE,
    ;
    lemma_div_is_ordered(q, (ONE as int) * (ONE as int), ONE as int);
    lemma_div_by_multiple(ONE as int, ONE as int);
    lemma_div_pos_is_pos(q, ONE as int);
    assert(0 <= t <= ONE);
    assert(t * 500_000 <= t * 700_000 <= t * ONE) by (nonlinear_arith)
        requires
            0 <= t,
    ;
    lemma_div_is_ordered(t * 500_000, t * 700_000, ONE as int);
    lemma_div_is_ordered(t * 700_000, t * ONE, ONE as int);
    lemma_div_by_multiple(t, ONE as int);
    lemma_div_by_multiple(ONE - t, ONE as int);
}

/// The integer square root is monotone.
proof fn lemma_root_monotone(a: int, b: int)
    requires
        0 <= a <= b,
    ensures
        root(a) <= root(b),
{
    lemma_root_exists(a);
    lemma_root_exists(b);
    let (ra, rb) = (root(a), root(b));
    if ra > rb {
        assert((rb + 1) * (rb + 1) <= ra * ra) by (nonlinear_arith)
            requires
                0 <= rb + 1 <= ra,
        ;
    }
}

/// A larger sum never gives a smaller byte.
proof fn lemma_channel_byte_monotone(a: int, b: int, n: int)
    requires
        0 <= a <= b,
        n > 0,
    ensures
        channel_byte(a, n) <= channel_byte(b, n),
{
    lemma_div_is_ordered(a, b, n);
    lemma_div_pos_is_pos(a, n);
    assert((a / n) * ONE <= (b / n) * ONE) by (nonlinear_arith)
        requires
            a / n <= b / n,
    ;
    assert(0 <= (a / n) * ONE) by (nonlinear_arith)
        requires
            0 <= a / n,
    ;
    lemma_root_monotone((a / n) * ONE, (b / n) * ONE);
    let ga = root((a / n) * ONE);
    let gb = root((b / n) * ONE);
    assert(ga * 256 <= gb * 256);
    lemma_div_is_ordered(ga * 256, gb * 256, ONE as int);
}

/// In a scene with nothing in it a sample is the sky, ordered as the sky is.
proof fn lemma_empty_sample_ordered(
    camera: Camera,
    settings: Settings,
    x: int,
    y: int,
    w: int,
    h: int,
    c: Vec3,
)
    requires
        sample_possible(camera, Seq::<Sphere>::empty(), settings, x, y, w, h, c),
    ensures
        0 <= c.x <= c.y <= c.z,
{
    let (xo, yo, disc) = choose|xo: int, yo: int, disc: Vec3|
        0 <= xo < ONE && 0 <= yo < ONE && disc.wf() && in_unit_ball(disc) && disc.z == 0
            && radiance_possible(
            Seq::<Sphere>::empty(),
            ray_spec(camera, screen_s(x, w, xo), screen_t(y, h, yo), disc),
            settings.max_depth as nat,
            settings.t_min as int,
            settings.t_max as int,
            c,
        );
    let ray = ray_spec(camera, screen_s(x, w, xo), screen_t(y, h, yo), disc);
    assert(list_hit_spec(Seq::<Sphere>::empty(), ray, settings.t_min as int, settings.t_max as int) is None);
    let rd = scale_spec(camera.lens_radius as int, disc);
    let offset = add_spec(scale_spec(rd.x as int, camera.u), scale_spec(rd.y as int, camera.v));
    let target = add_spec(
        add_spec(camera.lower_left_corner, scale_spec(screen_s(x, w, xo), camera.horizontal)),
        scale_spec(screen_t(y, h, yo), camera.vertical),
    );
    lemma_normalized_bounded(sub_spec(target, offset));
    lemma_background_ordered(ray);
}

/// In a scene with nothing in it, sums of samples are ordered as the sky is.
proof fn lemma_empty_sum_ordered(
    camera: Camera,
    settings: Settings,
    x: int,
    y: int,
    w: int,
    h: int,
    k: nat,
    s: Vec3,
)
    requires
        sum_possible(camera, Seq::<Sphere>::empty(), settings, x, y, w, h, k, s),
    ensures
        0 <= s.x <= s.y <= s.z,
    decreases k,
{
    if k > 0 {
        let (prev, c) = choose|prev: Vec3, c: Vec3|
            sum_possible(camera, Seq::<Sphere>::empty(), settings, x, y, w, h, (k - 1) as nat, prev)
                && sample_possible(camera, Seq::<Sphere>::empty(), settings, x, y, w, h, c)
                && s.x == prev.x + c.x && s.y == prev.y + c.y && s.z == prev.z + c.z;
        lemma_empty_sum_ordered(camera, settings, x, y, w, h, (k - 1) as nat, prev);
        lemma_empty_sample_ordered(camera, settings, x, y, w, h, c);
    }
}

/// A scene with nothing in it renders every pixel no redder than green and no
/// greener than blue, as the sky is.
pub proof fn lemma_empty_scene_ordered(
    camera: Camera,
    settings: Settings,
    w: int,
    h: int,
    bytes: Seq<u8>,
    q: int,
)
    requires
        settings.wf(),
        pixel_ok(camera, Seq::<Sphere>::empty(), settings, w, h, bytes, q),
    ensures
        bytes[4 * q] <= bytes[4 * q + 1] <= bytes[4 * q + 2],
{
    let n = settings.samples_per_pixel as int;
    let s = choose|s: Vec3|
        sum_possible(camera, Seq::<Sphere>::empty(), settings, q % w, q / w, w, h, n as nat, s)
            && pixel_matches(bytes, q, s, n);
    lemma_empty_sum_ordered(camera, settings, q % w, q / w, w, h, n as nat, s);
    lemma_channel_byte_monotone(s.x as int, s.y as int, n);
    lemma_channel_byte_monotone(s.y as int, s.z as int, n);
}

} // verus!
