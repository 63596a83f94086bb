//! Surface materials and how they scatter light.
use vstd::prelude::*;
use vstd::arithmetic::div_mod::lemma_div_pos_is_pos;
use crate::fixed::{
    clamp, clamp_wide, div_spec, fx_div, fx_mul, fx_sqrt, in_range, lemma_isqrt_unique, mul_spec,
    root, LIM, ONE,
};
use crate::hit::Hit;
use crate::random::{in_unit_ball, unit_from_spec, uniform, unit_vec3, vec3_in_unit_sphere};
use crate::ray::Ray3;
use crate::vec3::{
    add_spec, dot_spec, hadamard_spec, lemma_normalized_unit, near_unit, normalized_spec,
    reflect_spec, scale_spec, unit_bounded, v3, Vec3,
};

verus! {

/// The colour of a channel lies in `[0, 1]`.
pub open spec fn is_colour(c: Vec3) -> bool {
    0 <= c.x <= ONE && 0 <= c.y <= ONE && 0 <= c.z <= ONE
}

/// A diffuse surface.
#[derive(Clone, Copy, Debug, PartialEq, Eq, Structural)]
pub struct Lambertian {
    pub albedo: Vec3,
}

/// A reflective surface; `fuzz` blurs the reflection.
#[derive(Clone, Copy, Debug, PartialEq, Eq, Structural)]
pub struct Metal {
    pub albedo: Vec3,
    pub fuzz: i64,
}

/// A clear refractive surface such as glass.
#[derive(Clone, Copy, Debug, PartialEq, Eq, Structural)]
pub struct Dielectric {
    pub refraction_index: i64,
}

#[derive(Clone, Copy, Debug, PartialEq, Eq, Structural)]
pub enum Material {
    Lambertian(Lambertian),
    Metal(Metal),
    Dielectric(Dielectric),
}

/// The outcome of one bounce: how the light is tinted and where it goes next.
#[derive(Clone, Copy, Debug, PartialEq, Eq, Structural)]
pub struct Scatter {
    pub attenuation: Vec3,
    pub scattered: Ray3,
}

impl Material {
    /// Albedos are colours, fuzz lies in `[0, 1]`, refraction indices are positive.
    pub open spec fn wf(self) -> bool {
        match self {
            Material::Lambertian(l) => is_colour(l.albedo),
            Material::Metal(m) => is_colour(m.albedo) && 0 <= m.fuzz <= ONE,
            Material::Dielectric(d) => 0 < d.refraction_index <= LIM,
        }
    }
}

/// Diffuse bounce: off the normal, pushed by a random unit vector.
pub open spec fn lambertian_spec(l: Lambertian, hit: Hit, unit: Vec3) -> Scatter {
    Scatter {
        attenuation: l.albedo,
        scattered: Ray3 { origin: hit.point, direction: normalized_spec(add_spec(hit.normal, unit)) },
    }
}

/// Mirror bounce, blurred by `fuzz` times a random point of the unit ball.
pub open spec fn metal_spec(m: Metal, ray: Ray3, hit: Hit, ball: Vec3) -> Scatter {
    let d = add_spec(reflect_spec(ray.direction, hit.normal), scale_spec(m.fuzz as int, ball));
    Scatter {
        attenuation: m.albedo,
        scattered: Ray3 { origin: hit.point, direction: normalized_spec(d) },
    }
}

/// The ratio of refraction indices across the surface: `1 / index` entering,
/// `index` leaving.
pub open spec fn eta(d: Dielectric, front: bool) -> int {
    if front {
        div_spec(ONE as int, d.refraction_index as int)
    } else {
        d.refraction_index as int
    }
}

/// `min(-(direction . normal), 1)`.
pub open spec fn cos_theta(ray: Ray3, hit: Hit) -> int {
    let c = -dot_spec(ray.direction, hit.normal);
    if c < ONE { c } else { ONE as int }
}

/// `sqrt(1 - cos^2)`, where a negative radicand counts as zero.
pub open spec fn sin_theta(c: int) -> int {
    let s = clamp(ONE - mul_spec(c, c));
    root((if s < 0 { 0 } else { s }) * ONE)
}

/// Snell's law has no solution: the ray is reflected whole.
pub open spec fn total_internal(e: int, sin: int) -> bool {
    mul_spec(e, sin) > ONE
}

/// Schlick's approximation of the reflectance.
pub open spec fn schlick_spec(cosine: int, e: int) -> int {
    let q = div_spec(clamp(ONE - e), clamp(ONE + e));
    let r0 = mul_spec(q, q);
    let p = clamp(ONE - cosine);
    let p2 = mul_spec(p, p);
    let p5 = mul_spec(mul_spec(p2, p2), p);
    clamp(r0 + mul_spec(clamp(ONE - r0), p5))
}

/// The refracted direction: a part across the normal and a part along it.
pub open spec fn refract_spec(dir: Vec3, n: Vec3, cosine: int, e: int) -> Vec3 {
    let perp = scale_spec(e, add_spec(dir, scale_spec(cosine, n)));
    let k = clamp(ONE - dot_spec(perp, perp));
    let par = scale_spec(-root((if k < 0 { -k } else { k }) * ONE), n);
    add_spec(perp, par)
}

/// Glass: reflected where Snell's law has no solution or where the draw `u`
/// falls under the reflectance, refracted otherwise; never tinted.
pub open spec fn dielectric_spec(d: Dielectric, ray: Ray3, hit: Hit, u: int) -> Scatter {
    let e = eta(d, hit.front_face);
    let c = cos_theta(ray, hit);
    let dir = if total_internal(e, sin_theta(c)) || schlick_spec(c, e) > u {
        reflect_spec(ray.direction, hit.normal)
    } else {
        refract_spec(ray.direction, hit.normal, c, e)
    };
    Scatter {
        attenuation: v3(ONE as int, ONE as int, ONE as int),
        scattered: Ray3 { origin: hit.point, direction: normalized_spec(dir) },
    }
}

/// `s` is a bounce off `m` that some draws of the random stream give: a unit
/// direction for a diffuse surface, a point of the unit ball for metal, a
/// uniform scalar for glass.
pub open spec fn scatter_possible(m: Material, ray: Ray3, hit: Hit, s: Scatter) -> bool {
    match m {
        Material::Lambertian(l) => exists|u: int, p: Vec3|
            0 <= u < ONE && p.wf() && in_unit_ball(p) && p.z == 0
                && s == lambertian_spec(l, hit, unit_from_spec(u, p)),
        Material::Metal(mm) => exists|ball: Vec3|
            ball.wf() && in_unit_ball(ball) && s == metal_spec(mm, ray, hit, ball),
        Material::Dielectric(d) => exists|u: int| 0 <= u < ONE && s == dielectric_spec(d, ray, hit, u),
    }
}

/// The hit's parts are well formed.
pub open spec fn hit_wf(hit: Hit) -> bool {
    hit.point.wf() && hit.normal.wf()
}

impl Lambertian {
    /// The bounce for the random unit vector `unit`.
    pub fn scatter_from(&self, hit: Hit, unit: Vec3) -> (r: Scatter)
        requires
            self.albedo.wf(),
            hit_wf(hit),
            unit.wf(),
        ensures
            r == lambertian_spec(*self, hit, unit),
            r.scattered.wf(),
            unit_bounded(r.scattered.direction),
    {
        Scatter {
            attenuation: self.albedo,
            scattered: Ray3 { origin: hit.point, direction: hit.normal.add(unit).normalized() },
        }
    }
}

impl Metal {
    /// The bounce for the random point `ball` of the unit ball.
    pub fn scatter_from(&self, ray: Ray3, hit: Hit, ball: Vec3) -> (r: Scatter)
        requires
            self.albedo.wf(),
            in_range(self.fuzz as int),
            ray.wf(),
            hit_wf(hit),
            ball.wf(),
        ensures
            r == metal_spec(*self, ray, hit, ball),
            r.scattered.wf(),
            unit_bounded(r.scattered.direction),
    {
        let d = ray.direction.reflect(hit.normal).add(ball.scale(self.fuzz));
        Scatter {
            attenuation: self.albedo,
            scattered: Ray3 { origin: hit.point, direction: d.normalized() },
        }
    }
}

/// See `schlick_spec`.
pub fn schlik(cosine: i64, e: i64) -> (r: i64)
    requires
        in_range(cosine as int),
        0 <= e <= LIM,
    ensures
        r as int == schlick_spec(cosine as int, e as int),
        in_range(r as int),
{
    let q = fx_div(clamp_wide(ONE as i128 - e as i128), clamp_wide(ONE as i128 + e as i128));
    let r0 = fx_mul(q, q);
    let p = clamp_wide(ONE as i128 - cosine as i128);
    let p2 = fx_mul(p, p);
    let p5 = fx_mul(fx_mul(p2, p2), p);
    clamp_wide(r0 as i128 + fx_mul(clamp_wide(ONE as i128 - r0 as i128), p5) as i128)
}

fn refract(dir: Vec3, n: Vec3, cosine: i64, e: i64) -> (r: Vec3)
    requires
        dir.wf(),
        n.wf(),
        in_range(cosine as int),
        in_range(e as int),
    ensures
        r == refract_spec(dir, n, cosine as int, e as int),
        r.wf(),
{
    let perp = dir.add(n.scale(cosine)).scale(e);
    let k = clamp_wide(ONE as i128 - perp.length_squared() as i128);
    let ak = if k < 0 { -k } else { k };
    let sq = fx_sqrt(ak);
    proof {
        lemma_isqrt_unique(ak as int * ONE, sq as int, root(ak as int * ONE));
    }
    perp.add(n.scale(-sq))
}

impl Dielectric {
    /// The bounce for the uniform draw `u` in `[0, 1)`.
    pub fn scatter_from(&self, ray: Ray3, hit: Hit, u: i64) -> (r: Scatter)
        requires
            0 < self.refraction_index <= LIM,
            ray.wf(),
            hit_wf(hit),
        ensures
            r == dielectric_spec(*self, ray, hit, u as int),
            r.scattered.wf(),
            unit_bounded(r.scattered.direction),
    {
        let e = if hit.front_face {
            fx_div(ONE, self.refraction_index)
        } else {
            self.refraction_index
        };
        proof {
            lemma_div_pos_is_pos(ONE as int * ONE as int, self.refraction_index as int);
        }
        let d = -ray.direction.dot(hit.normal);
        let c = if d < ONE { d } else { ONE };
        let cc = fx_mul(c, c);
        let s0 = clamp_wide(ONE as i128 - cc as i128);
        let s = if s0 < 0 { 0 } else { s0 };
        let sin = fx_sqrt(s);
        proof {
            lemma_isqrt_unique(s as int * ONE, sin as int, root(s as int * ONE));
        }
        let dir = if fx_mul(e, sin) > ONE || schlik(c, e) > u {
            ray.direction.reflect(hit.normal)
        } else {
            refract(ray.direction, hit.normal, c, e)
        };
        Scatter {
            attenuation: Vec3::new(ONE, ONE, ONE),
            scattered: Ray3 { origin: hit.point, direction: dir.normalized() },
        }
    }
}

impl Material {
    /// One bounce off this material, with the random draws it needs taken from `rng`.
    pub fn scatter(&self, ray: Ray3, hit: Hit, rng: &mut rand::rngs::StdRng) -> (r: Scatter)
        requires
            self.wf(),
            ray.wf(),
            hit_wf(hit),
        ensures
            r.scattered.wf(),
            unit_bounded(r.scattered.direction),
            r.scattered.origin == hit.point,
            is_colour(r.attenuation),
            scatter_possible(*self, ray, hit, r),
    {
        match self {
            Material::Lambertian(l) => {
                let unit = unit_vec3(rng);
                l.scatter_from(hit, unit)
            },
            Material::Metal(m) => {
                let ball = vec3_in_unit_sphere(rng);
                m.scatter_from(ray, hit, ball)
            },
            Material::Dielectric(d) => {
                let u = uniform(rng);
                d.scatter_from(ray, hit, u)
            },
        }
    }
}

/// Glass never tints light: whatever the draw, the attenuation is full.
pub proof fn lemma_dielectric_clear(d: Dielectric, ray: Ray3, hit: Hit, u: int)
    ensures
        dielectric_spec(d, ray, hit, u).attenuation == (Vec3 { x: ONE, y: ONE, z: ONE }),
{
}

/// Past the critical angle glass always reflects, whatever the draw.
pub proof fn lemma_total_internal_reflection(d: Dielectric, ray: Ray3, hit: Hit, u: int)
    requires
        total_internal(eta(d, hit.front_face), sin_theta(cos_theta(ray, hit))),
    ensures
        dielectric_spec(d, ray, hit, u).scattered.direction
            == normalized_spec(reflect_spec(ray.direction, hit.normal)),
{
}

/// A black surface absorbs everything: the light that a bounce off it carries
/// is black, whatever arrives.
pub proof fn lemma_black_absorbs(albedo: Vec3, incoming: Vec3)
    requires
        albedo == (Vec3 { x: 0, y: 0, z: 0 }),
        incoming.wf(),
    ensures
        hadamard_spec(albedo, incoming) == (Vec3 { x: 0, y: 0, z: 0 }),
{
}

/// Diffuse and metal surfaces pass on their albedo, a colour in `[0, 1]`.
pub proof fn lemma_attenuation_is_albedo(m: Material, ray: Ray3, hit: Hit, sample: Vec3)
    requires
        m.wf(),
    ensures
        m matches Material::Lambertian(l) ==> lambertian_spec(l, hit, sample).attenuation == l.albedo
            && is_colour(l.albedo),
        m matches Material::Metal(mm) ==> metal_spec(mm, ray, hit, sample).attenuation == mm.albedo
            && is_colour(mm.albedo),
{
}

/// A diffuse bounce leaves with unit length up to rounding, unless the drawn
/// direction cancels the normal.
pub proof fn lemma_lambertian_unit(l: Lambertian, hit: Hit, unit: Vec3)
    ensures
        add_spec(hit.normal, unit) != (Vec3 { x: 0, y: 0, z: 0 }) ==> near_unit(
            lambertian_spec(l, hit, unit).scattered.direction,
        ),
{
    if add_spec(hit.normal, unit) != (Vec3 { x: 0, y: 0, z: 0 }) {
        lemma_normalized_unit(add_spec(hit.normal, unit));
    }
}

} // verus!
