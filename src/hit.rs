//! Ray-sphere intersection and nearest-hit search over a scene.
use vstd::prelude::*;
use vstd::arithmetic::div_mod::{lemma_div_is_ordered, lemma_div_pos_is_pos};
use crate::fixed::{
    clamp, clamp_wide, floor_div, in_range, isqrt, root, scale_down, wide_mul, LIM, ONE, SQRT_MAX,
};
use crate::material::Material;
use crate::ray::{at_spec, Ray3};
use crate::vec3::{div_by_spec, neg_spec, raw_dot, sub_spec, Vec3};

verus! {

/// Where a ray meets a surface.
#[derive(Clone, Copy, Debug, PartialEq, Eq, Structural)]
pub struct Hit {
    pub point: Vec3,
    pub normal: Vec3,
    pub t: i64,
    pub front_face: bool,
}

#[derive(Clone, Copy, Debug, PartialEq, Eq, Structural)]
pub struct Sphere {
    pub center: Vec3,
    pub radius: i64,
    pub material: Material,
}

/// The objects of a scene, searched in order.
pub struct HitList {
    pub objects: Vec<Sphere>,
}

/// `|direction|^2` of the intersection quadratic, in fixed point.
pub open spec fn quad_a(s: Sphere, ray: Ray3) -> int {
    raw_dot(ray.direction, ray.direction) / (ONE as int)
}

/// Half the linear coefficient of the intersection quadratic, `oc . direction`.
pub open spec fn quad_half_b(s: Sphere, ray: Ray3) -> int {
    raw_dot(sub_spec(ray.origin, s.center), ray.direction) / (ONE as int)
}

/// `|oc|^2 - radius^2`.
pub open spec fn quad_c(s: Sphere, ray: Ray3) -> int {
    let oc = sub_spec(ray.origin, s.center);
    raw_dot(oc, oc) / (ONE as int) - (s.radius * s.radius) / (ONE as int)
}

/// `half_b^2 - a c`, computed without saturation; it is scaled by `ONE^2`.
pub open spec fn discriminant(s: Sphere, ray: Ray3) -> int {
    let hb = quad_half_b(s, ray);
    hb * hb - quad_a(s, ray) * quad_c(s, ray)
}

/// The square root of the discriminant, in fixed point.
pub open spec fn disc_root(s: Sphere, ray: Ray3) -> int {
    root(discriminant(s, ray))
}

/// The nearer root `(-half_b - sqrt(d)) / a`, saturated.
pub open spec fn t_near(s: Sphere, ray: Ray3) -> int {
    clamp(((-quad_half_b(s, ray) - disc_root(s, ray)) * ONE) / quad_a(s, ray))
}

/// The farther root `(-half_b + sqrt(d)) / a`, saturated.
pub open spec fn t_far(s: Sphere, ray: Ray3) -> int {
    clamp(((-quad_half_b(s, ray) + disc_root(s, ray)) * ONE) / quad_a(s, ray))
}

/// The half-open interval `[t_min, t_max)`.
pub open spec fn in_interval(t: int, t_min: int, t_max: int) -> bool {
    t_min <= t < t_max
}

/// The hit record at parameter `t`; the normal points outward on the front face
/// and inward otherwise.
pub open spec fn hit_at(s: Sphere, ray: Ray3, t: int, front: bool) -> Hit {
    let p = at_spec(ray, t);
    let out = div_by_spec(sub_spec(p, s.center), s.radius as int);
    Hit { point: p, normal: if front { out } else { neg_spec(out) }, t: t as i64, front_face: front }
}

/// The nearer root is tried first, then the farther one; the first inside the
/// interval is taken.
pub open spec fn sphere_hit_spec(s: Sphere, ray: Ray3, t_min: int, t_max: int) -> Option<Hit> {
    if quad_a(s, ray) > 0 && discriminant(s, ray) > 0 {
        if in_interval(t_near(s, ray), t_min, t_max) {
            Some(hit_at(s, ray, t_near(s, ray), true))
        } else if in_interval(t_far(s, ray), t_min, t_max) {
            Some(hit_at(s, ray, t_far(s, ray), false))
        } else {
            None
        }
    } else {
        None
    }
}

/// A scan over the objects in order that narrows the interval's upper end to
/// each hit found.
pub open spec fn list_hit_spec(objs: Seq<Sphere>, ray: Ray3, t_min: int, t_max: int) -> Option<(Hit, Material)>
    decreases objs.len(),
{
    if objs.len() == 0 {
        None
    } else {
        let prev = list_hit_spec(objs.drop_last(), ray, t_min, t_max);
        let bound = match prev {
            Some(h) => h.0.t as int,
            None => t_max,
        };
        match sphere_hit_spec(objs.last(), ray, t_min, bound) {
            Some(h) => Some((h, objs.last().material)),
            None => prev,
        }
    }
}

impl Sphere {
    /// The radius is positive and every part is well formed.
    pub open spec fn wf(self) -> bool {
        self.center.wf() && 0 < self.radius <= LIM && self.material.wf()
    }

    /// A sphere, or `None` where the radius is not positive or the material is not
    /// well formed.
    pub fn new(center: Vec3, radius: i64, material: Material) -> (r: Option<Sphere>)
        requires
            center.wf(),
            in_range(radius as int),
        ensures
            r == (if 0 < radius && material.wf() {
                Some(Sphere { center, radius, material })
            } else {
                None::<Sphere>
            }),
    {
        let ok = match material {
            Material::Lambertian(l) => {
                0 <= l.albedo.x && l.albedo.x <= ONE && 0 <= l.albedo.y && l.albedo.y <= ONE
                    && 0 <= l.albedo.z && l.albedo.z <= ONE
            },
            Material::Metal(m) => {
                0 <= m.albedo.x && m.albedo.x <= ONE && 0 <= m.albedo.y && m.albedo.y <= ONE
                    && 0 <= m.albedo.z && m.albedo.z <= ONE && 0 <= m.fuzz && m.fuzz <= ONE
            },
            Material::Dielectric(d) => 0 < d.refraction_index && d.refraction_index <= LIM,
        };
        if 0 < radius && ok {
            Some(Sphere { center, radius, material })
        } else {
            None
        }
    }

    fn hit_record(&self, ray: Ray3, t: i64, front: bool) -> (r: Hit)
        requires
            self.wf(),
            ray.wf(),
            in_range(t as int),
        ensures
            r == hit_at(*self, ray, t as int, front),
            r.point.wf(),
            r.normal.wf(),
    {
        let p = ray.at(t);
        let out = p.sub(self.center).div_by(self.radius);
        Hit { point: p, normal: if front { out } else { out.neg() }, t, front_face: front }
    }

    /// The intersection of `ray` with the sphere inside `[t_min, t_max)`.
    pub fn hit(&self, ray: Ray3, t_min: i64, t_max: i64) -> (r: Option<Hit>)
        requires
            self.wf(),
            ray.wf(),
        ensures
            r == sphere_hit_spec(*self, ray, t_min as int, t_max as int),
            r matches Some(h) ==> in_interval(h.t as int, t_min as int, t_max as int)
                && h.point.wf() && h.normal.wf(),
    {
        let oc = ray.origin.sub(self.center);
        let a = scale_down(ray.direction.raw_dot(ray.direction));
        let half_b = scale_down(oc.raw_dot(ray.direction));
        let oo = scale_down(oc.raw_dot(oc));
        let rr = scale_down(wide_mul(self.radius, self.radius));
        proof {
            let (x, y, z) = (oc.x as int, oc.y as int, oc.z as int);
            assert(x * x + y * y + z * z >= 0) by (nonlinear_arith);
            lemma_div_pos_is_pos(raw_dot(oc, oc), ONE as int);
            let r = self.radius as int;
            assert(0 <= r * r <= 1_000_000_000_000_000_000_000_000) by (nonlinear_arith)
                requires
                    0 < r <= LIM,
            ;
            lemma_div_pos_is_pos(r * r, ONE as int);
            lemma_div_is_ordered(r * r, 1_000_000_000_000_000_000_000_000, ONE as int);
        }
        let c = oo - rr;
        assert(0 <= half_b * half_b <= 9_000_000_000_000_000_000_000_000_000_000_000_000)
            by (nonlinear_arith)
            requires
                -3_000_000_000_000_000_000 <= half_b <= 3_000_000_000_000_000_000,
        ;
        assert(-18_000_000_000_000_000_000_000_000_000_000_000_000 <= a * c
            <= 18_000_000_000_000_000_000_000_000_000_000_000_000) by (nonlinear_arith)
            requires
                -3_000_000_000_000_000_000 <= a <= 3_000_000_000_000_000_000,
                -6_000_000_000_000_000_000 <= c <= 6_000_000_000_000_000_000,
        ;
        let d = half_b * half_b - a * c;
        if a > 0 && d > 0 {
            assert(a * c >= -3_000_000_000_000_000_000_000_000_000_000_000_000) by (nonlinear_arith)
                requires
                    0 < a <= 3_000_000_000_000_000_000,
                    -1_000_000_000_000_000_000 <= c,
            ;
            let sq = isqrt(d);
            assert(-8_000_000_000_000_000_000_000_000 <= (-half_b - sq) * ONE <= 8_000_000_000_000_000_000_000_000
                && -8_000_000_000_000_000_000_000_000 <= (-half_b + sq) * ONE
                <= 8_000_000_000_000_000_000_000_000) by (nonlinear_arith)
                requires
                    -3_000_000_000_000_000_000 <= half_b <= 3_000_000_000_000_000_000,
                    0 <= sq <= 4_611_686_018_427_387_904,
            ;
            let near = clamp_wide(floor_div((-half_b - sq) * ONE as i128, a));
            if t_min <= near && near < t_max {
                return Some(self.hit_record(ray, near, true));
            }
            let far = clamp_wide(floor_div((-half_b + sq) * ONE as i128, a));
            if t_min <= far && far < t_max {
                return Some(self.hit_record(ray, far, false));
            }
        }
        None
    }
}

impl HitList {
    pub open spec fn wf(&self) -> bool {
        forall|i: int| 0 <= i < self.objects@.len() ==> #[trigger] self.objects@[i].wf()
    }

    /// The nearest intersection of `ray` with any object inside `[t_min, t_max)`,
    /// with that object's material.
    pub fn hit(&self, ray: Ray3, t_min: i64, t_max: i64) -> (r: Option<(Hit, Material)>)
        requires
            self.wf(),
            ray.wf(),
        ensures
            r == list_hit_spec(self.objects@, ray, t_min as int, t_max as int),
            r matches Some(h) ==> h.0.point.wf() && h.0.normal.wf() && h.1.wf(),
    {
        let mut best: Option<(Hit, Material)> = None;
        let mut end: i64 = t_max;
        let mut i: usize = 0;
        while i < self.objects.len()
            invariant
                self.wf(),
                ray.wf(),
                i <= self.objects@.len(),
                best == list_hit_spec(self.objects@.take(i as int), ray, t_min as int, t_max as int),
                end == (match best {
                    Some(h) => h.0.t,
                    None => t_max,
                }),
                best matches Some(h) ==> h.0.point.wf() && h.0.normal.wf() && h.1.wf(),
            decreases self.objects@.len() - i,
        {
            let s = self.objects[i];
            proof {
                let next = self.objects@.take(i as int + 1);
                assert(next.drop_last() =~= self.objects@.take(i as int));
                assert(next.last() == s);
                assert(s.wf());
            }
            match s.hit(ray, t_min, end) {
                Some(h) => {
                    end = h.t;
                    best = Some((h, s.material));
                },
                None => {},
            }
            i += 1;
        }
        proof {
            assert(self.objects@.take(self.objects@.len() as int) =~= self.objects@);
        }
        best
    }
}

/// A hit found inside an interval lies inside it.
pub proof fn lemma_sphere_hit_in_interval(s: Sphere, ray: Ray3, t_min: int, t_max: int)
    ensures
        sphere_hit_spec(s, ray, t_min, t_max) matches Some(h) ==> in_interval(h.t as int, t_min, t_max),
{
}

/// Narrowing the interval's upper end to above a hit keeps that hit.
pub proof fn lemma_sphere_hit_narrow(s: Sphere, ray: Ray3, t_min: int, t_max: int, b: int)
    requires
        b <= t_max,
        sphere_hit_spec(s, ray, t_min, t_max) matches Some(h) && h.t < b,
    ensures
        sphere_hit_spec(s, ray, t_min, b) == sphere_hit_spec(s, ray, t_min, t_max),
{
}

/// Nearest-hit selection: whatever sphere of the scene the ray meets inside
/// `[t_min, t_max)`, the scene's hit is at least as near, and lies inside the
/// interval.
pub proof fn lemma_nearest_hit(objs: Seq<Sphere>, ray: Ray3, t_min: int, t_max: int, i: int)
    requires
        0 <= i < objs.len(),
        sphere_hit_spec(objs[i], ray, t_min, t_max) is Some,
    ensures
        list_hit_spec(objs, ray, t_min, t_max) matches Some(r)
            && r.0.t <= sphere_hit_spec(objs[i], ray, t_min, t_max).unwrap().t
            && in_interval(r.0.t as int, t_min, t_max),
    decreases objs.len(),
{
    let n = objs.len() - 1;
    let prev = list_hit_spec(objs.drop_last(), ray, t_min, t_max);
    let h = sphere_hit_spec(objs[i], ray, t_min, t_max).unwrap();
    lemma_sphere_hit_in_interval(objs[i], ray, t_min, t_max);
    if i < n {
        assert(objs.drop_last()[i] == objs[i]);
        lemma_nearest_hit(objs.drop_last(), ray, t_min, t_max, i);
        let p = prev.unwrap();
        lemma_sphere_hit_in_interval(objs.last(), ray, t_min, p.0.t as int);
    } else {
        match prev {
            None => {},
            Some(p) => {
                lemma_list_hit_in_interval(objs.drop_last(), ray, t_min, t_max);
                lemma_sphere_hit_in_interval(objs.last(), ray, t_min, p.0.t as int);
                if h.t < p.0.t {
                    lemma_sphere_hit_narrow(objs.last(), ray, t_min, t_max, p.0.t as int);
                }
            },
        }
    }
}

/// The scene's hit, if any, lies inside the interval.
pub proof fn lemma_list_hit_in_interval(objs: Seq<Sphere>, ray: Ray3, t_min: int, t_max: int)
    ensures
        list_hit_spec(objs, ray, t_min, t_max) matches Some(r) ==> in_interval(r.0.t as int, t_min, t_max),
    decreases objs.len(),
{
    if objs.len() > 0 {
        lemma_list_hit_in_interval(objs.drop_last(), ray, t_min, t_max);
        let prev = list_hit_spec(objs.drop_last(), ray, t_min, t_max);
        match prev {
            Some(p) => lemma_sphere_hit_in_interval(objs.last(), ray, t_min, p.0.t as int),
            None => lemma_sphere_hit_in_interval(objs.last(), ray, t_min, t_max),
        }
    }
}

/// The normal of a sphere hit runs along the line from the centre to the point:
/// outward on the front face, inward on the back face.
pub proof fn lemma_hit_normal_radial(s: Sphere, ray: Ray3, t_min: int, t_max: int)
    ensures
        sphere_hit_spec(s, ray, t_min, t_max) matches Some(h) ==> {
            let out = div_by_spec(sub_spec(h.point, s.center), s.radius as int);
            h.normal == (if h.front_face { out } else { neg_spec(out) })
        },
{
}

/// The nearer root never lies beyond the farther one.
pub proof fn lemma_near_before_far(s: Sphere, ray: Ray3)
    requires
        quad_a(s, ray) > 0,
        discriminant(s, ray) > 0,
    ensures
        t_near(s, ray) <= t_far(s, ray),
{
    let d = discriminant(s, ray);
    crate::vec3::lemma_root_exists(d);
    let a = quad_a(s, ray);
    let lo = -quad_half_b(s, ray) - disc_root(s, ray);
    let hi = -quad_half_b(s, ray) + disc_root(s, ray);
    assert(lo * ONE <= hi * ONE) by (nonlinear_arith)
        requires
            lo <= hi,
    ;
    vstd::arithmetic::div_mod::lemma_div_is_ordered(lo * ONE, hi * ONE, a);
}

/// A hit found inside `[t_min, b)` is the hit inside any wider `[t_min, t_max)`.
pub proof fn lemma_sphere_hit_widen(s: Sphere, ray: Ray3, t_min: int, b: int, t_max: int)
    requires
        b <= t_max,
        sphere_hit_spec(s, ray, t_min, b) is Some,
    ensures
        sphere_hit_spec(s, ray, t_min, t_max) == sphere_hit_spec(s, ray, t_min, b),
{
    lemma_near_before_far(s, ray);
}

/// The scene's hit is the hit, over the whole interval, of one of its spheres,
/// with that sphere's material.
pub proof fn lemma_list_hit_is_member(objs: Seq<Sphere>, ray: Ray3, t_min: int, t_max: int)
    requires
        list_hit_spec(objs, ray, t_min, t_max) is Some,
    ensures
        exists|j: int|
            0 <= j < objs.len() && #[trigger] sphere_hit_spec(objs[j], ray, t_min, t_max) == Some(
                list_hit_spec(objs, ray, t_min, t_max).unwrap().0,
            ) && list_hit_spec(objs, ray, t_min, t_max).unwrap().1 == objs[j].material,
    decreases objs.len(),
{
    let n = objs.len() - 1;
    let prev = list_hit_spec(objs.drop_last(), ray, t_min, t_max);
    let bound = match prev {
        Some(h) => h.0.t as int,
        None => t_max,
    };
    match sphere_hit_spec(objs.last(), ray, t_min, bound) {
        Some(h) => {
            lemma_list_hit_in_interval(objs.drop_last(), ray, t_min, t_max);
            lemma_sphere_hit_widen(objs.last(), ray, t_min, bound, t_max);
            assert(sphere_hit_spec(objs[n], ray, t_min, t_max) == Some(h));
        },
        None => {
            lemma_list_hit_is_member(objs.drop_last(), ray, t_min, t_max);
            let j = choose|j: int|
                0 <= j < objs.drop_last().len() && #[trigger] sphere_hit_spec(
                    objs.drop_last()[j],
                    ray,
                    t_min,
                    t_max,
                ) == Some(prev.unwrap().0) && prev.unwrap().1 == objs.drop_last()[j].material;
            assert(objs.drop_last()[j] == objs[j]);
        },
    }
}

/// Nearest-hit selection, whole: the scene finds nothing exactly when no sphere
/// is hit inside `[t_min, t_max)`; otherwise its hit is the hit of one of the
/// spheres, no farther than any other sphere's hit.
pub proof fn lemma_nearest_hit_exact(objs: Seq<Sphere>, ray: Ray3, t_min: int, t_max: int)
    ensures
        list_hit_spec(objs, ray, t_min, t_max) is None <==> forall|i: int|
            0 <= i < objs.len() ==> #[trigger] sphere_hit_spec(objs[i], ray, t_min, t_max) is None,
        list_hit_spec(objs, ray, t_min, t_max) matches Some(r) ==> (exists|j: int|
            0 <= j < objs.len() && #[trigger] sphere_hit_spec(objs[j], ray, t_min, t_max) == Some(r.0))
            && (forall|i: int|
            0 <= i < objs.len() && (#[trigger] sphere_hit_spec(objs[i], ray, t_min, t_max) is Some)
                ==> r.0.t <= sphere_hit_spec(objs[i], ray, t_min, t_max).unwrap().t),
{
    assert forall|i: int|
        0 <= i < objs.len() && (#[trigger] sphere_hit_spec(objs[i], ray, t_min, t_max) is Some)
            implies list_hit_spec(objs, ray, t_min, t_max) matches Some(r) && r.0.t
            <= sphere_hit_spec(objs[i], ray, t_min, t_max).unwrap().t by {
        lemma_nearest_hit(objs, ray, t_min, t_max, i);
    }
    if list_hit_spec(objs, ray, t_min, t_max) is Some {
        lemma_list_hit_is_member(objs, ray, t_min, t_max);
    }
}

} // verus!
