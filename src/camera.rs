//! A thin-lens camera that turns screen coordinates into rays.
use vstd::prelude::*;
use crate::fixed::{clamp, clamp_wide, fx_mul, in_range, mul_spec, ONE};
use crate::random::{in_unit_ball, vec3_in_unit_disc};
use crate::ray::Ray3;
use crate::vec3::{
    add_spec, cross_spec, length_spec, lemma_normalized_unit, near_unit, neg_spec, normalized_spec,
    scale_spec, sub_spec, unit_bounded, Vec3,
};

verus! {

#[derive(Clone, Copy, Debug, PartialEq, Eq, Structural)]
pub struct Camera {
    pub origin: Vec3,
    pub lower_left_corner: Vec3,
    pub horizontal: Vec3,
    pub vertical: Vec3,
    pub u: Vec3,
    pub v: Vec3,
    pub lens_radius: i64,
}

/// The camera looking from `origin` at `look_at`, focused at that distance.
/// `half_height` is the tangent of half the vertical field of view; `aperture` is
/// the lens diameter.
pub open spec fn camera_spec(
    origin: Vec3,
    look_at: Vec3,
    up: Vec3,
    half_height: int,
    aspect_ratio: int,
    aperture: int,
) -> Camera {
    let viewport_height = clamp(2 * half_height);
    let viewport_width = mul_spec(aspect_ratio, viewport_height);
    let w = normalized_spec(sub_spec(origin, look_at));
    let u = normalized_spec(cross_spec(up, w));
    let v = cross_spec(w, u);
    let focus = length_spec(sub_spec(look_at, origin));
    let horizontal = scale_spec(mul_spec(focus, viewport_width), u);
    let vertical = scale_spec(mul_spec(focus, viewport_height), v);
    let half = (ONE / 2) as int;
    let llc = sub_spec(
        sub_spec(neg_spec(scale_spec(half, horizontal)), scale_spec(half, vertical)),
        scale_spec(focus, w),
    );
    Camera {
        origin,
        lower_left_corner: llc,
        horizontal,
        vertical,
        u,
        v,
        lens_radius: mul_spec(aperture, half) as i64,
    }
}

/// The ray for screen point `(s, t)` leaving the lens at `disc`, a point of the
/// unit disc.
pub open spec fn ray_spec(c: Camera, s: int, t: int, disc: Vec3) -> Ray3 {
    let rd = scale_spec(c.lens_radius as int, disc);
    let offset = add_spec(scale_spec(rd.x as int, c.u), scale_spec(rd.y as int, c.v));
    let target = add_spec(
        add_spec(c.lower_left_corner, scale_spec(s, c.horizontal)),
        scale_spec(t, c.vertical),
    );
    Ray3 { origin: add_spec(c.origin, offset), direction: normalized_spec(sub_spec(target, offset)) }
}

impl Camera {
    pub open spec fn wf(self) -> bool {
        self.origin.wf() && self.lower_left_corner.wf() && self.horizontal.wf()
            && self.vertical.wf() && self.u.wf() && self.v.wf() && in_range(self.lens_radius as int)
    }

    pub fn new(
        origin: Vec3,
        look_at: Vec3,
        up: Vec3,
        half_height: i64,
        aspect_ratio: i64,
        aperture: i64,
    ) -> (r: Camera)
        requires
            origin.wf(),
            look_at.wf(),
            up.wf(),
            in_range(half_height as int),
            in_range(aspect_ratio as int),
            in_range(aperture as int),
        ensures
            r == camera_spec(
                origin,
                look_at,
                up,
                half_height as int,
                aspect_ratio as int,
                aperture as int,
            ),
            r.wf(),
    {
        let viewport_height = clamp_wide(2 * half_height as i128);
        let viewport_width = fx_mul(aspect_ratio, viewport_height);
        let w = origin.sub(look_at).normalized();
        let u = up.cross(w).normalized();
        let v = w.cross(u);
        let focus = look_at.sub(origin).length();
        let horizontal = u.scale(fx_mul(focus, viewport_width));
        let vertical = v.scale(fx_mul(focus, viewport_height));
        let half = ONE / 2;
        let llc = horizontal.scale(half).neg().sub(vertical.scale(half)).sub(w.scale(focus));
        Camera {
            origin,
            lower_left_corner: llc,
            horizontal,
            vertical,
            u,
            v,
            lens_radius: fx_mul(aperture, half),
        }
    }

    /// See `ray_spec`.
    pub fn ray_through(&self, s: i64, t: i64, disc: Vec3) -> (r: Ray3)
        requires
            self.wf(),
            in_range(s as int),
            in_range(t as int),
            disc.wf(),
        ensures
            r == ray_spec(*self, s as int, t as int, disc),
            r.wf(),
            unit_bounded(r.direction),
    {
        let rd = disc.scale(self.lens_radius);
        let offset = self.u.scale(rd.x).add(self.v.scale(rd.y));
        let target = self.lower_left_corner.add(self.horizontal.scale(s)).add(self.vertical.scale(t));
        Ray3 { origin: self.origin.add(offset), direction: target.sub(offset).normalized() }
    }

    /// The ray for screen point `(s, t)`, from a lens point drawn afresh.
    pub fn ray(&self, s: i64, t: i64, rng: &mut rand::rngs::StdRng) -> (r: Ray3)
        requires
            self.wf(),
            in_range(s as int),
            in_range(t as int),
        ensures
            r.wf(),
            unit_bounded(r.direction),
            exists|disc: Vec3|
                disc.wf() && in_unit_ball(disc) && disc.z == 0 && r == ray_spec(*self, s as int, t as int, disc),
    {
        let disc = vec3_in_unit_disc(rng);
        self.ray_through(s, t, disc)
    }
}

/// A camera ray has unit length up to rounding, unless the lens point and the
/// screen point coincide.
pub proof fn lemma_camera_ray_unit(c: Camera, s: int, t: int, disc: Vec3)
    ensures
        ({
            let rd = scale_spec(c.lens_radius as int, disc);
            let offset = add_spec(scale_spec(rd.x as int, c.u), scale_spec(rd.y as int, c.v));
            let target = add_spec(
                add_spec(c.lower_left_corner, scale_spec(s, c.horizontal)),
                scale_spec(t, c.vertical),
            );
            sub_spec(target, offset) != (Vec3 { x: 0, y: 0, z: 0 }) ==> near_unit(
                ray_spec(c, s, t, disc).direction,
            )
        }),
{
    let rd = scale_spec(c.lens_radius as int, disc);
    let offset = add_spec(scale_spec(rd.x as int, c.u), scale_spec(rd.y as int, c.v));
    let target = add_spec(
        add_spec(c.lower_left_corner, scale_spec(s, c.horizontal)),
        scale_spec(t, c.vertical),
    );
    if sub_spec(target, offset) != (Vec3 { x: 0, y: 0, z: 0 }) {
        lemma_normalized_unit(sub_spec(target, offset));
    }
}

} // verus!
