//! Sampling of points and directions from a stream of uniform draws.
use vstd::prelude::*;
use crate::fixed::{is_isqrt, clamp, fx_mul, fx_sqrt, mul_spec, root, ONE};
use vstd::arithmetic::div_mod::{
    lemma_div_by_multiple, lemma_div_is_ordered, lemma_div_pos_is_pos, lemma_fundamental_div_mod,
};
use crate::vec3::{
    lemma_normalized_bounded, lemma_normalized_unit, lemma_root_exists, normalized_spec, raw_dot, v3,
    Vec3,
};

verus! {

#[verifier::external_type_specification]
#[verifier::external_body]
pub struct ExStdRng(rand::rngs::StdRng);

/// How many candidates a rejection sampler draws before it settles for the centre.
pub const MAX_TRIES: usize = 1000;

/// Relies on rand::Rng::gen_range over the half-open integer range `0..n`: the
/// value drawn lies in `[0, n)`.
#[verifier::external_body]
fn draw_below(rng: &mut rand::rngs::StdRng, n: i64) -> (r: i64)
    requires
        n > 0,
    ensures
        0 <= r < n,
{
    rand::Rng::gen_range(rng, 0..n)
}

/// A uniform draw in `[0, 1)` as a fixed-point scalar.
pub(crate) fn uniform(rng: &mut rand::rngs::StdRng) -> (r: i64)
    ensures
        0 <= r < ONE,
{
    draw_below(rng, ONE)
}

/// Maps a uniform draw in `[0, 1)` to `[-1, 1)`.
pub open spec fn spread(u: int) -> int {
    2 * u - ONE
}

pub open spec fn in_unit_ball(v: Vec3) -> bool {
    raw_dot(v, v) <= ONE as int * ONE as int
}

/// The unit vector whose height is `2u - 1` and whose heading is that of `p`
/// in the horizontal plane.
pub open spec fn unit_from_spec(u: int, p: Vec3) -> Vec3 {
    let z = spread(u);
    let r = root(clamp(ONE - mul_spec(z, z)) * ONE);
    let n = normalized_spec(Vec3 { x: p.x, y: p.y, z: 0 });
    let h = if n.x == 0 && n.y == 0 { v3(ONE as int, 0, 0) } else { n };
    v3(mul_spec(r, h.x as int), mul_spec(r, h.y as int), z)
}

/// The candidate of the cube `[-1, 1)^3` made of three draws, kept if it lies in
/// the unit ball.
pub fn ball_candidate(u1: i64, u2: i64, u3: i64) -> (r: Option<Vec3>)
    requires
        0 <= u1 < ONE,
        0 <= u2 < ONE,
        0 <= u3 < ONE,
    ensures
        ({
            let c = v3(spread(u1 as int), spread(u2 as int), spread(u3 as int));
            r == if in_unit_ball(c) { Some(c) } else { None::<Vec3> }
        }),
{
    let c = Vec3::new(2 * u1 - ONE, 2 * u2 - ONE, 2 * u3 - ONE);
    if c.raw_dot(c) <= ONE as i128 * ONE as i128 {
        Some(c)
    } else {
        None
    }
}

/// A point of the unit ball, by rejection sampling.
pub fn vec3_in_unit_sphere(rng: &mut rand::rngs::StdRng) -> (r: Vec3)
    ensures
        r.wf(),
        in_unit_ball(r),
        exists|u1: int, u2: int, u3: int|
            0 <= u1 < ONE && 0 <= u2 < ONE && 0 <= u3 < ONE && r == v3(spread(u1), spread(u2), spread(u3)),
{
    let mut tries: usize = 0;
    while tries < MAX_TRIES
        decreases MAX_TRIES - tries,
    {
        let u1 = uniform(rng);
        let u2 = uniform(rng);
        let u3 = uniform(rng);
        match ball_candidate(u1, u2, u3) {
            Some(v) => {
                return v;
            },
            None => {},
        }
        tries += 1;
    }
    let z = Vec3::zero();
    assert(z == v3(spread((ONE / 2) as int), spread((ONE / 2) as int), spread((ONE / 2) as int)));
    z
}

/// A point of the unit disc in the plane `z = 0`, by rejection sampling.
pub fn vec3_in_unit_disc(rng: &mut rand::rngs::StdRng) -> (r: Vec3)
    ensures
        r.wf(),
        in_unit_ball(r),
        r.z == 0,
        exists|u1: int, u2: int| 0 <= u1 < ONE && 0 <= u2 < ONE && r == v3(spread(u1), spread(u2), 0),
{
    let mut tries: usize = 0;
    while tries < MAX_TRIES
        decreases MAX_TRIES - tries,
    {
        let u1 = uniform(rng);
        let u2 = uniform(rng);
        match ball_candidate(u1, u2, ONE / 2) {
            Some(v) => {
                return v;
            },
            None => {},
        }
        tries += 1;
    }
    let z = Vec3::zero();
    assert(z == v3(spread((ONE / 2) as int), spread((ONE / 2) as int), spread((ONE / 2) as int)));
    z
}

/// See `unit_from_spec`.
pub fn unit_from(u: i64, p: Vec3) -> (r: Vec3)
    requires
        0 <= u < ONE,
        p.wf(),
    ensures
        r == unit_from_spec(u as int, p),
        r.wf(),
{
    let z = 2 * u - ONE;
    let zz = fx_mul(z, z);
    proof {
        let zi = z as int;
        assert(0 <= zi * zi <= ONE as int * ONE as int) by (nonlinear_arith)
            requires
                -ONE <= zi < ONE,
        ;
        lemma_div_is_ordered(zi * zi, ONE as int * ONE as int, ONE as int);
        lemma_div_by_multiple(ONE as int, ONE as int);
        lemma_div_pos_is_pos(zi * zi, ONE as int);
    }
    let s = ONE - zz;
    let r = fx_sqrt(s);
    proof {
        crate::fixed::lemma_isqrt_unique(s as int * ONE, r as int, root(s as int * ONE));
    }
    let n = Vec3 { x: p.x, y: p.y, z: 0 }.normalized();
    let h = if n.x == 0 && n.y == 0 { Vec3::new(ONE, 0, 0) } else { n };
    Vec3::new(fx_mul(r, h.x), fx_mul(r, h.y), z)
}

/// A direction drawn uniformly from the unit sphere: the height is uniform in
/// `[-1, 1)` and the heading comes from a point of the unit disc.
pub fn unit_vec3(rng: &mut rand::rngs::StdRng) -> (r: Vec3)
    ensures
        r.wf(),
        -ONE <= r.z < ONE,
        ONE * ONE - 20 * ONE <= raw_dot(r, r) <= ONE * ONE + 20 * ONE,
        exists|u: int, p: Vec3|
            0 <= u < ONE && p.wf() && in_unit_ball(p) && p.z == 0 && r == unit_from_spec(u, p),
{
    let u = uniform(rng);
    let p = vec3_in_unit_disc(rng);
    proof {
        lemma_unit_from_near_unit(u as int, p);
    }
    unit_from(u, p)
}

/// `a = (r h) / ONE`, squared and scaled back, stays close to `(r h)^2`.
proof fn lemma_scaled_product(r: int, h: int, a: int)
    requires
        0 <= r <= ONE,
        -ONE <= h <= ONE,
        a == (r * h) / (ONE as int),
    ensures
        -ONE <= a <= ONE,
        (r * h) * (r * h) - 2 * ONE * ONE * ONE - ONE * ONE <= a * a * (ONE * ONE),
        a * a * (ONE * ONE) <= (r * h) * (r * h) + 2 * ONE * ONE * ONE,
{
    let one = ONE as int;
    let x = r * h;
    lemma_fundamental_div_mod(x, one);
    let dd = x % one;
    assert(x == one * a + dd);
    assert(-one * one <= x <= one * one) by (nonlinear_arith)
        requires
            x == r * h,
            0 <= r <= one,
            -one <= h <= one,
    ;
    assert(-one <= a <= one) by (nonlinear_arith)
        requires
            x == one * a + dd,
            0 <= dd < one,
            -one * one <= x <= one * one,
            one > 0,
    ;
    assert(x * x == a * a * (one * one) + 2 * (a * one * dd) + dd * dd) by (nonlinear_arith)
        requires
            x == one * a + dd,
    ;
    assert(-one * one * one <= a * one * dd <= one * one * one) by (nonlinear_arith)
        requires
            -one <= a <= one,
            0 <= dd < one,
            one > 0,
    ;
    assert(0 <= dd * dd <= one * one) by (nonlinear_arith)
        requires
            0 <= dd < one,
    ;
}

/// The vector that `unit_from` builds has unit length up to rounding: its
/// squared length lies within `2e-5` of one.
pub proof fn lemma_unit_from_near_unit(u: int, p: Vec3)
    requires
        0 <= u < ONE,
        p.wf(),
    ensures
        ({
            let r = unit_from_spec(u, p);
            ONE * ONE - 20 * ONE <= raw_dot(r, r) <= ONE * ONE + 20 * ONE
        }),
{
    let one = ONE as int;
    let z = spread(u);
    assert(0 <= z * z <= one * one) by (nonlinear_arith)
        requires
            -one <= z < one,
    ;
    lemma_fundamental_div_mod(z * z, one);
    let zz = (z * z) / one;
    assert(zz * one <= z * z < zz * one + one);
    assert(0 <= zz <= one) by (nonlinear_arith)
        requires
            zz * one <= z * z <= one * one,
            z * z < zz * one + one,
            one > 0,
    ;
    assert(mul_spec(z, z) == zz);
    let sq = one - zz;
    assert(clamp(sq) == sq);
    assert(0 <= sq * one <= one * one) by (nonlinear_arith)
        requires
            0 <= sq <= one,
            one > 0,
    ;
    lemma_root_exists(sq * one);
    let r = root(sq * one);
    assert(0 <= r <= one) by {
        if r > one {
            assert((one + 1) * (one + 1) <= r * r) by (nonlinear_arith)
                requires
                    r >= one + 1,
                    one > 0,
            ;
        }
    }
    let q = Vec3 { x: p.x, y: p.y, z: 0 };
    let n = normalized_spec(q);
    let h = if n.x == 0 && n.y == 0 { v3(one, 0, 0) } else { n };
    let h2 = h.x * h.x + h.y * h.y;
    assert(one * one - 9 * one <= h2 <= one * one + 9 * one && -one <= h.x <= one && -one <= h.y <= one)
        by {
        if n.x == 0 && n.y == 0 {
            assert(h.x == one && h.y == 0);
            assert(h2 == one * one) by (nonlinear_arith)
                requires
                    h2 == h.x * h.x + h.y * h.y,
                    h.x == one,
                    h.y == 0,
            ;
        } else {
            if q == (Vec3 { x: 0, y: 0, z: 0 }) {
                lemma_root_exists(0);
                assert(is_isqrt(0, 0));
                crate::fixed::lemma_isqrt_unique(0, 0, root(0));
                assert(n == v3(0, 0, 0));
                assert(false);
            }
            lemma_normalized_unit(q);
            lemma_normalized_bounded(q);
            assert(n.z == 0) by {
                let (qx, qy, qz) = (q.x * one, q.y * one, q.z * one);
                let sq2 = qx * qx + qy * qy + qz * qz;
                assert(sq2 >= 0) by (nonlinear_arith)
                    requires
                        sq2 == qx * qx + qy * qy + qz * qz,
                ;
                lemma_root_exists(sq2);
                let l = root(sq2);
                assert(qz == 0);
                if l > 0 {
                    lemma_div_by_multiple(0, l);
                    assert(qz * one == 0 * l);
                }
            }
            assert(raw_dot(n, n) == h2 + n.z * n.z);
            assert(n.z * n.z == 0) by (nonlinear_arith)
                requires
                    n.z == 0,
            ;
        }
    }
    let a = (r * h.x) / one;
    let b = (r * h.y) / one;
    lemma_scaled_product(r, h.x as int, a);
    lemma_scaled_product(r, h.y as int, b);
    let res = unit_from_spec(u, p);
    assert(res.x == a && res.y == b && res.z == z);
    // (r hx)^2 + (r hy)^2 = r^2 h2.
    assert((r * h.x) * (r * h.x) + (r * h.y) * (r * h.y) == (r * r) * h2) by (nonlinear_arith)
        requires
            h2 == h.x * h.x + h.y * h.y,
    ;
    let rr = r * r;
    assert(sq * one - 2 * one - 1 < rr <= sq * one) by (nonlinear_arith)
        requires
            rr == r * r,
            r * r <= sq * one,
            sq * one < (r + 1) * (r + 1),
            0 <= r <= one,
    ;
    assert(0 <= rr <= one * one);
    assert(rr * (one * one) - 9 * one * one * one <= rr * h2 <= rr * (one * one) + 9 * one * one * one)
        by (nonlinear_arith)
        requires
            one * one - 9 * one <= h2 <= one * one + 9 * one,
            0 <= rr <= one * one,
            one > 0,
    ;
    let m = a * a + b * b;
    assert(m * (one * one) == a * a * (one * one) + b * b * (one * one)) by (nonlinear_arith)
        requires
            m == a * a + b * b,
    ;
    assert(rr * (one * one) <= sq * one * (one * one) && rr * (one * one) >= (sq * one - 3 * one) * (one * one))
        by (nonlinear_arith)
        requires
            sq * one - 2 * one - 1 < rr <= sq * one,
            one > 0,
    ;
    assert(m * (one * one) <= (sq * one + 14 * one) * (one * one)) by (nonlinear_arith)
        requires
            m * (one * one) <= rr * h2 + 4 * one * one * one,
            rr * h2 <= rr * (one * one) + 9 * one * one * one,
            rr * (one * one) <= sq * one * (one * one),
            one > 0,
    ;
    assert(m * (one * one) >= (sq * one - 17 * one) * (one * one)) by (nonlinear_arith)
        requires
            m * (one * one) >= rr * h2 - 4 * one * one * one - 2 * one * one,
            rr * h2 >= rr * (one * one) - 9 * one * one * one,
            rr * (one * one) >= (sq * one - 3 * one) * (one * one),
            one > 1,
    ;
    assert(sq * one - 17 * one <= m <= sq * one + 14 * one) by (nonlinear_arith)
        requires
            m * (one * one) <= (sq * one + 14 * one) * (one * one),
            m * (one * one) >= (sq * one - 17 * one) * (one * one),
            one > 0,
    ;
    assert(sq * one == one * one - zz * one) by (nonlinear_arith)
        requires
            sq == one - zz,
    ;
    assert(raw_dot(res, res) == m + z * z) by (nonlinear_arith)
        requires
            res.x == a,
            res.y == b,
            res.z == z,
            m == a * a + b * b,
    ;
}

} // verus!
