//! Three-component fixed-point vectors: points, directions and colours.
use vstd::prelude::*;
use vstd::arithmetic::div_mod::{
    lemma_div_by_multiple, lemma_div_is_ordered, lemma_fundamental_div_mod,
    lemma_fundamental_div_mod_converse,
};
use crate::fixed::{clamp, is_isqrt, clamp_wide, floor_div, fx_div, fx_mul, in_range, isqrt, root, wide_mul, LIM, ONE};

verus! {

#[derive(Clone, Copy, Debug, PartialEq, Eq, Structural)]
pub struct Vec3 {
    pub x: i64,
    pub y: i64,
    pub z: i64,
}

/// The vector with the given components, each saturated.
pub open spec fn v3(x: int, y: int, z: int) -> Vec3 {
    Vec3 { x: clamp(x) as i64, y: clamp(y) as i64, z: clamp(z) as i64 }
}

/// Exact dot product of the raw components.
pub open spec fn raw_dot(a: Vec3, b: Vec3) -> int {
    a.x * b.x + a.y * b.y + a.z * b.z
}

pub open spec fn add_spec(a: Vec3, b: Vec3) -> Vec3 {
    v3(a.x + b.x, a.y + b.y, a.z + b.z)
}

pub open spec fn sub_spec(a: Vec3, b: Vec3) -> Vec3 {
    v3(a.x - b.x, a.y - b.y, a.z - b.z)
}

pub open spec fn neg_spec(a: Vec3) -> Vec3 {
    v3(-a.x, -a.y, -a.z)
}

/// Scaling by the fixed-point scalar `k`.
pub open spec fn scale_spec(k: int, v: Vec3) -> Vec3 {
    v3((k * v.x) / (ONE as int), (k * v.y) / (ONE as int), (k * v.z) / (ONE as int))
}

/// Division by the positive fixed-point scalar `k`.
pub open spec fn div_by_spec(v: Vec3, k: int) -> Vec3 {
    v3((v.x * ONE) / k, (v.y * ONE) / k, (v.z * ONE) / k)
}

/// Component-wise product, used to blend colours.
pub open spec fn hadamard_spec(a: Vec3, b: Vec3) -> Vec3 {
    v3((a.x * b.x) / (ONE as int), (a.y * b.y) / (ONE as int), (a.z * b.z) / (ONE as int))
}

pub open spec fn dot_spec(a: Vec3, b: Vec3) -> int {
    clamp(raw_dot(a, b) / (ONE as int))
}

pub open spec fn cross_spec(a: Vec3, b: Vec3) -> Vec3 {
    v3(
        (a.y * b.z - a.z * b.y) / (ONE as int),
        (a.z * b.x - a.x * b.z) / (ONE as int),
        (a.x * b.y - a.y * b.x) / (ONE as int),
    )
}

/// Euclidean length, rounded down.
pub open spec fn length_spec(v: Vec3) -> int {
    clamp(root(raw_dot(v, v)))
}

/// The vector divided by its length; the zero vector stays zero. The length
/// is taken of the vector scaled up by `ONE`, so that short vectors keep their
/// precision.
pub open spec fn normalized_spec(v: Vec3) -> Vec3 {
    let (x, y, z) = (v.x * ONE, v.y * ONE, v.z * ONE);
    let l = root(x * x + y * y + z * z);
    if l == 0 {
        v3(0, 0, 0)
    } else {
        v3((x * ONE) / l, (y * ONE) / l, (z * ONE) / l)
    }
}

/// Mirror image of `v` about the plane with normal `n`: `v - 2 (v . n) n`.
pub open spec fn reflect_spec(v: Vec3, n: Vec3) -> Vec3 {
    sub_spec(v, scale_spec(clamp(2 * dot_spec(v, n)), n))
}

/// Every component lies in `[-1, 1]`, as it does for a unit vector.
pub open spec fn unit_bounded(v: Vec3) -> bool {
    -ONE <= v.x <= ONE && -ONE <= v.y <= ONE && -ONE <= v.z <= ONE
}

/// A component divided by the length of its vector lies in `[-1, 1]`.
pub proof fn lemma_unit_component(c: int, s: int, l: int)
    requires
        c * c <= s,
        s < (l + 1) * (l + 1),
        l > 0,
    ensures
        -ONE <= (c * ONE) / l <= ONE,
{
    assert(-l <= c <= l) by (nonlinear_arith)
        requires
            c * c <= s,
            s < (l + 1) * (l + 1),
            l > 0,
    ;
    assert(-(ONE as int) * l <= c * ONE <= (ONE as int) * l) by (nonlinear_arith)
        requires
            -l <= c <= l,
    ;
    lemma_div_is_ordered(c * ONE, (ONE as int) * l, l);
    lemma_div_by_multiple(ONE as int, l);
    lemma_div_is_ordered(-(ONE as int) * l, c * ONE, l);
    lemma_fundamental_div_mod_converse(-(ONE as int) * l, l, -(ONE as int), 0);
}

impl Vec3 {
    /// Every component lies in the representable range.
    pub open spec fn wf(self) -> bool {
        in_range(self.x as int) && in_range(self.y as int) && in_range(self.z as int)
    }

    pub fn new(x: i64, y: i64, z: i64) -> (r: Vec3)
        ensures
            r == v3(x as int, y as int, z as int),
            r.wf(),
    {
        Vec3 { x: clamp_wide(x as i128), y: clamp_wide(y as i128), z: clamp_wide(z as i128) }
    }

    pub fn zero() -> (r: Vec3)
        ensures
            r == v3(0, 0, 0),
            r.x == 0 && r.y == 0 && r.z == 0,
            r.wf(),
    {
        Vec3 { x: 0, y: 0, z: 0 }
    }

    pub fn add(self, b: Vec3) -> (r: Vec3)
        requires
            self.wf(),
            b.wf(),
        ensures
            r == add_spec(self, b),
            r.wf(),
    {
        Vec3 {
            x: clamp_wide(self.x as i128 + b.x as i128),
            y: clamp_wide(self.y as i128 + b.y as i128),
            z: clamp_wide(self.z as i128 + b.z as i128),
        }
    }

    pub fn sub(self, b: Vec3) -> (r: Vec3)
        requires
            self.wf(),
            b.wf(),
        ensures
            r == sub_spec(self, b),
            r.wf(),
    {
        Vec3 {
            x: clamp_wide(self.x as i128 - b.x as i128),
            y: clamp_wide(self.y as i128 - b.y as i128),
            z: clamp_wide(self.z as i128 - b.z as i128),
        }
    }

    pub fn neg(self) -> (r: Vec3)
        requires
            self.wf(),
        ensures
            r == neg_spec(self),
            r.wf(),
    {
        Vec3 { x: -self.x, y: -self.y, z: -self.z }
    }

    pub fn scale(self, k: i64) -> (r: Vec3)
        requires
            self.wf(),
            in_range(k as int),
        ensures
            r == scale_spec(k as int, self),
            r.wf(),
    {
        Vec3 { x: fx_mul(k, self.x), y: fx_mul(k, self.y), z: fx_mul(k, self.z) }
    }

    pub fn div_by(self, k: i64) -> (r: Vec3)
        requires
            self.wf(),
            0 < k <= LIM,
        ensures
            r == div_by_spec(self, k as int),
            r.wf(),
    {
        Vec3 { x: fx_div(self.x, k), y: fx_div(self.y, k), z: fx_div(self.z, k) }
    }

    pub fn hadamard(self, b: Vec3) -> (r: Vec3)
        requires
            self.wf(),
            b.wf(),
        ensures
            r == hadamard_spec(self, b),
            r.wf(),
    {
        Vec3 { x: fx_mul(self.x, b.x), y: fx_mul(self.y, b.y), z: fx_mul(self.z, b.z) }
    }

    /// The exact dot product of the raw components, as a wide integer.
    pub fn raw_dot(self, b: Vec3) -> (r: i128)
        requires
            self.wf(),
            b.wf(),
        ensures
            r as int == raw_dot(self, b),
            -3_000_000_000_000_000_000_000_000 <= r <= 3_000_000_000_000_000_000_000_000,
    {
        wide_mul(self.x, b.x) + wide_mul(self.y, b.y) + wide_mul(self.z, b.z)
    }

    pub fn dot(self, b: Vec3) -> (r: i64)
        requires
            self.wf(),
            b.wf(),
        ensures
            r as int == dot_spec(self, b),
            in_range(r as int),
    {
        clamp_wide(floor_div(self.raw_dot(b), ONE as i128))
    }

    pub fn cross(self, b: Vec3) -> (r: Vec3)
        requires
            self.wf(),
            b.wf(),
        ensures
            r == cross_spec(self, b),
            r.wf(),
    {
        let x = wide_mul(self.y, b.z) - wide_mul(self.z, b.y);
        let y = wide_mul(self.z, b.x) - wide_mul(self.x, b.z);
        let z = wide_mul(self.x, b.y) - wide_mul(self.y, b.x);
        Vec3 {
            x: clamp_wide(floor_div(x, ONE as i128)),
            y: clamp_wide(floor_div(y, ONE as i128)),
            z: clamp_wide(floor_div(z, ONE as i128)),
        }
    }

    pub fn length_squared(self) -> (r: i64)
        requires
            self.wf(),
        ensures
            r as int == dot_spec(self, self),
            in_range(r as int),
    {
        self.dot(self)
    }

    pub fn length(self) -> (r: i64)
        requires
            self.wf(),
        ensures
            r as int == length_spec(self),
            0 <= r <= LIM,
    {
        let s = self.raw_dot(self);
        assert(s >= 0) by (nonlinear_arith)
            requires
                s == self.x as int * self.x as int + self.y as int * self.y as int
                    + self.z as int * self.z as int,
        ;
        clamp_wide(isqrt(s))
    }

    /// The unit vector along `self`; the zero vector is returned unchanged.
    pub fn normalized(self) -> (r: Vec3)
        requires
            self.wf(),
        ensures
            r == normalized_spec(self),
            r.wf(),
            unit_bounded(r),
    {
        let x = self.x as i128 * ONE as i128;
        let y = self.y as i128 * ONE as i128;
        let z = self.z as i128 * ONE as i128;
        assert(0 <= x * x <= 1_000_000_000_000_000_000_000_000_000_000_000_000
            && 0 <= y * y <= 1_000_000_000_000_000_000_000_000_000_000_000_000
            && 0 <= z * z <= 1_000_000_000_000_000_000_000_000_000_000_000_000) by (nonlinear_arith)
            requires
                -1_000_000_000_000_000_000 <= x <= 1_000_000_000_000_000_000,
                -1_000_000_000_000_000_000 <= y <= 1_000_000_000_000_000_000,
                -1_000_000_000_000_000_000 <= z <= 1_000_000_000_000_000_000,
        ;
        let s = x * x + y * y + z * z;
        let l = isqrt(s);
        proof {
            if l > 0 {
                assert(x * x <= s && y * y <= s && z * z <= s);
                lemma_unit_component(x as int, s as int, l as int);
                lemma_unit_component(y as int, s as int, l as int);
                lemma_unit_component(z as int, s as int, l as int);
            }
        }
        if l == 0 {
            Vec3 { x: 0, y: 0, z: 0 }
        } else {
            Vec3 {
                x: clamp_wide(floor_div(x * ONE as i128, l)),
                y: clamp_wide(floor_div(y * ONE as i128, l)),
                z: clamp_wide(floor_div(z * ONE as i128, l)),
            }
        }
    }

    /// `self - 2 (self . n) n`.
    pub fn reflect(self, n: Vec3) -> (r: Vec3)
        requires
            self.wf(),
            n.wf(),
        ensures
            r == reflect_spec(self, n),
            r.wf(),
    {
        let d = self.dot(n);
        let k = clamp_wide(2 * d as i128);
        self.sub(n.scale(k))
    }
}

/// Reflection about a unit normal keeps the length and negates the component
/// along the normal: `reflect(v, n) . n == -(v . n)` and `|reflect(v, n)| == |v|`.
/// Stated where the fixed-point arithmetic is exact: `n` has length exactly one,
/// `v . n` and each `2 (v . n) n_i` are whole multiples of the unit, and nothing
/// saturates.
pub proof fn lemma_reflect_law(v: Vec3, n: Vec3)
    requires
        v.wf(),
        n.wf(),
        raw_dot(n, n) == ONE as int * ONE as int,
        raw_dot(v, n) % (ONE as int) == 0,
        in_range(2 * (raw_dot(v, n) / (ONE as int))),
        (2 * (raw_dot(v, n) / (ONE as int)) * n.x) % (ONE as int) == 0,
        (2 * (raw_dot(v, n) / (ONE as int)) * n.y) % (ONE as int) == 0,
        (2 * (raw_dot(v, n) / (ONE as int)) * n.z) % (ONE as int) == 0,
        in_range(v.x - (2 * (raw_dot(v, n) / (ONE as int)) * n.x) / (ONE as int)),
        in_range(v.y - (2 * (raw_dot(v, n) / (ONE as int)) * n.y) / (ONE as int)),
        in_range(v.z - (2 * (raw_dot(v, n) / (ONE as int)) * n.z) / (ONE as int)),
    ensures
        dot_spec(reflect_spec(v, n), n) == -dot_spec(v, n),
        raw_dot(reflect_spec(v, n), reflect_spec(v, n)) == raw_dot(v, v),
        length_spec(reflect_spec(v, n)) == length_spec(v),
{
    let one = ONE as int;
    let d = raw_dot(v, n) / one;
    lemma_fundamental_div_mod(raw_dot(v, n), one);
    assert(raw_dot(v, n) == d * one);
    assert(in_range(d)) by {
        assert(in_range(2 * d));
    }
    assert(dot_spec(v, n) == d);
    let k = 2 * d;
    let qx = (k * n.x) / one;
    let qy = (k * n.y) / one;
    let qz = (k * n.z) / one;
    lemma_fundamental_div_mod(k * n.x, one);
    lemma_fundamental_div_mod(k * n.y, one);
    lemma_fundamental_div_mod(k * n.z, one);
    assert(k * n.x == qx * one && k * n.y == qy * one && k * n.z == qz * one);
    assert(in_range(qx) && in_range(qy) && in_range(qz)) by {
        assert(-LIM <= qx <= LIM && -LIM <= qy <= LIM && -LIM <= qz <= LIM) by (nonlinear_arith)
            requires
                k * n.x == qx * one,
                k * n.y == qy * one,
                k * n.z == qz * one,
                one == ONE,
                -LIM <= k <= LIM,
                -ONE * ONE <= n.x <= ONE * ONE,
                n.x * n.x + n.y * n.y + n.z * n.z == one * one,
        ;
    }
    let r = reflect_spec(v, n);
    assert(r.x == v.x - qx && r.y == v.y - qy && r.z == v.z - qz);
    let (nx, ny, nz, vx, vy, vz) = (n.x as int, n.y as int, n.z as int, v.x as int, v.y as int, v.z as int);
    lemma_cancel_term(k, nx, qx, nx, one);
    lemma_cancel_term(k, ny, qy, ny, one);
    lemma_cancel_term(k, nz, qz, nz, one);
    lemma_cancel_term(k, nx, qx, vx, one);
    lemma_cancel_term(k, ny, qy, vy, one);
    lemma_cancel_term(k, nz, qz, vz, one);
    lemma_cancel_term(k, nx, qx, qx, one);
    lemma_cancel_term(k, ny, qy, qy, one);
    lemma_cancel_term(k, nz, qz, qz, one);
    // Sums of the scaled terms, each divided by `one` once.
    let sqn = qx * nx + qy * ny + qz * nz;
    let svq = qx * vx + qy * vy + qz * vz;
    let sqq = qx * qx + qy * qy + qz * qz;
    lemma_distrib3(qx * nx, qy * ny, qz * nz, one);
    lemma_distrib3(nx * nx, ny * ny, nz * nz, k);
    assert(sqn * one == k * (one * one));
    lemma_cancel(sqn, k * one, one);
    lemma_distrib3(qx * vx, qy * vy, qz * vz, one);
    lemma_distrib3(nx * vx, ny * vy, nz * vz, k);
    assert(nx * vx + ny * vy + nz * vz == vx * nx + vy * ny + vz * nz) by (nonlinear_arith);
    assert(nx * vx + ny * vy + nz * vz == d * one);
    assert(svq * one == k * (d * one));
    assert(k * (d * one) == (k * d) * one) by (nonlinear_arith);
    lemma_cancel(svq, k * d, one);
    lemma_distrib3(qx * qx, qy * qy, qz * qz, one);
    lemma_distrib3(nx * qx, ny * qy, nz * qz, k);
    assert(nx * qx + ny * qy + nz * qz == sqn) by (nonlinear_arith)
        requires
            sqn == qx * nx + qy * ny + qz * nz,
    ;
    assert(sqq * one == k * sqn);
    assert(k * (k * one) == (k * k) * one) by (nonlinear_arith);
    lemma_cancel(sqq, k * k, one);
    assert(raw_dot(r, n) == vx * nx + vy * ny + vz * nz - sqn) by (nonlinear_arith)
        requires
            raw_dot(r, n) == (vx - qx) * nx + (vy - qy) * ny + (vz - qz) * nz,
            sqn == qx * nx + qy * ny + qz * nz,
    ;
    assert(raw_dot(r, n) == -d * one);
    lemma_div_by_multiple_neg(-d, one);
    assert(raw_dot(r, r) == raw_dot(v, v) - 2 * svq + sqq) by (nonlinear_arith)
        requires
            raw_dot(r, r) == (vx - qx) * (vx - qx) + (vy - qy) * (vy - qy) + (vz - qz) * (vz - qz),
            raw_dot(v, v) == vx * vx + vy * vy + vz * vz,
            svq == qx * vx + qy * vy + qz * vz,
            sqq == qx * qx + qy * qy + qz * qz,
    ;
    assert(k * k == 2 * (k * d)) by (nonlinear_arith)
        requires
            k == 2 * d,
    ;
}

/// `(a + b + c) m` spread over the sum.
proof fn lemma_distrib3(a: int, b: int, c: int, m: int)
    ensures
        (a + b + c) * m == a * m + b * m + c * m,
        m * (a + b + c) == m * a + m * b + m * c,
{
    assert((a + b + c) * m == a * m + b * m + c * m) by (nonlinear_arith);
    assert(m * (a + b + c) == m * a + m * b + m * c) by (nonlinear_arith);
}

/// From `k * n == q * one`: `q * m * one == k * n * m`.
proof fn lemma_cancel_term(k: int, n: int, q: int, m: int, one: int)
    requires
        k * n == q * one,
    ensures
        (q * m) * one == k * (n * m),
{
    assert((q * m) * one == k * (n * m)) by (nonlinear_arith)
        requires
            k * n == q * one,
    ;
}

/// `a * c == b * c` with `c > 0` gives `a == b`.
proof fn lemma_cancel(a: int, b: int, c: int)
    requires
        a * c == b * c,
        c > 0,
    ensures
        a == b,
{
    assert(a == b) by (nonlinear_arith)
        requires
            a * c == b * c,
            c > 0,
    ;
}

/// `(q * d) / d == q` for any sign of `q`.
proof fn lemma_div_by_multiple_neg(q: int, d: int)
    requires
        d > 0,
    ensures
        (q * d) / d == q,
{
    lemma_fundamental_div_mod_converse(q * d, d, q, 0);
}

/// Every non-negative integer has an integer square root.
pub proof fn lemma_root_exists(n: int)
    requires
        n >= 0,
    ensures
        is_isqrt(n, root(n)),
    decreases n,
{
    if n == 0 {
        assert(is_isqrt(0, 0));
    } else {
        lemma_root_exists(n - 1);
        let r = root(n - 1);
        if (r + 1) * (r + 1) <= n {
            assert(n < (r + 2) * (r + 2)) by (nonlinear_arith)
                requires
                    (r + 1) * (r + 1) <= n,
                    n - 1 < (r + 1) * (r + 1),
                    r >= 0,
            ;
            assert(is_isqrt(n, r + 1));
        } else {
            assert(is_isqrt(n, r));
        }
    }
}

/// One component of a normalized vector, squared, against the exact value.
proof fn lemma_norm_component(c: int, l: int, q: int)
    requires
        l >= 1,
        -l <= c <= l,
        q == (c * ONE) / l,
    ensures
        c * c * (ONE * ONE) - (2 * ONE + 1) * (l * l) <= q * q * (l * l),
        q * q * (l * l) <= c * c * (ONE * ONE) + 2 * ONE * (l * l),
{
    let one = ONE as int;
    let a = c * one;
    lemma_fundamental_div_mod(a, l);
    let dd = a % l;
    assert(0 <= dd < l);
    assert(a == l * q + dd);
    assert(-l * one <= a <= l * one) by (nonlinear_arith)
        requires
            -l <= c <= l,
            a == c * one,
            one > 0,
    ;
    assert(-one <= q <= one) by (nonlinear_arith)
        requires
            a == l * q + dd,
            0 <= dd < l,
            -l * one <= a <= l * one,
            l >= 1,
    ;
    assert(a * a == q * q * (l * l) + 2 * ((l * q) * dd) + dd * dd) by (nonlinear_arith)
        requires
            a == l * q + dd,
    ;
    assert(-one * l <= q * dd <= one * l) by (nonlinear_arith)
        requires
            -one <= q <= one,
            0 <= dd < l,
            one > 0,
    ;
    assert(-one * (l * l) <= (l * q) * dd <= one * (l * l)) by (nonlinear_arith)
        requires
            -one * l <= q * dd <= one * l,
            l >= 1,
    ;
    assert(0 <= dd * dd <= l * l) by (nonlinear_arith)
        requires
            0 <= dd < l,
    ;
    assert(a * a == c * c * (one * one)) by (nonlinear_arith)
        requires
            a == c * one,
    ;
    assert((2 * one + 1) * (l * l) == 2 * (one * (l * l)) + l * l) by (nonlinear_arith);
    assert(-one * (l * l) == -(one * (l * l))) by (nonlinear_arith);
    assert(2 * one * (l * l) == 2 * (one * (l * l))) by (nonlinear_arith);
}

/// The squared length lies within `9e-6` of one.
pub open spec fn near_unit(v: Vec3) -> bool {
    ONE * ONE - 9 * ONE <= raw_dot(v, v) <= ONE * ONE + 9 * ONE
}

/// A normalized vector has length one up to rounding: for every nonzero `v`,
/// its squared length lies within `9e-6` of one.
pub proof fn lemma_normalized_unit(v: Vec3)
    requires
        v.wf(),
        v != (Vec3 { x: 0, y: 0, z: 0 }),
    ensures
        near_unit(normalized_spec(v)),
{
    let one = ONE as int;
    let (x, y, z) = (v.x * one, v.y * one, v.z * one);
    let s = x * x + y * y + z * z;
    assert(s >= one * one) by (nonlinear_arith)
        requires
            x == v.x * one,
            y == v.y * one,
            z == v.z * one,
            s == x * x + y * y + z * z,
            v.x != 0 || v.y != 0 || v.z != 0,
            one > 0,
    ;
    lemma_root_exists(s);
    let l = root(s);
    assert(l >= one) by {
        if l < one {
            assert((l + 1) * (l + 1) <= one * one) by (nonlinear_arith)
                requires
                    0 <= l < one,
            ;
        }
    }
    assert(x * x <= s && y * y <= s && z * z <= s) by (nonlinear_arith)
        requires
            s == x * x + y * y + z * z,
    ;
    lemma_unit_component(x, s, l);
    lemma_unit_component(y, s, l);
    lemma_unit_component(z, s, l);
    assert(-l <= x <= l && -l <= y <= l && -l <= z <= l) by (nonlinear_arith)
        requires
            x * x <= s,
            y * y <= s,
            z * z <= s,
            s < (l + 1) * (l + 1),
            l >= 1,
    ;
    let qx = (x * one) / l;
    let qy = (y * one) / l;
    let qz = (z * one) / l;
    let nv = normalized_spec(v);
    assert(nv.x == qx && nv.y == qy && nv.z == qz);
    lemma_norm_component(x, l, qx);
    lemma_norm_component(y, l, qy);
    lemma_norm_component(z, l, qz);
    let m = raw_dot(nv, nv);
    let l2 = l * l;
    assert(m * l2 == qx * qx * l2 + qy * qy * l2 + qz * qz * l2) by (nonlinear_arith)
        requires
            m == qx * qx + qy * qy + qz * qz,
    ;
    assert(x * x * (one * one) + y * y * (one * one) + z * z * (one * one) == s * (one * one))
        by (nonlinear_arith)
        requires
            s == x * x + y * y + z * z,
    ;
    assert(l2 <= s < l2 + 2 * l + 1) by (nonlinear_arith)
        requires
            l * l <= s < (l + 1) * (l + 1),
            l2 == l * l,
    ;
    assert(l2 * (one * one) <= s * (one * one) < l2 * (one * one) + (2 * one + 1) * l2) by (nonlinear_arith)
        requires
            l2 <= s < l2 + 2 * l + 1,
            l >= one,
            l2 == l * l,
            one > 0,
    ;
    let t = l2 * (one * one);
    let u = one * l2;
    assert((2 * one + 1) * (l * l) == 2 * u + l2 && 2 * one * (l * l) == 2 * u) by (nonlinear_arith)
        requires
            u == one * l2,
            l2 == l * l,
    ;
    assert(m * l2 >= t - 6 * u - 3 * l2);
    assert(m * l2 < t + (2 * one + 1) * l2 + 6 * u);
    assert((2 * one + 1) * l2 == 2 * u + l2) by (nonlinear_arith)
        requires
            u == one * l2,
    ;
    assert(l2 <= u) by (nonlinear_arith)
        requires
            u == one * l2,
            one >= 1,
            l2 >= 0,
    ;
    assert((one * one - 9 * one) * l2 == t - 9 * u && (one * one + 9 * one) * l2 == t + 9 * u)
        by (nonlinear_arith)
        requires
            u == one * l2,
            t == l2 * (one * one),
    ;
    assert(m * l2 >= (one * one - 9 * one) * l2);
    assert(m * l2 <= (one * one + 9 * one) * l2);
    assert(one * one - 9 * one <= m <= one * one + 9 * one) by (nonlinear_arith)
        requires
            m * l2 >= (one * one - 9 * one) * l2,
            m * l2 <= (one * one + 9 * one) * l2,
            l2 > 0,
    ;
}

/// A normalized vector has every component in `[-1, 1]`.
pub proof fn lemma_normalized_bounded(v: Vec3)
    requires
        v.wf(),
    ensures
        unit_bounded(normalized_spec(v)),
{
    let one = ONE as int;
    let (x, y, z) = (v.x * one, v.y * one, v.z * one);
    let s = x * x + y * y + z * z;
    assert(x * x <= s && y * y <= s && z * z <= s && s >= 0) by (nonlinear_arith)
        requires
            s == x * x + y * y + z * z,
    ;
    lemma_root_exists(s);
    let l = root(s);
    if l > 0 {
        lemma_unit_component(x, s, l);
        lemma_unit_component(y, s, l);
        lemma_unit_component(z, s, l);
    }
}

} // verus!
