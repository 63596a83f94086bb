//! Fixed-point scalars: a real number `x` is held as the integer `x * ONE`,
//! rounded toward negative infinity and saturated to `[-LIM, LIM]`.
use vstd::prelude::*;
use vstd::arithmetic::div_mod::lemma_fundamental_div_mod;
use vstd::arithmetic::div_mod::lemma_fundamental_div_mod_converse;
use vstd::arithmetic::div_mod::lemma_div_is_ordered;

verus! {

/// The raw value of the real number 1.
pub const ONE: i64 = 1_000_000;

/// The largest magnitude of a raw scalar or vector component.
pub const LIM: i64 = 1_000_000_000_000;

/// The bound on the radicand accepted by `isqrt` (2^124).
pub const SQRT_MAX: i128 = 21_267_647_932_558_653_966_460_912_964_485_513_216;

/// Saturation to the representable range.
pub open spec fn clamp(v: int) -> int {
    if v < -LIM {
        -LIM as int
    } else if v > LIM {
        LIM as int
    } else {
        v
    }
}

pub open spec fn in_range(v: int) -> bool {
    -LIM <= v <= LIM
}

/// Fixed-point product, rounded down.
pub open spec fn mul_spec(a: int, b: int) -> int {
    clamp((a * b) / (ONE as int))
}

/// Fixed-point quotient by a positive divisor, rounded down.
pub open spec fn div_spec(a: int, b: int) -> int {
    clamp((a * ONE) / b)
}

/// `r` is the integer square root of `n`.
pub open spec fn is_isqrt(n: int, r: int) -> bool {
    0 <= r && r * r <= n && n < (r + 1) * (r + 1)
}

/// Fixed-point square root of a non-negative scalar, rounded down.
pub open spec fn sqrt_of(a: int, r: int) -> bool {
    is_isqrt(a * ONE, r)
}

/// The integer square root of a non-negative integer.
pub open spec fn root(n: int) -> int {
    choose|r: int| is_isqrt(n, r)
}

/// The integer square root is unique.
pub proof fn lemma_isqrt_unique(n: int, r1: int, r2: int)
    requires
        is_isqrt(n, r1),
        is_isqrt(n, r2),
    ensures
        r1 == r2,
{
    if r1 < r2 {
        assert((r1 + 1) * (r1 + 1) <= r2 * r2) by (nonlinear_arith)
            requires
                0 <= r1 + 1 <= r2,
        ;
    } else if r2 < r1 {
        assert((r2 + 1) * (r2 + 1) <= r1 * r1) by (nonlinear_arith)
            requires
                0 <= r2 + 1 <= r1,
        ;
    }
}

/// Wide product of two raw scalars.
pub fn wide_mul(a: i64, b: i64) -> (r: i128)
    requires
        in_range(a as int),
        in_range(b as int),
    ensures
        r as int == a as int * b as int,
        -1_000_000_000_000_000_000_000_000 <= r <= 1_000_000_000_000_000_000_000_000,
{
    assert(-1_000_000_000_000_000_000_000_000 <= a as int * b as int
        <= 1_000_000_000_000_000_000_000_000) by (nonlinear_arith)
        requires
            in_range(a as int),
            in_range(b as int),
    ;
    a as i128 * b as i128
}

/// A raw product or dot product brought back to fixed point, without saturation.
pub fn scale_down(v: i128) -> (r: i128)
    requires
        -3_000_000_000_000_000_000_000_000 <= v <= 3_000_000_000_000_000_000_000_000,
    ensures
        r as int == v as int / (ONE as int),
        -3_000_000_000_000_000_000 <= r <= 3_000_000_000_000_000_000,
{
    let r = floor_div(v, ONE as i128);
    proof {
        lemma_div_is_ordered(v as int, 3_000_000_000_000_000_000_000_000, ONE as int);
        lemma_div_is_ordered(-3_000_000_000_000_000_000_000_000, v as int, ONE as int);
        lemma_fundamental_div_mod_converse(
            3_000_000_000_000_000_000_000_000,
            ONE as int,
            3_000_000_000_000_000_000,
            0,
        );
        lemma_fundamental_div_mod_converse(
            -3_000_000_000_000_000_000_000_000,
            ONE as int,
            -3_000_000_000_000_000_000,
            0,
        );
    }
    r
}

/// Saturates a wide integer to the representable range.
pub fn clamp_wide(v: i128) -> (r: i64)
    ensures
        r as int == clamp(v as int),
        in_range(r as int),
{
    if v < -(LIM as i128) {
        -LIM
    } else if v > LIM as i128 {
        LIM
    } else {
        v as i64
    }
}

/// Division rounded toward negative infinity.
pub fn floor_div(a: i128, b: i128) -> (r: i128)
    requires
        b > 0,
        a > i128::MIN,
    ensures
        r as int == a as int / b as int,
{
    if a >= 0 {
        a / b
    } else {
        let m: i128 = -a - 1;
        let q: i128 = m / b;
        proof {
            lemma_fundamental_div_mod(m as int, b as int);
            let rem = m as int % b as int;
            assert(0 <= rem < b);
            assert(q as int == m as int / b as int);
            assert(a as int == (-(q as int) - 1) * b + (b - rem - 1)) by (nonlinear_arith)
                requires
                    m as int == b * (q as int) + rem,
                    a as int == -(m as int) - 1,
            ;
            lemma_fundamental_div_mod_converse(a as int, b as int, -(q as int) - 1, b - rem - 1);
        }
        -q - 1
    }
}

/// Fixed-point product of two scalars.
pub fn fx_mul(a: i64, b: i64) -> (r: i64)
    requires
        in_range(a as int),
        in_range(b as int),
    ensures
        r as int == mul_spec(a as int, b as int),
        in_range(r as int),
{
    assert(-1_000_000_000_000_000_000_000_000 <= a as int * b as int
        <= 1_000_000_000_000_000_000_000_000) by (nonlinear_arith)
        requires
            in_range(a as int),
            in_range(b as int),
    ;
    let p: i128 = a as i128 * b as i128;
    clamp_wide(floor_div(p, ONE as i128))
}

/// Fixed-point quotient of a scalar by a positive scalar.
pub fn fx_div(a: i64, b: i64) -> (r: i64)
    requires
        in_range(a as int),
        0 < b <= LIM,
    ensures
        r as int == div_spec(a as int, b as int),
        in_range(r as int),
{
    let p: i128 = a as i128 * ONE as i128;
    clamp_wide(floor_div(p, b as i128))
}

/// Integer square root by bisection.
pub fn isqrt(n: i128) -> (r: i128)
    requires
        0 <= n < SQRT_MAX,
    ensures
        is_isqrt(n as int, r as int),
        r as int == root(n as int),
        r <= 4_611_686_018_427_387_904,
{
    let mut lo: i128 = 0;
    let mut hi: i128 = 4_611_686_018_427_387_904;
    assert(hi * hi == SQRT_MAX);
    while hi - lo > 1
        invariant
            0 <= lo < hi <= 4_611_686_018_427_387_904,
            lo * lo <= n,
            n < hi * hi,
        decreases hi - lo,
    {
        let mid: i128 = lo + (hi - lo) / 2;
        assert(0 <= mid * mid <= SQRT_MAX) by (nonlinear_arith)
            requires
                0 <= mid <= 4_611_686_018_427_387_904,
        ;
        if mid * mid <= n {
            lo = mid;
        } else {
            hi = mid;
        }
    }
    proof {
        assert(is_isqrt(n as int, lo as int));
        let c = root(n as int);
        assert(is_isqrt(n as int, c));
        lemma_isqrt_unique(n as int, lo as int, c);
    }
    lo
}

/// Fixed-point square root of a non-negative scalar.
pub fn fx_sqrt(a: i64) -> (r: i64)
    requires
        0 <= a <= LIM,
    ensures
        sqrt_of(a as int, r as int),
        0 <= r <= LIM,
{
    assert((a as int) * (ONE as int) < SQRT_MAX) by (nonlinear_arith)
        requires
            0 <= a <= LIM,
    ;
    let s = isqrt(a as i128 * ONE as i128);
    assert(s <= LIM) by (nonlinear_arith)
        requires
            s * s <= a as int * ONE as int,
            a <= LIM,
            0 <= s,
    ;
    s as i64
}

} // verus!
