//! Fixed-point vector math: the integer grid, dot products, an exact
//! integer square root and floor division, and the reflection formula.

use vstd::prelude::*;
use vstd::arithmetic::div_mod::{
    lemma_fundamental_div_mod, lemma_fundamental_div_mod_converse, lemma_mod_bound,
};

verus! {

/// One world unit on the fixed-point grid.
pub const SCALE: i128 = 65536;

/// `SCALE * SCALE`, the grid unit of squared lengths and dot products.
pub const SCALE_SQ: i128 = 4294967296;

/// Largest magnitude allowed for a scene coordinate or a ray component.
pub const COORD_MAX: i128 = 268435456;

/// Centre coordinate of a padding sentinel: outside the reachable scene.
pub const SENTINEL_CENTRE: i128 = 536870912;

/// Largest magnitude allowed for the `t_min`/`t_max` query window.
pub const T_BOUND: i128 = 1099511627776;

/// A point or direction on the fixed-point grid.
#[derive(Clone, Copy, Debug, PartialEq, Eq, Structural)]
pub struct Vec3 {
    pub x: i128,
    pub y: i128,
    pub z: i128,
}

/// Every component has magnitude at most `m`.
pub open spec fn in_bounds(v: Vec3, m: int) -> bool {
    &&& -m <= v.x <= m
    &&& -m <= v.y <= m
    &&& -m <= v.z <= m
}

pub open spec fn spec_dot(a: Vec3, b: Vec3) -> int {
    a.x * b.x + a.y * b.y + a.z * b.z
}

pub fn vec3(x: i128, y: i128, z: i128) -> (v: Vec3)
    ensures
        v == (Vec3 { x, y, z }),
{
    Vec3 { x, y, z }
}

/// `|x * y| <= a * b` whenever `|x| <= a` and `|y| <= b`.
pub proof fn lemma_mul_abs(x: int, y: int, a: int, b: int)
    by (nonlinear_arith)
    requires
        -a <= x <= a,
        -b <= y <= b,
        0 <= a,
        0 <= b,
    ensures
        -(a * b) <= x * y <= a * b,
{
}

/// A square is never negative, and is zero only at zero.
pub proof fn lemma_sq_nonneg(x: int)
    by (nonlinear_arith)
    ensures
        x * x >= 0,
        x * x == 0 ==> x == 0,
{
}

/// Multiplication commutes.
pub proof fn lemma_mul_comm(a: int, b: int)
    by (nonlinear_arith)
    ensures
        a * b == b * a,
{
}

/// Squaring is monotone on non-negative integers.
pub proof fn lemma_sq_mono(a: int, b: int)
    by (nonlinear_arith)
    requires
        0 <= a <= b,
    ensures
        a * a <= b * b,
{
}

proof fn lemma_expand_sq3(u1: int, u2: int, u3: int)
    by (nonlinear_arith)
    ensures
        (u1 + u2 + u3) * (u1 + u2 + u3) == u1 * u1 + u2 * u2 + u3 * u3 + 2 * (u1 * u2) + 2 * (u1
            * u3) + 2 * (u2 * u3),
{
}

proof fn lemma_expand_sq_diff(a: int, b: int)
    by (nonlinear_arith)
    ensures
        (a - b) * (a - b) == a * a + b * b - 2 * (a * b),
        (a - b) * (a - b) >= 0,
{
}

proof fn lemma_mul_swap(a: int, b: int, c: int, d: int)
    by (nonlinear_arith)
    ensures
        (a * b) * (c * d) == (a * c) * (b * d),
{
}

proof fn lemma_expand_prod3(v1: int, v2: int, v3: int, w1: int, w2: int, w3: int)
    by (nonlinear_arith)
    ensures
        (v1 + v2 + v3) * (w1 + w2 + w3) == v1 * w1 + v1 * w2 + v1 * w3 + v2 * w1 + v2 * w2 + v2
            * w3 + v3 * w1 + v3 * w2 + v3 * w3,
{
}

/// The Cauchy-Schwarz inequality in three dimensions, by Lagrange's
/// identity: the square of a dot product never exceeds the product of
/// the squared lengths.
pub proof fn lemma_dot_sq_le(ax: int, ay: int, az: int, bx: int, by: int, bz: int)
    ensures
        (ax * bx + ay * by + az * bz) * (ax * bx + ay * by + az * bz) <= (ax * ax + ay * ay + az
            * az) * (bx * bx + by * by + bz * bz),
{
    lemma_expand_sq3(ax * bx, ay * by, az * bz);
    lemma_expand_prod3(ax * ax, ay * ay, az * az, bx * bx, by * by, bz * bz);
    lemma_expand_sq_diff(ax * by, ay * bx);
    lemma_expand_sq_diff(ax * bz, az * bx);
    lemma_expand_sq_diff(ay * bz, az * by);
    lemma_mul_swap(ax, bx, ax, bx);
    lemma_mul_swap(ay, by, ay, by);
    lemma_mul_swap(az, bz, az, bz);
    lemma_mul_swap(ax, bx, ay, by);
    lemma_mul_swap(ax, bx, az, bz);
    lemma_mul_swap(ay, by, az, bz);
    lemma_mul_swap(ax, by, ax, by);
    lemma_mul_swap(ay, bx, ay, bx);
    lemma_mul_swap(ax, by, ay, bx);
    lemma_mul_swap(ax, bz, ax, bz);
    lemma_mul_swap(az, bx, az, bx);
    lemma_mul_swap(ax, bz, az, bx);
    lemma_mul_swap(ay, bz, ay, bz);
    lemma_mul_swap(az, by, az, by);
    lemma_mul_swap(ay, bz, az, by);
}

/// Componentwise bound on a dot product.
pub proof fn lemma_dot_bound(a: Vec3, b: Vec3, m1: int, m2: int)
    requires
        0 <= m1,
        0 <= m2,
        in_bounds(a, m1),
        in_bounds(b, m2),
    ensures
        -(3 * (m1 * m2)) <= spec_dot(a, b) <= 3 * (m1 * m2),
{
    lemma_mul_abs(a.x as int, b.x as int, m1, m2);
    lemma_mul_abs(a.y as int, b.y as int, m1, m2);
    lemma_mul_abs(a.z as int, b.z as int, m1, m2);
}

/// Exact dot product of two bounded grid vectors.
pub fn dot3(a: Vec3, b: Vec3) -> (r: i128)
    requires
        in_bounds(a, 0x40000000),
        in_bounds(b, 0x40000000),
    ensures
        r == spec_dot(a, b),
        -0x3000000000000000 <= r <= 0x3000000000000000,
{
    proof {
        lemma_mul_abs(a.x as int, b.x as int, 0x40000000, 0x40000000);
        lemma_mul_abs(a.y as int, b.y as int, 0x40000000, 0x40000000);
        lemma_mul_abs(a.z as int, b.z as int, 0x40000000, 0x40000000);
    }
    a.x * b.x + a.y * b.y + a.z * b.z
}

/// `r` is the floor of the square root of `x`.
pub open spec fn is_sqrt_floor(x: int, r: int) -> bool {
    &&& 0 <= r
    &&& r * r <= x
    &&& x < (r + 1) * (r + 1)
}

/// The floor of the square root of a non-negative integer.
pub open spec fn sqrt_floor(x: int) -> int {
    choose|r: int| is_sqrt_floor(x, r)
}

proof fn lemma_sqrt_exists(x: nat)
    ensures
        exists|r: int| is_sqrt_floor(x as int, r),
    decreases x,
{
    if x == 0 {
        assert(is_sqrt_floor(0, 0)) by (nonlinear_arith);
    } else {
        lemma_sqrt_exists((x - 1) as nat);
        let r = sqrt_floor(x - 1);
        assert(is_sqrt_floor(x - 1, r));
        if x < (r + 1) * (r + 1) {
            assert(is_sqrt_floor(x as int, r));
        } else {
            assert(x == (r + 1) * (r + 1));
            assert(is_sqrt_floor(x as int, r + 1)) by (nonlinear_arith)
                requires
                    0 <= r,
                    x == (r + 1) * (r + 1),
            ;
        }
    }
}

/// Any witness of `is_sqrt_floor` is the `sqrt_floor`.
pub proof fn lemma_sqrt_floor_is(x: int, r: int)
    requires
        is_sqrt_floor(x, r),
    ensures
        sqrt_floor(x) == r,
{
    let c = sqrt_floor(x);
    assert(is_sqrt_floor(x, c));
    if c < r {
        lemma_sq_mono(c + 1, r);
        assert(false);
    }
    if r < c {
        lemma_sq_mono(r + 1, c);
        assert(false);
    }
}

/// The defining property of `sqrt_floor`, available for any non-negative input.
pub proof fn lemma_sqrt_floor_props(x: int)
    requires
        0 <= x,
    ensures
        is_sqrt_floor(x, sqrt_floor(x)),
{
    lemma_sqrt_exists(x as nat);
    assert(is_sqrt_floor(x, sqrt_floor(x)));
}

/// Floor of the square root, by binary search.
pub fn isqrt(x: u128) -> (r: u128)
    requires
        x < 0x4000000000000000000000000000000,
    ensures
        is_sqrt_floor(x as int, r as int),
        r as int == sqrt_floor(x as int),
{
    let mut lo: u128 = 0;
    let mut hi: u128 = 0x2000000000000000;
    proof {
        assert((0x2000000000000000 as int) * (0x2000000000000000 as int)
            == 0x4000000000000000000000000000000);
    }
    while lo + 1 < hi
        invariant
            lo < hi,
            hi <= 0x2000000000000000,
            lo * lo <= x,
            (x as int) < (hi as int) * (hi as int),
        decreases hi - lo,
    {
        let mid: u128 = lo + (hi - lo) / 2;
        proof {
            lemma_mul_abs(mid as int, mid as int, 0x2000000000000000, 0x2000000000000000);
        }
        if mid * mid <= x {
            lo = mid;
        } else {
            hi = mid;
        }
    }
    proof {
        lemma_sqrt_floor_is(x as int, lo as int);
    }
    lo
}

/// Floor division of `n` by a positive divisor `d`; agrees with the
/// mathematical (Euclidean) quotient `n / d`.
pub fn div_floor(n: i128, d: i128) -> (q: i128)
    requires
        1 <= d,
        i128::MIN < n,
    ensures
        q == (n as int) / (d as int),
{
    if n >= 0 {
        let q0: u128 = (n as u128) / (d as u128);
        proof {
            lemma_fundamental_div_mod(n as int, d as int);
        }
        q0 as i128
    } else {
        let m: u128 = (-n) as u128;
        let q0: u128 = m / (d as u128);
        let r0: u128 = m % (d as u128);
        proof {
            lemma_fundamental_div_mod(m as int, d as int);
            assert(0 <= r0 < d);
            assert(m == (d as int) * (q0 as int) + r0);
            assert(0 <= q0 <= m) by (nonlinear_arith)
                requires
                    1 <= d,
                    0 <= m,
                    0 <= r0,
                    m == (d as int) * (q0 as int) + (r0 as int),
                    0 <= q0,
            ;
        }
        if r0 == 0 {
            proof {
                assert(n as int == (-(q0 as int)) * (d as int) + 0) by (nonlinear_arith)
                    requires
                        m == (d as int) * (q0 as int) + (r0 as int),
                        r0 == 0,
                        n as int == -(m as int),
                ;
                lemma_fundamental_div_mod_converse(n as int, d as int, -(q0 as int), 0);
            }
            -(q0 as i128)
        } else {
            proof {
                assert(n as int == (-(q0 as int) - 1) * (d as int) + ((d as int) - (r0 as int)))
                    by (nonlinear_arith)
                    requires
                        m == (d as int) * (q0 as int) + (r0 as int),
                        n as int == -(m as int),
                ;
                lemma_fundamental_div_mod_converse(
                    n as int,
                    d as int,
                    -(q0 as int) - 1,
                    d - r0,
                );
            }
            -(q0 as i128) - 1
        }
    }
}

/// Mirror of `v` about the plane with unit normal `n`, on the grid:
/// `v - 2 (v . n) n`, with the dot product rescaled from `SCALE_SQ`.
pub open spec fn spec_reflect(v: Vec3, n: Vec3) -> Vec3 {
    let d: int = spec_dot(v, n);
    Vec3 {
        x: (v.x - (2 * d * n.x) / (SCALE_SQ as int)) as i128,
        y: (v.y - (2 * d * n.y) / (SCALE_SQ as int)) as i128,
        z: (v.z - (2 * d * n.z) / (SCALE_SQ as int)) as i128,
    }
}

/// Reflect `v` about the unit-length grid normal `n`.
pub fn reflect(v: Vec3, n: Vec3) -> (r: Vec3)
    requires
        in_bounds(v, COORD_MAX as int),
        in_bounds(n, COORD_MAX as int),
    ensures
        r == spec_reflect(v, n),
{
    let d: i128 = dot3(v, n);
    proof {
        lemma_mul_abs(2 * d, n.x as int, 0x6000000000000001, 0x10000000);
        lemma_mul_abs(2 * d, n.y as int, 0x6000000000000001, 0x10000000);
        lemma_mul_abs(2 * d, n.z as int, 0x6000000000000001, 0x10000000);
    }
    let rx: i128 = v.x - div_floor(2 * d * n.x, SCALE_SQ);
    let ry: i128 = v.y - div_floor(2 * d * n.y, SCALE_SQ);
    let rz: i128 = v.z - div_floor(2 * d * n.z, SCALE_SQ);
    proof {
        lemma_div_small_quotient(2 * d * n.x, SCALE_SQ as int, 0x60000000000000010000000);
        lemma_div_small_quotient(2 * d * n.y, SCALE_SQ as int, 0x60000000000000010000000);
        lemma_div_small_quotient(2 * d * n.z, SCALE_SQ as int, 0x60000000000000010000000);
    }
    Vec3 { x: rx, y: ry, z: rz }
}

/// Scaling by a nonnegative factor and flooring preserves sign: the floor
/// of `u * w / s` lies on `u`'s side of zero, so their product is never
/// negative, and is strictly positive when the floor is nonzero.
pub proof fn lemma_scaled_floor_sign(u: int, w: int, s: int)
    requires
        0 <= w,
        1 <= s,
    ensures
        ((u * w) / s) * u >= 0,
        (u * w) / s != 0 ==> ((u * w) / s) * u > 0,
{
    let q = (u * w) / s;
    let rem = (u * w) % s;
    lemma_fundamental_div_mod(u * w, s);
    lemma_mod_bound(u * w, s);
    if u >= 0 {
        assert(u * w >= 0) by (nonlinear_arith)
            requires
                u >= 0,
                w >= 0,
        ;
        assert(q >= 0) by (nonlinear_arith)
            requires
                u * w == s * q + rem,
                u * w >= 0,
                0 <= rem < s,
                1 <= s,
        ;
        assert(q * u >= 0) by (nonlinear_arith)
            requires
                q >= 0,
                u >= 0,
        ;
        if q != 0 {
            assert(u * w >= s) by (nonlinear_arith)
                requires
                    u * w == s * q + rem,
                    q >= 1,
                    0 <= rem,
                    1 <= s,
            ;
            assert(u > 0) by (nonlinear_arith)
                requires
                    u * w >= 1,
                    u >= 0,
                    w >= 0,
            ;
            assert(q * u > 0) by (nonlinear_arith)
                requires
                    q >= 1,
                    u > 0,
            ;
        }
    } else {
        assert(u * w <= 0) by (nonlinear_arith)
            requires
                u < 0,
                w >= 0,
        ;
        assert(q <= 0) by (nonlinear_arith)
            requires
                u * w == s * q + rem,
                u * w <= 0,
                0 <= rem < s,
                1 <= s,
        ;
        assert(q * u >= 0) by (nonlinear_arith)
            requires
                q <= 0,
                u < 0,
        ;
        if q != 0 {
            assert(q * u > 0) by (nonlinear_arith)
                requires
                    q <= -1,
                    u < 0,
            ;
        }
    }
}

/// A quotient with bounded numerator and positive divisor is bounded
/// by the numerator bound itself.
pub proof fn lemma_div_small_quotient(n: int, d: int, a: int)
    requires
        1 <= d,
        0 <= a,
        -a <= n <= a,
    ensures
        -a <= n / d <= a,
        0 <= n ==> 0 <= n / d,
{
    lemma_fundamental_div_mod(n, d);
    assert(-a <= n / d <= a && (0 <= n ==> 0 <= n / d)) by (nonlinear_arith)
        requires
            1 <= d,
            0 <= a,
            -a <= n <= a,
            n == d * (n / d) + (n % d),
            0 <= n % d < d,
    ;
}

} // verus!
