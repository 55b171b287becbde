//! Fixed-point arithmetic: every value is an `i32` scaled by `2^Q`.
use vstd::arithmetic::power2::{pow2, lemma_pow2_strictly_increases, lemma_pow2_unfold};
use vstd::prelude::*;

verus! {

/// Number of fractional bits of every fixed-point value.
pub const Q: i32 = 10;

/// The fixed-point value of one.
pub const ONE: i32 = 1024;

/// Fixed-point `ln 2`, the step of the range reduction in `qexp`.
pub const LN2: i32 = 710;

/// Largest scale `qexp` reaches by doubling: one more would leave `i32`.
pub const EXP_SCALE_LIMIT: i32 = 0x100000;

/// Smallest input on which `qexp` saturates.
pub const EXP_SATURATION: i32 = 14910;

/// Division truncating toward zero, as `i32` division does.
pub open spec fn tdiv(a: int, b: int) -> int {
    if a >= 0 {
        a / b
    } else {
        -((-a) / b)
    }
}

/// Whether `r` is the integer square root of `n`.
pub open spec fn is_sqrt_floor(n: int, r: int) -> bool {
    0 <= r && r * r <= n < (r + 1) * (r + 1)
}

/// The integer square root of `n`: the `r` with `r*r <= n < (r+1)*(r+1)`.
pub open spec fn sqrt_floor(n: int) -> int {
    choose|r: int| #[trigger] is_sqrt_floor(n, r)
}

/// Only one natural number is the integer square root of `n`.
pub proof fn lemma_sqrt_floor_unique(n: int, r: int)
    requires
        0 <= r,
        r * r <= n < (r + 1) * (r + 1),
    ensures
        sqrt_floor(n) == r,
{
    assert(is_sqrt_floor(n, r));
    let s = sqrt_floor(n);
    assert(is_sqrt_floor(n, s));
    if s < r {
        assert((s + 1) * (s + 1) <= r * r) by (nonlinear_arith)
            requires
                0 <= s < r,
        ;
    }
    if r < s {
        assert((r + 1) * (r + 1) <= s * s) by (nonlinear_arith)
            requires
                0 <= r < s,
        ;
    }
}

/// Quarter-period sine on `[0, ONE]`: the cubic `(3x - x^3) / 2` at
/// `x = offset / ONE`, evaluated with half the input precision.
pub open spec fn sin_quarter(offset: int) -> int {
    let u = offset / 2;
    (u * (3 * 0x40000 - u * u)) / 0x40000
}

/// The `(cos, sin)` pair of an angle whose full turn is `4 * ONE`, built from
/// `sin_quarter` by reflecting it into the quadrant of `theta`.
pub open spec fn cos_sin_spec(theta: int) -> (int, int) {
    if theta <= 1024 {
        (sin_quarter(1024 - theta), sin_quarter(theta))
    } else if theta <= 2048 {
        (-sin_quarter(theta - 1024), sin_quarter(2048 - theta))
    } else if theta <= 3072 {
        (-sin_quarter(3072 - theta), -sin_quarter(theta - 2048))
    } else {
        (sin_quarter(theta - 3072), -sin_quarter(4096 - theta))
    }
}

/// `e^r` on `[0, LN2)` by its Taylor polynomial of degree three.
pub open spec fn exp_poly(r: int) -> int {
    1024 + r + (r * r) / 2048 + (r * r * r) / 6291456
}

/// Fixed-point `e^x`: `2^k * exp_poly(r)` for `x = k * LN2 + r`, or
/// `i32::MAX` once that no longer fits.
pub open spec fn qexp_spec(x: int) -> int {
    if x >= EXP_SATURATION {
        i32::MAX as int
    } else {
        pow2((x / 710) as nat) * exp_poly(x % 710)
    }
}

proof fn lemma_sin_quarter_bounds(u: int)
    requires
        0 <= u <= 512,
    ensures
        0 <= u * u <= 512 * 512,
        0 <= u * (3 * 0x40000 - u * u) <= 512 * 0x80000,
{
    assert(0 <= u * u <= 512 * 512) by (nonlinear_arith)
        requires
            0 <= u <= 512,
    ;
    assert(0 <= u * (3 * 0x40000 - u * u) <= 512 * 0x80000) by (nonlinear_arith)
        requires
            0 <= u <= 512,
            u * u <= 512 * 512,
    ;
}

/// `sin_quarter` grows with its argument on the quarter period.
pub proof fn lemma_sin_quarter_monotone(a: int, b: int)
    requires
        0 <= a <= b <= 1024,
    ensures
        sin_quarter(a) <= sin_quarter(b),
{
    let ua = a / 2;
    let ub = b / 2;
    assert(ua <= ub);
    assert(ua * (3 * 0x40000 - ua * ua) <= ub * (3 * 0x40000 - ub * ub)) by (nonlinear_arith)
        requires
            0 <= ua <= ub <= 512,
    {
        // f(ub) - f(ua) = (ub - ua) * (3 * 2^18 - (ua^2 + ua*ub + ub^2))
        assert(ua * ua + ua * ub + ub * ub <= 3 * 512 * 512) by (nonlinear_arith)
            requires
                0 <= ua <= ub <= 512,
        ;
    }
    lemma_sin_quarter_bounds(ua);
    lemma_sin_quarter_bounds(ub);
    vstd::arithmetic::div_mod::lemma_div_is_ordered(
        ua * (3 * 0x40000 - ua * ua),
        ub * (3 * 0x40000 - ub * ub),
        0x40000,
    );
}

pub(crate) proof fn lemma_sin_quarter_range(offset: int)
    requires
        0 <= offset <= 1024,
    ensures
        0 <= sin_quarter(offset) <= 1024,
{
    lemma_sin_quarter_bounds(offset / 2);
    lemma_sin_quarter_monotone(offset, 1024);
    assert(512 * (3 * 0x40000 - 512 * 512) == 1024 * 0x40000);
    vstd::arithmetic::div_mod::lemma_div_multiples_vanish(1024, 0x40000);
    assert(sin_quarter(1024) == 1024);
}

/// Quarter-period sine of a fixed-point angle whose quarter turn is `ONE`.
pub fn sin_internal(offset: i32) -> (r: i32)
    requires
        0 <= offset <= ONE,
    ensures
        r == sin_quarter(offset as int),
        0 <= r <= ONE,
{
    let u: i32 = offset >> 1;
    assert(u == offset / 2) by (bit_vector)
        requires
            0 <= offset <= 1024i32,
            u == offset >> 1,
    ;
    proof {
        lemma_sin_quarter_bounds(u as int);
        lemma_sin_quarter_range(offset as int);
    }
    let p: i32 = u * (786432 - u * u);
    let r: i32 = p >> 18;
    assert(r == p / 0x40000) by (bit_vector)
        requires
            r == p >> 18,
    ;
    r
}

/// Cosine and sine of `theta`, an angle whose full turn is `4 * ONE`.
pub fn cos_sin(theta: i32) -> (r: (i32, i32))
    requires
        0 <= theta <= 4 * ONE,
    ensures
        (r.0 as int, r.1 as int) == cos_sin_spec(theta as int),
        -ONE <= r.0 <= ONE,
        -ONE <= r.1 <= ONE,
{
    if theta <= ONE {
        (sin_internal(ONE - theta), sin_internal(theta))
    } else if theta <= 2 * ONE {
        (-sin_internal(theta - ONE), sin_internal(2 * ONE - theta))
    } else if theta <= 3 * ONE {
        (-sin_internal(3 * ONE - theta), -sin_internal(theta - 2 * ONE))
    } else {
        (sin_internal(theta - 3 * ONE), -sin_internal(4 * ONE - theta))
    }
}

/// Largest magnitude of a coordinate that `rotate_2d` accepts.
pub const ROTATE_LIMIT: i32 = 0xFFFFF;

/// `((cos*x + sin*y) >> Q, (cos*y - sin*x) >> Q)`, shifts rounding down.
pub open spec fn rotate_2d_spec(x: int, y: int, cos: int, sin: int) -> (int, int) {
    ((cos * x + sin * y) / 1024, (cos * y - sin * x) / 1024)
}

/// Rotates `(x, y)` by the angle whose cosine and sine are `cos` and `sin`.
pub fn rotate_2d(x: i32, y: i32, cos: i32, sin: i32) -> (r: (i32, i32))
    requires
        -ROTATE_LIMIT <= x <= ROTATE_LIMIT,
        -ROTATE_LIMIT <= y <= ROTATE_LIMIT,
        -ONE <= cos <= ONE,
        -ONE <= sin <= ONE,
    ensures
        (r.0 as int, r.1 as int) == rotate_2d_spec(x as int, y as int, cos as int, sin as int),
{
    proof {
        lemma_product_bound(cos as int, x as int);
        lemma_product_bound(sin as int, y as int);
        lemma_product_bound(cos as int, y as int);
        lemma_product_bound(sin as int, x as int);
    }
    let a: i32 = cos * x + sin * y;
    let b: i32 = cos * y - sin * x;
    let ra: i32 = a >> Q;
    let rb: i32 = b >> Q;
    assert(ra == a / 1024) by (bit_vector)
        requires
            ra == a >> 10i32,
    ;
    assert(rb == b / 1024) by (bit_vector)
        requires
            rb == b >> 10i32,
    ;
    (ra, rb)
}

proof fn lemma_product_bound(c: int, x: int)
    requires
        -1024 <= c <= 1024,
        -0xFFFFF <= x <= 0xFFFFF,
    ensures
        -1024 * 0xFFFFF <= c * x <= 1024 * 0xFFFFF,
{
    assert(-1024 * 0xFFFFF <= c * x <= 1024 * 0xFFFFF) by (nonlinear_arith)
        requires
            -1024 <= c <= 1024,
            -0xFFFFF <= x <= 0xFFFFF,
    ;
}

proof fn lemma_exp_poly_bounds(r: int)
    requires
        0 <= r < 710,
    ensures
        1024 <= exp_poly(r) <= 2034,
        0 <= r * r <= 709 * 709,
        0 <= r * r * r <= 709 * 709 * 709,
{
    assert(0 <= r * r <= 709 * 709) by (nonlinear_arith)
        requires
            0 <= r <= 709,
    ;
    assert(0 <= r * r * r <= 709 * 709 * 709) by (nonlinear_arith)
        requires
            0 <= r <= 709,
            0 <= r * r <= 709 * 709,
    ;
    vstd::arithmetic::div_mod::lemma_div_is_ordered(r * r, (709 * 709) as int, 2048);
    vstd::arithmetic::div_mod::lemma_div_is_ordered(r * r * r, (709 * 709 * 709) as int, 6291456);
    vstd::arithmetic::div_mod::lemma_div_is_ordered(0, r * r, 2048);
    vstd::arithmetic::div_mod::lemma_div_is_ordered(0, r * r * r, 6291456);
}

/// Fixed-point `e^x` for `x >= 0`. The input is reduced by whole steps of
/// `LN2`, each doubling the scale; what is left goes through `exp_poly`.
/// Once the doublings would leave `i32`, the result saturates at `i32::MAX`.
pub fn qexp(x: i32) -> (r: i32)
    requires
        0 <= x,
    ensures
        r == qexp_spec(x as int),
        ONE <= r,
{
    let mut rest: i32 = x;
    let mut scale: i32 = 1;
    let ghost mut k: nat = 0;
    proof {
        vstd::arithmetic::power2::lemma2_to64();
    }
    while rest >= LN2
        invariant
            0 <= rest <= x,
            x == k * 710 + rest,
            k <= 20,
            scale == pow2(k),
        decreases rest,
    {
        if scale >= EXP_SCALE_LIMIT {
            proof {
                lemma_pow2_facts(k);
                assert(k == 20);
            }
            return i32::MAX;
        }
        proof {
            lemma_pow2_facts(k);
            lemma_pow2_unfold(k + 1);
        }
        scale = scale * 2;
        rest = rest - LN2;
        proof {
            k = k + 1;
        }
    }
    proof {
        vstd::arithmetic::div_mod::lemma_fundamental_div_mod_converse(
            x as int,
            710,
            k as int,
            rest as int,
        );
        lemma_exp_poly_bounds(rest as int);
        lemma_pow2_facts(k);
        assert(1 <= scale * exp_poly(rest as int) <= 0x100000 * 2034) by (nonlinear_arith)
            requires
                1 <= scale <= 0x100000,
                1024 <= exp_poly(rest as int) <= 2034,
        ;
        assert(scale * 1024 <= scale * exp_poly(rest as int)) by (nonlinear_arith)
            requires
                1 <= scale,
                1024 <= exp_poly(rest as int),
        ;
    }
    let poly: i32 = ONE + rest + (rest * rest) / 2048 + (rest * rest * rest) / 6291456;
    scale * poly
}

proof fn lemma_pow2_facts(k: nat)
    requires
        k <= 20,
    ensures
        1 <= pow2(k) <= 0x100000,
        pow2(k) >= 0x100000 <==> k == 20,
{
    vstd::arithmetic::power2::lemma2_to64();
    if k < 20 {
        lemma_pow2_strictly_increases(k, 20);
    }
    vstd::arithmetic::power2::lemma_pow2_pos(k);
}

/// Integer square root: the largest `r` with `r * r <= n`, by Newton's method.
pub fn isqrt(n: u32) -> (r: u32)
    ensures
        r * r <= n < (r + 1) * (r + 1),
        r == sqrt_floor(n as int),
        n == 0 ==> r == 0,
{
    if n == 0 {
        proof {
            lemma_sqrt_floor_unique(0, 0);
        }
        return 0;
    }
    let n64: u64 = n as u64;
    let mut x: u64 = n64;
    let mut y: u64 = x / 2 + x % 2;
    proof {
        assert(n64 < (n64 + 1) * (n64 + 1)) by (nonlinear_arith)
            requires
                n64 >= 1,
        ;
        vstd::arithmetic::div_mod::lemma_div_by_self(n64 as int);
    }
    while y < x
        invariant
            1 <= x <= n64,
            n64 < (x + 1) * (x + 1),
            y == (x + n64 / x) / 2,
            n64 == n,
            n64 <= u32::MAX,
        decreases x,
    {
        proof {
            lemma_newton_step(n64 as int, x as int, y as int);
        }
        proof {
            if y == 0 {
                assert((y + 1) * (y + 1) == 1) by (nonlinear_arith)
                    requires
                        y == 0,
                ;
            }
        }
        x = y;
        proof {
            assert(n64 / x <= n64) by {
                vstd::arithmetic::div_mod::lemma_div_is_ordered_by_denominator(n64 as int, 1, x as int);
            }
        }
        y = (x + n64 / x) / 2;
    }
    proof {
        lemma_newton_stop(n64 as int, x as int);
        lemma_sqrt_floor_unique(n as int, x as int);
    }
    x as u32
}

/// One Newton step from an estimate at or above the root stays at or above it.
proof fn lemma_newton_step(n: int, x: int, y: int)
    requires
        0 <= n,
        0 < x,
        y == (x + n / x) / 2,
    ensures
        n < (y + 1) * (y + 1),
{
    let q = n / x;
    vstd::arithmetic::div_mod::lemma_fundamental_div_mod(n, x);
    assert(n < (q + 1) * x) by (nonlinear_arith)
        requires
            n == x * q + n % x,
            0 <= n % x < x,
    ;
    if (y + 1) * (y + 1) <= n {
        let s = y + 1;
        // x + q <= 2y + 1 = 2s - 1, so q + 1 <= 2s - x.
        assert(x + q <= 2 * y + 1);
        assert((q + 1) * x <= (2 * s - x) * x) by (nonlinear_arith)
            requires
                q + 1 <= 2 * s - x,
                0 < x,
        ;
        assert((2 * s - x) * x <= s * s) by (nonlinear_arith);
        assert(false);
    }
}

/// When Newton's method stops improving, its estimate is at or below the root.
proof fn lemma_newton_stop(n: int, x: int)
    requires
        0 <= n,
        0 < x,
        x <= (x + n / x) / 2,
    ensures
        x * x <= n,
{
    if x * x > n {
        vstd::arithmetic::div_mod::lemma_div_is_ordered(n, x * x - 1, x);
        assert((x * x - 1) / x == x - 1) by {
            assert(x * x - 1 == (x - 1) * x + (x - 1)) by (nonlinear_arith);
            vstd::arithmetic::div_mod::lemma_fundamental_div_mod_converse(x * x - 1, x, x - 1, x - 1);
        }
    }
}

proof fn lemma_exp_poly_monotone(a: int, b: int)
    requires
        0 <= a <= b < 710,
    ensures
        exp_poly(a) <= exp_poly(b),
{
    assert(a * a <= b * b && a * a * a <= b * b * b) by (nonlinear_arith)
        requires
            0 <= a <= b,
    ;
    vstd::arithmetic::div_mod::lemma_div_is_ordered(a * a, b * b, 2048);
    vstd::arithmetic::div_mod::lemma_div_is_ordered(a * a * a, b * b * b, 6291456);
}

proof fn lemma_qexp_unsaturated_bounds(x: int)
    requires
        0 <= x < EXP_SATURATION,
    ensures
        x / 710 <= 20,
        1024 <= qexp_spec(x) <= 0x100000 * 2034,
{
    let k = x / 710;
    vstd::arithmetic::div_mod::lemma_div_is_ordered(x, 14909, 710);
    vstd::arithmetic::div_mod::lemma_div_pos_is_pos(x, 710);
    lemma_pow2_facts(k as nat);
    lemma_exp_poly_bounds(x % 710);
    let p = pow2(k as nat) as int;
    let e = exp_poly(x % 710);
    assert(1024 <= p * e <= 0x100000 * 2034) by (nonlinear_arith)
        requires
            1 <= p <= 0x100000,
            1024 <= e <= 2034,
    ;
}

/// `qexp` never decreases: a larger input gives a result at least as large.
pub proof fn lemma_qexp_monotone(x: int, y: int)
    requires
        0 <= x <= y,
    ensures
        qexp_spec(x) <= qexp_spec(y),
{
    if y >= EXP_SATURATION {
        if x < EXP_SATURATION {
            lemma_qexp_unsaturated_bounds(x);
        }
    } else {
        lemma_qexp_unsaturated_bounds(x);
        lemma_qexp_unsaturated_bounds(y);
        let kx = x / 710;
        let ky = y / 710;
        vstd::arithmetic::div_mod::lemma_div_is_ordered(x, y, 710);
        vstd::arithmetic::div_mod::lemma_fundamental_div_mod(x, 710);
        vstd::arithmetic::div_mod::lemma_fundamental_div_mod(y, 710);
        vstd::arithmetic::div_mod::lemma_div_pos_is_pos(x, 710);
        lemma_exp_poly_bounds(x % 710);
        lemma_exp_poly_bounds(y % 710);
        let px = pow2(kx as nat) as int;
        let py = pow2(ky as nat) as int;
        let ex = exp_poly(x % 710);
        let ey = exp_poly(y % 710);
        if kx == ky {
            lemma_exp_poly_monotone(x % 710, y % 710);
            assert(px * ex <= py * ey) by (nonlinear_arith)
                requires
                    px == py,
                    0 <= px,
                    ex <= ey,
            ;
        } else {
            lemma_pow2_unfold((kx + 1) as nat);
            if kx + 1 < ky {
                lemma_pow2_strictly_increases((kx + 1) as nat, ky as nat);
            }
            let p1 = pow2((kx + 1) as nat) as int;
            assert(px * ex <= py * ey) by (nonlinear_arith)
                requires
                    p1 == 2 * px,
                    p1 <= py,
                    0 <= px,
                    ex <= 2034,
                    1024 <= ey,
            ;
        }
    }
}

/// `qexp` saturates at `i32::MAX` exactly from `EXP_SATURATION` on.
pub proof fn lemma_qexp_saturates(x: int)
    requires
        0 <= x,
    ensures
        x >= EXP_SATURATION <==> qexp_spec(x) == i32::MAX,
{
    if x < EXP_SATURATION {
        lemma_qexp_unsaturated_bounds(x);
    }
}

/// Both components of `cos_sin_spec` lie in `[-ONE, ONE]`.
pub proof fn lemma_cos_sin_bounds(theta: int)
    requires
        0 <= theta <= 4096,
    ensures
        -1024 <= cos_sin_spec(theta).0 <= 1024,
        -1024 <= cos_sin_spec(theta).1 <= 1024,
{
    if theta <= 1024 {
        lemma_sin_quarter_range(1024 - theta);
        lemma_sin_quarter_range(theta);
    } else if theta <= 2048 {
        lemma_sin_quarter_range(theta - 1024);
        lemma_sin_quarter_range(2048 - theta);
    } else if theta <= 3072 {
        lemma_sin_quarter_range(3072 - theta);
        lemma_sin_quarter_range(theta - 2048);
    } else {
        lemma_sin_quarter_range(theta - 3072);
        lemma_sin_quarter_range(4096 - theta);
    }
}

/// Bounds on the square of `c / 2^18`, rounded down, from the square of `c`.
proof fn lemma_floor_square(c: int, s: int)
    requires
        0 <= c <= 1024 * 0x40000,
        s == c / 0x40000,
    ensures
        0 <= s <= 1024,
        0x10_0000_0000 * (s * s) <= c * c,
        c * c < 0x10_0000_0000 * (s * s) + 0x10_0000_0000 * 2049,
{
    vstd::arithmetic::div_mod::lemma_fundamental_div_mod(c, 0x40000);
    vstd::arithmetic::div_mod::lemma_div_is_ordered(c, 268435456int, 0x40000);
    vstd::arithmetic::div_mod::lemma_div_multiples_vanish(1024, 0x40000);
    vstd::arithmetic::div_mod::lemma_div_pos_is_pos(c, 0x40000);
    let r = c % 0x40000;
    assert(0x10_0000_0000 * (s * s) <= c * c) by (nonlinear_arith)
        requires
            c == 0x40000 * s + r,
            0 <= r,
            0 <= s,
    ;
    assert(c * c < 0x10_0000_0000 * (s * s) + 0x10_0000_0000 * 2049) by (nonlinear_arith)
        requires
            c == 0x40000 * s + r,
            0 <= r < 0x40000,
            0 <= s <= 1024,
    ;
}

/// The squares of `sin_quarter(t)` and `sin_quarter(1024 - t)` add up to
/// between `ONE^2 - ONE^2 / 16` and `ONE^2`.
proof fn lemma_quarter_pair(t: int)
    requires
        0 <= t <= 1024,
    ensures
        1048576 - 65536 <= sin_quarter(t) * sin_quarter(t) + sin_quarter(1024 - t) * sin_quarter(1024
            - t) <= 1048576,
{
    let u = t / 2;
    let v = (1024 - t) / 2;
    let cu = u * (786432 - u * u);
    let cv = v * (786432 - v * v);
    let su = sin_quarter(t);
    let sv = sin_quarter(1024 - t);
    lemma_sin_quarter_bounds(u);
    lemma_sin_quarter_bounds(v);
    lemma_floor_square(cu, su);
    lemma_floor_square(cv, sv);
    let w = u * v;
    if t % 2 == 0 {
        assert(v == 512 - u);
        assert(cu * cu + cv * cv == 0x100_0000_0000_0000 - 2 * w * w * (393216 + w)) by (nonlinear_arith)
            requires
                v == 512 - u,
                w == u * v,
                cu == u * (786432 - u * u),
                cv == v * (786432 - v * v),
        ;
        assert(0 <= w <= 65536) by (nonlinear_arith)
            requires
                v == 512 - u,
                0 <= u <= 512,
                w == u * v,
        ;
        assert(0 <= 2 * w * w * (393216 + w) <= 0x10_0000_0000 * 61438) by (nonlinear_arith)
            requires
                0 <= w <= 65536,
        ;
    } else {
        assert(v == 511 - u);
        assert(cu * cu + cv * cv == 0x100_0000_0000_0000 - (824094493695 + 3224358918 * w + 795639 * w * w
            + 2 * w * w * w)) by (nonlinear_arith)
            requires
                v == 511 - u,
                w == u * v,
                cu == u * (786432 - u * u),
                cv == v * (786432 - v * v),
        ;
        assert(0 <= w <= 65280) by (nonlinear_arith)
            requires
                v == 511 - u,
                0 <= u <= 511,
                w == u * v,
        ;
        assert(0 <= 824094493695 + 3224358918 * w + 795639 * w * w + 2 * w * w * w <= 0x10_0000_0000
            * 61438) by (nonlinear_arith)
            requires
                0 <= w <= 65280,
        ;
    }
}

/// The cosine and sine that `cos_sin` gives for any angle of its range have
/// squares adding up to one, `ONE^2`, within an error of `ONE^2 / 16`, and
/// never above one.
pub proof fn lemma_cos_sin_norm(theta: int)
    requires
        0 <= theta <= 4096,
    ensures
        1048576 - 65536 <= cos_sin_spec(theta).0 * cos_sin_spec(theta).0 + cos_sin_spec(theta).1
            * cos_sin_spec(theta).1 <= 1048576,
{
    let cs = cos_sin_spec(theta);
    if theta <= 1024 {
        lemma_quarter_pair(theta);
    } else if theta <= 2048 {
        lemma_quarter_pair(theta - 1024);
        assert((-sin_quarter(theta - 1024)) * (-sin_quarter(theta - 1024)) == sin_quarter(theta - 1024)
            * sin_quarter(theta - 1024)) by (nonlinear_arith);
    } else if theta <= 3072 {
        lemma_quarter_pair(theta - 2048);
        assert((-sin_quarter(3072 - theta)) * (-sin_quarter(3072 - theta)) == sin_quarter(3072 - theta)
            * sin_quarter(3072 - theta)) by (nonlinear_arith);
        assert((-sin_quarter(theta - 2048)) * (-sin_quarter(theta - 2048)) == sin_quarter(theta - 2048)
            * sin_quarter(theta - 2048)) by (nonlinear_arith);
    } else {
        lemma_quarter_pair(theta - 3072);
        assert((-sin_quarter(4096 - theta)) * (-sin_quarter(4096 - theta)) == sin_quarter(4096 - theta)
            * sin_quarter(4096 - theta)) by (nonlinear_arith);
    }
}

} // verus!
