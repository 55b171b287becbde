//! Division by a run-time constant through a precomputed multiplier, after
//! libdivide's signed 32-bit scheme for positive divisors: `gen` prepares a
//! `Divider` once, `div` then divides with a multiply, an add, shifts and a
//! sign correction, rounding toward zero as `i32` division does.
use vstd::arithmetic::power2::{pow2, lemma_pow2_pos, lemma_pow2_adds, lemma_pow2_strictly_increases};
use vstd::bits::lemma_u32_shr_is_div;
use crate::fixed::tdiv;
use vstd::prelude::*;
use vstd::std_specs::bits::axiom_u32_leading_zeros;

verus! {

/// A prepared divisor. `magic` is the multiplier, or zero where the divisor
/// is a power of two; the low five bits of `more` are the final shift, and
/// `ADD_MARKER` in `more` says that `magic` stands for `magic + 2^32`.
pub struct Divider {
    pub magic: i32,
    pub more: u8,
}

/// Flag of `more`: the multiplier exceeds `i32` and is stored less `2^32`.
pub const ADD_MARKER: u8 = 0x40;

/// Bits of `more` that hold the shift.
pub const SHIFT_MASK: u8 = 0x1F;

impl Divider {
    /// The final shift.
    pub open spec fn shift(&self) -> nat {
        (self.more & 0x1F) as nat
    }

    /// Whether `ADD_MARKER` is set.
    pub open spec fn adds(&self) -> bool {
        self.more & 0x40 != 0
    }

    /// The multiplier that `magic` stands for.
    pub open spec fn multiplier(&self) -> int {
        if self.adds() {
            self.magic + 0x1_0000_0000
        } else {
            self.magic as int
        }
    }

    /// Whether the fields are consistent: a stored multiplier that stands
    /// for `magic + 2^32` is negative.
    pub open spec fn wf(&self) -> bool {
        self.adds() ==> self.magic < 0
    }

    /// What `div` returns for `n`: `n` divided by `2^shift` rounding toward
    /// zero, or the high part of `n` times the multiplier shifted right,
    /// rounding down, then one more where that is negative.
    pub open spec fn quotient(&self, n: int) -> int {
        if self.magic == 0 {
            tdiv(n, pow2(self.shift()) as int)
        } else {
            negative_corrected((n * self.multiplier()) / pow2(32 + self.shift()) as int)
        }
    }

    /// Whether `quotient` divides every numerator of `i32` by `d`, rounding
    /// toward zero.
    pub open spec fn divides_by(&self, d: int) -> bool {
        forall|n: int| i32::MIN <= n <= i32::MAX ==> #[trigger] self.quotient(n) == tdiv(n, d)
    }
}

/// A quotient rounded down, moved up by one where it is negative.
pub open spec fn negative_corrected(f: int) -> int {
    if f < 0 {
        f + 1
    } else {
        f
    }
}

/// Rounding `n / k` up is adding `k - 1` and rounding down; for a negative
/// `n` that is rounding toward zero.
proof fn lemma_round_up_by_adding(n: int, k: int)
    requires
        n < 0,
        1 <= k,
    ensures
        (n + k - 1) / k == tdiv(n, k),
{
    let q = (-n) / k;
    let r = (-n) % k;
    vstd::arithmetic::div_mod::lemma_fundamental_div_mod(-n, k);
    assert(n + k - 1 == (-q) * k + (k - 1 - r)) by (nonlinear_arith)
        requires
            -n == k * q + r,
    ;
    vstd::arithmetic::div_mod::lemma_fundamental_div_mod_converse(n + k - 1, k, -q, k - 1 - r);
}

/// The high 32 bits of the 64-bit product of `x` and `y`.
fn mullhi(x: i32, y: i32) -> (r: i32)
    ensures
        r == (x * y) / 0x1_0000_0000,
{
    let x: i64 = x as i64;
    let y: i64 = y as i64;
    assert(-0x4000_0000_0000_0000 <= x * y <= 0x4000_0000_0000_0000) by (nonlinear_arith)
        requires
            -0x8000_0000 <= x <= 0x7FFF_FFFF,
            -0x8000_0000 <= y <= 0x7FFF_FFFF,
    ;
    let p: i64 = x * y;
    let r: i64 = p >> 32;
    assert(r == p / 0x1_0000_0000) by (bit_vector)
        requires
            r == p >> 32i64,
    ;
    r as i32
}

/// Divides `numer` by the divisor that `denom` was prepared for.
pub fn div(numer: i32, denom: &Divider) -> (r: i32)
    requires
        denom.wf(),
    ensures
        r == denom.quotient(numer as int),
{
    let more: u8 = denom.more;
    let shift: u8 = more & SHIFT_MASK;
    assert(shift < 32) by (bit_vector)
        requires
            shift == more & 0x1Fu8,
    ;
    proof {
        vstd::arithmetic::power2::lemma2_to64();
        lemma_pow2_pos(shift as nat);
    }
    if 0 == denom.magic {
        if numer < 0 {
            proof {
                vstd::bits::lemma_u32_pow2_no_overflow(shift as nat);
                vstd::bits::lemma_u32_shl_is_mul(1, shift as u32);
            }
            let mask: u32 = (1u32 << shift as u32) - 1;
            let adjusted: i32 = numer + mask as i32;
            let r: i32 = adjusted >> shift;
            proof {
                lemma_i32_shr_is_floor(adjusted, shift);
                lemma_round_up_by_adding(numer as int, pow2(shift as nat) as int);
            }
            r
        } else {
            let r: i32 = numer >> shift;
            proof {
                lemma_i32_shr_is_floor(numer, shift);
            }
            r
        }
    } else {
        let hi: i32 = mullhi(denom.magic, numer);
        let mut q: i64 = hi as i64;
        if 0 != (more & ADD_MARKER) {
            q = q + numer as i64;
        }
        proof {
            lemma_high_part_in_range(denom.magic as int, numer as int, denom.adds(), hi as int);
            lemma_pow2_adds(32, shift as nat);
            lemma_floor_div_twice(
                numer * denom.multiplier(),
                0x1_0000_0000,
                pow2(shift as nat) as int,
            );
        }
        let q32: i32 = q as i32;
        let r: i32 = q32 >> shift;
        proof {
            lemma_i32_shr_is_floor(q32, shift);
        }
        if r < 0 {
            r + 1
        } else {
            r
        }
    }
}

/// Dividing by `a`, then by `b`, rounding down each time, is dividing by
/// `a * b`, rounding down: also for a negative `x`.
proof fn lemma_floor_div_twice(x: int, a: int, b: int)
    requires
        0 < a,
        0 < b,
    ensures
        (x / a) / b == x / (a * b),
{
    let q1 = x / a;
    let r1 = x % a;
    let q2 = q1 / b;
    let r2 = q1 % b;
    vstd::arithmetic::div_mod::lemma_fundamental_div_mod(x, a);
    vstd::arithmetic::div_mod::lemma_fundamental_div_mod(q1, b);
    assert(x == (a * b) * q2 + (a * r2 + r1) && 0 <= a * r2 + r1 < a * b) by (nonlinear_arith)
        requires
            x == a * q1 + r1,
            q1 == b * q2 + r2,
            0 <= r1 < a,
            0 <= r2 < b,
    ;
    vstd::arithmetic::div_mod::lemma_fundamental_div_mod_converse(x, a * b, q2, a * r2 + r1);
}

proof fn lemma_i32_shr_is_floor(x: i32, s: u8)
    requires
        s < 32,
    ensures
        (x >> s) as int == x as int / pow2(s as nat) as int,
    decreases s,
{
    if s == 0 {
        assert(x >> 0u8 == x) by (bit_vector);
        vstd::arithmetic::power2::lemma2_to64();
        assert(x >> s == x);
        assert(x as int / 1 == x as int);
    } else {
        let t: u8 = (s - 1) as u8;
        let z: i32 = x >> t;
        lemma_i32_shr_is_floor(x, t);
        assert(x >> s == z >> 1u8) by (bit_vector)
            requires
                z == x >> t,
                t < 31,
                s == t + 1,
        ;
        assert(z >> 1u8 == z / 2) by (bit_vector);
        lemma_pow2_pos(t as nat);
        vstd::arithmetic::power2::lemma_pow2_unfold(s as nat);
        lemma_floor_div_twice(x as int, pow2(t as nat) as int, 2);
        assert(pow2(t as nat) * 2 == pow2(s as nat));
        assert(z as int == x as int / pow2(t as nat) as int);
        assert((x >> s) as int == (z as int) / 2);
    }
}

proof fn lemma_high_part_in_range(magic: int, n: int, adds: bool, hi: int)
    requires
        -0x8000_0000 <= magic < 0x8000_0000,
        -0x8000_0000 <= n < 0x8000_0000,
        adds ==> magic < 0,
        hi == (magic * n) / 0x1_0000_0000,
    ensures
        -0x8000_0000 <= (if adds { hi + n } else { hi }) < 0x8000_0000,
        (if adds { hi + n } else { hi }) == (n * (if adds { magic + 0x1_0000_0000 } else { magic }))
            / 0x1_0000_0000,
{
    let p = 0x1_0000_0000int;
    if adds {
        let big = magic + p;
        assert(n * big == magic * n + n * p) by (nonlinear_arith)
            requires
                big == magic + p,
        ;
        vstd::arithmetic::div_mod::lemma_fundamental_div_mod(magic * n, p);
        vstd::arithmetic::div_mod::lemma_fundamental_div_mod_converse(
            n * big,
            p,
            hi + n,
            (magic * n) % p,
        );
        if n >= 0 {
            assert(0 <= n * big <= n * p) by (nonlinear_arith)
                requires
                    0 <= n,
                    0 <= big <= p,
            ;
            vstd::arithmetic::div_mod::lemma_div_is_ordered(0, n * big, p);
            vstd::arithmetic::div_mod::lemma_div_is_ordered(n * big, n * p, p);
            vstd::arithmetic::div_mod::lemma_div_multiples_vanish(n, p);
        } else {
            assert(n * p <= n * big <= 0) by (nonlinear_arith)
                requires
                    n < 0,
                    0 <= big <= p,
            ;
            vstd::arithmetic::div_mod::lemma_div_is_ordered(n * big, 0, p);
            vstd::arithmetic::div_mod::lemma_div_is_ordered(n * p, n * big, p);
            vstd::arithmetic::div_mod::lemma_div_multiples_vanish(n, p);
        }
    } else {
        assert(-0x4000_0000_0000_0000 <= magic * n <= 0x4000_0000_0000_0000) by (nonlinear_arith)
            requires
                -0x8000_0000 <= magic < 0x8000_0000,
                -0x8000_0000 <= n < 0x8000_0000,
        ;
        vstd::arithmetic::div_mod::lemma_div_is_ordered(magic * n, 0x4000_0000_0000_0000, p);
        vstd::arithmetic::div_mod::lemma_div_is_ordered(-0x4000_0000_0000_0000, magic * n, p);
        assert(n * magic == magic * n) by (nonlinear_arith);
    }
}

/// `31 - d.leading_zeros()` is the floor of the binary logarithm of `d`.
proof fn lemma_floor_log2(d: u32)
    requires
        0 < d <= 0x7FFF_FFFF,
    ensures
        d.leading_zeros() >= 1,
        pow2((31 - d.leading_zeros()) as nat) <= d < pow2((32 - d.leading_zeros()) as nat),
{
    let lz = d.leading_zeros();
    axiom_u32_leading_zeros(d);
    lemma_u32_shr_is_div(d, 31);
    vstd::arithmetic::power2::lemma2_to64();
    assert(d / 0x8000_0000 == 0);
    assert(0u32 & 1u32 == 0) by (bit_vector);
    assert(lz >= 1);
    let l: u32 = (31 - lz) as u32;
    lemma_u32_shr_is_div(d, l);
    lemma_u32_shr_is_div(d, (l + 1) as u32);
    lemma_pow2_pos(l as nat);
    lemma_pow2_pos((l + 1) as nat);
    let a = d as nat / pow2(l as nat);
    assert(a != 0);
    vstd::arithmetic::div_mod::lemma_fundamental_div_mod(d as int, pow2(l as nat) as int);
    assert(pow2(l as nat) * a >= pow2(l as nat)) by (nonlinear_arith)
        requires
            a >= 1,
    ;
    vstd::arithmetic::div_mod::lemma_fundamental_div_mod(d as int, pow2((l + 1) as nat) as int);
}

/// A multiplier rounded up from `p / d` divides by `d` through a multiply
/// and a division by `p`, as long as the rounding error times `n` stays
/// below `p`.
proof fn lemma_rounded_up_multiplier(n: int, d: int, m: int, p: int)
    requires
        0 < d,
        0 < p,
        0 <= n,
        m * d >= p,
        n * (m * d - p) < p,
    ensures
        (n * m) / p == n / d,
{
    let q = n / d;
    let r = n % d;
    vstd::arithmetic::div_mod::lemma_fundamental_div_mod(n, d);
    let e = m * d - p;
    assert(n * m * d == n * p + n * e) by (nonlinear_arith)
        requires
            e == m * d - p,
    ;
    assert(q * p * d <= n * m * d) by (nonlinear_arith)
        requires
            n == d * q + r,
            0 <= r,
            0 < p,
            0 < d,
            n * m * d == n * p + n * e,
            0 <= n,
            0 <= e,
    ;
    assert(n * m * d < (q + 1) * p * d) by (nonlinear_arith)
        requires
            n == d * q + r,
            r < d,
            0 < p,
            n * m * d == n * p + n * e,
            n * e < p,
    ;
    assert(q * p <= n * m) by (nonlinear_arith)
        requires
            q * p * d <= n * m * d,
            0 < d,
    ;
    assert(n * m < (q + 1) * p) by (nonlinear_arith)
        requires
            n * m * d < (q + 1) * p * d,
            0 < d,
    ;
    assert((q + 1) * p == q * p + p && q * p == p * q) by (nonlinear_arith);
    vstd::arithmetic::div_mod::lemma_fundamental_div_mod_converse(n * m, p, q, n * m - q * p);
}

/// The floor of the binary logarithm of `d`.
pub open spec fn log2_floor(d: int) -> nat
    decreases d,
{
    if d < 2 {
        0
    } else {
        1 + log2_floor(d / 2)
    }
}

/// Whether the multiplier `2^(31+L) / d + 1` with the shift `L - 1` is
/// exact enough for every numerator: its rounding error `d - 2^(31+L) % d`
/// is below `2^L`.
pub open spec fn small_multiplier_fits(d: int) -> bool {
    let l = log2_floor(d);
    d - pow2(l + 31) as int % d < pow2(l) as int
}

/// The divider that `gen` prepares for `d`, or `internal_gen` with
/// `branchfree`, `L` being `log2_floor(d)`: for a power of two, no
/// multiplier and the shift `L`; else, where the smaller multiplier fits
/// and not `branchfree`, the multiplier `2^(31+L) / d + 1` and the shift
/// `L - 1`; else the multiplier `2^(32+L) / d + 1`, stored less `2^32`,
/// with the shift `L` and `ADD_MARKER`.
pub open spec fn prepared_for(r: Divider, d: int, branchfree: bool) -> bool {
    let l = log2_floor(d);
    if d == pow2(l) {
        r.magic == 0 && r.more == l
    } else if !branchfree && small_multiplier_fits(d) {
        r.magic == pow2(l + 31) as int / d + 1 && r.more == l - 1
    } else {
        r.multiplier() == pow2(l + 32) as int / d + 1 && r.more == l + 0x40 && r.adds()
    }
}

/// `log2_floor(d)` is the `l` with `2^l <= d < 2^(l+1)`, and the only one.
proof fn lemma_log2_floor(d: int, l: nat)
    requires
        1 <= d,
        pow2(l) <= d < pow2(l + 1),
    ensures
        log2_floor(d) == l,
    decreases d,
{
    vstd::arithmetic::power2::lemma2_to64();
    if d < 2 {
        if l > 0 {
            lemma_pow2_strictly_increases(0, l);
        }
    } else {
        if l == 0 {
            assert(false);
        }
        vstd::arithmetic::power2::lemma_pow2_unfold(l);
        vstd::arithmetic::power2::lemma_pow2_unfold(l + 1);
        let h = pow2((l - 1) as nat) as int;
        assert(h <= d / 2 < 2 * h) by {
            vstd::arithmetic::div_mod::lemma_fundamental_div_mod(d, 2);
        }
        lemma_pow2_pos((l - 1) as nat);
        lemma_log2_floor(d / 2, (l - 1) as nat);
    }
}

/// A multiplier rounded up from `p / d`, with a rounding error small enough
/// for every numerator of `i32`, divides by `d` rounding toward zero once
/// negative quotients are moved up by one.
proof fn lemma_truncating_multiplier(n: int, d: int, m: int, p: int)
    requires
        0 < d,
        0 < p,
        m * d > p,
        0x8000_0000 * (m * d - p) < p,
        i32::MIN <= n <= i32::MAX,
    ensures
        negative_corrected((n * m) / p) == tdiv(n, d),
{
    let e = m * d - p;
    if n >= 0 {
        assert(n * e < p) by (nonlinear_arith)
            requires
                0 <= n < 0x8000_0000,
                0 < e,
                0x8000_0000 * e < p,
        ;
        lemma_rounded_up_multiplier(n, d, m, p);
        vstd::arithmetic::div_mod::lemma_div_pos_is_pos(n, d);
    } else {
        let k = -n;
        assert(k * e < p) by (nonlinear_arith)
            requires
                0 < k <= 0x8000_0000,
                0 < e,
                0x8000_0000 * e < p,
        ;
        let q = k / d;
        let r = k % d;
        vstd::arithmetic::div_mod::lemma_fundamental_div_mod(k, d);
        assert(k * m * d == k * p + k * e) by (nonlinear_arith)
            requires
                e == m * d - p,
        ;
        assert(q * p < k * m) by (nonlinear_arith)
            requires
                k == d * q + r,
                0 <= r,
                0 < d,
                0 < p,
                k * m * d == k * p + k * e,
                0 < k,
                0 < e,
        ;
        assert(k * m <= (q + 1) * p) by (nonlinear_arith)
            requires
                k == d * q + r,
                r < d,
                0 < d,
                0 < p,
                k * m * d == k * p + k * e,
                k * e < p,
        ;
        assert(n * m == -(k * m)) by (nonlinear_arith)
            requires
                k == -n,
        ;
        assert((q + 1) * p == q * p + p) by (nonlinear_arith);
        assert(n * m == (-(q + 1)) * p + ((q + 1) * p - k * m)) by (nonlinear_arith)
            requires
                n * m == -(k * m),
        ;
        vstd::arithmetic::div_mod::lemma_fundamental_div_mod_converse(
            n * m,
            p,
            -(q + 1),
            (q + 1) * p - k * m,
        );
    }
}

/// Prepares division by `sself` for `div`.
pub fn gen(sself: i32) -> (r: Divider)
    requires
        sself > 0,
    ensures
        r.wf(),
        r.divides_by(sself as int),
        prepared_for(r, sself as int, false),
{
    internal_gen(sself, false)
}

/// Prepares division by `d`. A power of two becomes a plain shift; any
/// other divisor gets the multiplier `2^(31+L) / d + 1` with a shift of
/// `L - 1` where that is exact enough and not `branchfree`, else the
/// multiplier `2^(32+L) / d + 1` with a shift of `L`, `L` being the floor
/// of the binary logarithm of `d`.
fn internal_gen(d: i32, branchfree: bool) -> (r: Divider)
    requires
        d > 0,
    ensures
        r.wf(),
        r.divides_by(d as int),
        prepared_for(r, d as int, branchfree),
{
    let abs_d: u32 = d as u32;
    proof {
        lemma_floor_log2(abs_d);
    }
    let floor_log_2_d: u32 = 31 - abs_d.leading_zeros();
    let ghost l: nat = floor_log_2_d as nat;
    proof {
        lemma_log2_floor(d as int, l);
    }
    let ghost lo: int = pow2(l) as int;
    proof {
        vstd::arithmetic::power2::lemma2_to64();
        if l < 30 {
            lemma_pow2_strictly_increases(l, 30);
        }
    }
    if (abs_d & (abs_d - 1)) == 0 {
        proof {
            lemma_single_bit(abs_d, floor_log_2_d);
            assert forall|n: int| i32::MIN <= n <= i32::MAX implies #[trigger] Divider {
                magic: 0,
                more: floor_log_2_d as u8,
            }.quotient(n) == tdiv(n, d as int) by {
                assert((floor_log_2_d as u8) & 0x1F == floor_log_2_d as u8) by (bit_vector)
                    requires
                        floor_log_2_d < 31,
                ;
            }
            assert((floor_log_2_d as u8) & 0x40 == 0) by (bit_vector)
                requires
                    floor_log_2_d < 31,
            ;
        }
        Divider { magic: 0, more: floor_log_2_d as u8 }
    } else {
        proof {
            lemma_not_single_bit(abs_d, floor_log_2_d);
        }
        assert(floor_log_2_d >= 1);
        let q: u64 = 1u64 << (floor_log_2_d + 31) as u64;
        let r: u64 = abs_d as u64;
        let proposed_m: u64 = q / r;
        let rem: u64 = q % r;
        let e: u64 = r - rem;
        let bound: u64 = 1u64 << floor_log_2_d as u64;
        proof {
            vstd::bits::lemma_u64_pow2_no_overflow((l + 31) as nat);
            vstd::bits::lemma_u64_shl_is_mul(1, (floor_log_2_d + 31) as u64);
            vstd::bits::lemma_u64_pow2_no_overflow(l);
            vstd::bits::lemma_u64_shl_is_mul(1, floor_log_2_d as u64);
            lemma_pow2_adds(l, 31);
            vstd::arithmetic::div_mod::lemma_fundamental_div_mod(q as int, r as int);
        }
        if !branchfree && e < bound {
            proof {
                lemma_small_multiplier(d as int, l, proposed_m as int, rem as int);
            }
            let magic: i32 = (proposed_m + 1) as i32;
            let more: u8 = (floor_log_2_d - 1) as u8;
            proof {
                assert(more & 0x1F == more && more & 0x40 == 0) by (bit_vector)
                    requires
                        more < 31,
                ;
                assert((l - 1) as nat + 32 == l + 31);
                assert(d as int != pow2(l));
            }
            Divider { magic, more }
        } else {
            let twice_rem: u64 = rem + rem;
            let carry: u64 = if twice_rem >= r {
                1
            } else {
                0
            };
            let m: u64 = proposed_m + proposed_m + carry + 1;
            proof {
                lemma_large_multiplier(d as int, l, proposed_m as int, rem as int, carry as int);
            }
            let magic: i32 = #[verifier::truncate] ((m as u32) as i32);
            let more: u8 = floor_log_2_d as u8 | ADD_MARKER;
            proof {
                assert(((m as u32) as i32) as int == m - 0x1_0000_0000) by (bit_vector)
                    requires
                        0x8000_0000u64 <= m < 0x1_0000_0000u64,
                ;
                assert(more & 0x1F == floor_log_2_d && more & 0x40 != 0 && more == floor_log_2_d + 0x40)
                    by (bit_vector)
                    requires
                        more == (floor_log_2_d as u8) | 0x40u8,
                        floor_log_2_d < 31,
                ;
                assert(d as int != pow2(l));
                assert(32 + l == l + 32);
            }
            Divider { magic, more }
        }
    }
}

proof fn lemma_single_bit(d: u32, l: u32)
    requires
        l <= 30,
        pow2(l as nat) <= d < pow2((l + 1) as nat),
        d & vstd::prelude::sub(d, 1) == 0,
    ensures
        d == pow2(l as nat),
{
    vstd::bits::lemma_u32_pow2_no_overflow(l as nat);
    vstd::bits::lemma_u32_pow2_no_overflow((l + 1) as nat);
    vstd::bits::lemma_u32_shl_is_mul(1, l);
    vstd::bits::lemma_u32_shl_is_mul(1, (l + 1) as u32);
    assert(d == 1u32 << l) by (bit_vector)
        requires
            l <= 30,
            (1u32 << l) <= d,
            d < (1u32 << vstd::prelude::add(l, 1)),
            d & vstd::prelude::sub(d, 1) == 0,
    ;
}

proof fn lemma_not_single_bit(d: u32, l: u32)
    requires
        l <= 30,
        pow2(l as nat) <= d < pow2((l + 1) as nat),
        d & vstd::prelude::sub(d, 1) != 0,
    ensures
        pow2(l as nat) < d,
        1 <= l,
{
    vstd::bits::lemma_u32_pow2_no_overflow(l as nat);
    vstd::bits::lemma_u32_shl_is_mul(1, l);
    assert((1u32 << l) & vstd::prelude::sub(1u32 << l, 1) == 0) by (bit_vector)
        requires
            l <= 30,
    ;
    vstd::arithmetic::power2::lemma2_to64();
    if l == 0 {
        assert(d == 1);
        assert(1u32 & vstd::prelude::sub(1u32, 1) == 0) by (bit_vector);
    }
}

/// The multiplier `2^(31+l) / d + 1` with the shift `l - 1`, for a rounding
/// error below `2^l`.
proof fn lemma_small_multiplier(d: int, l: nat, pm: int, rem: int)
    requires
        1 <= l <= 30,
        pow2(l) < d < pow2(l + 1),
        d <= i32::MAX,
        pm == pow2(l + 31) as int / d,
        rem == pow2(l + 31) as int % d,
        d - rem < pow2(l),
    ensures
        1 <= pm + 1 <= i32::MAX,
        forall|n: int|
            i32::MIN <= n <= i32::MAX ==> #[trigger] negative_corrected(
                (n * (pm + 1)) / pow2((32 + (l - 1)) as nat) as int,
            ) == tdiv(n, d),
{
    let p = pow2(l + 31) as int;
    lemma_pow2_adds(l, 31);
    vstd::arithmetic::power2::lemma2_to64();
    let a = pow2(l) as int;
    let b = 0x8000_0000int;
    vstd::arithmetic::div_mod::lemma_fundamental_div_mod(p, d);
    assert(p < (b - 1) * d) by (nonlinear_arith)
        requires
            p == a * b,
            a + 1 <= d,
            a <= 0x4000_0000,
            b == 0x8000_0000,
    ;
    vstd::arithmetic::div_mod::lemma_div_is_ordered(p, (b - 1) * d, d);
    vstd::arithmetic::div_mod::lemma_div_multiples_vanish(b - 1, d);
    assert(pm < b - 1) by {
        assert(p / d <= b - 1);
        if pm == b - 1 {
            assert(p >= (b - 1) * d) by (nonlinear_arith)
                requires
                    p == d * pm + rem,
                    pm == b - 1,
                    rem >= 0,
            ;
        }
    }
    vstd::arithmetic::div_mod::lemma_div_pos_is_pos(p, d);
    assert((pm + 1) * d - p == d - rem) by (nonlinear_arith)
        requires
            p == d * pm + rem,
    ;
    assert(32 + (l - 1) == l + 31);
    assert(0x8000_0000 * (d - rem) < p) by (nonlinear_arith)
        requires
            0 < d - rem < a,
            p == a * b,
            b == 0x8000_0000,
    ;
    assert forall|n: int| i32::MIN <= n <= i32::MAX implies #[trigger] negative_corrected(
        (n * (pm + 1)) / pow2((32 + (l - 1)) as nat) as int,
    ) == tdiv(n, d) by {
        lemma_truncating_multiplier(n, d, pm + 1, p);
    }
}

/// The multiplier `2^(32+l) / d + 1` with the shift `l`, built from the
/// quotient and remainder of `2^(31+l)` by `d`.
proof fn lemma_large_multiplier(d: int, l: nat, pm: int, rem: int, carry: int)
    requires
        1 <= l <= 30,
        pow2(l) < d < pow2(l + 1),
        d <= i32::MAX,
        pm == pow2(l + 31) as int / d,
        rem == pow2(l + 31) as int % d,
        carry == if 2 * rem >= d {
            1int
        } else {
            0
        },
    ensures
        0x8000_0000 <= 2 * pm + carry + 1 < 0x1_0000_0000,
        2 * pm + carry == pow2(l + 32) as int / d,
        forall|n: int|
            i32::MIN <= n <= i32::MAX ==> #[trigger] negative_corrected(
                (n * (2 * pm + carry + 1)) / pow2((32 + l) as nat) as int,
            ) == tdiv(n, d),
{
    let p = pow2(l + 31) as int;
    let p_wide = pow2(l + 32) as int;
    lemma_pow2_adds(l, 31);
    lemma_pow2_adds(l, 32);
    vstd::arithmetic::power2::lemma2_to64();
    lemma_pow2_adds(l, 1);
    let a = pow2(l) as int;
    let b = 0x1_0000_0000int;
    vstd::arithmetic::div_mod::lemma_fundamental_div_mod(p, d);
    let m = 2 * pm + carry + 1;
    let q2 = 2 * pm + carry;
    let r2 = 2 * rem - carry * d;
    assert(p_wide == d * q2 + r2 && 0 <= r2 < d) by (nonlinear_arith)
        requires
            p_wide == 2 * p,
            p == d * pm + rem,
            0 <= rem < d,
            carry == if 2 * rem >= d {
                1int
            } else {
                0
            },
            r2 == 2 * rem - carry * d,
            q2 == 2 * pm + carry,
    ;
    vstd::arithmetic::div_mod::lemma_fundamental_div_mod_converse(p_wide, d, q2, r2);
    assert(p_wide < (b - 1) * d) by (nonlinear_arith)
        requires
            p_wide == a * b,
            a + 1 <= d,
            a <= 0x4000_0000,
            b == 0x1_0000_0000,
    ;
    vstd::arithmetic::div_mod::lemma_div_is_ordered(p_wide, (b - 1) * d, d);
    vstd::arithmetic::div_mod::lemma_div_multiples_vanish(b - 1, d);
    assert(q2 < b - 1) by {
        if q2 == b - 1 {
            assert(p_wide >= (b - 1) * d) by (nonlinear_arith)
                requires
                    p_wide == d * q2 + r2,
                    q2 == b - 1,
                    r2 >= 0,
            ;
        }
    }
    assert(p_wide >= 0x8000_0000 * d) by (nonlinear_arith)
        requires
            p_wide == a * b,
            d < 2 * a,
            b == 0x1_0000_0000,
    ;
    vstd::arithmetic::div_mod::lemma_div_is_ordered(0x8000_0000 * d, p_wide, d);
    vstd::arithmetic::div_mod::lemma_div_multiples_vanish(0x8000_0000, d);
    assert(m * d - p_wide == d - r2) by (nonlinear_arith)
        requires
            p_wide == d * q2 + r2,
            m == q2 + 1,
    ;
    assert(32 + l == l + 32);
    assert(0x8000_0000 * (d - r2) < p_wide) by (nonlinear_arith)
        requires
            0 < d - r2 <= d,
            d < 2 * a,
            p_wide == a * b,
            b == 0x1_0000_0000,
    ;
    assert forall|n: int| i32::MIN <= n <= i32::MAX implies #[trigger] negative_corrected(
        (n * m) / pow2((32 + l) as nat) as int,
    ) == tdiv(n, d) by {
        lemma_truncating_multiplier(n, d, m, p_wide);
    }
}

} // verus!
