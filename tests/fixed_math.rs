use demos::fixed::{cos_sin, isqrt, qexp, rotate_2d, sin_internal, EXP_SATURATION, ONE};

#[test]
fn sin_internal_hits_the_quarter_points() {
    assert_eq!(sin_internal(0), 0);
    assert_eq!(sin_internal(512), 704);
    assert_eq!(sin_internal(1024), 1024);
}

#[test]
fn cos_sin_at_the_quadrant_boundaries() {
    assert_eq!(cos_sin(0), (1024, 0));
    assert_eq!(cos_sin(1024), (0, 1024));
    assert_eq!(cos_sin(2048), (-1024, 0));
    assert_eq!(cos_sin(3072), (0, -1024));
    assert_eq!(cos_sin(4096), (1024, 0));
    assert_eq!(cos_sin(512), (704, 704));
}

#[test]
fn cos_sin_squares_stay_near_one() {
    let one = (ONE as i64) * (ONE as i64);
    for theta in 0..=4 * ONE {
        let (c, s) = cos_sin(theta);
        let sum = (c as i64) * (c as i64) + (s as i64) * (s as i64);
        assert!(sum <= one, "theta {}", theta);
        assert!(sum >= one - one / 16, "theta {}", theta);
    }
}

#[test]
fn rotate_2d_quarter_turn() {
    assert_eq!(rotate_2d(1024, 0, 0, 1024), (0, -1024));
    assert_eq!(rotate_2d(100, 200, 1024, 0), (100, 200));
    assert_eq!(rotate_2d(-1, 0, 1024, 0), (-1, 0));
    assert_eq!(rotate_2d(1000, 0, 704, 704), (687, -688));
}

#[test]
fn isqrt_exact_values() {
    assert_eq!(isqrt(0), 0);
    assert_eq!(isqrt(1), 1);
    assert_eq!(isqrt(15), 3);
    assert_eq!(isqrt(16), 4);
    assert_eq!(isqrt(17), 4);
    assert_eq!(isqrt(u32::MAX), 65535);
}

#[test]
fn isqrt_brackets_its_argument() {
    let mut n: u64 = 0;
    while n < 5_000_000 {
        let r = isqrt(n as u32) as u64;
        assert!(r * r <= n && n < (r + 1) * (r + 1), "n {}", n);
        n += 7;
    }
    for n in [u32::MAX - 1, 65535 * 65535, 65535 * 65535 - 1, 1 << 31] {
        let r = isqrt(n) as u64;
        assert!(r * r <= n as u64 && (n as u64) < (r + 1) * (r + 1));
    }
}

#[test]
fn qexp_exact_values() {
    assert_eq!(qexp(0), 1024);
    assert_eq!(qexp(710), 2048);
    assert_eq!(qexp(1000), 2716);
    assert_eq!(qexp(14909), 2132803584);
}

#[test]
fn qexp_saturates_from_its_threshold() {
    assert_eq!(qexp(EXP_SATURATION), i32::MAX);
    assert_eq!(qexp(EXP_SATURATION + 1), i32::MAX);
    assert_eq!(qexp(i32::MAX), i32::MAX);
    assert!(qexp(EXP_SATURATION - 1) < i32::MAX);
}

#[test]
fn qexp_never_decreases() {
    let mut prev = qexp(0);
    for x in 1..20000 {
        let v = qexp(x);
        assert!(v >= prev, "x {}", x);
        prev = v;
    }
}
