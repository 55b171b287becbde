use demos::divide::{div, gen, ADD_MARKER};

#[test]
fn divides_like_integer_division() {
    let divisors = [1, 2, 3, 5, 6, 7, 10, 60, 255, 256, 272, 1000, 12345, 1 << 30, i32::MAX - 1, i32::MAX];
    let numerators = [0, 1, 2, 3, 99, 100, 255, 256, 65535, 1_000_000, 123_456_789, i32::MAX - 1, i32::MAX];
    for &d in divisors.iter() {
        let divider = gen(d);
        for &n in numerators.iter() {
            assert_eq!(div(n, &divider), n / d, "{} / {}", n, d);
        }
    }
}

#[test]
fn divides_every_small_numerator() {
    for d in 1..200 {
        let divider = gen(d);
        for n in -5000..5000 {
            assert_eq!(div(n, &divider), n / d, "{} / {}", n, d);
        }
    }
}

#[test]
fn power_of_two_is_a_shift() {
    let divider = gen(64);
    assert_eq!(divider.magic, 0);
    assert_eq!(divider.more, 6);
    assert_eq!(div(-1, &divider), 0);
    assert_eq!(div(-130, &divider), -2);
    assert_eq!(div(130, &divider), 2);
}

#[test]
fn large_multiplier_carries_the_add_marker() {
    let divider = gen(7);
    assert!(divider.magic < 0);
    assert_ne!(divider.more & ADD_MARKER, 0);
    assert_eq!(div(49, &divider), 7);
    let divider = gen(5);
    assert_eq!(divider.magic, 1717986919);
    assert_eq!(divider.more, 1);
    assert_eq!(div(9, &divider), 1);
    assert_eq!(div(10, &divider), 2);
}

#[test]
fn prepared_fields_exact() {
    let d3 = gen(3);
    assert_eq!((d3.magic, d3.more), (-1431655765, 0x41));
    let d10 = gen(10);
    assert_eq!((d10.magic, d10.more), (1717986919, 2));
    let d8 = gen(8);
    assert_eq!((d8.magic, d8.more), (0, 3));
}

#[test]
fn divide_by_one_is_identity_for_negatives_too() {
    let one = gen(1);
    for n in [i32::MIN, -12345, -1, 0, 1, 777, i32::MAX] {
        assert_eq!(div(n, &one), n);
    }
    let four = gen(4);
    assert_eq!(div(-5, &four), -1);
    assert_eq!(div(-7, &four), -1);
    assert_eq!(div(-3, &gen(3)), -1);
}

#[test]
fn negative_numerators_round_toward_zero() {
    let divisors = [1, 2, 3, 4, 5, 7, 10, 60, 64, 255, 1000, 12345, 1 << 30, i32::MAX];
    let numerators = [i32::MIN, i32::MIN + 1, -123_456_789, -65536, -1000, -256, -255, -7, -3, -1];
    for &d in divisors.iter() {
        let divider = gen(d);
        for &n in numerators.iter() {
            assert_eq!(div(n, &divider), n / d, "{} / {}", n, d);
        }
        for n in -5000..0 {
            assert_eq!(div(n, &divider), n / d, "{} / {}", n, d);
        }
    }
}
