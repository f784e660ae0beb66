use gitcoin_allo_contracts::FixedPoint;

#[test]
fn test_fixed_point_sqrt() {
    let precision = 1_000_000_000;
    let fp = FixedPoint::new(400_000_000_000, precision);
    let result = fp.sqrt();
    assert_eq!(result.value / precision, 20);
}

#[test]
fn test_fixed_point_mul() {
    let precision = 1_000_000_000;
    let a = FixedPoint::new(5 * precision, precision);
    let b = FixedPoint::new(3 * precision, precision);
    let result = a.mul(&b);
    assert_eq!(result.value / precision, 15);
}

#[test]
fn test_fixed_point_div() {
    let precision = 1_000_000_000;
    let a = FixedPoint::new(10 * precision, precision);
    let b = FixedPoint::new(2 * precision, precision);
    let result = a.div(&b);
    assert_eq!(result.value / precision, 5);
}

#[test]
fn new_keeps_value_and_precision() {
    let fp = FixedPoint::new(-42, 7);
    assert_eq!(fp.value, -42);
    assert_eq!(fp.precision, 7);
}

#[test]
fn from_u128_scales_by_precision() {
    let fp = FixedPoint::from_u128(7, 1000);
    assert_eq!(fp.value, 7000);
    assert_eq!(fp.precision, 1000);
}

#[test]
fn from_u128_then_to_u128_round_trips() {
    for v in [0u128, 1, 7, 123_456_789] {
        assert_eq!(FixedPoint::from_u128(v, 1_000_000_000).to_u128(), v);
    }
}

#[test]
fn to_u128_truncates_toward_zero() {
    assert_eq!(FixedPoint::new(7_999, 1000).to_u128(), 7);
    // A negative value above -1 still has a whole part of 0.
    let small_negative = FixedPoint { value: -999, precision: 1000 };
    assert_eq!(small_negative.to_u128(), 0);
}

#[test]
fn from_u128_at_the_largest_value() {
    let fp = FixedPoint::from_u128(i128::MAX as u128, 1);
    assert_eq!(fp.value, i128::MAX);
}

#[test]
fn add_and_sub_are_exact() {
    let a = FixedPoint::new(1_250, 1000);
    let b = FixedPoint::new(-3_500, 1000);
    let sum = a.add(&b);
    assert_eq!(sum.value, -2_250);
    assert_eq!(sum.precision, 1000);
    let diff = a.sub(&b);
    assert_eq!(diff.value, 4_750);
}

#[test]
fn sub_undoes_add() {
    let a = FixedPoint::new(123_456, 1000);
    let b = FixedPoint::new(-98_765, 1000);
    let back = a.add(&b).sub(&b);
    assert_eq!(back.value, a.value);
    assert_eq!(back.precision, a.precision);
}

#[test]
fn add_commutes() {
    let a = FixedPoint::new(17, 100);
    let b = FixedPoint::new(-230, 100);
    assert_eq!(a.add(&b).value, b.add(&a).value);
}

#[test]
fn mul_rescales_and_truncates_toward_zero() {
    // 1.50 * 2.25 = 3.375, kept at two decimals.
    let a = FixedPoint::new(150, 100);
    let b = FixedPoint::new(225, 100);
    assert_eq!(a.mul(&b).value, 337);
    let neg = FixedPoint::new(-150, 100);
    assert_eq!(neg.mul(&b).value, -337);
}

#[test]
fn mul_keeps_the_larger_precision() {
    let a = FixedPoint::new(20, 10);
    let b = FixedPoint::new(3_000, 1000);
    let r = a.mul(&b);
    assert_eq!(r.value, 60);
    assert_eq!(r.precision, 1000);
}

#[test]
fn mul_by_one_is_identity() {
    let a = FixedPoint::new(-31_415, 10_000);
    let one = FixedPoint::new(10_000, 10_000);
    let r = a.mul(&one);
    assert_eq!(r.value, a.value);
    assert_eq!(r.precision, a.precision);
}

#[test]
fn div_rounds_toward_zero() {
    let one = FixedPoint::new(1000, 1000);
    let three = FixedPoint::new(3000, 1000);
    assert_eq!(one.div(&three).value, 333);
    let minus_three = FixedPoint::new(-3000, 1000);
    assert_eq!(one.div(&minus_three).value, -333);
    assert_eq!(one.div(&minus_three).precision, 1000);
}

#[test]
fn div_by_one_is_identity() {
    let a = FixedPoint::new(-31_415, 10_000);
    let one = FixedPoint::new(10_000, 10_000);
    assert_eq!(a.div(&one).value, a.value);
}

#[test]
fn whole_numbers_multiply_and_divide_exactly() {
    let p = 1_000;
    let six = FixedPoint::new(6 * p, p);
    let four = FixedPoint::new(4 * p, p);
    assert_eq!(six.mul(&four).value, 24 * p);
    let twenty_four = FixedPoint::new(24 * p, p);
    assert_eq!(twenty_four.div(&four).value, 6 * p);
}

#[test]
fn square_is_self_times_self() {
    let a = FixedPoint::new(150, 100);
    assert_eq!(a.square().value, 225);
    assert_eq!(a.square().value, a.mul(&a).value);
}

#[test]
fn sqrt_of_zero_is_zero() {
    let r = FixedPoint::new(0, 1_000_000_000).sqrt();
    assert_eq!(r.value, 0);
    assert_eq!(r.precision, 1_000_000_000);
}

#[test]
fn sqrt_of_two() {
    let p = 1_000_000_000;
    let r = FixedPoint::new(2 * p, p).sqrt();
    assert_eq!(r.value, 1_414_213_562);
    assert_eq!(FixedPoint::new(200, 100).sqrt().value, 141);
}

#[test]
fn sqrt_is_exact_on_whole_squares() {
    let p = 1_000;
    for k in [1i128, 2, 3, 12, 99] {
        let r = FixedPoint::new(k * k * p, p).sqrt();
        assert_eq!(r.value, k * p);
    }
}

#[test]
fn sqrt_brackets_the_root_within_one() {
    let p: i128 = 1_000_000;
    for x in [1i128, 2, 3, 5, 10, 999, 123_456, 987_654_321] {
        let r = FixedPoint::new(x, p).sqrt().value;
        let n = x * p;
        assert!((r - 1) * (r - 1) <= n);
        assert!(n < (r + 1) * (r + 1));
    }
}

#[test]
fn sqrt_square_exceeds_by_at_most_one() {
    // 8 = 3 * 3 - 1: Newton's iteration stops at 3.
    assert_eq!(FixedPoint::new(8, 1).sqrt().value, 3);
    let p: i128 = 1_000;
    for x in [3i128, 8, 15, 24, 35, 1_000_000] {
        let r = FixedPoint::new(x, p).sqrt().value;
        assert!(r * r <= x * p + 1);
    }
}

#[test]
fn sqrt_with_non_positive_precision_where_no_step_is_taken() {
    assert_eq!(FixedPoint { value: 0, precision: -5 }.sqrt().value, 0);
    assert_eq!(FixedPoint { value: 1, precision: -1 }.sqrt().value, 0);
    assert_eq!(FixedPoint { value: 3, precision: -1 }.sqrt().value, 1);
    assert_eq!(FixedPoint { value: 2, precision: -5 }.sqrt().value, -1);
}

#[test]
fn sqrt_at_smallest_inputs() {
    // Starting guess of one: the loop does not run.
    assert_eq!(FixedPoint::new(1, 1).sqrt().value, 1);
    assert_eq!(FixedPoint::new(1, 2).sqrt().value, 1);
}
