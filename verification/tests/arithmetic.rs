use fixed32::fixed::{Fault, Fixed32, NEWTON_ITERATIONS};

#[test]
fn new_stores_the_pair() {
    let x = Fixed32::new(-7, 12);
    assert_eq!(x.value, -7);
    assert_eq!(x.exp, 12);
}

#[test]
fn leading_one_index_of_small_mantissas() {
    assert_eq!(Fixed32::new(0, 0).get_leading_one_index(), 0);
    assert_eq!(Fixed32::new(1, 0).get_leading_one_index(), 0);
    assert_eq!(Fixed32::new(2, 0).get_leading_one_index(), 1);
    assert_eq!(Fixed32::new(3, 0).get_leading_one_index(), 1);
    assert_eq!(Fixed32::new(160, 5).get_leading_one_index(), 7);
    assert_eq!(Fixed32::new(3690988, 24).get_leading_one_index(), 21);
}

#[test]
fn leading_one_index_at_the_ends_of_the_range() {
    assert_eq!(Fixed32::new(i32::MAX, 0).get_leading_one_index(), 30);
    assert_eq!(Fixed32::new(1 << 30, 0).get_leading_one_index(), 30);
    assert_eq!(Fixed32::new((1 << 30) - 1, 0).get_leading_one_index(), 29);
}

#[test]
fn leading_one_index_ignores_the_sign_bit() {
    assert_eq!(Fixed32::new(-1, 0).get_leading_one_index(), 30);
    assert_eq!(Fixed32::new(-160, 0).get_leading_one_index(), 30);
    assert_eq!(Fixed32::new(i32::MIN, 0).get_leading_one_index(), 0);
    assert_eq!(Fixed32::new(i32::MIN + 1, 0).get_leading_one_index(), 0);
}

#[test]
fn leading_one_index_does_not_depend_on_the_exponent() {
    for exp in [-40, -1, 0, 1, 24, 31, 100] {
        assert_eq!(Fixed32::new(1000, exp).get_leading_one_index(), 9);
    }
}

#[test]
fn add_raises_the_left_operand() {
    let result = Fixed32::new(-3, 1).add(Fixed32::new(5, 4));
    assert_eq!(result.value, -19);
    assert_eq!(result.exp, 4);
}

#[test]
fn add_wraps_where_the_sum_does_not_fit() {
    let result = Fixed32::new(i32::MAX, 0).add(Fixed32::new(1, 0));
    assert_eq!(result.value, i32::MIN);
    assert_eq!(result.exp, 0);
}

#[test]
fn add_with_a_negative_exponent() {
    let result = Fixed32::new(3, -2).add(Fixed32::new(1, 0));
    assert_eq!(result.value, 13);
    assert_eq!(result.exp, 0);
}

#[test]
fn add_across_a_gap_of_a_word_or_more() {
    let result = Fixed32::new(5, 40).add(Fixed32::new(7, 0));
    assert_eq!(result.value, 5);
    assert_eq!(result.exp, 40);
    let result = Fixed32::new(5, 32).add(Fixed32::new(7, 0));
    assert_eq!(result.value, 5);
    assert_eq!(result.exp, 32);
}

#[test]
fn add_across_a_gap_of_31_reaches_the_sign_bit() {
    let result = Fixed32::new(0, 31).add(Fixed32::new(1, 0));
    assert_eq!(result.value, i32::MIN);
    assert_eq!(result.exp, 31);
}

#[test]
fn add_across_the_widest_gap() {
    let result = Fixed32::new(1, i32::MAX).add(Fixed32::new(1, i32::MIN));
    assert_eq!(result.value, 1);
    assert_eq!(result.exp, i32::MAX);
}

#[test]
fn add_does_not_depend_on_the_order() {
    let pairs = [
        (Fixed32::new(10, 3), Fixed32::new(15, 2)),
        (Fixed32::new(-7, 0), Fixed32::new(9, 30)),
        (Fixed32::new(i32::MAX, 5), Fixed32::new(i32::MAX, 5)),
        (Fixed32::new(1, -4), Fixed32::new(-1, 40)),
    ];
    for (a, b) in pairs {
        let left = a.add(b);
        let right = b.add(a);
        assert_eq!(left.value, right.value);
        assert_eq!(left.exp, right.exp);
    }
}

#[test]
fn add_is_exact_where_the_sum_fits() {
    // 10 / 8 + 15 / 4 == 40 / 8
    let a = Fixed32::new(10, 3);
    let b = Fixed32::new(15, 2);
    let sum = a.add(b);
    let at = 10;
    let scaled = |x: Fixed32| (x.value as i64) << (at - x.exp);
    assert_eq!(scaled(sum), scaled(a) + scaled(b));
}

#[test]
fn sub_raises_the_left_operand() {
    let result = Fixed32::new(15, 3).sub(Fixed32::new(40, 5));
    assert_eq!(result.value, 20);
    assert_eq!(result.exp, 5);
}

#[test]
fn sub_wraps_where_the_difference_does_not_fit() {
    let result = Fixed32::new(i32::MIN, 0).sub(Fixed32::new(1, 0));
    assert_eq!(result.value, i32::MAX);
    assert_eq!(result.exp, 0);
}

#[test]
fn sub_across_a_gap_of_a_word_or_more() {
    let result = Fixed32::new(1, 0).sub(Fixed32::new(1, 33));
    assert_eq!(result.value, -1);
    assert_eq!(result.exp, 33);
}

#[test]
fn sub_is_exact_where_the_difference_fits() {
    // 40 / 32 - 15 / 8 == -20 / 32
    let a = Fixed32::new(40, 5);
    let b = Fixed32::new(15, 3);
    let difference = a.sub(b);
    let at = 8;
    let scaled = |x: Fixed32| (x.value as i64) << (at - x.exp);
    assert_eq!(scaled(difference), scaled(a) - scaled(b));
}

#[test]
fn mul_shifts_the_product_back() {
    let result = Fixed32::new(10, 4).mul(Fixed32::new(20, 4)).unwrap();
    assert_eq!(result.value, 12);
    assert_eq!(result.exp, 4);
}

#[test]
fn mul_rounds_down_below_zero() {
    let result = Fixed32::new(-1, 4).mul(Fixed32::new(1, 4)).unwrap();
    assert_eq!(result.value, -1);
    assert_eq!(result.exp, 4);
}

#[test]
fn mul_at_exponent_zero_is_the_whole_product() {
    let result = Fixed32::new(7, 0).mul(Fixed32::new(-6, 0)).unwrap();
    assert_eq!(result.value, -42);
    assert_eq!(result.exp, 0);
}

#[test]
fn mul_at_a_negative_exponent_shifts_left() {
    let result = Fixed32::new(3, -2).mul(Fixed32::new(5, -2)).unwrap();
    assert_eq!(result.value, 60);
    assert_eq!(result.exp, -2);
    let result = Fixed32::new(3, -31).mul(Fixed32::new(1, -31)).unwrap();
    assert_eq!(result.value, i32::MIN);
    let result = Fixed32::new(3, -40).mul(Fixed32::new(1, -40)).unwrap();
    assert_eq!(result.value, 0);
}

#[test]
fn mul_at_an_exponent_beyond_the_product_leaves_the_sign() {
    let result = Fixed32::new(100, 70).mul(Fixed32::new(-3, 70)).unwrap();
    assert_eq!(result.value, -1);
    assert_eq!(result.exp, 70);
    let result = Fixed32::new(100, 70).mul(Fixed32::new(3, 70)).unwrap();
    assert_eq!(result.value, 0);
    let result = Fixed32::new(i32::MIN, 63).mul(Fixed32::new(i32::MAX, 63)).unwrap();
    assert_eq!(result.value, -1);
    let result = Fixed32::new(i32::MIN, 62).mul(Fixed32::new(i32::MIN, 62)).unwrap();
    assert_eq!(result.value, 1);
}

#[test]
fn mul_wraps_where_the_product_does_not_fit() {
    let result = Fixed32::new(1 << 20, 0).mul(Fixed32::new(1 << 20, 0)).unwrap();
    assert_eq!(result.value, 0);
    let result = Fixed32::new(i32::MIN, 0).mul(Fixed32::new(i32::MIN, 0)).unwrap();
    assert_eq!(result.value, 0);
}

#[test]
fn mul_truncation_is_below_one_unit() {
    // 2.47 * 3.19 at 24 fractional bits
    let a = Fixed32::new(41439724, 24);
    let b = Fixed32::new(53519320, 24);
    let product = a.mul(b).unwrap();
    assert_eq!(product.value, 132192721);
    let exact = a.value as i64 * b.value as i64;
    let low = (product.value as i64) << 24;
    assert!(low <= exact && exact < low + (1 << 24));
}

#[test]
fn mul_refuses_different_exponents() {
    let a = Fixed32::new(10, 4);
    let b = Fixed32::new(20, 3);
    assert_eq!(a.mul(b).unwrap_err(), Fault::ExponentMismatch);
    assert_eq!(b.mul(a).unwrap_err(), Fault::ExponentMismatch);
    assert_eq!(Fixed32::new(0, 0).mul(Fixed32::new(0, 1)).unwrap_err(), Fault::ExponentMismatch);
}

#[test]
fn div_refuses_different_exponents() {
    let a = Fixed32::new(10, 4);
    let b = Fixed32::new(20, 3);
    assert_eq!(a.div(b).unwrap_err(), Fault::ExponentMismatch);
}

#[test]
fn div_refuses_a_zero_divisor() {
    let a = Fixed32::new(10, 4);
    let zero = Fixed32::new(0, 4);
    assert_eq!(a.div(zero).unwrap_err(), Fault::DivisionByZero);
    assert_eq!(zero.div(zero).unwrap_err(), Fault::DivisionByZero);
}

#[test]
fn div_reports_the_exponents_before_the_zero() {
    let a = Fixed32::new(10, 4);
    let zero = Fixed32::new(0, 5);
    assert_eq!(a.div(zero).unwrap_err(), Fault::ExponentMismatch);
}

#[test]
fn div_is_the_product_with_the_reciprocal() {
    let a = Fixed32::new(335544320, 24);
    let b = Fixed32::new(5200937, 24);
    let quotient = a.div(b).unwrap();
    let product = a.mul(b.reciprocal()).unwrap();
    assert_eq!(quotient.value, 1082401040);
    assert_eq!(quotient.exp, 24);
    assert_eq!(quotient.value, product.value);
}

#[test]
fn div_at_a_coarse_exponent_is_as_coarse_as_the_reciprocal() {
    // 20 / 5 with 5 fractional bits: the reciprocal of 5 is 6 / 32
    let quotient = Fixed32::new(640, 5).div(Fixed32::new(160, 5)).unwrap();
    assert_eq!(Fixed32::new(160, 5).reciprocal().value, 6);
    assert_eq!(quotient.value, 120);
    assert_eq!(quotient.exp, 5);
    // 20 / 6 with 5 fractional bits: the reciprocal of 6 is 5 / 32
    let quotient = Fixed32::new(640, 5).div(Fixed32::new(192, 5)).unwrap();
    assert_eq!(Fixed32::new(192, 5).reciprocal().value, 5);
    assert_eq!(quotient.value, 100);
}

#[test]
fn reciprocal_takes_five_steps() {
    assert_eq!(NEWTON_ITERATIONS, 5);
    for value in [3690988, 52848232, 1801873024, 140509, 160, 1] {
        let x = Fixed32::new(value, 24);
        assert_eq!(x.reciprocal().value, x.reciprocal_with_iterations(5).value);
        assert_eq!(x.reciprocal().exp, 24);
    }
}

#[test]
fn reciprocal_without_steps_is_the_first_estimate() {
    // 0.22 at 24 fractional bits: highest set bit 21, estimate 2^27
    let x = Fixed32::new(3690988, 24);
    assert_eq!(x.reciprocal_with_iterations(0).value, 1 << 27);
    assert_eq!(x.reciprocal_with_iterations(0).exp, 24);
}

#[test]
fn reciprocal_step_by_step() {
    let x = Fixed32::new(3690988, 24);
    assert_eq!(x.reciprocal_with_iterations(1).value, 32212224);
    assert_eq!(x.reciprocal_with_iterations(2).value, 50818016);
    assert_eq!(x.reciprocal_with_iterations(5).value, 76248361);
    let x = Fixed32::new(52848232, 24);
    assert_eq!(x.reciprocal_with_iterations(0).value, 8388608);
    assert_eq!(x.reciprocal_with_iterations(1).value, 3565158);
    assert_eq!(x.reciprocal_with_iterations(2).value, 4743888);
    assert_eq!(x.reciprocal_with_iterations(3).value, 5262456);
    assert_eq!(x.reciprocal_with_iterations(4).value, 5325339);
    assert_eq!(x.reciprocal_with_iterations(5).value, 5326100);
}

#[test]
fn reciprocal_of_known_divisors() {
    assert_eq!(Fixed32::new(3690988, 24).reciprocal().value, 76248361);
    assert_eq!(Fixed32::new(52848232, 24).reciprocal().value, 5326100);
    assert_eq!(Fixed32::new(1801873024, 24).reciprocal().value, 156211);
}

#[test]
fn reciprocal_with_an_estimate_at_the_sign_bit() {
    // 0.008375 at 24 fractional bits: highest set bit 17, estimate 2^31
    let x = Fixed32::new(140509, 24);
    assert_eq!(x.reciprocal_with_iterations(0).value, i32::MIN);
    assert_eq!(x.reciprocal().value, 2003252349);
}

#[test]
fn reciprocal_of_a_power_of_two_is_exact() {
    assert_eq!(Fixed32::new(1 << 24, 24).reciprocal().value, 1 << 24);
    assert_eq!(Fixed32::new(1 << 26, 24).reciprocal().value, 1 << 22);
    assert_eq!(Fixed32::new(1 << 20, 24).reciprocal().value, 1 << 28);
    for iterations in [0, 1, 2, 5, 9] {
        let r = Fixed32::new(1 << 3, 5).reciprocal_with_iterations(iterations);
        assert_eq!(r.value, 1 << 7);
        assert_eq!(r.exp, 5);
    }
}

#[test]
fn reciprocal_with_an_estimate_out_of_range_is_zero() {
    // the estimate would be 2^40
    assert_eq!(Fixed32::new(1, 20).reciprocal().value, 0);
    // the estimate would be 2^(-20)
    assert_eq!(Fixed32::new(-160, 5).reciprocal().value, 0);
    assert_eq!(Fixed32::new(1 << 30, 5).reciprocal().value, 0);
}

#[test]
fn reciprocal_of_zero_doubles_the_estimate() {
    assert_eq!(Fixed32::new(0, 10).reciprocal_with_iterations(0).value, 1 << 20);
    assert_eq!(Fixed32::new(0, 10).reciprocal().value, 1 << 25);
}

#[test]
fn reciprocal_step_squares_the_error() {
    // 3.15 at 24 fractional bits; one stands at 2^48 in a product
    let x = Fixed32::new(52848232, 24);
    let one: i128 = 1 << 48;
    let unit: i128 = 1 << 24;
    for n in 0..5 {
        let r = x.reciprocal_with_iterations(n);
        let next = x.reciprocal_with_iterations(n + 1);
        let y = r.value as i128 * x.value as i128;
        let error_squared = (one - y) * (one - y);
        let next_error = one * (one - next.value as i128 * x.value as i128);
        assert!(error_squared - y * unit <= next_error);
        assert!(next_error <= error_squared + one * x.value as i128);
    }
}

#[test]
fn reciprocal_is_accurate_where_the_first_estimate_is_good() {
    // 1.5 at 24 fractional bits: the first estimate is 1, half too large
    let x = Fixed32::new(3 << 23, 24);
    let r = x.reciprocal();
    assert_eq!(r.value, 11184810);
    let one: i128 = 1 << 48;
    let error = one - r.value as i128 * x.value as i128;
    // 2^(-32) and twice the slack of 2 * 2^(-24), with one at 2^48
    let bound: i128 = (1 << 16) + 4 * (1 << 24);
    assert!(-bound <= error && error <= bound);
}

#[test]
fn div_is_as_accurate_as_the_reciprocal() {
    // 20 / 0.31 at 24 fractional bits; one stands at 2^48 in a product
    let a = Fixed32::new(335544320, 24);
    let b = Fixed32::new(5200937, 24);
    let q = a.div(b).unwrap();
    let error = q.value as i128 * b.value as i128 - ((a.value as i128) << 24);
    // the reciprocal's error is below 2^(-22)
    let bound = 4 * a.value as i128 + b.value as i128;
    assert!(-bound <= error && error <= bound);
}
