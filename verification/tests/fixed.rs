use fixed32::fixed::Fixed32;

fn from_f32(value: f32, exp: i32) -> Fixed32 {
    let val: f32 = value * (1 << exp) as f32;
    Fixed32::new(val.round() as i32, exp)
}

fn to_f32(x: Fixed32) -> f32 {
    x.value as f32 / (1 << x.exp) as f32
}

fn diff(exact: f32, approximation: f32) -> f32 {
    (exact - approximation).abs() / exact
}

#[test]
fn test_add_same_exp() {
    let a = Fixed32::new(10, 4);
    let b = Fixed32::new(15, 4);
    let result = a.add(b);
    assert_eq!(result.value, 25);
    assert_eq!(result.exp, 4);
}

#[test]
fn test_add_different_exp() {
    let a = Fixed32::new(10, 3);
    let b = Fixed32::new(15, 2);
    let result = a.add(b);
    assert_eq!(result.value, 40);
    assert_eq!(result.exp, 3);
}

#[test]
fn test_sub_same_exp() {
    let a = Fixed32::new(20, 4);
    let b = Fixed32::new(10, 4);
    let result = a.sub(b);
    assert_eq!(result.value, 10);
    assert_eq!(result.exp, 4);
}

#[test]
fn test_sub_different_exp() {
    let a = Fixed32::new(40, 5);
    let b = Fixed32::new(15, 3);
    let result = a.sub(b);
    assert_eq!(result.value, -20);
    assert_eq!(result.exp, 5);
}

#[test]
fn test_mul_same_exp() {
    let a = from_f32(2.47, 24);
    let b = from_f32(3.19, 24);
    let result = a.mul(b).unwrap();
    assert_eq!(to_f32(result), 7.8793);
    assert_eq!(result.exp, 24);
}

#[test]
#[should_panic]
fn test_mul_different_exp() {
    let a = Fixed32::new(10, 4);
    let b = Fixed32::new(20, 3);
    let _result = a.mul(b).unwrap();
}

fn test_reciprocal(divisor: f32) {
    let fixed = from_f32(divisor, 24);
    let reciprocal_fixed = fixed.reciprocal();

    let result = to_f32(reciprocal_fixed);
    let expected_result = 1. / divisor;
    println!("result: {}", result);
    println!("expected_result: {}", expected_result);

    assert!(
        diff(expected_result, result) < 0.1,
        "test case failed: got {}, expected {}",
        result,
        expected_result
    )
}

#[test]
fn test_reciprocal_1() {
    test_reciprocal(0.22)
}

#[test]
fn test_reciprocal_2() {
    test_reciprocal(3.15)
}

#[test]
fn test_reciprocal_3() {
    test_reciprocal(107.4)
}

#[test]
fn test_reciprocal_4() {
    test_reciprocal(0.008375)
}

#[test]
fn test_div_dividend_less_than_1() {
    let a = 20.;
    let b = 0.31;
    let a_fixed = from_f32(a, 24);
    let b_fixed = from_f32(b, 24);
    let result = a_fixed.div(b_fixed).unwrap();

    let result = to_f32(result);
    let expected_result = a / b;
    println!("{}", result);
    println!("{}", expected_result);

    assert!(
        diff(expected_result, result) < 0.1,
        "test case failed: got {}, expected {}",
        result,
        expected_result
    );
}
