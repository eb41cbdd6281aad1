use perpdex::i64_math::{ceil_div, ceil_mul_div, convert_decimals, div_direction_64, floor_div};
use perpdex::math;

const MAX_I64: i64 = i64::MAX;
const MAX_U64: u64 = u64::MAX;

#[test]
fn test_ceil_div_positive_values() {
    assert_eq!(ceil_div(10, 2).unwrap(), 5);
    assert_eq!(ceil_div(100, 10).unwrap(), 10);
    assert_eq!(ceil_div(10, 3).unwrap(), 4);
    assert_eq!(ceil_div(7, 2).unwrap(), 4);
    assert_eq!(ceil_div(1, 3).unwrap(), 1);
    assert_eq!(ceil_div(1000000, 7).unwrap(), 142858);
}

#[test]
fn test_ceil_div_negative_values() {
    assert_eq!(ceil_div(-10, 2).unwrap(), -5);
    assert_eq!(ceil_div(-10, 3).unwrap(), -3);
    assert_eq!(ceil_div(-7, 2).unwrap(), -3);
    assert_eq!(ceil_div(-1, 3).unwrap(), 0);
    assert_eq!(ceil_div(-1000000, 7).unwrap(), -142857);
}

#[test]
fn test_ceil_div_zero() {
    assert_eq!(ceil_div(0, 1).unwrap(), 0);
    assert_eq!(ceil_div(0, 100).unwrap(), 0);
}

#[test]
fn test_ceil_div_divide_by_zero() {
    assert!(ceil_div(10, 0).is_err());
}

#[test]
fn test_floor_div_positive_values() {
    assert_eq!(floor_div(10, 3).unwrap(), 3);
    assert_eq!(floor_div(7, 2).unwrap(), 3);
    assert_eq!(floor_div(10, 2).unwrap(), 5);
    assert_eq!(floor_div(1000000, 7).unwrap(), 142857);
}

#[test]
fn test_floor_div_negative_values() {
    assert_eq!(floor_div(-10, 2).unwrap(), -5);
    assert_eq!(floor_div(-10, 3).unwrap(), -4);
    assert_eq!(floor_div(-7, 2).unwrap(), -4);
    assert_eq!(floor_div(-1, 3).unwrap(), -1);
    assert_eq!(floor_div(-1000000, 7).unwrap(), -142858);
}

#[test]
fn test_floor_div_zero() {
    assert_eq!(floor_div(0, 1).unwrap(), 0);
    assert_eq!(floor_div(0, 100).unwrap(), 0);
}

#[test]
fn test_floor_div_divide_by_zero() {
    assert!(floor_div(10, 0).is_err());
}

#[test]
fn test_div_direction_64_floor() {
    assert_eq!(div_direction_64(10, 3, false).unwrap(), 3);
    assert_eq!(div_direction_64(7, 2, false).unwrap(), 3);
    assert_eq!(div_direction_64(-10, 3, false).unwrap(), -4);
    assert_eq!(div_direction_64(-7, 2, false).unwrap(), -4);
}

#[test]
fn test_div_direction_64_ceil() {
    assert_eq!(div_direction_64(10, 3, true).unwrap(), 4);
    assert_eq!(div_direction_64(7, 2, true).unwrap(), 4);
    assert_eq!(div_direction_64(-10, 3, true).unwrap(), -3);
    assert_eq!(div_direction_64(-7, 2, true).unwrap(), -3);
}

#[test]
fn test_div_direction_64_exact() {
    assert_eq!(div_direction_64(10, 2, false).unwrap(), 5);
    assert_eq!(div_direction_64(10, 2, true).unwrap(), 5);
    assert_eq!(div_direction_64(-10, 2, false).unwrap(), -5);
    assert_eq!(div_direction_64(-10, 2, true).unwrap(), -5);
}

#[test]
fn test_ceil_mul_div_positive() {
    assert_eq!(ceil_mul_div(10, 3, 2).unwrap(), 15);
    assert_eq!(ceil_mul_div(10, 3, 4).unwrap(), 8);
    assert_eq!(ceil_mul_div(7, 5, 3).unwrap(), 12);
    assert_eq!(ceil_mul_div(1000000, 1000000, 1000000).unwrap(), 1000000);
}

#[test]
fn test_ceil_mul_div_negative() {
    assert_eq!(ceil_mul_div(-10, 3, 2).unwrap(), -15);
    assert_eq!(ceil_mul_div(-10, 3, 4).unwrap(), -7);
    assert_eq!(ceil_mul_div(-7, 5, 3).unwrap(), -11);

    assert_eq!(MAX_I64 as u64, MAX_U64 / 2);
    assert_eq!(ceil_mul_div(-1, (MAX_I64 as u64) + 1, 1).unwrap(), -MAX_I64 - 1);
}

#[test]
fn test_ceil_mul_div_zero() {
    assert_eq!(ceil_mul_div(0, 100, 50).unwrap(), 0);
    assert_eq!(ceil_mul_div(100, 0, 50).unwrap(), 0);
}

#[test]
fn test_ceil_mul_div_divide_by_zero() {
    assert!(ceil_mul_div(10, 5, 0).is_err());
}

#[test]
fn test_convert_decimals_same_precision() {
    let p3 = math::new_precision(3).unwrap();
    assert_eq!(convert_decimals(12345, &p3, &p3, false).unwrap(), 12345);
    assert_eq!(convert_decimals(-12345, &p3, &p3, false).unwrap(), -12345);
    assert_eq!(convert_decimals(0, &p3, &p3, false).unwrap(), 0);
}

#[test]
fn test_convert_decimals_decrease_precision() {
    let p3 = math::new_precision(3).unwrap();
    let p1 = math::new_precision(1).unwrap();
    assert_eq!(convert_decimals(12345, &p3, &p1, false).unwrap(), 123);
    assert_eq!(convert_decimals(12345, &p3, &p1, true).unwrap(), 124);
    assert_eq!(convert_decimals(12300, &p3, &p1, false).unwrap(), 123);
    assert_eq!(convert_decimals(12300, &p3, &p1, true).unwrap(), 123);
}

#[test]
fn test_convert_decimals_decrease_precision_negative() {
    let p3 = math::new_precision(3).unwrap();
    let p1 = math::new_precision(1).unwrap();
    assert_eq!(convert_decimals(-12345, &p3, &p1, false).unwrap(), -124);
    assert_eq!(convert_decimals(-12345, &p3, &p1, true).unwrap(), -123);
    assert_eq!(convert_decimals(-12300, &p3, &p1, false).unwrap(), -123);
    assert_eq!(convert_decimals(-12300, &p3, &p1, true).unwrap(), -123);
}

#[test]
fn test_convert_decimals_increase_precision() {
    let p3 = math::new_precision(3).unwrap();
    let p1 = math::new_precision(1).unwrap();
    assert_eq!(convert_decimals(123, &p1, &p3, false).unwrap(), 12300);
    assert_eq!(convert_decimals(123, &p1, &p3, true).unwrap(), 12300);
    assert_eq!(convert_decimals(-123, &p1, &p3, false).unwrap(), -12300);
    assert_eq!(convert_decimals(-123, &p1, &p3, true).unwrap(), -12300);
}

#[test]
fn test_convert_decimals_zero() {
    let p3 = math::new_precision(3).unwrap();
    let p1 = math::new_precision(1).unwrap();
    assert_eq!(convert_decimals(0, &p3, &p1, false).unwrap(), 0);
    assert_eq!(convert_decimals(0, &p3, &p1, true).unwrap(), 0);
    assert_eq!(convert_decimals(0, &p1, &p3, false).unwrap(), 0);
}

#[test]
fn test_divisor_above_i64_max_reads_as_signed() {
    assert_eq!(ceil_div(10, u64::MAX).unwrap(), -8);
    assert_eq!(ceil_div(-10, u64::MAX).unwrap(), 10);
    assert_eq!(floor_div(10, u64::MAX).unwrap(), -10);
    assert_eq!(floor_div(-10, u64::MAX).unwrap(), 8);
    assert_eq!(ceil_div(i64::MAX, 1u64 << 63).unwrap(), 1);
    assert_eq!(div_direction_64(-7, u64::MAX - 1, false).unwrap(), 2);
}
