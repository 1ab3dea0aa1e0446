use moving_average::cast_to_divisor_type;
use moving_average::divide_sum_by_count;

#[test]
fn cast_to_divisor_type_success() {
    let divisor = cast_to_divisor_type(u32::MAX as usize);
    assert_eq!(divisor, u32::MAX as i64);
}

#[test]
fn cast_to_divisor_type_small_counts() {
    assert_eq!(cast_to_divisor_type(0), 0);
    assert_eq!(cast_to_divisor_type(1), 1);
    assert_eq!(cast_to_divisor_type(12345), 12345);
}

#[test]
fn divide_sum_by_count_truncates_toward_zero() {
    assert_eq!(divide_sum_by_count(12, 3), 4);
    assert_eq!(divide_sum_by_count(7, 2), 3);
    assert_eq!(divide_sum_by_count(-7, 2), -3);
    assert_eq!(divide_sum_by_count(-12, 3), -4);
    assert_eq!(divide_sum_by_count(0, 5), 0);
    assert_eq!(divide_sum_by_count(i64::MAX as i128, 1), i64::MAX);
    assert_eq!(divide_sum_by_count(i64::MIN as i128, 1), i64::MIN);
}
