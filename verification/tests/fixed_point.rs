use pendulum_chain::fixed::{
    checked_difference, checked_product, checked_ratio, checked_sum, half, SCALE,
};

#[test]
fn product_of_whole_numbers() {
    assert_eq!(checked_product(3 * SCALE, 2 * SCALE), Some(6 * SCALE));
    assert_eq!(checked_product(3_000_000_000, 2_500_000_000), Some(7_500_000_000));
}

#[test]
fn product_by_one_is_identity() {
    for x in [0, 1, -1, 123_456_789_012, -987_654_321, i64::MAX, i64::MIN] {
        assert_eq!(checked_product(x, SCALE), Some(x));
        assert_eq!(checked_product(SCALE, x), Some(x));
    }
}

#[test]
fn product_rounds_toward_zero() {
    // 1.5e-9 and -1.5e-9 both lose their fraction toward zero.
    assert_eq!(checked_product(3, SCALE / 2), Some(1));
    assert_eq!(checked_product(-3, SCALE / 2), Some(-1));
    assert_eq!(checked_product(3, -(SCALE / 2)), Some(-1));
    assert_eq!(checked_product(-3, -(SCALE / 2)), Some(1));
    assert_eq!(checked_product(1, 1), Some(0));
    assert_eq!(checked_product(-1, 1), Some(0));
}

#[test]
fn product_with_zero_is_zero() {
    assert_eq!(checked_product(0, i64::MIN), Some(0));
    assert_eq!(checked_product(i64::MAX, 0), Some(0));
}

#[test]
fn product_out_of_range_is_none() {
    assert_eq!(checked_product(i64::MAX, 2 * SCALE), None);
    assert_eq!(checked_product(i64::MIN, 2 * SCALE), None);
    assert_eq!(checked_product(i64::MIN, -SCALE), None);
    assert_eq!(checked_product(i64::MAX, -SCALE), Some(-i64::MAX));
    assert_eq!(checked_product(i64::MIN, i64::MIN), None);
}

#[test]
fn ratio_of_whole_numbers() {
    assert_eq!(checked_ratio(6 * SCALE, 2 * SCALE), Some(3 * SCALE));
    assert_eq!(checked_ratio(-9_820_000_000, 25_000_000_000), Some(-392_800_000));
}

#[test]
fn ratio_rounds_toward_zero() {
    assert_eq!(checked_ratio(SCALE, 3 * SCALE), Some(333_333_333));
    assert_eq!(checked_ratio(-SCALE, 3 * SCALE), Some(-333_333_333));
    assert_eq!(checked_ratio(SCALE, -3 * SCALE), Some(-333_333_333));
    assert_eq!(checked_ratio(-SCALE, -3 * SCALE), Some(333_333_333));
    assert_eq!(checked_ratio(2 * SCALE, 3 * SCALE), Some(666_666_666));
}

#[test]
fn ratio_by_zero_is_none() {
    assert_eq!(checked_ratio(SCALE, 0), None);
    assert_eq!(checked_ratio(0, 0), None);
}

#[test]
fn ratio_out_of_range_is_none() {
    assert_eq!(checked_ratio(i64::MAX, 1), None);
    assert_eq!(checked_ratio(10 * SCALE, 1), None);
    assert_eq!(checked_ratio(9 * SCALE, 1), Some(9_000_000_000_000_000_000));
    assert_eq!(checked_ratio(i64::MIN, -SCALE), None);
    assert_eq!(checked_ratio(i64::MIN, SCALE), Some(i64::MIN));
}

#[test]
fn half_rounds_toward_zero() {
    assert_eq!(half(0), 0);
    assert_eq!(half(1), 0);
    assert_eq!(half(-1), 0);
    assert_eq!(half(3), 1);
    assert_eq!(half(-3), -1);
    assert_eq!(half(6_284_800), 3_142_400);
    assert_eq!(half(i64::MAX), i64::MAX / 2);
    assert_eq!(half(i64::MIN), i64::MIN / 2);
}

#[test]
fn sum_and_difference_are_checked() {
    assert_eq!(checked_sum(2, 3), Some(5));
    assert_eq!(checked_sum(i64::MAX, 1), None);
    assert_eq!(checked_sum(i64::MIN, -1), None);
    assert_eq!(checked_sum(i64::MAX, i64::MIN), Some(-1));
    assert_eq!(checked_difference(2, 3), Some(-1));
    assert_eq!(checked_difference(0, i64::MIN), None);
    assert_eq!(checked_difference(i64::MIN, 1), None);
    assert_eq!(checked_difference(-1, i64::MAX), Some(i64::MIN));
}
