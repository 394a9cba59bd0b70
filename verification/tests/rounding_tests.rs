use tcping::rounding::rounded_div;

#[test]
fn rounded_div_examples() {
    assert_eq!(rounded_div(0, 1), 0);
    assert_eq!(rounded_div(7, 1), 7);
    assert_eq!(rounded_div(7, 2), 4);
    assert_eq!(rounded_div(6, 4), 2);
    assert_eq!(rounded_div(5, 4), 1);
    assert_eq!(rounded_div(1, 3), 0);
    assert_eq!(rounded_div(2, 3), 1);
    assert_eq!(rounded_div(u128::MAX, 1), u128::MAX);
    assert_eq!(rounded_div(u128::MAX, 2), 1 << 127);
    assert_eq!(rounded_div(u64::MAX as u128, u32::MAX), 4_294_967_297);
}
