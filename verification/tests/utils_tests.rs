use ruson::utils::total_digits;

#[test]
fn counts_decimal_digits() {
    assert_eq!(total_digits(0), 0);
    assert_eq!(total_digits(-5), 0);
    assert_eq!(total_digits(7), 1);
    assert_eq!(total_digits(10), 2);
    assert_eq!(total_digits(99999), 5);
    assert_eq!(total_digits(i32::MAX), 10);
}
