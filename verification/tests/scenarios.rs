#[test]
fn expect_remains_usable_in_test_code() {
    let digits = [7u8, 13];
    assert_eq!(digits.first().expect("array literal is not empty"), &7);
}
