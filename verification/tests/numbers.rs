use session_codec::error::decimal;

#[test]
fn decimal_has_no_leading_zeros() {
    assert_eq!(decimal(0), "0");
    assert_eq!(decimal(7), "7");
    assert_eq!(decimal(10), "10");
    assert_eq!(decimal(1905), "1905");
    assert_eq!(decimal(1_000_000), "1000000");
    assert_eq!(decimal(u32::MAX), "4294967295");
}

#[test]
fn decimal_agrees_with_the_standard_formatting() {
    let mut v: u32 = 3;
    for _ in 0..300 {
        assert_eq!(decimal(v), format!("{}", v));
        v = v.wrapping_mul(1664525).wrapping_add(1013904223);
    }
}
