use skyup::num::parse_build_bytes;
use skyup::num::parse_build_str;
use skyup::FrontendResult;

#[test]
fn build_numbers_parse_like_u64() {
    assert_eq!(parse_build_bytes(&b"123".to_vec()), Some(123));
    assert_eq!(parse_build_bytes(&b"000000001001".to_vec()), Some(1001));
    assert_eq!(parse_build_bytes(&b"+7".to_vec()), Some(7));
    assert_eq!(parse_build_bytes(&b"18446744073709551615".to_vec()), Some(u64::MAX));
    assert_eq!(parse_build_bytes(&b"18446744073709551616".to_vec()), None);
    assert_eq!(parse_build_bytes(&b"".to_vec()), None);
    assert_eq!(parse_build_bytes(&b"+".to_vec()), None);
    assert_eq!(parse_build_bytes(&b"-1".to_vec()), None);
    assert_eq!(parse_build_bytes(&b"12 3".to_vec()), None);
    assert_eq!(parse_build_bytes(&b"1.5".to_vec()), None);
}

#[test]
fn build_numbers_from_strings() {
    assert_eq!(parse_build_str("3000"), Some(3000));
    assert_eq!(parse_build_str("3.0.0"), None);
    assert_eq!(parse_build_str("bau"), None);
    assert_eq!(parse_build_str("12\u{e9}3"), None);
}

#[test]
fn frontend_result_wraps_errors_and_values() {
    let r: FrontendResult<u32> = FrontendResult::error(String::from("boom"));
    assert_eq!(r.error, "boom");
    assert!(r.result.is_none());

    let r = FrontendResult::result(5u32);
    assert_eq!(r.error, "");
    assert_eq!(r.result, Some(5));
}
