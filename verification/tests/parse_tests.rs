use bcoin_ledger::parse::{is_float_arg, is_int_arg, parse_amount, parse_i32, percent_decode};

#[test]
fn parse_i32_plain_and_signed() {
    assert_eq!(parse_i32(b"0"), Some(0));
    assert_eq!(parse_i32(b"42"), Some(42));
    assert_eq!(parse_i32(b"+42"), Some(42));
    assert_eq!(parse_i32(b"-42"), Some(-42));
    assert_eq!(parse_i32(b"007"), Some(7));
}

#[test]
fn parse_i32_range_edges() {
    assert_eq!(parse_i32(b"2147483647"), Some(i32::MAX));
    assert_eq!(parse_i32(b"2147483648"), None);
    assert_eq!(parse_i32(b"-2147483648"), Some(i32::MIN));
    assert_eq!(parse_i32(b"-2147483649"), None);
    assert_eq!(parse_i32(b"999999999999999999999999"), None);
}

#[test]
fn parse_i32_rejects_malformed_text() {
    assert_eq!(parse_i32(b""), None);
    assert_eq!(parse_i32(b"-"), None);
    assert_eq!(parse_i32(b"+"), None);
    assert_eq!(parse_i32(b"1.5"), None);
    assert_eq!(parse_i32(b"12a"), None);
    assert_eq!(parse_i32(b" 12"), None);
    assert_eq!(parse_i32(b"--5"), None);
}

#[test]
fn parse_amount_whole_and_fractional() {
    assert_eq!(parse_amount(b"100"), Some(10000));
    assert_eq!(parse_amount(b"100.0"), Some(10000));
    assert_eq!(parse_amount(b"100."), Some(10000));
    assert_eq!(parse_amount(b"100.5"), Some(10050));
    assert_eq!(parse_amount(b"100.05"), Some(10005));
    assert_eq!(parse_amount(b"0.99"), Some(99));
    assert_eq!(parse_amount(b"0"), Some(0));
}

#[test]
fn parse_amount_rejects_malformed_text() {
    assert_eq!(parse_amount(b""), None);
    assert_eq!(parse_amount(b"."), None);
    assert_eq!(parse_amount(b".5"), None);
    assert_eq!(parse_amount(b"-1"), None);
    assert_eq!(parse_amount(b"+1"), None);
    assert_eq!(parse_amount(b"1.234"), None);
    assert_eq!(parse_amount(b"1.2.3"), None);
    assert_eq!(parse_amount(b"1e5"), None);
}

#[test]
fn parse_amount_range_edges() {
    // u64::MAX is 18446744073709551615 hundredths.
    assert_eq!(parse_amount(b"184467440737095516.15"), Some(u64::MAX));
    assert_eq!(parse_amount(b"184467440737095516.16"), None);
    assert_eq!(parse_amount(b"184467440737095517"), None);
}

#[test]
fn percent_decode_escapes_and_plus() {
    assert_eq!(percent_decode(b"abc"), b"abc".to_vec());
    assert_eq!(percent_decode(b"a%20b"), b"a b".to_vec());
    assert_eq!(percent_decode(b"a+b"), b"a b".to_vec());
    assert_eq!(percent_decode(b"%31%322"), b"122".to_vec());
    assert_eq!(percent_decode(b"%2E5"), b".5".to_vec());
}

#[test]
fn percent_decode_passes_malformed_escapes_through() {
    assert_eq!(percent_decode(b"%"), b"%".to_vec());
    assert_eq!(percent_decode(b"%2"), b"%2".to_vec());
    assert_eq!(percent_decode(b"%zz1"), b"%zz1".to_vec());
    assert_eq!(percent_decode(b"100%"), b"100%".to_vec());
}

#[test]
fn is_int_arg_matches_i32_parsing() {
    assert!(is_int_arg("12").is_ok());
    assert!(is_int_arg("-12").is_ok());
    assert!(is_int_arg("2147483647").is_ok());
    assert!(is_int_arg("2147483648").is_err());
    assert!(is_int_arg("twelve").is_err());
    assert!(is_int_arg("1.0").is_err());
    assert!(is_int_arg("").is_err());
}

#[test]
fn is_float_arg_accepts_the_float_grammar() {
    assert!(is_float_arg("1").is_ok());
    assert!(is_float_arg("-1.5").is_ok());
    assert!(is_float_arg("+.5").is_ok());
    assert!(is_float_arg("5.").is_ok());
    assert!(is_float_arg("1e5").is_ok());
    assert!(is_float_arg("1.25E-3").is_ok());
    assert!(is_float_arg("inf").is_ok());
    assert!(is_float_arg("-Infinity").is_ok());
    assert!(is_float_arg("NaN").is_ok());
}

#[test]
fn is_float_arg_rejects_malformed_text() {
    assert!(is_float_arg("").is_err());
    assert!(is_float_arg(".").is_err());
    assert!(is_float_arg("-").is_err());
    assert!(is_float_arg("1e").is_err());
    assert!(is_float_arg("e5").is_err());
    assert!(is_float_arg("1.2.3").is_err());
    assert!(is_float_arg("12 ").is_err());
    assert!(is_float_arg("infx").is_err());
}

#[test]
fn is_float_arg_agrees_with_f64_parsing() {
    for text in [
        "1", "-1.5", "+.5", "5.", "1e5", "1.25E-3", "inf", "-Infinity", "NaN", "", ".", "-",
        "1e", "e5", "1.2.3", "12 ", "infx", "0.0", "100.0",
    ] {
        assert_eq!(
            is_float_arg(text).is_ok(),
            text.parse::<f64>().is_ok(),
            "disagreement on {:?}",
            text
        );
    }
}
