use numloc::number::{parse, Base, Number, ParseError};

#[test]
fn round_trip_decimal() {
    let text = "12345678901234567890123456789";
    let n = parse(text).unwrap();
    assert_eq!(numloc::number::format(&n, Base::Dec), text);
}

#[test]
fn round_trip_decimal_zero() {
    let n = parse("0").unwrap();
    assert_eq!(numloc::number::format(&n, Base::Dec), "0");
}

#[test]
fn round_trip_hex_upper_case() {
    let n = parse("0xDEADBEEFDEADBEEFDEADBEEF").unwrap();
    assert_eq!(numloc::number::format(&n, Base::Hex), "DEADBEEFDEADBEEFDEADBEEF");
}

#[test]
fn hex_prefix_dispatch() {
    let n = parse("0xFF").unwrap();
    assert_eq!(numloc::number::format(&n, Base::Dec), "255");
}

#[test]
fn hex_lower_case_digits_accepted() {
    let n = parse("0xff").unwrap();
    assert_eq!(numloc::number::format(&n, Base::Dec), "255");
}

#[test]
fn bin_prefix_dispatch() {
    let n = parse("0b101").unwrap();
    assert_eq!(numloc::number::format(&n, Base::Dec), "5");
}

#[test]
fn default_radix_is_decimal() {
    let n = parse("10").unwrap();
    assert_eq!(numloc::number::format(&n, Base::Dec), "10");
    assert_eq!(numloc::number::format(&n, Base::Bin), "1010");
}

#[test]
fn invalid_hex_digit_rejected() {
    assert!(matches!(parse("0xg"), Err(ParseError::InvalidNumber)));
}

#[test]
fn empty_literal_rejected() {
    assert!(matches!(parse(""), Err(ParseError::InvalidNumber)));
}

#[test]
fn empty_body_after_prefix_rejected() {
    assert!(matches!(parse("0x"), Err(ParseError::InvalidNumber)));
    assert!(matches!(parse("0b"), Err(ParseError::InvalidNumber)));
}

#[test]
fn stray_letter_in_decimal_rejected() {
    assert!(matches!(parse("12a"), Err(ParseError::InvalidNumber)));
}

#[test]
fn binary_digit_out_of_range_rejected() {
    assert!(matches!(parse("0b102"), Err(ParseError::InvalidNumber)));
}

#[test]
fn format_zero_in_every_base() {
    let n = Number::from_u64(0);
    assert_eq!(numloc::number::format(&n, Base::Hex), "0");
    assert_eq!(numloc::number::format(&n, Base::Bin), "0");
    assert_eq!(numloc::number::format(&n, Base::Dec), "0");
}

#[test]
fn format_hex_of_byte() {
    let n = Number::from_u64(255);
    assert_eq!(numloc::number::format(&n, Base::Hex), "FF");
}

#[test]
fn format_bin_of_five() {
    let n = Number::from_u64(5);
    assert_eq!(numloc::number::format(&n, Base::Bin), "101");
}

#[test]
fn format_large_word() {
    let n = Number::from_u64(u64::MAX);
    assert_eq!(numloc::number::format(&n, Base::Dec), "18446744073709551615");
    assert_eq!(numloc::number::format(&n, Base::Hex), "FFFFFFFFFFFFFFFF");
}
