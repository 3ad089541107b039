use uinfinite::math::MathError;
use uinfinite::u_infinite::CharMode;
use uinfinite::u_infinite::MathMode;
use uinfinite::u_infinite::UInfinite;

fn parse(s: &str) -> UInfinite {
    UInfinite::from_string(s).unwrap()
}

#[test]
fn parse_format_round_trip() {
    assert_eq!(parse("123").to_string(), "123");
    assert_eq!(parse("0").to_string(), "0");
    assert_eq!(parse("9000000000000000000000000001").to_string(), "9000000000000000000000000001");
}

#[test]
fn parse_empty_formats_as_zero() {
    assert_eq!(parse("").to_string(), "0");
}

#[test]
fn parse_keeps_leading_zeroes() {
    assert_eq!(parse("007").to_string(), "007");
}

#[test]
fn parse_rejects_non_digits() {
    assert!(matches!(UInfinite::from_string("12a"), Err(MathError::InvalidDigit)));
    assert!(matches!(UInfinite::from_string("-1"), Err(MathError::InvalidDigit)));
    assert!(matches!(UInfinite::from_string("1 2"), Err(MathError::InvalidDigit)));
}

#[test]
fn add_basic() {
    assert_eq!(parse("123").add(&parse("456")).unwrap().to_string(), "579");
    assert_eq!(parse("999").add(&parse("1")).unwrap().to_string(), "1000");
    assert_eq!(parse("1").add(&parse("999")).unwrap().to_string(), "1000");
}

#[test]
fn add_zero_is_identity() {
    assert_eq!(parse("5").add(&parse("0")).unwrap().to_string(), "5");
    assert_eq!(parse("0").add(&parse("5")).unwrap().to_string(), "5");
    assert_eq!(parse("0").add(&parse("0")).unwrap().to_string(), "0");
}

#[test]
fn add_commutes_on_samples() {
    let a = parse("987654321");
    let b = parse("123456789");
    assert_eq!(a.add(&b).unwrap().to_string(), b.add(&a).unwrap().to_string());
}

#[test]
fn add_associates_on_samples() {
    let a = parse("11");
    let b = parse("95");
    let c = parse("904");
    let left = a.add(&b).unwrap().add(&c).unwrap();
    let right = a.add(&b.add(&c).unwrap()).unwrap();
    assert_eq!(left.to_string(), right.to_string());
    assert_eq!(left.to_string(), "1010");
}

#[test]
fn sub_basic() {
    assert_eq!(parse("1000").sub(&parse("1")).unwrap().to_string(), "999");
    assert_eq!(parse("5").sub(&parse("5")).unwrap().to_string(), "0");
    assert_eq!(parse("456").sub(&parse("123")).unwrap().to_string(), "333");
}

#[test]
fn sub_underflow_is_an_error() {
    assert!(matches!(parse("3").sub(&parse("5")), Err(MathError::SubtractionUnderflow)));
    assert!(matches!(parse("0").sub(&parse("1")), Err(MathError::SubtractionUnderflow)));
}

#[test]
fn sub_then_add_restores() {
    let a = parse("1000000000000000000000");
    let b = parse("999999999999");
    let d = a.sub(&b).unwrap();
    assert_eq!(d.add(&b).unwrap().to_string(), a.to_string());
}

#[test]
fn mul_basic() {
    assert_eq!(parse("123").mul(&parse("456")).unwrap().to_string(), "56088");
    assert_eq!(parse("12345678901234567890").mul(&parse("98765432109876543210")).unwrap()
        .to_string(), "1219326311370217952237463801111263526900");
}

#[test]
fn mul_one_is_identity() {
    assert_eq!(parse("123456789").mul(&parse("1")).unwrap().to_string(), "123456789");
    assert_eq!(parse("1").mul(&parse("123456789")).unwrap().to_string(), "123456789");
}

#[test]
fn mul_zero_gives_zero() {
    assert_eq!(parse("999999999999").mul(&parse("0")).unwrap().to_string(), "0");
    assert_eq!(parse("0").mul(&parse("0")).unwrap().to_string(), "0");
}

#[test]
fn div_basic() {
    assert_eq!(parse("7").div(&parse("2")).unwrap().to_string(), "3");
    assert_eq!(parse("105").div(&parse("5")).unwrap().to_string(), "21");
    assert_eq!(parse("100").div(&parse("10")).unwrap().to_string(), "10");
    assert_eq!(parse("3").div(&parse("5")).unwrap().to_string(), "0");
    assert_eq!(parse("56088").div(&parse("456")).unwrap().to_string(), "123");
}

#[test]
fn div_by_zero_is_an_error() {
    assert!(matches!(parse("7").div(&parse("0")), Err(MathError::DivisionByZero)));
    assert!(matches!(parse("0").div(&parse("0")), Err(MathError::DivisionByZero)));
    assert!(matches!(parse("7").div(&parse("")), Err(MathError::DivisionByZero)));
}

#[test]
fn div_remainder_is_smaller_than_divisor() {
    let a = parse("17");
    let b = parse("5");
    let q = a.div(&b).unwrap();
    assert_eq!(q.to_string(), "3");
    let r = a.sub(&q.mul(&b).unwrap()).unwrap();
    assert_eq!(r.to_string(), "2");
}

#[test]
fn char_mode_round_trip() {
    let v = UInfinite::from_char_string("hello world");
    assert!(v.is_char_mode());
    assert_eq!(v.to_char_string(), "hello world");
}

#[test]
fn digit_contents_scan_as_char_mode() {
    // stored digit values 0..=9 fall outside the ASCII digit codes
    assert!(parse("123").is_char_mode());
    assert!(!parse("").is_char_mode());
}

#[test]
fn digit_codes_scan_as_math_mode() {
    let v = UInfinite::from_char_string("123");
    assert!(!v.is_char_mode());
}

#[test]
fn auto_from_picks_digit_mode() {
    let v = UInfinite::auto_from("123").unwrap();
    assert_eq!(v.to_string(), "123");
    assert_eq!(v.auto_to_string(), "\u{3}\u{2}\u{1}");
}

#[test]
fn auto_from_picks_char_mode() {
    let v = UInfinite::auto_from("abc").unwrap();
    assert!(v.is_char_mode());
    assert_eq!(v.auto_to_string(), "abc");
}

#[test]
fn auto_to_string_reads_digit_codes_as_shifted_digits() {
    // bytes 49, 50, 51 pass the digit-code scan and are rendered as a digit
    // sequence: least-significant first, each shifted by the digit-zero code
    let v = UInfinite::from_char_string("123");
    assert_eq!(v.auto_to_string(), "cba");
}

#[test]
fn math_mode_trait_round_trip() {
    let v = <UInfinite as MathMode>::from_digit_string("42").unwrap();
    assert_eq!(v.to_digit_string(), "42");
    assert!(matches!(
        <UInfinite as MathMode>::from_digit_string("4x"),
        Err(MathError::InvalidDigit)
    ));
}

#[test]
fn char_mode_trait_round_trip() {
    let v = <UInfinite as CharMode>::from_char_string("xy z");
    assert!(<UInfinite as CharMode>::is_char_mode(&v));
    assert_eq!(<UInfinite as CharMode>::to_char_string(&v), "xy z");
}

#[test]
fn clone_and_equality() {
    let a = parse("123");
    let b = a.clone();
    assert!(a == b);
    assert!(a != parse("124"));
}
