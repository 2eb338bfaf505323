use json_number::{CowNumber, InvalidNumber, Number, NumberBuf, Sign, SmallNumberBuf};

fn num(s: &str) -> Number<'_> {
    Number::new(s.as_bytes()).unwrap()
}

fn trimming_test(a: &str, b: &str) {
    let a = num(a);
    let b = num(b);
    assert_eq!(a.trimmed(), b)
}

#[test]
fn trimming() {
    trimming_test("0", "0");
    trimming_test("0.0", "0");
    trimming_test("1.0", "1");
    trimming_test("1.0", "1");
    trimming_test("1.1", "1.1");
    trimming_test("1.10000", "1.1");
    trimming_test("100.0", "100");
    trimming_test("100.1000", "100.1");
}

#[test]
fn trimming_keeps_exponent_and_sign() {
    trimming_test("1.50e10", "1.50e10");
    trimming_test("1.0E+00", "1.0E+00");
    trimming_test("-0.0", "-0");
    trimming_test("-12.3400", "-12.34");
    trimming_test("120", "120");
}

#[test]
fn trimming_is_idempotent() {
    for s in ["0.000", "1.2300", "-5.0", "7e10", "100"] {
        let once = num(s).trimmed();
        assert_eq!(once.trimmed(), once);
    }
}

#[test]
fn accepts_grammar_words() {
    for s in ["0", "-0", "123", "1.23", "-12.34", "12.34e+56", "12.34E-56", "0.0000"] {
        assert!(Number::new(s.as_bytes()).is_ok(), "{}", s);
    }
}

#[test]
fn rejects_non_grammar_words() {
    for s in [
        "", "00", "01", "-00", "-01", "0.000e+-1", "12.34E-56abc", "1.", "12.34e", "12.34e+",
        "12.34E-",
    ] {
        assert!(Number::new(s.as_bytes()).is_err(), "{}", s);
    }
}

#[test]
fn rejection_hands_input_back() {
    let input = "12.34E-56abc".as_bytes();
    match Number::new(input) {
        Err(InvalidNumber(back)) => assert_eq!(back, input),
        Ok(_) => panic!("accepted an invalid number"),
    }
    match NumberBuf::new(b"1.".to_vec()) {
        Err(InvalidNumber(back)) => assert_eq!(back, b"1.".to_vec()),
        Ok(_) => panic!("accepted an invalid number"),
    }
}

#[test]
fn revalidation_keeps_bytes() {
    for s in ["-12.34e+5", "0", "1.000"] {
        let n = num(s);
        let again = Number::new(n.as_bytes()).unwrap();
        assert_eq!(again.as_bytes(), s.as_bytes());
        assert_eq!(again, n);
    }
}

#[test]
fn sign_table() {
    for s in ["0", "-0", "0.0", "0.0e12", "-0.0E-12", "-0.00000"] {
        assert_eq!(num(s).sign(), Sign::Zero, "{}", s);
    }
    for s in ["1", "0.1", "0.01e23", "1.0E-23", "0.00001"] {
        assert_eq!(num(s).sign(), Sign::Positive, "{}", s);
    }
    for s in ["-1", "-0.1", "-0.01e23", "-1.0E-23", "-0.00001"] {
        assert_eq!(num(s).sign(), Sign::Negative, "{}", s);
    }
}

#[test]
fn zero_agrees_with_sign() {
    for s in ["0", "-0.0e99", "0.000E-3", "1", "-0.5", "10e-5"] {
        let n = num(s);
        assert_eq!(n.is_zero(), n.sign() == Sign::Zero, "{}", s);
    }
    assert!(num("-0.000e99").is_zero());
    assert!(!num("0.001").is_zero());
}

#[test]
fn sign_queries() {
    let neg = num("-3");
    assert!(neg.is_negative() && neg.is_non_positive());
    assert!(!neg.is_positive() && !neg.is_non_negative());
    let zero = num("0.0");
    assert!(zero.is_non_positive() && zero.is_non_negative());
    assert!(!zero.is_positive() && !zero.is_negative());
    let pos = num("2e5");
    assert!(pos.is_positive() && pos.is_non_negative());
    assert!(Sign::Zero.is_zero() && !Sign::Positive.is_zero());
}

#[test]
fn shape_queries() {
    assert!(num("1.5").has_decimal_point());
    assert!(num("1.5").has_fraction());
    assert!(!num("15").has_decimal_point());
    assert!(num("1E5").has_exponent());
    assert!(num("1e-5").has_exponent());
    assert!(!num("1.5").has_exponent());
}

#[test]
fn integer_accessors() {
    assert_eq!(num("123").as_i32(), Some(123));
    assert_eq!(num("-2147483648").as_i32(), Some(i32::MIN));
    assert_eq!(num("2147483648").as_i32(), None);
    assert_eq!(num("-9223372036854775808").as_i64(), Some(i64::MIN));
    assert_eq!(num("9223372036854775807").as_i64(), Some(i64::MAX));
    assert_eq!(num("9223372036854775808").as_i64(), None);
    assert_eq!(num("18446744073709551615").as_u64(), Some(u64::MAX));
    assert_eq!(num("18446744073709551616").as_u64(), None);
    assert_eq!(num("4294967295").as_u32(), Some(u32::MAX));
    assert_eq!(num("4294967296").as_u32(), None);
    assert_eq!(num("-0").as_i64(), Some(0));
    assert_eq!(num("-0").as_u64(), None);
    assert_eq!(num("-1").as_u32(), None);
    assert_eq!(num("1.0").as_i64(), None);
    assert_eq!(num("1e3").as_i64(), None);
    assert!(num("42").is_i32() && num("42").is_i64() && num("42").is_u32() && num("42").is_u64());
    assert!(!num("-42").is_u64() && num("-42").is_i64());
    assert!(!num("99999999999999999999999").is_i64());
}

#[test]
fn integer_round_trip() {
    for n in [0i64, 1, -1, 42, -987654321, i64::MIN, i64::MAX] {
        let b: NumberBuf = NumberBuf::from_i64(n);
        assert_eq!(b.as_number().as_i64(), Some(n));
    }
    for n in [0u64, 7, u64::MAX] {
        let b: NumberBuf = NumberBuf::from_u64(n);
        assert_eq!(b.as_number().as_u64(), Some(n));
    }
    for n in [i32::MIN, -5, 0, i32::MAX] {
        let b: NumberBuf = NumberBuf::from_i32(n);
        assert_eq!(b.as_number().as_i32(), Some(n));
    }
    for n in [0u32, 10, u32::MAX] {
        let b: NumberBuf = NumberBuf::from_u32(n);
        assert_eq!(b.as_number().as_u32(), Some(n));
    }
}

#[test]
fn integer_formatting() {
    let b: NumberBuf = NumberBuf::from_i64(-42);
    assert_eq!(b.as_number().as_bytes(), b"-42");
    let b: NumberBuf = NumberBuf::from_u8(255);
    assert_eq!(b.into_buffer(), b"255".to_vec());
    let b: NumberBuf = NumberBuf::from_i8(-128);
    assert_eq!(b.as_number().as_str(), "-128");
    let b: NumberBuf = NumberBuf::from_u16(0);
    assert_eq!(b.as_number().as_str(), "0");
    let b: NumberBuf = NumberBuf::from_i16(-300);
    assert_eq!(b.as_number().as_str(), "-300");
    let b: NumberBuf = NumberBuf::from_usize(1000);
    assert_eq!(b.as_number().as_str(), "1000");
    let b: NumberBuf = NumberBuf::from_isize(-7);
    assert_eq!(b.as_number().as_str(), "-7");
}

#[test]
fn text_view() {
    assert_eq!(num("-12.5e+3").as_str(), "-12.5e+3");
}

#[test]
fn lossless_check() {
    let x = num("1.100");
    assert!(x.is_lossless_repr(num("1.1")));
    assert!(num("100.0").is_lossless_repr(num("100")));
    assert!(!num("0.30000000000000001").is_lossless_repr(num("0.3")));
    assert!(!x.is_lossless_repr(num("1.2")));
}

#[test]
fn owned_buffers() {
    let b = NumberBuf::new(b"12.50".to_vec()).unwrap();
    assert_eq!(b.buffer(), &b"12.50".to_vec());
    assert_eq!(b.as_number().trimmed().as_str(), "12.5");
    let c = b.clone();
    assert_eq!(c, b);
    let owned = num("3.25").to_owned();
    assert_eq!(owned.as_number().as_str(), "3.25");
    let copy: NumberBuf = NumberBuf::from_number(num("-1e9"));
    assert_eq!(copy.into_buffer(), b"-1e9".to_vec());
}

#[test]
fn string_buffers() {
    let b = NumberBuf::new(String::from("-0.5")).unwrap();
    assert_eq!(b.buffer(), "-0.5");
    assert_eq!(b.into_bytes(), b"-0.5".to_vec());
    assert_eq!(NumberBuf::new(String::from("-0.5")).unwrap().into_string(), "-0.5");
    assert!(NumberBuf::new(String::from("abc")).is_err());
}

#[test]
fn small_buffers() {
    let b = SmallNumberBuf::new(json_number::Buffer::from_bytes(b"1234")).unwrap();
    assert_eq!(b.as_number().as_str(), "1234");
    let long: SmallNumberBuf = NumberBuf::from_i64(-1234567890123);
    assert_eq!(long.as_number().as_str(), "-1234567890123");
    assert_eq!(long.as_number().as_i64(), Some(-1234567890123));
    let copied: SmallNumberBuf = NumberBuf::from_number(num("6.02e23"));
    assert_eq!(copied.as_number().as_str(), "6.02e23");
    let bad = SmallNumberBuf::new(json_number::Buffer::from_bytes(b"+1"));
    assert!(bad.is_err());
}

#[test]
fn cow_numbers() {
    let borrowed: CowNumber = CowNumber::Borrowed(num("0.125"));
    assert_eq!(borrowed.as_number().as_str(), "0.125");
    let owned = borrowed.into_owned();
    assert_eq!(owned.as_number().as_str(), "0.125");
    let kept: CowNumber = CowNumber::Owned(NumberBuf::from_i32(8));
    assert_eq!(kept.into_owned().as_number().as_str(), "8");
}

#[test]
fn parse_from_text() {
    let n: NumberBuf = "-7.250".parse().unwrap();
    assert_eq!(n.as_number().as_str(), "-7.250");
    let bad: Result<NumberBuf, InvalidNumber<Vec<u8>>> = "7.".parse();
    match bad {
        Err(InvalidNumber(back)) => assert_eq!(back, b"7.".to_vec()),
        Ok(_) => panic!("accepted an invalid number"),
    }
}

#[test]
fn unchecked_constructors() {
    let n = Number::new_unchecked(b"12e3");
    assert_eq!(n.as_str(), "12e3");
    let b: NumberBuf = NumberBuf::new_unchecked(b"-4".to_vec());
    assert_eq!(b.as_number().as_i32(), Some(-4));
}
