use rust_msgpack::ieee::{
    format_float, parse_float, widen_single, CANONICAL_NAN, INFINITY, NEGATIVE_INFINITY,
};
use rust_msgpack::numeral::{format_integer, parse_integer, push_decimal, Numeral};

#[test]
fn integers_have_their_canonical_text() {
    assert_eq!(format_integer(0), "0");
    assert_eq!(format_integer(7), "7");
    assert_eq!(format_integer(10), "10");
    assert_eq!(format_integer(-1), "-1");
    assert_eq!(format_integer(1234567890), "1234567890");
    assert_eq!(format_integer(u64::MAX as i128), "18446744073709551615");
    assert_eq!(format_integer(i64::MIN as i128), "-9223372036854775808");
    assert_eq!(format_integer(i128::MAX), i128::MAX.to_string());
    assert_eq!(format_integer(i128::MIN), i128::MIN.to_string());
    let mut out = "n=".to_string();
    push_decimal(&mut out, 9050);
    assert_eq!(out, "n=9050");
}

#[test]
fn canonical_texts_are_read_back() {
    assert_eq!(parse_integer("0"), Numeral::Integer(0));
    assert_eq!(parse_integer("9"), Numeral::Integer(9));
    assert_eq!(parse_integer("10"), Numeral::Integer(10));
    assert_eq!(parse_integer("-1"), Numeral::Integer(-1));
    assert_eq!(parse_integer("-10"), Numeral::Integer(-10));
    assert_eq!(parse_integer("18446744073709551615"), Numeral::Integer(u64::MAX as i128));
    assert_eq!(parse_integer("-9223372036854775808"), Numeral::Integer(i64::MIN as i128));
    for n in [0i128, 1, -1, 99, 100, -100, 4294967296, -4294967297, 1 << 63, -(1 << 63)] {
        assert_eq!(parse_integer(&format_integer(n)), Numeral::Integer(n));
    }
}

#[test]
fn numerals_out_of_range_are_too_large() {
    assert_eq!(parse_integer("18446744073709551616"), Numeral::TooLarge);
    assert_eq!(parse_integer("-9223372036854775809"), Numeral::TooLarge);
    assert_eq!(parse_integer("100000000000000000000"), Numeral::TooLarge);
    assert_eq!(parse_integer("-100000000000000000000"), Numeral::TooLarge);
    assert_eq!(
        parse_integer("123456789012345678901234567890123456789012345678901234567890"),
        Numeral::TooLarge
    );
}

#[test]
fn other_texts_are_no_numerals() {
    for text in [
        "", "-", "--1", "+1", "00", "01", "-0", "-01", "1 ", " 1", "1_000", "0x10", "1.0", "1e3",
        "٣", "1\u{0661}", "one", "-a", "1-", "１",
    ] {
        assert_eq!(parse_integer(text), Numeral::Invalid, "{:?}", text);
    }
    assert_eq!(
        parse_integer("1234567890123456789012345678901234567890x"),
        Numeral::Invalid
    );
}

#[test]
fn doubles_have_their_numeral() {
    assert_eq!(format_float(1.0f64.to_bits()), "0x1.0000000000000p0");
    assert_eq!(format_float(1.5f64.to_bits()), "0x1.8000000000000p0");
    assert_eq!(format_float((-2.0f64).to_bits()), "-0x1.0000000000000p1");
    assert_eq!(format_float(0.1f64.to_bits()), "0x1.999999999999ap-4");
    assert_eq!(format_float(0.0f64.to_bits()), "0x0.0000000000000p-1022");
    assert_eq!(format_float((-0.0f64).to_bits()), "-0x0.0000000000000p-1022");
    assert_eq!(format_float(f64::MAX.to_bits()), "0x1.fffffffffffffp1023");
    assert_eq!(format_float(f64::MIN_POSITIVE.to_bits()), "0x1.0000000000000p-1022");
    assert_eq!(format_float(5e-324f64.to_bits()), "0x0.0000000000001p-1022");
    assert_eq!(format_float(f64::INFINITY.to_bits()), "inf");
    assert_eq!(format_float(f64::NEG_INFINITY.to_bits()), "-inf");
    assert_eq!(format_float(f64::NAN.to_bits()), "NaN");
    assert_eq!(format_float(0xfff0_0000_0000_0001), "NaN");
    assert_eq!(format_float(0x0123_4567_89ab_cdef), "0x1.3456789abcdefp-1005");
    assert_eq!(INFINITY, f64::INFINITY.to_bits());
    assert_eq!(NEGATIVE_INFINITY, f64::NEG_INFINITY.to_bits());
    assert!(f64::from_bits(CANONICAL_NAN).is_nan());
}

#[test]
fn numerals_of_doubles_are_read_back() {
    let samples = [
        0.0f64,
        -0.0,
        1.0,
        -1.0,
        1.5,
        0.1,
        -123456.789e-20,
        3.141592653589793,
        f64::MAX,
        f64::MIN,
        f64::MIN_POSITIVE,
        5e-324,
        2.2250738585072009e-308,
        f64::EPSILON,
        f64::INFINITY,
        f64::NEG_INFINITY,
    ];
    for x in samples {
        let text = format_float(x.to_bits());
        assert_eq!(parse_float(&text), Some(x.to_bits()), "{}", text);
        assert_eq!(f64::from_bits(parse_float(&text).unwrap()).to_bits(), x.to_bits());
    }
    assert_eq!(parse_float("NaN"), Some(CANONICAL_NAN));
    assert_eq!(parse_float("0x1.8000000000000p0"), Some(1.5f64.to_bits()));
    assert_eq!(parse_float("-0x1.8000000000000p-3"), Some((-0.1875f64).to_bits()));
}

#[test]
fn other_texts_are_no_numerals_of_doubles() {
    for text in [
        "",
        "1.5",
        "1",
        "nan",
        "Inf",
        "+inf",
        "infinity",
        "0x1.8p0",
        "0x1.8000000000000p+0",
        "0x1.8000000000000P0",
        "0X1.8000000000000p0",
        "0x1.800000000000p0",
        "0x1.80000000000000p0",
        "0x1.8000000000000p00",
        "0x1.8000000000000p-0",
        "0x1.8000000000000p",
        "0x1.8000000000000p1024",
        "0x1.8000000000000p-1023",
        "0x0.8000000000000p0",
        "0x0.8000000000000p-1021",
        "0x2.0000000000000p0",
        "0x1.800000000000Ap0",
        "0x1.800000000000gp0",
        "0x1,8000000000000p0",
        "--0x1.8000000000000p0",
        "-NaN",
        " 0x1.8000000000000p0",
        "0x1.8000000000000p0 ",
        "0x1.8000000000000p٣",
    ] {
        assert_eq!(parse_float(text), None, "{:?}", text);
    }
}

#[test]
fn singles_widen_to_the_double_of_their_value() {
    let samples = [
        0.0f32,
        -0.0,
        1.0,
        -1.0,
        1.5,
        0.1,
        -2.25,
        3.4028235e38,
        f32::MIN_POSITIVE,
        1e-45,
        -1e-45,
        1.1754942e-38,
        5.877472e-39,
        1e-40,
        f32::EPSILON,
        f32::INFINITY,
        f32::NEG_INFINITY,
    ];
    for x in samples {
        assert_eq!(widen_single(x.to_bits()), (x as f64).to_bits(), "{}", x);
    }
    for bits in [1u32, 2, 3, 0x7f_ffff, 0x40_0000, 0x80_0000, 0x8000_0001, 0x807f_ffff, 0x7f7f_ffff] {
        let x = f32::from_bits(bits);
        assert_eq!(widen_single(bits), (x as f64).to_bits(), "{:#x}", bits);
    }
    assert_eq!(widen_single(f32::NAN.to_bits()), CANONICAL_NAN);
    assert_eq!(widen_single(0xffc0_0001), CANONICAL_NAN);
    assert_eq!(widen_single(0x7f80_0001), CANONICAL_NAN);
}
