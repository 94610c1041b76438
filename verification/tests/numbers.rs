use nexusdb::interpreter::binary64::Real;
use nexusdb::interpreter::decimal::integer_to_text;
use nexusdb::interpreter::numeric::parse_integer;
use nexusdb::interpreter::numeric::parse_number;
use nexusdb::interpreter::numeric::Number;

fn number(f: f64) -> Real {
    Real::from_bits(f.to_bits())
}

fn text_of(f: f64) -> String {
    String::from_utf8(number(f).to_text()).unwrap()
}

fn parsed_real(s: &str) -> f64 {
    match parse_number(s.as_bytes()) {
        Some(Number::Real(r)) => f64::from_bits(r.to_bits()),
        other => panic!("{:?} is no real: {:?}", s, other),
    }
}

#[test]
fn real_text_has_fifteen_significant_digits() {
    assert_eq!(text_of(0.0), "0.0");
    assert_eq!(text_of(-0.0), "0.0");
    assert_eq!(text_of(1.0), "1.0");
    assert_eq!(text_of(-1.5), "-1.5");
    assert_eq!(text_of(0.1), "0.1");
    assert_eq!(text_of(100.0), "100.0");
    assert_eq!(text_of(123456789.0), "123456789.0");
    assert_eq!(text_of(3.14159), "3.14159");
    assert_eq!(text_of(1.0 / 3.0), "0.333333333333333");
    assert_eq!(text_of(2.0 / 3.0), "0.666666666666667");
    assert_eq!(text_of(0.0001), "0.0001");
    assert_eq!(text_of(1e14), "100000000000000.0");
    assert_eq!(text_of(123456789012345.0), "123456789012345.0");
}

#[test]
fn real_text_turns_scientific_outside_the_plain_range() {
    assert_eq!(text_of(1e15), "1.0e+15");
    assert_eq!(text_of(1e-5), "1.0e-05");
    assert_eq!(text_of(1.5e-7), "1.5e-07");
    assert_eq!(text_of(1e100), "1.0e+100");
    assert_eq!(text_of(-2.5e300), "-2.5e+300");
    assert_eq!(text_of(f64::MAX), "1.79769313486232e+308");
    assert_eq!(text_of(5e-324), "4.94065645841247e-324");
    assert_eq!(text_of(1234567890123456789.0), "1.23456789012346e+18");
    assert_eq!(text_of(999999999999999.9), "1.0e+15");
}

#[test]
fn real_text_of_what_is_no_finite_number() {
    assert_eq!(text_of(f64::INFINITY), "Inf");
    assert_eq!(text_of(f64::NEG_INFINITY), "-Inf");
    assert_eq!(text_of(f64::NAN), "NaN");
}

#[test]
fn parsed_reals_are_the_nearest_binary64() {
    let samples = [
        "1.5", "0.1", "0.2", "0.3", "3.14159", "1e2", "1E2", "1e-2", "2.5e+3", "123.456e-7",
        "1e308", "1.7976931348623157e308", "1.7976931348623159e308", "1e309", "4.9e-324",
        "2.4703282292062327e-324", "2.4703282292062328e-324", "1e-400", "5e-324", "1e23",
        "9007199254740993.0", "9007199254740992.5", "9007199254740993.5", "0.000001",
        "123456789012345678901234567890.0", ".5", "5.", "8.5e0", "2.2250738585072014e-308",
        "2.2250738585072011e-308", "0.1e1", "100000000000000000000000.0", "1.0e-323",
    ];
    for s in samples {
        let expected: f64 = s.parse().unwrap();
        assert_eq!(parsed_real(s).to_bits(), expected.to_bits(), "{}", s);
    }
}

#[test]
fn parse_number_reads_the_longest_numeric_prefix() {
    assert_eq!(parse_number(b"5"), Some(Number::Integer(5)));
    assert_eq!(parse_number(b"  -17abc"), Some(Number::Integer(-17)));
    assert_eq!(parse_number(b"+3"), Some(Number::Integer(3)));
    assert_eq!(parse_number(b"9223372036854775807"), Some(Number::Integer(i64::MAX)));
    assert_eq!(parse_number(b"-9223372036854775808"), Some(Number::Integer(i64::MIN)));
    assert_eq!(parsed_real("9223372036854775808"), 9223372036854775808.0);
    assert_eq!(parsed_real("1.5xyz"), 1.5);
    assert_eq!(parse_number(b"1e"), Some(Number::Integer(1)));
    assert_eq!(parse_number(b"12e+"), Some(Number::Integer(12)));
    assert_eq!(parsed_real("-.5e1e"), -5.0);
    assert_eq!(parse_number(b"abc"), None);
    assert_eq!(parse_number(b""), None);
    assert_eq!(parse_number(b"."), None);
    assert_eq!(parse_number(b"-"), None);
    assert_eq!(parse_number(b"e5"), None);
}

#[test]
fn parse_integer_reads_digits_and_saturates() {
    assert_eq!(parse_integer(b"42"), 42);
    assert_eq!(parse_integer(b" -42.9e3"), -42);
    assert_eq!(parse_integer(b"abc"), 0);
    assert_eq!(parse_integer(b""), 0);
    assert_eq!(parse_integer(b"99999999999999999999"), i64::MAX);
    assert_eq!(parse_integer(b"-99999999999999999999"), i64::MIN);
}

#[test]
fn integer_text_is_decimal() {
    assert_eq!(integer_to_text(0), b"0".to_vec());
    assert_eq!(integer_to_text(12), b"12".to_vec());
    assert_eq!(integer_to_text(-7), b"-7".to_vec());
    assert_eq!(integer_to_text(i64::MIN), b"-9223372036854775808".to_vec());
    assert_eq!(integer_to_text(i64::MAX), b"9223372036854775807".to_vec());
}

#[test]
fn from_integer_rounds_to_nearest_even() {
    let samples: [i64; 14] = [
        0,
        1,
        -1,
        42,
        9007199254740992,
        9007199254740993,
        9007199254740995,
        -9007199254740993,
        i64::MAX,
        i64::MIN,
        i64::MAX - 511,
        i64::MAX - 512,
        1234567890123456789,
        -1234567890123456789,
    ];
    for i in samples {
        assert_eq!(Real::from_integer(i).to_bits(), (i as f64).to_bits(), "{}", i);
    }
}

#[test]
fn to_integer_truncates_and_saturates() {
    let samples: [f64; 16] = [
        0.0,
        -0.0,
        0.99,
        -0.99,
        1.5,
        -1.5,
        1e10,
        -1e10,
        9.2e18,
        -9.2e18,
        9223372036854775808.0,
        -9223372036854775808.0,
        1e300,
        -1e300,
        f64::INFINITY,
        f64::NAN,
    ];
    for f in samples {
        assert_eq!(number(f).to_integer(), f as i64, "{}", f);
    }
}

#[test]
fn compare_integer_is_exact() {
    assert_eq!(number(5.0).compare_integer(5), 0);
    assert_eq!(number(5.5).compare_integer(5), -1);
    assert_eq!(number(4.5).compare_integer(5), 1);
    assert_eq!(number(-5.5).compare_integer(-5), 1);
    assert_eq!(number(-4.5).compare_integer(-5), -1);
    assert_eq!(number(9007199254740992.0).compare_integer(9007199254740993), 1);
    assert_eq!(number(9223372036854775808.0).compare_integer(i64::MAX), -1);
    assert_eq!(number(-9223372036854775808.0).compare_integer(i64::MIN), 0);
    assert_eq!(number(f64::INFINITY).compare_integer(i64::MAX), -1);
    assert_eq!(number(f64::NEG_INFINITY).compare_integer(i64::MIN), 1);
    assert_eq!(number(1e-320).compare_integer(0), -1);
    assert_eq!(number(-0.0).compare_integer(0), 0);
}

#[test]
fn less_than_orders_reals() {
    assert!(number(1.0).less_than(number(2.0)));
    assert!(!number(2.0).less_than(number(1.0)));
    assert!(number(-2.0).less_than(number(-1.0)));
    assert!(number(-1.0).less_than(number(1e-300)));
    assert!(!number(0.0).less_than(number(-0.0)));
    assert!(!number(-0.0).less_than(number(0.0)));
    assert!(number(f64::MAX).less_than(number(f64::INFINITY)));
    assert_eq!(f64::from_bits(number(2.5).negate().to_bits()), -2.5);
}
