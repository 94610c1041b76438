use nexusdb::interpreter::binary64::Real;
use nexusdb::interpreter::collate::compare_values;
use nexusdb::interpreter::collate::Collation;
use nexusdb::interpreter::value::TypeAffinity;
use nexusdb::interpreter::value::Value;

fn number(f: f64) -> Value {
    Value::Real(Real::from_bits(f.to_bits()))
}

fn text(s: &str) -> Value {
    Value::Text(s.as_bytes().to_vec())
}

fn doubles() -> Vec<f64> {
    let mut out = vec![
        0.0, 1.0, -1.0, 0.1, 0.2, 0.3, 0.1 + 0.2, 1.5, 2.5, 100.0, 1e14, 1e15, 1e16, 1e17, 1e21,
        1e22, 1e23, 123456789.125, 0.001, 0.0001, 0.00001, 1e-7, 1e-10, 3.141592653589793,
        2.718281828459045, 1.0 / 3.0, 2.0 / 3.0, 9007199254740992.0, 9007199254740994.0,
        4503599627370496.5, 999999999999999.0, 999999999999999.9, 99999999999999.95,
        123456789012345.6, 1234567890123456.0, 1.7976931348623157e308, 2.2250738585072014e-308,
        5e-324, 1e-320, 1e300, 1e-300, 65536.0, 0.5, 0.25, 0.125, 1e100, 12345.6789,
        100000000000000.5, 1.0000000000000002, 0.30000000000000004, 4.35, 1e-5, 1.5e-5,
    ];
    let negatives: Vec<f64> = out.iter().map(|f| -f).collect();
    out.extend(negatives);
    out
}

#[test]
fn real_text_is_that_of_the_reference_engine() {
    // Numbers of at most fifteen significant digits below ten to the
    // fifteenth: every version of the engine writes them alike.
    let samples: [f64; 30] = [
        1.0, -1.0, 0.1, 0.2, 0.3, 1.5, 2.5, 100.0, 1e14, 123456789.125, 0.001, 0.0001, 0.00001,
        1e-7, 1e-10, 65536.0, 0.5, 0.25, 0.125, 12345.6789, 4.35, 1.5e-5, -2.5e-300, 1e-300,
        999999999999999.0, 123456789012345.0, -0.75, 1e-5, 3.5e-9, 1048576.0,
    ];
    let conn = rusqlite::Connection::open_in_memory().unwrap();
    for f in samples {
        let expected: String =
            conn.query_row("SELECT CAST(?1 AS TEXT)", [f], |row| row.get(0)).unwrap();
        let got = String::from_utf8(Real::from_bits(f.to_bits()).to_text()).unwrap();
        assert_eq!(got, expected, "{:e}", f);
    }
}

#[test]
fn casts_of_text_are_those_of_the_reference_engine() {
    let conn = rusqlite::Connection::open_in_memory().unwrap();
    let samples = [
        "1", "12", "-7", "+5", " 42", "1.5", "1e3", "1.5e-3", ".5", "5.", "-.25e2", "abc", "",
        "12abc", "1.9e3x", "0x10", "1e", "1e+", "--1", "9223372036854775807",
        "9223372036854775808", "-9223372036854775808", "-9223372036854775809", "1e400", "-1e400",
        "1e-400", "0.1", "123456789012345678", "3.14159", "  7.5  ", "1_000", "١٢٣",
        "4.9e-324", "2e-324", "1.7976931348623157e308", "00012", "1.0", "100.000",
    ];
    for s in samples {
        let real: f64 = conn.query_row("SELECT CAST(?1 AS REAL)", [s], |row| row.get(0)).unwrap();
        let integer: i64 =
            conn.query_row("SELECT CAST(?1 AS INTEGER)", [s], |row| row.get(0)).unwrap();
        assert_eq!(
            text(s).force_apply_type_affinity(TypeAffinity::Real),
            number(real),
            "{:?} as real",
            s
        );
        assert_eq!(
            text(s).force_apply_type_affinity(TypeAffinity::Integer),
            Value::Integer(integer),
            "{:?} as integer",
            s
        );
    }
}

#[test]
fn casts_of_numbers_are_those_of_the_reference_engine() {
    let conn = rusqlite::Connection::open_in_memory().unwrap();
    for f in doubles() {
        let integer: i64 =
            conn.query_row("SELECT CAST(?1 AS INTEGER)", [f], |row| row.get(0)).unwrap();
        assert_eq!(
            number(f).force_apply_type_affinity(TypeAffinity::Integer),
            Value::Integer(integer),
            "{:e}",
            f
        );
    }
    for i in [0i64, 1, -1, 9007199254740993, i64::MAX, i64::MIN, 1234567890123456789] {
        let real: f64 = conn.query_row("SELECT CAST(?1 AS REAL)", [i], |row| row.get(0)).unwrap();
        assert_eq!(
            Value::Integer(i).force_apply_type_affinity(TypeAffinity::Real),
            number(real),
            "{}",
            i
        );
        let as_text: String =
            conn.query_row("SELECT CAST(?1 AS TEXT)", [i], |row| row.get(0)).unwrap();
        assert_eq!(
            Value::Integer(i).force_apply_type_affinity(TypeAffinity::Text),
            text(&as_text)
        );
    }
}

#[test]
fn the_order_of_numbers_is_that_of_the_reference_engine() {
    let conn = rusqlite::Connection::open_in_memory().unwrap();
    let integers = [0i64, 1, -1, 2, 9007199254740992, 9007199254740993, i64::MAX, i64::MIN, 100];
    let reals = [
        0.0,
        0.5,
        1.0,
        -1.0,
        1.5,
        9007199254740992.0,
        9007199254740994.0,
        9223372036854775808.0,
        -9223372036854775808.0,
        1e300,
        -1e300,
        100.0,
        99.99999,
    ];
    for i in integers {
        for f in reals {
            let less: bool = conn.query_row("SELECT ?1 < ?2", (i, f), |row| row.get(0)).unwrap();
            let equal: bool = conn.query_row("SELECT ?1 = ?2", (i, f), |row| row.get(0)).unwrap();
            let expected = if less {
                -1
            } else if equal {
                0
            } else {
                1
            };
            assert_eq!(
                compare_values(&Value::Integer(i), &number(f), Collation::Binary),
                expected,
                "{} {}",
                i,
                f
            );
            assert_eq!(
                compare_values(&number(f), &Value::Integer(i), Collation::Binary),
                -expected
            );
        }
    }
}
