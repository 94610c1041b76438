use nexusdb::interpreter::binary64::Real;
use nexusdb::interpreter::collate::compare_nullable;
use nexusdb::interpreter::collate::compare_text;
use nexusdb::interpreter::collate::compare_values;
use nexusdb::interpreter::collate::Collation;
use nexusdb::interpreter::record::decode;
use nexusdb::interpreter::record::encode;
use nexusdb::interpreter::record::RecordError;
use nexusdb::interpreter::test_utils::buffer_to_hex;
use nexusdb::interpreter::test_utils::build_comparators;
use nexusdb::interpreter::test_utils::build_record;
use nexusdb::interpreter::value::Value;
use nexusdb::interpreter::varint::push_varint;
use nexusdb::interpreter::varint::read_varint;
use std::cmp::Ordering;

fn text(s: &str) -> Value {
    Value::Text(s.as_bytes().to_vec())
}

fn number(f: f64) -> Value {
    Value::Real(Real::from_bits(f.to_bits()))
}

fn refs(values: &[Option<Value>]) -> Vec<Option<&Value>> {
    values.iter().map(|v| v.as_ref()).collect()
}

#[test]
fn decode_gives_back_what_encode_was_given() {
    let values = vec![
        None,
        Some(Value::Integer(0)),
        Some(Value::Integer(1)),
        Some(Value::Integer(-1)),
        Some(Value::Integer(127)),
        Some(Value::Integer(-128)),
        Some(Value::Integer(128)),
        Some(Value::Integer(-129)),
        Some(Value::Integer(32767)),
        Some(Value::Integer(-32769)),
        Some(Value::Integer(8388607)),
        Some(Value::Integer(-8388609)),
        Some(Value::Integer(2147483647)),
        Some(Value::Integer(-2147483649)),
        Some(Value::Integer(140737488355327)),
        Some(Value::Integer(-140737488355329)),
        Some(Value::Integer(i64::MAX)),
        Some(Value::Integer(i64::MIN)),
        Some(number(0.0)),
        Some(number(-0.0)),
        Some(number(1.5)),
        Some(number(f64::MAX)),
        Some(number(f64::INFINITY)),
        Some(text("")),
        Some(text("hello")),
        Some(Value::Blob(vec![])),
        Some(Value::Blob(vec![0, 255, 1])),
        Some(text(&"x".repeat(300))),
    ];
    let record = encode(&refs(&values)).unwrap();
    assert_eq!(decode(&record), Ok(values.clone()));
    for v in &values {
        let one = vec![v.clone()];
        let record = encode(&refs(&one)).unwrap();
        assert_eq!(decode(&record), Ok(one));
    }
    let empty: Vec<Option<Value>> = vec![];
    assert_eq!(encode(&refs(&empty)).unwrap(), vec![1]);
    assert_eq!(decode(&[1]), Ok(empty));
}

#[test]
fn encode_writes_the_least_code_for_each_value() {
    let record = build_record(&[
        None,
        Some(&Value::Integer(0)),
        Some(&Value::Integer(1)),
        Some(&Value::Integer(2)),
        Some(&Value::Integer(-2)),
        Some(&Value::Integer(300)),
        Some(&Value::Integer(70000)),
        Some(&Value::Integer(-70000)),
        Some(&Value::Integer(1 << 32)),
        Some(&Value::Integer(1 << 50)),
        Some(&number(1.0)),
        Some(&text("ab")),
        Some(&Value::Blob(vec![9])),
    ]);
    assert_eq!(
        buffer_to_hex(&record),
        concat_hex(&[
            "0E", "00", "08", "09", "01", "01", "02", "03", "03", "05", "06", "07", "11", "0E",
            "02", "FE", "012C", "011170", "FEEE90", "000100000000", "0004000000000000",
            "3FF0000000000000", "6162", "09",
        ])
    );
}

fn concat_hex(parts: &[&str]) -> String {
    parts.concat()
}

#[test]
fn a_long_header_counts_its_own_size() {
    let values: Vec<Option<Value>> = (0..200).map(|_| None).collect();
    let record = encode(&refs(&values)).unwrap();
    assert_eq!(record.len(), 202);
    assert_eq!(&record[..2], &[0x81, 0x4A]);
    assert_eq!(decode(&record), Ok(values));
    let values: Vec<Option<Value>> = (0..126).map(|_| Some(Value::Integer(1))).collect();
    let record = encode(&refs(&values)).unwrap();
    assert_eq!(record.len(), 127);
    assert_eq!(record[0], 127);
    let values: Vec<Option<Value>> = (0..127).map(|_| Some(Value::Integer(1))).collect();
    let record = encode(&refs(&values)).unwrap();
    assert_eq!(record.len(), 129);
    assert_eq!(&record[..2], &[0x81, 0x01]);
    assert_eq!(decode(&record), Ok(values));
}

#[test]
fn decode_refuses_what_is_no_record() {
    assert_eq!(decode(&[]), Err(RecordError::Corruption));
    assert_eq!(decode(&[0]), Err(RecordError::Corruption));
    assert_eq!(decode(&[3, 1]), Err(RecordError::Corruption));
    assert_eq!(decode(&[2, 1]), Err(RecordError::Corruption));
    assert_eq!(decode(&[2, 1, 5, 6]), Err(RecordError::Corruption));
    assert_eq!(decode(&[2, 0x81]), Err(RecordError::Corruption));
    assert_eq!(decode(&[2, 15, 0x61]), Ok(vec![Some(text("a"))]));
    assert_eq!(decode(&[2, 15]), Err(RecordError::Corruption));
    assert_eq!(decode(&[2, 15, 0x61, 0x62]), Err(RecordError::Corruption));
    assert_eq!(decode(&[2, 10]), Err(RecordError::Unsupported));
    assert_eq!(decode(&[2, 11]), Err(RecordError::Unsupported));
    assert_eq!(decode(&[3, 1, 11, 7]), Err(RecordError::Unsupported));
    assert_eq!(decode(&[2, 1, 0xFF]), Ok(vec![Some(Value::Integer(-1))]));
    assert_eq!(decode(&[2, 3, 0x80, 0, 0]), Ok(vec![Some(Value::Integer(-8388608))]));
    assert_eq!(decode(&[2, 5, 0, 0, 0, 0, 1, 0]), Ok(vec![Some(Value::Integer(256))]));
}

#[test]
fn a_nan_is_read_as_null() {
    let nan = [2u8, 7, 0x7F, 0xF8, 0, 0, 0, 0, 0, 0];
    assert_eq!(decode(&nan), Ok(vec![None]));
    let inf = [2u8, 7, 0x7F, 0xF0, 0, 0, 0, 0, 0, 0];
    assert_eq!(decode(&inf), Ok(vec![Some(number(f64::INFINITY))]));
}

#[test]
fn varints_of_every_length() {
    let cases: [(u64, Vec<u8>); 12] = [
        (0, vec![0]),
        (127, vec![0x7F]),
        (128, vec![0x81, 0x00]),
        (16383, vec![0xFF, 0x7F]),
        (16384, vec![0x81, 0x80, 0x00]),
        (0x1F_FFFF, vec![0xFF, 0xFF, 0x7F]),
        (0x20_0000, vec![0x81, 0x80, 0x80, 0x00]),
        (0xFF_FFFF_FFFF_FFFF, vec![0xFF, 0xFF, 0xFF, 0xFF, 0xFF, 0xFF, 0xFF, 0x7F]),
        (0x100_0000_0000_0000, vec![0x80, 0xC0, 0x80, 0x80, 0x80, 0x80, 0x80, 0x80, 0x00]),
        (0x100_0000_0000_0001, vec![0x80, 0xC0, 0x80, 0x80, 0x80, 0x80, 0x80, 0x80, 0x01]),
        (u64::MAX, vec![0xFF; 9]),
        (0x8000_0000_0000_0000, vec![0xC0, 0x80, 0x80, 0x80, 0x80, 0x80, 0x80, 0x80, 0x00]),
    ];
    for (value, bytes) in cases {
        let mut out = vec![0xAA];
        push_varint(&mut out, value);
        assert_eq!(&out[1..], &bytes[..], "{}", value);
        out.push(0x55);
        assert_eq!(read_varint(&out, 1), Some((value, bytes.len())), "{}", value);
    }
    assert_eq!(read_varint(&[0x81], 0), None);
    assert_eq!(read_varint(&[], 0), None);
    assert_eq!(read_varint(&[0x80, 0x01], 0), Some((1, 2)));
}

#[test]
fn values_are_ordered_across_storage_classes() {
    let samples: Vec<Option<Value>> = vec![
        None,
        Some(number(f64::NEG_INFINITY)),
        Some(Value::Integer(i64::MIN)),
        Some(number(-1.5)),
        Some(Value::Integer(-1)),
        Some(number(-0.0)),
        Some(Value::Integer(0)),
        Some(number(0.5)),
        Some(Value::Integer(1)),
        Some(number(1.0)),
        Some(Value::Integer(9007199254740993)),
        Some(number(9007199254740994.0)),
        Some(Value::Integer(i64::MAX)),
        Some(number(9223372036854775808.0)),
        Some(number(f64::INFINITY)),
        Some(text("")),
        Some(text("A")),
        Some(text("B")),
        Some(text("a")),
        Some(text("ab")),
        Some(Value::Blob(vec![])),
        Some(Value::Blob(vec![0])),
        Some(Value::Blob(vec![0, 1])),
        Some(Value::Blob(vec![1])),
    ];
    let equal = |a: &Option<Value>, b: &Option<Value>| match (a, b) {
        (Some(Value::Integer(0)), Some(Value::Real(_))) => true,
        (Some(Value::Real(_)), Some(Value::Integer(0))) => true,
        (Some(Value::Integer(1)), Some(Value::Real(_))) => true,
        (Some(Value::Real(_)), Some(Value::Integer(1))) => true,
        _ => a == b,
    };
    for (i, a) in samples.iter().enumerate() {
        for (j, b) in samples.iter().enumerate() {
            let order = compare_nullable(a, b, Collation::Binary);
            let back = compare_nullable(b, a, Collation::Binary);
            assert_eq!(order, -back);
            let both_zero = (i == 5 || i == 6) && (j == 5 || j == 6);
            let both_one = (i == 8 || i == 9) && (j == 8 || j == 9);
            if both_zero || both_one {
                assert_eq!(order, 0);
                assert!(equal(a, b) || a == b);
            } else if i < j {
                assert_eq!(order, -1, "{:?} {:?}", a, b);
            } else if i > j {
                assert_eq!(order, 1, "{:?} {:?}", a, b);
            } else {
                assert_eq!(order, 0);
            }
            for c in samples.iter() {
                let bc = compare_nullable(b, c, Collation::Binary);
                let ac = compare_nullable(a, c, Collation::Binary);
                if order <= 0 && bc <= 0 {
                    assert!(ac <= 0);
                    if order < 0 || bc < 0 {
                        assert!(ac < 0);
                    }
                }
            }
        }
    }
}

#[test]
fn collations_order_texts() {
    assert_eq!(compare_text(Collation::Binary, b"ABC", b"abc"), -1);
    assert_eq!(compare_text(Collation::NoCase, b"ABC", b"abc"), 0);
    assert_eq!(compare_text(Collation::NoCase, b"abd", b"ABC"), 1);
    assert_eq!(compare_text(Collation::NoCase, b"[", b"a"), -1);
    assert_eq!(compare_text(Collation::Binary, b"abc", b"abc "), -1);
    assert_eq!(compare_text(Collation::RTrim, b"abc", b"abc   "), 0);
    assert_eq!(compare_text(Collation::RTrim, b" abc", b"abc"), -1);
    assert_eq!(compare_text(Collation::RTrim, b"   ", b""), 0);
    assert_eq!(compare_text(Collation::Binary, b"ab", b"abc"), -1);
    assert_eq!(compare_text(Collation::Binary, b"", b""), 0);
    assert_eq!(compare_text(Collation::Binary, &[0xFF], &[0x7F]), 1);
    let blobs = compare_values(
        &Value::Blob(b"ABC".to_vec()),
        &Value::Blob(b"abc".to_vec()),
        Collation::NoCase,
    );
    assert_eq!(blobs, -1);
    let texts = compare_values(&text("ABC"), &text("abc"), Collation::NoCase);
    assert_eq!(texts, 0);
}

#[test]
fn comparators_compare_byte_by_byte() {
    let values = vec![Some(text("B")), None, Some(Value::Integer(3))];
    let comparators = build_comparators(&values);
    assert_eq!(comparators.len(), 3);
    assert!(comparators[1].is_none());
    let first = comparators[0].as_ref().unwrap();
    assert_eq!(first.compare(&text("b")), Ordering::Less);
    assert_eq!(first.compare(&text("B")), Ordering::Equal);
    assert_eq!(first.compare(&text("A")), Ordering::Greater);
    assert_eq!(first.compare(&Value::Integer(9)), Ordering::Greater);
    let third = comparators[2].as_ref().unwrap();
    assert_eq!(third.compare(&number(3.0)), Ordering::Equal);
    assert_eq!(third.compare(&number(3.5)), Ordering::Less);
    assert_eq!(third.compare(&Value::Blob(vec![])), Ordering::Less);
}

#[test]
fn buffer_to_hex_writes_capital_digits() {
    assert_eq!(buffer_to_hex(&[]), "");
    assert_eq!(buffer_to_hex(&[0x00, 0x0A, 0xFF, 0x5b]), "000AFF5B");
}
