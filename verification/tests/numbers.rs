use nop_json::{Error, ErrorKind, Reader, Value};

fn reader(text: &str) -> Reader {
    Reader::new(text.bytes().collect())
}

/// The number that the next value spells, as a float. The library hands
/// out exact digits and a power of ten; turning them into a float is for
/// its caller.
fn read_float(reader: &mut Reader) -> Result<f64, Error> {
    let (exponent, negative) = reader.read_number()?;
    let text = format!("{}e{}", std::str::from_utf8(reader.get_key()).unwrap(), exponent);
    let magnitude: f64 = if reader.get_key().is_empty() { 0.0 } else { text.parse().unwrap() };
    Ok(if negative { -magnitude } else { magnitude })
}

#[test]
fn test_number() {
    let mut reader = reader(r#" 0 0.01 123 128 -128 -129 255 -1 -1e+2 1e2 123e-7 0.0123e-10 3000.0 -3000.0 1e-1000000 1e10000000000 "#);
    assert_eq!(reader.read::<i16>().unwrap(), 0); // 0
    assert_eq!(reader.read::<u16>().unwrap(), 0); // 0.01
    assert_eq!(reader.read::<i8>().unwrap(), 123); // 123
    assert!(reader.read::<i8>().is_err()); // 128
    assert_eq!(reader.read::<i8>().unwrap(), -128); // -128
    assert!(reader.read::<i8>().is_err()); // -129
    assert_eq!(reader.read::<u8>().unwrap(), 255); // 255
    assert!(reader.read::<u8>().is_err()); // -1
    assert_eq!(reader.read::<i8>().unwrap(), -100); // -1e+2
    assert_eq!(reader.read::<i8>().unwrap(), 100); // 1e2
    let n = read_float(&mut reader).unwrap() as f32; // 123e-7
    assert!(n > 123e-7 - 0.1e-10 && n < 123e-7 + 0.1e-10);
    let n: f64 = read_float(&mut reader).unwrap(); // 0.0123e-10
    assert!(n > 0.0123e-10 - 0.1e-16 && n < 0.0123e-10 + 0.1e-16);
    assert_eq!(read_float(&mut reader).unwrap(), 3000.0); // 3000.0
    assert_eq!(read_float(&mut reader).unwrap(), -3000.0); // -3000.0
    assert_eq!(read_float(&mut reader).unwrap() as f32, 0.0); // 1e-1000000
    // An exponent that no i32 holds is a number too big, whatever the target.
    assert_eq!(read_float(&mut reader).err().unwrap().kind, ErrorKind::NumberTooBig); // 1e10000000000
    // A string that spells no number is no number, whatever the target.
    let mut reader = self::reader(r#" "Infinity" "-Infinity" "hello" true null "#);
    assert_eq!(read_float(&mut reader).err().unwrap().kind, ErrorKind::InvalidNumberFormat); // "Infinity"
    assert_eq!(read_float(&mut reader).err().unwrap().kind, ErrorKind::InvalidNumberFormat); // "-Infinity"
    assert_eq!(read_float(&mut reader).err().unwrap().kind, ErrorKind::InvalidNumberFormat); // "hello"
    assert_eq!(reader.read::<i16>().unwrap(), 1); // true
    assert_eq!(read_float(&mut reader).unwrap() as f32, 0.0); // null
}

#[test]
fn test_number_as_string() {
    let mut reader = reader(r#" "0" "0.01" "123" "128" "-128" "-129" "255" "-1" "-1e+2" "1e2" "123e-7" "0.0123e-10" "1e-1000000" "1e10000000000" "Infinity" "-Infinity" "hello" true "#);
    assert_eq!(reader.read::<i16>().unwrap(), 0); // 0
    assert_eq!(reader.read::<u16>().unwrap(), 0); // 0.01
    assert_eq!(reader.read::<i8>().unwrap(), 123); // 123
    assert!(reader.read::<i8>().is_err()); // 128
    assert_eq!(reader.read::<i8>().unwrap(), -128); // -128
    assert!(reader.read::<i8>().is_err()); // -129
    assert_eq!(reader.read::<u8>().unwrap(), 255); // 255
    assert!(reader.read::<u8>().is_err()); // -1
    assert_eq!(reader.read::<i8>().unwrap(), -100); // -1e+2
    assert_eq!(reader.read::<i8>().unwrap(), 100); // 1e2
    let n = read_float(&mut reader).unwrap() as f32; // 123e-7
    assert!(n > 123e-7 - 0.1e-10 && n < 123e-7 + 0.1e-10);
    let n: f64 = read_float(&mut reader).unwrap(); // 0.0123e-10
    assert!(n > 0.0123e-10 - 0.1e-16 && n < 0.0123e-10 + 0.1e-16);
    assert_eq!(read_float(&mut reader).unwrap() as f32, 0.0); // 1e-1000000
    // Inside a string the whole string is read before its text is taken for
    // a number, so the reader can go on behind it.
    assert_eq!(read_float(&mut reader).err().unwrap().kind, ErrorKind::NumberTooBig); // 1e10000000000
    assert_eq!(read_float(&mut reader).err().unwrap().kind, ErrorKind::InvalidNumberFormat); // "Infinity"
    assert_eq!(read_float(&mut reader).err().unwrap().kind, ErrorKind::InvalidNumberFormat); // "-Infinity"
    assert_eq!(read_float(&mut reader).err().unwrap().kind, ErrorKind::InvalidNumberFormat); // "hello"
    assert_eq!(reader.read::<i16>().unwrap(), 1); // true
}

#[test]
fn integers_from_other_spellings() {
    let mut reader = reader(r#" null " 1e2 " "" "hello" "12x" 12.7 15e-1 1.5e1 "-0.4" -0.4 [] {} "#);
    assert_eq!(reader.read::<u64>().unwrap(), 0);
    assert_eq!(reader.read::<i8>().unwrap(), 100);
    assert_eq!(reader.read::<i8>().err().unwrap().kind, ErrorKind::InvalidNumberFormat);
    assert_eq!(reader.read::<i8>().err().unwrap().kind, ErrorKind::InvalidNumberFormat);
    assert_eq!(reader.read::<i8>().err().unwrap().kind, ErrorKind::InvalidNumberFormat);
    assert_eq!(reader.read::<i8>().unwrap(), 12);
    assert_eq!(reader.read::<i8>().unwrap(), 1);
    assert_eq!(reader.read::<i8>().unwrap(), 15);
    assert_eq!(reader.read::<u8>().unwrap(), 0);
    assert_eq!(reader.read::<u8>().unwrap(), 0);
    assert_eq!(reader.read::<u8>().err().unwrap().kind, ErrorKind::UnexpectedToken);
}

#[test]
fn wide_integers() {
    let mut reader = reader("340282366920938463463374607431768211455 340282366920938463463374607431768211456 -170141183460469231731687303715884105728 -170141183460469231731687303715884105729 18446744073709551615 9223372036854775807 -9223372036854775808 1e38 1e39");
    assert_eq!(reader.read::<u128>().unwrap(), u128::MAX);
    assert!(reader.read::<u128>().is_err());
    assert_eq!(reader.read::<i128>().unwrap(), i128::MIN);
    assert!(reader.read::<i128>().is_err());
    assert_eq!(reader.read::<u64>().unwrap(), u64::MAX);
    assert_eq!(reader.read::<i64>().unwrap(), i64::MAX);
    assert_eq!(reader.read::<i64>().unwrap(), i64::MIN);
    assert_eq!(reader.read::<u128>().unwrap(), 100000000000000000000000000000000000000);
    assert!(reader.read::<u128>().is_err());
}

#[test]
fn zeros_are_compacted() {
    let v = reader(" [-3000, -3000.0, -3000.00e1, -3000.00e-1, 0, -0, 0.00, 0e5] ").read::<Value>().unwrap();
    assert_eq!(
        v,
        Value::Array(vec![
            Value::Number(b"3".to_vec(), 3, true),
            Value::Number(b"3".to_vec(), 3, true),
            Value::Number(b"3".to_vec(), 4, true),
            Value::Number(b"3".to_vec(), 2, true),
            Value::Number(vec![], 0, false),
            Value::Number(vec![], 0, false),
            Value::Number(vec![], 0, false),
            Value::Number(vec![], 0, false),
        ])
    );
}

#[test]
fn booleans_from_anything() {
    let mut reader = reader(r#" "" "x" "\"" null 0 0.0 0.1 [] [1,[2]] {} {"a":{"b":[]}} true false "#);
    assert_eq!(reader.read::<bool>().unwrap(), false);
    assert_eq!(reader.read::<bool>().unwrap(), true);
    assert_eq!(reader.read::<bool>().unwrap(), true);
    assert_eq!(reader.read::<bool>().unwrap(), false);
    assert_eq!(reader.read::<bool>().unwrap(), false);
    assert_eq!(reader.read::<bool>().unwrap(), false);
    assert_eq!(reader.read::<bool>().unwrap(), true);
    assert_eq!(reader.read::<bool>().unwrap(), true);
    assert_eq!(reader.read::<bool>().unwrap(), true);
    assert_eq!(reader.read::<bool>().unwrap(), true);
    assert_eq!(reader.read::<bool>().unwrap(), true);
    assert_eq!(reader.read::<bool>().unwrap(), true);
    assert_eq!(reader.read::<bool>().unwrap(), false);
    assert_eq!(reader.read::<bool>().err().unwrap().kind, ErrorKind::UnexpectedEndOfInput);
}

#[test]
fn spellings_of_one_number_read_as_one_value() {
    for (spellings, digits, exponent, negative) in [
        (vec!["1", "1.0", "10e-1", "0.1e1", "001", "1e0", "1E+0", "0.0001e4"], "1", 0, false),
        (vec!["-25e-1", "-2.5", "-0.25e1", "-250e-2", "-2.50"], "25", -1, true),
        (vec!["1200", "12e2", "1.2e3", "0.12E4", "12000e-1"], "12", 2, false),
        (vec!["0", "-0", "0.0", "0e5", "-0.00e-7", "000"], "", 0, false),
    ] {
        let expected = Value::Number(digits.as_bytes().to_vec(), exponent, negative);
        for text in spellings {
            assert_eq!(reader(text).read_value().unwrap(), expected, "{}", text);
        }
    }
    assert_ne!(reader("1").read_value().unwrap(), reader("-1").read_value().unwrap());
    assert_ne!(reader("1").read_value().unwrap(), reader("10").read_value().unwrap());
}
