use nop_json::{number_to_string, ErrorKind, Reader, Token, READER_BUFFER_SIZE};

fn tokens(text: &str) -> Vec<Token> {
    let mut reader = Reader::new(text.bytes().collect());
    let mut found = Vec::new();
    while let Ok(token) = reader.next_token() {
        found.push(token);
    }
    found
}

#[test]
fn every_kind_of_token() {
    assert_eq!(
        tokens(" null\tfalse\rtrue\n[ ] { } , : -12.50e3 "),
        vec![
            Token::Null,
            Token::False,
            Token::True,
            Token::ArrayBegin,
            Token::ArrayEnd,
            Token::ObjectBegin,
            Token::ObjectEnd,
            Token::Comma,
            Token::Colon,
            Token::Number(2, true),
        ]
    );
    let mut reader = Reader::new(b" -12.50e3 \"x\" ".to_vec());
    assert_eq!(reader.next_token().unwrap(), Token::Number(2, true));
    assert_eq!(reader.get_key(), b"125");
    assert_eq!(reader.next_token().unwrap(), Token::QuoteStart);
    assert_eq!(reader.get_key(), b"125");
    assert_eq!(reader.unwrap(), b"x\" ".to_vec());
}

#[test]
fn words_must_end_where_they_end() {
    for text in ["truey", "true_", "true1", "nulll", "fals", "falsE", "tru", "n"] {
        let e = Reader::new(text.bytes().collect()).next_token().err().unwrap();
        assert_eq!(e.kind, ErrorKind::UnexpectedToken, "{}", text);
    }
    for text in ["true", "true ", "true,", "true]", "true\"", "null}", "false:"] {
        assert!(Reader::new(text.bytes().collect()).next_token().is_ok(), "{}", text);
    }
}

#[test]
fn number_literals() {
    for (text, digits, exponent, negative) in [
        ("0", "", 0, false),
        ("-0", "", 0, false),
        ("000", "", 0, false),
        ("0.000", "", 0, false),
        ("0e7", "", 0, false),
        (".", "", 0, false),
        ("-", "", 0, false),
        ("-x", "", 0, false),
        ("007", "7", 0, false),
        ("7.", "7", 0, false),
        (".7", "7", -1, false),
        ("-.070", "7", -2, true),
        ("1.2.3", "123", -2, false),
        ("100200", "1002", 2, false),
        ("100200.00", "1002", 2, false),
        ("100200.0010", "100200001", -3, false),
        ("1e+", "1", 0, false),
        ("1e-", "1", 0, false),
        ("1E5", "1", 5, false),
        ("1e-05", "1", -5, false),
        ("10e2147483646", "1", 2147483647, false),
        ("0.1e-2147483647", "1", -2147483648, false),
        ("1e-2147483648", "1", -2147483648, false),
    ] {
        let mut reader = Reader::new(format!("{} ", text).into_bytes());
        assert_eq!(reader.next_token().unwrap(), Token::Number(exponent, negative), "{}", text);
        assert_eq!(reader.get_key(), digits.as_bytes(), "{}", text);
    }
    for (text, kind) in [
        ("1e", ErrorKind::UnexpectedEndOfInput),
        ("-", ErrorKind::UnexpectedEndOfInput),
        ("1ex", ErrorKind::InvalidNumberFormat),
        ("1e 5", ErrorKind::InvalidNumberFormat),
        ("1e2147483648", ErrorKind::NumberTooBig),
        ("1e-2147483649", ErrorKind::NumberTooBig),
        ("10e2147483647", ErrorKind::NumberTooBig),
        ("0.1e-2147483648", ErrorKind::NumberTooBig),
        ("0e2147483648", ErrorKind::NumberTooBig),
    ] {
        let e = Reader::new(text.bytes().collect()).next_token().err().unwrap();
        assert_eq!(e.kind, kind, "{}", text);
    }
}

fn text_of(digits: &str, exponent: i32, negative: bool) -> Result<String, ()> {
    let mut buffer = [0u8; READER_BUFFER_SIZE];
    buffer[..digits.len()].copy_from_slice(digits.as_bytes());
    let len = number_to_string(&mut buffer, digits.len(), exponent, negative)?;
    Ok(String::from_utf8(buffer[..len].to_vec()).unwrap())
}

#[test]
fn the_text_of_a_number() {
    assert_eq!(text_of("", 0, false).unwrap(), "0");
    assert_eq!(text_of("", 5, true).unwrap(), "0");
    assert_eq!(text_of("123", 0, false).unwrap(), "123");
    assert_eq!(text_of("123", 7, false).unwrap(), "1230000000");
    assert_eq!(text_of("123", 8, false).unwrap(), "123e8");
    assert_eq!(text_of("123", 7, true).unwrap(), "-1230000000");
    assert_eq!(text_of("123", -1, false).unwrap(), "12.3");
    assert_eq!(text_of("123", -2, true).unwrap(), "-1.23");
    assert_eq!(text_of("123", -3, false).unwrap(), "0.123");
    assert_eq!(text_of("123", -10, false).unwrap(), "0.0000000123");
    assert_eq!(text_of("123", -11, false).unwrap(), "123e-11");
    assert_eq!(text_of("12345678901", 0, false).unwrap(), "12345678901e0");
    assert_eq!(text_of("1234567890", 0, false).unwrap(), "1234567890");
    assert_eq!(text_of("1", i32::MIN, true).unwrap(), "-1e-2147483648");
    assert_eq!(text_of("1", i32::MAX, false).unwrap(), "1e2147483647");
    let long = "7".repeat(128);
    assert_eq!(text_of(&long, -1, false), Err(()));
    assert_eq!(text_of(&long, 0, false), Err(()));
    assert_eq!(text_of(&"7".repeat(127), -1, false).unwrap(), format!("{}.7", "7".repeat(126)));
    assert_eq!(text_of(&"7".repeat(126), 0, false).unwrap(), format!("{}e0", "7".repeat(126)));
    assert_eq!(text_of(&"7".repeat(126), 0, true), Err(()));
}

#[test]
fn what_is_written_reads_as_what_it_was() {
    for (digits, exponent, negative) in [
        ("", 0, false),
        ("1", 0, false),
        ("1", 9, false),
        ("1", 10, true),
        ("12", -1, false),
        ("12", -2, false),
        ("12", -10, true),
        ("12", -11, false),
        ("9", i32::MAX, false),
        ("9", i32::MIN, true),
        ("1234567891", 0, false),
        ("12345678912", 0, true),
    ] {
        let text = text_of(digits, exponent, negative).unwrap();
        let mut reader = Reader::new(text.clone().into_bytes());
        assert_eq!(reader.next_token().unwrap(), Token::Number(exponent, negative), "{}", text);
        assert_eq!(reader.get_key(), digits.as_bytes(), "{}", text);
        assert!(reader.unwrap().is_empty());
    }
}

#[test]
fn zeros_at_the_end_of_the_digits_go_into_the_exponent() {
    for (digits, exponent, negative, text, left, power) in [
        ("100", 0, false, "100", "1", 2),
        ("1200", -1, false, "120.0", "12", 1),
        ("1200", -2, true, "-12.00", "12", 0),
        ("50", -3, false, "0.050", "5", -2),
        ("120", 8, false, "120e8", "12", 9),
        ("700", -11, true, "-700e-11", "7", -9),
        ("10", i32::MAX - 1, false, "10e2147483646", "1", i32::MAX),
    ] {
        let written = text_of(digits, exponent, negative).unwrap();
        assert_eq!(written, text);
        let mut reader = Reader::new(written.into_bytes());
        assert_eq!(reader.next_token().unwrap(), Token::Number(power, negative), "{}", text);
        assert_eq!(reader.get_key(), left.as_bytes(), "{}", text);
        assert!(reader.unwrap().is_empty());
    }
}
