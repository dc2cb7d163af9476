use nop_json::{Reader, Value};

fn reader(text: &str) -> Reader {
    Reader::new(text.bytes().collect())
}

#[test]
fn test_number_to_string() {
    let mut reader = reader("123 12.3 0.123 0.0123 123e3 123e7 123e8 123e-1 123e-3 123e-13");
    assert_eq!(reader.read::<String>().unwrap(), "123");
    assert_eq!(reader.read::<String>().unwrap(), "12.3");
    assert_eq!(reader.read::<String>().unwrap(), "0.123");
    assert_eq!(reader.read::<String>().unwrap(), "0.0123");
    assert_eq!(reader.read::<String>().unwrap(), "123000");
    assert_eq!(reader.read::<String>().unwrap(), "1230000000");
    assert_eq!(reader.read::<String>().unwrap(), "123e8");
    assert_eq!(reader.read::<String>().unwrap(), "12.3");
    assert_eq!(reader.read::<String>().unwrap(), "0.123");
    assert_eq!(reader.read::<String>().unwrap(), "123e-13");
}

#[test]
fn test_string() {
    let mut reader = reader(
        r#" "abc" "abcdefghijklmnopqrstuvwxyz" "שלום" "\u0061\u0062\u0063 \u05E9\u05Dc\u05d5\u05dd" "\\ \n" "#,
    );
    assert_eq!(reader.read::<String>().unwrap(), "abc");
    assert_eq!(reader.read::<String>().unwrap(), "abcdefghijklmnopqrstuvwxyz");
    assert_eq!(reader.read::<String>().unwrap(), "שלום");
    assert_eq!(reader.read::<String>().unwrap(), "abc שלום");
    assert_eq!(reader.read::<String>().unwrap(), "\\ \n");
}

#[test]
fn test_bytes() {
    let mut reader = reader(
        r#" "abc" "abcdefghijklmnopqrstuvwxyz" "שלום" "\u0061\u0062\u0063 \u05E9\u05Dc\u05d5\u05dd" "\\ \n" "#,
    );
    assert_eq!(reader.read_bytes().unwrap(), b"abc");
    assert_eq!(reader.read_bytes().unwrap(), b"abcdefghijklmnopqrstuvwxyz");
    assert_eq!(reader.read_bytes().unwrap(), "שלום".as_bytes());
    assert_eq!(reader.read_bytes().unwrap(), "abc שלום".as_bytes());
    assert_eq!(reader.read_bytes().unwrap(), b"\\ \n");
}

#[test]
fn test_char() {
    let mut reader = reader(r#" "abc" "א" "\u05E9" "#);
    assert_eq!(reader.read::<char>().unwrap(), 'a');
    assert_eq!(reader.read::<char>().unwrap(), 'א');
    assert_eq!(reader.read::<char>().unwrap(), 'ש');
}

#[test]
fn test_value_is() {
    let v: Value = reader(r#" [null, false, 12.3, "12.3", [], {}] "#).read().unwrap();
    assert_eq!(v.is_array(), true);
    match v {
        Value::Array(v) => {
            assert_eq!(v[0].is_null(), true);
            assert_eq!(v[0].is_bool(), false);
            assert_eq!(v[0].is_number(), false);
            assert_eq!(v[0].is_string(), false);
            assert_eq!(v[0].is_array(), false);
            assert_eq!(v[0].is_object(), false);

            assert_eq!(v[1].is_null(), false);
            assert_eq!(v[1].is_bool(), true);
            assert_eq!(v[1].is_number(), false);
            assert_eq!(v[1].is_string(), false);
            assert_eq!(v[1].is_array(), false);
            assert_eq!(v[1].is_object(), false);

            assert_eq!(v[2].is_null(), false);
            assert_eq!(v[2].is_bool(), false);
            assert_eq!(v[2].is_number(), true);
            assert_eq!(v[2].is_string(), false);
            assert_eq!(v[2].is_array(), false);
            assert_eq!(v[2].is_object(), false);

            assert_eq!(v[3].is_null(), false);
            assert_eq!(v[3].is_bool(), false);
            assert_eq!(v[3].is_number(), false);
            assert_eq!(v[3].is_string(), true);
            assert_eq!(v[3].is_array(), false);
            assert_eq!(v[3].is_object(), false);

            assert_eq!(v[4].is_null(), false);
            assert_eq!(v[4].is_bool(), false);
            assert_eq!(v[4].is_number(), false);
            assert_eq!(v[4].is_string(), false);
            assert_eq!(v[4].is_array(), true);
            assert_eq!(v[4].is_object(), false);

            assert_eq!(v[5].is_null(), false);
            assert_eq!(v[5].is_bool(), false);
            assert_eq!(v[5].is_number(), false);
            assert_eq!(v[5].is_string(), false);
            assert_eq!(v[5].is_array(), false);
            assert_eq!(v[5].is_object(), true);
        }
        _ => unreachable!(),
    }
}
