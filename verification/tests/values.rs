use nop_json::{DebugToJson, Reader, Value};
use std::convert::{TryFrom, TryInto};

fn reader(text: &str) -> Reader {
    Reader::new(text.bytes().collect())
}

fn number(digits: &str, exponent: i32, negative: bool) -> Value {
    Value::Number(digits.as_bytes().to_vec(), exponent, negative)
}

#[test]
fn test_value() {
    let mut reader = reader(r#" 123 "#);
    let v: Value = reader.read().unwrap();
    let v: i32 = v.try_into().unwrap();
    assert_eq!(v, 123);

    assert_eq!(Reader::new(br#" [null] "#.to_vec()).read::<Value>().unwrap(), Value::Array(vec![Value::Null]));
    assert_eq!(Reader::new(br#" [false] "#.to_vec()).read::<Value>().unwrap(), Value::Array(vec![Value::Bool(false)]));
    assert_eq!(Reader::new(br#" [true] "#.to_vec()).read::<Value>().unwrap(), Value::Array(vec![Value::Bool(true)]));
    assert_eq!(Reader::new(br#" [-3000] "#.to_vec()).read::<Value>().unwrap(), Value::Array(vec![number("3", 3, true)]));
    assert_eq!(Reader::new(br#" [-3000.0] "#.to_vec()).read::<Value>().unwrap(), Value::Array(vec![number("3", 3, true)]));
    assert_eq!(Reader::new(br#" [-3000.00e1] "#.to_vec()).read::<Value>().unwrap(), Value::Array(vec![number("3", 4, true)]));
    assert_eq!(Reader::new(br#" [-3000.00e-1] "#.to_vec()).read::<Value>().unwrap(), Value::Array(vec![number("3", 2, true)]));
}

#[test]
fn test_value_number_to_string() {
    let mut reader = reader("123 12.3 0.123 0.0123 123e3 123e7 123e8 123e-1 123e-3 123e-13");
    assert_eq!(reader.read::<Value>().unwrap().to_json_string(), "123");
    assert_eq!(reader.read::<Value>().unwrap().to_json_string(), "12.3");
    assert_eq!(reader.read::<Value>().unwrap().to_json_string(), "0.123");
    assert_eq!(reader.read::<Value>().unwrap().to_json_string(), "0.0123");
    assert_eq!(reader.read::<Value>().unwrap().to_json_string(), "123000");
    assert_eq!(reader.read::<Value>().unwrap().to_json_string(), "1230000000");
    assert_eq!(reader.read::<Value>().unwrap().to_json_string(), "123e8");
    assert_eq!(reader.read::<Value>().unwrap().to_json_string(), "12.3");
    assert_eq!(reader.read::<Value>().unwrap().to_json_string(), "0.123");
    assert_eq!(reader.read::<Value>().unwrap().to_json_string(), "123e-13");
}

#[test]
fn documents_are_written_as_they_were_read() {
    let text = r#"{"array":[{"x":1},"a string",null,true,false,[],{}],"n":-15e-301,"s":"q\"\\\n\t"}"#;
    let doc: Value = reader(text).read().unwrap();
    assert_eq!(doc.to_json_string(), text);
    let again: Value = reader(&doc.to_json_string()).read().unwrap();
    assert_eq!(again, doc);
    assert_eq!(doc.clone(), doc);
}

#[test]
fn a_key_that_comes_again_replaces_its_value() {
    let doc: Value = reader(r#"{"a": 1, "b": 2, "a": 3}"#).read().unwrap();
    assert_eq!(doc.to_json_string(), r#"{"a":3,"b":2}"#);
    assert_eq!(doc["a"], number("3", 0, false));
    assert_eq!(doc["b"], number("2", 0, false));
    assert_eq!(doc["c"], Value::Null);
    assert_eq!(doc["a"]["x"], Value::Null);
    assert!(doc.get("c").is_none());
}

#[test]
fn objects_are_the_same_whatever_the_order_of_their_members() {
    let a: Value = reader(r#"{"b": 2, "a": 1, "ab": [], "": null}"#).read().unwrap();
    let b: Value = reader(r#"{"": null, "ab": [], "a": 0, "b": 2, "a": 1}"#).read().unwrap();
    assert_eq!(a, b);
    assert_eq!(a.to_json_string(), r#"{"":null,"a":1,"ab":[],"b":2}"#);
    let c: Value = reader(r#"{"b": 2, "a": 1, "ab": [], "": false}"#).read().unwrap();
    assert_ne!(a, c);
}

#[test]
fn malformed_documents() {
    for text in [
        "[1,]", "[1 2]", "[", "[1", r#"{"a"}"#, r#"{"a":}"#, r#"{"a":1,}"#, r#"{,}"#, r#"{1:2}"#, "truey", "nul", "]", "}", ":", ",",
        "1e", "1ex", "-", "1e99999999999", "@", r#"{"a":1 "b":2}"#, "",
    ] {
        assert!(reader(text).read::<Value>().is_err(), "{}", text);
    }
    let digits: String = std::iter::repeat('7').take(129).collect();
    assert!(reader(&digits).read::<Value>().is_err());
    let digits: String = std::iter::repeat('7').take(128).collect();
    assert_eq!(reader(&digits).read::<Value>().unwrap(), number(&digits, 0, false));
    let zeros = format!("7{}", "0".repeat(300));
    assert_eq!(reader(&zeros).read::<Value>().unwrap(), number("7", 300, false));
}

#[test]
fn numbers_from_values() {
    assert_eq!(i8::try_from(number("128", 0, true)), Ok(-128));
    assert_eq!(i8::try_from(number("128", 0, false)), Err(()));
    assert_eq!(u8::try_from(number("255", 0, false)), Ok(255));
    assert_eq!(u8::try_from(number("1", 0, true)), Err(()));
    assert_eq!(u16::try_from(number("1", -2, false)), Ok(0));
    assert_eq!(i64::try_from(number("12345", -2, true)), Ok(-123));
    assert_eq!(i64::try_from(number("1", 18, false)), Ok(1_000_000_000_000_000_000));
    assert_eq!(i64::try_from(number("1", 19, false)), Err(()));
    assert_eq!(u64::try_from(number("1", 19, false)), Ok(10_000_000_000_000_000_000));
    assert_eq!(u128::try_from(Value::Null), Ok(0));
    assert_eq!(isize::try_from(Value::Bool(true)), Ok(1));
    assert_eq!(usize::try_from(Value::Bool(false)), Ok(0));
    assert_eq!(i32::try_from(Value::String(" 12e1 ".to_string())), Ok(120));
    assert_eq!(i32::try_from(Value::String("twelve".to_string())), Err(()));
    assert_eq!(i32::try_from(Value::Array(vec![])), Err(()));
    assert_eq!(i32::try_from(Value::Object(vec![])), Err(()));
    assert_eq!(i32::try_from(Value::Number(b"1x".to_vec(), 0, false)), Err(()));
}

#[test]
fn other_types_from_values() {
    assert_eq!(bool::try_from(Value::Null), Ok(false));
    assert_eq!(bool::try_from(number("", 0, false)), Ok(false));
    assert_eq!(bool::try_from(number("1", 0, false)), Ok(true));
    assert_eq!(bool::try_from(Value::String(String::new())), Ok(true));
    assert_eq!(bool::try_from(Value::Array(vec![])), Ok(true));
    assert_eq!(char::try_from(Value::Null), Ok('n'));
    assert_eq!(char::try_from(Value::Bool(true)), Ok('t'));
    assert_eq!(char::try_from(Value::Bool(false)), Ok('f'));
    assert_eq!(char::try_from(number("5", 0, true)), Ok('-'));
    assert_eq!(char::try_from(number("", 0, false)), Ok('0'));
    assert_eq!(char::try_from(number("57", 0, false)), Ok('5'));
    assert_eq!(char::try_from(Value::String("שלום".to_string())), Ok('ש'));
    assert_eq!(char::try_from(Value::String(String::new())), Err(()));
    assert_eq!(char::try_from(Value::Array(vec![])), Err(()));
    assert_eq!(String::try_from(Value::Null), Ok("null".to_string()));
    assert_eq!(String::try_from(Value::Bool(true)), Ok("true".to_string()));
    assert_eq!(String::try_from(Value::Bool(false)), Ok("false".to_string()));
    assert_eq!(String::try_from(number("123", -13, true)), Ok("-123e-13".to_string()));
    assert_eq!(String::try_from(number("123", -2, false)), Ok("1.23".to_string()));
    assert_eq!(String::try_from(Value::String("x".to_string())), Ok("x".to_string()));
    assert_eq!(String::try_from(Value::Object(vec![])), Err(()));
    assert_eq!(<()>::try_from(Value::Null), Ok(()));
    assert_eq!(<()>::try_from(Value::Bool(false)), Err(()));
}

#[test]
fn values_from_other_types() {
    assert_eq!(Value::try_from(0u8), Ok(number("", 0, false)));
    assert_eq!(Value::try_from(-3000i32), Ok(number("3", 3, true)));
    assert_eq!(Value::try_from(i64::MIN), Ok(number("9223372036854775808", 0, true)));
    assert_eq!(Value::try_from(u64::MAX), Ok(number("18446744073709551615", 0, false)));
    assert_eq!(Value::try_from(120usize), Ok(number("12", 1, false)));
    assert_eq!(Value::try_from(-1isize), Ok(number("1", 0, true)));
    assert_eq!(Value::try_from(10i8), Ok(number("1", 1, false)));
    assert_eq!(Value::try_from(()), Ok(Value::Null));
    assert_eq!(Value::try_from(true), Ok(Value::Bool(true)));
    assert_eq!(Value::try_from('x'), Ok(Value::String("x".to_string())));
    assert_eq!(Value::try_from("x".to_string()), Ok(Value::String("x".to_string())));
    assert_eq!(Value::try_from(vec![Value::Null]), Ok(Value::Array(vec![Value::Null])));
    assert_eq!("x".parse::<Value>(), Ok(Value::String("x".to_string())));
    let v: Value = reader("-3000").read().unwrap();
    assert_eq!(Value::try_from(-3000i64), Ok(v));
}
