use nop_json::{DebugToJson, Value, WriteToJson};

#[test]
fn test_to_json_string() {
    assert_eq!(&0i16.to_json_string(), "0");
    assert_eq!(&123i8.to_json_string(), "123");
    assert_eq!(&(-128i32).to_json_string(), "-128");
    assert_eq!(&true.to_json_string(), "true");
    assert_eq!(&false.to_json_string(), "false");
    assert_eq!(&" Hello ".to_string().to_json_string(), "\" Hello \"");
}

fn to_json<T>(input: T) -> String
where
    T: WriteToJson,
{
    let mut out: Vec<u8> = Vec::new();
    input.write_to_json(&mut out);
    String::from_utf8_lossy(&out).into_owned()
}

struct Person2 {
    first_name: String,
    last_name: String,
}

impl WriteToJson for Person2 {
    fn write_to_json(&self, out: &mut Vec<u8>) {
        out.extend_from_slice(b"{\"first_name\":");
        self.first_name.write_to_json(out);
        out.extend_from_slice(b",\"last_name\":");
        self.last_name.write_to_json(out);
        out.extend_from_slice(b"}");
    }
}

#[test]
fn test_write() {
    assert_eq!(&to_json(0i16), "0");
    assert_eq!(&to_json(123i8), "123");
    assert_eq!(&to_json(-128i32), "-128");
    assert_eq!(&to_json(true), "true");
    assert_eq!(&to_json(false), "false");
    assert_eq!(&to_json(" Hello ".to_string()), "\" Hello \"");
    assert_eq!(
        &to_json(Person2 { first_name: "John".to_string(), last_name: "Doe".to_string() }),
        "{\"first_name\":\"John\",\"last_name\":\"Doe\"}"
    );
    assert_eq!(
        Person2 { first_name: "John".to_string(), last_name: "Doe".to_string() }.to_json_string(),
        "{\"first_name\":\"John\",\"last_name\":\"Doe\"}"
    );
}

#[test]
fn every_integer_type_is_written_in_decimal() {
    assert_eq!(to_json(i8::MIN), "-128");
    assert_eq!(to_json(i16::MIN), "-32768");
    assert_eq!(to_json(i32::MIN), "-2147483648");
    assert_eq!(to_json(i64::MIN), "-9223372036854775808");
    assert_eq!(to_json(i128::MIN), "-170141183460469231731687303715884105728");
    assert_eq!(to_json(isize::MAX), isize::MAX.to_string());
    assert_eq!(to_json(u8::MAX), "255");
    assert_eq!(to_json(u16::MAX), "65535");
    assert_eq!(to_json(u32::MAX), "4294967295");
    assert_eq!(to_json(u64::MAX), "18446744073709551615");
    assert_eq!(to_json(u128::MAX), "340282366920938463463374607431768211455");
    assert_eq!(to_json(usize::MIN), "0");
}

#[test]
fn containers_are_written_as_arrays() {
    assert_eq!(to_json(()), "null");
    assert_eq!(to_json(None::<i32>), "null");
    assert_eq!(to_json(Some(5u8)), "5");
    assert_eq!(to_json(Box::new(5u8)), "5");
    assert_eq!(to_json(Vec::<i32>::new()), "[]");
    assert_eq!(to_json(vec![1, -2, 3]), "[1,-2,3]");
    assert_eq!(to_json(vec![vec!["a".to_string()], vec![]]), "[[\"a\"],[]]");
    assert_eq!(to_json((1u8, "x".to_string())), "[1,\"x\"]");
    assert_eq!(to_json((1u8, false, ())), "[1,false,null]");
    assert_eq!(to_json('"'), "\"\\\"\"");
    assert_eq!(to_json('\\'), "\"\\\\\"");
    assert_eq!(to_json('\n'), "\"\\n\"");
    assert_eq!(to_json('\u{1}'), "\"\\u0001\"");
    assert_eq!(to_json('ש'), "\"ש\"");
    assert_eq!(
        to_json(Value::Array(vec![Value::Null, Value::Number(b"15".to_vec(), -1, true)])),
        "[null,-1.5]"
    );
}
