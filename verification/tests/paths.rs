use nop_json::{Error, ErrorKind, PathItem, Reader, TryFromJson};

fn reader(text: &str) -> Reader {
    Reader::new(text.bytes().collect())
}

#[test]
fn malformed_element_is_reported_at_its_position() {
    let e = reader("[1, }]").read::<Vec<i32>>().err().unwrap();
    assert_eq!(e.kind, ErrorKind::UnexpectedToken);
    assert!(matches!(e.path.as_slice(), [PathItem::Index(1)]));
    assert!(e.message().contains("[1]"));
    assert_eq!(e.message(), "$[1]: Invalid JSON input: unexpected '}'");
}

#[test]
fn nested_arrays_count_their_own_elements() {
    let e = reader("[[1, 2, 3], [4, x]]").read::<Vec<Vec<i32>>>().err().unwrap();
    assert!(matches!(e.path.as_slice(), [PathItem::Index(1), PathItem::Index(1)]));
    let v = reader("[[1, 2, 3], [], null, [4]]").read::<Vec<Vec<i32>>>().unwrap();
    assert_eq!(v, vec![vec![1, 2, 3], vec![], vec![], vec![4]]);
}

struct Point {
    x: i32,
    y: Option<i32>,
}

impl TryFromJson for Point {
    fn try_from_json(reader: &mut Reader) -> Result<Self, Error> {
        let mut x = None;
        let mut y = None;
        reader.read_object_use_buffer(|reader| {
            match reader.get_key() {
                b"x" => x = reader.read_prop("x")?,
                b"y" => y = reader.read_prop("y")?,
                _ => return Err(reader.format_error("Invalid property")),
            }
            Ok(())
        })?;
        Ok(Point { x: x.unwrap_or_default(), y })
    }
}

#[test]
fn objects_through_a_function_of_the_caller() {
    let mut reader = reader(r#" {"x": 1, "y": 2} {"x": "3"} {} null {"x": 1, "y": [1]} "#);
    let p: Point = reader.read().unwrap();
    assert_eq!((p.x, p.y), (1, Some(2)));
    let p: Point = reader.read().unwrap();
    assert_eq!((p.x, p.y), (3, None));
    let p: Point = reader.read().unwrap();
    assert_eq!((p.x, p.y), (0, None));
    let p: Point = reader.read().unwrap();
    assert_eq!((p.x, p.y), (0, None));
    let e = reader.read::<Point>().err().unwrap();
    assert_eq!(e.kind, ErrorKind::UnexpectedToken);
    assert!(matches!(e.path.as_slice(), [PathItem::Prop("y")]));
    assert_eq!(e.message(), "$.y: Value must be number, not array");
    let e = Reader::new(br#"{"z": 1}"#.to_vec()).read::<Point>().err().unwrap();
    assert_eq!(e.kind, ErrorKind::Custom);
    assert_eq!(e.detail, "Invalid property");
    assert_eq!(e.message(), "$: Invalid property");
}

#[test]
fn arrays_through_a_function_of_the_caller() {
    let mut reader = reader(r#" ["One", "Two", "Three"] "#);
    let mut value: Vec<String> = Vec::new();
    let found = reader
        .read_array(|reader| {
            value.push(reader.read_index()?);
            Ok(())
        })
        .unwrap();
    assert!(found);
    assert_eq!(value, vec!["One".to_string(), "Two".to_string(), "Three".to_string()]);
}

#[test]
fn paths_are_written_step_by_step() {
    let e = Error {
        kind: ErrorKind::Custom,
        path: vec![PathItem::Prop("a"), PathItem::Index(12), PathItem::Prop("b"), PathItem::Index(0)],
        detail: "no".to_string(),
    };
    assert_eq!(e.message(), "$.a[12].b[0]: no");
}

#[test]
fn what_follows_an_element_or_a_member() {
    let mut reader = reader(" , ] , } x");
    assert_eq!(reader.after_element(Ok(())).unwrap(), true);
    assert_eq!(reader.after_element(Ok(())).unwrap(), false);
    assert_eq!(reader.after_member(Ok(())).unwrap(), true);
    assert_eq!(reader.after_member(Ok(())).unwrap(), false);
    let failure = reader.format_error("mine");
    let e = reader.after_element(Err(failure)).err().unwrap();
    assert_eq!((e.kind, e.detail.as_str()), (ErrorKind::Custom, "mine"));
    let failure = reader.format_error("mine too");
    let e = reader.after_member(Err(failure)).err().unwrap();
    assert_eq!((e.kind, e.detail.as_str()), (ErrorKind::Custom, "mine too"));
    assert_eq!(reader.after_element(Ok(())).err().unwrap().kind, ErrorKind::UnexpectedToken);
}

#[test]
fn arrays_and_objects_through_a_function_that_fails() {
    let mut calls = 0;
    let e = reader("[1, }]")
        .read_array(|reader| {
            calls += 1;
            reader.read_index::<i32>().map(|_| ())
        })
        .err()
        .unwrap();
    assert_eq!(calls, 2);
    assert!(e.message().contains("[1]"));
    let mut keys = Vec::new();
    let found = reader(r#" {"x": 10, "y": "the y"} "#)
        .read_object(|reader, key| {
            keys.push(key);
            reader.read::<String>().map(|_| ())
        })
        .unwrap();
    assert!(found);
    assert_eq!(keys, vec!["x".to_string(), "y".to_string()]);
    assert_eq!(reader(" {} ").read_object(|_, _| Ok(())).unwrap(), true);
    assert_eq!(reader(" {} ").read_object_use_buffer(|_| Ok(())).unwrap(), true);
    assert_eq!(reader(" null ").read_object(|_, _| Ok(())).unwrap(), false);
    assert_eq!(reader(r#" {"a" 1} "#).read_object(|_, _| Ok(())).err().unwrap().kind, ErrorKind::UnexpectedToken);
    assert_eq!(reader(r#" {"a": 1, } "#).read_object(|reader, _| reader.read::<()>()).unwrap(), true);
    let e = reader(r#" {"a": 1} "#).read_object(|reader, _| Err(reader.format_error("no"))).err().unwrap();
    assert_eq!(e.kind, ErrorKind::Custom);
}
