use nop_json::{Error, ErrorKind, PathItem, Reader, TryFromJson, ValidateJson};

#[derive(Debug, PartialEq, Default)]
struct User {
    id: usize,
    name: String,
    posts: Vec<Post>,
}

#[derive(Debug, PartialEq, Default)]
struct Post {
    id: usize,
    title: String,
    is_published: bool,
}

impl TryFromJson for Post {
    fn try_from_json(reader: &mut Reader) -> Result<Self, Error> {
        let mut id = None;
        let mut title = None;
        let mut is_published = None;
        reader.read_object_use_buffer(|reader| {
            match reader.get_key() {
                b"id" => id = reader.read_prop("id")?,
                b"title" => title = reader.read_prop("title")?,
                b"is_published" => is_published = reader.read_prop("is_published")?,
                _ => return Err(reader.format_error("Invalid property")),
            }
            Ok(())
        })?;
        Ok(Post {
            id: id.unwrap_or_default(),
            title: title.unwrap_or_default(),
            is_published: is_published.unwrap_or_default(),
        })
    }
}

impl TryFromJson for User {
    fn try_from_json(reader: &mut Reader) -> Result<Self, Error> {
        let mut id = None;
        let mut name = None;
        let mut posts = None;
        reader.read_object_use_buffer(|reader| {
            match reader.get_key() {
                b"id" => id = reader.read_prop("id")?,
                b"name" => name = reader.read_prop("name")?,
                b"all_posts" => posts = reader.read_prop("all_posts")?,
                _ => return Err(reader.format_error("Invalid property")),
            }
            Ok(())
        })?;
        Ok(User {
            id: id.unwrap_or_default(),
            name: name.unwrap_or_default(),
            posts: posts.unwrap_or_default(),
        })
    }
}

#[derive(Debug, PartialEq)]
enum Record {
    User(User),
    Timestamp(u32),
}

impl TryFromJson for Record {
    fn try_from_json(reader: &mut Reader) -> Result<Self, Error> {
        let mut variant = 0;
        let mut user = None;
        let mut timestamp = None;
        reader.read_object_use_buffer(|reader| {
            match reader.get_key() {
                b"type" => {
                    variant = match reader.read_bytes()? {
                        b"user" => 1,
                        b"Timestamp" => 2,
                        _ => return Err(reader.format_error("Invalid enum variant")),
                    }
                }
                b"user-data" => user = reader.read_prop("user-data")?,
                b"timestamp-data" => timestamp = reader.read_prop("timestamp-data")?,
                _ => return Err(reader.format_error("Invalid property")),
            }
            Ok(())
        })?;
        match variant {
            1 => Ok(Record::User(user.unwrap_or_default())),
            2 => Ok(Record::Timestamp(timestamp.unwrap_or_default())),
            _ => Err(reader.format_error("Field type is required")),
        }
    }
}

#[derive(Debug, PartialEq)]
enum Record2 {
    User(User),
    Timestamp(u32),
}

impl TryFromJson for Record2 {
    fn try_from_json(reader: &mut Reader) -> Result<Self, Error> {
        let mut user = None;
        let mut timestamp = None;
        reader.read_object_use_buffer(|reader| {
            match reader.get_key() {
                b"user" => user = reader.read_prop("user")?,
                b"timestamp" => timestamp = reader.read_prop("timestamp")?,
                _ => return Err(reader.format_error("Invalid property")),
            }
            Ok(())
        })?;
        match (user, timestamp) {
            (Some(user), None) => Ok(Record2::User(user)),
            (None, Some(timestamp)) => Ok(Record2::Timestamp(timestamp)),
            _ => Err(reader.format_error("Invalid combination of properties")),
        }
    }
}

#[test]
fn test_object() {
    // Test 1: Record (enum with type)
    let input = r#"	[	{	"type": "user",
				"user-data":
				{	"id": 1,
					"name": "John",
					"all_posts":
					[	{	"id": "1",
							"title": "Hello",
							"is_published": true
						},
						{	"id": "2",
							"title": "Subj",
							"is_published": false
						}
					]
				}
			},
			{	"type": "Timestamp",
				"timestamp-data": 1611495933
			}
		]
	"#;
    let expected_result = vec![
        Record::User(User {
            id: 1,
            name: "John".to_string(),
            posts: vec![
                Post { id: 1, title: "Hello".to_string(), is_published: true },
                Post { id: 2, title: "Subj".to_string(), is_published: false },
            ],
        }),
        Record::Timestamp(1611495933),
    ];
    let mut reader = Reader::new(input.bytes().collect());
    let subj_0: Vec<Record> = reader.read().unwrap();
    assert_eq!(subj_0, expected_result);

    // Test 2: Record2 (enum without type)
    let input = r#"	[	{	"user":
				{	"id": 1,
					"name": "John",
					"all_posts":
					[	{	"id": "1",
							"title": "Hello",
							"is_published": true
						},
						{	"id": "2",
							"title": "Subj",
							"is_published": false
						}
					]
				}
			},
			{	"timestamp": 1611495933
			}
		]
	"#;
    let expected_result = vec![
        Record2::User(User {
            id: 1,
            name: "John".to_string(),
            posts: vec![
                Post { id: 1, title: "Hello".to_string(), is_published: true },
                Post { id: 2, title: "Subj".to_string(), is_published: false },
            ],
        }),
        Record2::Timestamp(1611495933),
    ];
    let mut reader = Reader::new(input.bytes().collect());
    let subj_0: Vec<Record2> = reader.read().unwrap();
    assert_eq!(subj_0, expected_result);
}

#[test]
fn failures_deep_in_a_document_carry_the_whole_path() {
    let input = r#"[{"user": {"id": 1, "all_posts": [{"id": 1}, {"id": 2, "title": [0]}]}}]"#;
    let e = Reader::new(input.bytes().collect()).read::<Vec<Record2>>().err().unwrap();
    assert_eq!(e.kind, ErrorKind::UnexpectedToken);
    assert_eq!(e.message(), "$[0].user.all_posts[1].title: Value must be string, not array");
    assert!(matches!(
        e.path.as_slice(),
        [PathItem::Index(0), PathItem::Prop("user"), PathItem::Prop("all_posts"), PathItem::Index(1), PathItem::Prop("title")]
    ));
}

#[test]
fn the_path_is_as_before_after_a_failure() {
    let mut reader = Reader::new(br#" [[1, x]] 7 [8, [9, y]] "#.to_vec());
    assert!(reader.read::<Vec<Vec<i32>>>().is_err());
    let e = Reader::new(br#" @ "#.to_vec()).read::<i32>().err().unwrap();
    assert_eq!(e.message(), "$: Invalid JSON input: unexpected token");
    let e = reader.read::<Vec<i32>>().err().unwrap();
    assert!(e.message().starts_with("$: ") || e.message().starts_with("$["));
    assert!(e.path.len() <= 1);
}

#[test]
fn tuples_are_arrays_of_their_length() {
    let mut reader = Reader::new(br#" [1, "a"] [1, "a", null] [[1, 2], [3, 4]] "#.to_vec());
    assert_eq!(reader.read::<(u8, String)>().unwrap(), (1, "a".to_string()));
    assert_eq!(reader.read::<(u8, String, Option<bool>)>().unwrap(), (1, "a".to_string(), None));
    assert_eq!(reader.read::<Vec<(i32, i32)>>().unwrap(), vec![(1, 2), (3, 4)]);
    for (text, message) in [
        ("[1]", "$[0]: Invalid JSON input: expected ',', got ']'"),
        ("[1, 2, 3]", "$[1]: Invalid JSON input: expected ']', got ','"),
        ("[1, []]", "$[1]: Value must be number, not array"),
        ("null", "$: Value must be array[2], not null"),
        ("{}", "$: Value must be array[2], not object"),
    ] {
        let e = Reader::new(text.bytes().collect()).read::<(i32, i32)>().err().unwrap();
        assert_eq!(e.message(), message);
    }
    let e = Reader::new(b"[1, 2]".to_vec()).read::<(i32, i32, i32)>().err().unwrap();
    assert_eq!(e.message(), "$[1]: Invalid JSON input: expected ',', got ']'");
}

#[test]
fn optional_and_boxed_values() {
    let mut reader = Reader::new(br#" null 5 nul [null, 1] "#.to_vec());
    assert_eq!(reader.read::<Option<i32>>().unwrap(), None);
    assert_eq!(reader.read::<Option<Box<i32>>>().unwrap(), Some(Box::new(5)));
    assert!(reader.read::<Option<i32>>().is_err());
    let mut reader = Reader::new(br#" [null, 1] "#.to_vec());
    assert_eq!(reader.read::<Vec<Option<i32>>>().unwrap(), vec![None, Some(1)]);
}

#[test]
fn keys_of_any_length() {
    let long: String = std::iter::repeat('k').take(200).collect();
    let input = format!(r#"{{"{}": 1, "short": 2}}"#, long);
    let mut keys = Vec::new();
    let mut reader = Reader::new(input.clone().into_bytes());
    reader
        .read_object(|reader, key| {
            keys.push((key, reader.read::<i32>()?));
            Ok(())
        })
        .unwrap();
    assert_eq!(keys, vec![(long.clone(), 1), ("short".to_string(), 2)]);
    let mut keys = Vec::new();
    let mut reader = Reader::new(input.into_bytes());
    reader
        .read_object_use_buffer(|reader| {
            keys.push(reader.get_key().to_vec());
            reader.read::<()>()
        })
        .unwrap();
    assert_eq!(keys, vec![long.as_bytes()[..128].to_vec(), b"short".to_vec()]);
}

#[derive(Debug, PartialEq)]
struct FromTo {
    from: i32,
    to: i32,
}

impl ValidateJson for FromTo {
    fn validate_json(self) -> Result<Self, String> {
        if self.from <= self.to {
            Ok(self)
        } else {
            Err("to must be after from".to_string())
        }
    }
}

impl TryFromJson for FromTo {
    fn try_from_json(reader: &mut Reader) -> Result<Self, Error> {
        let (from, to) = reader.read::<(i32, i32)>()?;
        FromTo { from, to }.validate_json().map_err(|msg| reader.format_error(&msg))
    }
}

#[derive(Debug, PartialEq)]
struct Unchecked(i32);

impl ValidateJson for Unchecked {}

#[test]
fn values_are_checked_once_they_are_read() {
    assert_eq!(Unchecked(-5).validate_json(), Ok(Unchecked(-5)));
    assert_eq!(FromTo { from: 1, to: 2 }.validate_json(), Ok(FromTo { from: 1, to: 2 }));
    let mut reader = Reader::new(b" [1, 2]  [2, 1] ".to_vec());
    assert_eq!(reader.read::<FromTo>().unwrap(), FromTo { from: 1, to: 2 });
    let e = reader.read::<FromTo>().err().unwrap();
    assert_eq!(e.kind, ErrorKind::Custom);
    assert_eq!(e.message(), "$: to must be after from");
}
