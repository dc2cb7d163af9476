use nop_json::{escape, escape_bytes};

#[test]
fn test_escape_bytes() {
    assert_eq!(escape_bytes(b"abc").as_ref(), b"abc");
    assert_eq!(escape_bytes(b"a\\b\"c\n").as_ref(), b"a\\\\b\\\"c\\n");
}

#[test]
fn test_escape() {
    assert_eq!(escape("abc"), "abc");
    assert_eq!(escape("a\\b\"c\n"), "a\\\\b\\\"c\\n");
}
