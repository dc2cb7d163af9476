use nop_json::{escape_bytes, ErrorKind, Reader};

const READER_BUFFER_SIZE: usize = 128;

struct Writer {
    data: Vec<u8>,
    n_parts: usize,
}

impl Writer {
    fn write(&mut self, buf: &[u8]) {
        self.data.extend_from_slice(buf);
        self.n_parts += 1;
    }
}

fn pipe(reader: &mut Reader, writer: &mut Writer) {
    let mut first = true;
    loop {
        let more = reader.pipe_blob(first).unwrap();
        first = false;
        if !reader.get_key().is_empty() {
            writer.write(reader.get_key());
        }
        if !more {
            break;
        }
    }
}

#[test]
fn test_pipe() {
    const N_CHARS: usize = 300;
    let mut data = Vec::new();
    let mut expected_data = Vec::new();
    data.push(b'"');
    for i in 0..N_CHARS {
        let i = (i % 256) as u8;
        if i < 32 {
            for c in format!("\\u{:04x}", i).chars() {
                data.push(c as u8);
            }
        } else if i == b'\\' || i == b'"' {
            data.push(b'\\');
            data.push(i);
        } else {
            data.push(i);
        }
        expected_data.push(i);
    }
    data.push(b'"');

    let mut writer = Writer { data: Vec::new(), n_parts: 0 };

    let mut reader = Reader::new(data);
    pipe(&mut reader, &mut writer);

    assert_eq!(writer.data, expected_data);
    assert_eq!(writer.n_parts, (N_CHARS as f64 / READER_BUFFER_SIZE as f64).ceil() as usize);
}

#[test]
fn pipe_of_a_full_buffer_has_one_part() {
    let mut data = vec![b'"'];
    data.extend(std::iter::repeat(b'x').take(READER_BUFFER_SIZE));
    data.push(b'"');
    let mut writer = Writer { data: Vec::new(), n_parts: 0 };
    let mut reader = Reader::new(data);
    pipe(&mut reader, &mut writer);
    assert_eq!(writer.data.len(), READER_BUFFER_SIZE);
    assert_eq!(writer.n_parts, 1);
    let mut reader = Reader::new(b" null 1".to_vec());
    assert_eq!(reader.pipe_blob(true).unwrap(), false);
    assert!(reader.get_key().is_empty());
    assert_eq!(reader.pipe_blob(true).err().unwrap().kind, ErrorKind::UnexpectedToken);
}

#[test]
fn blob_round_trip() {
    let data = b"\x80\x81";
    let mut container = Vec::with_capacity(100);
    container.push(b'"');
    container.extend_from_slice(escape_bytes(data).as_ref());
    container.push(b'"');
    assert_eq!(container, vec![b'"', b'\x80', b'\x81', b'"']);
    let mut reader = Reader::new(container);
    assert_eq!(reader.read_blob().unwrap(), data);
}

#[test]
fn every_byte_survives_the_round_trip() {
    let data: Vec<u8> = (0..=255u8).collect();
    let mut container = vec![b'"'];
    container.extend_from_slice(escape_bytes(&data).as_ref());
    container.push(b'"');
    assert_eq!(Reader::new(container).read_blob().unwrap(), data);
}

#[test]
fn surrogate_pairs() {
    let mut reader = Reader::new(br#" "\uD83D\uDE00" "\ud83d\ude00x" "#.to_vec());
    assert_eq!(reader.read::<String>().unwrap().as_bytes(), &[0xf0, 0x9f, 0x98, 0x80]);
    assert_eq!(reader.read::<String>().unwrap(), "\u{1F600}x");
    for (text, kind) in [
        (r#""\uD83D""#, ErrorKind::InvalidSurrogatePair),
        (r#""\uD83Dx""#, ErrorKind::InvalidSurrogatePair),
        (r#""\uD83D\n""#, ErrorKind::InvalidSurrogatePair),
        (r#""\uD83DA""#, ErrorKind::InvalidSurrogatePair),
        (r#""\uDE00""#, ErrorKind::InvalidEscapeSequence),
        (r#""\u12G4""#, ErrorKind::InvalidEscapeSequence),
        (r#""\uD83D"#, ErrorKind::UnexpectedEndOfInput),
        (r#""\u12"#, ErrorKind::UnexpectedEndOfInput),
        (r#""abc"#, ErrorKind::UnexpectedEndOfInput),
    ] {
        let e = Reader::new(text.bytes().collect()).read::<String>().err().unwrap();
        assert_eq!(e.kind, kind, "{}", text);
    }
}

#[test]
fn escapes_in_strings() {
    let mut reader = Reader::new(br#" "\r\n\t\b\f\"\\\/\u0041\u00e9\u20AC" "#.to_vec());
    assert_eq!(reader.read::<String>().unwrap(), "\r\n\t\u{8}\u{c}\"\\/A\u{e9}\u{20ac}");
    let mut reader = Reader::new(b" \"\x80\" ".to_vec());
    assert_eq!(reader.read::<String>().err().unwrap().kind, ErrorKind::InvalidUtf8);
}

#[test]
fn long_strings_are_cut_in_the_buffer_only() {
    let text: String = std::iter::repeat("ab").take(100).collect();
    let json = format!("\"{}\" \"{}\"", text, text);
    let mut reader = Reader::new(json.into_bytes());
    assert_eq!(reader.read_bytes().unwrap(), &text.as_bytes()[..READER_BUFFER_SIZE]);
    assert_eq!(reader.read::<String>().unwrap(), text);
}
