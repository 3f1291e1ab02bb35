use propfile::format::{parse_properties, serialize_properties, try_parse_properties, ParseError};
use propfile::property::{Property, PropertyMap};
use propfile::varint::{decode_at, encode_len, DecodeError};

fn text(s: &str) -> String {
    s.to_string()
}

fn same_value(a: &Property, b: &Property) -> bool {
    match (a, b) {
        (Property::Boolean(x), Property::Boolean(y)) => x == y,
        (Property::Integer(x), Property::Integer(y)) => x == y,
        (Property::Float(x), Property::Float(y)) => x == y,
        (Property::String(x), Property::String(y)) => x == y,
        (Property::List(x), Property::List(y)) => x == y,
        (Property::Unknown(x, t), Property::Unknown(y, u)) => x == y && t == u,
        _ => false,
    }
}

fn same_map(a: &PropertyMap, b: &PropertyMap) -> bool {
    if a.len() != b.len() {
        return false;
    }
    for i in 0..a.len() {
        if a.key_at(i) != b.key_at(i) || !same_value(a.value_at(i), b.value_at(i)) {
            return false;
        }
    }
    true
}

#[test]
fn writes_an_integer_record() {
    let mut m = PropertyMap::new();
    m.insert(text("Emeralds"), Property::Integer(7));
    let bytes = serialize_properties(&m);
    let mut expected = vec![0x7e, 8];
    expected.extend_from_slice(b"Emeralds");
    expected.extend_from_slice(&[6, 0, 0, 0, 0x02, 7, 0, 0, 0, 0x7b]);
    assert_eq!(bytes, expected);
}

#[test]
fn writes_each_kind_of_value() {
    let mut m = PropertyMap::new();
    m.insert(text("B"), Property::Boolean(true));
    m.insert(text("F"), Property::Float(1.5f32.to_bits()));
    m.insert(text("S"), Property::String(text("abc")));
    m.insert(text("U"), Property::Unknown(vec![9, 8], 0x05));
    let bytes = serialize_properties(&m);
    let expected: Vec<u8> = vec![
        0x7e, 1, b'B', 3, 0, 0, 0, 0x09, 1, 0x7b, //
        0x7e, 1, b'F', 6, 0, 0, 0, 0x06, 0x00, 0x00, 0xc0, 0x3f, 0x7b, //
        0x7e, 1, b'S', 6, 0, 0, 0, 0x01, 3, b'a', b'b', b'c', 0x7b, //
        0x7e, 1, b'U', 4, 0, 0, 0, 0x05, 9, 8, 0x7b,
    ];
    assert_eq!(bytes, expected);
}

#[test]
fn data_length_counts_a_two_byte_prefix() {
    let mut m = PropertyMap::new();
    let long = "x".repeat(200);
    m.insert(text("S"), Property::String(long.clone()));
    let bytes = serialize_properties(&m);
    // tag, prefix, name, then the data length: 2 + 2 + 200
    assert_eq!(&bytes[3..7], &[204, 0, 0, 0]);
    assert_eq!(&bytes[7..10], &[0x01, 0xc8, 0x01]);
    let back = parse_properties(&bytes).unwrap();
    assert!(same_map(&m, &back));
}

#[test]
fn reads_back_what_was_written() {
    let mut m = PropertyMap::new();
    m.insert(text("Name"), Property::String(text("Zoë, the bold")));
    m.insert(text("Level"), Property::Float(3.0f32.to_bits()));
    m.insert(text("Emeralds"), Property::Integer(123456));
    m.insert(text("Alive"), Property::Boolean(false));
    m.insert(
        text("SkillPoints"),
        Property::List(vec![text("0"), text("3"), text(""), text("12")]),
    );
    m.insert(text("Blob"), Property::Unknown(vec![1, 2, 3, 4, 5], 0x0a));
    m.insert(text("Empty"), Property::Unknown(vec![], 0x33));
    let bytes = serialize_properties(&m);
    let back = parse_properties(&bytes).unwrap();
    assert!(same_map(&m, &back));
}

#[test]
fn empty_file_reads_as_empty_map() {
    let m = parse_properties(&[]).unwrap();
    assert_eq!(m.len(), 0);
}

#[test]
fn wrong_record_tag_is_refused() {
    match parse_properties(&[0x00, 1, 2]) {
        Err(ParseError::UnexpectedTag(0)) => {}
        _ => panic!("expected an unexpected tag"),
    }
}

#[test]
fn truncated_file_is_refused() {
    let mut m = PropertyMap::new();
    m.insert(text("Emeralds"), Property::Integer(7));
    let bytes = serialize_properties(&m);
    for cut in 1..bytes.len() - 1 {
        match parse_properties(&bytes[..cut]) {
            Err(ParseError::UnexpectedEof) => {}
            _ => panic!("expected the end of the file at {}", cut),
        }
    }
    // Only the end byte missing: the value is complete.
    let m2 = parse_properties(&bytes[..bytes.len() - 1]).unwrap();
    assert!(same_map(&m, &m2));
}

#[test]
fn overlong_length_prefix_is_refused() {
    let bytes = [0x7e, 0x80, 0x80, 0x80, 0x80, 0x80, 0x80, 0x80, 0x80, 0x80, 0x80, 0x00];
    match parse_properties(&bytes) {
        Err(ParseError::BadLength) => {}
        _ => panic!("expected a bad length"),
    }
    let bytes = [0x7e, 0xff, 0xff, 0xff, 0xff, 0xff, 0xff, 0xff, 0xff, 0xff, 0x7f];
    match parse_properties(&bytes) {
        Err(ParseError::BadLength) => {}
        _ => panic!("expected a bad length"),
    }
    // Six prefix bytes are read: zero padded out to the length.
    let bytes = [0x7e, 0x80, 0x80, 0x80, 0x80, 0x80, 0x00, 0, 0, 0, 0];
    assert_eq!(parse_properties(&bytes).unwrap().len(), 0);
}

#[test]
fn invalid_utf8_name_is_refused() {
    let bytes = [0x7e, 1, 0xff, 0, 0, 0, 0];
    match parse_properties(&bytes) {
        Err(ParseError::InvalidText) => {}
        _ => panic!("expected invalid text"),
    }
}

#[test]
fn zero_data_length_sets_nothing() {
    let bytes = [0x7e, 1, b'A', 0, 0, 0, 0, 0x7e, 1, b'B', 3, 0, 0, 0, 0x09, 5, 0x7b];
    let m = parse_properties(&bytes).unwrap();
    assert_eq!(m.len(), 1);
    assert_eq!(m.key_at(0), "B");
    assert!(same_value(m.value_at(0), &Property::Boolean(true)));
    assert!(m.get("A").is_none());
}

#[test]
fn a_name_read_again_replaces_its_value_in_place() {
    let bytes = [
        0x7e, 1, b'A', 3, 0, 0, 0, 0x09, 0, 0x7b, //
        0x7e, 1, b'B', 3, 0, 0, 0, 0x09, 0, 0x7b, //
        0x7e, 1, b'A', 3, 0, 0, 0, 0x09, 1, 0x7b,
    ];
    let m = parse_properties(&bytes).unwrap();
    assert_eq!(m.len(), 2);
    assert_eq!(m.key_at(0), "A");
    assert!(same_value(m.value_at(0), &Property::Boolean(true)));
}

#[test]
fn list_names_split_their_text() {
    let mut bytes = vec![0x7e, 12];
    bytes.extend_from_slice(b"CombatSkills");
    bytes.extend_from_slice(&[2 + 1 + 4, 0, 0, 0, 0x01, 4]);
    bytes.extend_from_slice(b"a,bc");
    bytes.push(0x7b);
    bytes.extend_from_slice(&[0x7e, 4]);
    bytes.extend_from_slice(b"Name");
    bytes.extend_from_slice(&[2 + 1 + 4, 0, 0, 0, 0x01, 4]);
    bytes.extend_from_slice(b"a,bc");
    bytes.push(0x7b);
    let m = parse_properties(&bytes).unwrap();
    assert!(same_value(
        m.get("CombatSkills").unwrap(),
        &Property::List(vec![text("a"), text("bc")])
    ));
    assert!(same_value(m.get("Name").unwrap(), &Property::String(text("a,bc"))));
}

#[test]
fn short_uninterpreted_value_is_where_the_reader_panics() {
    let bytes = [0x7e, 1, b'A', 1, 0, 0, 0, 0x05, 0x7b];
    assert!(try_parse_properties(&bytes).is_none());
}

#[test]
fn truncated_uninterpreted_value_is_padded_with_zeros() {
    let bytes = [0x7e, 1, b'A', 6, 0, 0, 0, 0x05, 7, 8];
    let m = parse_properties(&bytes).unwrap();
    assert!(same_value(m.get("A").unwrap(), &Property::Unknown(vec![7, 8, 0, 0], 0x05)));
}

#[test]
fn integers_and_floats_are_little_endian() {
    let bytes = [
        0x7e, 1, b'I', 6, 0, 0, 0, 0x02, 0x78, 0x56, 0x34, 0x12, 0x7b, //
        0x7e, 1, b'F', 6, 0, 0, 0, 0x06, 0x00, 0x00, 0x80, 0x3f, 0x7b,
    ];
    let m = parse_properties(&bytes).unwrap();
    assert!(same_value(m.get("I").unwrap(), &Property::Integer(0x1234_5678)));
    assert!(same_value(m.get("F").unwrap(), &Property::Float(1.0f32.to_bits())));
}

#[test]
fn length_prefixes_round_trip() {
    assert_eq!(encode_len(0), vec![0]);
    assert_eq!(encode_len(127), vec![127]);
    assert_eq!(encode_len(300), vec![0xac, 0x02]);
    assert_eq!(encode_len(0x4000), vec![0x80, 0x80, 0x01]);
    for n in [0usize, 1, 127, 128, 300, 16383, 16384, 2_097_151, 2_097_152, 0x7fff_ffff] {
        let bytes = encode_len(n);
        let (v, k) = decode_at(&bytes, 0, 5).unwrap();
        assert_eq!(v, n as u64);
        assert_eq!(k, bytes.len());
    }
    assert_eq!(decode_at(&[0x80], 0, 5), Err(DecodeError::Truncated));
    assert_eq!(decode_at(&[0x80, 0x80, 0x80, 0x80, 0x80, 0], 0, 5), Err(DecodeError::TooLong));
    assert_eq!(decode_at(&[0x80, 0x80, 0x80, 0x80, 0x80, 0], 0, 10), Ok((0, 6)));
    let max = encode_len(usize::MAX);
    assert_eq!(max.len(), 10);
    assert_eq!(decode_at(&max, 0, 10), Ok((usize::MAX as u64, 10)));
    let over = [0xff, 0xff, 0xff, 0xff, 0xff, 0xff, 0xff, 0xff, 0xff, 0x02];
    assert_eq!(decode_at(&over, 0, 10), Err(DecodeError::TooLong));
}

#[test]
fn length_prefix_sizes_follow_the_seven_bit_groups() {
    let cases = [
        (127usize, 1usize),
        (128, 2),
        (16383, 2),
        (16384, 3),
        (2_097_151, 3),
        (2_097_152, 4),
        (268_435_455, 4),
        (268_435_456, 5),
        (0x7fff_ffff, 5),
    ];
    for (n, k) in cases {
        assert_eq!(encode_len(n).len(), k, "{}", n);
    }
}
