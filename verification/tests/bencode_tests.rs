use defttorrent::bencode::{encode, BencodeParser, BencodeValue, ParseError, ParseErrorKind};

fn decode(data: &[u8]) -> Result<BencodeValue, ParseError> {
    let mut parser = BencodeParser::new(data);
    parser.parse()
}

#[test]
fn decodes_integer_with_span() {
    let node = decode(b"i42e").unwrap();
    match node {
        BencodeValue::Integer { value, start, end } => {
            assert_eq!(value, 42);
            assert_eq!(start, 0);
            assert_eq!(end, 4);
        }
        other => panic!("expected an integer, got {:?}", other),
    }
}

#[test]
fn decodes_negative_integer() {
    let node = decode(b"i-17e").unwrap();
    assert!(matches!(node, BencodeValue::Integer { value: -17, .. }));
}

#[test]
fn decodes_extreme_integers() {
    let node = decode(b"i9223372036854775807e").unwrap();
    assert!(matches!(node, BencodeValue::Integer { value: i64::MAX, .. }));
    let node = decode(b"i-9223372036854775808e").unwrap();
    assert!(matches!(node, BencodeValue::Integer { value: i64::MIN, .. }));
}

#[test]
fn rejects_integer_overflow() {
    let err = decode(b"i9223372036854775808e").unwrap_err();
    assert_eq!(err.kind, ParseErrorKind::InvalidInteger);
}

#[test]
fn decodes_string_with_span() {
    let node = decode(b"4:spam").unwrap();
    match node {
        BencodeValue::Str { bytes, start, end } => {
            assert_eq!(bytes, b"spam".to_vec());
            assert_eq!(start, 0);
            assert_eq!(end, 6);
        }
        other => panic!("expected a string, got {:?}", other),
    }
}

#[test]
fn decodes_empty_string() {
    let node = decode(b"0:").unwrap();
    assert!(matches!(node, BencodeValue::Str { .. }));
}

#[test]
fn decodes_list_with_child_spans() {
    let node = decode(b"li1e3:twoe").unwrap();
    match node {
        BencodeValue::List { items, start, end } => {
            assert_eq!(start, 0);
            assert_eq!(end, 10);
            assert_eq!(items.len(), 2);
            assert!(matches!(items[0], BencodeValue::Integer { value: 1, start: 1, end: 4 }));
            match &items[1] {
                BencodeValue::Str { bytes, start, end } => {
                    assert_eq!(bytes, &b"two".to_vec());
                    assert_eq!(*start, 4);
                    assert_eq!(*end, 9);
                }
                other => panic!("expected a string, got {:?}", other),
            }
        }
        other => panic!("expected a list, got {:?}", other),
    }
}

#[test]
fn decodes_dict() {
    let node = decode(b"d3:cow3:moo4:spami7ee").unwrap();
    match node {
        BencodeValue::Dict { pairs, .. } => {
            assert_eq!(pairs.len(), 2);
            assert_eq!(pairs[0].0, b"cow".to_vec());
            assert_eq!(pairs[1].0, b"spam".to_vec());
            assert!(matches!(pairs[1].1, BencodeValue::Integer { value: 7, .. }));
        }
        other => panic!("expected a dict, got {:?}", other),
    }
}

#[test]
fn rejects_minus_zero() {
    let err = decode(b"i-0e").unwrap_err();
    assert_eq!(err.kind, ParseErrorKind::InvalidInteger);
}

#[test]
fn rejects_leading_zero() {
    let err = decode(b"i03e").unwrap_err();
    assert_eq!(err.kind, ParseErrorKind::InvalidInteger);
    assert!(decode(b"i0e").is_ok());
}

#[test]
fn rejects_invalid_tag() {
    let err = decode(b"x").unwrap_err();
    assert_eq!(err.kind, ParseErrorKind::InvalidTag);
    assert_eq!(err.offset, 0);
}

#[test]
fn rejects_non_string_dict_key() {
    let err = decode(b"di1e4:spame").unwrap_err();
    assert_eq!(err.kind, ParseErrorKind::NonStringDictKey);
    assert_eq!(err.offset, 1);
}

#[test]
fn terminates_on_truncated_buffers() {
    // length prefix exceeding the remaining bytes
    let err = decode(b"5:abc").unwrap_err();
    assert_eq!(err.kind, ParseErrorKind::InvalidLength);
    // a length prefix far beyond any buffer
    let err = decode(b"1000000:a").unwrap_err();
    assert_eq!(err.kind, ParseErrorKind::InvalidLength);
    // unterminated containers and scalars
    assert_eq!(decode(b"").unwrap_err().kind, ParseErrorKind::UnexpectedEnd);
    assert_eq!(decode(b"l").unwrap_err().kind, ParseErrorKind::UnexpectedEnd);
    assert_eq!(decode(b"d4:spam").unwrap_err().kind, ParseErrorKind::UnexpectedEnd);
    assert_eq!(decode(b"i42").unwrap_err().kind, ParseErrorKind::UnexpectedEnd);
    assert_eq!(decode(b"li1e").unwrap_err().kind, ParseErrorKind::UnexpectedEnd);
}

#[test]
fn errors_in_dict_values_abort_the_parse() {
    // a malformed value under a key must fail, not be skipped
    let err = decode(b"d3:keyi-0ee").unwrap_err();
    assert_eq!(err.kind, ParseErrorKind::InvalidInteger);
}

#[test]
fn decoding_is_deterministic() {
    let data = b"d3:cow3:moo4:spamli1ei2eee";
    let a = decode(data).unwrap();
    let b = decode(data).unwrap();
    assert!(a.same_value(&b));
    assert_eq!(a, b);
}

#[test]
fn round_trips_an_encoded_tree() {
    let data = b"d3:agei-3e4:listl4:spami0ee4:name3:bobe";
    let tree = decode(data).unwrap();
    let encoded = encode(&tree);
    assert_eq!(encoded, data.to_vec());
    let again = decode(&encoded).unwrap();
    assert!(again.same_value(&tree));
}

#[test]
fn round_trips_nested_containers() {
    let data = b"lld1:ali1eeeee";
    let tree = decode(data).unwrap();
    let encoded = encode(&tree);
    let again = decode(&encoded).unwrap();
    assert!(again.same_value(&tree));
    assert_eq!(encoded, data.to_vec());
}

#[test]
fn parse_advances_past_one_value() {
    let data = b"i5e3:abc";
    let mut parser = BencodeParser::new(data);
    let first = parser.parse().unwrap();
    assert!(matches!(first, BencodeValue::Integer { value: 5, .. }));
    assert_eq!(parser.pos, 3);
    let second = parser.parse().unwrap();
    assert!(matches!(second, BencodeValue::Str { .. }));
    assert_eq!(parser.pos, 8);
}

#[test]
fn finds_the_info_value_span() {
    let data = b"d8:announce3:url4:infod6:lengthi7eee";
    let parser = BencodeParser::new(data);
    let root = decode(data).unwrap();
    let start = parser.find_info_position(&root).unwrap();
    let end = parser.find_info_end(&root).unwrap();
    assert_eq!(&data[start..end], b"d6:lengthi7ee".as_slice());
}

#[test]
fn info_lookup_fails_without_the_key() {
    let data = b"d8:announce3:urle";
    let parser = BencodeParser::new(data);
    let root = decode(data).unwrap();
    assert!(parser.find_info_position(&root).is_none());
    assert!(parser.find_info_end(&root).is_none());
}
