use defttorrent::bencode::BencodeParser;
use defttorrent::torrent::{parse_torrent, Field, Torrent, TorrentError, ValidationError};

const REFERENCE_INFO_HASH: [u8; 20] = [
    138, 253, 167, 93, 73, 50, 103, 181, 238, 179, 227, 182, 184, 233, 84, 221, 6, 134, 36, 43,
];

fn sample_torrent() -> Vec<u8> {
    let mut data = Vec::new();
    data.extend_from_slice(b"d8:announce40:http://tracker.example.com:6969/announce");
    data.extend_from_slice(b"7:comment4:test4:info");
    data.extend_from_slice(b"d6:lengthi1024e4:name8:test.txt12:piece lengthi16384e6:pieces20:");
    for b in 0u8..20 {
        data.push(b);
    }
    data.extend_from_slice(b"ee");
    data
}

fn build(data: &[u8]) -> Result<Torrent, TorrentError> {
    parse_torrent(data)
}

#[test]
fn parses_a_single_file_torrent() {
    let data = sample_torrent();
    let t = build(&data).unwrap();
    assert_eq!(t.announce, "http://tracker.example.com:6969/announce");
    assert_eq!(t.comment.as_deref(), Some("test"));
    assert_eq!(t.info.name, "test.txt");
    assert_eq!(t.info.piece_length, 16384);
    assert_eq!(t.info.length, Some(1024));
    assert!(t.info.files.is_none());
    assert_eq!(t.info.pieces.len(), 1);
}

#[test]
fn info_hash_matches_the_reference_digest() {
    let data = sample_torrent();
    let t = build(&data).unwrap();
    assert_eq!(t.info_hash, REFERENCE_INFO_HASH);
}

#[test]
fn info_hash_ignores_unrelated_key_order() {
    // same info bytes, top-level keys reordered
    let mut data = Vec::new();
    data.extend_from_slice(b"d7:comment4:test8:announce40:http://tracker.example.com:6969/announce4:info");
    data.extend_from_slice(b"d6:lengthi1024e4:name8:test.txt12:piece lengthi16384e6:pieces20:");
    for b in 0u8..20 {
        data.push(b);
    }
    data.extend_from_slice(b"ee");
    let t = build(&data).unwrap();
    assert_eq!(t.info_hash, REFERENCE_INFO_HASH);
}

#[test]
fn info_hash_changes_when_info_bytes_change() {
    let data = sample_torrent();
    let parser_data = data.clone();
    let mut parser = BencodeParser::new(&parser_data);
    let root = parser.parse().unwrap();
    let probe = BencodeParser::new(&parser_data);
    let start = probe.find_info_position(&root).unwrap();
    // flip one byte inside the info span (a pieces byte)
    let mut mutated = data.clone();
    let idx = start + 64; // within the pieces string
    mutated[idx] ^= 0xff;
    let t = build(&mutated).unwrap();
    assert_ne!(t.info_hash, REFERENCE_INFO_HASH);
}

#[test]
fn forty_piece_bytes_give_two_hashes() {
    let mut data = Vec::new();
    data.extend_from_slice(b"d8:announce1:a4:infod6:lengthi1e4:name1:n12:piece lengthi1e6:pieces40:");
    for b in 0u8..40 {
        data.push(b);
    }
    data.extend_from_slice(b"ee");
    let t = build(&data).unwrap();
    assert_eq!(t.info.pieces.len(), 2);
    assert_eq!(t.info.pieces[0], core::array::from_fn::<u8, 20, _>(|i| i as u8));
    assert_eq!(t.info.pieces[1], core::array::from_fn::<u8, 20, _>(|i| 20 + i as u8));
}

#[test]
fn forty_one_piece_bytes_are_rejected() {
    let mut data = Vec::new();
    data.extend_from_slice(b"d8:announce1:a4:infod6:lengthi1e4:name1:n12:piece lengthi1e6:pieces41:");
    for b in 0u8..41 {
        data.push(b);
    }
    data.extend_from_slice(b"ee");
    let err = build(&data).unwrap_err();
    assert_eq!(
        err,
        TorrentError::Validation(ValidationError::PieceLengthNotMultipleOf20)
    );
}

#[test]
fn both_length_and_files_are_rejected() {
    let data = b"d8:announce1:a4:infod6:lengthi1e5:filesld6:lengthi1e4:pathl1:aeee4:name1:n12:piece lengthi1e6:pieces0:ee";
    let err = build(data).unwrap_err();
    assert_eq!(
        err,
        TorrentError::Validation(ValidationError::BothOrNeitherLengthAndFiles)
    );
}

#[test]
fn neither_length_nor_files_is_rejected() {
    let data = b"d8:announce1:a4:infod4:name1:n12:piece lengthi1e6:pieces0:ee";
    let err = build(data).unwrap_err();
    assert_eq!(
        err,
        TorrentError::Validation(ValidationError::BothOrNeitherLengthAndFiles)
    );
}

#[test]
fn parses_a_multi_file_torrent() {
    let data = b"d8:announce1:a4:infod5:filesld6:lengthi5e4:pathl3:dir5:a.txteed6:lengthi7e4:pathl5:b.txteee4:name1:n12:piece lengthi1e6:pieces0:ee";
    let t = build(data).unwrap();
    let files = t.info.files.unwrap();
    assert_eq!(files.len(), 2);
    assert_eq!(files[0].length, 5);
    assert_eq!(files[0].path, vec!["dir".to_string(), "a.txt".to_string()]);
    assert_eq!(files[1].length, 7);
    assert_eq!(files[1].path, vec!["b.txt".to_string()]);
}

#[test]
fn dotdot_path_component_is_rejected() {
    let data = b"d8:announce1:a4:infod5:filesld6:lengthi5e4:pathl2:..5:a.txteee4:name1:n12:piece lengthi1e6:pieces0:ee";
    let err = build(data).unwrap_err();
    assert_eq!(err, TorrentError::Validation(ValidationError::PathEscapesRoot));
}

#[test]
fn empty_path_component_is_rejected() {
    let data = b"d8:announce1:a4:infod5:filesld6:lengthi5e4:pathl0:eee4:name1:n12:piece lengthi1e6:pieces0:ee";
    let err = build(data).unwrap_err();
    assert_eq!(err, TorrentError::Validation(ValidationError::WrongType(Field::Path)));
}

#[test]
fn missing_announce_is_reported() {
    let data = b"d4:infod6:lengthi1e4:name1:n12:piece lengthi1e6:pieces0:ee";
    let err = build(data).unwrap_err();
    assert_eq!(
        err,
        TorrentError::Validation(ValidationError::MissingField(Field::Announce))
    );
}

#[test]
fn missing_info_is_reported() {
    let data = b"d8:announce1:ae";
    let err = build(data).unwrap_err();
    assert_eq!(err, TorrentError::Validation(ValidationError::MissingField(Field::Info)));
}

#[test]
fn wrong_type_for_length_is_reported() {
    let data = b"d8:announce1:a4:infod6:length1:x4:name1:n12:piece lengthi1e6:pieces0:ee";
    let err = build(data).unwrap_err();
    assert_eq!(err, TorrentError::Validation(ValidationError::WrongType(Field::Length)));
}

#[test]
fn non_positive_piece_length_is_rejected() {
    let data = b"d8:announce1:a4:infod6:lengthi1e4:name1:n12:piece lengthi0e6:pieces0:ee";
    let err = build(data).unwrap_err();
    assert_eq!(
        err,
        TorrentError::Validation(ValidationError::WrongType(Field::PieceLength))
    );
}

#[test]
fn non_dict_root_is_rejected() {
    let err = build(b"i42e").unwrap_err();
    assert_eq!(err, TorrentError::Validation(ValidationError::WrongType(Field::Root)));
}

#[test]
fn parse_errors_flow_through() {
    let err = build(b"d8:announce").unwrap_err();
    assert!(matches!(err, TorrentError::Parse(_)));
}

#[test]
fn builds_are_deterministic() {
    let data = sample_torrent();
    let a = build(&data).unwrap();
    let b = build(&data).unwrap();
    assert_eq!(a.info_hash, b.info_hash);
    assert_eq!(a.announce, b.announce);
}

#[test]
fn non_utf8_announce_is_rejected() {
    let mut data = Vec::new();
    data.extend_from_slice(b"d8:announce2:");
    data.push(0xff);
    data.push(0xfe);
    data.extend_from_slice(b"4:infod6:lengthi1e4:name1:n12:piece lengthi1e6:pieces0:ee");
    let err = build(&data).unwrap_err();
    assert_eq!(
        err,
        TorrentError::Validation(ValidationError::WrongType(Field::Announce))
    );
}
