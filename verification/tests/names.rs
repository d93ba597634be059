use dns_forwarder::error::CodecError;
use dns_forwarder::message::Message;
use dns_forwarder::name::{copy_name, push_name, CompressionTable};

fn labels(parts: &[&str]) -> Vec<String> {
    parts.iter().map(|p| p.to_string()).collect()
}

#[test]
fn pointer_octets_have_both_high_bits() {
    assert!(!Message::is_compressed_label(0));
    assert!(!Message::is_compressed_label(63));
    assert!(!Message::is_compressed_label(0x40));
    assert!(!Message::is_compressed_label(0x80));
    assert!(!Message::is_compressed_label(0xBF));
    assert!(Message::is_compressed_label(0xC0));
    assert!(Message::is_compressed_label(0xC1));
    assert!(Message::is_compressed_label(0xFF));
}

#[test]
fn name_is_written_label_by_label() {
    let mut out = vec![0xEE];
    push_name(&mut out, &labels(&["codecrafters", "io"]));
    let mut expected = vec![0xEE, 12];
    expected.extend_from_slice(b"codecrafters");
    expected.push(2);
    expected.extend_from_slice(b"io");
    expected.push(0);
    assert_eq!(out, expected);
}

#[test]
fn empty_name_is_one_zero_octet() {
    let mut out = Vec::new();
    push_name(&mut out, &Vec::new());
    assert_eq!(out, vec![0]);
}

#[test]
fn label_length_counts_octets_not_characters() {
    let mut out = Vec::new();
    push_name(&mut out, &labels(&["\u{e9}t\u{e9}"]));
    assert_eq!(out, vec![5, 0xC3, 0xA9, b't', 0xC3, 0xA9, 0]);
}

#[test]
fn copy_name_copies_from_an_index() {
    let name = labels(&["mail", "example", "com"]);
    assert_eq!(copy_name(&name, 0), name);
    assert_eq!(copy_name(&name, 1), labels(&["example", "com"]));
    assert_eq!(copy_name(&name, 3), Vec::<String>::new());
    assert_eq!(copy_name(&name, 4), Vec::<String>::new());
    assert_eq!(copy_name(&name, usize::MAX), Vec::<String>::new());
}

#[test]
fn plain_name_is_read_and_recorded() {
    let mut bytes = vec![0xAA; 12];
    bytes.extend_from_slice(b"\x04mail\x07example\x03com\x00rest");
    let mut table = CompressionTable::new();
    let (end, name) = Message::parse_label_seq(&bytes, 12, &mut table).unwrap();
    assert_eq!(name, labels(&["mail", "example", "com"]));
    assert_eq!(end, 12 + 18);
    assert_eq!(table.lookup(12), Some(labels(&["mail", "example", "com"])));
    assert_eq!(table.lookup(17), Some(labels(&["example", "com"])));
    assert_eq!(table.lookup(25), Some(labels(&["com"])));
    assert_eq!(table.lookup(29), None);
    assert_eq!(table.lookup(13), None);
    assert_eq!(table.lookup(0), None);
    assert!(table.has(17));
    assert!(!table.has(18));
}

#[test]
fn root_name_is_empty_and_recorded() {
    let bytes = [0u8, 1, 2];
    let mut table = CompressionTable::new();
    let (end, name) = Message::parse_label_seq(&bytes, 0, &mut table).unwrap();
    assert!(name.is_empty());
    assert_eq!(end, 1);
    assert_eq!(table.lookup(0), Some(Vec::new()));
}

#[test]
fn pointer_ends_a_name_with_the_recorded_labels() {
    let mut bytes = Vec::new();
    bytes.extend_from_slice(b"\x07example\x03com\x00");
    let second = bytes.len();
    bytes.extend_from_slice(b"\x04mail\xC0\x00\x00\x01");
    let mut table = CompressionTable::new();
    let (end, first) = Message::parse_label_seq(&bytes, 0, &mut table).unwrap();
    assert_eq!(first, labels(&["example", "com"]));
    assert_eq!(end, second);
    let (end, name) = Message::parse_label_seq(&bytes, second, &mut table).unwrap();
    assert_eq!(name, labels(&["mail", "example", "com"]));
    assert_eq!(end, second + 7);
    assert_eq!(table.lookup(second), Some(labels(&["mail", "example", "com"])));
    assert_eq!(table.lookup(second + 5), None);
}

#[test]
fn pointer_to_any_label_gives_the_suffix() {
    let mut bytes = Vec::new();
    bytes.extend_from_slice(b"\x04mail\x07example\x03com\x00");
    let at = bytes.len();
    bytes.extend_from_slice(&[0xC0, 13]);
    let mut table = CompressionTable::new();
    Message::parse_label_seq(&bytes, 0, &mut table).unwrap();
    let (end, name) = Message::parse_label_seq(&bytes, at, &mut table).unwrap();
    assert_eq!(name, labels(&["com"]));
    assert_eq!(end, at + 2);
}

#[test]
fn pointer_to_a_name_that_was_a_pointer() {
    let mut bytes = Vec::new();
    bytes.extend_from_slice(b"\x03com\x00");
    bytes.extend_from_slice(&[0xC0, 0]);
    bytes.extend_from_slice(&[0xC0, 5]);
    let mut table = CompressionTable::new();
    Message::parse_label_seq(&bytes, 0, &mut table).unwrap();
    let (end, name) = Message::parse_label_seq(&bytes, 5, &mut table).unwrap();
    assert_eq!((end, name), (7, labels(&["com"])));
    let (end, name) = Message::parse_label_seq(&bytes, 7, &mut table).unwrap();
    assert_eq!((end, name), (9, labels(&["com"])));
}

#[test]
fn pointer_uses_fourteen_bits() {
    let mut bytes = vec![0u8; 0x1234];
    bytes.extend_from_slice(b"\x02io\x00");
    let at = bytes.len();
    bytes.extend_from_slice(&[0xC0 | 0x12, 0x34]);
    let mut table = CompressionTable::new();
    Message::parse_label_seq(&bytes, 0x1234, &mut table).unwrap();
    let (end, name) = Message::parse_label_seq(&bytes, at, &mut table).unwrap();
    assert_eq!((end, name), (at + 2, labels(&["io"])));
}

#[test]
fn pointer_to_nothing_recorded_dangles() {
    let mut bytes = Vec::new();
    bytes.extend_from_slice(b"\x04mail\x07example\x03com\x00");
    let at = bytes.len();
    // into the middle of a label
    bytes.extend_from_slice(&[0xC0, 6]);
    let mut table = CompressionTable::new();
    Message::parse_label_seq(&bytes, 0, &mut table).unwrap();
    assert_eq!(
        Message::parse_label_seq(&bytes, at, &mut table),
        Err(CodecError::DanglingPointer)
    );
    // to the closing zero octet of a name
    let mut other = bytes.clone();
    other[at + 1] = 17;
    let mut table = CompressionTable::new();
    Message::parse_label_seq(&other, 0, &mut table).unwrap();
    assert_eq!(
        Message::parse_label_seq(&other, at, &mut table),
        Err(CodecError::DanglingPointer)
    );
}

#[test]
fn pointer_beyond_the_datagram_dangles() {
    let bytes = [0xC0u8, 200, 0, 0];
    let mut table = CompressionTable::new();
    assert_eq!(Message::parse_label_seq(&bytes, 0, &mut table), Err(CodecError::DanglingPointer));
    let bytes = [0xFFu8, 0xFF];
    assert_eq!(Message::parse_label_seq(&bytes, 0, &mut table), Err(CodecError::DanglingPointer));
}

#[test]
fn pointer_forward_to_a_name_not_read_yet_dangles() {
    let mut bytes = Vec::new();
    bytes.extend_from_slice(&[0xC0, 2]);
    bytes.extend_from_slice(b"\x03com\x00");
    let mut table = CompressionTable::new();
    assert_eq!(Message::parse_label_seq(&bytes, 0, &mut table), Err(CodecError::DanglingPointer));
}

#[test]
fn pointer_to_a_label_of_the_name_being_read_dangles() {
    let bytes = b"\x03com\xC0\x00".to_vec();
    let mut table = CompressionTable::new();
    assert_eq!(Message::parse_label_seq(&bytes, 0, &mut table), Err(CodecError::DanglingPointer));
    assert_eq!(table.lookup(0), None);
}

#[test]
fn pointer_through_an_unread_pointer_to_a_recorded_name_dangles() {
    let mut bytes = Vec::new();
    bytes.extend_from_slice(b"\x03com\x00");
    bytes.extend_from_slice(&[0xC0, 7]);
    bytes.extend_from_slice(&[0xC0, 0]);
    let mut table = CompressionTable::new();
    Message::parse_label_seq(&bytes, 0, &mut table).unwrap();
    assert_eq!(Message::parse_label_seq(&bytes, 5, &mut table), Err(CodecError::DanglingPointer));
}

#[test]
fn pointer_to_itself_is_a_loop() {
    let bytes = [0u8, 0, 0xC0, 2];
    let mut table = CompressionTable::new();
    assert_eq!(Message::parse_label_seq(&bytes, 2, &mut table), Err(CodecError::CompressionLoop));
    assert_eq!(table.lookup(2), None);
}

#[test]
fn pointer_to_itself_behind_labels_is_a_loop() {
    let bytes = b"\x03www\xC0\x04".to_vec();
    let mut table = CompressionTable::new();
    assert_eq!(Message::parse_label_seq(&bytes, 0, &mut table), Err(CodecError::CompressionLoop));
    assert_eq!(table.lookup(0), None);
}

#[test]
fn two_pointers_at_each_other_are_a_loop() {
    let bytes = [0xC0u8, 2, 0xC0, 0];
    let mut table = CompressionTable::new();
    assert_eq!(Message::parse_label_seq(&bytes, 0, &mut table), Err(CodecError::CompressionLoop));
    assert_eq!(Message::parse_label_seq(&bytes, 2, &mut table), Err(CodecError::CompressionLoop));
}

#[test]
fn three_pointers_in_a_ring_are_a_loop() {
    let bytes = [0xC0u8, 4, 0xC0, 0, 0xC0, 2];
    let mut table = CompressionTable::new();
    for start in [0usize, 2, 4] {
        assert_eq!(
            Message::parse_label_seq(&bytes, start, &mut table),
            Err(CodecError::CompressionLoop)
        );
    }
}

#[test]
fn pointer_into_a_ring_is_a_loop() {
    let bytes = [0xC0u8, 2, 0xC0, 4, 0xC0, 2];
    let mut table = CompressionTable::new();
    assert_eq!(Message::parse_label_seq(&bytes, 0, &mut table), Err(CodecError::CompressionLoop));
}

#[test]
fn chain_of_unread_pointers_that_ends_dangles() {
    // 0 -> 2 -> 4 -> 6, and at 6 stands a label
    let bytes = [0xC0u8, 2, 0xC0, 4, 0xC0, 6, 1, b'a', 0];
    let mut table = CompressionTable::new();
    assert_eq!(Message::parse_label_seq(&bytes, 0, &mut table), Err(CodecError::DanglingPointer));
}

#[test]
fn name_cut_short_is_truncated() {
    let whole = b"\x04mail\x07example\x03com\x00".to_vec();
    for n in 0..whole.len() {
        let mut table = CompressionTable::new();
        assert_eq!(
            Message::parse_label_seq(&whole[..n], 0, &mut table),
            Err(CodecError::TruncatedInput)
        );
        assert_eq!(table.lookup(0), None);
    }
    let mut table = CompressionTable::new();
    assert_eq!(Message::parse_label_seq(&[0xC0], 0, &mut table), Err(CodecError::TruncatedInput));
}

#[test]
fn name_from_behind_the_end_is_truncated() {
    let bytes = [0u8];
    let mut table = CompressionTable::new();
    assert_eq!(Message::parse_label_seq(&bytes, 1, &mut table), Err(CodecError::TruncatedInput));
    assert_eq!(Message::parse_label_seq(&bytes, 2, &mut table), Err(CodecError::TruncatedInput));
    assert_eq!(
        Message::parse_label_seq(&bytes, usize::MAX, &mut table),
        Err(CodecError::TruncatedInput)
    );
}

#[test]
fn long_length_octet_is_a_label_length() {
    let mut bytes = vec![100u8];
    bytes.extend(std::iter::repeat(b'x').take(100));
    bytes.push(0);
    let mut table = CompressionTable::new();
    let (end, name) = Message::parse_label_seq(&bytes, 0, &mut table).unwrap();
    assert_eq!(end, 102);
    assert_eq!(name, vec!["x".repeat(100)]);
    let mut bytes = vec![191u8];
    bytes.extend(std::iter::repeat(b'y').take(191));
    bytes.push(0);
    let (end, name) = Message::parse_label_seq(&bytes, 0, &mut table).unwrap();
    assert_eq!(end, 193);
    assert_eq!(name, vec!["y".repeat(191)]);
}

#[test]
fn label_text_is_decoded_as_utf8() {
    let bytes = [5u8, 0xC3, 0xA9, b't', 0xC3, 0xA9, 0];
    let mut table = CompressionTable::new();
    let (_, name) = Message::parse_label_seq(&bytes, 0, &mut table).unwrap();
    assert_eq!(name, labels(&["\u{e9}t\u{e9}"]));
}

#[test]
fn label_with_bad_utf8_is_read_permissively() {
    let bytes = [3u8, b'a', 0xFF, b'b', 0];
    let mut table = CompressionTable::new();
    let (end, name) = Message::parse_label_seq(&bytes, 0, &mut table).unwrap();
    assert_eq!(end, 5);
    assert_eq!(name, labels(&["a\u{FFFD}b"]));
}

#[test]
fn case_is_kept() {
    let bytes = b"\x07ExAmPlE\x03CoM\x00".to_vec();
    let mut table = CompressionTable::new();
    let (_, name) = Message::parse_label_seq(&bytes, 0, &mut table).unwrap();
    assert_eq!(name, labels(&["ExAmPlE", "CoM"]));
}

#[test]
fn later_name_replaces_nothing_earlier() {
    let mut bytes = Vec::new();
    bytes.extend_from_slice(b"\x01a\x00");
    bytes.extend_from_slice(b"\x01b\xC0\x00");
    let mut table = CompressionTable::new();
    Message::parse_label_seq(&bytes, 0, &mut table).unwrap();
    Message::parse_label_seq(&bytes, 3, &mut table).unwrap();
    assert_eq!(table.lookup(0), Some(labels(&["a"])));
    assert_eq!(table.lookup(3), Some(labels(&["b", "a"])));
}

#[test]
fn table_record_and_lookup() {
    let mut table = CompressionTable::new();
    assert_eq!(table.lookup(5), None);
    table.record(5, labels(&["x"]));
    assert_eq!(table.lookup(5), Some(labels(&["x"])));
    table.record(5, labels(&["y", "z"]));
    assert_eq!(table.lookup(5), Some(labels(&["y", "z"])));
    assert!(table.has(5));
    assert!(!table.has(6));
}
