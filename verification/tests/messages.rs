use dns_forwarder::answer::Answer;
use dns_forwarder::error::CodecError;
use dns_forwarder::header::Header;
use dns_forwarder::message::{encode_parts, Message};
use dns_forwarder::name::CompressionTable;
use dns_forwarder::question::{parse_head, Question};
use dns_forwarder::rrtype::{QType, ResourceClass};

fn name_of(parts: &[&str]) -> Vec<String> {
    parts.iter().map(|p| p.to_string()).collect()
}

fn header_with(id: u16, qdcount: u16, ancount: u16) -> Header {
    Header {
        id,
        qr: false,
        opcode: 0,
        aa: false,
        tc: false,
        rd: true,
        ra: false,
        z: 0,
        rcode: 0,
        qdcount,
        ancount,
        nscount: 0,
        arcount: 0,
    }
}

fn question_of(parts: &[&str], tipe: QType) -> Question {
    Question { tipe, class: ResourceClass::IN, name: name_of(parts) }
}

fn answer_of(parts: &[&str], rdata: &[u8]) -> Answer {
    Answer {
        name: name_of(parts),
        tipe: QType::A,
        class: ResourceClass::IN,
        ttl: 60,
        rdlength: rdata.len() as u16,
        rdata: rdata.to_vec(),
    }
}

fn sample_message() -> Message {
    Message {
        header: Header { qr: true, ra: true, ..header_with(0xCAFE, 2, 3) },
        questions: vec![
            question_of(&["mail", "example", "com"], QType::MX),
            question_of(&["x"], QType::TXT),
        ],
        answers: vec![
            answer_of(&["mail", "example", "com"], &[10, 0, 0, 1]),
            Answer {
                name: name_of(&["x"]),
                tipe: QType::TXT,
                class: ResourceClass::CH,
                ttl: 0xDEADBEEF,
                rdlength: 0,
                rdata: vec![],
            },
            Answer {
                name: vec![],
                tipe: QType::NULL,
                class: ResourceClass::HS,
                ttl: 0,
                rdlength: 300,
                rdata: (0..300u32).map(|i| (i % 251) as u8).collect(),
            },
        ],
    }
}

#[test]
fn question_bytes_are_name_type_class() {
    let q = question_of(&["codecrafters", "io"], QType::A);
    let mut expected = Vec::new();
    expected.extend_from_slice(b"\x0ccodecrafters\x02io\x00");
    expected.extend_from_slice(&[0, 1, 0, 1]);
    assert_eq!(q.to_bytes(), expected);
    let q = Question { tipe: QType::TXT, class: ResourceClass::HS, name: vec![] };
    assert_eq!(q.to_bytes(), vec![0, 0, 16, 0, 4]);
}

#[test]
fn answer_bytes_are_head_ttl_length_payload() {
    let a = Answer {
        name: name_of(&["a", "bc"]),
        tipe: QType::CNAME,
        class: ResourceClass::CS,
        ttl: 0x01020304,
        rdlength: 3,
        rdata: vec![7, 8, 9],
    };
    assert_eq!(
        a.to_bytes(),
        vec![1, b'a', 2, b'b', b'c', 0, 0, 5, 0, 2, 1, 2, 3, 4, 0, 3, 7, 8, 9]
    );
}

#[test]
fn answer_length_is_taken_from_the_payload() {
    let mut a = answer_of(&["a"], &[1, 2, 3, 4]);
    a.rdlength = 9999;
    let bytes = a.to_bytes();
    assert_eq!(&bytes[bytes.len() - 6..], &[0, 4, 1, 2, 3, 4]);
    a.rdlength = 0;
    assert_eq!(a.to_bytes(), bytes);
    a.rdata = vec![0x5A; 0x0123];
    let bytes = a.to_bytes();
    assert_eq!(&bytes[11..13], &[0x01, 0x23]);
    assert_eq!(bytes.len(), 13 + 0x0123);
}

#[test]
fn message_counts_are_taken_from_the_sections() {
    let mut m = sample_message();
    m.header.qdcount = 77;
    m.header.ancount = 0;
    m.header.nscount = 5;
    m.header.arcount = 6;
    let bytes = m.to_bytes();
    assert_eq!(&bytes[4..12], &[0, 2, 0, 3, 0, 0, 0, 0]);
    let (_, back) = Message::parse(&bytes).unwrap();
    assert_eq!(back.header.qdcount, 2);
    assert_eq!(back.header.ancount, 3);
    assert_eq!(back.header.nscount, 0);
    assert_eq!(back.header.arcount, 0);
    assert_eq!(back.questions, m.questions);
    assert_eq!(back.answers.len(), 3);
}

#[test]
fn message_bytes_are_header_questions_answers() {
    let m = Message {
        header: header_with(0x0102, 1, 1),
        questions: vec![question_of(&["a"], QType::A)],
        answers: vec![answer_of(&["a"], &[127, 0, 0, 1])],
    };
    let mut expected = m.header.to_bytes();
    expected.extend(m.questions[0].to_bytes());
    expected.extend(m.answers[0].to_bytes());
    assert_eq!(m.to_bytes(), expected);
    assert_eq!(encode_parts(&m.header, &m.questions, &m.answers), expected);
    assert_eq!(
        expected,
        vec![
            1, 2, 1, 0, 0, 1, 0, 1, 0, 0, 0, 0, // header
            1, b'a', 0, 0, 1, 0, 1, // question
            1, b'a', 0, 0, 1, 0, 1, 0, 0, 0, 60, 0, 4, 127, 0, 0, 1, // answer
        ]
    );
}

#[test]
fn decode_of_encode_is_the_message() {
    let mut m = sample_message();
    m.answers[2].rdlength = 300;
    let bytes = m.to_bytes();
    let (rest, back) = Message::parse(&bytes).unwrap();
    assert!(rest.is_empty());
    assert_eq!(back, m);
    assert_eq!(back.to_bytes(), bytes);
}

#[test]
fn decode_of_encode_for_an_empty_message() {
    let m = Message { header: header_with(1, 0, 0), questions: vec![], answers: vec![] };
    let bytes = m.to_bytes();
    assert_eq!(bytes.len(), 12);
    assert_eq!(Message::parse(&bytes), Ok((&[][..], m)));
}

#[test]
fn decode_of_encode_with_longest_labels() {
    let m = Message {
        header: header_with(9, 1, 0),
        questions: vec![Question {
            tipe: QType::PTR,
            class: ResourceClass::IN,
            name: vec!["a".repeat(63), "b".to_string(), "\u{20AC}".repeat(21)],
        }],
        answers: vec![],
    };
    let bytes = m.to_bytes();
    assert_eq!(bytes[12], 63);
    let (rest, back) = Message::parse(&bytes).unwrap();
    assert!(rest.is_empty());
    assert_eq!(back, m);
}

#[test]
fn octets_behind_the_message_come_back() {
    let m = sample_message();
    let mut bytes = m.to_bytes();
    let used = bytes.len();
    bytes.extend_from_slice(&[1, 2, 3]);
    let (rest, back) = Message::parse(&bytes).unwrap();
    assert_eq!(rest, &[1, 2, 3]);
    assert_eq!(back.questions, m.questions);
    assert_eq!(bytes.len() - rest.len(), used);
    let mut padded = Message { header: header_with(3, 1, 0), questions: vec![question_of(&["q"], QType::A)], answers: vec![] }
        .to_bytes();
    padded.resize(512, 0);
    let (rest, back) = Message::parse(&padded).unwrap();
    assert_eq!(rest.len(), 512 - 19);
    assert_eq!(back.questions.len(), 1);
}

#[test]
fn every_cut_of_a_message_is_truncated() {
    let mut m = sample_message();
    m.answers[2].rdlength = 300;
    let bytes = m.to_bytes();
    for n in 0..bytes.len() {
        assert_eq!(Message::parse(&bytes[..n]), Err(CodecError::TruncatedInput), "cut at {}", n);
    }
    assert!(Message::parse(&bytes).is_ok());
}

#[test]
fn every_cut_of_a_query_is_truncated() {
    let m = Message {
        header: header_with(0x4242, 1, 0),
        questions: vec![question_of(&["codecrafters", "io"], QType::A)],
        answers: vec![],
    };
    let bytes = m.to_bytes();
    for n in 0..bytes.len() {
        assert_eq!(Message::parse(&bytes[..n]), Err(CodecError::TruncatedInput));
    }
}

#[test]
fn second_name_as_pointer_into_the_first() {
    let mut bytes = header_with(0x0A0B, 2, 0).to_bytes();
    bytes.extend_from_slice(b"\x04mail\x07example\x03com\x00");
    bytes.extend_from_slice(&[0, 1, 0, 1]);
    // "example.com" starts at 12 + 5
    bytes.extend_from_slice(&[0xC0, 17]);
    bytes.extend_from_slice(&[0, 15, 0, 1]);
    let (rest, m) = Message::parse(&bytes).unwrap();
    assert!(rest.is_empty());
    assert_eq!(m.questions.len(), 2);
    assert_eq!(m.questions[0].name, name_of(&["mail", "example", "com"]));
    assert_eq!(m.questions[1].name, name_of(&["example", "com"]));
    assert_eq!(m.questions[1].tipe, QType::MX);

    // the same two questions written in full decode to the same names
    let plain = Message {
        header: header_with(0x0A0B, 2, 0),
        questions: vec![
            question_of(&["mail", "example", "com"], QType::A),
            question_of(&["example", "com"], QType::MX),
        ],
        answers: vec![],
    };
    assert_eq!(m, plain);
    let (_, reread) = Message::parse(&plain.to_bytes()).unwrap();
    assert_eq!(reread, m);
}

#[test]
fn answer_name_as_pointer_to_the_question() {
    let mut bytes = Header { qr: true, ..header_with(5, 1, 2) }.to_bytes();
    bytes.extend_from_slice(b"\x0ccodecrafters\x02io\x00");
    bytes.extend_from_slice(&[0, 1, 0, 1]);
    bytes.extend_from_slice(&[0xC0, 12, 0, 1, 0, 1, 0, 0, 0, 60, 0, 4, 8, 8, 8, 8]);
    bytes.extend_from_slice(b"\x03www");
    bytes.extend_from_slice(&[0xC0, 12, 0, 5, 0, 1, 0, 0, 1, 0, 0, 2, 0xC0, 12]);
    let (rest, m) = Message::parse(&bytes).unwrap();
    assert!(rest.is_empty());
    assert_eq!(m.answers.len(), 2);
    assert_eq!(m.answers[0].name, name_of(&["codecrafters", "io"]));
    assert_eq!(m.answers[0].rdata, vec![8, 8, 8, 8]);
    assert_eq!(m.answers[0].rdlength, 4);
    assert_eq!(m.answers[0].ttl, 60);
    assert_eq!(m.answers[1].name, name_of(&["www", "codecrafters", "io"]));
    assert_eq!(m.answers[1].tipe, QType::CNAME);
    assert_eq!(m.answers[1].ttl, 256);
    assert_eq!(m.answers[1].rdata, vec![0xC0, 12]);
    // encoding writes every name in full
    let again = m.to_bytes();
    assert!(again.len() > bytes.len());
    let (_, back) = Message::parse(&again).unwrap();
    assert_eq!(back, m);
}

#[test]
fn pointer_to_itself_in_a_question_is_a_loop() {
    let mut bytes = header_with(1, 1, 0).to_bytes();
    bytes.extend_from_slice(&[0xC0, 12, 0, 1, 0, 1]);
    assert_eq!(Message::parse(&bytes), Err(CodecError::CompressionLoop));
}

#[test]
fn pointer_to_a_later_pointer_that_points_back_is_a_loop() {
    let mut bytes = header_with(1, 2, 0).to_bytes();
    bytes.extend_from_slice(&[0xC0, 18, 0, 1, 0, 1]);
    bytes.extend_from_slice(&[0xC0, 12, 0, 1, 0, 1]);
    assert_eq!(Message::parse(&bytes), Err(CodecError::CompressionLoop));
}

#[test]
fn pointer_into_the_header_dangles() {
    let mut bytes = header_with(1, 1, 0).to_bytes();
    bytes.extend_from_slice(&[0xC0, 0, 0, 1, 0, 1]);
    assert_eq!(Message::parse(&bytes), Err(CodecError::DanglingPointer));
    let mut bytes = header_with(1, 1, 0).to_bytes();
    bytes.extend_from_slice(&[0xC0, 4, 0, 1, 0, 1]);
    assert_eq!(Message::parse(&bytes), Err(CodecError::DanglingPointer));
}

#[test]
fn pointer_forward_into_unread_octets_dangles() {
    let mut bytes = header_with(1, 2, 0).to_bytes();
    bytes.extend_from_slice(&[0xC0, 18, 0, 1, 0, 1]);
    bytes.extend_from_slice(b"\x03com\x00");
    bytes.extend_from_slice(&[0, 1, 0, 1]);
    assert_eq!(Message::parse(&bytes), Err(CodecError::DanglingPointer));
}

#[test]
fn table_starts_empty_for_each_datagram() {
    let mut first = header_with(1, 1, 0).to_bytes();
    first.extend_from_slice(b"\x03com\x00");
    first.extend_from_slice(&[0, 1, 0, 1]);
    assert!(Message::parse(&first).is_ok());
    let mut second = header_with(2, 1, 0).to_bytes();
    second.extend_from_slice(&[0xC0, 12, 0, 1, 0, 1]);
    assert_eq!(Message::parse(&second), Err(CodecError::CompressionLoop));
    let mut third = header_with(3, 1, 0).to_bytes();
    third.extend_from_slice(&[0xC0, 16, 0, 1, 0, 1]);
    assert_eq!(Message::parse(&third), Err(CodecError::DanglingPointer));
}

#[test]
fn unknown_type_is_refused() {
    let mut bytes = header_with(1, 1, 0).to_bytes();
    bytes.extend_from_slice(b"\x03com\x00");
    bytes.extend_from_slice(&[0, 28, 0, 1]);
    assert_eq!(Message::parse(&bytes), Err(CodecError::UnknownType));
    let n = bytes.len();
    bytes[n - 4..].copy_from_slice(&[0, 0, 0, 1]);
    assert_eq!(Message::parse(&bytes), Err(CodecError::UnknownType));
    // the type is looked at before the class is read
    assert_eq!(Message::parse(&bytes[..n - 2]), Err(CodecError::UnknownType));
}

#[test]
fn unknown_class_is_refused() {
    let mut bytes = header_with(1, 1, 0).to_bytes();
    bytes.extend_from_slice(b"\x03com\x00");
    bytes.extend_from_slice(&[0, 1, 0, 5]);
    assert_eq!(Message::parse(&bytes), Err(CodecError::UnknownClass));
    let n = bytes.len();
    bytes[n - 2..].copy_from_slice(&[0, 255]);
    assert_eq!(Message::parse(&bytes), Err(CodecError::UnknownClass));
}

#[test]
fn unknown_type_in_an_answer_is_refused() {
    let mut bytes = Header { qr: true, ..header_with(1, 0, 1) }.to_bytes();
    bytes.extend_from_slice(b"\x03com\x00");
    bytes.extend_from_slice(&[0, 41, 0, 1, 0, 0, 0, 0, 0, 0]);
    assert_eq!(Message::parse(&bytes), Err(CodecError::UnknownType));
    let mut bytes = Header { qr: true, ..header_with(1, 0, 1) }.to_bytes();
    bytes.extend_from_slice(b"\x03com\x00");
    bytes.extend_from_slice(&[0, 1, 1, 0, 0, 0, 0, 0, 0, 0]);
    assert_eq!(Message::parse(&bytes), Err(CodecError::UnknownClass));
}

#[test]
fn answer_payload_shorter_than_announced_is_truncated() {
    let mut bytes = Header { qr: true, ..header_with(1, 0, 1) }.to_bytes();
    bytes.extend_from_slice(b"\x03com\x00");
    bytes.extend_from_slice(&[0, 1, 0, 1, 0, 0, 0, 60, 0, 5, 1, 2, 3, 4]);
    assert_eq!(Message::parse(&bytes), Err(CodecError::TruncatedInput));
    bytes.push(5);
    let (rest, m) = Message::parse(&bytes).unwrap();
    assert!(rest.is_empty());
    assert_eq!(m.answers[0].rdata, vec![1, 2, 3, 4, 5]);
    assert_eq!(m.answers[0].rdlength, 5);
}

#[test]
fn counts_beyond_the_octets_are_truncated() {
    let mut bytes = header_with(1, 2, 0).to_bytes();
    bytes.extend_from_slice(b"\x03com\x00");
    bytes.extend_from_slice(&[0, 1, 0, 1]);
    assert_eq!(Message::parse(&bytes), Err(CodecError::TruncatedInput));
    let mut bytes = header_with(1, 1, 1).to_bytes();
    bytes.extend_from_slice(b"\x03com\x00");
    bytes.extend_from_slice(&[0, 1, 0, 1]);
    assert_eq!(Message::parse(&bytes), Err(CodecError::TruncatedInput));
    let bytes = header_with(1, 0xffff, 0xffff).to_bytes();
    assert_eq!(Message::parse(&bytes), Err(CodecError::TruncatedInput));
}

#[test]
fn first_failure_in_reading_order_wins() {
    // a dangling pointer in the first question, an unknown type in the second
    let mut bytes = header_with(1, 2, 0).to_bytes();
    bytes.extend_from_slice(&[0xC0, 0, 0, 1, 0, 1]);
    bytes.extend_from_slice(b"\x03com\x00");
    bytes.extend_from_slice(&[0, 99, 0, 1]);
    assert_eq!(Message::parse(&bytes), Err(CodecError::DanglingPointer));
    // an unknown class in the question, a loop in the answer
    let mut bytes = header_with(1, 1, 1).to_bytes();
    bytes.extend_from_slice(b"\x03com\x00");
    bytes.extend_from_slice(&[0, 1, 0, 9]);
    bytes.extend_from_slice(&[0xC0, 21]);
    assert_eq!(Message::parse(&bytes), Err(CodecError::UnknownClass));
}

#[test]
fn authority_and_additional_counts_are_read_but_not_followed() {
    let mut h = header_with(1, 1, 0);
    h.nscount = 2;
    h.arcount = 1;
    let mut bytes = h.to_bytes();
    bytes.extend_from_slice(b"\x03com\x00");
    bytes.extend_from_slice(&[0, 1, 0, 1]);
    bytes.extend_from_slice(&[0, 0, 41, 16, 0, 0, 0, 0, 0, 0, 0]);
    let (rest, m) = Message::parse(&bytes).unwrap();
    assert_eq!(m.header.nscount, 2);
    assert_eq!(m.header.arcount, 1);
    assert_eq!(rest.len(), 11);
    let out = m.to_bytes();
    assert_eq!(&out[8..12], &[0, 0, 0, 0]);
    assert_eq!(out.len(), 21);
}

#[test]
fn question_parse_from_an_offset() {
    let mut bytes = vec![0xEE; 3];
    bytes.extend_from_slice(b"\x02io\x00");
    bytes.extend_from_slice(&[0, 16, 0, 3, 0xDD]);
    let mut table = CompressionTable::new();
    let (end, q) = Question::parse(&bytes, 3, &mut table).unwrap();
    assert_eq!(end, 11);
    assert_eq!(q, Question { tipe: QType::TXT, class: ResourceClass::CH, name: name_of(&["io"]) });
    assert_eq!(table.lookup(3), Some(name_of(&["io"])));
    let mut table = CompressionTable::new();
    let (end, name, tipe, class) = parse_head(&bytes, 3, &mut table).unwrap();
    assert_eq!((end, name, tipe, class), (11, name_of(&["io"]), QType::TXT, ResourceClass::CH));
}

#[test]
fn answer_parse_from_an_offset() {
    let mut bytes = vec![0xEE; 2];
    bytes.extend_from_slice(b"\x02io\x00");
    bytes.extend_from_slice(&[0, 1, 0, 1, 0x12, 0x34, 0x56, 0x78, 0, 2, 0xAB, 0xCD, 0xFF]);
    let mut table = CompressionTable::new();
    let (end, a) = Answer::parse(&bytes, 2, &mut table).unwrap();
    assert_eq!(end, bytes.len() - 1);
    assert_eq!(
        a,
        Answer {
            name: name_of(&["io"]),
            tipe: QType::A,
            class: ResourceClass::IN,
            ttl: 0x12345678,
            rdlength: 2,
            rdata: vec![0xAB, 0xCD],
        }
    );
    let mut table = CompressionTable::new();
    assert_eq!(
        Answer::parse(&bytes[..bytes.len() - 2], 2, &mut table),
        Err(CodecError::TruncatedInput)
    );
}
