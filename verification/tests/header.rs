use dns_forwarder::error::CodecError;
use dns_forwarder::header::Header;
use dns_forwarder::rrtype::{QType, ResourceClass};
use dns_forwarder::wire::{push_octets, push_u16, push_u32, read_octets, read_u16, read_u32, read_u8};

fn plain_header() -> Header {
    Header {
        id: 0x1234,
        qr: false,
        opcode: 0,
        aa: false,
        tc: false,
        rd: true,
        ra: false,
        z: 0,
        rcode: 0,
        qdcount: 1,
        ancount: 0,
        nscount: 0,
        arcount: 0,
    }
}

#[test]
fn header_is_twelve_octets() {
    assert_eq!(plain_header().to_bytes(), vec![0x12, 0x34, 0x01, 0x00, 0, 1, 0, 0, 0, 0, 0, 0]);
}

#[test]
fn header_packs_every_flag_in_its_bit() {
    let h = Header {
        id: 0xBEEF,
        qr: true,
        opcode: 0b1010,
        aa: true,
        tc: false,
        rd: true,
        ra: true,
        z: 0b101,
        rcode: 0b0011,
        qdcount: 0x0102,
        ancount: 0x0304,
        nscount: 0x0506,
        arcount: 0x0708,
    };
    // 1 1010 1 0 1 = 0xD5, 1 101 0011 = 0xD3
    assert_eq!(h.to_bytes(), vec![0xBE, 0xEF, 0xD5, 0xD3, 1, 2, 3, 4, 5, 6, 7, 8]);
}

#[test]
fn header_single_flags() {
    let mut h = plain_header();
    h.rd = false;
    assert_eq!(h.to_bytes()[2], 0x00);
    h.qr = true;
    assert_eq!(h.to_bytes()[2], 0x80);
    h.qr = false;
    h.aa = true;
    assert_eq!(h.to_bytes()[2], 0x04);
    h.aa = false;
    h.tc = true;
    assert_eq!(h.to_bytes()[2], 0x02);
    h.tc = false;
    h.opcode = 1;
    assert_eq!(h.to_bytes()[2], 0x08);
    h.opcode = 0;
    h.ra = true;
    assert_eq!(h.to_bytes()[3], 0x80);
    h.ra = false;
    h.z = 1;
    assert_eq!(h.to_bytes()[3], 0x10);
    h.z = 0;
    h.rcode = 15;
    assert_eq!(h.to_bytes()[3], 0x0f);
}

#[test]
fn header_masks_wide_fields() {
    let mut h = plain_header();
    h.rd = false;
    h.opcode = 0xff;
    h.z = 0xff;
    h.rcode = 0xff;
    let bytes = h.to_bytes();
    assert_eq!(bytes[2], 0x78);
    assert_eq!(bytes[3], 0x7f);
    h.opcode = 16;
    h.z = 8;
    h.rcode = 16;
    let bytes = h.to_bytes();
    assert_eq!(bytes[2], 0x00);
    assert_eq!(bytes[3], 0x00);
}

#[test]
fn header_parse_reads_every_field() {
    let bytes = [0xBE, 0xEF, 0xD5, 0xD3, 1, 2, 3, 4, 5, 6, 7, 8, 0xAA];
    let h = Header::parse(&bytes).unwrap();
    assert_eq!(
        h,
        Header {
            id: 0xBEEF,
            qr: true,
            opcode: 0b1010,
            aa: true,
            tc: false,
            rd: true,
            ra: true,
            z: 0b101,
            rcode: 0b0011,
            qdcount: 0x0102,
            ancount: 0x0304,
            nscount: 0x0506,
            arcount: 0x0708,
        }
    );
}

#[test]
fn header_parse_needs_twelve_octets() {
    let bytes = plain_header().to_bytes();
    for n in 0..12 {
        assert_eq!(Header::parse(&bytes[..n]), Err(CodecError::TruncatedInput));
    }
    assert!(Header::parse(&bytes).is_ok());
}

#[test]
fn header_flag_octets_survive_decode_then_encode() {
    for hi in 0..=255u8 {
        for lo in 0..=255u8 {
            let bytes = [0x00, 0x01, hi, lo, 0, 0, 0, 0, 0, 0, 0, 0];
            let h = Header::parse(&bytes).unwrap();
            let back = h.to_bytes();
            assert_eq!(back[2], hi);
            assert_eq!(back[3], lo);
            assert_eq!(back, bytes.to_vec());
        }
    }
}

#[test]
fn header_fields_survive_encode_then_decode() {
    for opcode in 0..16u8 {
        for z in 0..8u8 {
            for rcode in 0..16u8 {
                for flags in 0..32u8 {
                    let h = Header {
                        id: 0xA55A,
                        qr: flags & 1 != 0,
                        opcode,
                        aa: flags & 2 != 0,
                        tc: flags & 4 != 0,
                        rd: flags & 8 != 0,
                        ra: flags & 16 != 0,
                        z,
                        rcode,
                        qdcount: 1,
                        ancount: 2,
                        nscount: 3,
                        arcount: 4,
                    };
                    assert_eq!(Header::parse(&h.to_bytes()), Ok(h));
                }
            }
        }
    }
}

#[test]
fn qtype_numbers() {
    let all = [
        (QType::A, 1u16),
        (QType::NS, 2),
        (QType::MD, 3),
        (QType::MF, 4),
        (QType::CNAME, 5),
        (QType::SOA, 6),
        (QType::MB, 7),
        (QType::MG, 8),
        (QType::MR, 9),
        (QType::NULL, 10),
        (QType::WKS, 11),
        (QType::PTR, 12),
        (QType::HINFO, 13),
        (QType::MINFO, 14),
        (QType::MX, 15),
        (QType::TXT, 16),
    ];
    for (t, v) in all {
        assert_eq!(t.value(), v);
        assert_eq!(QType::from_value(v), Ok(t));
    }
}

#[test]
fn qtype_outside_the_set_is_refused() {
    assert_eq!(QType::from_value(0), Err(CodecError::UnknownType));
    assert_eq!(QType::from_value(17), Err(CodecError::UnknownType));
    assert_eq!(QType::from_value(28), Err(CodecError::UnknownType));
    assert_eq!(QType::from_value(255), Err(CodecError::UnknownType));
    assert_eq!(QType::from_value(0xffff), Err(CodecError::UnknownType));
}

#[test]
fn class_numbers() {
    let all = [
        (ResourceClass::IN, 1u16),
        (ResourceClass::CS, 2),
        (ResourceClass::CH, 3),
        (ResourceClass::HS, 4),
    ];
    for (c, v) in all {
        assert_eq!(c.value(), v);
        assert_eq!(ResourceClass::from_value(v), Ok(c));
    }
}

#[test]
fn class_outside_the_set_is_refused() {
    assert_eq!(ResourceClass::from_value(0), Err(CodecError::UnknownClass));
    assert_eq!(ResourceClass::from_value(5), Err(CodecError::UnknownClass));
    assert_eq!(ResourceClass::from_value(255), Err(CodecError::UnknownClass));
    assert_eq!(ResourceClass::from_value(0xffff), Err(CodecError::UnknownClass));
}

#[test]
fn read_u8_takes_the_octet_at_the_offset() {
    let bytes = [10u8, 20, 30];
    assert_eq!(read_u8(&bytes, 0), Some(10));
    assert_eq!(read_u8(&bytes, 2), Some(30));
    assert_eq!(read_u8(&bytes, 3), None);
    assert_eq!(read_u8(&bytes, 4), None);
    assert_eq!(read_u8(&bytes, usize::MAX), None);
    assert_eq!(read_u8(&[], 0), None);
}

#[test]
fn read_u16_is_big_endian() {
    let bytes = [0x12u8, 0x34, 0x56];
    assert_eq!(read_u16(&bytes, 0), Some(0x1234));
    assert_eq!(read_u16(&bytes, 1), Some(0x3456));
    assert_eq!(read_u16(&bytes, 2), None);
    assert_eq!(read_u16(&bytes, 3), None);
    assert_eq!(read_u16(&bytes, 9), None);
    assert_eq!(read_u16(&[0xff, 0xff], 0), Some(0xffff));
}

#[test]
fn read_u32_is_big_endian() {
    let bytes = [0x12u8, 0x34, 0x56, 0x78, 0x9a];
    assert_eq!(read_u32(&bytes, 0), Some(0x12345678));
    assert_eq!(read_u32(&bytes, 1), Some(0x3456789a));
    assert_eq!(read_u32(&bytes, 2), None);
    assert_eq!(read_u32(&bytes, 5), None);
    assert_eq!(read_u32(&[0xff, 0xff, 0xff, 0xff], 0), Some(0xffff_ffff));
}

#[test]
fn read_octets_takes_a_run() {
    let bytes = [1u8, 2, 3, 4, 5];
    assert_eq!(read_octets(&bytes, 1, 3), Some(&bytes[1..4]));
    assert_eq!(read_octets(&bytes, 0, 5), Some(&bytes[..]));
    assert_eq!(read_octets(&bytes, 5, 0), Some(&bytes[5..]));
    assert_eq!(read_octets(&bytes, 2, 0), Some(&bytes[2..2]));
    assert_eq!(read_octets(&bytes, 3, 3), None);
    assert_eq!(read_octets(&bytes, 6, 0), None);
    assert_eq!(read_octets(&bytes, 0, usize::MAX), None);
}

#[test]
fn push_writes_most_significant_first() {
    let mut out = vec![9u8];
    push_u16(&mut out, 0x0102);
    push_u32(&mut out, 0x03040506);
    push_octets(&mut out, &[7, 8]);
    push_u16(&mut out, 0xffff);
    push_u32(&mut out, 0);
    assert_eq!(out, vec![9, 1, 2, 3, 4, 5, 6, 7, 8, 0xff, 0xff, 0, 0, 0, 0]);
}
