//! The fixed twelve-octet header that opens every message.

use crate::error::CodecError;
use crate::wire::{be16, push_u16, read_u16, read_u8, u16_octets};
use vstd::prelude::*;

verus! {

/// The number of octets a header takes on the wire.
pub const HEADER_LEN: usize = 12;

/// The header of a message.
#[derive(Clone, Copy, Debug, PartialEq, Eq, Structural)]
pub struct Header {
    /// transaction id, chosen by whoever sent the query and echoed in the reply
    pub id: u16,
    /// query or response: false for a question, true for a reply
    pub qr: bool,
    /// the kind of query, four bits wide
    pub opcode: u8,
    /// authoritative answer: set if the responding server owns the domain name in question
    pub aa: bool,
    /// truncation: set if the message was larger than 512 bytes and was cut
    pub tc: bool,
    /// recursion desired: set if the client wants the server to resolve the query recursively
    pub rd: bool,
    /// recursion available: set by a server that supports recursion
    pub ra: bool,
    /// reserved, three bits wide
    pub z: u8,
    /// response code, four bits wide: 0 if no error
    pub rcode: u8,
    /// number of questions in the question section
    pub qdcount: u16,
    /// number of records in the answer section
    pub ancount: u16,
    /// number of records in the authority section
    pub nscount: u16,
    /// number of records in the additional section
    pub arcount: u16,
}

/// The first flag octet: `qr` in bit 7, `opcode` in bits 6 to 3, then `aa`,
/// `tc` and `rd` in bits 2, 1 and 0.
pub open spec fn pack_flags_hi(qr: bool, opcode: u8, aa: bool, tc: bool, rd: bool) -> u8 {
    (if qr { 0x80u8 } else { 0u8 }) | ((opcode << 3) & 0x78u8) | (if aa { 0x04u8 } else { 0u8 })
        | (if tc { 0x02u8 } else { 0u8 }) | (if rd { 0x01u8 } else { 0u8 })
}

/// The second flag octet: `ra` in bit 7, `z` in bits 6 to 4, `rcode` in bits
/// 3 to 0.
pub open spec fn pack_flags_lo(ra: bool, z: u8, rcode: u8) -> u8 {
    (if ra { 0x80u8 } else { 0u8 }) | ((z << 4) & 0x70u8) | (rcode & 0x0fu8)
}

impl Header {
    /// The first flag octet of this header.
    pub open spec fn flags_hi(self) -> u8 {
        pack_flags_hi(self.qr, self.opcode, self.aa, self.tc, self.rd)
    }

    /// The second flag octet of this header.
    pub open spec fn flags_lo(self) -> u8 {
        pack_flags_lo(self.ra, self.z, self.rcode)
    }

    /// The twelve octets of this header. A field wider than its place on the
    /// wire loses its high bits.
    pub open spec fn wire(self) -> Seq<u8> {
        u16_octets(self.id) + seq![self.flags_hi(), self.flags_lo()] + u16_octets(self.qdcount)
            + u16_octets(self.ancount) + u16_octets(self.nscount) + u16_octets(self.arcount)
    }

    /// The header spelled by an id, two flag octets and four counts.
    pub open spec fn from_fields(
        id: u16,
        hi: u8,
        lo: u8,
        qdcount: u16,
        ancount: u16,
        nscount: u16,
        arcount: u16,
    ) -> Header {
        Header {
            id,
            qr: hi & 0x80u8 == 0x80u8,
            opcode: (hi & 0x78u8) >> 3,
            aa: hi & 0x04u8 == 0x04u8,
            tc: hi & 0x02u8 == 0x02u8,
            rd: hi & 0x01u8 == 0x01u8,
            ra: lo & 0x80u8 == 0x80u8,
            z: (lo & 0x70u8) >> 4,
            rcode: lo & 0x0fu8,
            qdcount,
            ancount,
            nscount,
            arcount,
        }
    }

    /// The header that opens `bytes`, if there are twelve octets to read.
    pub open spec fn from_wire(bytes: Seq<u8>) -> Option<Header> {
        if bytes.len() < 12 {
            None
        } else {
            Some(
                Header::from_fields(
                    be16(bytes[0], bytes[1]),
                    bytes[2],
                    bytes[3],
                    be16(bytes[4], bytes[5]),
                    be16(bytes[6], bytes[7]),
                    be16(bytes[8], bytes[9]),
                    be16(bytes[10], bytes[11]),
                ),
            )
        }
    }

    /// Every field fits its place on the wire.
    pub open spec fn in_range(self) -> bool {
        self.opcode < 16 && self.z < 8 && self.rcode < 16
    }

    /// Writes the header as its twelve octets.
    pub fn to_bytes(&self) -> (bites: Vec<u8>)
        ensures
            bites@ == self.wire(),
            bites@.len() == 12,
    {
        let mut bites: Vec<u8> = Vec::new();
        push_u16(&mut bites, self.id);
        bites.push(
            (if self.qr { 0x80u8 } else { 0u8 }) | ((self.opcode << 3) & 0x78u8) | (if self.aa {
                0x04u8
            } else {
                0u8
            }) | (if self.tc { 0x02u8 } else { 0u8 }) | (if self.rd { 0x01u8 } else { 0u8 }),
        );
        bites.push(
            (if self.ra { 0x80u8 } else { 0u8 }) | ((self.z << 4) & 0x70u8) | (self.rcode & 0x0fu8),
        );
        push_u16(&mut bites, self.qdcount);
        push_u16(&mut bites, self.ancount);
        push_u16(&mut bites, self.nscount);
        push_u16(&mut bites, self.arcount);
        bites
    }

    /// Reads the header that opens a datagram. It fails, with
    /// `TruncatedInput`, exactly when fewer than twelve octets are there.
    pub fn parse(bites: &[u8]) -> (r: Result<Header, CodecError>)
        ensures
            r == match Header::from_wire(bites@) {
                Some(h) => Ok::<Header, CodecError>(h),
                None => Err(CodecError::TruncatedInput),
            },
            r matches Ok(h) ==> h.in_range(),
    {
        if bites.len() < HEADER_LEN {
            return Err(CodecError::TruncatedInput);
        }
        let id: u16 = match read_u16(bites, 0) {
            Some(v) => v,
            None => { return Err(CodecError::TruncatedInput); },
        };
        let sec_bite: u8 = match read_u8(bites, 2) {
            Some(v) => v,
            None => { return Err(CodecError::TruncatedInput); },
        };
        let third_bite: u8 = match read_u8(bites, 3) {
            Some(v) => v,
            None => { return Err(CodecError::TruncatedInput); },
        };
        let qdcount: u16 = match read_u16(bites, 4) {
            Some(v) => v,
            None => { return Err(CodecError::TruncatedInput); },
        };
        let ancount: u16 = match read_u16(bites, 6) {
            Some(v) => v,
            None => { return Err(CodecError::TruncatedInput); },
        };
        let nscount: u16 = match read_u16(bites, 8) {
            Some(v) => v,
            None => { return Err(CodecError::TruncatedInput); },
        };
        let arcount: u16 = match read_u16(bites, 10) {
            Some(v) => v,
            None => { return Err(CodecError::TruncatedInput); },
        };
        assert((sec_bite & 0x78u8) >> 3 < 16) by (bit_vector);
        assert((third_bite & 0x70u8) >> 4 < 8) by (bit_vector);
        assert(third_bite & 0x0fu8 < 16) by (bit_vector);
        Ok(
            Header {
                id,
                qr: sec_bite & 0x80u8 == 0x80u8,
                opcode: (sec_bite & 0x78u8) >> 3,
                aa: sec_bite & 0x04u8 == 0x04u8,
                tc: sec_bite & 0x02u8 == 0x02u8,
                rd: sec_bite & 0x01u8 == 0x01u8,
                ra: third_bite & 0x80u8 == 0x80u8,
                z: (third_bite & 0x70u8) >> 4,
                rcode: third_bite & 0x0fu8,
                qdcount,
                ancount,
                nscount,
                arcount,
            },
        )
    }
}

/// Taking two flag octets apart and packing the fields again gives back the
/// same two octets, whatever they were.
pub proof fn lemma_flag_octets_roundtrip(hi: u8, lo: u8)
    ensures
        pack_flags_hi(
            hi & 0x80u8 == 0x80u8,
            (hi & 0x78u8) >> 3,
            hi & 0x04u8 == 0x04u8,
            hi & 0x02u8 == 0x02u8,
            hi & 0x01u8 == 0x01u8,
        ) == hi,
        pack_flags_lo(lo & 0x80u8 == 0x80u8, (lo & 0x70u8) >> 4, lo & 0x0fu8) == lo,
{
    assert(pack_flags_hi(
        hi & 0x80u8 == 0x80u8,
        (hi & 0x78u8) >> 3,
        hi & 0x04u8 == 0x04u8,
        hi & 0x02u8 == 0x02u8,
        hi & 0x01u8 == 0x01u8,
    ) == hi) by (bit_vector);
    assert(pack_flags_lo(lo & 0x80u8 == 0x80u8, (lo & 0x70u8) >> 4, lo & 0x0fu8) == lo)
        by (bit_vector);
}

/// Packing flag fields and taking the octets apart gives back the flags and
/// the low bits of each number: four of `opcode`, three of `z`, four of
/// `rcode`.
pub proof fn lemma_flag_fields_roundtrip(
    qr: bool,
    opcode: u8,
    aa: bool,
    tc: bool,
    rd: bool,
    ra: bool,
    z: u8,
    rcode: u8,
)
    ensures
        ({
            let hi = pack_flags_hi(qr, opcode, aa, tc, rd);
            let lo = pack_flags_lo(ra, z, rcode);
            &&& (hi & 0x80u8 == 0x80u8) == qr
            &&& (hi & 0x78u8) >> 3 == opcode & 0x0fu8
            &&& (hi & 0x04u8 == 0x04u8) == aa
            &&& (hi & 0x02u8 == 0x02u8) == tc
            &&& (hi & 0x01u8 == 0x01u8) == rd
            &&& (lo & 0x80u8 == 0x80u8) == ra
            &&& (lo & 0x70u8) >> 4 == z & 0x07u8
            &&& lo & 0x0fu8 == rcode & 0x0fu8
        }),
        opcode < 16 ==> opcode & 0x0fu8 == opcode,
        z < 8 ==> z & 0x07u8 == z,
        rcode < 16 ==> rcode & 0x0fu8 == rcode,
{
    assert({
        let hi = pack_flags_hi(qr, opcode, aa, tc, rd);
        &&& (hi & 0x80u8 == 0x80u8) == qr
        &&& (hi & 0x78u8) >> 3 == opcode & 0x0fu8
        &&& (hi & 0x04u8 == 0x04u8) == aa
        &&& (hi & 0x02u8 == 0x02u8) == tc
        &&& (hi & 0x01u8 == 0x01u8) == rd
    }) by (bit_vector);
    assert({
        let lo = pack_flags_lo(ra, z, rcode);
        &&& (lo & 0x80u8 == 0x80u8) == ra
        &&& (lo & 0x70u8) >> 4 == z & 0x07u8
        &&& lo & 0x0fu8 == rcode & 0x0fu8
    }) by (bit_vector);
    assert(opcode < 16 ==> opcode & 0x0fu8 == opcode) by (bit_vector);
    assert(z < 8 ==> z & 0x07u8 == z) by (bit_vector);
    assert(rcode < 16 ==> rcode & 0x0fu8 == rcode) by (bit_vector);
}

/// Decoding twelve octets as a header and encoding the header gives back the
/// same twelve octets.
pub proof fn lemma_header_octets_roundtrip(bytes: Seq<u8>)
    requires
        bytes.len() >= 12,
    ensures
        Header::from_wire(bytes) is Some,
        Header::from_wire(bytes)->0.wire() == bytes.subrange(0, 12),
        Header::from_wire(bytes)->0.in_range(),
{
    let h = Header::from_wire(bytes)->0;
    lemma_flag_octets_roundtrip(bytes[2], bytes[3]);
    let hi = bytes[2];
    let lo = bytes[3];
    assert((hi & 0x78u8) >> 3 < 16) by (bit_vector);
    assert((lo & 0x70u8) >> 4 < 8) by (bit_vector);
    assert(lo & 0x0fu8 < 16) by (bit_vector);
}

/// Encoding a header whose fields fit their places and decoding the octets,
/// whatever follows them, gives back the header.
pub proof fn lemma_header_roundtrip(h: Header, rest: Seq<u8>)
    requires
        h.in_range(),
    ensures
        h.wire().len() == 12,
        Header::from_wire(h.wire() + rest) == Some(h),
{
    lemma_flag_fields_roundtrip(h.qr, h.opcode, h.aa, h.tc, h.rd, h.ra, h.z, h.rcode);
}

} // verus!
