//! Records of the answer section.

use crate::error::CodecError;
use crate::name::CompressionTable;
use crate::name::push_name;
use crate::question::{decode_head, head_wire, parse_head};
use crate::rrtype::{QType, ResourceClass};
use crate::wire::{
    octets_at, push_octets, push_u16, push_u32, read_octets, read_u16, read_u32, u16_at,
    u16_octets, u32_at, u32_octets,
};
use vstd::prelude::*;
use vstd::slice::slice_to_vec;

verus! {

/// One record of the answer section.
#[derive(Clone, Debug, PartialEq, Eq)]
pub struct Answer {
    /// the labels of the domain name, leftmost first
    pub name: Vec<String>,
    pub tipe: QType,
    pub class: ResourceClass,
    /// seconds for which the record may be kept
    pub ttl: u32,
    /// the length that came with the record; the encoder writes the length
    /// of `rdata` and never this field
    pub rdlength: u16,
    /// the payload, not looked into
    pub rdata: Vec<u8>,
}

/// What an answer says: its fields, the name as sequences of characters.
pub struct AnswerView {
    pub name: Seq<Seq<char>>,
    pub tipe: QType,
    pub class: ResourceClass,
    pub ttl: u32,
    pub rdlength: u16,
    pub rdata: Seq<u8>,
}

impl View for Answer {
    type V = AnswerView;

    open spec fn view(&self) -> AnswerView {
        AnswerView {
            name: self.name.deep_view(),
            tipe: self.tipe,
            class: self.class,
            ttl: self.ttl,
            rdlength: self.rdlength,
            rdata: self.rdata@,
        }
    }
}

impl AnswerView {
    /// The record on the wire: name, type and class, the time to live, the
    /// length of the payload, the payload. The length written is that of
    /// `rdata`, modulo 65536, whatever `rdlength` holds.
    pub open spec fn wire(self) -> Seq<u8> {
        head_wire(self.name, self.tipe, self.class) + u32_octets(self.ttl) + u16_octets(
            (self.rdata.len() % 0x1_0000) as u16,
        ) + self.rdata
    }
}

/// The answer that starts at `pos`, the offset behind it and the table with
/// its name recorded; or the first failure met.
pub open spec fn decode_answer(bytes: Seq<u8>, pos: int, table: Map<int, Seq<Seq<char>>>) -> Result<
    (AnswerView, int, Map<int, Seq<Seq<char>>>),
    CodecError,
> {
    match decode_head(bytes, pos, table) {
        Err(e) => Err(e),
        Ok((head, behind_head, recorded)) => match u32_at(bytes, behind_head) {
            None => Err(CodecError::TruncatedInput),
            Some(ttl) => match u16_at(bytes, behind_head + 4) {
                None => Err(CodecError::TruncatedInput),
                Some(rdlength) => match octets_at(bytes, behind_head + 6, rdlength as int) {
                    None => Err(CodecError::TruncatedInput),
                    Some(rdata) => Ok(
                        (
                            AnswerView {
                                name: head.name,
                                tipe: head.tipe,
                                class: head.class,
                                ttl,
                                rdlength,
                                rdata,
                            },
                            behind_head + 6 + rdlength as int,
                            recorded,
                        ),
                    ),
                },
            },
        },
    }
}

impl Answer {
    /// Decodes the answer that starts at `parse_offset`, recording its name
    /// in `table`.
    pub fn parse(bites: &[u8], parse_offset: usize, table: &mut CompressionTable) -> (r: Result<
        (usize, Answer),
        CodecError,
    >)
        ensures
            match r {
                Ok((end, answer)) => decode_answer(bites@, parse_offset as int, old(table)@)
                    == Ok::<(AnswerView, int, Map<int, Seq<Seq<char>>>), CodecError>(
                    (answer@, end as int, final(table)@),
                ) && end <= bites@.len(),
                Err(e) => decode_answer(bites@, parse_offset as int, old(table)@) == Err::<
                    (AnswerView, int, Map<int, Seq<Seq<char>>>),
                    CodecError,
                >(e),
            },
    {
        let (behind_head, name, tipe, class) = match parse_head(bites, parse_offset, table) {
            Ok(found) => found,
            Err(e) => {
                return Err(e);
            },
        };
        assert(bites@.len() == bites.len());
        let ttl: u32 = match read_u32(bites, behind_head) {
            Some(ttl) => ttl,
            None => {
                return Err(CodecError::TruncatedInput);
            },
        };
        let rdlength: u16 = match read_u16(bites, behind_head + 4) {
            Some(rdlength) => rdlength,
            None => {
                return Err(CodecError::TruncatedInput);
            },
        };
        let rdata = match read_octets(bites, behind_head + 6, rdlength as usize) {
            Some(rdata) => rdata,
            None => {
                return Err(CodecError::TruncatedInput);
            },
        };
        Ok(
            (
                behind_head + 6 + rdlength as usize,
                Answer { name, tipe, class, ttl, rdlength, rdata: slice_to_vec(rdata) },
            ),
        )
    }

    /// Encodes the record. The length written is that of `rdata`; `rdlength`
    /// is not read.
    pub fn to_bytes(&self) -> (bites: Vec<u8>)
        ensures
            bites@ == self@.wire(),
    {
        let mut bites: Vec<u8> = Vec::new();
        push_name(&mut bites, &self.name);
        push_u16(&mut bites, self.tipe.value());
        push_u16(&mut bites, self.class.value());
        push_u32(&mut bites, self.ttl);
        push_u16(&mut bites, (self.rdata.len() % 0x1_0000) as u16);
        push_octets(&mut bites, self.rdata.as_slice());
        bites
    }
}

} // verus!
