//! Entries of the question section, and the fields that every record
//! starts with.

use crate::error::CodecError;
use crate::message::Message;
use crate::name::{decode_name, name_wire, push_name, CompressionTable};
use crate::rrtype::{QType, ResourceClass};
use crate::wire::{push_u16, read_u16, u16_at, u16_octets};
use vstd::prelude::*;

verus! {

/// One entry of the question section.
#[derive(Clone, Debug, PartialEq, Eq)]
pub struct Question {
    pub tipe: QType,
    pub class: ResourceClass,
    /// the labels of the domain name, leftmost first
    pub name: Vec<String>,
}

/// What a question says: its fields, the name as sequences of characters.
pub struct QuestionView {
    pub tipe: QType,
    pub class: ResourceClass,
    pub name: Seq<Seq<char>>,
}

impl View for Question {
    type V = QuestionView;

    open spec fn view(&self) -> QuestionView {
        QuestionView { tipe: self.tipe, class: self.class, name: self.name.deep_view() }
    }
}

/// The fields that open a question and an answer alike.
pub struct RecordHead {
    pub name: Seq<Seq<char>>,
    pub tipe: QType,
    pub class: ResourceClass,
}

/// A name, a type and a class on the wire.
pub open spec fn head_wire(name: Seq<Seq<char>>, tipe: QType, class: ResourceClass) -> Seq<u8> {
    name_wire(name) + u16_octets(tipe.wire_value()) + u16_octets(class.wire_value())
}

/// The name, type and class that start at `pos`, the offset behind them and
/// the table with the name recorded; or the first failure met: a name that
/// fails, octets that run out, a type or a class that is not known.
pub open spec fn decode_head(bytes: Seq<u8>, pos: int, table: Map<int, Seq<Seq<char>>>) -> Result<
    (RecordHead, int, Map<int, Seq<Seq<char>>>),
    CodecError,
> {
    match decode_name(bytes, pos, table) {
        Err(e) => Err(e),
        Ok((name, behind_name, recorded)) => match u16_at(bytes, behind_name) {
            None => Err(CodecError::TruncatedInput),
            Some(tipe_val) => match QType::from_wire(tipe_val) {
                None => Err(CodecError::UnknownType),
                Some(tipe) => match u16_at(bytes, behind_name + 2) {
                    None => Err(CodecError::TruncatedInput),
                    Some(class_val) => match ResourceClass::from_wire(class_val) {
                        None => Err(CodecError::UnknownClass),
                        Some(class) => Ok(
                            (RecordHead { name, tipe, class }, behind_name + 4, recorded),
                        ),
                    },
                },
            },
        },
    }
}

/// The question that starts at `pos`.
pub open spec fn decode_question(bytes: Seq<u8>, pos: int, table: Map<int, Seq<Seq<char>>>) -> Result<
    (QuestionView, int, Map<int, Seq<Seq<char>>>),
    CodecError,
> {
    match decode_head(bytes, pos, table) {
        Err(e) => Err(e),
        Ok((head, end, recorded)) => Ok(
            (QuestionView { tipe: head.tipe, class: head.class, name: head.name }, end, recorded),
        ),
    }
}

impl QuestionView {
    /// The question on the wire: the name in full, the type, the class.
    pub open spec fn wire(self) -> Seq<u8> {
        head_wire(self.name, self.tipe, self.class)
    }
}

/// Reads a name, a type and a class from `parse_offset` on.
pub fn parse_head(bites: &[u8], parse_offset: usize, table: &mut CompressionTable) -> (r: Result<
    (usize, Vec<String>, QType, ResourceClass),
    CodecError,
>)
    ensures
        match r {
            Ok((end, name, tipe, class)) => decode_head(bites@, parse_offset as int, old(table)@)
                == Ok::<(RecordHead, int, Map<int, Seq<Seq<char>>>), CodecError>(
                (RecordHead { name: name.deep_view(), tipe, class }, end as int, final(table)@),
            ) && end <= bites@.len(),
            Err(e) => decode_head(bites@, parse_offset as int, old(table)@) == Err::<
                (RecordHead, int, Map<int, Seq<Seq<char>>>),
                CodecError,
            >(e),
        },
{
    let (behind_name, name) = match Message::parse_label_seq(bites, parse_offset, table) {
        Ok(found) => found,
        Err(e) => {
            return Err(e);
        },
    };
    assert(bites@.len() == bites.len());
    let tipe_val: u16 = match read_u16(bites, behind_name) {
        Some(value) => value,
        None => {
            return Err(CodecError::TruncatedInput);
        },
    };
    let tipe = match QType::from_value(tipe_val) {
        Ok(t) => t,
        Err(e) => {
            return Err(e);
        },
    };
    let class_val: u16 = match read_u16(bites, behind_name + 2) {
        Some(value) => value,
        None => {
            return Err(CodecError::TruncatedInput);
        },
    };
    let class = match ResourceClass::from_value(class_val) {
        Ok(c) => c,
        Err(e) => {
            return Err(e);
        },
    };
    Ok((behind_name + 4, name, tipe, class))
}

impl Question {
    /// Decodes the question that starts at `parse_offset`, recording its
    /// name in `table`.
    pub fn parse(bites: &[u8], parse_offset: usize, table: &mut CompressionTable) -> (r: Result<
        (usize, Question),
        CodecError,
    >)
        ensures
            match r {
                Ok((end, question)) => decode_question(
                    bites@,
                    parse_offset as int,
                    old(table)@,
                ) == Ok::<(QuestionView, int, Map<int, Seq<Seq<char>>>), CodecError>(
                    (question@, end as int, final(table)@),
                ) && end <= bites@.len(),
                Err(e) => decode_question(bites@, parse_offset as int, old(table)@) == Err::<
                    (QuestionView, int, Map<int, Seq<Seq<char>>>),
                    CodecError,
                >(e),
            },
    {
        match parse_head(bites, parse_offset, table) {
            Ok((end, name, tipe, class)) => Ok((end, Question { tipe, class, name })),
            Err(e) => Err(e),
        }
    }

    /// Encodes the question: the name in full, the type, the class.
    pub fn to_bytes(&self) -> (bites: Vec<u8>)
        ensures
            bites@ == self@.wire(),
    {
        let mut bites: Vec<u8> = Vec::new();
        push_name(&mut bites, &self.name);
        push_u16(&mut bites, self.tipe.value());
        push_u16(&mut bites, self.class.value());
        bites
    }
}

} // verus!
