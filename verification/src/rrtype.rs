//! The closed sets of record types and record classes.

use crate::error::CodecError;
use vstd::prelude::*;

verus! {

/// The type of a resource record.
#[derive(Clone, Copy, Debug, PartialEq, Eq, Structural)]
pub enum QType {
    /// A host address
    A,
    /// An authoritative name server
    NS,
    /// A mail destination
    MD,
    /// A mail forwarder
    MF,
    /// The canonical name for an alias
    CNAME,
    /// Marks the start of a zone of authority
    SOA,
    /// A mailbox domain name
    MB,
    /// A mail group member
    MG,
    /// A mail rename domain name
    MR,
    /// A null resource record
    NULL,
    /// A well known service description
    WKS,
    /// A domain name pointer
    PTR,
    /// Host information
    HINFO,
    /// Mailbox or mail list information
    MINFO,
    /// Mail exchange
    MX,
    /// Text strings
    TXT,
}

impl QType {
    /// The number that stands for this type on the wire.
    pub open spec fn wire_value(self) -> u16 {
        match self {
            QType::A => 1,
            QType::NS => 2,
            QType::MD => 3,
            QType::MF => 4,
            QType::CNAME => 5,
            QType::SOA => 6,
            QType::MB => 7,
            QType::MG => 8,
            QType::MR => 9,
            QType::NULL => 10,
            QType::WKS => 11,
            QType::PTR => 12,
            QType::HINFO => 13,
            QType::MINFO => 14,
            QType::MX => 15,
            QType::TXT => 16,
        }
    }

    /// The type that a wire number stands for, if it stands for one.
    pub open spec fn from_wire(value: u16) -> Option<QType> {
        if value == 1 {
            Some(QType::A)
        } else if value == 2 {
            Some(QType::NS)
        } else if value == 3 {
            Some(QType::MD)
        } else if value == 4 {
            Some(QType::MF)
        } else if value == 5 {
            Some(QType::CNAME)
        } else if value == 6 {
            Some(QType::SOA)
        } else if value == 7 {
            Some(QType::MB)
        } else if value == 8 {
            Some(QType::MG)
        } else if value == 9 {
            Some(QType::MR)
        } else if value == 10 {
            Some(QType::NULL)
        } else if value == 11 {
            Some(QType::WKS)
        } else if value == 12 {
            Some(QType::PTR)
        } else if value == 13 {
            Some(QType::HINFO)
        } else if value == 14 {
            Some(QType::MINFO)
        } else if value == 15 {
            Some(QType::MX)
        } else if value == 16 {
            Some(QType::TXT)
        } else {
            None
        }
    }

    /// The number that stands for this type on the wire.
    pub fn value(&self) -> (v: u16)
        ensures
            v == self.wire_value(),
    {
        match self {
            QType::A => 1,
            QType::NS => 2,
            QType::MD => 3,
            QType::MF => 4,
            QType::CNAME => 5,
            QType::SOA => 6,
            QType::MB => 7,
            QType::MG => 8,
            QType::MR => 9,
            QType::NULL => 10,
            QType::WKS => 11,
            QType::PTR => 12,
            QType::HINFO => 13,
            QType::MINFO => 14,
            QType::MX => 15,
            QType::TXT => 16,
        }
    }

    /// Reads a wire number as a type; a number outside 1..=16 is refused.
    pub fn from_value(value: u16) -> (r: Result<QType, CodecError>)
        ensures
            r == match QType::from_wire(value) {
                Some(t) => Ok::<QType, CodecError>(t),
                None => Err(CodecError::UnknownType),
            },
    {
        match value {
            1 => Ok(QType::A),
            2 => Ok(QType::NS),
            3 => Ok(QType::MD),
            4 => Ok(QType::MF),
            5 => Ok(QType::CNAME),
            6 => Ok(QType::SOA),
            7 => Ok(QType::MB),
            8 => Ok(QType::MG),
            9 => Ok(QType::MR),
            10 => Ok(QType::NULL),
            11 => Ok(QType::WKS),
            12 => Ok(QType::PTR),
            13 => Ok(QType::HINFO),
            14 => Ok(QType::MINFO),
            15 => Ok(QType::MX),
            16 => Ok(QType::TXT),
            _ => Err(CodecError::UnknownType),
        }
    }

    /// The two number tables are inverse to each other: a type's number reads
    /// back as that type, and a number that reads as a type is that type's
    /// number.
    pub proof fn lemma_wire_value_inverse(t: QType, value: u16)
        ensures
            QType::from_wire(t.wire_value()) == Some(t),
            1 <= t.wire_value() <= 16,
            QType::from_wire(value) is Some <==> 1 <= value <= 16,
            QType::from_wire(value) matches Some(u) ==> u.wire_value() == value,
    {
    }
}

/// The class of a resource record.
#[derive(Clone, Copy, Debug, PartialEq, Eq, Structural)]
pub enum ResourceClass {
    /// the Internet
    IN,
    /// the CSNET class
    CS,
    /// the CHAOS class
    CH,
    /// Hesiod [Dyer 87]
    HS,
}

impl ResourceClass {
    /// The number that stands for this class on the wire.
    pub open spec fn wire_value(self) -> u16 {
        match self {
            ResourceClass::IN => 1,
            ResourceClass::CS => 2,
            ResourceClass::CH => 3,
            ResourceClass::HS => 4,
        }
    }

    /// The class that a wire number stands for, if it stands for one.
    pub open spec fn from_wire(value: u16) -> Option<ResourceClass> {
        if value == 1 {
            Some(ResourceClass::IN)
        } else if value == 2 {
            Some(ResourceClass::CS)
        } else if value == 3 {
            Some(ResourceClass::CH)
        } else if value == 4 {
            Some(ResourceClass::HS)
        } else {
            None
        }
    }

    /// Reads a wire number as a class; a number outside 1..=4 is refused.
    pub fn from_value(value: u16) -> (r: Result<ResourceClass, CodecError>)
        ensures
            r == match ResourceClass::from_wire(value) {
                Some(c) => Ok::<ResourceClass, CodecError>(c),
                None => Err(CodecError::UnknownClass),
            },
    {
        match value {
            1 => Ok(ResourceClass::IN),
            2 => Ok(ResourceClass::CS),
            3 => Ok(ResourceClass::CH),
            4 => Ok(ResourceClass::HS),
            _ => Err(CodecError::UnknownClass),
        }
    }

    /// The number that stands for this class on the wire.
    pub fn value(&self) -> (v: u16)
        ensures
            v == self.wire_value(),
    {
        match self {
            ResourceClass::IN => 1,
            ResourceClass::CS => 2,
            ResourceClass::CH => 3,
            ResourceClass::HS => 4,
        }
    }

    /// The two number tables are inverse to each other: a class's number reads
    /// back as that class, and a number that reads as a class is that class's
    /// number.
    pub proof fn lemma_wire_value_inverse(c: ResourceClass, value: u16)
        ensures
            ResourceClass::from_wire(c.wire_value()) == Some(c),
            1 <= c.wire_value() <= 4,
            ResourceClass::from_wire(value) is Some <==> 1 <= value <= 4,
            ResourceClass::from_wire(value) matches Some(d) ==> d.wire_value() == value,
    {
    }
}

} // verus!
