use vstd::prelude::*;

verus! {

/// Why a datagram could not be decoded.
///
/// Every failure is final for the datagram it was found in: the caller drops
/// the packet and sends nothing back.
#[derive(Clone, Copy, Debug, PartialEq, Eq, Structural)]
pub enum CodecError {
    /// Fewer octets were left than a fixed-width or length-prefixed field needs.
    TruncatedInput,
    /// The 16-bit record type is not one of the sixteen known types.
    UnknownType,
    /// The 16-bit record class is not one of the four known classes.
    UnknownClass,
    /// A compression pointer leads to an offset at which no name was recorded.
    DanglingPointer,
    /// Following compression pointers took more hops than the datagram has octets.
    CompressionLoop,
}

} // verus!
