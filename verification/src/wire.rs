//! Fixed-width fields in network byte order.
//!
//! The readers hand the work to `nom`; the specification functions say which
//! octets they look at and which number comes back.

use vstd::prelude::*;
use vstd::slice::slice_subrange;

verus! {

/// The 16-bit number spelled by two octets, most significant first.
pub open spec fn be16(hi: u8, lo: u8) -> u16 {
    (hi as int * 256 + lo as int) as u16
}

/// The 32-bit number spelled by four octets, most significant first.
pub open spec fn be32(b0: u8, b1: u8, b2: u8, b3: u8) -> u32 {
    (((b0 as int * 256 + b1 as int) * 256 + b2 as int) * 256 + b3 as int) as u32
}

/// The two octets of a 16-bit number, most significant first.
pub open spec fn u16_octets(v: u16) -> Seq<u8> {
    seq![(v / 256) as u8, (v % 256) as u8]
}

/// The four octets of a 32-bit number, most significant first.
pub open spec fn u32_octets(v: u32) -> Seq<u8> {
    seq![
        (v / 0x100_0000) as u8,
        (v / 0x1_0000 % 256) as u8,
        (v / 0x100 % 256) as u8,
        (v % 256) as u8,
    ]
}

/// The octet at `pos`, if the datagram reaches that far.
pub open spec fn octet_at(bytes: Seq<u8>, pos: int) -> Option<u8> {
    if 0 <= pos && pos + 1 <= bytes.len() {
        Some(bytes[pos])
    } else {
        None
    }
}

/// The big-endian 16-bit field at `pos`, if two octets are left there.
pub open spec fn u16_at(bytes: Seq<u8>, pos: int) -> Option<u16> {
    if 0 <= pos && pos + 2 <= bytes.len() {
        Some(be16(bytes[pos], bytes[pos + 1]))
    } else {
        None
    }
}

/// The big-endian 32-bit field at `pos`, if four octets are left there.
pub open spec fn u32_at(bytes: Seq<u8>, pos: int) -> Option<u32> {
    if 0 <= pos && pos + 4 <= bytes.len() {
        Some(be32(bytes[pos], bytes[pos + 1], bytes[pos + 2], bytes[pos + 3]))
    } else {
        None
    }
}

/// The `count` octets that start at `pos`, if that many are left there.
pub open spec fn octets_at(bytes: Seq<u8>, pos: int, count: int) -> Option<Seq<u8>> {
    if 0 <= pos && 0 <= count && pos + count <= bytes.len() {
        Some(bytes.subrange(pos, pos + count))
    } else {
        None
    }
}

/// `nom::number::complete::be_u8` on a byte slice: it fails on empty input and
/// otherwise hands back the first octet and the input after it.
#[verifier::external_body]
fn nom_be_u8<'a>(input: &'a [u8]) -> (r: Option<(&'a [u8], u8)>)
    ensures
        r is Some <==> input@.len() >= 1,
        r matches Some((rest, value)) ==> rest@ == input@.subrange(1, input@.len() as int)
            && value == input@[0],
{
    match nom::number::complete::be_u8::<&[u8], nom::error::Error<&[u8]>>(input) {
        Ok((rest, value)) => Some((rest, value)),
        Err(_) => None,
    }
}

/// `nom::number::complete::be_u16` on a byte slice: it fails on fewer than two
/// octets and otherwise hands back the first two, read most significant
/// first, and the input after them.
#[verifier::external_body]
fn nom_be_u16<'a>(input: &'a [u8]) -> (r: Option<(&'a [u8], u16)>)
    ensures
        r is Some <==> input@.len() >= 2,
        r matches Some((rest, value)) ==> rest@ == input@.subrange(2, input@.len() as int)
            && value == be16(input@[0], input@[1]),
{
    match nom::number::complete::be_u16::<&[u8], nom::error::Error<&[u8]>>(input) {
        Ok((rest, value)) => Some((rest, value)),
        Err(_) => None,
    }
}

/// `nom::number::complete::be_u32` on a byte slice: it fails on fewer than
/// four octets and otherwise hands back the first four, read most significant
/// first, and the input after them.
#[verifier::external_body]
fn nom_be_u32<'a>(input: &'a [u8]) -> (r: Option<(&'a [u8], u32)>)
    ensures
        r is Some <==> input@.len() >= 4,
        r matches Some((rest, value)) ==> rest@ == input@.subrange(4, input@.len() as int)
            && value == be32(input@[0], input@[1], input@[2], input@[3]),
{
    match nom::number::complete::be_u32::<&[u8], nom::error::Error<&[u8]>>(input) {
        Ok((rest, value)) => Some((rest, value)),
        Err(_) => None,
    }
}

/// `nom::bytes::complete::take` on a byte slice: it fails when fewer than
/// `count` octets are left and otherwise splits the input after `count`
/// octets, handing back the remainder and the octets taken.
#[verifier::external_body]
fn nom_take<'a>(input: &'a [u8], count: usize) -> (r: Option<(&'a [u8], &'a [u8])>)
    ensures
        r is Some <==> input@.len() >= count,
        r matches Some((rest, taken)) ==> rest@ == input@.subrange(
            count as int,
            input@.len() as int,
        ) && taken@ == input@.subrange(0, count as int),
{
    match nom::bytes::complete::take::<usize, &[u8], nom::error::Error<&[u8]>>(count)(input) {
        Ok((rest, taken)) => Some((rest, taken)),
        Err(_) => None,
    }
}

/// Reads the octet at `pos`.
pub fn read_u8(bites: &[u8], pos: usize) -> (r: Option<u8>)
    ensures
        r == octet_at(bites@, pos as int),
{
    if pos > bites.len() {
        return None;
    }
    match nom_be_u8(slice_subrange(bites, pos, bites.len())) {
        Some((_, value)) => Some(value),
        None => None,
    }
}

/// Reads the big-endian 16-bit field at `pos`.
pub fn read_u16(bites: &[u8], pos: usize) -> (r: Option<u16>)
    ensures
        r == u16_at(bites@, pos as int),
{
    if pos > bites.len() {
        return None;
    }
    match nom_be_u16(slice_subrange(bites, pos, bites.len())) {
        Some((_, value)) => Some(value),
        None => None,
    }
}

/// Reads the big-endian 32-bit field at `pos`.
pub fn read_u32(bites: &[u8], pos: usize) -> (r: Option<u32>)
    ensures
        r == u32_at(bites@, pos as int),
{
    if pos > bites.len() {
        return None;
    }
    match nom_be_u32(slice_subrange(bites, pos, bites.len())) {
        Some((_, value)) => Some(value),
        None => None,
    }
}

/// Borrows the `count` octets that start at `pos`.
pub fn read_octets<'a>(bites: &'a [u8], pos: usize, count: usize) -> (r: Option<&'a [u8]>)
    ensures
        r is Some <==> octets_at(bites@, pos as int, count as int) is Some,
        r matches Some(taken) ==> Some(taken@) == octets_at(bites@, pos as int, count as int),
{
    if pos > bites.len() {
        return None;
    }
    match nom_take(slice_subrange(bites, pos, bites.len()), count) {
        Some((_, taken)) => Some(taken),
        None => None,
    }
}

/// Appends the two octets of `v`, most significant first.
pub fn push_u16(out: &mut Vec<u8>, v: u16)
    ensures
        final(out)@ == old(out)@ + u16_octets(v),
{
    out.push((v / 256) as u8);
    out.push((v % 256) as u8);
}

/// Appends the four octets of `v`, most significant first.
pub fn push_u32(out: &mut Vec<u8>, v: u32)
    ensures
        final(out)@ == old(out)@ + u32_octets(v),
{
    out.push((v / 0x100_0000) as u8);
    out.push((v / 0x1_0000 % 256) as u8);
    out.push((v / 0x100 % 256) as u8);
    out.push((v % 256) as u8);
}

/// Appends the octets of `octets` in order.
pub fn push_octets(out: &mut Vec<u8>, octets: &[u8])
    ensures
        final(out)@ == old(out)@ + octets@,
{
    let mut i: usize = 0;
    assert(octets@.take(0) =~= Seq::<u8>::empty());
    while i < octets.len()
        invariant
            i <= octets.len(),
            out@ == old(out)@ + octets@.take(i as int),
        decreases octets.len() - i,
    {
        out.push(octets[i]);
        i += 1;
    }
}

/// Reading back the two octets of a 16-bit number gives the number.
pub proof fn lemma_be16_of_octets(v: u16)
    ensures
        be16(u16_octets(v)[0], u16_octets(v)[1]) == v,
{
}

/// Reading back the four octets of a 32-bit number gives the number.
pub proof fn lemma_be32_of_octets(v: u32)
    ensures
        be32(u32_octets(v)[0], u32_octets(v)[1], u32_octets(v)[2], u32_octets(v)[3]) == v,
{
}

} // verus!
