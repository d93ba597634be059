//! Domain names on the wire: length-prefixed labels, closed by a zero octet
//! or by a pointer to a name that stood earlier in the same datagram.

use crate::error::CodecError;
use crate::message::Message;
use crate::wire::{push_octets, read_octets, read_u8};
use std::collections::HashMap;
use vstd::prelude::*;
use vstd::utf8::{
    decode_utf8, encode_utf8, encode_utf8_decode_utf8, encode_utf8_valid_utf8, is_ascii_chars,
    is_ascii_chars_encode_utf8, valid_utf8,
};

verus! {

/// The text that `String::from_utf8_lossy` makes of `bytes`.
pub uninterp spec fn lossy_text(bytes: Seq<u8>) -> Seq<char>;

/// The text of a label whose octets are `bytes`: the characters they encode
/// where they are valid UTF-8, and the permissive reading of them otherwise.
pub open spec fn label_text(bytes: Seq<u8>) -> Seq<char> {
    if valid_utf8(bytes) {
        decode_utf8(bytes)
    } else {
        lossy_text(bytes)
    }
}

/// The octets that encode a text read back as that text.
pub proof fn lemma_label_text_encoded(text: Seq<char>)
    ensures
        label_text(encode_utf8(text)) == text,
{
    encode_utf8_valid_utf8(text);
    encode_utf8_decode_utf8(text);
}

/// ASCII text takes one octet per character, the character's number, and
/// those octets read back as the text.
pub proof fn lemma_label_text_ascii(text: Seq<char>)
    requires
        is_ascii_chars(text),
    ensures
        encode_utf8(text) == Seq::new(text.len(), |i: int| text[i] as u8),
        label_text(Seq::new(text.len(), |i: int| text[i] as u8)) == text,
{
    is_ascii_chars_encode_utf8(text);
    lemma_label_text_encoded(text);
}

/// One label on the wire: its length in octets, then its text as UTF-8. The
/// length octet holds the length modulo 256.
pub open spec fn label_wire(label: Seq<char>) -> Seq<u8> {
    seq![(encode_utf8(label).len() % 256) as u8] + encode_utf8(label)
}

/// A name on the wire, always written in full: each label in turn, then a
/// zero octet.
pub open spec fn name_wire(name: Seq<Seq<char>>) -> Seq<u8>
    decreases name.len(),
{
    if name.len() == 0 {
        seq![0u8]
    } else {
        label_wire(name[0]) + name_wire(name.drop_first())
    }
}

/// A label that a decoder reads back as one label: 1 to 63 octets of text.
pub open spec fn label_fits(label: Seq<char>) -> bool {
    1 <= encode_utf8(label).len() <= 63
}

/// A name all of whose labels have 1 to 63 octets.
pub open spec fn name_fits(name: Seq<Seq<char>>) -> bool {
    forall|i: int| 0 <= i < name.len() ==> label_fits(#[trigger] name[i])
}

/// An octet whose two high bits are set opens a pointer.
pub open spec fn is_pointer_octet(b: u8) -> bool {
    b >= 0xC0
}

/// The offset that the two octets of a pointer spell: the low six bits of
/// the first, then the second.
pub open spec fn pointer_target(b0: u8, b1: u8) -> int {
    (b0 % 64) as int * 256 + b1 as int
}

/// Whether a pointer stands at `at`, both of its octets within the datagram.
pub open spec fn pointer_stands_at(bytes: Seq<u8>, at: int) -> bool {
    0 <= at && at + 2 <= bytes.len() && is_pointer_octet(bytes[at])
}

/// Why a pointer to `at` fails, `at` being an offset at which no name is
/// recorded and `hops` the number of pointers followed to get there.
///
/// Where `at` holds a pointer to an offset at which nothing is recorded
/// either, the reader follows it to see where the chain ends; the
/// datagram's length bounds the number of pointers followed for one name,
/// and a chain that goes on beyond it is a loop. A chain that ends, at
/// octets that are no pointer or at a recorded name, leaves the first
/// pointer dangling.
pub open spec fn unresolved(
    bytes: Seq<u8>,
    table: Map<int, Seq<Seq<char>>>,
    at: int,
    hops: nat,
) -> CodecError
    decreases bytes.len() - hops,
{
    if pointer_stands_at(bytes, at) && !table.contains_key(
        pointer_target(bytes[at], bytes[at + 1]),
    ) {
        if hops >= bytes.len() {
            CodecError::CompressionLoop
        } else {
            unresolved(bytes, table, pointer_target(bytes[at], bytes[at + 1]), hops + 1)
        }
    } else {
        CodecError::DanglingPointer
    }
}

/// The name that a pointer to `target` stands for: the name recorded at
/// that offset. A pointer to an offset at which none is recorded fails.
pub open spec fn resolve(bytes: Seq<u8>, table: Map<int, Seq<Seq<char>>>, target: int) -> Result<
    Seq<Seq<char>>,
    CodecError,
> {
    if table.contains_key(target) {
        Ok(table[target])
    } else {
        Err(unresolved(bytes, table, target, 1))
    }
}

/// Whether a label starts at `pos`: an octet that is neither zero nor the
/// start of a pointer, with as many octets after it as it announces.
pub open spec fn label_starts_at(bytes: Seq<u8>, pos: int) -> bool {
    &&& 0 <= pos < bytes.len()
    &&& !is_pointer_octet(bytes[pos])
    &&& bytes[pos] != 0
    &&& pos + 1 + bytes[pos] as int <= bytes.len()
}

/// The name that starts at `pos`, read against the names recorded so far,
/// and the offset just behind it.
pub open spec fn name_at(bytes: Seq<u8>, pos: int, table: Map<int, Seq<Seq<char>>>) -> Result<
    (Seq<Seq<char>>, int),
    CodecError,
>
    decreases bytes.len() - pos,
{
    if pos < 0 || pos >= bytes.len() {
        Err(CodecError::TruncatedInput)
    } else if is_pointer_octet(bytes[pos]) {
        if pos + 2 > bytes.len() {
            Err(CodecError::TruncatedInput)
        } else {
            match resolve(bytes, table, pointer_target(bytes[pos], bytes[pos + 1])) {
                Ok(name) => Ok((name, pos + 2)),
                Err(e) => Err(e),
            }
        }
    } else if bytes[pos] == 0 {
        Ok((Seq::empty(), pos + 1))
    } else if pos + 1 + bytes[pos] as int > bytes.len() {
        Err(CodecError::TruncatedInput)
    } else {
        let next = pos + 1 + bytes[pos] as int;
        match name_at(bytes, next, table) {
            Ok((rest, end)) => Ok((seq![label_text(bytes.subrange(pos + 1, next))] + rest, end)),
            Err(e) => Err(e),
        }
    }
}

/// `into`, and in it, for the label at `pos` and each label after it up to
/// the end of the name, the name that starts at that label.
pub open spec fn with_suffixes(
    bytes: Seq<u8>,
    pos: int,
    table: Map<int, Seq<Seq<char>>>,
    into: Map<int, Seq<Seq<char>>>,
) -> Map<int, Seq<Seq<char>>>
    decreases bytes.len() - pos,
{
    if label_starts_at(bytes, pos) {
        with_suffixes(
            bytes,
            pos + 1 + bytes[pos] as int,
            table,
            into.insert(pos, name_at(bytes, pos, table)->Ok_0.0),
        )
    } else {
        into
    }
}

/// The table after the name at `start` has been decoded against `table`:
/// the start of the name and the start of each of its labels now stand for
/// the name that begins there.
pub open spec fn table_after(bytes: Seq<u8>, start: int, table: Map<int, Seq<Seq<char>>>) -> Map<
    int,
    Seq<Seq<char>>,
> {
    with_suffixes(bytes, start, table, table.insert(start, name_at(bytes, start, table)->Ok_0.0))
}

/// The names decoded so far in one datagram, each under the offset at which
/// it starts. A table lives as long as the decoding of one datagram.
pub struct CompressionTable {
    names: HashMap<usize, Vec<String>>,
}

impl View for CompressionTable {
    type V = Map<int, Seq<Seq<char>>>;

    closed spec fn view(&self) -> Map<int, Seq<Seq<char>>> {
        Map::new(
            |k: int| 0 <= k <= usize::MAX && self.names@.contains_key(k as usize),
            |k: int| self.names@[k as usize].deep_view(),
        )
    }
}

impl CompressionTable {
    /// A table with no name in it.
    pub fn new() -> (table: CompressionTable)
        ensures
            table@ == Map::<int, Seq<Seq<char>>>::empty(),
    {
        let table = CompressionTable { names: HashMap::new() };
        table
    }

    /// A copy of the name recorded under `offset`, if one is.
    pub fn lookup(&self, offset: usize) -> (found: Option<Vec<String>>)
        ensures
            found is Some <==> self@.contains_key(offset as int),
            found matches Some(name) ==> name.deep_view() == self@[offset as int],
    {
        match self.names.get(&offset) {
            Some(name) => Some(copy_name(name, 0)),
            None => None,
        }
    }

    /// Whether a name is recorded under `offset`.
    pub fn has(&self, offset: usize) -> (found: bool)
        ensures
            found == self@.contains_key(offset as int),
    {
        self.names.contains_key(&offset)
    }

    /// Records `name` under `offset`, in place of what stood there.
    pub fn record(&mut self, offset: usize, name: Vec<String>)
        ensures
            final(self)@ == old(self)@.insert(offset as int, name.deep_view()),
    {
        self.names.insert(offset, name);
    }
}

/// Copies the labels of `name` from index `from` on; none, if `from` is
/// behind the last label.
pub fn copy_name(name: &Vec<String>, from: usize) -> (copy: Vec<String>)
    ensures
        copy.deep_view() == if from <= name.len() {
            name.deep_view().skip(from as int)
        } else {
            Seq::<Seq<char>>::empty()
        },
{
    let mut copy: Vec<String> = Vec::new();
    if from > name.len() {
        return copy;
    }
    let mut i: usize = from;
    while i < name.len()
        invariant
            from <= i <= name.len(),
            copy@.len() == i - from,
            forall|j: int| 0 <= j < copy@.len() ==> copy@[j]@ == name@[from + j]@,
        decreases name.len() - i,
    {
        copy.push(name[i].clone());
        i += 1;
    }
    copy
}

/// `String::from_utf8_lossy`, made into an owned string. The result is a
/// function of the octets alone; octets that are valid UTF-8 come back as
/// the text they encode, and of other octets the contract says no more than
/// the name of the result.
#[verifier::external_body]
fn string_from_utf8_lossy(bytes: &[u8]) -> (text: String)
    ensures
        text@ == lossy_text(bytes@),
        valid_utf8(bytes@) ==> text@ == decode_utf8(bytes@),
{
    String::from_utf8_lossy(bytes).into_owned()
}

/// Appends `name` in full: each label behind its length octet, then the
/// closing zero octet.
pub fn push_name(out: &mut Vec<u8>, name: &Vec<String>)
    ensures
        final(out)@ == old(out)@ + name_wire(name.deep_view()),
{
    let ghost whole = name.deep_view();
    let mut i: usize = 0;
    assert(whole.skip(0) =~= whole);
    while i < name.len()
        invariant
            i <= name.len(),
            whole == name.deep_view(),
            out@ + name_wire(whole.skip(i as int)) == old(out)@ + name_wire(whole),
        decreases name.len() - i,
    {
        let text = name[i].as_str();
        let octets = text.as_bytes();
        proof {
            let rest = whole.skip(i as int);
            assert(rest.drop_first() =~= whole.skip(i + 1));
        }
        out.push((octets.len() % 256) as u8);
        push_octets(out, octets);
        i += 1;
    }
    out.push(0);
}

/// The outcome of decoding one name: the name, the offset just behind it,
/// and the table with the name's offsets recorded; or the first failure met,
/// reading from `pos` on.
pub open spec fn decode_name(bytes: Seq<u8>, pos: int, table: Map<int, Seq<Seq<char>>>) -> Result<
    (Seq<Seq<char>>, int, Map<int, Seq<Seq<char>>>),
    CodecError,
> {
    match name_at(bytes, pos, table) {
        Ok((name, end)) => Ok((name, end, table_after(bytes, pos, table))),
        Err(e) => Err(e),
    }
}

/// `rest` with `labels` put in front of the name it holds.
pub open spec fn with_labels_before(
    labels: Seq<Seq<char>>,
    rest: Result<(Seq<Seq<char>>, int), CodecError>,
) -> Result<(Seq<Seq<char>>, int), CodecError> {
    match rest {
        Ok((name, end)) => Ok((labels + name, end)),
        Err(e) => Err(e),
    }
}

/// The offset spelled by the two octets of a pointer.
fn pointer_offset(first: u8, second: u8) -> (target: usize)
    ensures
        target as int == pointer_target(first, second),
        target < 0x4000,
{
    let target: u16 = (((first as u16) & 0x3f) << 8) | (second as u16);
    assert((((first as u16) & 0x3fu16) << 8) | (second as u16) == (first % 64u8) as u16 * 256u16
        + second as u16) by (bit_vector);
    target as usize
}

/// Finds the name that a pointer to `target` stands for.
fn resolve_pointer(bites: &[u8], table: &CompressionTable, target: usize) -> (r: Result<
    Vec<String>,
    CodecError,
>)
    ensures
        match r {
            Ok(name) => resolve(bites@, table@, target as int) == Ok::<Seq<Seq<char>>, CodecError>(
                name.deep_view(),
            ),
            Err(e) => resolve(bites@, table@, target as int) == Err::<Seq<Seq<char>>, CodecError>(
                e,
            ),
        },
{
    match table.lookup(target) {
        Some(name) => {
            return Ok(name);
        },
        None => {},
    }
    let mut at: usize = target;
    let mut hops: usize = 1;
    loop
        invariant
            1 <= hops,
            !table@.contains_key(target as int),
            unresolved(bites@, table@, target as int, 1) == unresolved(
                bites@,
                table@,
                at as int,
                hops as nat,
            ),
        decreases bites.len() - hops,
    {
        if !(at < bites.len() && bites.len() - at >= 2 && Message::is_compressed_label(bites[at])) {
            return Err(CodecError::DanglingPointer);
        }
        let next: usize = pointer_offset(bites[at], bites[at + 1]);
        if table.has(next) {
            return Err(CodecError::DanglingPointer);
        }
        if hops >= bites.len() {
            return Err(CodecError::CompressionLoop);
        }
        at = next;
        hops = hops + 1;
    }
}

impl Message {
    /// Whether an octet opens a compression pointer: its two high bits are
    /// set.
    pub fn is_compressed_label(bite: u8) -> (r: bool)
        ensures
            r == is_pointer_octet(bite),
    {
        assert((bite & 0xC0u8 == 0xC0u8) == (bite >= 0xC0u8)) by (bit_vector);
        bite & 0b11000000 == 0b11000000
    }

    /// Decodes the name that starts at `parse_offset` and records it in
    /// `table`, under its own offset and, suffix by suffix, under the offset
    /// of each of its labels.
    ///
    /// On success the result holds the offset just behind the name and the
    /// labels; a pointer's target contributes its labels to the name. On
    /// failure the table is left as it was.
    pub fn parse_label_seq(bites: &[u8], parse_offset: usize, table: &mut CompressionTable) -> (r:
        Result<(usize, Vec<String>), CodecError>)
        ensures
            match r {
                Ok((end, name)) => decode_name(bites@, parse_offset as int, old(table)@) == Ok::<
                    (Seq<Seq<char>>, int, Map<int, Seq<Seq<char>>>),
                    CodecError,
                >((name.deep_view(), end as int, final(table)@)) && parse_offset < end <= bites@.len(),
                Err(e) => decode_name(bites@, parse_offset as int, old(table)@) == Err::<
                    (Seq<Seq<char>>, int, Map<int, Seq<Seq<char>>>),
                    CodecError,
                >(e) && final(table)@ == old(table)@,
            },
    {
        let ghost before = table@;
        let ghost start = parse_offset as int;
        let mut name: Vec<String> = Vec::new();
        let mut pos: usize = parse_offset;
        let end: usize;
        if pos >= bites.len() {
            return Err(CodecError::TruncatedInput);
        }
        loop
            invariant_except_break
                pos < bites.len(),
                name_at(bites@, start, before) == with_labels_before(
                    name.deep_view(),
                    name_at(bites@, pos as int, before),
                ),
                parse_offset <= pos,
            invariant
                table@ == before,
                before == old(table)@,
                start == parse_offset as int,
            ensures
                name_at(bites@, start, before) == Ok::<(Seq<Seq<char>>, int), CodecError>(
                    (name.deep_view(), end as int),
                ),
                parse_offset < end <= bites.len(),
            decreases bites.len() - pos,
        {
            let label_len: u8 = match read_u8(bites, pos) {
                Some(bite) => bite,
                None => {
                    return Err(CodecError::TruncatedInput);
                },
            };
            if Message::is_compressed_label(label_len) {
                let second: u8 = match read_u8(bites, pos + 1) {
                    Some(bite) => bite,
                    None => {
                        return Err(CodecError::TruncatedInput);
                    },
                };
                match resolve_pointer(bites, table, pointer_offset(label_len, second)) {
                    Ok(mut target) => {
                        let ghost labels = name.deep_view();
                        let ghost pointee = target.deep_view();
                        name.append(&mut target);
                        end = pos + 2;
                        assert(name.deep_view() =~= labels + pointee);
                        break ;
                    },
                    Err(e) => {
                        return Err(e);
                    },
                }
            } else if label_len == 0 {
                end = pos + 1;
                break ;
            } else {
                let label_bites = match read_octets(bites, pos + 1, label_len as usize) {
                    Some(taken) => taken,
                    None => {
                        return Err(CodecError::TruncatedInput);
                    },
                };
                let ghost labels = name.deep_view();
                let ghost next = pos + 1 + label_len as int;
                name.push(string_from_utf8_lossy(label_bites));
                proof {
                    let label = label_text(bites@.subrange(pos + 1, next));
                    assert(name.deep_view() =~= labels.push(label));
                    match name_at(bites@, next, before) {
                        Ok((rest, _)) => {
                            assert(labels + (seq![label] + rest) =~= labels.push(label) + rest);
                        },
                        Err(_) => {},
                    }
                }
                pos = pos + 1 + label_len as usize;
                if pos >= bites.len() {
                    return Err(CodecError::TruncatedInput);
                }
            }
        }
        let ghost full = name.deep_view();
        table.record(parse_offset, copy_name(&name, 0));
        assert(full.skip(0) =~= full);
        let mut cur: usize = parse_offset;
        let mut i: usize = 0;
        loop
            invariant
                cur < bites.len(),
                i <= name.len(),
                full == name.deep_view(),
                name_at(bites@, cur as int, before) == Ok::<(Seq<Seq<char>>, int), CodecError>(
                    (full.skip(i as int), end as int),
                ),
                with_suffixes(bites@, cur as int, before, table@) == table_after(
                    bites@,
                    start,
                    before,
                ),
            ensures
                table@ == table_after(bites@, start, before),
            decreases bites.len() - cur,
        {
            let label_len: u8 = bites[cur];
            if Message::is_compressed_label(label_len) || label_len == 0 {
                break ;
            }
            let ghost next = cur + 1 + label_len as int;
            proof {
                let rest = name_at(bites@, next, before)->Ok_0.0;
                assert(rest =~= full.skip(i as int).drop_first());
                assert(full.skip(i as int).drop_first() =~= full.skip(i + 1));
            }
            table.record(cur, copy_name(&name, i));
            cur = cur + 1 + label_len as usize;
            i = i + 1;
        }
        Ok((end, name))
    }
}

} // verus!
