//! What compression pointers do: a pointer into a name decoded before
//! stands for the rest of that name, and pointers that only lead to each
//! other are refused.

use crate::error::CodecError;
use crate::header::Header;
use crate::message::{
    decode_answers, decode_message, decode_questions, lemma_questions_failure_stays, MessageView,
};
use crate::name::{
    is_pointer_octet, label_fits, label_starts_at, label_wire, name_at, name_fits, name_wire,
    pointer_stands_at, pointer_target, table_after, unresolved, with_suffixes,
};
use crate::question::{decode_question, QuestionView};
use crate::roundtrip::{
    lemma_head_shown, lemma_name_shown, lemma_question_shown, lemma_shows_parts, shows_at,
};
use crate::rrtype::{QType, ResourceClass};
use crate::wire::{u16_at, u16_octets};
use vstd::prelude::*;
use vstd::utf8::encode_utf8;

verus! {

/// Offsets at which nothing is recorded, each of which holds a pointer to
/// one of these offsets again.
pub open spec fn pointers_closed(
    bytes: Seq<u8>,
    table: Map<int, Seq<Seq<char>>>,
    offsets: Set<int>,
) -> bool {
    forall|at: int| #[trigger]
        offsets.contains(at) ==> {
            &&& !table.contains_key(at)
            &&& pointer_stands_at(bytes, at)
            &&& offsets.contains(pointer_target(bytes[at], bytes[at + 1]))
        }
}

/// A chain of pointers that starts among offsets that only point to each
/// other never ends: following it runs out of hops.
pub proof fn lemma_closed_pointers_loop(
    bytes: Seq<u8>,
    table: Map<int, Seq<Seq<char>>>,
    offsets: Set<int>,
    at: int,
    hops: nat,
)
    requires
        pointers_closed(bytes, table, offsets),
        offsets.contains(at),
    ensures
        unresolved(bytes, table, at, hops) == CodecError::CompressionLoop,
    decreases bytes.len() - hops,
{
    let next = pointer_target(bytes[at], bytes[at + 1]);
    assert(offsets.contains(next));
    if hops < bytes.len() {
        lemma_closed_pointers_loop(bytes, table, offsets, next, hops + 1);
    }
}

/// Reading a name at a pointer into offsets that only point to each other
/// fails with `CompressionLoop`.
pub proof fn theorem_pointer_cycle_fails(
    bytes: Seq<u8>,
    table: Map<int, Seq<Seq<char>>>,
    offsets: Set<int>,
    at: int,
)
    requires
        pointers_closed(bytes, table, offsets),
        0 <= at,
        at + 2 <= bytes.len(),
        is_pointer_octet(bytes[at]),
        offsets.contains(pointer_target(bytes[at], bytes[at + 1])),
    ensures
        name_at(bytes, at, table) == Err::<(Seq<Seq<char>>, int), CodecError>(
            CodecError::CompressionLoop,
        ),
{
    let target = pointer_target(bytes[at], bytes[at + 1]);
    assert(!table.contains_key(target));
    lemma_closed_pointers_loop(bytes, table, offsets, target, 1);
}

/// A pointer that points to itself, at an offset where nothing is
/// recorded, fails with `CompressionLoop`.
pub proof fn theorem_self_pointer_fails(bytes: Seq<u8>, table: Map<int, Seq<Seq<char>>>, at: int)
    requires
        0 <= at,
        at + 2 <= bytes.len(),
        is_pointer_octet(bytes[at]),
        pointer_target(bytes[at], bytes[at + 1]) == at,
        !table.contains_key(at),
    ensures
        name_at(bytes, at, table) == Err::<(Seq<Seq<char>>, int), CodecError>(
            CodecError::CompressionLoop,
        ),
{
    let offsets = set![at];
    theorem_pointer_cycle_fails(bytes, table, offsets, at);
}

/// Two pointers that point to each other, at offsets where nothing is
/// recorded, fail with `CompressionLoop`, whichever is read.
pub proof fn theorem_pointer_pair_fails(
    bytes: Seq<u8>,
    table: Map<int, Seq<Seq<char>>>,
    at: int,
    other: int,
)
    requires
        0 <= at,
        at + 2 <= bytes.len(),
        is_pointer_octet(bytes[at]),
        pointer_target(bytes[at], bytes[at + 1]) == other,
        0 <= other,
        other + 2 <= bytes.len(),
        is_pointer_octet(bytes[other]),
        pointer_target(bytes[other], bytes[other + 1]) == at,
        !table.contains_key(at),
        !table.contains_key(other),
    ensures
        name_at(bytes, at, table) == Err::<(Seq<Seq<char>>, int), CodecError>(
            CodecError::CompressionLoop,
        ),
{
    let offsets = set![at, other];
    theorem_pointer_cycle_fails(bytes, table, offsets, at);
}

/// A datagram whose first question has a name that fails is refused with
/// that failure.
pub proof fn lemma_first_name_fails(bytes: Seq<u8>, e: CodecError)
    requires
        Header::from_wire(bytes) is Some,
        Header::from_wire(bytes)->0.qdcount >= 1,
        name_at(bytes, 12, Map::empty()) == Err::<(Seq<Seq<char>>, int), CodecError>(e),
    ensures
        decode_message(bytes) == Err::<(MessageView, int), CodecError>(e),
{
    let table = Map::<int, Seq<Seq<char>>>::empty();
    assert(decode_questions(bytes, 12, table, 0) is Ok);
    assert(decode_questions(bytes, 12, table, 1) == Err::<
        (Seq<QuestionView>, int, Map<int, Seq<Seq<char>>>),
        CodecError,
    >(e));
    lemma_questions_failure_stays(
        bytes,
        12,
        table,
        1,
        Header::from_wire(bytes)->0.qdcount as nat,
    );
}

/// A datagram whose first question opens with a pointer to itself is
/// refused with `CompressionLoop`.
pub proof fn theorem_self_pointing_question_fails(bytes: Seq<u8>)
    requires
        bytes.len() >= 14,
        Header::from_wire(bytes)->0.qdcount >= 1,
        is_pointer_octet(bytes[12]),
        pointer_target(bytes[12], bytes[13]) == 12,
    ensures
        decode_message(bytes) == Err::<(MessageView, int), CodecError>(
            CodecError::CompressionLoop,
        ),
{
    theorem_self_pointer_fails(bytes, Map::empty(), 12);
    lemma_first_name_fails(bytes, CodecError::CompressionLoop);
}

/// Recording the labels from `pos` on leaves what stands under earlier
/// offsets as it was.
pub proof fn lemma_suffixes_keep_earlier(
    bytes: Seq<u8>,
    pos: int,
    table: Map<int, Seq<Seq<char>>>,
    into: Map<int, Seq<Seq<char>>>,
    earlier: int,
)
    requires
        earlier < pos,
    ensures
        with_suffixes(bytes, pos, table, into).contains_key(earlier) == into.contains_key(earlier),
        with_suffixes(bytes, pos, table, into)[earlier] == into[earlier],
    decreases bytes.len() - pos,
{
    if label_starts_at(bytes, pos) {
        lemma_suffixes_keep_earlier(
            bytes,
            pos + 1 + bytes[pos] as int,
            table,
            into.insert(pos, name_at(bytes, pos, table)->Ok_0.0),
            earlier,
        );
    }
}

/// The octets of a name made of two parts are those of the labels of the
/// first part, then those of the second part as a name.
pub proof fn lemma_name_wire_parts(front: Seq<Seq<char>>, back: Seq<Seq<char>>)
    ensures
        name_wire(front + back).len() >= name_wire(back).len(),
        front.len() > 0 ==> name_wire(front + back) == label_wire(front[0]) + name_wire(
            front.drop_first() + back,
        ),
        front.len() == 0 ==> name_wire(front + back) == name_wire(back),
    decreases front.len(),
{
    if front.len() == 0 {
        assert(front + back =~= back);
    } else {
        assert((front + back)[0] == front[0]);
        assert((front + back).drop_first() =~= front.drop_first() + back);
        lemma_name_wire_parts(front.drop_first(), back);
    }
}

/// Decoding a name written in full records, under the offset of each of
/// its labels, the rest of the name from that label on. `front` holds the
/// labels before the one looked at, `back` that label and those after it.
pub proof fn lemma_suffix_recorded(
    bytes: Seq<u8>,
    start: int,
    table: Map<int, Seq<Seq<char>>>,
    into: Map<int, Seq<Seq<char>>>,
    front: Seq<Seq<char>>,
    back: Seq<Seq<char>>,
)
    requires
        name_fits(front + back),
        back.len() > 0,
        shows_at(bytes, start, name_wire(front + back)),
        start + name_wire(front + back).len() <= bytes.len(),
    ensures
        ({
            let at = start + name_wire(front + back).len() - name_wire(back).len();
            &&& start <= at
            &&& with_suffixes(bytes, start, table, into).contains_key(at)
            &&& with_suffixes(bytes, start, table, into)[at] == back
        }),
    decreases front.len(),
{
    let name = front + back;
    lemma_name_wire_parts(front, back);
    lemma_name_shown(bytes, start, table, name);
    let first = name[0];
    assert(label_fits(first));
    let text = encode_utf8(first);
    assert(name_wire(name) == label_wire(first) + name_wire(name.drop_first()));
    assert(name_wire(name)[0] == text.len() as u8);
    assert(bytes[start] == name_wire(name)[0]);
    assert(label_starts_at(bytes, start));
    let next = start + 1 + text.len();
    let grown = into.insert(start, name);
    assert(with_suffixes(bytes, start, table, into) == with_suffixes(bytes, next, table, grown));
    if front.len() == 0 {
        assert(name =~= back);
        lemma_suffixes_keep_earlier(bytes, next, table, grown, start);
    } else {
        let shorter = front.drop_first();
        assert(name.drop_first() =~= shorter + back);
        assert forall|i: int| 0 <= i < (shorter + back).len() implies label_fits(
            #[trigger] (shorter + back)[i],
        ) by {
            assert((shorter + back)[i] == name[i + 1]);
        }
        lemma_shows_parts(bytes, start, label_wire(first), name_wire(shorter + back));
        lemma_suffix_recorded(bytes, next, table, grown, shorter, back);
    }
}

/// A pointer to a label of a name decoded before reads as the rest of that
/// name from that label on.
///
/// The name `front + back` stands in full at `start` and has been decoded
/// against `table`; the pointer stands at `at` and points to the first
/// label of `back`. Read against the table as the first decoding left it,
/// the pointer is the name `back`, and two octets are used.
pub proof fn theorem_pointer_reads_suffix(
    bytes: Seq<u8>,
    start: int,
    table: Map<int, Seq<Seq<char>>>,
    front: Seq<Seq<char>>,
    back: Seq<Seq<char>>,
    at: int,
)
    requires
        name_fits(front + back),
        back.len() > 0,
        shows_at(bytes, start, name_wire(front + back)),
        start + name_wire(front + back).len() <= bytes.len(),
        0 <= at,
        at + 2 <= bytes.len(),
        is_pointer_octet(bytes[at]),
        pointer_target(bytes[at], bytes[at + 1]) == start + name_wire(front + back).len()
            - name_wire(back).len(),
    ensures
        name_at(bytes, start, table) == Ok::<(Seq<Seq<char>>, int), CodecError>(
            (front + back, start + name_wire(front + back).len()),
        ),
        name_at(bytes, at, table_after(bytes, start, table)) == Ok::<
            (Seq<Seq<char>>, int),
            CodecError,
        >((back, at + 2)),
{
    lemma_name_shown(bytes, start, table, front + back);
    lemma_suffix_recorded(bytes, start, table, table.insert(start, front + back), front, back);
}

/// Two questions, the second of which names a suffix of the first by a
/// pointer, decode to both names in full.
///
/// The datagram holds a header that counts two questions and no answers,
/// then the first question with its name `front + back` written out, then,
/// at `at`, the second question: a pointer to the first label of `back`, a
/// type and a class. The second question comes back with the name `back`,
/// as if it had been written out.
pub proof fn theorem_suffix_question_by_pointer(
    bytes: Seq<u8>,
    front: Seq<Seq<char>>,
    back: Seq<Seq<char>>,
    first: QuestionView,
    second: QuestionView,
    at: int,
)
    requires
        Header::from_wire(bytes) is Some,
        Header::from_wire(bytes)->0.qdcount == 2,
        Header::from_wire(bytes)->0.ancount == 0,
        first.name == front + back,
        second.name == back,
        name_fits(first.name),
        back.len() > 0,
        shows_at(bytes, 12, first.wire()),
        at == 12 + first.wire().len(),
        at + 6 <= bytes.len(),
        is_pointer_octet(bytes[at]),
        pointer_target(bytes[at], bytes[at + 1]) == 12 + name_wire(first.name).len() - name_wire(
            back,
        ).len(),
        u16_at(bytes, at + 2) == Some(second.tipe.wire_value()),
        u16_at(bytes, at + 4) == Some(second.class.wire_value()),
    ensures
        decode_message(bytes) == Ok::<(MessageView, int), CodecError>(
            (
                MessageView {
                    header: Header::from_wire(bytes)->0,
                    questions: seq![first, second],
                    answers: Seq::empty(),
                },
                at + 6,
            ),
        ),
{
    let empty = Map::<int, Seq<Seq<char>>>::empty();
    lemma_first_question_read(bytes, first);
    let recorded = table_after(bytes, 12, empty);
    lemma_name_wire_parts(front, back);
    lemma_head_shown(bytes, 12, empty, first.name, first.tipe, first.class);
    let behind_name = u16_octets(first.tipe.wire_value()) + u16_octets(
        first.class.wire_value(),
    );
    assert(first.wire() =~= name_wire(first.name) + behind_name);
    lemma_shows_parts(bytes, 12, name_wire(first.name), behind_name);
    theorem_pointer_reads_suffix(bytes, 12, empty, front, back, at);
    QType::lemma_wire_value_inverse(second.tipe, 0);
    ResourceClass::lemma_wire_value_inverse(second.class, 0);
    assert(decode_question(bytes, at, recorded) is Ok);
    assert(decode_question(bytes, at, recorded)->Ok_0.0 == second);
    assert(decode_question(bytes, at, recorded)->Ok_0.1 == at + 6);
    assert(decode_questions(bytes, 12, empty, 0) is Ok);
    let one = decode_questions(bytes, 12, empty, 1);
    assert(one is Ok && one->Ok_0.0 =~= seq![first] && one->Ok_0.1 == at && one->Ok_0.2
        == recorded);
    let two = decode_questions(bytes, 12, empty, 2);
    assert(two is Ok && two->Ok_0.0 =~= seq![first, second] && two->Ok_0.1 == at + 6);
    assert(decode_answers(bytes, at + 6, two->Ok_0.2, 0) is Ok);
}

/// A question written out at the start of the question section reads back
/// as written, and leaves the table as the decoding of its name leaves it.
proof fn lemma_first_question_read(bytes: Seq<u8>, first: QuestionView)
    requires
        name_fits(first.name),
        shows_at(bytes, 12, first.wire()),
        12 + first.wire().len() <= bytes.len(),
    ensures
        decode_question(bytes, 12, Map::empty()) == Ok::<
            (QuestionView, int, Map<int, Seq<Seq<char>>>),
            CodecError,
        >((first, 12 + first.wire().len() as int, table_after(bytes, 12, Map::empty()))),
{
    lemma_question_shown(bytes, 12, Map::empty(), first);
}

} // verus!
