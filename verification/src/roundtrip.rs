//! What decoding makes of an encoded message: the message itself when all
//! of its octets are there, and `TruncatedInput` when the octets stop early.

use crate::answer::{decode_answer, AnswerView};
use crate::error::CodecError;
use crate::header::{lemma_flag_fields_roundtrip, Header};
use crate::message::{
    answers_wire, decode_answers, decode_message, decode_questions, questions_wire, MessageView,
};
use crate::name::{
    label_fits, label_wire, lemma_label_text_encoded, name_at, name_fits, name_wire,
};
use crate::question::{decode_head, decode_question, head_wire, QuestionView, RecordHead};
use crate::rrtype::{QType, ResourceClass};
use crate::wire::{
    lemma_be16_of_octets, lemma_be32_of_octets, u16_at, u16_octets, u32_at, u32_octets,
};
use vstd::prelude::*;
use vstd::utf8::encode_utf8;

verus! {

/// `bytes` shows `wire` from `pos` on, as far as `bytes` reaches.
pub open spec fn shows_at(bytes: Seq<u8>, pos: int, wire: Seq<u8>) -> bool {
    &&& 0 <= pos
    &&& forall|i: int|
        0 <= i < wire.len() && pos + i < bytes.len() ==> bytes[pos + i] == #[trigger] wire[i]
}

/// Where octets show two pieces joined, they show the first piece and,
/// behind it, the second.
pub proof fn lemma_shows_parts(bytes: Seq<u8>, pos: int, first: Seq<u8>, second: Seq<u8>)
    requires
        shows_at(bytes, pos, first + second),
    ensures
        shows_at(bytes, pos, first),
        shows_at(bytes, pos + first.len(), second),
{
    let whole = first + second;
    assert forall|i: int| 0 <= i < first.len() && pos + i < bytes.len() implies bytes[pos + i]
        == #[trigger] first[i] by {
        assert(whole[i] == first[i]);
    }
    assert forall|i: int|
        0 <= i < second.len() && pos + first.len() + i < bytes.len() implies bytes[pos
        + first.len() + i] == #[trigger] second[i] by {
        assert(whole[first.len() + i] == second[i]);
    }
}

/// Octets that show a piece in full hold it as a subrange.
pub proof fn lemma_shows_whole(bytes: Seq<u8>, pos: int, wire: Seq<u8>)
    requires
        shows_at(bytes, pos, wire),
        pos + wire.len() <= bytes.len(),
    ensures
        bytes.subrange(pos, pos + wire.len()) == wire,
{
    assert forall|i: int| 0 <= i < wire.len() implies bytes.subrange(pos, pos + wire.len())[i]
        == wire[i] by {
        assert(bytes[pos + i] == wire[i]);
    }
    assert(bytes.subrange(pos, pos + wire.len()) =~= wire);
}

/// A 16-bit field that octets show reads back as the number written, and
/// cannot be read where the octets stop short of it.
pub proof fn lemma_u16_shown(bytes: Seq<u8>, pos: int, v: u16)
    requires
        shows_at(bytes, pos, u16_octets(v)),
    ensures
        pos + 2 <= bytes.len() ==> u16_at(bytes, pos) == Some(v),
        pos + 2 > bytes.len() ==> u16_at(bytes, pos) is None,
{
    if pos + 2 <= bytes.len() {
        lemma_shows_whole(bytes, pos, u16_octets(v));
        lemma_be16_of_octets(v);
        let shown = bytes.subrange(pos, pos + 2);
        assert(shown[0] == bytes[pos] && shown[1] == bytes[pos + 1]);
    }
}

/// A 32-bit field that octets show reads back as the number written, and
/// cannot be read where the octets stop short of it.
pub proof fn lemma_u32_shown(bytes: Seq<u8>, pos: int, v: u32)
    requires
        shows_at(bytes, pos, u32_octets(v)),
    ensures
        pos + 4 <= bytes.len() ==> u32_at(bytes, pos) == Some(v),
        pos + 4 > bytes.len() ==> u32_at(bytes, pos) is None,
{
    if pos + 4 <= bytes.len() {
        lemma_shows_whole(bytes, pos, u32_octets(v));
        lemma_be32_of_octets(v);
        let shown = bytes.subrange(pos, pos + 4);
        assert(shown[0] == bytes[pos] && shown[1] == bytes[pos + 1] && shown[2] == bytes[pos + 2]
            && shown[3] == bytes[pos + 3]);
    }
}

/// A name written in full, with labels of 1 to 63 octets, reads back as
/// itself whatever the table holds; where the octets stop before the name
/// does, reading fails with `TruncatedInput`.
pub proof fn lemma_name_shown(
    bytes: Seq<u8>,
    pos: int,
    table: Map<int, Seq<Seq<char>>>,
    name: Seq<Seq<char>>,
)
    requires
        name_fits(name),
        shows_at(bytes, pos, name_wire(name)),
    ensures
        pos + name_wire(name).len() <= bytes.len() ==> name_at(bytes, pos, table) == Ok::<
            (Seq<Seq<char>>, int),
            CodecError,
        >((name, pos + name_wire(name).len())),
        pos + name_wire(name).len() > bytes.len() ==> name_at(bytes, pos, table) == Err::<
            (Seq<Seq<char>>, int),
            CodecError,
        >(CodecError::TruncatedInput),
    decreases name.len(),
{
    let wire = name_wire(name);
    if name.len() == 0 {
        assert(wire[0] == 0u8);
        assert(name =~= Seq::<Seq<char>>::empty());
    } else {
        let label = name[0];
        let text = encode_utf8(label);
        let rest = name.drop_first();
        let rest_wire = name_wire(rest);
        assert(label_fits(label));
        assert(wire == label_wire(label) + rest_wire);
        assert(label_wire(label).len() == 1 + text.len());
        lemma_shows_parts(bytes, pos, label_wire(label), rest_wire);
        assert(wire[0] == text.len() as u8);
        if pos < bytes.len() {
            assert(bytes[pos] == wire[0]);
            let next = pos + 1 + text.len();
            if next <= bytes.len() {
                lemma_shows_whole(bytes, pos, label_wire(label));
                assert(bytes.subrange(pos + 1, next) =~= text) by {
                    assert forall|j: int| 0 <= j < text.len() implies bytes.subrange(
                        pos + 1,
                        next,
                    )[j] == text[j] by {
                        assert(bytes.subrange(pos, next)[j + 1] == label_wire(label)[j + 1]);
                    }
                }
                lemma_label_text_encoded(label);
                assert forall|i: int| 0 <= i < rest.len() implies label_fits(
                    #[trigger] rest[i],
                ) by {
                    assert(rest[i] == name[i + 1]);
                }
                lemma_name_shown(bytes, next, table, rest);
                assert(seq![label] + rest =~= name);
            }
        }
    }
}

/// A record head written with a name of fitting labels reads back as
/// written; where the octets stop before the head does, reading fails with
/// `TruncatedInput`.
pub proof fn lemma_head_shown(
    bytes: Seq<u8>,
    pos: int,
    table: Map<int, Seq<Seq<char>>>,
    name: Seq<Seq<char>>,
    tipe: QType,
    class: ResourceClass,
)
    requires
        name_fits(name),
        shows_at(bytes, pos, head_wire(name, tipe, class)),
    ensures
        head_wire(name, tipe, class).len() == name_wire(name).len() + 4,
        pos + head_wire(name, tipe, class).len() <= bytes.len() ==> {
            &&& decode_head(bytes, pos, table) is Ok
            &&& decode_head(bytes, pos, table)->Ok_0.0 == RecordHead { name, tipe, class }
            &&& decode_head(bytes, pos, table)->Ok_0.1 == pos + head_wire(name, tipe, class).len()
        },
        pos + head_wire(name, tipe, class).len() > bytes.len() ==> decode_head(bytes, pos, table)
            == Err::<(RecordHead, int, Map<int, Seq<Seq<char>>>), CodecError>(
            CodecError::TruncatedInput,
        ),
{
    let name_part = name_wire(name);
    let tipe_part = u16_octets(tipe.wire_value());
    let class_part = u16_octets(class.wire_value());
    assert(head_wire(name, tipe, class) == (name_part + tipe_part) + class_part);
    lemma_shows_parts(bytes, pos, name_part + tipe_part, class_part);
    lemma_shows_parts(bytes, pos, name_part, tipe_part);
    lemma_name_shown(bytes, pos, table, name);
    let behind_name = pos + name_part.len();
    lemma_u16_shown(bytes, behind_name, tipe.wire_value());
    lemma_u16_shown(bytes, behind_name + 2, class.wire_value());
    QType::lemma_wire_value_inverse(tipe, 0);
    ResourceClass::lemma_wire_value_inverse(class, 0);
}

/// A question written with a name of fitting labels reads back as written;
/// where the octets stop before the question does, reading fails with
/// `TruncatedInput`.
pub proof fn lemma_question_shown(
    bytes: Seq<u8>,
    pos: int,
    table: Map<int, Seq<Seq<char>>>,
    question: QuestionView,
)
    requires
        name_fits(question.name),
        shows_at(bytes, pos, question.wire()),
    ensures
        pos + question.wire().len() <= bytes.len() ==> {
            &&& decode_question(bytes, pos, table) is Ok
            &&& decode_question(bytes, pos, table)->Ok_0.0 == question
            &&& decode_question(bytes, pos, table)->Ok_0.1 == pos + question.wire().len()
        },
        pos + question.wire().len() > bytes.len() ==> decode_question(bytes, pos, table) == Err::<
            (QuestionView, int, Map<int, Seq<Seq<char>>>),
            CodecError,
        >(CodecError::TruncatedInput),
{
    lemma_head_shown(bytes, pos, table, question.name, question.tipe, question.class);
}

/// An answer that a decoder can read back: a name of fitting labels, and a
/// payload whose length is the one the record carries.
pub open spec fn answer_fits(answer: AnswerView) -> bool {
    name_fits(answer.name) && answer.rdata.len() == answer.rdlength
}

/// An answer that fits reads back as written; where the octets stop before
/// the answer does, reading fails with `TruncatedInput`.
pub proof fn lemma_answer_shown(
    bytes: Seq<u8>,
    pos: int,
    table: Map<int, Seq<Seq<char>>>,
    answer: AnswerView,
)
    requires
        answer_fits(answer),
        shows_at(bytes, pos, answer.wire()),
    ensures
        pos + answer.wire().len() <= bytes.len() ==> {
            &&& decode_answer(bytes, pos, table) is Ok
            &&& decode_answer(bytes, pos, table)->Ok_0.0 == answer
            &&& decode_answer(bytes, pos, table)->Ok_0.1 == pos + answer.wire().len()
        },
        pos + answer.wire().len() > bytes.len() ==> decode_answer(bytes, pos, table) == Err::<
            (AnswerView, int, Map<int, Seq<Seq<char>>>),
            CodecError,
        >(CodecError::TruncatedInput),
{
    let head_part = head_wire(answer.name, answer.tipe, answer.class);
    let ttl_part = u32_octets(answer.ttl);
    let length_part = u16_octets((answer.rdata.len() % 0x1_0000) as u16);
    assert(answer.wire() == ((head_part + ttl_part) + length_part) + answer.rdata);
    lemma_shows_parts(bytes, pos, (head_part + ttl_part) + length_part, answer.rdata);
    lemma_shows_parts(bytes, pos, head_part + ttl_part, length_part);
    lemma_shows_parts(bytes, pos, head_part, ttl_part);
    lemma_head_shown(bytes, pos, table, answer.name, answer.tipe, answer.class);
    let behind_head = pos + head_part.len();
    lemma_u32_shown(bytes, behind_head, answer.ttl);
    lemma_u16_shown(bytes, behind_head + 4, answer.rdlength);
    if pos + answer.wire().len() <= bytes.len() {
        lemma_shows_whole(bytes, behind_head + 6, answer.rdata);
    }
}

/// Questions all of whose names have fitting labels.
pub open spec fn questions_fit(questions: Seq<QuestionView>) -> bool {
    forall|i: int| 0 <= i < questions.len() ==> name_fits((#[trigger] questions[i]).name)
}

/// Answers all of which fit.
pub open spec fn answers_fit(answers: Seq<AnswerView>) -> bool {
    forall|i: int| 0 <= i < answers.len() ==> answer_fits(#[trigger] answers[i])
}

/// Questions that fit read back as written, in order, from an offset that
/// the octets reach; where the octets stop before the questions do, reading
/// fails with `TruncatedInput`.
pub proof fn lemma_questions_shown(
    bytes: Seq<u8>,
    pos: int,
    table: Map<int, Seq<Seq<char>>>,
    questions: Seq<QuestionView>,
)
    requires
        questions_fit(questions),
        pos <= bytes.len(),
        shows_at(bytes, pos, questions_wire(questions)),
    ensures
        pos + questions_wire(questions).len() <= bytes.len() ==> {
            &&& decode_questions(bytes, pos, table, questions.len()) is Ok
            &&& decode_questions(bytes, pos, table, questions.len())->Ok_0.0 == questions
            &&& decode_questions(bytes, pos, table, questions.len())->Ok_0.1 == pos
                + questions_wire(questions).len()
        },
        pos + questions_wire(questions).len() > bytes.len() ==> decode_questions(
            bytes,
            pos,
            table,
            questions.len(),
        ) == Err::<(Seq<QuestionView>, int, Map<int, Seq<Seq<char>>>), CodecError>(
            CodecError::TruncatedInput,
        ),
    decreases questions.len(),
{
    if questions.len() == 0 {
        assert(questions =~= Seq::<QuestionView>::empty());
    } else {
        let earlier = questions.drop_last();
        let last = questions.last();
        assert forall|i: int| 0 <= i < earlier.len() implies name_fits(
            (#[trigger] earlier[i]).name,
        ) by {
            assert(earlier[i] == questions[i]);
        }
        lemma_shows_parts(bytes, pos, questions_wire(earlier), last.wire());
        lemma_questions_shown(bytes, pos, table, earlier);
        let at = pos + questions_wire(earlier).len();
        if at <= bytes.len() {
            let recorded = decode_questions(bytes, pos, table, earlier.len())->Ok_0.2;
            lemma_question_shown(bytes, at, recorded, last);
            assert(earlier.push(last) =~= questions);
        } else {
            assert(decode_questions(bytes, pos, table, earlier.len()) is Err);
        }
    }
}

/// Answers that fit read back as written, in order, from an offset that the
/// octets reach; where the octets stop before the answers do, reading fails
/// with `TruncatedInput`.
pub proof fn lemma_answers_shown(
    bytes: Seq<u8>,
    pos: int,
    table: Map<int, Seq<Seq<char>>>,
    answers: Seq<AnswerView>,
)
    requires
        answers_fit(answers),
        pos <= bytes.len(),
        shows_at(bytes, pos, answers_wire(answers)),
    ensures
        pos + answers_wire(answers).len() <= bytes.len() ==> {
            &&& decode_answers(bytes, pos, table, answers.len()) is Ok
            &&& decode_answers(bytes, pos, table, answers.len())->Ok_0.0 == answers
            &&& decode_answers(bytes, pos, table, answers.len())->Ok_0.1 == pos + answers_wire(
                answers,
            ).len()
        },
        pos + answers_wire(answers).len() > bytes.len() ==> decode_answers(
            bytes,
            pos,
            table,
            answers.len(),
        ) == Err::<(Seq<AnswerView>, int, Map<int, Seq<Seq<char>>>), CodecError>(
            CodecError::TruncatedInput,
        ),
    decreases answers.len(),
{
    if answers.len() == 0 {
        assert(answers =~= Seq::<AnswerView>::empty());
    } else {
        let earlier = answers.drop_last();
        let last = answers.last();
        assert forall|i: int| 0 <= i < earlier.len() implies answer_fits(
            #[trigger] earlier[i],
        ) by {
            assert(earlier[i] == answers[i]);
        }
        lemma_shows_parts(bytes, pos, answers_wire(earlier), last.wire());
        lemma_answers_shown(bytes, pos, table, earlier);
        let at = pos + answers_wire(earlier).len();
        if at <= bytes.len() {
            let recorded = decode_answers(bytes, pos, table, earlier.len())->Ok_0.2;
            lemma_answer_shown(bytes, at, recorded, last);
            assert(earlier.push(last) =~= answers);
        } else {
            assert(decode_answers(bytes, pos, table, earlier.len()) is Err);
        }
    }
}

impl MessageView {
    /// A message that is valid on the wire: the header's fields fit their
    /// places, its counts are those of the sections, every label has 1 to 63
    /// octets, and every payload has the length its record carries.
    pub open spec fn well_formed(self) -> bool {
        &&& self.header.in_range()
        &&& self.header.qdcount == self.questions.len()
        &&& self.header.ancount == self.answers.len()
        &&& self.header.nscount == 0
        &&& self.header.arcount == 0
        &&& questions_fit(self.questions)
        &&& answers_fit(self.answers)
    }
}

/// A header whose fields fit their places reads back as written from
/// octets that show it from their start; fewer than twelve octets hold no
/// header.
pub proof fn lemma_header_shown(bytes: Seq<u8>, header: Header)
    requires
        header.in_range(),
        shows_at(bytes, 0, header.wire()),
    ensures
        header.wire().len() == 12,
        bytes.len() >= 12 ==> Header::from_wire(bytes) == Some(header),
        bytes.len() < 12 ==> Header::from_wire(bytes) is None,
{
    let wire = header.wire();
    assert(wire.len() == 12);
    if bytes.len() >= 12 {
        lemma_flag_fields_roundtrip(
            header.qr,
            header.opcode,
            header.aa,
            header.tc,
            header.rd,
            header.ra,
            header.z,
            header.rcode,
        );
        assert forall|i: int| 0 <= i < 12 implies bytes[i] == wire[i] by {
            assert(bytes[0 + i] == wire[i]);
        }
        assert(bytes[2] == header.flags_hi());
        assert(bytes[3] == header.flags_lo());
    }
}

/// The encoder enforces the counts: whatever the header of a message
/// holds, the header that goes out counts the questions and answers that
/// the message has, modulo 65536, and no other records. The id and the
/// five flags go out as they are; the three numbers go out as they are
/// where they fit their places.
pub proof fn theorem_wire_header(message: MessageView)
    ensures
        message.wire().len() >= 12,
        Header::from_wire(message.wire()) is Some,
        ({
            let sent = Header::from_wire(message.wire())->0;
            &&& sent.qdcount == message.questions.len() % 0x1_0000
            &&& sent.ancount == message.answers.len() % 0x1_0000
            &&& sent.nscount == 0
            &&& sent.arcount == 0
            &&& sent.id == message.header.id
            &&& sent.qr == message.header.qr
            &&& sent.aa == message.header.aa
            &&& sent.tc == message.header.tc
            &&& sent.rd == message.header.rd
            &&& sent.ra == message.header.ra
            &&& message.header.in_range() ==> sent == message.outgoing_header()
        }),
{
    let header = message.outgoing_header();
    let wire = message.wire();
    let behind = questions_wire(message.questions) + answers_wire(message.answers);
    assert(wire =~= header.wire() + behind);
    assert(header.wire().len() == 12);
    assert forall|i: int| 0 <= i < 12 implies wire[i] == header.wire()[i] by {}
    lemma_flag_fields_roundtrip(
        header.qr,
        header.opcode,
        header.aa,
        header.tc,
        header.rd,
        header.ra,
        header.z,
        header.rcode,
    );
    assert(wire[2] == header.flags_hi());
    assert(wire[3] == header.flags_lo());
}

/// What decoding makes of octets behind a header that counts the
/// questions and answers shown there: the message, where all of its octets
/// are there; and `TruncatedInput`, where they stop early.
pub proof fn lemma_sections_shown(
    bytes: Seq<u8>,
    header: Header,
    questions: Seq<QuestionView>,
    answers: Seq<AnswerView>,
)
    requires
        Header::from_wire(bytes) == Some(header),
        header.qdcount == questions.len(),
        header.ancount == answers.len(),
        questions_fit(questions),
        answers_fit(answers),
        shows_at(bytes, 12, questions_wire(questions)),
        shows_at(bytes, 12 + questions_wire(questions).len() as int, answers_wire(answers)),
    ensures
        12 + questions_wire(questions).len() + answers_wire(answers).len() <= bytes.len()
            ==> decode_message(bytes) == Ok::<(MessageView, int), CodecError>(
            (
                MessageView { header, questions, answers },
                12 + questions_wire(questions).len() as int + answers_wire(answers).len() as int,
            ),
        ),
        12 + questions_wire(questions).len() + answers_wire(answers).len() > bytes.len()
            ==> decode_message(bytes) == Err::<(MessageView, int), CodecError>(
            CodecError::TruncatedInput,
        ),
{
    let empty = Map::<int, Seq<Seq<char>>>::empty();
    let behind_questions = 12 + questions_wire(questions).len() as int;
    assert(bytes.len() >= 12);
    lemma_questions_shown(bytes, 12, empty, questions);
    let asked = decode_questions(bytes, 12, empty, header.qdcount as nat);
    if behind_questions <= bytes.len() {
        lemma_answers_shown(bytes, behind_questions, asked->Ok_0.2, answers);
    }
}

/// Octets that show a well-formed message from their start show its
/// header first, then its questions, then its answers.
pub proof fn lemma_message_layout(bytes: Seq<u8>, message: MessageView)
    requires
        message.well_formed(),
        shows_at(bytes, 0, message.wire()),
    ensures
        message.wire().len() == 12 + questions_wire(message.questions).len() + answers_wire(
            message.answers,
        ).len(),
        bytes.len() >= 12 ==> Header::from_wire(bytes) == Some(message.header),
        bytes.len() < 12 ==> Header::from_wire(bytes) is None,
        shows_at(bytes, 12, questions_wire(message.questions)),
        shows_at(
            bytes,
            12 + questions_wire(message.questions).len() as int,
            answers_wire(message.answers),
        ),
{
    let header = message.header;
    let header_part = header.wire();
    let questions_part = questions_wire(message.questions);
    let answers_part = answers_wire(message.answers);
    assert(message.outgoing_header() == header);
    assert(message.wire() == (header_part + questions_part) + answers_part);
    lemma_shows_parts(bytes, 0, header_part + questions_part, answers_part);
    lemma_shows_parts(bytes, 0, header_part, questions_part);
    lemma_header_shown(bytes, header);
}

/// What decoding makes of octets that show a well-formed message from
/// their start: the message, where all of its octets are there; and
/// `TruncatedInput`, where they stop early.
pub proof fn lemma_message_shown(bytes: Seq<u8>, message: MessageView)
    requires
        message.well_formed(),
        shows_at(bytes, 0, message.wire()),
    ensures
        message.wire().len() <= bytes.len() ==> decode_message(bytes) == Ok::<
            (MessageView, int),
            CodecError,
        >((message, message.wire().len() as int)),
        message.wire().len() > bytes.len() ==> decode_message(bytes) == Err::<
            (MessageView, int),
            CodecError,
        >(CodecError::TruncatedInput),
{
    lemma_message_layout(bytes, message);
    if bytes.len() >= 12 {
        lemma_sections_shown(bytes, message.header, message.questions, message.answers);
    }
}

/// Decoding the octets of a well-formed message gives back the message,
/// and all of the octets are used.
pub proof fn theorem_decode_encode(message: MessageView)
    requires
        message.well_formed(),
    ensures
        decode_message(message.wire()) == Ok::<(MessageView, int), CodecError>(
            (message, message.wire().len() as int),
        ),
{
    lemma_message_shown(message.wire(), message);
}

/// Octets that follow a well-formed message do not change what is decoded:
/// the message comes back, and the offset behind it is where they start.
pub proof fn theorem_decode_ignores_trailing(message: MessageView, trailing: Seq<u8>)
    requires
        message.well_formed(),
    ensures
        decode_message(message.wire() + trailing) == Ok::<(MessageView, int), CodecError>(
            (message, message.wire().len() as int),
        ),
{
    lemma_message_shown(message.wire() + trailing, message);
}

/// Cutting the octets of a well-formed message short, anywhere before
/// their end, makes decoding fail with `TruncatedInput`.
pub proof fn theorem_truncated_fails(message: MessageView, kept: int)
    requires
        message.well_formed(),
        0 <= kept < message.wire().len(),
    ensures
        decode_message(message.wire().take(kept)) == Err::<(MessageView, int), CodecError>(
            CodecError::TruncatedInput,
        ),
{
    lemma_message_shown(message.wire().take(kept), message);
}

impl AnswerView {
    /// The answer as the encoder sends it: with the length of its payload
    /// in place of whatever `rdlength` held.
    pub open spec fn as_sent(self) -> AnswerView {
        AnswerView {
            name: self.name,
            tipe: self.tipe,
            class: self.class,
            ttl: self.ttl,
            rdlength: (self.rdata.len() % 0x1_0000) as u16,
            rdata: self.rdata,
        }
    }
}

impl MessageView {
    /// The message as the encoder sends it: the counts in the header and
    /// the length of each payload are those of the sections and payloads
    /// themselves.
    pub open spec fn as_sent(self) -> MessageView {
        MessageView {
            header: self.outgoing_header(),
            questions: self.questions,
            answers: self.answers.map_values(|a: AnswerView| a.as_sent()),
        }
    }

    /// A message that the wire can carry: the header's fields fit their
    /// places, every label has 1 to 63 octets, and the number of questions,
    /// the number of answers and the length of each payload fit 16 bits.
    pub open spec fn sendable(self) -> bool {
        &&& self.header.in_range()
        &&& self.questions.len() < 0x1_0000
        &&& self.answers.len() < 0x1_0000
        &&& questions_fit(self.questions)
        &&& forall|i: int|
            0 <= i < self.answers.len() ==> name_fits((#[trigger] self.answers[i]).name)
                && self.answers[i].rdata.len() < 0x1_0000
    }
}

/// Answers go out as the same octets whether or not their `rdlength`
/// fields have been set to the lengths of their payloads.
pub proof fn lemma_answers_wire_as_sent(answers: Seq<AnswerView>)
    ensures
        answers_wire(answers.map_values(|a: AnswerView| a.as_sent())) == answers_wire(answers),
    decreases answers.len(),
{
    let sent = answers.map_values(|a: AnswerView| a.as_sent());
    if answers.len() > 0 {
        lemma_answers_wire_as_sent(answers.drop_last());
        assert(sent.drop_last() =~= answers.drop_last().map_values(|a: AnswerView| a.as_sent()));
        assert(sent.last().wire() == answers.last().wire());
    }
}

/// A message goes out as the same octets whether or not its counts and
/// `rdlength` fields have been set from its sections and payloads.
pub proof fn lemma_wire_as_sent(message: MessageView)
    ensures
        message.as_sent().wire() == message.wire(),
{
    lemma_answers_wire_as_sent(message.answers);
    assert(message.as_sent().outgoing_header() == message.outgoing_header());
}

/// A message that the wire can carry is well-formed as it is sent.
pub proof fn lemma_as_sent_well_formed(message: MessageView)
    requires
        message.sendable(),
    ensures
        message.as_sent().well_formed(),
{
    let sent = message.as_sent();
    assert forall|i: int| 0 <= i < sent.answers.len() implies answer_fits(
        #[trigger] sent.answers[i],
    ) by {
        assert(sent.answers[i] == message.answers[i].as_sent());
        assert(name_fits(message.answers[i].name));
    }
}

/// The encoder enforces what a message must satisfy on the wire: decoding
/// the octets of any message that the wire can carry gives the message
/// with its counts and payload lengths set from its sections and payloads.
/// Whatever the header's counts and the `rdlength` fields held is not sent.
pub proof fn theorem_decode_encode_as_sent(message: MessageView)
    requires
        message.sendable(),
    ensures
        decode_message(message.wire()) == Ok::<(MessageView, int), CodecError>(
            (message.as_sent(), message.wire().len() as int),
        ),
{
    lemma_wire_as_sent(message);
    lemma_as_sent_well_formed(message);
    theorem_decode_encode(message.as_sent());
}

/// A well-formed message is sent as it is.
pub proof fn lemma_well_formed_as_sent(message: MessageView)
    requires
        message.well_formed(),
    ensures
        message.sendable(),
        message.as_sent() == message,
{
    assert forall|i: int| 0 <= i < message.answers.len() implies name_fits(
        (#[trigger] message.answers[i]).name,
    ) && message.answers[i].rdata.len() < 0x1_0000 by {
        assert(answer_fits(message.answers[i]));
    }
    assert(message.as_sent().answers =~= message.answers) by {
        assert forall|i: int| 0 <= i < message.answers.len() implies message.as_sent().answers[i]
            == message.answers[i] by {
            assert(answer_fits(message.answers[i]));
        }
    }
}

} // verus!
