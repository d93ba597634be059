//! Whole messages: a header, the questions, the answers.

use crate::answer::{decode_answer, Answer, AnswerView};
use crate::error::CodecError;
use crate::header::{Header, HEADER_LEN};
use crate::name::CompressionTable;
use crate::question::{decode_question, Question, QuestionView};
use crate::wire::push_octets;
use vstd::prelude::*;
use vstd::slice::slice_subrange;

verus! {

/// A message: the header, then the questions, then the answers, in the
/// order in which they stand on the wire.
#[derive(Clone, Debug, PartialEq, Eq)]
pub struct Message {
    pub header: Header,
    pub questions: Vec<Question>,
    pub answers: Vec<Answer>,
}

/// What a message says.
pub struct MessageView {
    pub header: Header,
    pub questions: Seq<QuestionView>,
    pub answers: Seq<AnswerView>,
}

impl View for Message {
    type V = MessageView;

    open spec fn view(&self) -> MessageView {
        MessageView {
            header: self.header,
            questions: questions_view(self.questions@),
            answers: answers_view(self.answers@),
        }
    }
}

/// The questions on the wire, one behind the other.
pub open spec fn questions_wire(questions: Seq<QuestionView>) -> Seq<u8>
    decreases questions.len(),
{
    if questions.len() == 0 {
        Seq::empty()
    } else {
        questions_wire(questions.drop_last()) + questions.last().wire()
    }
}

/// The answers on the wire, one behind the other.
pub open spec fn answers_wire(answers: Seq<AnswerView>) -> Seq<u8>
    decreases answers.len(),
{
    if answers.len() == 0 {
        Seq::empty()
    } else {
        answers_wire(answers.drop_last()) + answers.last().wire()
    }
}

/// The first `count` questions from `pos` on, the offset behind them and
/// the table with their names recorded; or the first failure met.
pub open spec fn decode_questions(
    bytes: Seq<u8>,
    pos: int,
    table: Map<int, Seq<Seq<char>>>,
    count: nat,
) -> Result<(Seq<QuestionView>, int, Map<int, Seq<Seq<char>>>), CodecError>
    decreases count,
{
    if count == 0 {
        Ok((Seq::empty(), pos, table))
    } else {
        match decode_questions(bytes, pos, table, (count - 1) as nat) {
            Err(e) => Err(e),
            Ok((earlier, at, recorded)) => match decode_question(bytes, at, recorded) {
                Err(e) => Err(e),
                Ok((question, end, recorded)) => Ok((earlier.push(question), end, recorded)),
            },
        }
    }
}

/// The first `count` answers from `pos` on, the offset behind them and the
/// table with their names recorded; or the first failure met.
pub open spec fn decode_answers(
    bytes: Seq<u8>,
    pos: int,
    table: Map<int, Seq<Seq<char>>>,
    count: nat,
) -> Result<(Seq<AnswerView>, int, Map<int, Seq<Seq<char>>>), CodecError>
    decreases count,
{
    if count == 0 {
        Ok((Seq::empty(), pos, table))
    } else {
        match decode_answers(bytes, pos, table, (count - 1) as nat) {
            Err(e) => Err(e),
            Ok((earlier, at, recorded)) => match decode_answer(bytes, at, recorded) {
                Err(e) => Err(e),
                Ok((answer, end, recorded)) => Ok((earlier.push(answer), end, recorded)),
            },
        }
    }
}

/// The message that a datagram holds and the offset behind its last
/// answer; or the first failure met. The header comes first, then as many
/// questions as it counts, then as many answers as it counts; names are
/// read against a table that starts empty.
pub open spec fn decode_message(bytes: Seq<u8>) -> Result<(MessageView, int), CodecError> {
    match Header::from_wire(bytes) {
        None => Err(CodecError::TruncatedInput),
        Some(header) => match decode_questions(bytes, 12, Map::empty(), header.qdcount as nat) {
            Err(e) => Err(e),
            Ok((questions, behind_questions, recorded)) => match decode_answers(
                bytes,
                behind_questions,
                recorded,
                header.ancount as nat,
            ) {
                Err(e) => Err(e),
                Ok((answers, end, _)) => Ok((MessageView { header, questions, answers }, end)),
            },
        },
    }
}

impl MessageView {
    /// The header as it goes out: the four counts say how many entries the
    /// message has, modulo 65536, and none for the sections it does not
    /// carry.
    pub open spec fn outgoing_header(self) -> Header {
        Header {
            id: self.header.id,
            qr: self.header.qr,
            opcode: self.header.opcode,
            aa: self.header.aa,
            tc: self.header.tc,
            rd: self.header.rd,
            ra: self.header.ra,
            z: self.header.z,
            rcode: self.header.rcode,
            qdcount: (self.questions.len() % 0x1_0000) as u16,
            ancount: (self.answers.len() % 0x1_0000) as u16,
            nscount: 0,
            arcount: 0,
        }
    }

    /// The message on the wire: the outgoing header, the questions, the
    /// answers.
    pub open spec fn wire(self) -> Seq<u8> {
        self.outgoing_header().wire() + questions_wire(self.questions) + answers_wire(
            self.answers,
        )
    }
}

/// Once a question fails, asking for more questions fails in the same way.
pub proof fn lemma_questions_failure_stays(
    bytes: Seq<u8>,
    pos: int,
    table: Map<int, Seq<Seq<char>>>,
    count: nat,
    more: nat,
)
    requires
        count <= more,
        decode_questions(bytes, pos, table, count) is Err,
    ensures
        decode_questions(bytes, pos, table, more) == decode_questions(bytes, pos, table, count),
    decreases more,
{
    if count < more {
        lemma_questions_failure_stays(bytes, pos, table, count, (more - 1) as nat);
    }
}

/// Once an answer fails, asking for more answers fails in the same way.
pub proof fn lemma_answers_failure_stays(
    bytes: Seq<u8>,
    pos: int,
    table: Map<int, Seq<Seq<char>>>,
    count: nat,
    more: nat,
)
    requires
        count <= more,
        decode_answers(bytes, pos, table, count) is Err,
    ensures
        decode_answers(bytes, pos, table, more) == decode_answers(bytes, pos, table, count),
    decreases more,
{
    if count < more {
        lemma_answers_failure_stays(bytes, pos, table, count, (more - 1) as nat);
    }
}

/// What a slice of questions says, entry by entry.
pub open spec fn questions_view(questions: Seq<Question>) -> Seq<QuestionView> {
    questions.map_values(|q: Question| q@)
}

/// What a slice of answers says, record by record.
pub open spec fn answers_view(answers: Seq<Answer>) -> Seq<AnswerView> {
    answers.map_values(|a: Answer| a@)
}

/// Encodes a message given by its parts: the header, each question, each
/// answer. The counts in the header are written from the sections
/// themselves, not from the header's fields.
pub fn encode_parts(header: &Header, questions: &[Question], answers: &[Answer]) -> (bites: Vec<u8>)
    ensures
        bites@ == (MessageView {
            header: *header,
            questions: questions_view(questions@),
            answers: answers_view(answers@),
        }).wire(),
{
    let ghost said = MessageView {
        header: *header,
        questions: questions_view(questions@),
        answers: answers_view(answers@),
    };
    let outgoing = Header {
        id: header.id,
        qr: header.qr,
        opcode: header.opcode,
        aa: header.aa,
        tc: header.tc,
        rd: header.rd,
        ra: header.ra,
        z: header.z,
        rcode: header.rcode,
        qdcount: (questions.len() % 0x1_0000) as u16,
        ancount: (answers.len() % 0x1_0000) as u16,
        nscount: 0,
        arcount: 0,
    };
    let mut bites = outgoing.to_bytes();
    let mut i: usize = 0;
    while i < questions.len()
        invariant
            i <= questions.len(),
            said.questions == questions_view(questions@),
            bites@ == outgoing.wire() + questions_wire(said.questions.take(i as int)),
        decreases questions.len() - i,
    {
        let question = questions[i].to_bytes();
        push_octets(&mut bites, question.as_slice());
        proof {
            let upto = said.questions.take(i + 1);
            assert(upto.drop_last() =~= said.questions.take(i as int));
        }
        i += 1;
    }
    assert(said.questions.take(i as int) =~= said.questions);
    let mut j: usize = 0;
    while j < answers.len()
        invariant
            j <= answers.len(),
            said.answers == answers_view(answers@),
            bites@ == outgoing.wire() + questions_wire(said.questions) + answers_wire(
                said.answers.take(j as int),
            ),
        decreases answers.len() - j,
    {
        let answer = answers[j].to_bytes();
        push_octets(&mut bites, answer.as_slice());
        proof {
            let upto = said.answers.take(j + 1);
            assert(upto.drop_last() =~= said.answers.take(j as int));
        }
        j += 1;
    }
    assert(said.answers.take(j as int) =~= said.answers);
    bites
}

impl Message {
    /// Encodes the message: the header, each question, each answer. The
    /// counts in the header are written from the sections themselves, not
    /// from the header's fields. Encoding never fails.
    pub fn to_bytes(&self) -> (bites: Vec<u8>)
        ensures
            bites@ == self@.wire(),
    {
        encode_parts(&self.header, self.questions.as_slice(), self.answers.as_slice())
    }

    /// Decodes a datagram: the header, then as many questions as the header
    /// counts, then as many answers as it counts. The octets behind the last
    /// answer come back untouched, beside the message.
    ///
    /// Decoding fails with the first failure met, in the order in which the
    /// octets are read.
    pub fn parse<'a>(bites: &'a [u8]) -> (r: Result<(&'a [u8], Message), CodecError>)
        ensures
            match r {
                Ok((rest, message)) => rest@.len() <= bites@.len() && decode_message(bites@)
                    == Ok::<(MessageView, int), CodecError>(
                    (message@, bites@.len() - rest@.len()),
                ) && rest@ == bites@.skip(bites@.len() - rest@.len()),
                Err(e) => decode_message(bites@) == Err::<(MessageView, int), CodecError>(e),
            },
    {
        let header = match Header::parse(bites) {
            Ok(header) => header,
            Err(e) => {
                return Err(e);
            },
        };
        let mut table = CompressionTable::new();
        let mut parse_offset: usize = HEADER_LEN;
        let mut questions: Vec<Question> = Vec::new();
        let mut asked: u16 = 0;
        assert(questions_view(questions@) =~= Seq::<QuestionView>::empty());
        while asked < header.qdcount
            invariant
                asked <= header.qdcount,
                parse_offset <= bites@.len(),
                Header::from_wire(bites@) == Some(header),
                decode_questions(bites@, 12, Map::empty(), asked as nat) == Ok::<
                    (Seq<QuestionView>, int, Map<int, Seq<Seq<char>>>),
                    CodecError,
                >((questions_view(questions@), parse_offset as int, table@)),
            decreases header.qdcount - asked,
        {
            let ghost earlier = questions_view(questions@);
            match Question::parse(bites, parse_offset, &mut table) {
                Ok((end, question)) => {
                    questions.push(question);
                    parse_offset = end;
                    assert(questions_view(questions@) =~= earlier.push(question@));
                },
                Err(e) => {
                    proof {
                        lemma_questions_failure_stays(
                            bites@,
                            12,
                            Map::empty(),
                            (asked + 1) as nat,
                            header.qdcount as nat,
                        );
                    }
                    return Err(e);
                },
            }
            asked += 1;
        }
        let ghost behind_questions = parse_offset as int;
        let ghost recorded = table@;
        let mut answers: Vec<Answer> = Vec::new();
        let mut answered: u16 = 0;
        assert(answers_view(answers@) =~= Seq::<AnswerView>::empty());
        while answered < header.ancount
            invariant
                answered <= header.ancount,
                parse_offset <= bites@.len(),
                Header::from_wire(bites@) == Some(header),
                decode_questions(bites@, 12, Map::empty(), header.qdcount as nat) == Ok::<
                    (Seq<QuestionView>, int, Map<int, Seq<Seq<char>>>),
                    CodecError,
                >((questions_view(questions@), behind_questions, recorded)),
                decode_answers(bites@, behind_questions, recorded, answered as nat) == Ok::<
                    (Seq<AnswerView>, int, Map<int, Seq<Seq<char>>>),
                    CodecError,
                >((answers_view(answers@), parse_offset as int, table@)),
            decreases header.ancount - answered,
        {
            let ghost earlier = answers_view(answers@);
            match Answer::parse(bites, parse_offset, &mut table) {
                Ok((end, answer)) => {
                    answers.push(answer);
                    parse_offset = end;
                    assert(answers_view(answers@) =~= earlier.push(answer@));
                },
                Err(e) => {
                    proof {
                        lemma_answers_failure_stays(
                            bites@,
                            behind_questions,
                            recorded,
                            (answered + 1) as nat,
                            header.ancount as nat,
                        );
                    }
                    return Err(e);
                },
            }
            answered += 1;
        }
        let rest = slice_subrange(bites, parse_offset, bites.len());
        Ok((rest, Message { header, questions, answers }))
    }
}

} // verus!
