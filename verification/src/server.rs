//! The bookkeeping of a forwarding resolver.
//!
//! A server without an upstream resolver answers every message itself, with
//! one fixed loopback address per question. A server with one splits each
//! client query into one query per question, sends those upstream under the
//! client's own transaction id, and gathers the replies until as many have
//! come back as questions went out; then the client gets one reply that
//! holds every answer.
//!
//! Nothing here touches a socket. `process` takes a decoded message and
//! says which datagrams go out; the caller sends them.
//!
//! Two limits are known and kept. Queries in flight are told apart by
//! their transaction id alone, so a second client query under an id that
//! is still in flight takes the place of the first. And nothing times out:
//! a query whose upstream replies never come stays in flight for good.

use crate::answer::{Answer, AnswerView};
use crate::header::Header;
use crate::message::{encode_parts, questions_view, Message, MessageView};
use crate::name::copy_name;
use crate::question::QuestionView;
use crate::rrtype::{QType, ResourceClass};
use std::collections::HashMap;
use vstd::prelude::*;
use vstd::slice::slice_subrange;

verus! {

/// The response code of every reply put together from upstream replies.
pub const FORWARDED_RCODE: u8 = 4;

/// The time to live, in seconds, of the records a server without upstream
/// hands out.
pub const STUB_TTL: u32 = 60;

/// Where a datagram goes.
#[derive(Clone, Debug, PartialEq, Eq)]
pub enum Destination<A> {
    /// to the upstream resolver
    Resolver,
    /// to the client at this address
    Client(A),
}

/// A datagram to send.
#[derive(Clone, Debug, PartialEq, Eq)]
pub struct Outgoing<A> {
    pub to: Destination<A>,
    pub bites: Vec<u8>,
}

/// A datagram to send, its octets as a sequence.
pub struct OutgoingView<A> {
    pub to: Destination<A>,
    pub bites: Seq<u8>,
}

impl<A> View for Outgoing<A> {
    type V = OutgoingView<A>;

    open spec fn view(&self) -> OutgoingView<A> {
        OutgoingView { to: self.to, bites: self.bites@ }
    }
}

/// What a list of datagrams says, one by one.
pub open spec fn outgoing_view<A>(out: Seq<Outgoing<A>>) -> Seq<OutgoingView<A>> {
    out.map_values(|o: Outgoing<A>| o@)
}

/// A client query whose upstream replies have not all come back.
struct Pending<A> {
    /// how many upstream replies are still owed
    outstanding: usize,
    /// who asked
    client: A,
    /// the reply as far as it is known: the header it will go out under,
    /// the client's questions, and the answers gathered so far
    reply: Message,
}

/// What is kept of a client query while upstream replies are owed.
pub struct PendingView<A> {
    pub outstanding: nat,
    pub client: A,
    pub reply: MessageView,
}

impl<A> View for Pending<A> {
    type V = PendingView<A>;

    closed spec fn view(&self) -> PendingView<A> {
        PendingView {
            outstanding: self.outstanding as nat,
            client: self.client,
            reply: self.reply@,
        }
    }
}

/// The server: the upstream resolver it was set up with, if any, and the
/// client queries in flight, each under its transaction id. `A` is the type
/// of a client's address; the server keeps addresses and hands them back,
/// no more.
pub struct DnsServer<A> {
    resolver: Option<String>,
    pending: HashMap<u16, Pending<A>>,
}

/// What a server holds.
pub struct ServerView<A> {
    pub resolver: Option<Seq<char>>,
    pub pending: Map<u16, PendingView<A>>,
}

impl<A> View for DnsServer<A> {
    type V = ServerView<A>;

    closed spec fn view(&self) -> ServerView<A> {
        ServerView {
            resolver: match self.resolver {
                Some(address) => Some(address@),
                None => None,
            },
            pending: self.pending@.map_values(|p: Pending<A>| p@),
        }
    }
}

/// The record that a server without upstream gives for a question: the
/// question's name, type A, class IN, and the loopback address.
pub open spec fn stub_answer(question: QuestionView) -> AnswerView {
    AnswerView {
        name: question.name,
        tipe: QType::A,
        class: ResourceClass::IN,
        ttl: STUB_TTL,
        rdlength: 4,
        rdata: seq![127u8, 0u8, 0u8, 1u8],
    }
}

/// The reply of a server without upstream: the questions as they came, one
/// loopback record for each, and the header marked as a response, with
/// `aa`, `tc`, `ra` and `z` cleared and both counts set to the number of
/// questions.
pub open spec fn stub_reply(message: MessageView) -> MessageView {
    MessageView {
        header: Header {
            id: message.header.id,
            qr: true,
            opcode: message.header.opcode,
            aa: false,
            tc: false,
            rd: message.header.rd,
            ra: false,
            z: 0,
            rcode: message.header.rcode,
            qdcount: (message.questions.len() % 0x1_0000) as u16,
            ancount: (message.questions.len() % 0x1_0000) as u16,
            nscount: message.header.nscount,
            arcount: message.header.arcount,
        },
        questions: message.questions,
        answers: message.questions.map_values(|q: QuestionView| stub_answer(q)),
    }
}

/// The header under which the gathered reply to a client goes out: the
/// client's own, marked as a response and with the fixed response code.
pub open spec fn reply_header(header: Header) -> Header {
    Header {
        id: header.id,
        qr: true,
        opcode: header.opcode,
        aa: header.aa,
        tc: header.tc,
        rd: header.rd,
        ra: header.ra,
        z: header.z,
        rcode: FORWARDED_RCODE,
        qdcount: header.qdcount,
        ancount: header.ancount,
        nscount: header.nscount,
        arcount: header.arcount,
    }
}

/// The query sent upstream for question `i` of a client query: the client's
/// message with that question alone.
pub open spec fn forwarded_query(query: MessageView, i: int) -> MessageView {
    MessageView { header: query.header, questions: seq![query.questions[i]], answers: query.answers }
}

/// The datagrams that carry a client query upstream, one per question, in
/// the order of the questions.
pub open spec fn forwarded_queries<A>(query: MessageView) -> Seq<OutgoingView<A>> {
    Seq::new(
        query.questions.len(),
        |i: int| OutgoingView { to: Destination::Resolver, bites: forwarded_query(query, i).wire() },
    )
}

/// What is kept of a client query that has just gone upstream.
pub open spec fn opened<A>(query: MessageView, client: A) -> PendingView<A> {
    PendingView {
        outstanding: query.questions.len(),
        client,
        reply: MessageView {
            header: reply_header(query.header),
            questions: query.questions,
            answers: Seq::empty(),
        },
    }
}

/// The reply in `entry` with the answers of one more upstream reply behind
/// those gathered before.
pub open spec fn gathered<A>(entry: PendingView<A>, upstream: MessageView) -> MessageView {
    MessageView {
        header: entry.reply.header,
        questions: entry.reply.questions,
        answers: entry.reply.answers + upstream.answers,
    }
}

/// One step of the server: the state it is left in, and the datagrams to
/// send, in order.
///
/// - Without an upstream resolver, every message is answered at once with
///   the stub reply, and nothing is kept.
/// - A response whose id no query in flight has is dropped. One whose id a
///   query in flight has adds its answers to those gathered; if it was the
///   last one owed, the gathered reply goes to the client and the entry is
///   removed, else the entry stays with one reply less owed.
/// - A query without questions is answered at once, with no answers. A
///   query with questions goes upstream question by question, and an entry
///   is kept under its id, in place of any that was there.
pub open spec fn step<A>(state: ServerView<A>, message: MessageView, source: A) -> (
    ServerView<A>,
    Seq<OutgoingView<A>>,
) {
    let id = message.header.id;
    if state.resolver is None {
        (
            state,
            seq![
                OutgoingView { to: Destination::Client(source), bites: stub_reply(message).wire() },
            ],
        )
    } else if message.header.qr {
        if !state.pending.contains_key(id) {
            (state, Seq::empty())
        } else {
            let entry = state.pending[id];
            let reply = gathered(entry, message);
            if entry.outstanding <= 1 {
                (
                    ServerView { resolver: state.resolver, pending: state.pending.remove(id) },
                    seq![OutgoingView { to: Destination::Client(entry.client), bites: reply.wire() }],
                )
            } else {
                (
                    ServerView {
                        resolver: state.resolver,
                        pending: state.pending.insert(
                            id,
                            PendingView {
                                outstanding: (entry.outstanding - 1) as nat,
                                client: entry.client,
                                reply,
                            },
                        ),
                    },
                    Seq::empty(),
                )
            }
        }
    } else if message.questions.len() == 0 {
        (
            state,
            seq![
                OutgoingView {
                    to: Destination::Client(source),
                    bites: opened(message, source).reply.wire(),
                },
            ],
        )
    } else {
        (
            ServerView {
                resolver: state.resolver,
                pending: state.pending.insert(id, opened(message, source)),
            },
            forwarded_queries(message),
        )
    }
}

impl<A> ServerView<A> {
    /// Every query in flight is owed at least one reply.
    pub open spec fn well_formed(self) -> bool {
        forall|id: u16| self.pending.contains_key(id) ==> (#[trigger] self.pending[id]).outstanding >= 1
    }
}

impl<A> DnsServer<A> {
    /// A server with no query in flight. `resolver` is the address of the
    /// upstream resolver, already checked by whoever read the
    /// configuration; without one the server answers by itself.
    pub fn new(resolver: Option<String>) -> (server: DnsServer<A>)
        ensures
            server@.resolver == match resolver {
                Some(address) => Some(address@),
                None => None::<Seq<char>>,
            },
            server@.pending == Map::<u16, PendingView<A>>::empty(),
            server@.well_formed(),
    {
        let server = DnsServer { resolver, pending: HashMap::new() };
        server
    }

    /// The address of the upstream resolver, or the empty string if there
    /// is none.
    pub fn resolver(&self) -> (address: String)
        ensures
            address@ == match self@.resolver {
                Some(address) => address,
                None => Seq::<char>::empty(),
            },
    {
        match &self.resolver {
            Some(resolver) => resolver.clone(),
            None => String::new(),
        }
    }

    /// The number of client queries in flight.
    pub fn in_flight(&self) -> (count: usize)
        ensures
            count == self@.pending.len(),
    {
        assert(self@.pending.dom() =~= self.pending@.dom());
        self.pending.len()
    }

    /// The reply of a server without upstream to `m`: the questions as they
    /// came and one loopback record for each.
    pub fn update_message(m: Message) -> (reply: Message)
        ensures
            reply@ == stub_reply(m@),
    {
        let ghost asked = m@;
        let count: u16 = (m.questions.len() % 0x1_0000) as u16;
        let header = Header {
            id: m.header.id,
            qr: true,
            opcode: m.header.opcode,
            aa: false,
            tc: false,
            rd: m.header.rd,
            ra: false,
            z: 0,
            rcode: m.header.rcode,
            qdcount: count,
            ancount: count,
            nscount: m.header.nscount,
            arcount: m.header.arcount,
        };
        let questions = m.questions;
        let mut answers: Vec<Answer> = Vec::new();
        let mut i: usize = 0;
        while i < questions.len()
            invariant
                i <= questions.len(),
                answers@.len() == i,
                forall|j: int| 0 <= j < i ==> (#[trigger] answers@[j])@ == stub_answer(questions@[j]@),
            decreases questions.len() - i,
        {
            let mut rdata: Vec<u8> = Vec::new();
            rdata.push(127);
            rdata.push(0);
            rdata.push(0);
            rdata.push(1);
            let ans = Answer {
                name: copy_name(&questions[i].name, 0),
                tipe: QType::A,
                class: ResourceClass::IN,
                ttl: STUB_TTL,
                rdlength: 4,
                rdata,
            };
            proof {
                let asked_name = questions@[i as int].name.deep_view();
                assert(ans.rdata@ =~= seq![127u8, 0u8, 0u8, 1u8]);
                assert(asked_name.skip(0) =~= asked_name);
            }
            answers.push(ans);
            i += 1;
        }
        let reply = Message { header, questions, answers };
        proof {
            assert(reply@.answers =~= stub_reply(asked).answers);
        }
        reply
    }

    /// Takes one decoded message, from a client or from the upstream
    /// resolver, and says which datagrams to send. `source` is where the
    /// message came from.
    pub fn process(&mut self, m: Message, source: A) -> (out: Vec<Outgoing<A>>)
        ensures
            (final(self)@, outgoing_view(out@)) == step(old(self)@, m@, source),
            old(self)@.well_formed() ==> final(self)@.well_formed(),
    {
        let ghost before = self@;
        let ghost said = m@;
        let id: u16 = m.header.id;
        let mut out: Vec<Outgoing<A>> = Vec::new();
        if self.resolver.is_none() {
            let reply = Self::update_message(m);
            out.push(Outgoing { to: Destination::Client(source), bites: reply.to_bytes() });
            return out;
        }
        if m.header.qr {
            match self.pending.remove(&id) {
                None => {
                    assert(self@.pending =~= before.pending);
                },
                Some(entry) => {
                    let ghost kept = entry@;
                    let Pending { outstanding, client, reply } = entry;
                    let Message { header, questions, answers: mut gathered_answers } = reply;
                    let mut more = m.answers;
                    gathered_answers.append(&mut more);
                    let reply = Message { header, questions, answers: gathered_answers };
                    proof {
                        assert(reply@.answers =~= gathered(kept, said).answers);
                    }
                    if outstanding <= 1 {
                        out.push(
                            Outgoing { to: Destination::Client(client), bites: reply.to_bytes() },
                        );
                        assert(self@.pending =~= before.pending.remove(id));
                    } else {
                        let entry = Pending { outstanding: outstanding - 1, client, reply };
                        self.pending.insert(id, entry);
                        assert(self@.pending =~= before.pending.insert(
                            id,
                            PendingView {
                                outstanding: (kept.outstanding - 1) as nat,
                                client: kept.client,
                                reply: gathered(kept, said),
                            },
                        ));
                    }
                },
            }
            return out;
        }
        let template = Header {
            id: m.header.id,
            qr: true,
            opcode: m.header.opcode,
            aa: m.header.aa,
            tc: m.header.tc,
            rd: m.header.rd,
            ra: m.header.ra,
            z: m.header.z,
            rcode: FORWARDED_RCODE,
            qdcount: m.header.qdcount,
            ancount: m.header.ancount,
            nscount: m.header.nscount,
            arcount: m.header.arcount,
        };
        if m.questions.len() == 0 {
            let reply = Message { header: template, questions: m.questions, answers: Vec::new() };
            proof {
                assert(reply@.answers =~= Seq::<AnswerView>::empty());
            }
            out.push(Outgoing { to: Destination::Client(source), bites: reply.to_bytes() });
            return out;
        }
        let mut i: usize = 0;
        while i < m.questions.len()
            invariant
                i <= m.questions.len(),
                said == m@,
                out@.len() == i,
                forall|j: int|
                    0 <= j < i ==> (#[trigger] out@[j])@ == (OutgoingView::<A> {
                        to: Destination::Resolver,
                        bites: forwarded_query(said, j).wire(),
                    }),
            decreases m.questions.len() - i,
        {
            let one = slice_subrange(m.questions.as_slice(), i, i + 1);
            let bites = encode_parts(&m.header, one, m.answers.as_slice());
            proof {
                assert(questions_view(one@) =~= seq![said.questions[i as int]]);
            }
            out.push(Outgoing { to: Destination::Resolver, bites });
            i += 1;
        }
        let entry = Pending {
            outstanding: m.questions.len(),
            client: source,
            reply: Message { header: template, questions: m.questions, answers: Vec::new() },
        };
        proof {
            assert(entry@.reply.answers =~= Seq::<AnswerView>::empty());
        }
        self.pending.insert(id, entry);
        assert(self@.pending =~= before.pending.insert(id, opened(said, source)));
        out
    }
}

} // verus!
