//! A client query that goes upstream comes back as one reply: what the
//! steps of the server add up to over a whole exchange.

use crate::answer::AnswerView;
use crate::message::MessageView;
use crate::server::{
    forwarded_queries, gathered, reply_header, step, Destination, OutgoingView, PendingView,
    ServerView,
};
use vstd::prelude::*;

verus! {

/// The state after a run of messages from one source, taken one after the
/// other.
pub open spec fn state_after<A>(state: ServerView<A>, messages: Seq<MessageView>, from: A) -> ServerView<
    A,
>
    decreases messages.len(),
{
    if messages.len() == 0 {
        state
    } else {
        step(state_after(state, messages.drop_last(), from), messages.last(), from).0
    }
}

/// The datagrams sent over a run of messages from one source, in order.
pub open spec fn sent_over<A>(state: ServerView<A>, messages: Seq<MessageView>, from: A) -> Seq<
    OutgoingView<A>,
>
    decreases messages.len(),
{
    if messages.len() == 0 {
        Seq::empty()
    } else {
        sent_over(state, messages.drop_last(), from) + step(
            state_after(state, messages.drop_last(), from),
            messages.last(),
            from,
        ).1
    }
}

/// The answers of a run of messages, one message's behind the other's.
pub open spec fn answers_of(messages: Seq<MessageView>) -> Seq<AnswerView>
    decreases messages.len(),
{
    if messages.len() == 0 {
        Seq::empty()
    } else {
        answers_of(messages.drop_last()) + messages.last().answers
    }
}

/// Every message is a response under the transaction id `id`.
pub open spec fn replies_to(messages: Seq<MessageView>, id: u16) -> bool {
    forall|i: int|
        0 <= i < messages.len() ==> (#[trigger] messages[i]).header.qr && messages[i].header.id
            == id
}

/// What is kept of a query in flight after `replies` have come in for it.
pub open spec fn kept_after<A>(entry: PendingView<A>, replies: Seq<MessageView>) -> PendingView<A> {
    PendingView {
        outstanding: (entry.outstanding - replies.len()) as nat,
        client: entry.client,
        reply: MessageView {
            header: entry.reply.header,
            questions: entry.reply.questions,
            answers: entry.reply.answers + answers_of(replies),
        },
    }
}

/// A reply to a query that is owed more than one: nothing is sent, and the
/// entry stays, owed one reply less, with the reply's answers behind those
/// gathered before.
pub proof fn lemma_reply_gathered<A>(state: ServerView<A>, reply: MessageView, from: A)
    requires
        state.resolver is Some,
        reply.header.qr,
        state.pending.contains_key(reply.header.id),
        state.pending[reply.header.id].outstanding > 1,
    ensures
        step(state, reply, from).0.resolver == state.resolver,
        step(state, reply, from).0.pending == state.pending.insert(
            reply.header.id,
            PendingView {
                outstanding: (state.pending[reply.header.id].outstanding - 1) as nat,
                client: state.pending[reply.header.id].client,
                reply: gathered(state.pending[reply.header.id], reply),
            },
        ),
        step(state, reply, from).1 == Seq::<OutgoingView<A>>::empty(),
{
}

/// The last reply that a query is owed: the gathered reply goes to the
/// client, and the entry is removed.
pub proof fn lemma_reply_completes<A>(state: ServerView<A>, reply: MessageView, from: A)
    requires
        state.resolver is Some,
        reply.header.qr,
        state.pending.contains_key(reply.header.id),
        state.pending[reply.header.id].outstanding <= 1,
    ensures
        step(state, reply, from).0.resolver == state.resolver,
        step(state, reply, from).0.pending == state.pending.remove(reply.header.id),
        step(state, reply, from).1 == seq![
            OutgoingView {
                to: Destination::Client(state.pending[reply.header.id].client),
                bites: gathered(state.pending[reply.header.id], reply).wire(),
            },
        ],
{
}

/// One more reply, to a query that is still owed more than one after the
/// replies before it, leaves the entry as the gathering of all replies.
proof fn lemma_one_more_gathered<A>(
    entry: PendingView<A>,
    earlier: Seq<MessageView>,
    last: MessageView,
)
    requires
        earlier.len() + 1 < entry.outstanding,
    ensures
        kept_after(entry, earlier.push(last)) == (PendingView {
            outstanding: (kept_after(entry, earlier).outstanding - 1) as nat,
            client: kept_after(entry, earlier).client,
            reply: gathered(kept_after(entry, earlier), last),
        }),
{
    let replies = earlier.push(last);
    assert(replies.drop_last() =~= earlier);
    assert(entry.reply.answers + (answers_of(earlier) + last.answers) =~= (entry.reply.answers
        + answers_of(earlier)) + last.answers);
}

/// While fewer replies have come than a query in flight is owed, nothing
/// is sent: the entry stays, owed one reply less for each that came, with
/// their answers gathered in the order of arrival.
pub proof fn lemma_replies_gathered<A>(
    state: ServerView<A>,
    id: u16,
    replies: Seq<MessageView>,
    from: A,
)
    requires
        state.resolver is Some,
        state.pending.contains_key(id),
        replies.len() < state.pending[id].outstanding,
        replies_to(replies, id),
    ensures
        state_after(state, replies, from).resolver == state.resolver,
        state_after(state, replies, from).pending == state.pending.insert(
            id,
            kept_after(state.pending[id], replies),
        ),
        sent_over(state, replies, from) == Seq::<OutgoingView<A>>::empty(),
    decreases replies.len(),
{
    if replies.len() > 0 {
        let earlier = replies.drop_last();
        let last = replies.last();
        assert(replies =~= earlier.push(last));
        assert(replies_to(earlier, id));
        assert(last.header.qr && last.header.id == id);
        lemma_replies_gathered(state, id, earlier, from);
        lemma_reply_gathered(state_after(state, earlier, from), last, from);
        lemma_one_more_gathered(state.pending[id], earlier, last);
    }
}

/// A client query with questions goes upstream as one query per question,
/// each under the client's header. Once as many replies under its id have
/// come back as it has questions, in whatever order, exactly one datagram
/// has been sent: the reply to the client, with the client's questions and
/// every answer that came, in the order of arrival. The query is then no
/// longer in flight.
pub proof fn theorem_fan_out_fan_in<A>(
    state: ServerView<A>,
    query: MessageView,
    client: A,
    replies: Seq<MessageView>,
    from: A,
)
    requires
        state.resolver is Some,
        !query.header.qr,
        query.questions.len() >= 1,
        replies.len() == query.questions.len(),
        replies_to(replies, query.header.id),
    ensures
        step(state, query, client).1 == forwarded_queries::<A>(query),
        step(state, query, client).1.len() == query.questions.len(),
        sent_over(step(state, query, client).0, replies, from) == seq![
            OutgoingView {
                to: Destination::Client(client),
                bites: (MessageView {
                    header: reply_header(query.header),
                    questions: query.questions,
                    answers: answers_of(replies),
                }).wire(),
            },
        ],
        state_after(step(state, query, client).0, replies, from).resolver == state.resolver,
        state_after(step(state, query, client).0, replies, from).pending == state.pending.remove(
            query.header.id,
        ),
{
    let id = query.header.id;
    let asked = step(state, query, client).0;
    let earlier = replies.drop_last();
    assert(replies_to(earlier, id));
    lemma_replies_gathered(asked, id, earlier, from);
    lemma_reply_completes(state_after(asked, earlier, from), replies.last(), from);
}

} // verus!
