//! Laws of a client's link to the server: when it tries again, what it keeps for
//! later, and what it makes of what it hears.

use vstd::prelude::*;

use crate::codec::{decoded, law_decode_inverts_encode};
use crate::crdt::OpView;
use crate::net::{backoff, doubled, heard, stashed, LinkView, NetConfigView, Step};
use crate::protocol::{ClientMessage, ClientView, ServerMessage, ServerView};
use crate::wire::Wire;
use crate::ws::Incoming;

verus! {

/// The waits between attempts: half a second, then twice as long each time, but
/// never more than ten seconds.
pub proof fn law_waits(attempt: u32)
    ensures
        backoff(attempt) == (if attempt == 0 {
            500u64
        } else if attempt == 1 {
            1_000
        } else if attempt == 2 {
            2_000
        } else if attempt == 3 {
            4_000
        } else if attempt == 4 {
            8_000
        } else {
            10_000
        }),
{
    reveal_with_fuel(doubled, 6);
}

/// Operations that cannot be sent are queued behind those that wait already;
/// anything else that cannot be sent is dropped.
pub proof fn law_only_operations_wait(outbox: Seq<OpView>, msg: ClientView)
    ensures
        msg is Ops ==> stashed(outbox, msg).len() == outbox.len() + msg->Ops_0.len() && (forall|
            i: int,
        |
            0 <= i < outbox.len() ==> #[trigger] stashed(outbox, msg)[i] == outbox[i]) && (forall|
            i: int,
        |
            0 <= i < msg->Ops_0.len() ==> #[trigger] msg->Ops_0[i] == stashed(outbox, msg)[
                outbox.len() + i
            ]),
        !(msg is Ops) ==> stashed(outbox, msg) == outbox,
{
}

/// A session begins with a greeting that says who the client is and which room
/// it wants.
pub proof fn law_clients_greet(config: NetConfigView)
    ensures
        config.hello() is Hello,
        config.hello()->protocol == 2,
        config.hello()->Hello_client_id == config.client_id,
        config.hello()->room == config.room,
        config.hello()->Hello_name == config.name,
        config.hello()->Hello_color == config.color,
{
}

/// The welcome begins the session and releases what was queued, all of it and in
/// order; nothing else empties the queue.
pub proof fn law_the_welcome_releases_the_queue(
    link: LinkView,
    msg: ServerView,
    now: u128,
    step: Step,
)
    requires
        link.reacts(msg, now, step),
    ensures
        ({
            let after = link.after(msg);
            &&& msg is Welcome ==> after.joined && after.outbox.len() == 0
            &&& msg is Welcome && link.outbox.len() > 0 ==> step.send is Some && step.send->0@
                == <ClientMessage as Wire>::bytes(ClientView::Ops(link.outbox))
            &&& msg is Welcome && link.outbox.len() == 0 ==> step.send is None
            &&& !(msg is Welcome) ==> after.joined == link.joined && after.outbox == link.outbox
                && step.send is None
            &&& after.attempt == link.attempt
        }),
{
}

/// Whatever the server says is passed on as it is, but for the answer to a
/// keepalive: where it answers the one in flight, what is passed on is how long
/// it took. Either way none is in flight any more, and the session goes on.
pub proof fn law_messages_are_passed_on(link: LinkView, msg: ServerView, now: u128, step: Step)
    requires
        link.reacts(msg, now, step),
    ensures
        !step.done,
        !(msg is Pong) ==> step.emit is Some && (step.emit->0 is Message)
            && step.emit->0->Message_0@ == msg && link.after(msg).in_flight == link.in_flight,
        msg is Pong ==> link.after(msg).in_flight is None,
        msg is Pong ==> match link.in_flight {
            Some((sent, at)) => if sent == msg->Pong_0 {
                &&& step.emit is Some
                &&& step.emit->0 is Rtt
                &&& step.emit->0->Rtt_0 == (if now >= at {
                    now - at
                } else {
                    0
                })
            } else {
                step.emit is None
            },
            None => step.emit is None,
        },
{
}

/// What a frame of the server says is what the server put into it.
pub proof fn law_the_server_is_understood(incoming: Incoming, msg: ServerView)
    requires
        <ServerMessage as Wire>::faithful(msg),
        incoming is Data,
        incoming->Data_0@ == <ServerMessage as Wire>::bytes(msg),
    ensures
        heard(incoming) == Some(msg),
{
    law_decode_inverts_encode::<ServerMessage>(msg);
}

/// A step sends a message where it hands out the message's bytes, and passes one
/// on where the user interface gets to hear it.
pub proof fn law_steps(step: Step, msg: ClientView, news: ServerView)
    ensures
        step.sends(msg) <==> step.send is Some && step.send->0@ == <ClientMessage as Wire>::bytes(
            msg,
        ),
        step.passes_on(news) ==> step.emit is Some && (step.emit->0 is Message)
            && step.emit->0->Message_0@ == news,
        step.nothing() <==> step.emit is None && step.send is None && !step.done,
{
}

/// The server says nothing but by a frame with a payload that decodes.
pub proof fn law_only_payloads_are_heard(incoming: Incoming)
    ensures
        heard(incoming) is Some <==> incoming is Data && decoded::<ServerMessage>(
            incoming->Data_0@,
        ) is Ok,
        incoming is Data ==> (decoded::<ServerMessage>(incoming->Data_0@) matches Ok(msg)
            ==> heard(incoming) == Some(msg)),
{
}

} // verus!
