//! The client's side of the connection: reconnecting with backoff, queueing
//! while offline, and the keepalive, as decisions on what happened.
//!
//! Replicated [`StrokeOp`]s are queued while offline and flushed after the next
//! successful handshake; ephemeral traffic is simply dropped.

use vstd::prelude::*;

use crate::codec::{decode_server, decoded, encode};
use crate::crdt::{op_views, OpView, StrokeOp};
use crate::protocol::{
    ClientMessage, ClientView, ServerMessage, ServerView, PROTOCOL_VERSION,
};
use crate::types::{ClientId, Rgba};
use crate::wire::Wire;
use crate::ws::Incoming;

verus! {

/// How often the connection is probed, in milliseconds.
pub const PING_INTERVAL_MS: u64 = 10000;

/// The longest wait between two attempts to connect, in milliseconds.
pub const MAX_BACKOFF_MS: u64 = 10000;

/// Everything needed to (re)establish a session.
#[derive(Debug)]
pub struct NetConfig {
    pub url: String,
    pub room: String,
    pub name: String,
    pub color: Rgba,
    pub client_id: ClientId,
}

/// Mathematical counterpart of [`NetConfig`].
#[verifier::ext_equal]
pub struct NetConfigView {
    pub url: Seq<char>,
    pub room: Seq<char>,
    pub name: Seq<char>,
    pub color: Rgba,
    pub client_id: ClientId,
}

impl View for NetConfig {
    type V = NetConfigView;

    open spec fn view(&self) -> NetConfigView {
        NetConfigView {
            url: self.url@,
            room: self.room@,
            name: self.name@,
            color: self.color,
            client_id: self.client_id,
        }
    }
}

impl Clone for NetConfig {
    fn clone(&self) -> (r: NetConfig)
        ensures
            r@ == self@,
    {
        NetConfig {
            url: self.url.clone(),
            room: self.room.clone(),
            name: self.name.clone(),
            color: self.color,
            client_id: self.client_id,
        }
    }
}

impl NetConfigView {
    /// The first message of a session.
    pub open spec fn hello(self) -> ClientView {
        ClientView::Hello {
            protocol: PROTOCOL_VERSION,
            client_id: self.client_id,
            room: self.room,
            name: self.name,
            color: self.color,
        }
    }
}

/// Connection lifecycle and traffic, as seen by the UI.
#[derive(Debug)]
pub enum NetEvent {
    Connecting { attempt: u32 },
    /// Socket is up and `Hello` was sent; the `Welcome` follows as a `Message`.
    Connected,
    Message(ServerMessage),
    /// Round-trip time measured by the keepalive ping, in nanoseconds.
    Rtt(u128),
    Disconnected { reason: String },
}

/// Half a second, doubled `n` times, in milliseconds.
pub open spec fn doubled(n: nat) -> nat
    decreases n,
{
    if n == 0 {
        500
    } else {
        2 * doubled((n - 1) as nat)
    }
}

/// The wait before the next attempt, in milliseconds: it doubles with each of
/// the first five failed attempts, up to a limit.
pub open spec fn backoff(attempt: u32) -> u64 {
    let wait = doubled(
        if attempt < 5 {
            attempt as nat
        } else {
            5
        },
    );
    if wait < MAX_BACKOFF_MS {
        wait as u64
    } else {
        MAX_BACKOFF_MS
    }
}

/// The wait before the next attempt, in milliseconds.
pub fn backoff_ms(attempt: u32) -> (r: u64)
    ensures
        r == backoff(attempt),
{
    let doublings: u32 = if attempt < 5 {
        attempt
    } else {
        5
    };
    let mut wait: u64 = 500;
    let mut i: u32 = 0;
    while i < doublings
        invariant
            i <= doublings <= 5,
            wait == doubled(i as nat),
        decreases doublings - i,
    {
        proof {
            reveal_with_fuel(doubled, 6);
        }
        wait = wait * 2;
        i += 1;
    }
    if wait < MAX_BACKOFF_MS {
        wait
    } else {
        MAX_BACKOFF_MS
    }
}

/// Waits never shrink from one failed attempt to the next: each is twice the
/// one before, or the limit.
pub proof fn law_backoff_doubles(attempt: u32)
    requires
        attempt < u32::MAX,
    ensures
        500 <= backoff(attempt) <= MAX_BACKOFF_MS,
        backoff((attempt + 1) as u32) == (if 2 * backoff(attempt) < MAX_BACKOFF_MS {
            2 * backoff(attempt)
        } else {
            MAX_BACKOFF_MS as int
        }),
{
    reveal_with_fuel(doubled, 6);
}

/// What a message leaves in the outbox while there is no session.
pub open spec fn stashed(outbox: Seq<OpView>, msg: ClientView) -> Seq<OpView> {
    match msg {
        ClientView::Ops(ops) => outbox + ops,
        _ => outbox,
    }
}

/// Keep operations for later; anything else is dropped.
pub fn stash_offline(msg: ClientMessage, outbox: &mut Vec<StrokeOp>)
    ensures
        op_views(final(outbox)@) == stashed(op_views(old(outbox)@), msg@),
{
    if let ClientMessage::Ops(ops) = msg {
        let ghost kept = outbox@;
        let ghost more = ops@;
        let mut ops = ops;
        outbox.append(&mut ops);
        assert(op_views(outbox@) =~= op_views(kept) + op_views(more));
    }
}

/// What to do about something that happened: tell the UI, send bytes to the
/// server, or end the session.
#[derive(Debug)]
pub struct Step {
    pub emit: Option<NetEvent>,
    pub send: Option<Vec<u8>>,
    pub done: bool,
}

impl Step {
    pub open spec fn nothing(self) -> bool {
        self.emit is None && self.send is None && !self.done
    }

    pub open spec fn sends(self, msg: ClientView) -> bool {
        match self.send {
            Some(bytes) => bytes@ == <ClientMessage as Wire>::bytes(msg),
            None => false,
        }
    }

    pub open spec fn passes_on(self, msg: ServerView) -> bool {
        match self.emit {
            Some(NetEvent::Message(m)) => m@ == msg && m.wf(),
            _ => false,
        }
    }
}

fn nothing() -> (r: Step)
    ensures
        r.nothing(),
{
    Step { emit: None, send: None, done: false }
}

/// The bytes of a message to the server.
pub fn frame(msg: &ClientMessage) -> (r: Option<Vec<u8>>)
    ensures
        match r {
            Some(bytes) => bytes@ == <ClientMessage as Wire>::bytes(msg@),
            None => false,
        },
{
    match encode(msg) {
        Ok(bytes) => Some(bytes),
        Err(_) => None,
    }
}

/// The state of the connection.
#[derive(Debug)]
pub struct Link {
    attempt: u32,
    /// Operations produced without a session; replayed after the next
    /// handshake.
    outbox: Vec<StrokeOp>,
    /// Whether the server has welcomed this session.
    joined: bool,
    /// The keepalive that has not been answered: its payload and when it was
    /// sent.
    in_flight: Option<(u64, u128)>,
}

/// Mathematical counterpart of [`Link`].
#[verifier::ext_equal]
pub struct LinkView {
    pub attempt: u32,
    pub outbox: Seq<OpView>,
    pub joined: bool,
    pub in_flight: Option<(u64, u128)>,
}

impl View for Link {
    type V = LinkView;

    closed spec fn view(&self) -> LinkView {
        LinkView {
            attempt: self.attempt,
            outbox: op_views(self.outbox@),
            joined: self.joined,
            in_flight: self.in_flight,
        }
    }
}

impl LinkView {
    /// The state after a message of the server. The welcome begins the session.
    pub open spec fn after(self, msg: ServerView) -> LinkView {
        match msg {
            ServerView::Welcome { .. } => LinkView { joined: true, outbox: Seq::empty(), ..self },
            ServerView::Pong(_) => LinkView { in_flight: None, ..self },
            _ => self,
        }
    }

    /// What is done about a message of the server: it is passed on, except for
    /// the answer to a keepalive, which is timed; and the welcome releases what
    /// was queued.
    pub open spec fn reacts(self, msg: ServerView, now: u128, step: Step) -> bool {
        &&& !step.done
        &&& match msg {
            ServerView::Pong(n) => step.send is None && step.emit == self.timed(n, now),
            ServerView::Welcome { .. } => step.passes_on(msg) && if self.outbox.len() > 0 {
                step.sends(ClientView::Ops(self.outbox))
            } else {
                step.send is None
            },
            _ => step.passes_on(msg) && step.send is None,
        }
    }

    /// The round trip that the answer `n` completes at `now`, if it answers the
    /// keepalive in flight.
    pub open spec fn timed(self, n: u64, now: u128) -> Option<NetEvent> {
        match self.in_flight {
            Some((sent, at)) => if sent == n {
                Some(
                    NetEvent::Rtt(
                        if now >= at {
                            (now - at) as u128
                        } else {
                            0
                        },
                    ),
                )
            } else {
                None
            },
            None => None,
        }
    }
}

/// What the server's bytes say.
pub open spec fn heard(incoming: Incoming) -> Option<ServerView> {
    match incoming {
        Incoming::Data(bytes) => match decoded::<ServerMessage>(bytes@) {
            Ok(msg) => Some(msg),
            Err(_) => None,
        },
        _ => None,
    }
}

impl Link {
    pub fn new() -> (r: Link)
        ensures
            r@ == (LinkView {
                attempt: 0,
                outbox: Seq::empty(),
                joined: false,
                in_flight: None,
            }),
    {
        let r = Link { attempt: 0, outbox: Vec::new(), joined: false, in_flight: None };
        assert(r@.outbox =~= Seq::empty());
        r
    }

    /// How many attempts have failed in a row, counting the one under way.
    pub fn attempt(&self) -> (r: u32)
        ensures
            r == self@.attempt,
    {
        self.attempt
    }

    /// About to connect.
    pub fn connecting(&mut self) -> (r: NetEvent)
        requires
            old(self)@.attempt < u32::MAX,
        ensures
            final(self)@ == (LinkView { attempt: (old(self)@.attempt + 1) as u32, ..old(self)@ }),
            r == (NetEvent::Connecting { attempt: final(self)@.attempt }),
    {
        self.attempt += 1;
        NetEvent::Connecting { attempt: self.attempt }
    }

    /// The socket is open: greet the server.
    pub fn connected(&mut self, config: &NetConfig) -> (r: Step)
        ensures
            final(self)@ == (LinkView {
                attempt: 0,
                joined: false,
                in_flight: None,
                ..old(self)@
            }),
            r.sends(config@.hello()),
            r.emit == Some(NetEvent::Connected),
            !r.done,
    {
        self.attempt = 0;
        self.joined = false;
        self.in_flight = None;
        let hello = ClientMessage::Hello {
            protocol: PROTOCOL_VERSION,
            client_id: config.client_id,
            room: config.room.clone(),
            name: config.name.clone(),
            color: config.color,
        };
        Step { emit: Some(NetEvent::Connected), send: frame(&hello), done: false }
    }

    /// Act on a message of the server at `now` (nanoseconds on a clock that only
    /// the caller knows the start of).
    pub fn hear(&mut self, msg: ServerMessage, now: u128) -> (r: Step)
        requires
            msg.wf(),
        ensures
            final(self)@ == old(self)@.after(msg@),
            old(self)@.reacts(msg@, now, r),
    {
        if let ServerMessage::Pong(n) = msg {
            let emit = match self.in_flight {
                Some((sent, at)) => if sent == n {
                    Some(
                        NetEvent::Rtt(
                            if now >= at {
                                now - at
                            } else {
                                0
                            },
                        ),
                    )
                } else {
                    None
                },
                None => None,
            };
            self.in_flight = None;
            return Step { emit, send: None, done: false };
        }
        let mut send: Option<Vec<u8>> = None;
        if let ServerMessage::Welcome { .. } = &msg {
            self.joined = true;
            let mut ops: Vec<StrokeOp> = Vec::new();
            std::mem::swap(&mut ops, &mut self.outbox);
            assert(self@.outbox =~= Seq::empty());
            if ops.len() > 0 {
                send = frame(&ClientMessage::Ops(ops));
            }
        }
        Step { emit: Some(NetEvent::Message(msg)), send, done: false }
    }

    /// Something came from the server at `now`.
    pub fn receive(&mut self, incoming: Incoming, now: u128) -> (r: Step)
        ensures
            match (incoming, heard(incoming)) {
                (Incoming::Close, _) => r.done && r.emit is None && r.send is None && final(self)@
                    == old(self)@,
                (_, Some(msg)) => final(self)@ == old(self)@.after(msg) && old(self)@.reacts(
                    msg,
                    now,
                    r,
                ),
                _ => r.nothing() && final(self)@ == old(self)@,
            },
    {
        match incoming {
            Incoming::Data(bytes) => match decode_server(bytes.as_slice()) {
                Ok(msg) => self.hear(msg, now),
                Err(_) => nothing(),
            },
            Incoming::Control => nothing(),
            Incoming::Close => Step { emit: None, send: None, done: true },
        }
    }

    /// The UI has something to send while the socket is open. Operations made
    /// before the server's welcome wait for it; everything else goes straight
    /// out.
    pub fn submit(&mut self, msg: ClientMessage) -> (r: Step)
        ensures
            r.emit is None,
            !r.done,
            if old(self)@.joined || !(msg@ is Ops) {
                final(self)@ == old(self)@ && r.sends(msg@)
            } else {
                final(self)@ == (LinkView {
                    outbox: stashed(old(self)@.outbox, msg@),
                    ..old(self)@
                }) && r.send is None
            },
    {
        if !self.joined {
            if let ClientMessage::Ops(_) = &msg {
                stash_offline(msg, &mut self.outbox);
                return nothing();
            }
        }
        Step { emit: None, send: frame(&msg), done: false }
    }

    /// The UI has something to send while there is no socket.
    pub fn submit_offline(&mut self, msg: ClientMessage)
        ensures
            final(self)@ == (LinkView { outbox: stashed(old(self)@.outbox, msg@), ..old(self)@ }),
    {
        stash_offline(msg, &mut self.outbox);
    }

    /// Time to probe the connection.
    pub fn probe(&mut self, now: u128) -> (r: Step)
        ensures
            ({
                let payload = (now % 0x1_0000_0000_0000_0000) as u64;
                &&& final(self)@ == (LinkView { in_flight: Some((payload, now)), ..old(self)@ })
                &&& r.sends(ClientView::Ping(payload))
                &&& r.emit is None
                &&& !r.done
            }),
    {
        let payload: u64 = (now % 0x1_0000_0000_0000_0000) as u64;
        self.in_flight = Some((payload, now));
        Step { emit: None, send: frame(&ClientMessage::Ping(payload)), done: false }
    }

    /// The session is over, or there was none: tell the UI, and wait before the
    /// next attempt.
    pub fn disconnected(&mut self, reason: String) -> (r: (NetEvent, u64))
        ensures
            final(self)@ == (LinkView { joined: false, in_flight: None, ..old(self)@ }),
            r.1 == backoff(old(self)@.attempt),
            match r.0 {
                NetEvent::Disconnected { reason: why } => why@ == reason@,
                _ => false,
            },
    {
        self.joined = false;
        self.in_flight = None;
        (NetEvent::Disconnected { reason }, backoff_ms(self.attempt))
    }
}

/// What is left in the outbox after messages without a session.
pub open spec fn stashed_all(outbox: Seq<OpView>, msgs: Seq<ClientView>) -> Seq<OpView>
    decreases msgs.len(),
{
    if msgs.len() == 0 {
        outbox
    } else {
        stashed(stashed_all(outbox, msgs.drop_last()), msgs.last())
    }
}

/// The operations in messages, in order.
pub open spec fn ops_in(msgs: Seq<ClientView>) -> Seq<OpView>
    decreases msgs.len(),
{
    if msgs.len() == 0 {
        Seq::empty()
    } else {
        match msgs.last() {
            ClientView::Ops(ops) => ops_in(msgs.drop_last()) + ops,
            _ => ops_in(msgs.drop_last()),
        }
    }
}

/// Everything drawn without a session is queued in the order it was drawn:
/// nothing is lost, nothing is repeated, and nothing ephemeral is kept.
pub proof fn law_offline_ops_are_queued_in_order(outbox: Seq<OpView>, msgs: Seq<ClientView>)
    ensures
        stashed_all(outbox, msgs) == outbox + ops_in(msgs),
    decreases msgs.len(),
{
    if msgs.len() > 0 {
        law_offline_ops_are_queued_in_order(outbox, msgs.drop_last());
    }
    assert(stashed_all(outbox, msgs) =~= outbox + ops_in(msgs));
}

} // verus!
