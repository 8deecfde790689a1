//! WebSocket session: handshake, message dispatch, and broadcast relay, as
//! decisions on what came in.

use vstd::prelude::*;

use crate::codec::{decode_client, decoded};
use crate::crdt::op_views;
use crate::protocol::{
    ClientMessage, ClientView, DeltaView, Rejection, ServerMessage, ServerView, StrokeDelta,
    PROTOCOL_VERSION,
};
use crate::registry::{valid_room_id, Registry};
use crate::room::{encode_frame, without, Frame, Outbound, Room, RoomView};
use crate::text::{from_chars, to_chars};
use crate::types::{ClientId, CursorState, CursorView, Rgba, RoomId};

verus! {

/// Longest display name that is kept, in characters.
pub const MAX_NAME: usize = 32;

/// What a socket handed over.
#[derive(Debug)]
pub enum Incoming {
    /// The payload of a binary or text frame.
    Data(Vec<u8>),
    /// A ping or pong of the WebSocket protocol itself.
    Control,
    Close,
}

/// What a payload says.
pub open spec fn said(incoming: Incoming) -> Option<ClientView> {
    match incoming {
        Incoming::Data(bytes) => match decoded::<ClientMessage>(bytes@) {
            Ok(msg) => Some(msg),
            Err(_) => None,
        },
        _ => None,
    }
}

/// One step of waiting for the first message.
#[derive(Debug)]
pub enum Awaited {
    Message(ClientMessage),
    /// Nothing to act on: wait for the next frame.
    Skip,
    Closed,
}

/// Look for the next decodable client message, skipping control frames and
/// frames that do not decode.
pub fn next_message(incoming: Incoming) -> (r: Awaited)
    ensures
        match r {
            Awaited::Message(msg) => said(incoming) == Some(msg@),
            Awaited::Skip => said(incoming) is None && !(incoming is Close),
            Awaited::Closed => incoming is Close,
        },
{
    match incoming {
        Incoming::Data(bytes) => match decode_client(bytes.as_slice()) {
            Ok(msg) => Awaited::Message(msg),
            Err(_) => Awaited::Skip,
        },
        Incoming::Control => Awaited::Skip,
        Incoming::Close => Awaited::Closed,
    }
}

/// Who asks to join which room.
#[derive(Debug)]
pub struct Greeting {
    pub client_id: ClientId,
    pub room: RoomId,
    pub name: String,
    pub color: Rgba,
}

/// What the first message is answered, if it is refused.
pub open spec fn refusal(first: ClientView) -> Option<Rejection> {
    match first {
        ClientView::Hello { protocol, room, .. } => if protocol != PROTOCOL_VERSION {
            Some(
                Rejection::UnsupportedProtocol { server: PROTOCOL_VERSION, client: protocol },
            )
        } else if !valid_room_id(room) {
            Some(Rejection::InvalidRoom)
        } else {
            None
        },
        _ => Some(Rejection::NotJoined),
    }
}

/// Judge the first message of a connection.
pub fn greet(first: ClientMessage) -> (r: Result<Greeting, Rejection>)
    ensures
        match r {
            Ok(g) => refusal(first@) is None && first@ == (ClientView::Hello {
                protocol: PROTOCOL_VERSION,
                client_id: g.client_id,
                room: g.room@,
                name: g.name@,
                color: g.color,
            }),
            Err(why) => refusal(first@) == Some(why),
        },
{
    match first {
        ClientMessage::Hello { protocol, client_id, room, name, color } => {
            if protocol != PROTOCOL_VERSION {
                Err(
                    Rejection::UnsupportedProtocol { server: PROTOCOL_VERSION, client: protocol },
                )
            } else if !Registry::is_valid_room_id(room.as_str()) {
                Err(Rejection::InvalidRoom)
            } else {
                Ok(Greeting { client_id, room, name, color })
            }
        },
        _ => Err(Rejection::NotJoined),
    }
}

/// The frame that tells a peer why it was refused; the connection is closed
/// after it.
pub fn reject(why: Rejection) -> (r: Option<Frame>)
    ensures
        match r {
            Some(frame) => frame.carries(ServerView::Rejected(why)),
            None => false,
        },
{
    match encode_frame(&ServerMessage::Rejected(why)) {
        Ok(frame) => Some(frame),
        Err(_) => None,
    }
}

/// The part of a name that is kept.
pub open spec fn shortened(name: Seq<char>) -> Seq<char> {
    if name.len() <= MAX_NAME {
        name
    } else {
        name.take(MAX_NAME as int)
    }
}

fn shorten(name: &str) -> (r: String)
    ensures
        r@ == shortened(name@),
{
    let mut chars = to_chars(name);
    if chars.len() > MAX_NAME {
        chars.truncate(MAX_NAME);
    }
    from_chars(&chars)
}

/// A live, joined connection.
#[derive(Debug)]
pub struct Peer {
    pub id: ClientId,
    /// The peer's latest cursor, under the identity it joined with.
    pub cursor: CursorState,
}

/// Mathematical counterpart of [`Peer`].
pub struct PeerView {
    pub id: ClientId,
    pub cursor: CursorView,
}

impl View for Peer {
    type V = PeerView;

    open spec fn view(&self) -> PeerView {
        PeerView { id: self.id, cursor: self.cursor@ }
    }
}

impl PeerView {
    /// A peer that has just joined.
    pub open spec fn newcomer(client_id: ClientId, name: Seq<char>, color: Rgba) -> PeerView {
        PeerView {
            id: client_id,
            cursor: CursorView {
                client_id,
                name: shortened(name),
                color,
                position: None,
                drawing: false,
            },
        }
    }

    /// A cursor under the peer's own identity, whoever it claims to be.
    pub open spec fn own(self, cursor: CursorView) -> CursorView {
        CursorView {
            client_id: self.id,
            name: self.cursor.name,
            color: self.cursor.color,
            ..cursor
        }
    }

    /// A stroke chunk under the peer's own identity.
    pub open spec fn own_delta(self, delta: DeltaView) -> DeltaView {
        DeltaView { client_id: self.id, ..delta }
    }
}

/// A peer was admitted: what it is sent, and what the others are told.
#[derive(Debug)]
pub struct Admission {
    pub peer: Peer,
    pub welcome: Frame,
    pub joined: Outbound,
}

/// Let a peer into a room.
pub fn enter(room: &mut Room, greeting: Greeting) -> (r: Result<Admission, Rejection>)
    requires
        old(room).wf(),
    ensures
        final(room).wf(),
        ({
            let peer = PeerView::newcomer(greeting.client_id, greeting.name@, greeting.color);
            let entered = old(room)@.with_peer(peer.cursor);
            match r {
                Ok(a) => {
                    &&& old(room)@.admits(greeting.client_id)
                    &&& final(room)@ == entered
                    &&& a.peer@ == peer
                    &&& a.welcome.carries(
                        ServerView::Welcome {
                            client_id: greeting.client_id,
                            room: greeting.room@,
                            snapshot: entered.state,
                            peers: without(entered.present(), greeting.client_id),
                        },
                    )
                    &&& a.joined.exclude == Some(greeting.client_id)
                    &&& a.joined.frame.carries(ServerView::PeerJoined(peer.cursor))
                },
                Err(why) => {
                    &&& why == Rejection::RoomFull
                    &&& !old(room)@.admits(greeting.client_id)
                    &&& final(room)@ == old(room)@
                },
            }
        }),
{
    let id = greeting.client_id;
    let cursor = CursorState::new(id, shorten(greeting.name.as_str()), greeting.color);
    match room.join(cursor.clone()) {
        Ok(()) => {},
        Err(why) => return Err(why),
    }
    let welcome = ServerMessage::Welcome {
        client_id: id,
        room: greeting.room,
        snapshot: room.snapshot(),
        peers: room.peers_except(id),
    };
    match (
        encode_frame(&welcome),
        room.broadcast(Some(id), &ServerMessage::PeerJoined(cursor.clone())),
    ) {
        (Ok(welcome), Some(joined)) => Ok(
            Admission { peer: Peer { id, cursor }, welcome, joined },
        ),
        _ => Err(Rejection::Malformed),
    }
}

/// What to do about something that happened.
#[derive(Debug)]
pub enum Reaction {
    Nothing,
    /// Send a frame to this peer.
    Reply(Frame),
    /// Hand a frame to everyone it is for.
    Broadcast(Outbound),
    /// End the session.
    Close,
}

impl Reaction {
    pub open spec fn replies(self, msg: ServerView) -> bool {
        match self {
            Reaction::Reply(frame) => frame.carries(msg),
            _ => false,
        }
    }

    /// Everyone but the author is told.
    pub open spec fn tells_others(self, author: ClientId, msg: ServerView) -> bool {
        match self {
            Reaction::Broadcast(out) => out.exclude == Some(author) && out.frame.carries(msg),
            _ => false,
        }
    }
}

fn reply(msg: &ServerMessage) -> (r: Reaction)
    requires
        msg.wf(),
    ensures
        r.replies(msg@),
{
    match encode_frame(msg) {
        Ok(frame) => Reaction::Reply(frame),
        Err(_) => Reaction::Nothing,
    }
}

fn tell_others(room: &Room, author: ClientId, msg: &ServerMessage) -> (r: Reaction)
    requires
        msg.wf(),
    ensures
        r.tells_others(author, msg@),
{
    match room.broadcast(Some(author), msg) {
        Some(out) => Reaction::Broadcast(out),
        None => Reaction::Nothing,
    }
}

/// What a message does to the room.
pub open spec fn room_after(peer: PeerView, room: RoomView, msg: ClientView) -> RoomView {
    match msg {
        ClientView::Ops(ops) => if ops.len() == 0 {
            room
        } else {
            room.with_ops(ops)
        },
        ClientView::Cursor(c) => if room.peers.contains_key(peer.id) {
            room.with_peer(peer.own(c))
        } else {
            room
        },
        _ => room,
    }
}

/// What a message does to the peer.
pub open spec fn peer_after(peer: PeerView, msg: ClientView) -> PeerView {
    match msg {
        ClientView::Cursor(c) => PeerView { cursor: peer.own(c), ..peer },
        _ => peer,
    }
}

/// How a message is answered.
pub open spec fn answers(
    peer: PeerView,
    room: RoomView,
    msg: ClientView,
    reaction: Reaction,
) -> bool {
    match msg {
        ClientView::Ops(ops) => if ops.len() == 0 {
            reaction is Nothing
        } else {
            reaction.tells_others(peer.id, ServerView::Ops { from: peer.id, ops })
        },
        ClientView::Cursor(c) => reaction.tells_others(peer.id, ServerView::Cursor(peer.own(c))),
        ClientView::StrokeDelta(d) => reaction.tells_others(
            peer.id,
            ServerView::StrokeDelta(peer.own_delta(d)),
        ),
        ClientView::RequestSnapshot => reaction.replies(ServerView::Snapshot(room.state)),
        ClientView::Ping(n) => reaction.replies(ServerView::Pong(n)),
        ClientView::Hello { .. } => reaction.replies(ServerView::Rejected(Rejection::Malformed)),
    }
}

impl Peer {
    /// Act on a message of a joined peer.
    pub fn handle_client_message(&mut self, room: &mut Room, msg: ClientMessage) -> (r: Reaction)
        requires
            old(room).wf(),
        ensures
            final(room).wf(),
            final(room)@ == room_after(old(self)@, old(room)@, msg@),
            final(self)@ == peer_after(old(self)@, msg@),
            answers(old(self)@, old(room)@, msg@, r),
    {
        match msg {
            ClientMessage::Ops(ops) => {
                if ops.len() == 0 {
                    assert(op_views(ops@).len() == 0);
                    return Reaction::Nothing;
                }
                assert(op_views(ops@).len() > 0);
                let _changed: usize = room.apply_ops(&ops);
                tell_others(room, self.id, &ServerMessage::Ops { from: self.id, ops })
            },
            ClientMessage::Cursor(c) => {
                // Never trust the client to speak for someone else.
                let c = CursorState {
                    client_id: self.id,
                    name: self.cursor.name.clone(),
                    color: self.cursor.color,
                    position: c.position,
                    drawing: c.drawing,
                };
                self.cursor = c.clone();
                room.update_cursor(c.clone());
                tell_others(room, self.id, &ServerMessage::Cursor(c))
            },
            ClientMessage::StrokeDelta(d) => {
                let d = StrokeDelta {
                    stroke_id: d.stroke_id,
                    client_id: self.id,
                    color: d.color,
                    width: d.width,
                    kind: d.kind,
                    points: d.points,
                };
                tell_others(room, self.id, &ServerMessage::StrokeDelta(d))
            },
            ClientMessage::RequestSnapshot => reply(&ServerMessage::Snapshot(room.snapshot())),
            ClientMessage::Ping(n) => reply(&ServerMessage::Pong(n)),
            ClientMessage::Hello { .. } => reply(&ServerMessage::Rejected(Rejection::Malformed)),
        }
    }

    /// Act on what the socket of a joined peer handed over.
    pub fn receive(&mut self, room: &mut Room, incoming: Incoming) -> (r: Reaction)
        requires
            old(room).wf(),
        ensures
            final(room).wf(),
            match (incoming, said(incoming)) {
                (Incoming::Data(_), Some(msg)) => {
                    &&& final(room)@ == room_after(old(self)@, old(room)@, msg)
                    &&& final(self)@ == peer_after(old(self)@, msg)
                    &&& answers(old(self)@, old(room)@, msg, r)
                },
                (other, _) => {
                    &&& final(room)@ == old(room)@
                    &&& final(self)@ == old(self)@
                    &&& match other {
                        Incoming::Data(_) => r.replies(
                            ServerView::Rejected(Rejection::Malformed),
                        ),
                        Incoming::Control => r is Nothing,
                        Incoming::Close => r is Close,
                    }
                },
            },
    {
        match incoming {
            Incoming::Data(bytes) => match decode_client(bytes.as_slice()) {
                Ok(msg) => self.handle_client_message(room, msg),
                Err(_) => reply(&ServerMessage::Rejected(Rejection::Malformed)),
            },
            Incoming::Control => Reaction::Nothing,
            Incoming::Close => Reaction::Close,
        }
    }

    /// Act on a frame that went out in the room.
    pub fn relay(&self, out: &Outbound) -> (r: Reaction)
        ensures
            match r {
                Reaction::Reply(frame) => out.reaches(self.id) && frame.text == out.frame.text
                    && frame.bytes@ == out.frame.bytes@,
                Reaction::Nothing => !out.reaches(self.id),
                _ => false,
            },
    {
        if out.is_for(self.id) {
            Reaction::Reply(out.frame.clone())
        } else {
            Reaction::Nothing
        }
    }

    /// Too slow to keep up: resync from the full state.
    pub fn resync(&self, room: &Room) -> (r: Reaction)
        requires
            room.wf(),
        ensures
            r.replies(ServerView::Snapshot(room@.state)),
    {
        reply(&ServerMessage::Snapshot(room.snapshot()))
    }

    /// The session is over: leave, and tell the others.
    pub fn depart(&self, room: &mut Room) -> (r: Reaction)
        requires
            old(room).wf(),
        ensures
            final(room).wf(),
            final(room)@ == old(room)@.without_peer(self.id),
            r.tells_others(self.id, ServerView::PeerLeft(self.id)),
    {
        let _present = room.leave(self.id);
        tell_others(room, self.id, &ServerMessage::PeerLeft(self.id))
    }
}

/// Nothing a peer says is echoed to it, and whatever it says goes out under its
/// own id.
pub proof fn law_peers_speak_for_themselves(
    peer: PeerView,
    room: RoomView,
    msg: ClientView,
    reaction: Reaction,
)
    requires
        answers(peer, room, msg, reaction),
        reaction is Broadcast,
    ensures
        !reaction->Broadcast_0.reaches(peer.id),
        forall|other: ClientId| other != peer.id ==> reaction->Broadcast_0.reaches(other),
        match msg {
            ClientView::Ops(ops) => reaction->Broadcast_0.frame.carries(
                ServerView::Ops { from: peer.id, ops },
            ),
            ClientView::Cursor(c) => peer.own(c).client_id == peer.id && peer.own(c).name
                == peer.cursor.name && peer.own(c).color == peer.cursor.color
                && reaction->Broadcast_0.frame.carries(ServerView::Cursor(peer.own(c))),
            ClientView::StrokeDelta(d) => peer.own_delta(d).client_id == peer.id
                && reaction->Broadcast_0.frame.carries(ServerView::StrokeDelta(peer.own_delta(d))),
            _ => false,
        },
{
}

/// The name and colour a peer joined with stay its own, whatever it says.
pub proof fn law_identity_is_fixed(peer: PeerView, msg: ClientView)
    ensures
        peer_after(peer, msg).id == peer.id,
        peer_after(peer, msg).cursor.name == peer.cursor.name,
        peer_after(peer, msg).cursor.color == peer.cursor.color,
{
}

/// Ephemeral messages never touch the replicated state.
pub proof fn law_ephemera_are_not_stored(peer: PeerView, room: RoomView, msg: ClientView)
    requires
        msg is Cursor || msg is StrokeDelta,
    ensures
        room_after(peer, room, msg).state == room.state,
        room_after(peer, room, msg).dirty == room.dirty,
{
}

/// Whatever a peer says, nobody else's entry in the room changes and the room
/// never holds more peers than it may.
pub proof fn law_room_stays_orderly(peer: PeerView, room: RoomView, msg: ClientView)
    requires
        room.orderly(),
    ensures
        room_after(peer, room, msg).orderly(),
        forall|id: ClientId|
            id != peer.id ==> (room.peers.contains_key(id) <==> #[trigger] room_after(
                peer,
                room,
                msg,
            ).peers.contains_key(id)) && (room.peers.contains_key(id) ==> room_after(
                peer,
                room,
                msg,
            ).peers[id] == room.peers[id]),
{
    if msg is Cursor && room.peers.contains_key(peer.id) {
        assert(room_after(peer, room, msg).peers.dom() =~= room.peers.dom());
    }
}

} // verus!
