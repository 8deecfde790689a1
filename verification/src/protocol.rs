//! Messages exchanged between client and server over a single WebSocket.
//!
//! Two flavours of traffic share the socket:
//!
//! * **Replicated**: [`StrokeOp`]s. Persisted by the server, applied to the
//!   room's [`StrokeSet`], and rebroadcast. Safe to reorder or duplicate.
//! * **Ephemeral**: cursors and in-progress [`StrokeDelta`]s. Never stored;
//!   relayed as-is to every other peer in the room. Latest value wins.
//!
//! Every message is a single WebSocket frame encoded via [`crate::codec`].

use vstd::prelude::*;

use crate::crdt::{clone_ops, op_views, OpView, SetView, StrokeOp, StrokeSet};
use crate::text::{decimal, to_decimal};
use crate::types::{
    ClientId, CursorState, CursorView, KindView, Point, Rgba, RoomId, Scalar, Stroke, StrokeId,
    StrokeKind, StrokeView,
};

verus! {

/// Bump whenever the wire format changes incompatibly. The server rejects
/// clients announcing a different version in [`ClientMessage::Hello`].
pub const PROTOCOL_VERSION: u16 = 2;

/// A chunk of an in-progress stroke, so peers can watch it being drawn
/// before it is committed as a [`StrokeOp::Add`].
///
/// The first delta for a given `stroke_id` starts a new preview. For a
/// [`StrokeKind::Freehand`] stroke subsequent deltas *append* `points`;
/// for every other kind they *replace* the preview's points and `kind`
/// (a shape's far corner moves, a label's text changes). Receivers discard
/// the preview once the matching `Add` arrives (or when the peer leaves).
#[derive(Debug, PartialEq)]
pub struct StrokeDelta {
    pub stroke_id: StrokeId,
    pub client_id: ClientId,
    pub color: Rgba,
    pub width: Scalar,
    pub kind: StrokeKind,
    /// Freehand: points appended since the previous delta for this
    /// `stroke_id`. Other kinds: the complete point list.
    pub points: Vec<Point>,
}

/// Mathematical counterpart of [`StrokeDelta`].
#[verifier::ext_equal]
pub struct DeltaView {
    pub stroke_id: StrokeId,
    pub client_id: ClientId,
    pub color: Rgba,
    pub width: Scalar,
    pub kind: KindView,
    pub points: Seq<Point>,
}

impl DeltaView {
    /// The preview after this delta.
    pub open spec fn apply_to(self, preview: StrokeView) -> StrokeView {
        if self.kind == KindView::Freehand && preview.kind == KindView::Freehand {
            StrokeView { points: preview.points + self.points, ..preview }
        } else {
            StrokeView { kind: self.kind, points: self.points, ..preview }
        }
    }

    /// An empty preview for the first delta of a stroke.
    pub open spec fn start_preview(self) -> StrokeView {
        StrokeView {
            id: self.stroke_id,
            client_id: self.client_id,
            color: self.color,
            width: self.width,
            kind: KindView::Freehand,
            points: Seq::empty(),
        }
    }
}

impl View for StrokeDelta {
    type V = DeltaView;

    open spec fn view(&self) -> DeltaView {
        DeltaView {
            stroke_id: self.stroke_id,
            client_id: self.client_id,
            color: self.color,
            width: self.width,
            kind: self.kind@,
            points: self.points@,
        }
    }
}

impl Clone for StrokeDelta {
    fn clone(&self) -> (r: StrokeDelta)
        ensures
            r@ == self@,
    {
        let points = self.points.clone();
        assert(points@ =~= self.points@);
        StrokeDelta {
            stroke_id: self.stroke_id,
            client_id: self.client_id,
            color: self.color,
            width: self.width,
            kind: self.kind.clone(),
            points,
        }
    }
}

impl StrokeDelta {
    /// Fold this delta into the preview it belongs to.
    pub fn apply_to(self, preview: &mut Stroke)
        ensures
            final(preview)@ == self@.apply_to(old(preview)@),
    {
        if self.kind.is_freehand() && preview.kind.is_freehand() {
            let mut points = self.points;
            preview.points.append(&mut points);
        } else {
            preview.kind = self.kind;
            preview.points = self.points;
        }
    }

    /// An empty preview for the first delta of a stroke.
    pub fn start_preview(&self) -> (r: Stroke)
        ensures
            r@ == self@.start_preview(),
    {
        Stroke {
            id: self.stroke_id,
            client_id: self.client_id,
            color: self.color,
            width: self.width,
            kind: StrokeKind::Freehand,
            points: Vec::new(),
        }
    }
}

/// A shape's preview shows the latest delta alone, whatever came before it.
pub proof fn law_shape_deltas_replace(delta: DeltaView, preview: StrokeView)
    requires
        delta.kind != KindView::Freehand,
    ensures
        delta.apply_to(preview).kind == delta.kind,
        delta.apply_to(preview).points == delta.points,
{
}

/// The points of a freehand preview are those of its deltas in order.
pub proof fn law_freehand_deltas_append(first: DeltaView, second: DeltaView)
    requires
        first.kind == KindView::Freehand,
        second.kind == KindView::Freehand,
    ensures
        second.apply_to(first.apply_to(first.start_preview())).points == first.points
            + second.points,
{
    assert(first.start_preview().points + first.points =~= first.points);
}

/// Why the server refused a request.
#[derive(Clone, Copy, Debug, PartialEq, Eq, Structural)]
pub enum Rejection {
    UnsupportedProtocol { server: u16, client: u16 },
    NotJoined,
    RoomFull,
    InvalidRoom,
    Malformed,
}

impl Rejection {
    /// The words shown to a user.
    pub open spec fn words(self) -> Seq<char> {
        match self {
            Rejection::UnsupportedProtocol { server, client } => "protocol mismatch: server v"@
                + decimal(server as nat) + ", client v"@ + decimal(client as nat),
            Rejection::NotJoined => "send Hello before any other message"@,
            Rejection::RoomFull => "room is full"@,
            Rejection::InvalidRoom => "invalid room id"@,
            Rejection::Malformed => "malformed message"@,
        }
    }

    /// The words shown to a user.
    pub fn describe(&self) -> (r: String)
        ensures
            r@ == self.words(),
    {
        match self {
            Rejection::UnsupportedProtocol { server, client } => {
                let mut out = "protocol mismatch: server v".to_owned();
                out.append(to_decimal(*server as u128).as_str());
                out.append(", client v");
                out.append(to_decimal(*client as u128).as_str());
                out
            },
            Rejection::NotJoined => "send Hello before any other message".to_owned(),
            Rejection::RoomFull => "room is full".to_owned(),
            Rejection::InvalidRoom => "invalid room id".to_owned(),
            Rejection::Malformed => "malformed message".to_owned(),
        }
    }
}

/// Client to server.
#[derive(Debug, PartialEq)]
pub enum ClientMessage {
    /// Must be the first message on a fresh connection.
    Hello { protocol: u16, client_id: ClientId, room: RoomId, name: String, color: Rgba },
    /// Replicated mutations, in the order the client produced them.
    Ops(Vec<StrokeOp>),
    /// Ephemeral cursor / presence update.
    Cursor(CursorState),
    /// Ephemeral in-progress stroke chunk.
    StrokeDelta(StrokeDelta),
    /// Ask for a full [`ServerMessage::Snapshot`] (e.g. after a suspected desync).
    RequestSnapshot,
    /// Keepalive; echoed back as [`ServerMessage::Pong`] with the same payload.
    Ping(u64),
}

/// Mathematical counterpart of [`ClientMessage`].
pub enum ClientView {
    Hello {
        protocol: u16,
        client_id: ClientId,
        room: Seq<char>,
        name: Seq<char>,
        color: Rgba,
    },
    Ops(Seq<OpView>),
    Cursor(CursorView),
    StrokeDelta(DeltaView),
    RequestSnapshot,
    Ping(u64),
}

impl View for ClientMessage {
    type V = ClientView;

    open spec fn view(&self) -> ClientView {
        match self {
            ClientMessage::Hello { protocol, client_id, room, name, color } => ClientView::Hello {
                protocol: *protocol,
                client_id: *client_id,
                room: room@,
                name: name@,
                color: *color,
            },
            ClientMessage::Ops(ops) => ClientView::Ops(op_views(ops@)),
            ClientMessage::Cursor(c) => ClientView::Cursor(c@),
            ClientMessage::StrokeDelta(d) => ClientView::StrokeDelta(d@),
            ClientMessage::RequestSnapshot => ClientView::RequestSnapshot,
            ClientMessage::Ping(n) => ClientView::Ping(*n),
        }
    }
}

impl Clone for ClientMessage {
    fn clone(&self) -> (r: ClientMessage)
        ensures
            r@ == self@,
    {
        match self {
            ClientMessage::Hello { protocol, client_id, room, name, color } => ClientMessage::Hello {
                protocol: *protocol,
                client_id: *client_id,
                room: room.clone(),
                name: name.clone(),
                color: *color,
            },
            ClientMessage::Ops(ops) => ClientMessage::Ops(clone_ops(ops)),
            ClientMessage::Cursor(c) => ClientMessage::Cursor(c.clone()),
            ClientMessage::StrokeDelta(d) => ClientMessage::StrokeDelta(d.clone()),
            ClientMessage::RequestSnapshot => ClientMessage::RequestSnapshot,
            ClientMessage::Ping(n) => ClientMessage::Ping(*n),
        }
    }
}

impl ClientMessage {
    /// Ephemeral messages are relayed but never persisted or acknowledged.
    pub fn is_ephemeral(&self) -> (r: bool)
        ensures
            r == (self@ is Cursor || self@ is StrokeDelta),
    {
        matches!(self, ClientMessage::Cursor(_) | ClientMessage::StrokeDelta(_))
    }
}

/// Server to client.
#[derive(Debug, PartialEq)]
pub enum ServerMessage {
    /// Reply to a successful [`ClientMessage::Hello`]: full room state plus
    /// everyone currently present.
    Welcome { client_id: ClientId, room: RoomId, snapshot: StrokeSet, peers: Vec<CursorState> },
    /// Full state, sent on request. The client should `merge` it.
    Snapshot(StrokeSet),
    /// Replicated mutations from a peer (the sender's own ops are *not* echoed).
    Ops { from: ClientId, ops: Vec<StrokeOp> },
    Cursor(CursorState),
    StrokeDelta(StrokeDelta),
    PeerJoined(CursorState),
    PeerLeft(ClientId),
    Rejected(Rejection),
    Pong(u64),
}

/// Mathematical counterpart of [`ServerMessage`].
pub enum ServerView {
    Welcome { client_id: ClientId, room: Seq<char>, snapshot: SetView, peers: Seq<CursorView> },
    Snapshot(SetView),
    Ops { from: ClientId, ops: Seq<OpView> },
    Cursor(CursorView),
    StrokeDelta(DeltaView),
    PeerJoined(CursorView),
    PeerLeft(ClientId),
    Rejected(Rejection),
    Pong(u64),
}

/// The mathematical values of a list of cursors.
pub open spec fn cursor_views(cursors: Seq<CursorState>) -> Seq<CursorView> {
    cursors.map_values(|c: CursorState| c@)
}

/// A copy of a list of cursors.
pub fn clone_cursors(cursors: &Vec<CursorState>) -> (r: Vec<CursorState>)
    ensures
        cursor_views(r@) == cursor_views(cursors@),
{
    let mut out: Vec<CursorState> = Vec::new();
    let mut i: usize = 0;
    while i < cursors.len()
        invariant
            i <= cursors.len(),
            cursor_views(out@) == cursor_views(cursors@).take(i as int),
        decreases cursors.len() - i,
    {
        let ghost before = out@;
        let c = cursors[i].clone();
        out.push(c);
        proof {
            assert(cursor_views(out@) =~= cursor_views(before).push(c@));
            assert(cursor_views(cursors@).take(i + 1) =~= cursor_views(cursors@).take(
                i as int,
            ).push(c@));
        }
        i += 1;
    }
    assert(cursor_views(cursors@).take(i as int) =~= cursor_views(cursors@));
    out
}

impl View for ServerMessage {
    type V = ServerView;

    open spec fn view(&self) -> ServerView {
        match self {
            ServerMessage::Welcome { client_id, room, snapshot, peers } => ServerView::Welcome {
                client_id: *client_id,
                room: room@,
                snapshot: snapshot@,
                peers: cursor_views(peers@),
            },
            ServerMessage::Snapshot(set) => ServerView::Snapshot(set@),
            ServerMessage::Ops { from, ops } => ServerView::Ops { from: *from, ops: op_views(ops@) },
            ServerMessage::Cursor(c) => ServerView::Cursor(c@),
            ServerMessage::StrokeDelta(d) => ServerView::StrokeDelta(d@),
            ServerMessage::PeerJoined(c) => ServerView::PeerJoined(c@),
            ServerMessage::PeerLeft(id) => ServerView::PeerLeft(*id),
            ServerMessage::Rejected(why) => ServerView::Rejected(*why),
            ServerMessage::Pong(n) => ServerView::Pong(*n),
        }
    }
}

impl ServerMessage {
    /// The set a message carries, if any, is well formed.
    pub open spec fn wf(self) -> bool {
        match self {
            ServerMessage::Welcome { snapshot, .. } => snapshot.wf(),
            ServerMessage::Snapshot(set) => set.wf(),
            _ => true,
        }
    }

    pub fn is_ephemeral(&self) -> (r: bool)
        ensures
            r == (self@ is Cursor || self@ is StrokeDelta),
    {
        matches!(self, ServerMessage::Cursor(_) | ServerMessage::StrokeDelta(_))
    }
}

impl Clone for ServerMessage {
    fn clone(&self) -> (r: ServerMessage)
        ensures
            self.wf() ==> r.wf() && r@ == self@,
    {
        match self {
            ServerMessage::Welcome { client_id, room, snapshot, peers } => ServerMessage::Welcome {
                client_id: *client_id,
                room: room.clone(),
                snapshot: snapshot.clone(),
                peers: clone_cursors(peers),
            },
            ServerMessage::Snapshot(set) => ServerMessage::Snapshot(set.clone()),
            ServerMessage::Ops { from, ops } => ServerMessage::Ops {
                from: *from,
                ops: clone_ops(ops),
            },
            ServerMessage::Cursor(c) => ServerMessage::Cursor(c.clone()),
            ServerMessage::StrokeDelta(d) => ServerMessage::StrokeDelta(d.clone()),
            ServerMessage::PeerJoined(c) => ServerMessage::PeerJoined(c.clone()),
            ServerMessage::PeerLeft(id) => ServerMessage::PeerLeft(*id),
            ServerMessage::Rejected(why) => ServerMessage::Rejected(*why),
            ServerMessage::Pong(n) => ServerMessage::Pong(*n),
        }
    }
}

} // verus!
