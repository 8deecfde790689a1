//! Laws of the mathematical counterparts: they show every part of a value, so
//! what is stated of them is stated of the value.

use vstd::prelude::*;

use crate::args::{arg_views, text_of, Choice};
use crate::board::{Connection, Drawing};
use crate::config::Config;
use crate::crdt::{entry_views, op_views, Added, OpView, StrokeEntry, StrokeOp};
use crate::document::group_views;
use crate::net::NetConfig;
use crate::panel::PeerRow;
use crate::protocol::{
    cursor_views, ClientMessage, ClientView, ServerMessage, ServerView, StrokeDelta,
};
use crate::registry::{outcome_views, pending_views, room_views, Pending, RoomInfo};
use crate::room::Room;
use crate::types::{CursorState, KindView, RoomId, Stroke, StrokeId, StrokeKind};
use crate::ws::Peer;

verus! {

/// A stroke is its id, author, colour, width, kind and points.
pub proof fn law_strokes_are_shown(s: Stroke, k: StrokeKind, d: StrokeDelta)
    ensures
        s@.id == s.id && s@.client_id == s.client_id && s@.color == s.color && s@.width == s.width,
        s@.kind == s.kind@ && s@.points == s.points@,
        k is Freehand <==> k@ is Freehand,
        k is Line <==> k@ is Line,
        k is Rect <==> k@ is Rect,
        k is Ellipse <==> k@ is Ellipse,
        k matches StrokeKind::Text { content, size } ==> k@ == (KindView::Text {
            content: content@,
            size,
        }),
        d@.stroke_id == d.stroke_id && d@.client_id == d.client_id && d@.color == d.color
            && d@.width == d.width,
        d@.kind == d.kind@ && d@.points == d.points@,
{
}

/// An operation is what it adds or removes, and when; an element is its newest
/// add and its newest remove.
pub proof fn law_operations_are_shown(op: StrokeOp, a: Added, e: StrokeEntry)
    ensures
        op matches StrokeOp::Add { stroke, ts } ==> op@ == (OpView::Add { stroke: stroke@, ts }),
        op matches StrokeOp::Remove { id, ts } ==> op@ == (OpView::Remove { id, ts }),
        op@.id() == (match op {
            StrokeOp::Add { stroke, .. } => stroke.id,
            StrokeOp::Remove { id, .. } => id,
        }),
        op@.ts() == (match op {
            StrokeOp::Add { ts, .. } => ts,
            StrokeOp::Remove { ts, .. } => ts,
        }),
        a@.ts == a.ts && a@.stroke == a.stroke@,
        e@.removed == e.removed,
        e@.add is Some <==> e.add is Some,
        e.add matches Some(added) ==> e@.add == Some(added@),
{
}

/// A cursor is its peer's id, name and colour, where it is, and whether it
/// draws.
pub proof fn law_cursors_are_shown(c: CursorState, p: Peer, row: PeerRow)
    ensures
        c@.client_id == c.client_id && c@.name == c.name@ && c@.color == c.color,
        c@.position == c.position && c@.drawing == c.drawing,
        p@.id == p.id && p@.cursor == p.cursor@,
        row@.color == row.color && row@.name == row.name@ && row@.drawing == row.drawing && row@.me
            == row.me,
{
}

/// A message is which one it is, and its parts.
pub proof fn law_messages_are_shown(msg: ClientMessage, answer: ServerMessage)
    ensures
        match msg {
            ClientMessage::Hello { protocol, client_id, room, name, color } => msg@ == (
            ClientView::Hello { protocol, client_id, room: room@, name: name@, color }),
            ClientMessage::Ops(ops) => msg@ == ClientView::Ops(op_views(ops@)),
            ClientMessage::Cursor(c) => msg@ == ClientView::Cursor(c@),
            ClientMessage::StrokeDelta(d) => msg@ == ClientView::StrokeDelta(d@),
            ClientMessage::RequestSnapshot => msg@ == ClientView::RequestSnapshot,
            ClientMessage::Ping(n) => msg@ == ClientView::Ping(n),
        },
        match answer {
            ServerMessage::Welcome { client_id, room, snapshot, peers } => answer@ == (
            ServerView::Welcome {
                client_id,
                room: room@,
                snapshot: snapshot@,
                peers: cursor_views(peers@),
            }),
            ServerMessage::Snapshot(set) => answer@ == ServerView::Snapshot(set@),
            ServerMessage::Ops { from, ops } => answer@ == (ServerView::Ops {
                from,
                ops: op_views(ops@),
            }),
            ServerMessage::Cursor(c) => answer@ == ServerView::Cursor(c@),
            ServerMessage::StrokeDelta(d) => answer@ == ServerView::StrokeDelta(d@),
            ServerMessage::PeerJoined(c) => answer@ == ServerView::PeerJoined(c@),
            ServerMessage::PeerLeft(id) => answer@ == ServerView::PeerLeft(id),
            ServerMessage::Rejected(why) => answer@ == ServerView::Rejected(why),
            ServerMessage::Pong(n) => answer@ == ServerView::Pong(n),
        },
{
}

/// A list is shown item by item.
pub proof fn law_lists_are_shown(
    ops: Seq<StrokeOp>,
    groups: Seq<Vec<StrokeOp>>,
    pairs: Seq<(StrokeId, StrokeEntry)>,
    cursors: Seq<CursorState>,
)
    ensures
        op_views(ops).len() == ops.len(),
        forall|i: int| 0 <= i < ops.len() ==> #[trigger] op_views(ops)[i] == ops[i]@,
        group_views(groups).len() == groups.len(),
        forall|i: int|
            0 <= i < groups.len() ==> #[trigger] group_views(groups)[i] == op_views(groups[i]@),
        entry_views(pairs).len() == pairs.len(),
        forall|i: int|
            0 <= i < pairs.len() ==> (#[trigger] entry_views(pairs)[i]).0 == pairs[i].0
                && entry_views(pairs)[i].1 == pairs[i].1@,
        cursor_views(cursors).len() == cursors.len(),
        forall|i: int| 0 <= i < cursors.len() ==> #[trigger] cursor_views(cursors)[i] == cursors[i]@,
{
}

/// So are the rooms, what is on its way to disk and how the writes went, and the
/// words of a command line.
pub proof fn law_server_lists_are_shown(
    rooms: Seq<Room>,
    items: Seq<Pending>,
    outcomes: Seq<(RoomId, bool)>,
    words: Seq<String>,
    text: Option<String>,
)
    ensures
        room_views(rooms).len() == rooms.len(),
        forall|i: int| 0 <= i < rooms.len() ==> #[trigger] room_views(rooms)[i] == rooms[i]@,
        pending_views(items).len() == items.len(),
        forall|i: int|
            0 <= i < items.len() ==> (#[trigger] pending_views(items)[i]).0 == items[i].id@
                && pending_views(items)[i].1 == items[i].path@ && pending_views(items)[i].2
                == items[i].bytes@,
        outcome_views(outcomes).len() == outcomes.len(),
        forall|i: int|
            0 <= i < outcomes.len() ==> (#[trigger] outcome_views(outcomes)[i]).0 == outcomes[i].0@
                && outcome_views(outcomes)[i].1 == outcomes[i].1,
        arg_views(words).len() == words.len(),
        forall|i: int| 0 <= i < words.len() ==> #[trigger] arg_views(words)[i] == words[i]@,
        text_of(text) is Some <==> text is Some,
        text matches Some(t) ==> text_of(text) == Some(t@),
{
}

/// So are settings, choices and what is told of rooms and connections.
pub proof fn law_settings_are_shown(
    config: Config,
    session: NetConfig,
    choice: Choice,
    info: RoomInfo,
    drawing: Drawing,
    conn: Connection,
)
    ensures
        config@.addr == config.addr@ && config@.data_dir == config.data_dir@,
        config@.max_peers == config.max_peers,
        config@.flush_interval_ms == config.flush_interval_ms,
        config@.hello_timeout_ms == config.hello_timeout_ms,
        session@.url == session.url@ && session@.room == session.room@ && session@.name
            == session.name@,
        session@.color == session.color && session@.client_id == session.client_id,
        choice@.url == choice.url@ && choice@.room == choice.room@ && choice@.name == text_of(
            choice.name,
        ),
        info@.id == info.id@ && info@.peers == info.peers && info@.strokes == info.strokes,
        drawing@.stroke == drawing.stroke@ && drawing@.sent == drawing.sent,
        conn is Online <==> conn@ is Online,
        conn is Handshaking <==> conn@ is Handshaking,
        conn matches Connection::Connecting { attempt } ==> conn@ is Connecting
            && conn@->attempt == attempt,
        conn matches Connection::Offline { reason } ==> conn@ is Offline && conn@->reason
            == reason@,
{
}

} // verus!
