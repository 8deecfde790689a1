//! Laws of the wire: which values come back from their bytes, and how the bytes
//! are laid out.

use vstd::prelude::*;
use vstd::utf8::encode_utf8;

use crate::codec::{decoded, law_decode_inverts_encode};
use crate::crdt::{
    Added, EntryView, OpView, SetView, StrokeEntry, StrokeOp, StrokeSet, Timestamp,
};
use crate::ids::be_bytes;
use crate::ordmap::{
    lemma_pairs_map_at, lemma_pairs_map_len, lemma_sorted_pairs_exist, sorted_pairs,
};
use crate::protocol::{
    ClientMessage, ClientView, DeltaView, Rejection, ServerMessage, ServerView, StrokeDelta,
};
use crate::types::{
    CursorState, CursorView, KindView, Point, Rgba, Stroke, StrokeId, StrokeKind,
    StrokeView,
};
use crate::wire::{items_bytes, le_bytes, number_bytes, Wire};

verus! {

/// A text whose bytes can be counted.
pub open spec fn text_fits(s: Seq<char>) -> bool {
    encode_utf8(s).len() <= u64::MAX
}

/// A stroke whose points and characters can be counted.
pub open spec fn shape_fits(kind: KindView, points: Seq<Point>) -> bool {
    &&& points.len() <= usize::MAX
    &&& kind matches KindView::Text { content, .. } ==> text_fits(content)
}

/// Operations that can be counted, each of which fits.
pub open spec fn ops_fit(ops: Seq<OpView>) -> bool {
    &&& ops.len() <= usize::MAX
    &&& forall|i: int|
        0 <= i < ops.len() ==> ((#[trigger] ops[i]) matches OpView::Add { stroke, .. }
            ==> shape_fits(stroke.kind, stroke.points))
}

/// A replica with no more elements than can be counted, each of which fits, and
/// whose draw order names exactly what is visible.
pub open spec fn set_fits(set: SetView) -> bool {
    &&& set.entries.dom().finite()
    &&& set.entries.dom().len() <= usize::MAX
    &&& set.indexed()
    &&& forall|id: StrokeId| #[trigger]
        set.entries.contains_key(id) ==> (set.entries[id].add matches Some(a) ==> shape_fits(
            a.stroke.kind,
            a.stroke.points,
        ))
}

proof fn lemma_shape(kind: KindView, points: Seq<Point>)
    requires
        shape_fits(kind, points),
    ensures
        <StrokeKind as Wire>::faithful(kind),
        <Vec<Point> as Wire>::faithful(points),
{
}

proof fn lemma_ops(ops: Seq<OpView>)
    requires
        ops_fit(ops),
    ensures
        <Vec<StrokeOp> as Wire>::faithful(ops),
{
    assert forall|i: int| 0 <= i < ops.len() implies <StrokeOp as Wire>::faithful(
        #[trigger] ops[i],
    ) by {
        if let OpView::Add { stroke, .. } = ops[i] {
            lemma_shape(stroke.kind, stroke.points);
        }
    }
}

proof fn lemma_set(set: SetView)
    requires
        set_fits(set),
    ensures
        <StrokeSet as Wire>::faithful(set),
{
    let pairs = sorted_pairs(set.entries);
    lemma_sorted_pairs_exist(set.entries);
    lemma_pairs_map_len(pairs);
    assert forall|i: int| 0 <= i < pairs.len() implies <(StrokeId, StrokeEntry) as Wire>::faithful(
        #[trigger] pairs[i],
    ) by {
        lemma_pairs_map_at(pairs, i);
        assert(set.entries.contains_key(pairs[i].0));
        if let Some(a) = pairs[i].1.add {
            lemma_shape(a.stroke.kind, a.stroke.points);
        }
    }
}

/// Every message of a client, however long, is read as it was written.
pub proof fn law_client_messages_come_back(msg: ClientView)
    requires
        match msg {
            ClientView::Hello { room, name, .. } => text_fits(room) && text_fits(name),
            ClientView::Ops(ops) => ops_fit(ops),
            ClientView::Cursor(c) => text_fits(c.name),
            ClientView::StrokeDelta(d) => shape_fits(d.kind, d.points),
            _ => true,
        },
    ensures
        decoded::<ClientMessage>(<ClientMessage as Wire>::bytes(msg)) == Ok::<ClientView, Seq<char>>(
            msg,
        ),
{
    if let ClientView::Ops(ops) = msg {
        lemma_ops(ops);
    }
    if let ClientView::StrokeDelta(d) = msg {
        lemma_shape(d.kind, d.points);
    }
    law_decode_inverts_encode::<ClientMessage>(msg);
}

/// Every message of the server, however long, is read as it was written.
pub proof fn law_server_messages_come_back(msg: ServerView)
    requires
        match msg {
            ServerView::Welcome { room, snapshot, peers, .. } => text_fits(room) && set_fits(
                snapshot,
            ) && peers.len() <= usize::MAX && forall|i: int|
                0 <= i < peers.len() ==> text_fits((#[trigger] peers[i]).name),
            ServerView::Snapshot(set) => set_fits(set),
            ServerView::Ops { ops, .. } => ops_fit(ops),
            ServerView::Cursor(c) => text_fits(c.name),
            ServerView::PeerJoined(c) => text_fits(c.name),
            ServerView::StrokeDelta(d) => shape_fits(d.kind, d.points),
            _ => true,
        },
    ensures
        decoded::<ServerMessage>(<ServerMessage as Wire>::bytes(msg)) == Ok::<ServerView, Seq<char>>(
            msg,
        ),
{
    match msg {
        ServerView::Welcome { snapshot, peers, .. } => {
            lemma_set(snapshot);
            assert forall|i: int| 0 <= i < peers.len() implies <CursorState as Wire>::faithful(
                #[trigger] peers[i],
            ) by {
                assert(text_fits(peers[i].name));
            }
        },
        ServerView::Snapshot(set) => lemma_set(set),
        ServerView::Ops { ops, .. } => lemma_ops(ops),
        ServerView::StrokeDelta(d) => lemma_shape(d.kind, d.points),
        _ => {},
    }
    law_decode_inverts_encode::<ServerMessage>(msg);
}

/// Every replica, however large, comes back from its snapshot.
pub proof fn law_snapshots_come_back(set: SetView)
    requires
        set_fits(set),
    ensures
        decoded::<StrokeSet>(<StrokeSet as Wire>::bytes(set)) == Ok::<SetView, Seq<char>>(set),
{
    lemma_set(set);
    law_decode_inverts_encode::<StrokeSet>(set);
}

/// Lists are their count, then their items one after the other.
pub proof fn law_lists_are_counted<T: Wire>(items: Seq<T::Value>, next: T::Value)
    ensures
        <Vec<T> as Wire>::bytes(items) == number_bytes(items.len()) + items_bytes::<T>(items),
        items_bytes::<T>(Seq::empty()).len() == 0,
        items_bytes::<T>(items.push(next)) == items_bytes::<T>(items) + T::bytes(next),
{
    assert(items.push(next).drop_last() =~= items);
}

/// How strokes and what they are made of are laid out: field after field.
pub proof fn law_strokes_are_laid_out(
    c: Rgba,
    p: Point,
    ts: Timestamp,
    kind: KindView,
    s: StrokeView,
    d: DeltaView,
)
    ensures
        <Rgba as Wire>::bytes(c) == seq![c.r, c.g, c.b, c.a],
        <Point as Wire>::bytes(p) == le_bytes(p.x.bits as nat, 4) + le_bytes(p.y.bits as nat, 4),
        <Timestamp as Wire>::bytes(ts) == number_bytes(ts.counter as nat) + seq![16u8] + be_bytes(
            ts.client as nat,
            16,
        ),
        <StrokeKind as Wire>::bytes(kind) == (match kind {
            KindView::Freehand => seq![0u8],
            KindView::Line => seq![1u8],
            KindView::Rect => seq![2u8],
            KindView::Ellipse => seq![3u8],
            KindView::Text { content, size } => seq![4u8] + number_bytes(
                encode_utf8(content).len(),
            ) + encode_utf8(content) + le_bytes(size.bits as nat, 4),
        }),
        <Stroke as Wire>::bytes(s) == seq![16u8] + be_bytes(s.id as nat, 16) + seq![16u8]
            + be_bytes(s.client_id as nat, 16) + <Rgba as Wire>::bytes(s.color) + le_bytes(
            s.width.bits as nat,
            4,
        ) + <StrokeKind as Wire>::bytes(s.kind) + <Vec<Point> as Wire>::bytes(s.points),
        <StrokeDelta as Wire>::bytes(d) == seq![16u8] + be_bytes(d.stroke_id as nat, 16)
            + seq![16u8] + be_bytes(d.client_id as nat, 16) + <Rgba as Wire>::bytes(d.color)
            + le_bytes(d.width.bits as nat, 4) + <StrokeKind as Wire>::bytes(d.kind) + <Vec<
            Point,
        > as Wire>::bytes(d.points),
{
    assert(<Rgba as Wire>::bytes(c) =~= seq![c.r, c.g, c.b, c.a]);
    assert(<Timestamp as Wire>::bytes(ts) =~= number_bytes(ts.counter as nat) + seq![16u8]
        + be_bytes(ts.client as nat, 16));
    if let KindView::Text { content, size } = kind {
        assert(<StrokeKind as Wire>::bytes(kind) =~= seq![4u8] + number_bytes(
            encode_utf8(content).len(),
        ) + encode_utf8(content) + le_bytes(size.bits as nat, 4));
    }
    assert(<Stroke as Wire>::bytes(s) =~= seq![16u8] + be_bytes(s.id as nat, 16) + seq![16u8]
        + be_bytes(s.client_id as nat, 16) + <Rgba as Wire>::bytes(s.color) + le_bytes(
        s.width.bits as nat,
        4,
    ) + <StrokeKind as Wire>::bytes(s.kind) + <Vec<Point> as Wire>::bytes(s.points));
    assert(<StrokeDelta as Wire>::bytes(d) =~= seq![16u8] + be_bytes(d.stroke_id as nat, 16)
        + seq![16u8] + be_bytes(d.client_id as nat, 16) + <Rgba as Wire>::bytes(d.color)
        + le_bytes(d.width.bits as nat, 4) + <StrokeKind as Wire>::bytes(d.kind) + <Vec<
        Point,
    > as Wire>::bytes(d.points));
}

/// How operations, elements and cursors are laid out.
pub proof fn law_operations_are_laid_out(op: OpView, e: EntryView, c: CursorView, set: SetView)
    ensures
        <StrokeOp as Wire>::bytes(op) == (match op {
            OpView::Add { stroke, ts } => seq![0u8] + <Stroke as Wire>::bytes(stroke)
                + <Timestamp as Wire>::bytes(ts),
            OpView::Remove { id, ts } => seq![1u8] + seq![16u8] + be_bytes(id as nat, 16)
                + <Timestamp as Wire>::bytes(ts),
        }),
        <StrokeEntry as Wire>::bytes(e) == (match e.add {
            Some(a) => seq![1u8] + <Timestamp as Wire>::bytes(a.ts) + <Stroke as Wire>::bytes(
                a.stroke,
            ),
            None => seq![0u8],
        }) + (match e.removed {
            Some(ts) => seq![1u8] + <Timestamp as Wire>::bytes(ts),
            None => seq![0u8],
        }),
        <CursorState as Wire>::bytes(c) == seq![16u8] + be_bytes(c.client_id as nat, 16)
            + number_bytes(encode_utf8(c.name).len()) + encode_utf8(c.name)
            + <Rgba as Wire>::bytes(c.color) + (match c.position {
            Some(p) => seq![1u8] + <Point as Wire>::bytes(p),
            None => seq![0u8],
        }) + seq![if c.drawing { 1u8 } else { 0u8 }],
        <StrokeSet as Wire>::bytes(set) == <Vec<(StrokeId, StrokeEntry)> as Wire>::bytes(
            sorted_pairs(set.entries),
        ),
{
    match op {
        OpView::Add { stroke, ts } => {
            assert(<StrokeOp as Wire>::bytes(op) =~= seq![0u8] + <Stroke as Wire>::bytes(stroke)
                + <Timestamp as Wire>::bytes(ts));
        },
        OpView::Remove { id, ts } => {
            assert(<StrokeOp as Wire>::bytes(op) =~= seq![1u8] + seq![16u8] + be_bytes(
                id as nat,
                16,
            ) + <Timestamp as Wire>::bytes(ts));
        },
    }
    if let Some(a) = e.add {
        assert(seq![1u8] + <Added as Wire>::bytes(a) =~= seq![1u8] + <Timestamp as Wire>::bytes(
            a.ts,
        ) + <Stroke as Wire>::bytes(a.stroke));
    }
    assert(<CursorState as Wire>::bytes(c) =~= seq![16u8] + be_bytes(c.client_id as nat, 16)
        + number_bytes(encode_utf8(c.name).len()) + encode_utf8(c.name)
        + <Rgba as Wire>::bytes(c.color) + (match c.position {
        Some(p) => seq![1u8] + <Point as Wire>::bytes(p),
        None => seq![0u8],
    }) + seq![if c.drawing { 1u8 } else { 0u8 }]);
}

/// How messages are laid out: a number that says which, then its parts.
pub proof fn law_messages_are_laid_out(msg: ClientView, answer: ServerView)
    ensures
        <ClientMessage as Wire>::bytes(msg) == (match msg {
            ClientView::Hello { protocol, client_id, room, name, color } => seq![0u8]
                + number_bytes(protocol as nat) + seq![16u8] + be_bytes(client_id as nat, 16)
                + number_bytes(encode_utf8(room).len()) + encode_utf8(room) + number_bytes(
                encode_utf8(name).len(),
            ) + encode_utf8(name) + <Rgba as Wire>::bytes(color),
            ClientView::Ops(ops) => seq![1u8] + <Vec<StrokeOp> as Wire>::bytes(ops),
            ClientView::Cursor(c) => seq![2u8] + <CursorState as Wire>::bytes(c),
            ClientView::StrokeDelta(d) => seq![3u8] + <StrokeDelta as Wire>::bytes(d),
            ClientView::RequestSnapshot => seq![4u8],
            ClientView::Ping(n) => seq![5u8] + number_bytes(n as nat),
        }),
        <ServerMessage as Wire>::bytes(answer) == (match answer {
            ServerView::Welcome { client_id, room, snapshot, peers } => seq![0u8] + seq![16u8]
                + be_bytes(client_id as nat, 16) + number_bytes(encode_utf8(room).len())
                + encode_utf8(room) + <StrokeSet as Wire>::bytes(snapshot) + <Vec<
                CursorState,
            > as Wire>::bytes(peers),
            ServerView::Snapshot(set) => seq![1u8] + <StrokeSet as Wire>::bytes(set),
            ServerView::Ops { from, ops } => seq![2u8] + seq![16u8] + be_bytes(from as nat, 16)
                + <Vec<StrokeOp> as Wire>::bytes(ops),
            ServerView::Cursor(c) => seq![3u8] + <CursorState as Wire>::bytes(c),
            ServerView::StrokeDelta(d) => seq![4u8] + <StrokeDelta as Wire>::bytes(d),
            ServerView::PeerJoined(c) => seq![5u8] + <CursorState as Wire>::bytes(c),
            ServerView::PeerLeft(id) => seq![6u8] + seq![16u8] + be_bytes(id as nat, 16),
            ServerView::Rejected(why) => seq![7u8] + (match why {
                Rejection::UnsupportedProtocol { server, client } => seq![0u8] + number_bytes(
                    server as nat,
                ) + number_bytes(client as nat),
                Rejection::NotJoined => seq![1u8],
                Rejection::RoomFull => seq![2u8],
                Rejection::InvalidRoom => seq![3u8],
                Rejection::Malformed => seq![4u8],
            }),
            ServerView::Pong(n) => seq![8u8] + number_bytes(n as nat),
        }),
{
    if let ClientView::Hello { protocol, client_id, room, name, color } = msg {
        assert(<ClientMessage as Wire>::bytes(msg) =~= seq![0u8] + number_bytes(protocol as nat)
            + seq![16u8] + be_bytes(client_id as nat, 16) + number_bytes(encode_utf8(room).len())
            + encode_utf8(room) + number_bytes(encode_utf8(name).len()) + encode_utf8(name)
            + <Rgba as Wire>::bytes(color));
    }
    match answer {
        ServerView::Welcome { client_id, room, snapshot, peers } => {
            assert(<ServerMessage as Wire>::bytes(answer) =~= seq![0u8] + seq![16u8] + be_bytes(
                client_id as nat,
                16,
            ) + number_bytes(encode_utf8(room).len()) + encode_utf8(room)
                + <StrokeSet as Wire>::bytes(snapshot) + <Vec<CursorState> as Wire>::bytes(peers));
        },
        ServerView::Ops { from, ops } => {
            assert(<ServerMessage as Wire>::bytes(answer) =~= seq![2u8] + seq![16u8] + be_bytes(
                from as nat,
                16,
            ) + <Vec<StrokeOp> as Wire>::bytes(ops));
        },
        ServerView::PeerLeft(id) => {
            assert(<ServerMessage as Wire>::bytes(answer) =~= seq![6u8] + seq![16u8] + be_bytes(
                id as nat,
                16,
            ));
        },
        ServerView::Rejected(why) => {
            if let Rejection::UnsupportedProtocol { server, client } = why {
                assert(<Rejection as Wire>::bytes(why) =~= seq![0u8] + number_bytes(server as nat)
                    + number_bytes(client as nat));
            }
        },
        _ => {},
    }
}

/// What begins with a number that stands for no message is refused, and what
/// begins with one that does is read as that message, if at all.
pub proof fn law_unknown_messages_are_refused(bytes: Seq<u8>)
    requires
        bytes.len() > 0,
        bytes[0] < 251,
    ensures
        bytes[0] > 5 ==> decoded::<ClientMessage>(bytes) is Err,
        decoded::<ClientMessage>(bytes) matches Ok(msg) ==> bytes[0] == (match msg {
            ClientView::Hello { .. } => 0u8,
            ClientView::Ops(_) => 1,
            ClientView::Cursor(_) => 2,
            ClientView::StrokeDelta(_) => 3,
            ClientView::RequestSnapshot => 4,
            ClientView::Ping(_) => 5,
        }),
        bytes[0] > 8 ==> decoded::<ServerMessage>(bytes) is Err,
        decoded::<ServerMessage>(bytes) matches Ok(msg) ==> bytes[0] == (match msg {
            ServerView::Welcome { .. } => 0u8,
            ServerView::Snapshot(_) => 1,
            ServerView::Ops { .. } => 2,
            ServerView::Cursor(_) => 3,
            ServerView::StrokeDelta(_) => 4,
            ServerView::PeerJoined(_) => 5,
            ServerView::PeerLeft(_) => 6,
            ServerView::Rejected(_) => 7,
            ServerView::Pong(_) => 8,
        }),
{
}

/// A frame decodes exactly where it reads as a value and nothing is left over;
/// nothing is read from nothing.
pub proof fn law_frames_decode_whole<T: Wire>(bytes: Seq<u8>)
    ensures
        decoded::<T>(bytes) is Ok <==> T::read(bytes) is Ok && T::read(bytes)->Ok_0.1
            == bytes.len(),
        decoded::<T>(bytes) matches Ok(v) ==> T::read(bytes)->Ok_0.0 == v,
        T::read(bytes) matches Err(text) ==> decoded::<T>(bytes) == Err::<T::Value, Seq<char>>(
            text,
        ),
        decoded::<ClientMessage>(Seq::empty()) is Err,
        decoded::<ServerMessage>(Seq::empty()) is Err,
        decoded::<StrokeSet>(Seq::empty()) is Err,
{
}

} // verus!
