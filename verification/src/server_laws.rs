//! Laws of the server: what peers are answered, what becomes of a room, and what
//! reaches the disk.

use vstd::prelude::*;

use crate::codec::{decoded, law_decode_inverts_encode};
use crate::crdt::{OpView, StrokeSet};
use crate::crdt_laws::law_draw_order;
use crate::ordmap::{
    lemma_pairs_map_at, lemma_pairs_map_dom, lemma_pairs_map_len, lemma_sorted_pairs_exist,
    pairs_keys, sorted_pairs, Ranked,
};
use crate::protocol::{ClientMessage, ClientView, DeltaView, Rejection, ServerMessage, ServerView};
use crate::registry::{
    after_flush, aside_name, law_snapshots_survive_a_restart, pending, restored, saved, slug_char,
    snapshot_name, sorted_rooms, valid_room_id, with_room, written,
};
use crate::room::{without, Frame, Outbound, RoomView};
use crate::state_laws::law_news_changes_the_set;
use crate::text::{before, decimal, lemma_before_total, lemma_before_transitive};
use crate::types::{ClientId, CursorView, Rgba};
use crate::wire::Wire;
use crate::ws::{
    answers, peer_after, refusal, room_after, said, shortened, Incoming, PeerView, Reaction,
};

verus! {

/// Operations reach the room's state, and the room is to be saved wherever they
/// changed it. Nothing else about the room changes.
pub proof fn law_changed_rooms_are_dirty(room: RoomView, ops: Seq<OpView>)
    ensures
        ({
            let after = room.with_ops(ops);
            &&& after.state == room.state.apply_all(ops)
            &&& after.dirty <==> room.dirty || after.state.entries != room.state.entries
            &&& after.state != room.state ==> after.dirty
            &&& after == (RoomView { state: after.state, dirty: after.dirty, ..room })
        }),
{
    law_news_changes_the_set(room.state, ops);
}

/// What a peer says is stored exactly where it is operations, and a room whose
/// state that changed is to be saved.
pub proof fn law_only_operations_are_stored(peer: PeerView, room: RoomView, msg: ClientView)
    ensures
        ({
            let after = room_after(peer, room, msg);
            &&& msg is Ops ==> after.state == room.state.apply_all(msg->Ops_0) && after.peers
                == room.peers
            &&& !(msg is Ops) ==> after.state == room.state && after.dirty == room.dirty
            &&& after.dirty <==> room.dirty || after.state.entries != room.state.entries
            &&& after.state != room.state ==> after.dirty
            &&& after.id == room.id && after.path == room.path && after.max_peers
                == room.max_peers
            &&& !(msg is Ops || msg is Cursor) ==> after == room
        }),
{
    if let ClientView::Ops(ops) = msg {
        if ops.len() > 0 {
            law_changed_rooms_are_dirty(room, ops);
        } else {
            assert(ops =~= Seq::empty());
        }
    }
}

/// A room that is not to be saved is on disk as it is: where the bytes last
/// handed out give back the state of every room that is not to be saved, they do
/// so after whatever a peer says; and what is handed out anew gives back the
/// state of the moment.
pub proof fn law_clean_rooms_are_on_disk(
    peer: PeerView,
    room: RoomView,
    msg: ClientView,
    bytes: Seq<u8>,
)
    requires
        !room.dirty ==> restored(bytes) == room.state,
    ensures
        ({
            let after = room_after(peer, room, msg);
            !after.dirty ==> restored(bytes) == after.state
        }),
        <StrokeSet as Wire>::faithful(room.state) ==> restored(
            <StrokeSet as Wire>::bytes(room.state),
        ) == room.state,
{
    if let ClientView::Ops(ops) = msg {
        if ops.len() > 0 {
            law_news_changes_the_set(room.state, ops);
        }
    }
    if <StrokeSet as Wire>::faithful(room.state) {
        law_snapshots_survive_a_restart(room);
    }
}

/// What was stored and decodes gives the room its state; what does not decode
/// gives an empty one.
pub proof fn law_stored_bytes_are_trusted_where_they_decode(bytes: Seq<u8>)
    ensures
        match decoded::<StrokeSet>(bytes) {
            Ok(set) => restored(bytes) == set,
            Err(_) => restored(bytes).entries.dom() =~= Set::empty() && restored(bytes).order.dom()
                =~= Set::empty(),
        },
{
}

/// A room id is made of one to sixty-four letters, digits, hyphens and
/// underscores.
pub proof fn law_room_ids(id: Seq<char>)
    ensures
        valid_room_id(id) <==> 1 <= id.len() && id.len() <= 64 && forall|i: int|
            0 <= i < id.len() ==> {
                let c = (#[trigger] id[i]) as int;
                (97 <= c && c <= 122) || (65 <= c && c <= 90) || (48 <= c && c <= 57) || c == 45
                    || c == 95
            },
        snapshot_name(id) == id + ".bincode"@,
        snapshot_name(id).take(id.len() as int) == id,
        aside_name(id) == id + ".corrupt"@,
{
    reveal_strlit(".");
    reveal_strlit("bincode");
    reveal_strlit(".bincode");
    assert(snapshot_name(id) =~= id + ".bincode"@);
    assert(snapshot_name(id).take(id.len() as int) =~= id);
    if valid_room_id(id) {
        assert forall|i: int| 0 <= i < id.len() implies ({
            let c = (#[trigger] id[i]) as int;
            (97 <= c && c <= 122) || (65 <= c && c <= 90) || (48 <= c && c <= 57) || c == 45 || c
                == 95
        }) by {
            assert(slug_char(id[i]));
        }
    } else if 1 <= id.len() && id.len() <= 64 {
        let i = choose|i: int| 0 <= i < id.len() && !slug_char(#[trigger] id[i]);
        assert(!slug_char(id[i]));
    }
}

/// A connection is let in exactly where its first message is a greeting of the
/// server's protocol for a proper room. Of what is wrong with it the first thing
/// is told.
pub proof fn law_greetings(first: ClientView)
    ensures
        !(first is Hello) <==> refusal(first) == Some(Rejection::NotJoined),
        first is Hello && first->protocol != 2 ==> refusal(first) == Some(
            Rejection::UnsupportedProtocol { server: 2, client: first->protocol },
        ),
        first is Hello && first->protocol == 2 && !valid_room_id(first->room) ==> refusal(first)
            == Some(Rejection::InvalidRoom),
        first is Hello && first->protocol == 2 && valid_room_id(first->room) <==> refusal(
            first,
        ) is None,
{
}

/// Of a name the first thirty-two characters are kept, all of a shorter one.
pub proof fn law_names_are_kept_short(name: Seq<char>)
    ensures
        name.len() <= 32 ==> shortened(name) == name,
        name.len() > 32 ==> shortened(name).len() == 32,
        forall|i: int| 0 <= i < shortened(name).len() ==> #[trigger] shortened(name)[i] == name[i],
{
}

/// A newcomer has the id, the colour and the (short) name it gave, no position,
/// and draws nothing.
pub proof fn law_newcomers(id: ClientId, name: Seq<char>, color: Rgba)
    ensures
        ({
            let peer = PeerView::newcomer(id, name, color);
            &&& peer.id == id
            &&& peer.cursor.client_id == id
            &&& peer.cursor.color == color
            &&& peer.cursor.name == shortened(name)
            &&& peer.cursor.position is None
            &&& !peer.cursor.drawing
        }),
{
}

/// Whoever is in the room may come again; anybody else only while there are
/// fewer peers than may be.
pub proof fn law_rooms_fill_up(room: RoomView, cursor: CursorView, other: ClientId)
    ensures
        room.admits(cursor.client_id) <==> room.peers.contains_key(cursor.client_id)
            || room.peers.dom().len() < room.max_peers,
        ({
            let after = room.with_peer(cursor);
            &&& after.peers.contains_key(cursor.client_id)
            &&& after.peers[cursor.client_id] == cursor
            &&& other != cursor.client_id ==> after.peers.contains_key(other)
                == room.peers.contains_key(other)
            &&& other != cursor.client_id && room.peers.contains_key(other) ==> after.peers[other]
                == room.peers[other]
            &&& after == (RoomView { peers: after.peers, ..room })
        }),
        ({
            let after = room.without_peer(cursor.client_id);
            &&& !after.peers.contains_key(cursor.client_id)
            &&& other != cursor.client_id ==> after.peers.contains_key(other)
                == room.peers.contains_key(other)
            &&& other != cursor.client_id && room.peers.contains_key(other) ==> after.peers[other]
                == room.peers[other]
            &&& after == (RoomView { peers: after.peers, ..room })
        }),
{
}

/// Everyone present is listed once, in ascending order of their ids; a list
/// without one peer keeps all the others in their order.
pub proof fn law_everyone_present_is_listed(room: RoomView, me: ClientId)
    requires
        room.orderly(),
    ensures
        room.present().len() == room.peers.dom().len(),
        forall|id: ClientId| #[trigger]
            room.peers.contains_key(id) ==> room.present().contains(room.peers[id]),
        forall|i: int, j: int|
            0 <= i < j < room.present().len() ==> (#[trigger] room.present()[i]).client_id.rank()
                < (#[trigger] room.present()[j]).client_id.rank(),
        without(room.present(), me) == room.present().filter(|c: CursorView| c.client_id != me),
{
    let pairs = sorted_pairs(room.peers);
    lemma_sorted_pairs_exist(room.peers);
    lemma_pairs_map_len(pairs);
    let all = room.present();
    assert forall|id: ClientId| #[trigger] room.peers.contains_key(id) implies all.contains(
        room.peers[id],
    ) by {
        lemma_pairs_map_dom(pairs, id);
        let k = choose|k: int| 0 <= k < pairs.len() && (#[trigger] pairs[k]).0 == id;
        lemma_pairs_map_at(pairs, k);
        assert(all[k] == room.peers[id]);
    }
    assert forall|i: int, j: int| 0 <= i < j < all.len() implies (
    #[trigger] all[i]).client_id.rank() < (#[trigger] all[j]).client_id.rank() by {
        lemma_pairs_map_at(pairs, i);
        lemma_pairs_map_at(pairs, j);
        assert(pairs_keys(pairs)[i].rank() < pairs_keys(pairs)[j].rank());
    }
    lemma_without(all, me);
}

proof fn lemma_without(cursors: Seq<CursorView>, me: ClientId)
    ensures
        without(cursors, me) == cursors.filter(|c: CursorView| c.client_id != me),
    decreases cursors.len(),
{
    reveal(Seq::filter);
    if cursors.len() > 0 {
        lemma_without(cursors.drop_last(), me);
    }
}

/// What a frame of a client says is what the client put into it.
pub proof fn law_clients_are_understood(incoming: Incoming, msg: ClientView)
    requires
        <ClientMessage as Wire>::faithful(msg),
        incoming is Data,
        incoming->Data_0@ == <ClientMessage as Wire>::bytes(msg),
    ensures
        said(incoming) == Some(msg),
{
    law_decode_inverts_encode::<ClientMessage>(msg);
}

/// Operations, cursors and chunks of strokes go out to everybody but their
/// author, under the author's identity and otherwise as they came. No operations
/// are no news.
pub proof fn law_others_are_told(
    peer: PeerView,
    room: RoomView,
    msg: ClientView,
    reaction: Reaction,
)
    requires
        answers(peer, room, msg, reaction),
        msg is Ops || msg is Cursor || msg is StrokeDelta,
    ensures
        msg is Ops && msg->Ops_0.len() == 0 ==> reaction is Nothing,
        !(msg is Ops && msg->Ops_0.len() == 0) ==> reaction is Broadcast && ({
            let out = reaction->Broadcast_0;
            &&& out.exclude == Some(peer.id)
            &&& !out.frame.text
            &&& out.frame.bytes@ == <ServerMessage as Wire>::bytes(
                match msg {
                    ClientView::Ops(ops) => ServerView::Ops { from: peer.id, ops },
                    ClientView::Cursor(c) => ServerView::Cursor(
                        CursorView {
                            client_id: peer.id,
                            name: peer.cursor.name,
                            color: peer.cursor.color,
                            position: c.position,
                            drawing: c.drawing,
                        },
                    ),
                    _ => ServerView::StrokeDelta(
                        DeltaView {
                            client_id: peer.id,
                            ..msg->StrokeDelta_0
                        },
                    ),
                },
            )
        }),
{
}

/// A request for the room's state, a ping and a second greeting are answered to
/// the peer alone.
pub proof fn law_requests_are_answered(
    peer: PeerView,
    room: RoomView,
    msg: ClientView,
    reaction: Reaction,
)
    requires
        answers(peer, room, msg, reaction),
        msg is RequestSnapshot || msg is Ping || msg is Hello,
    ensures
        reaction is Reply,
        !reaction->Reply_0.text,
        reaction->Reply_0.bytes@ == <ServerMessage as Wire>::bytes(
            match msg {
                ClientView::RequestSnapshot => ServerView::Snapshot(room.state),
                ClientView::Ping(n) => ServerView::Pong(n),
                _ => ServerView::Rejected(Rejection::Malformed),
            },
        ),
{
}

/// A cursor is remembered for late joiners, under the identity its peer joined
/// with; by it alone the peer and its entry in the room change.
pub proof fn law_cursors_are_remembered(peer: PeerView, room: RoomView, msg: ClientView)
    ensures
        msg is Cursor ==> ({
            let c = msg->Cursor_0;
            let own = CursorView {
                client_id: peer.id,
                name: peer.cursor.name,
                color: peer.cursor.color,
                position: c.position,
                drawing: c.drawing,
            };
            let after = room_after(peer, room, msg);
            &&& peer_after(peer, msg) == (PeerView { cursor: own, ..peer })
            &&& room.peers.contains_key(peer.id) ==> after.peers == room.peers.insert(peer.id, own)
            &&& !room.peers.contains_key(peer.id) ==> after == room
        }),
        !(msg is Cursor) ==> peer_after(peer, msg) == peer,
{
}

/// A room is opened in its place: the rooms stay in ascending order of their ids,
/// and all that were open stay as they were.
pub proof fn law_rooms_are_opened_in_order(rooms: Seq<RoomView>, room: RoomView)
    requires
        forall|i: int, j: int|
            0 <= i < j < rooms.len() ==> before(
                (#[trigger] rooms[i]).id,
                (#[trigger] rooms[j]).id,
            ),
        forall|i: int| 0 <= i < rooms.len() ==> (#[trigger] rooms[i]).id != room.id,
    ensures
        exists|at: int|
            0 <= at <= rooms.len() && with_room(rooms, room) == #[trigger] rooms.insert(at, room)
                && (forall|i: int| 0 <= i < at ==> before((#[trigger] rooms[i]).id, room.id)) && (
            forall|i: int| at <= i < rooms.len() ==> before(room.id, (#[trigger] rooms[i]).id)),
        sorted_rooms(rooms),
        sorted_rooms(with_room(rooms, room)),
    decreases rooms.len(),
{
    if rooms.len() == 0 || before(rooms.last().id, room.id) {
        let at = rooms.len() as int;
        assert(rooms.push(room) =~= rooms.insert(at, room));
        assert forall|i: int| 0 <= i < at implies before((#[trigger] rooms[i]).id, room.id) by {
            if i < at - 1 {
                assert(before(rooms[i].id, rooms[at - 1].id));
                lemma_before_transitive(rooms[i].id, rooms.last().id, room.id);
            }
        }
    } else {
        let front = rooms.drop_last();
        let last = rooms.last();
        assert(rooms[rooms.len() - 1] == last);
        lemma_before_total(last.id, room.id);
        assert forall|i: int, j: int| 0 <= i < j < front.len() implies before(
            (#[trigger] front[i]).id,
            (#[trigger] front[j]).id,
        ) by {
            assert(before(rooms[i].id, rooms[j].id));
        }
        assert forall|i: int| 0 <= i < front.len() implies (#[trigger] front[i]).id != room.id by {
            assert(rooms[i].id != room.id);
        }
        law_rooms_are_opened_in_order(front, room);
        let at = choose|at: int|
            0 <= at <= front.len() && with_room(front, room) == #[trigger] front.insert(at, room)
                && (forall|i: int| 0 <= i < at ==> before((#[trigger] front[i]).id, room.id)) && (
            forall|i: int| at <= i < front.len() ==> before(room.id, (#[trigger] front[i]).id));
        assert(front.insert(at, room).push(last) =~= rooms.insert(at, room));
        assert forall|i: int| 0 <= i < at implies before((#[trigger] rooms[i]).id, room.id) by {
            assert(front[i] == rooms[i]);
        }
        assert forall|i: int| at <= i < rooms.len() implies before(
            room.id,
            (#[trigger] rooms[i]).id,
        ) by {
            if i < front.len() {
                assert(front[i] == rooms[i]);
            }
        }
    }
    let at = choose|at: int|
        0 <= at <= rooms.len() && with_room(rooms, room) == #[trigger] rooms.insert(at, room) && (
        forall|i: int| 0 <= i < at ==> before((#[trigger] rooms[i]).id, room.id)) && (forall|
            i: int,
        |
            at <= i < rooms.len() ==> before(room.id, (#[trigger] rooms[i]).id));
    let all = with_room(rooms, room);
    assert forall|i: int, j: int| 0 <= i < j < all.len() implies before(all[i].id, all[j].id) by {
        if i < at && j < at {
            assert(all[i] == rooms[i] && all[j] == rooms[j]);
        } else if i < at && j > at {
            assert(all[i] == rooms[i] && all[j] == rooms[j - 1]);
        } else if i > at {
            assert(all[i] == rooms[i - 1] && all[j] == rooms[j - 1]);
        } else if i == at {
            assert(all[j] == rooms[j - 1]);
        } else {
            assert(all[i] == rooms[i]);
        }
    }
}

/// A flush hands out the state of every room that is to be saved, of those only,
/// with the room's id and where it goes; then no room is to be saved.
pub proof fn law_every_dirty_room_is_flushed(rooms: Seq<RoomView>)
    ensures
        pending(rooms, rooms.len() as int) == rooms.filter(|r: RoomView| r.dirty).map_values(
            |r: RoomView| (r.id, r.path, <StrokeSet as Wire>::bytes(r.state)),
        ),
        saved(rooms).len() == rooms.len(),
        forall|i: int|
            0 <= i < rooms.len() ==> (#[trigger] saved(rooms)[i]) == (RoomView {
                dirty: false,
                ..rooms[i]
            }),
{
    lemma_pending(rooms, rooms.len() as int);
    assert(rooms.take(rooms.len() as int) =~= rooms);
}

proof fn lemma_pending(rooms: Seq<RoomView>, upto: int)
    requires
        0 <= upto <= rooms.len(),
    ensures
        pending(rooms, upto) == rooms.take(upto).filter(|r: RoomView| r.dirty).map_values(
            |r: RoomView| (r.id, r.path, <StrokeSet as Wire>::bytes(r.state)),
        ),
    decreases upto,
{
    reveal(Seq::filter);
    let f = |r: RoomView| (r.id, r.path, <StrokeSet as Wire>::bytes(r.state));
    let dirty = |r: RoomView| r.dirty;
    if upto > 0 {
        lemma_pending(rooms, upto - 1);
        let (now, was) = (rooms.take(upto), rooms.take(upto - 1));
        assert(now.drop_last() =~= was);
        if rooms[upto - 1].dirty {
            assert(now.filter(dirty) == was.filter(dirty).push(rooms[upto - 1]));
        } else {
            assert(now.filter(dirty) == was.filter(dirty));
        }
        assert(pending(rooms, upto) =~= now.filter(dirty).map_values(f));
    } else {
        assert(pending(rooms, upto) =~= rooms.take(upto).filter(dirty).map_values(f));
    }
}

/// A room whose write failed is to be saved again, any other is left as it is;
/// and as many writes are counted as went well.
pub proof fn law_failed_writes_stay_dirty(
    rooms: Seq<RoomView>,
    outcomes: Seq<(Seq<char>, bool)>,
    i: int,
)
    requires
        0 <= i < rooms.len(),
    ensures
        after_flush(rooms, outcomes).len() == rooms.len(),
        after_flush(rooms, outcomes)[i] == (RoomView {
            dirty: rooms[i].dirty || outcomes.contains((rooms[i].id, false)),
            ..rooms[i]
        }),
        written(outcomes) == outcomes.filter(|o: (Seq<char>, bool)| o.1).len(),
    decreases outcomes.len(),
{
    reveal(Seq::filter);
    if outcomes.len() > 0 {
        let front = outcomes.drop_last();
        law_failed_writes_stay_dirty(rooms, front, i);
        let want = (rooms[i].id, false);
        assert(outcomes.contains(want) <==> front.contains(want) || outcomes.last() == want) by {
            if front.contains(want) {
                let k = choose|k: int| 0 <= k < front.len() && front[k] == want;
                assert(outcomes[k] == want);
            }
            if outcomes.last() == want {
                assert(outcomes[outcomes.len() - 1] == want);
            }
            if outcomes.contains(want) && outcomes.last() != want {
                let k = choose|k: int| 0 <= k < outcomes.len() && outcomes[k] == want;
                assert(front[k] == want);
            }
        }
    }
}

/// What is told of a room: its id, how many peers are in it, and how many
/// strokes are on its board.
pub proof fn law_rooms_are_described(room: RoomView)
    requires
        room.state.indexed(),
        room.state.order.dom().finite(),
    ensures
        room.info().id == room.id,
        room.info().peers == room.peers.dom().len(),
        room.info().strokes == room.state.visible().len(),
{
    law_draw_order(room.state);
}

/// A frame carries a message where it is a binary one that holds the message's
/// bytes; it reaches everybody but the peer it leaves out. What is replied or
/// told to others is such a frame.
pub proof fn law_frames_carry_messages(
    frame: Frame,
    out: Outbound,
    reaction: Reaction,
    peer: ClientId,
    msg: ServerView,
)
    ensures
        frame.carries(msg) <==> !frame.text && frame.bytes@ == <ServerMessage as Wire>::bytes(msg),
        out.reaches(peer) <==> !(out.exclude is Some && out.exclude->0 == peer),
        reaction.replies(msg) <==> reaction is Reply && !reaction->Reply_0.text
            && reaction->Reply_0.bytes@ == <ServerMessage as Wire>::bytes(msg),
        reaction.tells_others(peer, msg) <==> reaction is Broadcast
            && reaction->Broadcast_0.exclude == Some(peer) && !reaction->Broadcast_0.frame.text
            && reaction->Broadcast_0.frame.bytes@ == <ServerMessage as Wire>::bytes(msg),
{
}

/// A room is in order where everybody is listed under their own id and there are
/// no more peers than may be.
pub proof fn law_orderly_rooms(room: RoomView)
    requires
        room.peers.dom().finite(),
    ensures
        room.orderly() <==> room.peers.dom().len() <= room.max_peers && forall|id: ClientId|
            #[trigger] room.peers.contains_key(id) ==> room.peers[id].client_id == id,
{
}

/// A refusal is told in words.
pub proof fn law_refusals_are_worded(server: u16, client: u16)
    ensures
        (Rejection::UnsupportedProtocol { server, client }).words()
            == "protocol mismatch: server v"@ + decimal(server as nat) + ", client v"@ + decimal(
            client as nat,
        ),
        Rejection::NotJoined.words() == "send Hello before any other message"@,
        Rejection::RoomFull.words() == "room is full"@,
        Rejection::InvalidRoom.words() == "invalid room id"@,
        Rejection::Malformed.words() == "malformed message"@,
{
}

/// A client says nothing but by a frame with a payload that decodes.
pub proof fn law_only_payloads_speak(incoming: Incoming)
    ensures
        said(incoming) is Some <==> incoming is Data && decoded::<ClientMessage>(
            incoming->Data_0@,
        ) is Ok,
        incoming is Data ==> (decoded::<ClientMessage>(incoming->Data_0@) matches Ok(msg)
            ==> said(incoming) == Some(msg)),
{
}

} // verus!
