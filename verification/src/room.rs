//! A single whiteboard room: replicated state, presence, and what goes out to
//! its peers.
//!
//! Outgoing messages are *pre-encoded* frames, so each message is serialised
//! once regardless of peer count.

use vstd::prelude::*;

use crate::codec::{encode, is_text_wire, CodecError};
use crate::crdt::{clone_ops, op_views, OpView, SetView, StrokeOp, StrokeSet};
use crate::ordmap::{lemma_viewed_pairs, sorted_pairs, viewed, viewed_pairs, OrdMap};
use crate::protocol::{cursor_views, Rejection, ServerMessage, ServerView};
use crate::state_laws::law_news_changes_the_set;
use crate::types::{ClientId, CursorState, CursorView, RoomId};
use crate::wire::Wire;

verus! {

/// Frames a peer may miss before it is told to resync via a full snapshot.
pub const BROADCAST_CAPACITY: usize = 4096;

/// The payload of one WebSocket frame.
#[derive(Debug, PartialEq)]
pub struct Frame {
    /// Whether it goes out as a *text* frame.
    pub text: bool,
    pub bytes: Vec<u8>,
}

impl Frame {
    /// Whether this is the frame of a message.
    pub open spec fn carries(self, msg: ServerView) -> bool {
        !self.text && self.bytes@ == <ServerMessage as Wire>::bytes(msg)
    }
}

impl Clone for Frame {
    fn clone(&self) -> (r: Frame)
        ensures
            r.text == self.text,
            r.bytes@ == self.bytes@,
    {
        let bytes = self.bytes.clone();
        assert(bytes@ =~= self.bytes@);
        Frame { text: self.text, bytes }
    }
}

/// One outbound frame plus the peer that must *not* receive it (its author).
#[derive(Debug)]
pub struct Outbound {
    pub exclude: Option<ClientId>,
    pub frame: Frame,
}

impl Outbound {
    /// Whether a peer receives the frame.
    pub open spec fn reaches(self, peer: ClientId) -> bool {
        self.exclude != Some(peer)
    }

    /// Whether a peer receives the frame.
    pub fn is_for(&self, peer: ClientId) -> (r: bool)
        ensures
            r == self.reaches(peer),
    {
        match self.exclude {
            Some(author) => author != peer,
            None => true,
        }
    }
}

impl Clone for Outbound {
    fn clone(&self) -> (r: Outbound)
        ensures
            r.exclude == self.exclude,
            r.frame.text == self.frame.text,
            r.frame.bytes@ == self.frame.bytes@,
    {
        Outbound { exclude: self.exclude, frame: self.frame.clone() }
    }
}

/// Wrap a message in the WebSocket frame type matching the wire format.
pub fn encode_frame(msg: &ServerMessage) -> (r: Result<Frame, CodecError>)
    requires
        msg.wf(),
    ensures
        match r {
            Ok(frame) => frame.carries(msg@),
            Err(_) => false,
        },
{
    match encode(msg) {
        Ok(bytes) => Ok(Frame { text: is_text_wire(), bytes }),
        Err(e) => Err(e),
    }
}

pub struct Room {
    id: RoomId,
    path: String,
    state: StrokeSet,
    peers: OrdMap<ClientId, CursorState>,
    dirty: bool,
    max_peers: usize,
}

/// Mathematical counterpart of [`Room`].
pub struct RoomView {
    pub id: Seq<char>,
    pub path: Seq<char>,
    pub state: SetView,
    pub peers: Map<ClientId, CursorView>,
    /// Whether the state changed since it was last saved.
    pub dirty: bool,
    pub max_peers: nat,
}

impl View for Room {
    type V = RoomView;

    closed spec fn view(&self) -> RoomView {
        RoomView {
            id: self.id@,
            path: self.path@,
            state: self.state@,
            peers: viewed(self.peers@),
            dirty: self.dirty,
            max_peers: self.max_peers as nat,
        }
    }
}

/// The cursors that belong to somebody else than `me`.
pub open spec fn without(cursors: Seq<CursorView>, me: ClientId) -> Seq<CursorView>
    decreases cursors.len(),
{
    if cursors.len() == 0 {
        Seq::empty()
    } else {
        let front = without(cursors.drop_last(), me);
        if cursors.last().client_id != me {
            front.push(cursors.last())
        } else {
            front
        }
    }
}

impl RoomView {
    /// Everyone present, in ascending order of their ids.
    pub open spec fn present(self) -> Seq<CursorView> {
        sorted_pairs(self.peers).map_values(|p: (ClientId, CursorView)| p.1)
    }

    /// Everyone is listed under their own id, and there are no more than may
    /// be.
    pub open spec fn orderly(self) -> bool {
        &&& self.peers.dom().finite()
        &&& self.peers.dom().len() <= self.max_peers
        &&& forall|id: ClientId| #[trigger]
            self.peers.contains_key(id) ==> self.peers[id].client_id == id
    }

    /// Whether there is room for a peer. One who is already present may come
    /// again.
    pub open spec fn admits(self, id: ClientId) -> bool {
        self.peers.dom().len() < self.max_peers || self.peers.contains_key(id)
    }

    /// The room with a peer's cursor.
    pub open spec fn with_peer(self, cursor: CursorView) -> RoomView {
        RoomView { peers: self.peers.insert(cursor.client_id, cursor), ..self }
    }

    pub open spec fn without_peer(self, id: ClientId) -> RoomView {
        RoomView { peers: self.peers.remove(id), ..self }
    }

    /// The room after operations.
    pub open spec fn with_ops(self, ops: Seq<OpView>) -> RoomView {
        RoomView {
            state: self.state.apply_all(ops),
            dirty: self.dirty || self.state.any_fresh(ops),
            ..self
        }
    }
}

impl Room {
    /// The parts are well formed and the room is orderly.
    pub closed spec fn wf(self) -> bool {
        self.state.wf() && self.peers.wf() && self@.orderly()
    }

    /// Every room is orderly: everyone in it is listed under their own id, and
    /// there are never more than it takes.
    pub proof fn law_rooms_are_orderly(self)
        requires
            self.wf(),
        ensures
            self@.orderly(),
    {
    }

    pub fn new(id: RoomId, path: String, initial: StrokeSet, max_peers: usize) -> (r: Room)
        requires
            initial.wf(),
        ensures
            r.wf(),
            r@ == (RoomView {
                id: id@,
                path: path@,
                state: initial@,
                peers: Map::empty(),
                dirty: false,
                max_peers: max_peers as nat,
            }),
    {
        let r = Room {
            id,
            path,
            state: initial,
            peers: OrdMap::new(),
            dirty: false,
            max_peers,
        };
        assert(r@.peers =~= Map::empty());
        r
    }

    pub fn id(&self) -> (r: &str)
        ensures
            r@ == self@.id,
    {
        self.id.as_str()
    }

    /// Where the room is saved.
    pub fn path(&self) -> (r: &str)
        ensures
            r@ == self@.path,
    {
        self.path.as_str()
    }

    /// Clone of the full replicated state (for `Welcome` / `Snapshot`).
    pub fn snapshot(&self) -> (r: StrokeSet)
        requires
            self.wf(),
        ensures
            r.wf(),
            r@ == self@.state,
    {
        self.state.clone()
    }

    /// Apply replicated ops; returns how many changed visible state.
    pub fn apply_ops(&mut self, ops: &Vec<StrokeOp>) -> (r: usize)
        requires
            old(self).wf(),
        ensures
            final(self).wf(),
            final(self)@ == old(self)@.with_ops(op_views(ops@)),
            final(self)@.state == old(self)@.state.apply_all(op_views(ops@)),
            final(self)@.state != old(self)@.state ==> final(self)@.dirty,
            r == old(self)@.state.count_changes(op_views(ops@)),
    {
        proof {
            law_news_changes_the_set(self@.state, op_views(ops@));
        }
        let (news, changed) = self.state.apply_all_tracked(clone_ops(ops));
        if news {
            self.dirty = true;
        }
        changed
    }

    pub fn stroke_count(&self) -> (r: usize)
        requires
            self.wf(),
        ensures
            self@.state.order.dom().finite(),
            r == self@.state.order.dom().len(),
    {
        self.state.len()
    }

    pub fn peer_count(&self) -> (r: usize)
        requires
            self.wf(),
        ensures
            self@.peers.dom().finite(),
            r == self@.peers.dom().len(),
    {
        let n = self.peers.len();
        assert(self@.peers.dom() =~= self.peers@.dom());
        n
    }

    /// Everyone in the room except `me`, with their last known cursor.
    pub fn peers_except(&self, me: ClientId) -> (r: Vec<CursorState>)
        requires
            self.wf(),
        ensures
            cursor_views(r@) == without(self@.present(), me),
    {
        let ghost all = self@.present();
        let n = self.peers.len();
        proof {
            lemma_viewed_pairs(self.peers.pairs());
        }
        let mut out: Vec<CursorState> = Vec::new();
        let mut i: usize = 0;
        assert(cursor_views(out@) =~= Seq::empty());
        while i < n
            invariant
                i <= n == self.peers.pairs().len() == all.len(),
                self.wf(),
                viewed_pairs(self.peers.pairs()).map_values(|p: (ClientId, CursorView)| p.1)
                    == all,
                cursor_views(out@) == without(all.take(i as int), me),
            decreases n - i,
        {
            let c = self.peers.value_at(i);
            let ghost done = out@;
            proof {
                assert(all.take(i + 1).drop_last() =~= all.take(i as int));
                assert(all[i as int] == c@);
            }
            if c.client_id != me {
                let copy = c.clone();
                out.push(copy);
                assert(cursor_views(out@) =~= cursor_views(done).push(copy@));
            }
            i += 1;
        }
        assert(all.take(i as int) =~= all);
        out
    }

    /// Register a peer. Fails when the room is at capacity.
    pub fn join(&mut self, cursor: CursorState) -> (r: Result<(), Rejection>)
        requires
            old(self).wf(),
        ensures
            final(self).wf(),
            match r {
                Ok(_) => old(self)@.admits(cursor.client_id) && final(self)@
                    == old(self)@.with_peer(cursor@),
                Err(why) => why == Rejection::RoomFull && !old(self)@.admits(cursor.client_id)
                    && final(self)@ == old(self)@,
            },
    {
        let ghost before = self@;
        let id = cursor.client_id;
        assert(before.peers.dom() =~= self.peers@.dom());
        if self.peers.len() >= self.max_peers && !self.peers.contains_key(id) {
            return Err(Rejection::RoomFull);
        }
        self.peers.insert(id, cursor);
        proof {
            assert(self@.peers =~= before.peers.insert(id, cursor@));
            assert(self@.peers.dom() =~= before.peers.dom().insert(id));
            assert(self@.orderly());
        }
        Ok(())
    }

    pub fn leave(&mut self, id: ClientId) -> (r: bool)
        requires
            old(self).wf(),
        ensures
            final(self).wf(),
            final(self)@ == old(self)@.without_peer(id),
            r == old(self)@.peers.contains_key(id),
    {
        let ghost before = self@;
        let r = self.peers.remove(id).is_some();
        proof {
            assert(self@.peers =~= before.peers.remove(id));
            assert(self@.peers.dom() =~= before.peers.dom().remove(id));
            assert(self@.orderly());
        }
        r
    }

    /// Remember the latest cursor so late joiners see it immediately.
    pub fn update_cursor(&mut self, cursor: CursorState)
        requires
            old(self).wf(),
        ensures
            final(self).wf(),
            final(self)@ == (if old(self)@.peers.contains_key(cursor.client_id) {
                old(self)@.with_peer(cursor@)
            } else {
                old(self)@
            }),
    {
        let ghost before = self@;
        let id = cursor.client_id;
        if self.peers.contains_key(id) {
            self.peers.insert(id, cursor);
            proof {
                assert(self@.peers =~= before.peers.insert(id, cursor@));
                assert(self@.peers.dom() =~= before.peers.dom());
                assert(self@.orderly());
            }
        }
    }

    /// Encode once, for every subscriber except `exclude`.
    pub fn broadcast(&self, exclude: Option<ClientId>, msg: &ServerMessage) -> (r: Option<Outbound>)
        requires
            msg.wf(),
        ensures
            match r {
                Some(out) => out.exclude == exclude && out.frame.carries(msg@),
                None => false,
            },
    {
        match encode_frame(msg) {
            Ok(frame) => Some(Outbound { exclude, frame }),
            Err(_) => None,
        }
    }

    /// What to write to disk, if anything changed since the last save. The room
    /// then counts as saved until [`save_failed`](Self::save_failed) says
    /// otherwise.
    pub fn save_if_dirty(&mut self) -> (r: Option<Vec<u8>>)
        requires
            old(self).wf(),
        ensures
            final(self).wf(),
            final(self)@ == (RoomView { dirty: false, ..old(self)@ }),
            match r {
                Some(bytes) => old(self)@.dirty && bytes@ == <StrokeSet as Wire>::bytes(
                    old(self)@.state,
                ),
                None => !old(self)@.dirty,
            },
    {
        if !self.dirty {
            return None;
        }
        self.dirty = false;
        match encode(&self.state) {
            Ok(bytes) => Some(bytes),
            Err(_) => None,
        }
    }

    /// The write failed: try again on the next flush.
    pub fn save_failed(&mut self)
        requires
            old(self).wf(),
        ensures
            final(self).wf(),
            final(self)@ == (RoomView { dirty: true, ..old(self)@ }),
    {
        self.dirty = true;
    }
}

} // verus!
