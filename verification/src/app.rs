//! The whiteboard as one peer sees it: document, tools, history and presence.

use vstd::prelude::*;

use crate::board::{
    answered, heeds, inverses, is_topmost, lemma_inverses_stamped, AppView,
    Connection, ConnectionView, Drawing, Pointer, CURSOR_SEND_INTERVAL_MS,
};
use crate::crdt::{
    clone_ops, ids_by, lemma_op_views_push, op_views, LamportClock, OpView,
    SetView, StrokeOp, StrokeSet, Timestamp,
};
use crate::crdt_laws::{lemma_known_after, lemma_merge_known};
use crate::document::{law_history_is_bounded, DocView, Document, History, HistoryView};
use crate::geom::{is_gauge, simplify};
use crate::ids::{is_random_id, random_id};
use crate::net::{NetConfig, NetEvent};
use crate::ordmap::{
    lemma_pairs_map_at, lemma_pairs_map_dom, lemma_viewed_pairs, sorted_pairs, viewed,
    viewed_pairs, OrdMap,
};
use crate::palette::{palette, palette_colors};
use crate::panel::{by_name, lemma_placed, row_of, PeerRow, Status};
use crate::protocol::{
    cursor_views, ClientMessage, ClientView, ServerMessage, StrokeDelta,
};
use crate::text::{before, decimal, is_blank, precedes, same_text, to_decimal};
use crate::tool::{push_if, Command, Keys, Route, Tool};
use crate::types::{
    ClientId, CursorState, CursorView, KindView, Point, Rgba, Scalar, Stroke, StrokeId,
    StrokeKind, StrokeView,
};

verus! {

pub struct WeavedrawApp {
    // Identity & document
    me: ClientId,
    name: String,
    presence: Rgba,
    room: String,
    doc: Document,
    clock: LamportClock,
    // Editing
    tool: Tool,
    brush_color: Rgba,
    brush_width: Scalar,
    text_size: Scalar,
    drawing: Option<Drawing>,
    history: History,
    /// Ids tombstoned during the current eraser drag (undo groups them).
    erasing: Option<Vec<StrokeOp>>,
    space_held: bool,
    // Presence
    peers: OrdMap<ClientId, CursorState>,
    /// In-progress strokes from peers, keyed by stroke id.
    previews: OrdMap<StrokeId, Stroke>,
    last_cursor: Option<CursorState>,
    last_cursor_sent: u64,
    // Network
    conn: Connection,
    rtt: Option<u128>,
    outgoing: Vec<ClientMessage>,
}

/// The mathematical values of a list of messages.
pub open spec fn message_views(msgs: Seq<ClientMessage>) -> Seq<ClientView> {
    msgs.map_values(|m: ClientMessage| m@)
}

impl View for WeavedrawApp {
    type V = AppView;

    closed spec fn view(&self) -> AppView {
        AppView {
            me: self.me,
            name: self.name@,
            presence: self.presence,
            room: self.room@,
            doc: self.doc@,
            time: self.clock.time(),
            tool: self.tool,
            brush_color: self.brush_color,
            brush_width: self.brush_width,
            text_size: self.text_size,
            drawing: match self.drawing {
                Some(d) => Some(d@),
                None => None,
            },
            history: self.history@,
            erasing: match self.erasing {
                Some(ops) => Some(op_views(ops@)),
                None => None,
            },
            space_held: self.space_held,
            peers: viewed(self.peers@),
            previews: viewed(self.previews@),
            last_cursor: match self.last_cursor {
                Some(c) => Some(c@),
                None => None,
            },
            last_cursor_sent: self.last_cursor_sent,
            conn: self.conn@,
            rtt: self.rtt,
            outgoing: message_views(self.outgoing@),
        }
    }
}

impl WeavedrawApp {
    /// The parts are well formed, the clock is the peer's own, and the state is
    /// sane.
    pub closed spec fn wf(self) -> bool {
        &&& self.doc.wf()
        &&& self.peers.wf()
        &&& self.previews.wf()
        &&& self.clock.owner() == self.me
        &&& self@.sane()
    }

    /// Every board is sane: the clock knows everything in the document and
    /// everything erased, and the history is no longer than it may be.
    pub proof fn law_boards_are_sane(self)
        requires
            self.wf(),
        ensures
            self@.sane(),
    {
    }

    pub fn new(config: NetConfig, now: u64) -> (r: WeavedrawApp)
        ensures
            r.wf(),
            r@ == (AppView {
                me: config.client_id,
                name: config.name@,
                presence: config.color,
                room: config.room@,
                doc: DocView::empty(),
                time: 0,
                tool: Tool::Pen,
                brush_color: palette_colors()[6],
                brush_width: Scalar { bits: 0x4080_0000 },
                text_size: Scalar { bits: 0x41c0_0000 },
                drawing: None,
                history: HistoryView::empty(),
                erasing: None,
                space_held: false,
                peers: Map::empty(),
                previews: Map::empty(),
                last_cursor: None,
                last_cursor_sent: now,
                conn: ConnectionView::Connecting { attempt: 1 },
                rtt: None,
                outgoing: Seq::empty(),
            }),
    {
        let r = WeavedrawApp {
            me: config.client_id,
            name: config.name,
            presence: config.color,
            room: config.room,
            doc: Document::new(),
            clock: LamportClock::new(config.client_id),
            tool: Tool::Pen,
            brush_color: palette()[6],
            brush_width: Scalar::from_bits(0x4080_0000),
            text_size: Scalar::from_bits(0x41c0_0000),
            drawing: None,
            history: History::new(),
            erasing: None,
            space_held: false,
            peers: OrdMap::new(),
            previews: OrdMap::new(),
            last_cursor: None,
            last_cursor_sent: now,
            conn: Connection::Connecting { attempt: 1 },
            rtt: None,
            outgoing: Vec::new(),
        };
        assert(r@.peers =~= Map::empty());
        assert(r@.previews =~= Map::empty());
        assert(r@.outgoing =~= Seq::empty());
        r
    }

    fn send(&mut self, msg: ClientMessage)
        requires
            old(self).wf(),
        ensures
            final(self).wf(),
            final(self)@ == old(self)@.sending(msg@),
    {
        let ghost before = self@;
        self.outgoing.push(msg);
        assert(self@.outgoing =~= before.outgoing.push(msg@));
        assert(self@ =~= before.sending(msg@));
    }

    /// Apply local ops to the document, ship them, and record them for undo.
    pub fn commit(&mut self, ops: Vec<StrokeOp>, record: bool)
        requires
            old(self).wf(),
            forall|i: int|
                0 <= i < ops@.len() ==> (#[trigger] ops@[i])@.ts().counter <= old(self)@.time,
        ensures
            final(self).wf(),
            final(self)@ == old(self)@.committed(op_views(ops@), record),
    {
        let ghost before = self@;
        let ghost view = op_views(ops@);
        if ops.len() == 0 {
            assert(view.len() == 0);
            return;
        }
        assert(view.len() > 0);
        proof {
            assert forall|i: int| 0 <= i < view.len() implies (#[trigger] view[i]).ts().counter
                <= before.time by {
                assert(view[i] == ops@[i]@);
            }
            lemma_known_after(before.doc.set, view, before.time);
            law_history_is_bounded(before.history, view);
        }
        self.doc.apply_all(clone_ops(&ops));
        if record {
            self.history.record(clone_ops(&ops));
        }
        self.send(ClientMessage::Ops(ops));
        assert(self@ =~= before.committed(view, record));
    }

    /// The operations that take a group back.
    fn invert(&mut self, ops: &Vec<StrokeOp>) -> (r: Vec<StrokeOp>)
        requires
            old(self).wf(),
            old(self)@.time + ops@.len() <= u64::MAX,
        ensures
            final(self).wf(),
            op_views(r@) == inverses(
                old(self)@.doc.set,
                op_views(ops@),
                old(self)@.time as nat,
                old(self)@.me,
            ),
            final(self)@ == (AppView {
                time: (old(self)@.time + ops@.len()) as u64,
                ..old(self)@
            }),
    {
        // Reverse order so a group undoes cleanly; timestamps stay ascending.
        let ghost before = self@;
        let ghost all = op_views(ops@);
        let ghost want = inverses(before.doc.set, all, before.time as nat, before.me);
        let mut out: Vec<StrokeOp> = Vec::new();
        let mut i: usize = ops.len();
        proof {
            assert(all.take(all.len() as int) =~= all);
            assert(op_views(out@) + want =~= want);
        }
        while i > 0
            invariant
                i <= ops@.len(),
                all == op_views(ops@),
                self.wf(),
                before.time + ops@.len() <= u64::MAX,
                self@ == (AppView { time: (before.time + (ops@.len() - i)) as u64, ..before }),
                op_views(out@) + inverses(
                    before.doc.set,
                    all.take(i as int),
                    (before.time + (ops@.len() - i)) as nat,
                    before.me,
                ) == want,
            decreases i,
        {
            let ghost done = out@;
            let ghost part = all.take(i as int);
            i -= 1;
            let ts = self.clock.tick();
            let found = self.doc.strokes().inverse(&ops[i], ts);
            proof {
                assert(part.drop_last() =~= all.take(i as int));
                assert(part.last() == ops@[i as int]@);
            }
            if let Some(op) = found {
                out.push(op);
                proof {
                    lemma_op_views_push(done, op);
                    assert(op_views(out@) + inverses(
                        before.doc.set,
                        all.take(i as int),
                        (before.time + (ops@.len() - i)) as nat,
                        before.me,
                    ) =~= want);
                }
            }
        }
        assert(op_views(out@) =~= want);
        out
    }

    /// Take back the newest gesture.
    pub fn undo(&mut self)
        requires
            old(self).wf(),
            old(self)@.time + old(self)@.undo_ticks() <= u64::MAX,
        ensures
            final(self).wf(),
            final(self)@ == old(self)@.undone(),
    {
        let ghost before = self@;
        let group = match self.history.pop_undo() {
            Some(group) => group,
            None => return,
        };
        let inverse = self.invert(&group);
        proof {
            lemma_inverses_stamped(
                before.doc.set,
                op_views(group@),
                before.time as nat,
                before.me,
            );
            lemma_known_after(before.doc.set, op_views(inverse@), self@.time);
        }
        self.doc.apply_all(clone_ops(&inverse));
        self.send(ClientMessage::Ops(clone_ops(&inverse)));
        self.history.push_redo(inverse);
        assert(self@ =~= before.undone());
    }

    /// Bring back the gesture taken back last.
    pub fn redo(&mut self)
        requires
            old(self).wf(),
            old(self)@.time + old(self)@.redo_ticks() <= u64::MAX,
        ensures
            final(self).wf(),
            final(self)@ == old(self)@.redone(),
    {
        let ghost before = self@;
        let group = match self.history.pop_redo() {
            Some(group) => group,
            None => return,
        };
        let inverse = self.invert(&group);
        proof {
            lemma_inverses_stamped(
                before.doc.set,
                op_views(group@),
                before.time as nat,
                before.me,
            );
            lemma_known_after(before.doc.set, op_views(inverse@), self@.time);
        }
        self.doc.apply_all(clone_ops(&inverse));
        self.send(ClientMessage::Ops(clone_ops(&inverse)));
        self.history.push_undo(inverse);
        assert(self@ =~= before.redone());
    }

    /// Remove the peer's own strokes.
    pub fn clear_mine(&mut self)
        requires
            old(self).wf(),
            old(self)@.time + old(self)@.ticks(Command::Clear) <= u64::MAX,
        ensures
            final(self).wf(),
            final(self)@ == old(self)@.cleared(),
    {
        let ghost before = self@;
        let me = self.me;
        let ops = self.doc.strokes().clear_ops_for(me, &mut self.clock);
        proof {
            let ids = ids_by(before.doc.set.visible(), me);
            assert(op_views(ops@).len() == ids.len());
            assert forall|i: int| 0 <= i < ops@.len() implies (#[trigger] ops@[i])@.ts().counter
                <= self@.time by {
                assert(op_views(ops@)[i] == ops@[i]@);
            }
            assert(self@ =~= AppView { time: (before.time + ids.len()) as u64, ..before });
        }
        self.commit(ops, true);
    }
}

impl WeavedrawApp {
    /// Act on what the network thread reports.
    pub fn handle_net(&mut self, event: NetEvent)
        requires
            old(self).wf(),
            event matches NetEvent::Message(msg) ==> msg.wf(),
        ensures
            final(self).wf(),
            match event {
                NetEvent::Connecting { attempt } => final(self)@ == (AppView {
                    conn: ConnectionView::Connecting { attempt },
                    ..old(self)@
                }),
                NetEvent::Connected => final(self)@ == (AppView {
                    conn: ConnectionView::Handshaking,
                    ..old(self)@
                }),
                NetEvent::Rtt(d) => final(self)@ == (AppView { rtt: Some(d), ..old(self)@ }),
                NetEvent::Disconnected { reason } => final(self)@ == (AppView {
                    conn: ConnectionView::Offline { reason: reason@ },
                    rtt: None,
                    peers: Map::empty(),
                    previews: Map::empty(),
                    ..old(self)@
                }),
                NetEvent::Message(msg) => heeds(old(self)@, msg@, final(self)@),
            },
    {
        match event {
            NetEvent::Connecting { attempt } => {
                self.conn = Connection::Connecting { attempt };
            },
            NetEvent::Connected => {
                self.conn = Connection::Handshaking;
            },
            NetEvent::Rtt(d) => {
                self.rtt = Some(d);
            },
            NetEvent::Disconnected { reason } => {
                self.conn = Connection::Offline { reason };
                self.rtt = None;
                self.peers.clear();
                self.previews.clear();
                assert(self@.peers =~= Map::empty());
                assert(self@.previews =~= Map::empty());
            },
            NetEvent::Message(msg) => self.handle_server(msg),
        }
    }

    /// Act on a message of the server.
    pub fn handle_server(&mut self, msg: ServerMessage)
        requires
            old(self).wf(),
            msg.wf(),
        ensures
            final(self).wf(),
            heeds(old(self)@, msg@, final(self)@),
    {
        match msg {
            ServerMessage::Welcome { snapshot, peers, .. } => self.welcome(snapshot, peers),
            ServerMessage::Snapshot(set) => self.merge_snapshot(set),
            ServerMessage::Ops { ops, .. } => self.hear_ops(ops),
            ServerMessage::Cursor(c) => self.hear_cursor(c),
            ServerMessage::StrokeDelta(d) => self.apply_delta(d),
            ServerMessage::PeerJoined(c) => self.hear_cursor(c),
            ServerMessage::PeerLeft(id) => self.hear_left(id),
            ServerMessage::Rejected(why) => {
                let mut reason = "rejected: ".to_owned();
                reason.append(why.describe().as_str());
                self.conn = Connection::Offline { reason };
            },
            ServerMessage::Pong(_) => {},
        }
    }

    fn welcome(&mut self, snapshot: StrokeSet, peers: Vec<CursorState>)
        requires
            old(self).wf(),
            snapshot.wf(),
        ensures
            final(self).wf(),
            exists|time: u64| #[trigger]
                old(self)@.time_after(snapshot@, time) && final(self)@ == (AppView {
                    conn: ConnectionView::Online,
                    peers: AppView::listed(cursor_views(peers@)),
                    previews: Map::empty(),
                    last_cursor: None,
                    ..old(self)@.merged(snapshot@, time)
                }),
    {
        let ghost before = self@;
        let ghost set = snapshot@;
        let ghost online = AppView { conn: ConnectionView::Online, ..before };
        self.conn = Connection::Online;
        assert(self@ =~= online);
        self.merge_snapshot(snapshot);
        let ghost time = choose|time: u64| #[trigger]
            online.time_after(set, time) && self@ == online.merged(set, time);
        assert(before.time_after(set, time));
        self.peers.clear();
        let ghost all = cursor_views(peers@);
        let n: usize = peers.len();
        assert(viewed(self.peers@) =~= AppView::listed(all.take(0)));
        let ghost merged = self@;
        for c in it: peers
            invariant
                it.seq() == peers@,
                it.index() <= peers@.len(),
                all == cursor_views(peers@),
                self.wf(),
                viewed(self.peers@) == AppView::listed(all.take(it.index() as int)),
                self@ == (AppView { peers: AppView::listed(all.take(it.index() as int)), ..merged }),
        {
            let ghost k = it.index() as int;
            let ghost had = self@;
            let ghost c_view = c@;
            proof {
                assert(all.take(k + 1).drop_last() =~= all.take(k));
                assert(all.take(k + 1).last() == c@);
            }
            let id = c.client_id;
            self.peers.insert(id, c);
            assert(viewed(self.peers@) =~= had.peers.insert(id, c_view));
            assert(self@ =~= AppView { peers: AppView::listed(all.take(k + 1)), ..merged });
        }
        assert(all.take(n as int) =~= all);
        self.previews.clear();
        assert(self@.previews =~= Map::empty());
        // Force the next frame to (re)announce where we are.
        self.last_cursor = None;
        proof {
            assert(self@ =~= AppView {
                conn: ConnectionView::Online,
                peers: AppView::listed(all),
                previews: Map::empty(),
                last_cursor: None,
                ..before.merged(set, time)
            });
        }
    }

    /// Merge a full copy of the room's state, and let the clock catch up with
    /// it.
    pub fn merge_snapshot(&mut self, set: StrokeSet)
        requires
            old(self).wf(),
            set.wf(),
        ensures
            final(self).wf(),
            exists|time: u64| #[trigger]
                old(self)@.time_after(set@, time) && final(self)@ == old(self)@.merged(set@, time),
    {
        let ghost before = self@;
        let latest = set.latest_timestamp();
        if let Some(ts) = latest {
            self.clock.observe(ts);
        }
        let ghost time = self.clock.time();
        proof {
            assert(set@.known_by(time)) by {
                assert forall|t: Timestamp| #[trigger] set@.mentions(t) implies t.counter
                    <= time by {
                    if latest is Some {
                        assert(!t.after(latest->0));
                    }
                }
            }
            if time != before.time {
                assert(set@.mentions(latest->0) && latest->0.counter == time);
            }
            assert(before.time_after(set@, time));
            assert(before.doc.set.known_by(time));
            set.lemma_finite();
            lemma_merge_known(before.doc.set, set@, time);
        }
        let ghost set_view = set@;
        let _changed: usize = self.doc.merge(set);
        assert(self@ =~= before.merged(set_view, time));
    }

    fn hear_ops(&mut self, ops: Vec<StrokeOp>)
        requires
            old(self).wf(),
        ensures
            final(self).wf(),
            final(self)@ == old(self)@.heard_ops(op_views(ops@)),
    {
        let ghost before = self@;
        let ghost all = op_views(ops@);
        let n: usize = ops.len();
        assert(all.take(0) =~= Seq::empty());
        for op in it: ops
            invariant
                it.seq() == ops@,
                it.index() <= ops@.len(),
                all == op_views(ops@),
                self.wf(),
                self@ == before.heard_ops(all.take(it.index() as int)),
        {
            let ghost k = it.index() as int;
            proof {
                assert(all.take(k + 1).drop_last() =~= all.take(k));
                assert(all.take(k + 1).last() == op@);
            }
            self.hear_op(op);
        }
        assert(all.take(n as int) =~= all);
    }

    fn hear_op(&mut self, op: StrokeOp)
        requires
            old(self).wf(),
        ensures
            final(self).wf(),
            final(self)@ == old(self)@.heard_op(op@),
    {
        let ghost before = self@;
        let ghost view = op@;
        self.clock.observe(op.timestamp());
        let id = op.id();
        if let StrokeOp::Add { .. } = &op {
            self.previews.remove(id);
            assert(self@.previews =~= before.previews.remove(id));
        }
        proof {
            let one = seq![view];
            assert(before.doc.set.known_by(self.clock.time()));
            lemma_known_after(before.doc.set, one, self.clock.time());
            assert(one.drop_last() =~= Seq::empty());
            reveal_with_fuel(SetView::apply_all, 2);
            assert(before.doc.set.apply_all(one) == before.doc.set.apply(view));
        }
        let _changed: bool = self.doc.apply(op);
        assert(self@ =~= before.heard_op(view));
    }

    fn hear_cursor(&mut self, c: CursorState)
        requires
            old(self).wf(),
        ensures
            final(self).wf(),
            final(self)@ == old(self)@.heard_cursor(c@),
    {
        let ghost before = self@;
        let ghost view = c@;
        if c.client_id != self.me {
            let id = c.client_id;
            self.peers.insert(id, c);
            assert(self@.peers =~= before.peers.insert(id, view));
        }
        assert(self@ =~= before.heard_cursor(view));
    }

    fn hear_left(&mut self, id: ClientId)
        requires
            old(self).wf(),
        ensures
            final(self).wf(),
            final(self)@ == old(self)@.heard_left(id),
    {
        let ghost before = self@;
        let ghost held = self.previews@;
        self.peers.remove(id);
        assert(self@.peers =~= before.peers.remove(id));
        let mut kept: OrdMap<StrokeId, ()> = OrdMap::new();
        let n = self.previews.len();
        let ghost pairs = self.previews.pairs();
        let mut i: usize = 0;
        while i < n
            invariant
                i <= n == pairs.len(),
                self.previews.wf(),
                pairs == self.previews.pairs(),
                held == self.previews@,
                kept.wf(),
                forall|k: StrokeId| #[trigger]
                    kept@.contains_key(k) <==> exists|j: int|
                        0 <= j < i && (#[trigger] pairs[j]).0 == k && pairs[j].1.client_id != id,
            decreases n - i,
        {
            let key = self.previews.key_at(i);
            let ghost had = kept@;
            if self.previews.value_at(i).client_id != id {
                kept.insert(key, ());
            }
            proof {
                assert forall|k: StrokeId| #[trigger]
                    kept@.contains_key(k) <==> exists|j: int|
                        0 <= j < i + 1 && (#[trigger] pairs[j]).0 == k && pairs[j].1.client_id
                            != id by {
                    if kept@.contains_key(k) {
                        if had.contains_key(k) {
                            let j = choose|j: int|
                                0 <= j < i && (#[trigger] pairs[j]).0 == k && pairs[j].1.client_id
                                    != id;
                            assert(pairs[j].0 == k);
                        } else {
                            assert(pairs[i as int].0 == k);
                        }
                    }
                    if exists|j: int|
                        0 <= j < i + 1 && (#[trigger] pairs[j]).0 == k && pairs[j].1.client_id
                            != id {
                        let j = choose|j: int|
                            0 <= j < i + 1 && (#[trigger] pairs[j]).0 == k && pairs[j].1.client_id
                                != id;
                        if j < i {
                            assert(had.contains_key(k));
                        }
                    }
                }
            }
            i += 1;
        }
        self.previews.retain_keys(&kept);
        proof {
            let want = before.heard_left(id).previews;
            assert forall|k: StrokeId| #[trigger] held.contains_key(k) implies (kept@.contains_key(k)
                <==> held[k].client_id != id) by {
                lemma_pairs_map_dom(pairs, k);
                let j = choose|j: int| 0 <= j < pairs.len() && (#[trigger] pairs[j]).0 == k;
                lemma_pairs_map_at(pairs, j);
                if kept@.contains_key(k) {
                    let m = choose|m: int|
                        0 <= m < n && (#[trigger] pairs[m]).0 == k && pairs[m].1.client_id != id;
                    lemma_pairs_map_at(pairs, m);
                }
            }
            assert(self@.previews =~= want);
            assert(self@ =~= before.heard_left(id));
        }
    }

    /// Show a chunk of another peer's stroke, unless the stroke is already on
    /// the board.
    pub fn apply_delta(&mut self, d: StrokeDelta)
        requires
            old(self).wf(),
        ensures
            final(self).wf(),
            final(self)@ == old(self)@.heard_delta(d@),
    {
        let ghost before = self@;
        let ghost view = d@;
        if d.client_id == self.me || self.doc.strokes().contains(d.stroke_id) {
            return;
        }
        let id = d.stroke_id;
        let mut preview = match self.previews.remove(id) {
            Some(preview) => preview,
            None => d.start_preview(),
        };
        d.apply_to(&mut preview);
        let ghost shown = preview@;
        self.previews.insert(id, preview);
        assert(self@.previews =~= before.previews.insert(id, shown));
        assert(self@ =~= before.heard_delta(view));
    }

    /// Drop any half-finished gesture (e.g. the tool changed mid-drag).
    pub fn cancel_gesture(&mut self)
        requires
            old(self).wf(),
        ensures
            final(self).wf(),
            final(self)@ == old(self)@.gesture_dropped(),
    {
        let ghost before = self@;
        self.drawing = None;
        self.finish_erase();
        assert(self@ =~= before.gesture_dropped());
    }

    /// The eraser drag is over: it can be undone as one.
    pub fn finish_erase(&mut self)
        requires
            old(self).wf(),
        ensures
            final(self).wf(),
            final(self)@ == old(self)@.erase_ended(),
    {
        let ghost before = self@;
        let mut group: Option<Vec<StrokeOp>> = None;
        std::mem::swap(&mut group, &mut self.erasing);
        if let Some(ops) = group {
            if ops.len() > 0 {
                proof {
                    law_history_is_bounded(before.history, op_views(ops@));
                }
                self.history.record(ops);
            }
        }
        assert(self@ =~= before.erase_ended());
    }

    /// One frame of drawing with the pen or a shape tool, where a stroke that
    /// begins gets the given id. `far(last, at)` tells whether the pointer went
    /// far enough for a new sample; samples closer than `epsilon` to the line
    /// between their neighbours, as measured by `distance`, are shed when the
    /// stroke is committed.
    pub fn draw<F: Fn(Point, Point) -> bool, D: Fn(Point, Point, Point) -> Scalar>(
        &mut self,
        id: StrokeId,
        input: Pointer,
        far: &F,
        epsilon: Scalar,
        distance: D,
    )
        requires
            old(self).wf(),
            forall|a: Point, b: Point| #[trigger] call_requires(*far, (a, b)),
            is_gauge(distance),
            old(self)@.finishes(input) ==> old(self)@.time < u64::MAX,
        ensures
            final(self).wf(),
            old(self)@.draws(id, input, *far, epsilon, distance, final(self)@),
    {
        let ghost before = self@;
        self.begin_stroke(id, input);
        let answer = self.follow(input, far);
        self.stream();
        let mut trail: Ghost<Seq<Point>> = Ghost(Seq::empty());
        if input.stopped {
            trail = self.complete(epsilon, distance);
        }
        assert(self@ == before.drawn(id, input, answer@, trail@));
    }

    /// One frame of drawing with the pen or a shape tool: see
    /// [`draw`](Self::draw). A stroke that begins gets a fresh id.
    pub fn pen_input<F: Fn(Point, Point) -> bool, D: Fn(Point, Point, Point) -> Scalar>(
        &mut self,
        input: Pointer,
        far: &F,
        epsilon: Scalar,
        distance: D,
    )
        requires
            old(self).wf(),
            forall|a: Point, b: Point| #[trigger] call_requires(*far, (a, b)),
            is_gauge(distance),
            old(self)@.finishes(input) ==> old(self)@.time < u64::MAX,
        ensures
            final(self).wf(),
            exists|id: StrokeId|
                is_random_id(id) && #[trigger] old(self)@.draws(
                    id,
                    input,
                    *far,
                    epsilon,
                    distance,
                    final(self)@,
                ),
    {
        let id = random_id();
        self.draw(id, input, far, epsilon, distance);
    }

    fn begin_stroke(&mut self, id: StrokeId, input: Pointer)
        requires
            old(self).wf(),
        ensures
            final(self).wf(),
            final(self)@ == old(self)@.begun(id, input),
    {
        let ghost before = self@;
        if input.started {
            if let Some(at) = input.at {
                let mut points: Vec<Point> = Vec::new();
                points.push(at);
                let stroke = Stroke::with_id(id, self.me, self.brush_color, self.brush_width);
                let stroke = stroke.with_kind(self.tool.kind()).with_points(points);
                assert(stroke@.points =~= seq![at]);
                self.drawing = Some(Drawing { stroke, sent: 0 });
            }
        }
        assert(self@ =~= before.begun(id, input));
    }

    fn follow<F: Fn(Point, Point) -> bool>(&mut self, input: Pointer, far: &F) -> (r: Ghost<bool>)
        requires
            old(self).wf(),
            forall|a: Point, b: Point| #[trigger] call_requires(*far, (a, b)),
        ensures
            final(self).wf(),
            final(self)@ == old(self)@.followed(input, r@),
            old(self)@.asks(input, *far, r@),
    {
        let ghost before = self@;
        let mut answer: Ghost<bool> = Ghost(true);
        let mut drawing: Option<Drawing> = None;
        std::mem::swap(&mut drawing, &mut self.drawing);
        if input.dragging {
            if let Some(at) = input.at {
                if let Some(mut d) = drawing {
                    let ghost was = d@;
                    let n = d.stroke.points.len();
                    if d.stroke.kind.is_freehand() {
                        let grow = if n == 0 {
                            true
                        } else {
                            let last = d.stroke.points[n - 1];
                            let far_enough = far(last, at);
                            answer = Ghost(far_enough);
                            far_enough
                        };
                        if grow {
                            d.stroke.points.push(at);
                        }
                    } else if n == 0 {
                        d.stroke.points.push(at);
                        d.sent = 0;
                        assert(d.stroke.points@ =~= seq![at]);
                    } else {
                        let resting = n == 2 && d.stroke.points[1].x.bits == at.x.bits
                            && d.stroke.points[1].y.bits == at.y.bits;
                        if !resting {
                            let first = d.stroke.points[0];
                            let mut points: Vec<Point> = Vec::new();
                            points.push(first);
                            points.push(at);
                            assert(points@ =~= seq![first, at]);
                            d.stroke.points = points;
                            d.sent = 0;
                        }
                    }
                    assert(d@ =~= was.extended(at, answer@));
                    drawing = Some(d);
                }
            }
        }
        self.drawing = drawing;
        assert(self@ =~= before.followed(input, answer@));
        answer
    }

    fn stream(&mut self)
        requires
            old(self).wf(),
        ensures
            final(self).wf(),
            final(self)@ == old(self)@.streamed(),
    {
        let ghost before = self@;
        let mut drawing: Option<Drawing> = None;
        std::mem::swap(&mut drawing, &mut self.drawing);
        if let Some(mut d) = drawing {
            let n = d.stroke.points.len();
            if d.sent < n {
                let ghost was = d@;
                let start: usize = if d.stroke.kind.is_freehand() {
                    d.sent
                } else {
                    0
                };
                let part = vstd::slice::slice_subrange(d.stroke.points.as_slice(), start, n);
                let points = vstd::slice::slice_to_vec(part);
                let delta = StrokeDelta {
                    stroke_id: d.stroke.id,
                    client_id: d.stroke.client_id,
                    color: d.stroke.color,
                    width: d.stroke.width,
                    kind: d.stroke.kind.clone(),
                    points,
                };
                assert(delta@ =~= was.delta());
                d.sent = n;
                assert(d@ =~= was.streamed());
                self.drawing = Some(d);
                self.send(ClientMessage::StrokeDelta(delta));
            } else {
                self.drawing = Some(d);
            }
        }
        assert(self@ =~= before.streamed());
    }

    fn complete<D: Fn(Point, Point, Point) -> Scalar>(
        &mut self,
        epsilon: Scalar,
        distance: D,
    ) -> (r: Ghost<Seq<Point>>)
        requires
            old(self).wf(),
            is_gauge(distance),
            old(self)@.drawing is Some ==> old(self)@.time < u64::MAX,
        ensures
            final(self).wf(),
            final(self)@ == old(self)@.completed(r@),
            old(self)@.leaves(epsilon, distance, r@),
    {
        let ghost before = self@;
        let mut trail: Ghost<Seq<Point>> = Ghost(Seq::empty());
        let mut drawing: Option<Drawing> = None;
        std::mem::swap(&mut drawing, &mut self.drawing);
        if let Some(d) = drawing {
            let mut stroke = d.stroke;
            if stroke.kind.is_freehand() {
                // Shed redundant samples before the stroke is replicated.
                stroke.points = simplify(&stroke.points, epsilon, distance);
                trail = Ghost(stroke.points@);
            }
            self.commit_stroke(stroke);
        }
        assert(self@ =~= before.completed(trail@));
        trail
    }

    fn commit_stroke(&mut self, stroke: Stroke)
        requires
            old(self).wf(),
            old(self)@.time < u64::MAX,
        ensures
            final(self).wf(),
            final(self)@ == (AppView {
                time: (old(self)@.time + 1) as u64,
                ..old(self)@
            }).committed(
                seq![OpView::Add { stroke: stroke@, ts: old(self)@.next_stamp() }],
                true,
            ),
    {
        let ghost before = self@;
        let ts = self.clock.tick();
        let mut ops: Vec<StrokeOp> = Vec::new();
        ops.push(StrokeOp::Add { stroke, ts });
        proof {
            assert(self@ =~= AppView { time: (before.time + 1) as u64, ..before });
            assert(op_views(ops@) =~= seq![
                OpView::Add { stroke: stroke@, ts: before.next_stamp() },
            ]);
        }
        self.commit(ops, true);
    }

    /// Place a label under the given id. One that was being typed is dropped.
    pub fn place_label(&mut self, id: StrokeId, at: Point)
        requires
            old(self).wf(),
        ensures
            final(self).wf(),
            final(self)@ == old(self)@.label_placed(id, at),
    {
        let ghost before = self@;
        let mut points: Vec<Point> = Vec::new();
        points.push(at);
        let kind = StrokeKind::Text { content: String::new(), size: self.text_size };
        assert(kind@ == (KindView::Text { content: Seq::empty(), size: before.text_size })) by {
            assert(kind@->content =~= Seq::empty());
        }
        let stroke = Stroke::with_id(id, self.me, self.brush_color, self.brush_width);
        let stroke = stroke.with_kind(kind).with_points(points);
        assert(stroke@.points =~= seq![at]);
        self.drawing = Some(Drawing { stroke, sent: 0 });
        assert(self@ =~= before.label_placed(id, at));
    }

    /// Place a label where the canvas was clicked. One that was being typed is
    /// committed first.
    pub fn text_click(&mut self, at: Point)
        requires
            old(self).wf(),
            !old(self)@.label_blank() ==> old(self)@.time < u64::MAX,
        ensures
            final(self).wf(),
            exists|id: StrokeId|
                is_random_id(id) && final(self)@ == #[trigger] old(self)@.label_committed(
                    old(self)@.label_blank(),
                ).label_placed(id, at),
    {
        let ghost before = self@;
        let unusable = self.label_is_blank();
        self.settle_label(unusable);
        let id = random_id();
        self.place_label(id, at);
        assert(self@ == before.label_committed(unusable).label_placed(id, at));
    }

    /// Change the text of the label being typed.
    pub fn edit_label(&mut self, text: &str)
        requires
            old(self).wf(),
        ensures
            final(self).wf(),
            final(self)@ == old(self)@.label_edited(text@),
    {
        let ghost before = self@;
        let mut drawing: Option<Drawing> = None;
        std::mem::swap(&mut drawing, &mut self.drawing);
        let mut changed = false;
        if let Some(d) = drawing {
            let mut d = d;
            if let StrokeKind::Text { content, size } = &d.stroke.kind {
                if !same_text(content.as_str(), text) {
                    let kind = StrokeKind::Text { content: text.to_owned(), size: *size };
                    d.stroke.kind = kind;
                    d.sent = 0;
                    changed = true;
                }
            }
            self.drawing = Some(d);
        }
        if changed {
            self.stream();
        }
        assert(self@ =~= before.label_edited(text@));
    }

    /// Whether the label being typed is nothing but white space.
    fn label_is_blank(&self) -> (r: bool)
        ensures
            r == self@.label_blank(),
    {
        match &self.drawing {
            Some(d) => match &d.stroke.kind {
                StrokeKind::Text { content, .. } => is_blank(content.as_str()),
                _ => true,
            },
            None => true,
        }
    }

    /// Commit the label being typed, or drop it where it is unusable.
    pub fn settle_label(&mut self, unusable: bool)
        requires
            old(self).wf(),
            old(self)@.typing() && !unusable ==> old(self)@.time < u64::MAX,
        ensures
            final(self).wf(),
            final(self)@ == old(self)@.label_committed(unusable),
    {
        let ghost before = self@;
        let mut drawing: Option<Drawing> = None;
        std::mem::swap(&mut drawing, &mut self.drawing);
        if let Some(d) = drawing {
            let typed = match &d.stroke.kind {
                StrokeKind::Text { .. } => true,
                _ => false,
            };
            if !typed {
                self.drawing = Some(d);
            } else if !unusable {
                self.commit_stroke(d.stroke);
            }
        }
        assert(self@ =~= before.label_committed(unusable));
    }

    /// Commit the label being typed, unless it is nothing but white space.
    pub fn commit_label(&mut self)
        requires
            old(self).wf(),
            !old(self)@.label_blank() ==> old(self)@.time < u64::MAX,
        ensures
            final(self).wf(),
            final(self)@ == old(self)@.label_committed(old(self)@.label_blank()),
    {
        let unusable = self.label_is_blank();
        self.settle_label(unusable);
    }

    /// One frame of erasing, where the pointer is on the stroke `hit`.
    pub fn rub(&mut self, input: Pointer, hit: Option<StrokeId>)
        requires
            old(self).wf(),
            input.rubs() && hit is Some ==> old(self)@.time < u64::MAX,
        ensures
            final(self).wf(),
            final(self)@ == old(self)@.rubbed(input, hit),
    {
        let ghost before = self@;
        let pressed = input.started || input.clicked;
        if pressed && self.erasing.is_none() {
            let none: Vec<StrokeOp> = Vec::new();
            assert(op_views(none@) =~= Seq::empty());
            self.erasing = Some(none);
        }
        let ghost a = self@;
        assert(a =~= (if pressed {
            before.erase_begun()
        } else {
            before
        }));
        if (input.dragging || pressed) && input.at.is_some() {
            self.erase(hit);
        }
        if input.stopped || (pressed && !input.moving) {
            self.finish_erase();
        }
    }

    fn erase(&mut self, hit: Option<StrokeId>)
        requires
            old(self).wf(),
            hit is Some ==> old(self)@.time < u64::MAX,
        ensures
            final(self).wf(),
            final(self)@ == old(self)@.erased(hit),
    {
        let ghost before = self@;
        if let Some(id) = hit {
            let ts = self.clock.tick();
            let op = StrokeOp::Remove { id, ts };
            proof {
                let one = seq![op@];
                assert(before.doc.set.known_by(self.clock.time()));
                lemma_known_after(before.doc.set, one, self.clock.time());
                assert(one.drop_last() =~= Seq::empty());
                reveal_with_fuel(SetView::apply_all, 2);
                assert(before.doc.set.apply_all(one) == before.doc.set.apply(op@));
            }
            let _changed: bool = self.doc.apply(op.clone());
            let mut ops: Vec<StrokeOp> = Vec::new();
            ops.push(op.clone());
            let mut group: Option<Vec<StrokeOp>> = None;
            std::mem::swap(&mut group, &mut self.erasing);
            if let Some(mut erased) = group {
                let ghost so_far = erased@;
                let copy = op.clone();
                erased.push(copy);
                proof {
                    lemma_op_views_push(so_far, copy);
                }
                self.erasing = Some(erased);
            }
            assert(op_views(ops@) =~= seq![op@]);
            self.send(ClientMessage::Ops(ops));
        }
        assert(self@ =~= before.erased(hit));
    }

    /// One frame of erasing: the topmost visible stroke that `hits` accepts goes.
    pub fn eraser_input<H: Fn(&Stroke) -> bool>(&mut self, input: Pointer, hits: &H)
        requires
            old(self).wf(),
            input.rubs() && old(self)@.doc.set.visible().len() > 0 ==> old(self)@.time < u64::MAX,
            forall|s: &Stroke| #[trigger] call_requires(*hits, (s,)),
        ensures
            final(self).wf(),
            exists|hit: Option<StrokeId>|
                final(self)@ == #[trigger] old(self)@.rubbed(input, hit) && is_topmost(
                    old(self)@.doc.set.visible().map_values(|p: (Timestamp, StrokeView)| p.1),
                    *hits,
                    hit,
                ),
    {
        let ghost before = self@;
        let hit = topmost(self.doc.strokes(), hits);
        self.rub(input, hit);
        assert(self@ == before.rubbed(input, hit));
    }

    /// Announce pointer position/drawing state to peers, rate-limited; `now` is
    /// in milliseconds.
    pub fn send_cursor(&mut self, position: Option<Point>, now: u64)
        requires
            old(self).wf(),
        ensures
            final(self).wf(),
            final(self)@ == old(self)@.announced(position, now),
    {
        let ghost before = self@;
        match &self.conn {
            Connection::Online => {},
            _ => return,
        }
        let state = CursorState {
            client_id: self.me,
            name: self.name.clone(),
            color: self.presence,
            position,
            drawing: self.drawing.is_some(),
        };
        assert(state@ == before.own_cursor(position));
        let (changed, was_on_canvas) = match &self.last_cursor {
            Some(c) => (!c.matches(&state), c.position.is_some()),
            None => (true, false),
        };
        let due = now >= self.last_cursor_sent && now - self.last_cursor_sent
            >= CURSOR_SEND_INTERVAL_MS;
        // Leaving the canvas is sent immediately so our cursor doesn't linger.
        let urgent = position.is_none() && was_on_canvas;
        if changed && (due || urgent) {
            self.send(ClientMessage::Cursor(state.clone()));
            self.last_cursor = Some(state);
            self.last_cursor_sent = now;
        }
        assert(self@ =~= before.announced(position, now));
    }
}

/// The topmost visible stroke that the test accepts.
pub fn topmost<H: Fn(&Stroke) -> bool>(set: &StrokeSet, hits: &H) -> (r: Option<StrokeId>)
    requires
        set.wf(),
        forall|s: &Stroke| #[trigger] call_requires(*hits, (s,)),
    ensures
        is_topmost(
            set@.visible().map_values(|p: (Timestamp, StrokeView)| p.1),
            *hits,
            r,
        ),
{
    let visible = set.visible_with_ts();
    let ghost all = set@.visible().map_values(|p: (Timestamp, StrokeView)| p.1);
    let mut i: usize = visible.len();
    while i > 0
        invariant
            i <= visible@.len() == all.len(),
            forall|k: int| 0 <= k < all.len() ==> #[trigger] all[k] == visible@[k].1@,
            forall|s: &Stroke| #[trigger] call_requires(*hits, (s,)),
            forall|j: int| i <= j < all.len() ==> answered(*hits, #[trigger] all[j], false),
            all == set@.visible().map_values(|p: (Timestamp, StrokeView)| p.1),
        decreases i,
    {
        i -= 1;
        let stroke = visible[i].1;
        assert(all[i as int] == stroke@);
        let hit = hits(stroke);
        assert(answered(*hits, all[i as int], hit)) by {
            assert(stroke@ == all[i as int] && call_ensures(*hits, (stroke,), hit));
        }
        if hit {
            return Some(stroke.id);
        }
    }
    None
}

impl WeavedrawApp {
    /// Take note of the keys pressed since the last frame, and say what they
    /// ask for.
    pub fn handle_shortcuts(&mut self, keys: &Keys) -> (r: Vec<Command>)
        requires
            old(self).wf(),
        ensures
            final(self).wf(),
            final(self)@ == (AppView { space_held: !keys.owned && keys.space, ..old(self)@ }),
            r@ == keys.commands(),
    {
        let ghost start = self@;
        let mut out: Vec<Command> = Vec::new();
        if keys.owned {
            self.space_held = false;
            assert(out@ =~= keys.commands());
            assert(self@ =~= AppView { space_held: false, ..start });
            return out;
        }
        self.space_held = keys.space;
        push_if(&mut out, keys.asked(Command::Undo), Command::Undo);
        push_if(&mut out, keys.asked(Command::Redo), Command::Redo);
        push_if(&mut out, keys.asked(Command::Clear), Command::Clear);
        if let Some(tool) = keys.tool_key() {
            out.push(Command::Select(tool));
        }
        if keys.asked(Command::Wider) {
            out.push(Command::Wider);
        } else {
            push_if(&mut out, keys.asked(Command::Narrower), Command::Narrower);
        }
        push_if(&mut out, keys.asked(Command::ResetView), Command::ResetView);
        assert(out@ =~= keys.commands());
        assert(self@ =~= AppView { space_held: keys.space, ..start });
        out
    }

    /// Whether the clock has ticks left for a command.
    pub fn can_perform(&self, command: Command) -> (r: bool)
        requires
            self.wf(),
        ensures
            r == (self@.time + self@.ticks(command) <= u64::MAX),
    {
        let ticks: usize = match command {
            Command::Undo => self.history.undo_len(),
            Command::Redo => self.history.redo_len(),
            Command::Clear => self.doc.strokes().ids_for(self.me).len(),
            _ => 0,
        };
        self.clock.now() as u128 + ticks as u128 <= u64::MAX as u128
    }

    /// Whether the clock has a tick left for one more stroke.
    pub fn can_draw(&self) -> (r: bool)
        ensures
            r == (self@.time < u64::MAX),
    {
        self.clock.now() < u64::MAX
    }

    /// Do what the user asked for.
    pub fn perform(&mut self, command: Command)
        requires
            old(self).wf(),
            old(self)@.time + old(self)@.ticks(command) <= u64::MAX,
        ensures
            final(self).wf(),
            final(self)@ == old(self)@.performed(command),
    {
        match command {
            Command::Undo => self.undo(),
            Command::Redo => self.redo(),
            Command::Clear => self.clear_mine(),
            Command::Select(tool) => {
                if tool != self.tool {
                    self.select_tool(tool);
                }
            },
            _ => {},
        }
    }

    /// Change the tool. A half-finished gesture is dropped.
    pub fn select_tool(&mut self, tool: Tool)
        requires
            old(self).wf(),
        ensures
            final(self).wf(),
            final(self)@ == (AppView { tool, ..old(self)@.gesture_dropped() }),
    {
        self.cancel_gesture();
        self.tool = tool;
    }

    /// What a drag on the canvas does.
    pub fn canvas_input(&self, middle: bool, primary: bool) -> (r: Route)
        ensures
            r == self@.route(middle, primary),
    {
        let pans = self.tool == Tool::Pan || self.space_held;
        if middle || (pans && primary) {
            return Route::Pan;
        }
        if pans {
            return Route::Hold;
        }
        match self.tool {
            Tool::Eraser => Route::Erase,
            Tool::Text => Route::Label,
            _ => Route::Draw,
        }
    }

    pub fn set_brush_color(&mut self, color: Rgba)
        requires
            old(self).wf(),
        ensures
            final(self).wf(),
            final(self)@ == (AppView { brush_color: color, ..old(self)@ }),
    {
        self.brush_color = color;
    }

    pub fn set_brush_width(&mut self, width: Scalar)
        requires
            old(self).wf(),
        ensures
            final(self).wf(),
            final(self)@ == (AppView { brush_width: width, ..old(self)@ }),
    {
        self.brush_width = width;
    }

    pub fn set_text_size(&mut self, size: Scalar)
        requires
            old(self).wf(),
        ensures
            final(self).wf(),
            final(self)@ == (AppView { text_size: size, ..old(self)@ }),
    {
        self.text_size = size;
    }

    /// What has yet to be handed to the network, in order.
    pub fn take_outgoing(&mut self) -> (r: Vec<ClientMessage>)
        requires
            old(self).wf(),
        ensures
            final(self).wf(),
            message_views(r@) == old(self)@.outgoing,
            final(self)@ == (AppView { outgoing: Seq::empty(), ..old(self)@ }),
    {
        let ghost start = self@;
        let mut out: Vec<ClientMessage> = Vec::new();
        std::mem::swap(&mut out, &mut self.outgoing);
        assert(self@.outgoing =~= Seq::empty());
        assert(self@ =~= AppView { outgoing: Seq::empty(), ..start });
        out
    }

    /// The list of peers.
    pub fn peer_list(&self) -> (r: Vec<PeerRow>)
        requires
            self.wf(),
        ensures
            r@.map_values(|row: PeerRow| row@) == self@.rows(),
    {
        let ghost all = sorted_pairs(self@.peers).map_values(|p: (ClientId, CursorView)| p.1);
        proof {
            lemma_viewed_pairs(self.peers.pairs());
        }
        let n = self.peers.len();
        let mut sorted: Vec<CursorState> = Vec::new();
        let mut i: usize = 0;
        assert(cursor_views(sorted@) =~= Seq::empty());
        while i < n
            invariant
                i <= n == self.peers.pairs().len() == all.len(),
                self.peers.wf(),
                viewed_pairs(self.peers.pairs()).map_values(|p: (ClientId, CursorView)| p.1)
                    == all,
                cursor_views(sorted@) == by_name(all.take(i as int)),
            decreases n - i,
        {
            let c = self.peers.value_at(i);
            let ghost view = cursor_views(sorted@);
            let mut at: usize = sorted.len();
            while at > 0 && precedes(c.name.as_str(), sorted[at - 1].name.as_str())
                invariant
                    at <= sorted@.len(),
                    view == cursor_views(sorted@),
                    forall|k: int|
                        at <= k < view.len() ==> before(c@.name, (#[trigger] view[k]).name),
                decreases at,
            {
                assert(view[at - 1] == sorted@[at - 1]@);
                at -= 1;
            }
            proof {
                if at > 0 {
                    assert(view[at - 1] == sorted@[at - 1]@);
                }
                lemma_placed(view, c@, at as int);
                assert(all.take(i + 1).drop_last() =~= all.take(i as int));
                assert(all[i as int] == c@);
            }
            let copy = c.clone();
            sorted.insert(at, copy);
            assert(cursor_views(sorted@) =~= view.insert(at as int, c@));
            i += 1;
        }
        assert(all.take(i as int) =~= all);
        let mut own = self.name.clone();
        own.append(" (you)");
        let mut out: Vec<PeerRow> = Vec::new();
        let first = PeerRow {
            color: self.presence,
            name: own,
            drawing: self.drawing.is_some(),
            me: true,
        };
        out.push(first);
        let ghost want = self@.rows();
        assert(out@.map_values(|row: PeerRow| row@) =~= want.take(1));
        let mut k: usize = 0;
        while k < sorted.len()
            invariant
                k <= sorted@.len(),
                cursor_views(sorted@) == by_name(all),
                want.len() == sorted@.len() + 1,
                want.skip(1) == by_name(all).map_values(|c: CursorView| row_of(c)),
                out@.map_values(|row: PeerRow| row@) == want.take(k + 1),
            decreases sorted.len() - k,
        {
            let ghost done = out@;
            let row = PeerRow {
                color: sorted[k].color,
                name: sorted[k].name.clone(),
                drawing: sorted[k].drawing,
                me: false,
            };
            proof {
                assert(cursor_views(sorted@)[k as int] == sorted@[k as int]@);
                assert(want.skip(1)[k as int] == row@);
                assert(want[k + 1] == row@);
            }
            out.push(row);
            proof {
                assert(out@.map_values(|row: PeerRow| row@) =~= done.map_values(
                    |row: PeerRow| row@,
                ).push(row@));
                assert(want.take(k + 2) =~= want.take(k + 1).push(want[k + 1]));
            }
            k += 1;
        }
        assert(want.take(k + 1) =~= want);
        out
    }

    /// The line at the foot of the window.
    pub fn status_bar(&self) -> (r: Status)
        requires
            self.wf(),
        ensures
            r.dot == self@.conn.dot(),
            r.text@ == self@.conn.words(),
            r.room@ == "room "@ + self@.room,
            r.strokes@ == decimal(self@.doc.set.order.dom().len()) + " strokes"@,
            match r.rtt {
                Some(text) => self@.rtt is Some && text@ == decimal(
                    self@.rtt->0 as nat / 1_000_000,
                ) + " ms"@,
                None => self@.rtt is None,
            },
    {
        let (dot, text) = match &self.conn {
            Connection::Online => (Rgba::from_hex(0xa6e3a1), "online".to_owned()),
            Connection::Handshaking => (Rgba::from_hex(0xf9e2af), "joining…".to_owned()),
            Connection::Connecting { attempt } => {
                let mut text = String::new();
                if *attempt > 1 {
                    text.append("reconnecting (#");
                    text.append(to_decimal(*attempt as u128).as_str());
                    text.append(")…");
                } else {
                    text.append("connecting…");
                }
                assert(text@ =~= self@.conn.words());
                (Rgba::from_hex(0xf9e2af), text)
            },
            Connection::Offline { reason } => {
                let mut text = "offline — ".to_owned();
                text.append(reason.as_str());
                (Rgba::from_hex(0xf38ba8), text)
            },
        };
        let mut room = "room ".to_owned();
        room.append(self.room.as_str());
        let mut strokes = to_decimal(self.doc.strokes().len() as u128);
        strokes.append(" strokes");
        let rtt = match self.rtt {
            Some(nanos) => {
                let mut text = to_decimal(nanos / 1_000_000);
                text.append(" ms");
                Some(text)
            },
            None => None,
        };
        Status { dot, text, room, strokes, rtt }
    }

    pub fn document(&self) -> (r: &Document)
        requires
            self.wf(),
        ensures
            r.wf(),
            r@ == self@.doc,
    {
        &self.doc
    }

    pub fn tool(&self) -> (r: Tool)
        ensures
            r == self@.tool,
    {
        self.tool
    }

    pub fn brush_color(&self) -> (r: Rgba)
        ensures
            r == self@.brush_color,
    {
        self.brush_color
    }

    pub fn brush_width(&self) -> (r: Scalar)
        ensures
            r == self@.brush_width,
    {
        self.brush_width
    }

    pub fn text_size(&self) -> (r: Scalar)
        ensures
            r == self@.text_size,
    {
        self.text_size
    }

    pub fn space_held(&self) -> (r: bool)
        ensures
            r == self@.space_held,
    {
        self.space_held
    }

    pub fn can_undo(&self) -> (r: bool)
        ensures
            r == (self@.history.undo.len() > 0),
    {
        self.history.can_undo()
    }

    pub fn can_redo(&self) -> (r: bool)
        ensures
            r == (self@.history.redo.len() > 0),
    {
        self.history.can_redo()
    }

    /// The stroke being drawn, or the label being typed.
    pub fn drawing(&self) -> (r: Option<&Stroke>)
        ensures
            match (r, self@.drawing) {
                (Some(s), Some(d)) => s@ == d.stroke,
                (None, None) => true,
                _ => false,
            },
    {
        match &self.drawing {
            Some(d) => Some(&d.stroke),
            None => None,
        }
    }

    /// Whether a gesture is in flight.
    pub fn is_busy(&self) -> (r: bool)
        ensures
            r == (self@.drawing is Some || self@.erasing is Some),
    {
        self.drawing.is_some() || self.erasing.is_some()
    }

    /// The strokes that other peers are drawing, in ascending order of their
    /// ids.
    pub fn previews(&self) -> (r: Vec<&Stroke>)
        requires
            self.wf(),
        ensures
            r@.map_values(|s: &Stroke| s@) == sorted_pairs(self@.previews).map_values(
                |p: (StrokeId, StrokeView)| p.1,
            ),
    {
        let ghost all = sorted_pairs(self@.previews).map_values(|p: (StrokeId, StrokeView)| p.1);
        proof {
            lemma_viewed_pairs(self.previews.pairs());
        }
        let n = self.previews.len();
        let mut out: Vec<&Stroke> = Vec::new();
        let mut i: usize = 0;
        while i < n
            invariant
                i <= n == self.previews.pairs().len() == all.len(),
                self.previews.wf(),
                viewed_pairs(self.previews.pairs()).map_values(|p: (StrokeId, StrokeView)| p.1)
                    == all,
                out@.len() == i,
                forall|k: int| 0 <= k < i ==> (#[trigger] out@[k])@ == all[k],
            decreases n - i,
        {
            let s = self.previews.value_at(i);
            assert(all[i as int] == s@);
            out.push(s);
            i += 1;
        }
        assert(out@.map_values(|s: &Stroke| s@) =~= all);
        out
    }

    /// The cursors of the other peers, in ascending order of their ids.
    pub fn cursors(&self) -> (r: Vec<&CursorState>)
        requires
            self.wf(),
        ensures
            r@.map_values(|c: &CursorState| c@) == sorted_pairs(self@.peers).map_values(
                |p: (ClientId, CursorView)| p.1,
            ),
    {
        let ghost all = sorted_pairs(self@.peers).map_values(|p: (ClientId, CursorView)| p.1);
        proof {
            lemma_viewed_pairs(self.peers.pairs());
        }
        let n = self.peers.len();
        let mut out: Vec<&CursorState> = Vec::new();
        let mut i: usize = 0;
        while i < n
            invariant
                i <= n == self.peers.pairs().len() == all.len(),
                self.peers.wf(),
                viewed_pairs(self.peers.pairs()).map_values(|p: (ClientId, CursorView)| p.1)
                    == all,
                out@.len() == i,
                forall|k: int| 0 <= k < i ==> (#[trigger] out@[k])@ == all[k],
            decreases n - i,
        {
            let c = self.peers.value_at(i);
            assert(all[i as int] == c@);
            out.push(c);
            i += 1;
        }
        assert(out@.map_values(|c: &CursorState| c@) =~= all);
        out
    }
}

} // verus!
