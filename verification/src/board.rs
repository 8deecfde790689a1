//! The whiteboard as one peer sees it, as a mathematical value, and what each
//! event makes of it.

use vstd::prelude::*;

use crate::crdt::{ids_by, stamped_removes, OpView, SetView, Timestamp};
use crate::document::{DocView, HistoryView};
use crate::geom::sheds;
use crate::ordmap::sorted_pairs;
use crate::panel::{by_name, row_of, RowView};
use crate::protocol::{ClientView, DeltaView, ServerView};
use crate::text::{blank, decimal};
use crate::tool::{Command, Route, Tool};
use crate::types::{
    ClientId, CursorView, KindView, Point, Rgba, Scalar, Stroke, StrokeId, StrokeView,
};

verus! {

#[derive(Debug)]
pub enum Connection {
    Connecting { attempt: u32 },
    /// Socket open, waiting for `Welcome`.
    Handshaking,
    Online,
    Offline { reason: String },
}

/// Mathematical counterpart of [`Connection`].
pub enum ConnectionView {
    Connecting { attempt: u32 },
    Handshaking,
    Online,
    Offline { reason: Seq<char> },
}

impl View for Connection {
    type V = ConnectionView;

    open spec fn view(&self) -> ConnectionView {
        match self {
            Connection::Connecting { attempt } => ConnectionView::Connecting { attempt: *attempt },
            Connection::Handshaking => ConnectionView::Handshaking,
            Connection::Online => ConnectionView::Online,
            Connection::Offline { reason } => ConnectionView::Offline { reason: reason@ },
        }
    }
}

impl ConnectionView {
    /// The colour of the connection's lamp.
    pub open spec fn dot(self) -> Rgba {
        match self {
            ConnectionView::Online => Rgba::of_hex(0xa6e3a1),
            ConnectionView::Handshaking => Rgba::of_hex(0xf9e2af),
            ConnectionView::Connecting { .. } => Rgba::of_hex(0xf9e2af),
            ConnectionView::Offline { .. } => Rgba::of_hex(0xf38ba8),
        }
    }

    /// What is said of the connection.
    pub open spec fn words(self) -> Seq<char> {
        match self {
            ConnectionView::Online => "online"@,
            ConnectionView::Handshaking => "joining…"@,
            ConnectionView::Connecting { attempt } => if attempt > 1 {
                "reconnecting (#"@ + decimal(attempt as nat) + ")…"@
            } else {
                "connecting…"@
            },
            ConnectionView::Offline { reason } => "offline — "@ + reason,
        }
    }
}

/// The shortest time between two announcements of a moving cursor, in
/// milliseconds.
pub const CURSOR_SEND_INTERVAL_MS: u64 = 33;

/// A stroke being drawn locally (a label being typed, too): the payload plus
/// how much of it has already been streamed to peers as `StrokeDelta`s.
#[derive(Debug)]
pub struct Drawing {
    pub stroke: Stroke,
    pub sent: usize,
}

/// Mathematical counterpart of [`Drawing`].
#[verifier::ext_equal]
pub struct DrawingView {
    pub stroke: StrokeView,
    pub sent: nat,
}

impl View for Drawing {
    type V = DrawingView;

    open spec fn view(&self) -> DrawingView {
        DrawingView { stroke: self.stroke@, sent: self.sent as nat }
    }
}

impl DrawingView {
    /// Whether peers have yet to see part of it.
    pub open spec fn unsent(self) -> bool {
        self.sent < self.stroke.points.len()
    }

    /// What peers have yet to see: the new points of a freehand stroke, the
    /// whole of anything else.
    pub open spec fn delta(self) -> DeltaView {
        DeltaView {
            stroke_id: self.stroke.id,
            client_id: self.stroke.client_id,
            color: self.stroke.color,
            width: self.stroke.width,
            kind: self.stroke.kind,
            points: if self.stroke.kind == KindView::Freehand {
                self.stroke.points.skip(self.sent as int)
            } else {
                self.stroke.points
            },
        }
    }

    /// All of it has been streamed.
    pub open spec fn streamed(self) -> DrawingView {
        DrawingView { sent: self.stroke.points.len(), ..self }
    }

    /// The pointer moved on: a freehand stroke grows where the pointer went far
    /// enough, a shape's far corner moves.
    pub open spec fn extended(self, at: Point, far: bool) -> DrawingView {
        let points = self.stroke.points;
        if self.stroke.kind == KindView::Freehand {
            if points.len() == 0 || far {
                DrawingView {
                    stroke: StrokeView { points: points.push(at), ..self.stroke },
                    ..self
                }
            } else {
                self
            }
        } else if points.len() == 0 {
            DrawingView { stroke: StrokeView { points: seq![at], ..self.stroke }, sent: 0 }
        } else if points.len() == 2 && points[1] == at {
            self
        } else {
            DrawingView {
                stroke: StrokeView { points: seq![points[0], at], ..self.stroke },
                sent: 0,
            }
        }
    }
}

/// What the pointer did on the canvas since the last frame, in canvas
/// coordinates.
#[derive(Clone, Copy, Debug)]
pub struct Pointer {
    /// A drag with the primary button began.
    pub started: bool,
    /// A click with the primary button.
    pub clicked: bool,
    /// A drag with the primary button is going on.
    pub dragging: bool,
    /// A drag with some button is going on.
    pub moving: bool,
    /// A drag with the primary button ended.
    pub stopped: bool,
    pub at: Option<Point>,
}

impl Pointer {
    /// Whether the eraser takes what the pointer is on.
    pub open spec fn rubs(self) -> bool {
        (self.dragging || self.started || self.clicked) && self.at is Some
    }
}

/// The inverse operations of a group, newest first, stamped by consecutive
/// ticks of a clock that showed `time`. What cannot be inverted still takes its
/// tick.
pub open spec fn inverses(
    set: SetView,
    ops: Seq<OpView>,
    time: nat,
    me: ClientId,
) -> Seq<OpView>
    decreases ops.len(),
{
    if ops.len() == 0 {
        Seq::empty()
    } else {
        let ts = Timestamp { counter: (time + 1) as u64, client: me };
        let rest = inverses(set, ops.drop_last(), time + 1, me);
        match set.inverse(ops.last(), ts) {
            Some(op) => seq![op] + rest,
            None => rest,
        }
    }
}

pub proof fn lemma_inverses_stamped(set: SetView, ops: Seq<OpView>, time: nat, me: ClientId)
    requires
        time + ops.len() <= u64::MAX,
    ensures
        inverses(set, ops, time, me).len() <= ops.len(),
        forall|i: int|
            0 <= i < inverses(set, ops, time, me).len() ==> (#[trigger] inverses(
                set,
                ops,
                time,
                me,
            )[i]).ts().counter <= time + ops.len(),
    decreases ops.len(),
{
    if ops.len() > 0 {
        lemma_inverses_stamped(set, ops.drop_last(), time + 1, me);
    }
}

/// Mathematical counterpart of [`WeavedrawApp`].
#[verifier::ext_equal]
pub struct AppView {
    pub me: ClientId,
    pub name: Seq<char>,
    pub presence: Rgba,
    pub room: Seq<char>,
    pub doc: DocView,
    /// What the peer's clock shows.
    pub time: u64,
    pub tool: Tool,
    pub brush_color: Rgba,
    pub brush_width: Scalar,
    pub text_size: Scalar,
    pub drawing: Option<DrawingView>,
    pub history: HistoryView,
    pub erasing: Option<Seq<OpView>>,
    pub space_held: bool,
    pub peers: Map<ClientId, CursorView>,
    pub previews: Map<StrokeId, StrokeView>,
    pub last_cursor: Option<CursorView>,
    pub last_cursor_sent: u64,
    pub conn: ConnectionView,
    pub rtt: Option<u128>,
    /// What has yet to be handed to the network.
    pub outgoing: Seq<ClientView>,
}

impl AppView {
    /// Everything in the document is known to the clock, the history is no
    /// longer than it may be, no more of a drawing was streamed than there is,
    /// and what was erased is known to the clock too.
    pub open spec fn sane(self) -> bool {
        &&& self.doc.set.known_by(self.time)
        &&& self.history.bounded()
        &&& self.drawing matches Some(d) ==> d.sent <= d.stroke.points.len()
        &&& self.erasing matches Some(ops) ==> forall|i: int|
            0 <= i < ops.len() ==> (#[trigger] ops[i]).ts().counter <= self.time
    }

    pub open spec fn sending(self, msg: ClientView) -> AppView {
        AppView { outgoing: self.outgoing.push(msg), ..self }
    }

    /// The next timestamp of the peer's clock.
    pub open spec fn next_stamp(self) -> Timestamp {
        Timestamp { counter: (self.time + 1) as u64, client: self.me }
    }

    /// Local operations are applied, shipped, and recorded for undo.
    pub open spec fn committed(self, ops: Seq<OpView>, record: bool) -> AppView {
        if ops.len() == 0 {
            self
        } else {
            AppView {
                doc: self.doc.applied_all(ops),
                history: if record {
                    self.history.recorded(ops)
                } else {
                    self.history
                },
                ..self
            }.sending(ClientView::Ops(ops))
        }
    }

    /// How many ticks an undo takes.
    pub open spec fn undo_ticks(self) -> nat {
        if self.history.undo.len() > 0 {
            self.history.undo.last().len()
        } else {
            0
        }
    }

    pub open spec fn redo_ticks(self) -> nat {
        if self.history.redo.len() > 0 {
            self.history.redo.last().len()
        } else {
            0
        }
    }

    /// The newest gesture is taken back, shipped, and can be redone.
    pub open spec fn undone(self) -> AppView {
        if self.history.undo.len() == 0 {
            self
        } else {
            let group = self.history.undo.last();
            let ops = inverses(self.doc.set, group, self.time as nat, self.me);
            AppView {
                doc: self.doc.applied_all(ops),
                time: (self.time + group.len()) as u64,
                history: self.history.undone(ops),
                ..self
            }.sending(ClientView::Ops(ops))
        }
    }

    pub open spec fn redone(self) -> AppView {
        if self.history.redo.len() == 0 {
            self
        } else {
            let group = self.history.redo.last();
            let ops = inverses(self.doc.set, group, self.time as nat, self.me);
            AppView {
                doc: self.doc.applied_all(ops),
                time: (self.time + group.len()) as u64,
                history: self.history.redone(ops),
                ..self
            }.sending(ClientView::Ops(ops))
        }
    }

    /// The peer's own visible strokes are removed.
    pub open spec fn cleared(self) -> AppView {
        let ids = ids_by(self.doc.set.visible(), self.me);
        AppView { time: (self.time + ids.len()) as u64, ..self }.committed(
            stamped_removes(ids, self.time as nat, self.me),
            true,
        )
    }

    /// One operation of another peer.
    pub open spec fn heard_op(self, op: OpView) -> AppView {
        AppView {
            time: if op.ts().counter > self.time {
                op.ts().counter
            } else {
                self.time
            },
            previews: if op is Add {
                self.previews.remove(op.id())
            } else {
                self.previews
            },
            doc: self.doc.applied(op),
            ..self
        }
    }

    pub open spec fn heard_ops(self, ops: Seq<OpView>) -> AppView
        decreases ops.len(),
    {
        if ops.len() == 0 {
            self
        } else {
            self.heard_ops(ops.drop_last()).heard_op(ops.last())
        }
    }

    /// Another replica is merged; `time` is what the clock shows then.
    pub open spec fn merged(self, set: SetView, time: u64) -> AppView {
        AppView { doc: self.doc.merged(set), time, ..self }
    }

    /// What the clock shows after it has seen everything in a set: the counter
    /// of the newest timestamp there, unless it was ahead already.
    pub open spec fn time_after(self, set: SetView, time: u64) -> bool {
        &&& time >= self.time
        &&& set.known_by(time)
        &&& time == self.time || exists|ts: Timestamp| #[trigger]
            set.mentions(ts) && ts.counter == time
    }

    /// A chunk of another peer's stroke.
    pub open spec fn heard_delta(self, d: DeltaView) -> AppView {
        if d.client_id == self.me || self.doc.set.shows(d.stroke_id) {
            self
        } else {
            let preview = if self.previews.contains_key(d.stroke_id) {
                self.previews[d.stroke_id]
            } else {
                d.start_preview()
            };
            AppView { previews: self.previews.insert(d.stroke_id, d.apply_to(preview)), ..self }
        }
    }

    /// The latest cursor of another peer.
    pub open spec fn heard_cursor(self, c: CursorView) -> AppView {
        if c.client_id == self.me {
            self
        } else {
            AppView { peers: self.peers.insert(c.client_id, c), ..self }
        }
    }

    pub open spec fn heard_left(self, id: ClientId) -> AppView {
        AppView {
            peers: self.peers.remove(id),
            previews: self.previews.remove_keys(
                self.previews.dom().filter(|k: StrokeId| self.previews[k].client_id == id),
            ),
            ..self
        }
    }

    /// The peers listed in a welcome; a later entry for an id replaces an
    /// earlier one.
    pub open spec fn listed(peers: Seq<CursorView>) -> Map<ClientId, CursorView>
        decreases peers.len(),
    {
        if peers.len() == 0 {
            Map::empty()
        } else {
            AppView::listed(peers.drop_last()).insert(peers.last().client_id, peers.last())
        }
    }

    /// Half-finished gestures are dropped; what was erased so far stays erased
    /// and can be undone.
    pub open spec fn gesture_dropped(self) -> AppView {
        AppView {
            drawing: None,
            erasing: None,
            history: match self.erasing {
                Some(ops) => if ops.len() > 0 {
                    self.history.recorded(ops)
                } else {
                    self.history
                },
                None => self.history,
            },
            ..self
        }
    }

    /// A stroke begins.
    pub open spec fn begun(self, id: StrokeId, input: Pointer) -> AppView {
        if input.started && input.at is Some {
            AppView {
                drawing: Some(
                    DrawingView {
                        stroke: StrokeView {
                            id,
                            client_id: self.me,
                            color: self.brush_color,
                            width: self.brush_width,
                            kind: self.tool.draws(),
                            points: seq![input.at->0],
                        },
                        sent: 0,
                    },
                ),
                ..self
            }
        } else {
            self
        }
    }

    /// The stroke follows the pointer, which went `far` enough for a new sample
    /// or not.
    pub open spec fn followed(self, input: Pointer, far: bool) -> AppView {
        match (self.drawing, input.at) {
            (Some(d), Some(at)) => if input.dragging {
                AppView { drawing: Some(d.extended(at, far)), ..self }
            } else {
                self
            },
            _ => self,
        }
    }

    /// What is new is streamed to peers.
    pub open spec fn streamed(self) -> AppView {
        match self.drawing {
            Some(d) => if d.unsent() {
                AppView { drawing: Some(d.streamed()), ..self }.sending(
                    ClientView::StrokeDelta(d.delta()),
                )
            } else {
                self
            },
            None => self,
        }
    }

    /// Where the stroke grows with the pointer, `far` is what the test said of
    /// its last sample and the pointer.
    pub open spec fn asks<F: Fn(Point, Point) -> bool>(
        self,
        input: Pointer,
        test: F,
        far: bool,
    ) -> bool {
        match (self.drawing, input.at) {
            (Some(d), Some(at)) => input.dragging && d.stroke.kind == KindView::Freehand
                && d.stroke.points.len() > 0 ==> call_ensures(
                test,
                (d.stroke.points.last(), at),
                far,
            ),
            _ => true,
        }
    }

    /// Where a freehand stroke is done, `trail` is what is left of its samples.
    pub open spec fn leaves<D: Fn(Point, Point, Point) -> Scalar>(
        self,
        epsilon: Scalar,
        distance: D,
        trail: Seq<Point>,
    ) -> bool {
        match self.drawing {
            Some(d) => d.stroke.kind == KindView::Freehand ==> sheds(
                d.stroke.points,
                epsilon,
                distance,
                trail,
            ),
            None => true,
        }
    }

    /// The stroke is done: of a freehand stroke's samples `trail` is left, and it
    /// is committed.
    pub open spec fn completed(self, trail: Seq<Point>) -> AppView {
        match self.drawing {
            Some(d) => {
                let stroke = if d.stroke.kind == KindView::Freehand {
                    StrokeView { points: trail, ..d.stroke }
                } else {
                    d.stroke
                };
                AppView { drawing: None, time: (self.time + 1) as u64, ..self }.committed(
                    seq![OpView::Add { stroke, ts: self.next_stamp() }],
                    true,
                )
            },
            None => self,
        }
    }

    /// One frame of drawing, where the pointer went `far` enough for a new
    /// sample or not, and `trail` is left of the samples of a stroke that ends.
    pub open spec fn drawn(
        self,
        id: StrokeId,
        input: Pointer,
        far: bool,
        trail: Seq<Point>,
    ) -> AppView {
        let s = self.begun(id, input).followed(input, far).streamed();
        if input.stopped {
            s.completed(trail)
        } else {
            s
        }
    }

    /// One frame of drawing, by the answers that the test and the distance gave.
    pub open spec fn draws<F: Fn(Point, Point) -> bool, D: Fn(Point, Point, Point) -> Scalar>(
        self,
        id: StrokeId,
        input: Pointer,
        test: F,
        epsilon: Scalar,
        distance: D,
        after: AppView,
    ) -> bool {
        exists|far: bool, trail: Seq<Point>|
            after == #[trigger] self.drawn(id, input, far, trail) && self.begun(id, input).asks(
                input,
                test,
                far,
            ) && (input.stopped ==> self.begun(id, input).followed(input, far).leaves(
                epsilon,
                distance,
                trail,
            ))
    }

    /// Whether a stroke is committed in a frame of drawing.
    pub open spec fn finishes(self, input: Pointer) -> bool {
        input.stopped && (self.drawing is Some || (input.started && input.at is Some))
    }

    /// A label begins, where nothing has been typed yet.
    pub open spec fn label_placed(self, id: StrokeId, at: Point) -> AppView {
        AppView {
            drawing: Some(
                DrawingView {
                    stroke: StrokeView {
                        id,
                        client_id: self.me,
                        color: self.brush_color,
                        width: self.brush_width,
                        kind: KindView::Text { content: Seq::empty(), size: self.text_size },
                        points: seq![at],
                    },
                    sent: 0,
                },
            ),
            ..self
        }
    }

    /// The text of the label changes, and is streamed to peers.
    pub open spec fn label_edited(self, content: Seq<char>) -> AppView {
        match self.drawing {
            Some(d) => match d.stroke.kind {
                KindView::Text { content: was, size } => if was == content {
                    self
                } else {
                    AppView {
                        drawing: Some(
                            DrawingView {
                                stroke: StrokeView {
                                    kind: KindView::Text { content, size },
                                    ..d.stroke
                                },
                                sent: 0,
                            },
                        ),
                        ..self
                    }.streamed()
                },
                _ => self,
            },
            None => self,
        }
    }

    /// Whether a label is being typed.
    pub open spec fn typing(self) -> bool {
        self.drawing is Some && self.drawing->0.stroke.kind is Text
    }

    /// The label is committed, unless it is `unusable`.
    pub open spec fn label_committed(self, unusable: bool) -> AppView {
        match self.drawing {
            Some(d) => if d.stroke.kind is Text {
                if unusable {
                    AppView { drawing: None, ..self }
                } else {
                    AppView { drawing: None, time: (self.time + 1) as u64, ..self }.committed(
                        seq![OpView::Add { stroke: d.stroke, ts: self.next_stamp() }],
                        true,
                    )
                }
            } else {
                self
            },
            None => self,
        }
    }

    /// The stroke `hit` is erased.
    pub open spec fn erased(self, hit: Option<StrokeId>) -> AppView {
        match hit {
            Some(id) => {
                let op = OpView::Remove { id, ts: self.next_stamp() };
                AppView {
                    time: (self.time + 1) as u64,
                    doc: self.doc.applied(op),
                    erasing: match self.erasing {
                        Some(ops) => Some(ops.push(op)),
                        None => None,
                    },
                    ..self
                }.sending(ClientView::Ops(seq![op]))
            },
            None => self,
        }
    }

    /// An eraser drag begins, unless one is going on.
    pub open spec fn erase_begun(self) -> AppView {
        AppView {
            erasing: match self.erasing {
                Some(ops) => Some(ops),
                None => Some(Seq::empty()),
            },
            ..self
        }
    }

    /// The eraser drag is over and can be undone as one.
    pub open spec fn erase_ended(self) -> AppView {
        AppView {
            erasing: None,
            history: match self.erasing {
                Some(ops) => if ops.len() > 0 {
                    self.history.recorded(ops)
                } else {
                    self.history
                },
                None => self.history,
            },
            ..self
        }
    }

    /// One frame of erasing, where the pointer is on the stroke `hit`.
    pub open spec fn rubbed(self, input: Pointer, hit: Option<StrokeId>) -> AppView {
        let pressed = input.started || input.clicked;
        let a = if pressed {
            self.erase_begun()
        } else {
            self
        };
        let b = if input.rubs() {
            a.erased(hit)
        } else {
            a
        };
        if input.stopped || (pressed && !input.moving) {
            b.erase_ended()
        } else {
            b
        }
    }

    /// The peer's own cursor.
    pub open spec fn own_cursor(self, position: Option<Point>) -> CursorView {
        CursorView {
            client_id: self.me,
            name: self.name,
            color: self.presence,
            position,
            drawing: self.drawing is Some,
        }
    }

    /// Whether the cursor is to be announced: it changed, and either the last
    /// announcement is long enough ago or the pointer has just left the canvas.
    pub open spec fn cursor_due(self, position: Option<Point>, now: u64) -> bool {
        &&& self.conn is Online
        &&& match self.last_cursor {
            Some(c) => !c.same_as(self.own_cursor(position)),
            None => true,
        }
        &&& {
            ||| now >= self.last_cursor_sent && now - self.last_cursor_sent
                >= CURSOR_SEND_INTERVAL_MS
            ||| position is None && self.last_cursor is Some && self.last_cursor->0.position is Some
        }
    }

    pub open spec fn announced(self, position: Option<Point>, now: u64) -> AppView {
        if self.cursor_due(position, now) {
            AppView {
                last_cursor: Some(self.own_cursor(position)),
                last_cursor_sent: now,
                ..self
            }.sending(ClientView::Cursor(self.own_cursor(position)))
        } else {
            self
        }
    }
}

impl AppView {
    /// Whether the label being typed is nothing but white space, or there is
    /// none.
    pub open spec fn label_blank(self) -> bool {
        match self.drawing {
            Some(d) => match d.stroke.kind {
                KindView::Text { content, .. } => blank(content),
                _ => true,
            },
            None => true,
        }
    }
}

/// What a message of the server does.
pub open spec fn heeds(app: AppView, msg: ServerView, after: AppView) -> bool {
    match msg {
        ServerView::Welcome { snapshot, peers, .. } => exists|time: u64| #[trigger]
            app.time_after(snapshot, time) && after == (AppView {
                conn: ConnectionView::Online,
                peers: AppView::listed(peers),
                previews: Map::empty(),
                last_cursor: None,
                ..app.merged(snapshot, time)
            }),
        ServerView::Snapshot(set) => exists|time: u64| #[trigger]
            app.time_after(set, time) && after == app.merged(set, time),
        ServerView::Ops { ops, .. } => after == app.heard_ops(ops),
        ServerView::Cursor(c) => after == app.heard_cursor(c),
        ServerView::StrokeDelta(d) => after == app.heard_delta(d),
        ServerView::PeerJoined(c) => after == app.heard_cursor(c),
        ServerView::PeerLeft(id) => after == app.heard_left(id),
        ServerView::Rejected(why) => after == (AppView {
            conn: ConnectionView::Offline { reason: "rejected: "@ + why.words() },
            ..app
        }),
        ServerView::Pong(_) => after == app,
    }
}

/// The stroke `hit` is the topmost of those that the test accepts: nothing
/// drawn after it is accepted.
pub open spec fn is_topmost<H: Fn(&Stroke) -> bool>(
    strokes: Seq<StrokeView>,
    hits: H,
    hit: Option<StrokeId>,
) -> bool {
    match hit {
        Some(id) => exists|i: int|
            0 <= i < strokes.len() && (#[trigger] strokes[i]).id == id && answered(
                hits,
                strokes[i],
                true,
            ) && forall|j: int|
                i < j < strokes.len() ==> answered(hits, #[trigger] strokes[j], false),
        None => forall|j: int|
            0 <= j < strokes.len() ==> answered(hits, #[trigger] strokes[j], false),
    }
}

/// The test was asked about a stroke, and answered.
pub open spec fn answered<H: Fn(&Stroke) -> bool>(
    hits: H,
    stroke: StrokeView,
    answer: bool,
) -> bool {
    exists|s: Stroke| s@ == stroke && #[trigger] call_ensures(hits, (&s,), answer)
}

impl AppView {
    /// How many ticks a command takes at most.
    pub open spec fn ticks(self, command: Command) -> nat {
        match command {
            Command::Undo => self.undo_ticks(),
            Command::Redo => self.redo_ticks(),
            Command::Clear => ids_by(self.doc.set.visible(), self.me).len(),
            _ => 0,
        }
    }

    /// What a command does to the state. The key of the tool in use leaves a
    /// gesture as it is. The brush and the view are the canvas's own.
    pub open spec fn performed(self, command: Command) -> AppView {
        match command {
            Command::Undo => self.undone(),
            Command::Redo => self.redone(),
            Command::Clear => self.cleared(),
            Command::Select(tool) => if tool == self.tool {
                self
            } else {
                AppView { tool, ..self.gesture_dropped() }
            },
            _ => self,
        }
    }

    /// What a drag does, with the middle or the primary button.
    pub open spec fn route(self, middle: bool, primary: bool) -> Route {
        let pans = self.tool == Tool::Pan || self.space_held;
        if middle || (pans && primary) {
            Route::Pan
        } else if pans {
            Route::Hold
        } else if self.tool == Tool::Eraser {
            Route::Erase
        } else if self.tool == Tool::Text {
            Route::Label
        } else {
            Route::Draw
        }
    }

    /// The list of peers: the peer itself first, the others in order of their
    /// names.
    pub open spec fn rows(self) -> Seq<RowView> {
        seq![
            RowView {
                color: self.presence,
                name: self.name + " (you)"@,
                drawing: self.drawing is Some,
                me: true,
            },
        ] + by_name(sorted_pairs(self.peers).map_values(|p: (ClientId, CursorView)| p.1)).map_values(
            |c: CursorView| row_of(c),
        )
    }
}

} // verus!
