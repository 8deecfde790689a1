//! What goes into each message on the wire, and in which order.

use vstd::prelude::*;

use crate::crdt::{
    entry_views, op_views, Added, AddedView, EntryView, OpView, SetView, StrokeEntry, StrokeOp,
    StrokeSet, Timestamp,
};
use crate::crdt_laws::law_snapshot_rebuilds_the_set;
use crate::ordmap::sorted_pairs;
use crate::protocol::{
    cursor_views, ClientMessage, ClientView, DeltaView, Rejection, ServerMessage, ServerView,
    StrokeDelta,
};
use crate::types::{
    CursorState, CursorView, KindView, Point, Rgba, Scalar, Stroke, StrokeId, StrokeKind,
    StrokeView,
};
use crate::wire::{
    encode_number, get_after, get_tag, items_bytes, lemma_tag_round_trip, lemma_tagged_round_trip,
    number_bytes, put_all, put_tag, read_after, tag_read, values, ReadView, Wire,
};

verus! {

/// The channels of a colour.
pub type RgbaFields = (u8, (u8, (u8, u8)));

impl Wire for Rgba {
    type Value = Rgba;

    open spec fn value(&self) -> Rgba {
        *self
    }

    open spec fn valid(&self) -> bool {
        true
    }

    open spec fn bytes(v: Rgba) -> Seq<u8> {
        <RgbaFields as Wire>::bytes((v.r, (v.g, (v.b, v.a))))
    }

    open spec fn read(bytes: Seq<u8>) -> ReadView<Rgba> {
        match <RgbaFields as Wire>::read(bytes) {
            Ok(((r, (g, (b, a))), n)) => Ok(
                (
                    Rgba { r, g, b, a },
                    n,
                ),
            ),
            Err(text) => Err(text),
        }
    }

    open spec fn faithful(v: Rgba) -> bool {
        <RgbaFields as Wire>::faithful((v.r, (v.g, (v.b, v.a))))
    }

    proof fn round_trip(v: Rgba, rest: Seq<u8>) {
        <RgbaFields as Wire>::round_trip((v.r, (v.g, (v.b, v.a))), rest);
    }

    fn put(&self, out: &mut Vec<u8>) -> (r: Result<(), String>) {
        let ghost before = out@;
        self.r.put(out)?;
        self.g.put(out)?;
        self.b.put(out)?;
        self.a.put(out)?;
        assert(out@ =~= before + Self::bytes(self.value()));
        Ok(())
    }

    fn get(bytes: &[u8]) -> (r: Result<(Rgba, usize), String>) {
        match <RgbaFields as Wire>::get(bytes) {
            Ok(((r, (g, (b, a))), n)) => {
                let r = Rgba { r, g, b, a };
                Ok((r, n))
            },
            Err(text) => Err(text),
        }
    }
}

/// The coordinates of a point.
pub type PointFields = (Scalar, Scalar);

impl Wire for Point {
    type Value = Point;

    open spec fn value(&self) -> Point {
        *self
    }

    open spec fn valid(&self) -> bool {
        true
    }

    open spec fn bytes(v: Point) -> Seq<u8> {
        <PointFields as Wire>::bytes((v.x, v.y))
    }

    open spec fn read(bytes: Seq<u8>) -> ReadView<Point> {
        match <PointFields as Wire>::read(bytes) {
            Ok(((x, y), n)) => Ok(
                (
                    Point { x, y },
                    n,
                ),
            ),
            Err(text) => Err(text),
        }
    }

    open spec fn faithful(v: Point) -> bool {
        <PointFields as Wire>::faithful((v.x, v.y))
    }

    proof fn round_trip(v: Point, rest: Seq<u8>) {
        <PointFields as Wire>::round_trip((v.x, v.y), rest);
    }

    fn put(&self, out: &mut Vec<u8>) -> (r: Result<(), String>) {
        let ghost before = out@;
        self.x.put(out)?;
        self.y.put(out)?;
        assert(out@ =~= before + Self::bytes(self.value()));
        Ok(())
    }

    fn get(bytes: &[u8]) -> (r: Result<(Point, usize), String>) {
        match <PointFields as Wire>::get(bytes) {
            Ok(((x, y), n)) => {
                let r = Point { x, y };
                Ok((r, n))
            },
            Err(text) => Err(text),
        }
    }
}

/// The parts of a timestamp.
pub type TimestampFields = (u64, u128);

impl Wire for Timestamp {
    type Value = Timestamp;

    open spec fn value(&self) -> Timestamp {
        *self
    }

    open spec fn valid(&self) -> bool {
        true
    }

    open spec fn bytes(v: Timestamp) -> Seq<u8> {
        <TimestampFields as Wire>::bytes((v.counter, v.client))
    }

    open spec fn read(bytes: Seq<u8>) -> ReadView<Timestamp> {
        match <TimestampFields as Wire>::read(bytes) {
            Ok(((counter, client), n)) => Ok(
                (
                    Timestamp { counter, client },
                    n,
                ),
            ),
            Err(text) => Err(text),
        }
    }

    open spec fn faithful(v: Timestamp) -> bool {
        <TimestampFields as Wire>::faithful((v.counter, v.client))
    }

    proof fn round_trip(v: Timestamp, rest: Seq<u8>) {
        <TimestampFields as Wire>::round_trip((v.counter, v.client), rest);
    }

    fn put(&self, out: &mut Vec<u8>) -> (r: Result<(), String>) {
        let ghost before = out@;
        self.counter.put(out)?;
        self.client.put(out)?;
        assert(out@ =~= before + Self::bytes(self.value()));
        Ok(())
    }

    fn get(bytes: &[u8]) -> (r: Result<(Timestamp, usize), String>) {
        match <TimestampFields as Wire>::get(bytes) {
            Ok(((counter, client), n)) => {
                let r = Timestamp { counter, client };
                Ok((r, n))
            },
            Err(text) => Err(text),
        }
    }
}

impl Wire for StrokeKind {
    type Value = KindView;

    open spec fn value(&self) -> KindView {
        self@
    }

    open spec fn valid(&self) -> bool {
        true
    }

    open spec fn bytes(v: KindView) -> Seq<u8> {
        match v {
            KindView::Freehand => number_bytes(0),
            KindView::Line => number_bytes(1),
            KindView::Rect => number_bytes(2),
            KindView::Ellipse => number_bytes(3),
            KindView::Text { content, size } => {
                number_bytes(4) + <(String, Scalar) as Wire>::bytes((content, size))
            },
        }
    }

    open spec fn read(bytes: Seq<u8>) -> ReadView<KindView> {
        match tag_read(bytes, 5) {
            Ok((0, n)) => Ok((KindView::Freehand, n)),
            Ok((1, n)) => Ok((KindView::Line, n)),
            Ok((2, n)) => Ok((KindView::Rect, n)),
            Ok((3, n)) => Ok((KindView::Ellipse, n)),
            Ok((_, n)) => match read_after::<(String, Scalar)>(bytes, n) {
                Ok(((content, size), m)) => Ok((KindView::Text { content, size }, m)),
                Err(text) => Err(text),
            },
            Err(text) => Err(text),
        }
    }

    open spec fn faithful(v: KindView) -> bool {
        match v {
            KindView::Freehand => true,
            KindView::Line => true,
            KindView::Rect => true,
            KindView::Ellipse => true,
            KindView::Text { content, size } => {
                <(String, Scalar) as Wire>::faithful((content, size))
            },
        }
    }

    proof fn round_trip(v: KindView, rest: Seq<u8>) {
        match v {
            KindView::Freehand => lemma_tag_round_trip(0, 5, rest),
            KindView::Line => lemma_tag_round_trip(1, 5, rest),
            KindView::Rect => lemma_tag_round_trip(2, 5, rest),
            KindView::Ellipse => lemma_tag_round_trip(3, 5, rest),
            KindView::Text { content, size } => {
                lemma_tagged_round_trip::<(String, Scalar)>(
                    4,
                    5,
                    (content, size),
                    rest,
                )
            },
        }
    }

    fn put(&self, out: &mut Vec<u8>) -> (r: Result<(), String>) {
        let ghost before = out@;
        match self {
            StrokeKind::Freehand => put_tag(out, 0)?,
            StrokeKind::Line => put_tag(out, 1)?,
            StrokeKind::Rect => put_tag(out, 2)?,
            StrokeKind::Ellipse => put_tag(out, 3)?,
            StrokeKind::Text { content, size } => {
                put_tag(out, 4)?;
                content.put(out)?;
                size.put(out)?;
            },
        }
        assert(out@ =~= before + Self::bytes(self.value()));
        Ok(())
    }

    fn get(bytes: &[u8]) -> (r: Result<(StrokeKind, usize), String>) {
        let (tag, n) = match get_tag(bytes, 5) {
            Ok(found) => found,
            Err(text) => return Err(text),
        };
        match tag {
            0 => Ok((StrokeKind::Freehand, n)),
            1 => Ok((StrokeKind::Line, n)),
            2 => Ok((StrokeKind::Rect, n)),
            3 => Ok((StrokeKind::Ellipse, n)),
            _ => match get_after::<(String, Scalar)>(bytes, n) {
                Ok(((content, size), m)) => {
                    Ok((StrokeKind::Text { content, size }, m))
                },
                Err(text) => Err(text),
            },
        }
    }
}

/// The parts of a stroke.
pub type StrokeFields = (u128, (u128, (Rgba, (Scalar, (StrokeKind, Vec<Point>)))));

impl Wire for Stroke {
    type Value = StrokeView;

    open spec fn value(&self) -> StrokeView {
        self@
    }

    open spec fn valid(&self) -> bool {
        true
    }

    open spec fn bytes(v: StrokeView) -> Seq<u8> {
        <StrokeFields as Wire>::bytes(
            (v.id, (v.client_id, (v.color, (v.width, (v.kind, v.points))))),
        )
    }

    open spec fn read(bytes: Seq<u8>) -> ReadView<StrokeView> {
        match <StrokeFields as Wire>::read(bytes) {
            Ok(((id, (client_id, (color, (width, (kind, points))))), n)) => Ok(
                (
                    StrokeView { id, client_id, color, width, kind, points },
                    n,
                ),
            ),
            Err(text) => Err(text),
        }
    }

    open spec fn faithful(v: StrokeView) -> bool {
        <StrokeFields as Wire>::faithful(
            (v.id, (v.client_id, (v.color, (v.width, (v.kind, v.points))))),
        )
    }

    proof fn round_trip(v: StrokeView, rest: Seq<u8>) {
        <StrokeFields as Wire>::round_trip(
            (v.id, (v.client_id, (v.color, (v.width, (v.kind, v.points))))),
            rest,
        );
    }

    fn put(&self, out: &mut Vec<u8>) -> (r: Result<(), String>) {
        let ghost before = out@;
        self.id.put(out)?;
        self.client_id.put(out)?;
        self.color.put(out)?;
        self.width.put(out)?;
        self.kind.put(out)?;
        self.points.put(out)?;
        assert(self.points.value() =~= self.points@);
        assert(out@ =~= before + Self::bytes(self.value()));
        Ok(())
    }

    fn get(bytes: &[u8]) -> (r: Result<(Stroke, usize), String>) {
        match <StrokeFields as Wire>::get(bytes) {
            Ok(((id, (client_id, (color, (width, (kind, points))))), n)) => {
                let r = Stroke { id, client_id, color, width, kind, points };
                assert(r.points.value() =~= r.points@);
                Ok((r, n))
            },
            Err(text) => Err(text),
        }
    }
}

impl Wire for StrokeOp {
    type Value = OpView;

    open spec fn value(&self) -> OpView {
        self@
    }

    open spec fn valid(&self) -> bool {
        true
    }

    open spec fn bytes(v: OpView) -> Seq<u8> {
        match v {
            OpView::Add { stroke, ts } => {
                number_bytes(0) + <(Stroke, Timestamp) as Wire>::bytes((stroke, ts))
            },
            OpView::Remove { id, ts } => {
                number_bytes(1) + <(u128, Timestamp) as Wire>::bytes((id, ts))
            },
        }
    }

    open spec fn read(bytes: Seq<u8>) -> ReadView<OpView> {
        match tag_read(bytes, 2) {
            Ok((0, n)) => match read_after::<(Stroke, Timestamp)>(bytes, n) {
                Ok(((stroke, ts), m)) => Ok((OpView::Add { stroke, ts }, m)),
                Err(text) => Err(text),
            },
            Ok((_, n)) => match read_after::<(u128, Timestamp)>(bytes, n) {
                Ok(((id, ts), m)) => Ok((OpView::Remove { id, ts }, m)),
                Err(text) => Err(text),
            },
            Err(text) => Err(text),
        }
    }

    open spec fn faithful(v: OpView) -> bool {
        match v {
            OpView::Add { stroke, ts } => <(Stroke, Timestamp) as Wire>::faithful((stroke, ts)),
            OpView::Remove { id, ts } => <(u128, Timestamp) as Wire>::faithful((id, ts)),
        }
    }

    proof fn round_trip(v: OpView, rest: Seq<u8>) {
        match v {
            OpView::Add { stroke, ts } => {
                lemma_tagged_round_trip::<(Stroke, Timestamp)>(
                    0,
                    2,
                    (stroke, ts),
                    rest,
                )
            },
            OpView::Remove { id, ts } => {
                lemma_tagged_round_trip::<(u128, Timestamp)>(
                    1,
                    2,
                    (id, ts),
                    rest,
                )
            },
        }
    }

    fn put(&self, out: &mut Vec<u8>) -> (r: Result<(), String>) {
        let ghost before = out@;
        match self {
            StrokeOp::Add { stroke, ts } => {
                put_tag(out, 0)?;
                stroke.put(out)?;
                ts.put(out)?;
            },
            StrokeOp::Remove { id, ts } => {
                put_tag(out, 1)?;
                id.put(out)?;
                ts.put(out)?;
            },
        }
        assert(out@ =~= before + Self::bytes(self.value()));
        Ok(())
    }

    fn get(bytes: &[u8]) -> (r: Result<(StrokeOp, usize), String>) {
        let (tag, n) = match get_tag(bytes, 2) {
            Ok(found) => found,
            Err(text) => return Err(text),
        };
        match tag {
            0 => match get_after::<(Stroke, Timestamp)>(bytes, n) {
                Ok(((stroke, ts), m)) => {
                    Ok((StrokeOp::Add { stroke, ts }, m))
                },
                Err(text) => Err(text),
            },
            _ => match get_after::<(u128, Timestamp)>(bytes, n) {
                Ok(((id, ts), m)) => {
                    Ok((StrokeOp::Remove { id, ts }, m))
                },
                Err(text) => Err(text),
            },
        }
    }
}

/// The parts of an add.
pub type AddedFields = (Timestamp, Stroke);

impl Wire for Added {
    type Value = AddedView;

    open spec fn value(&self) -> AddedView {
        self@
    }

    open spec fn valid(&self) -> bool {
        true
    }

    open spec fn bytes(v: AddedView) -> Seq<u8> {
        <AddedFields as Wire>::bytes((v.ts, v.stroke))
    }

    open spec fn read(bytes: Seq<u8>) -> ReadView<AddedView> {
        match <AddedFields as Wire>::read(bytes) {
            Ok(((ts, stroke), n)) => Ok(
                (
                    AddedView { ts, stroke },
                    n,
                ),
            ),
            Err(text) => Err(text),
        }
    }

    open spec fn faithful(v: AddedView) -> bool {
        <AddedFields as Wire>::faithful((v.ts, v.stroke))
    }

    proof fn round_trip(v: AddedView, rest: Seq<u8>) {
        <AddedFields as Wire>::round_trip((v.ts, v.stroke), rest);
    }

    fn put(&self, out: &mut Vec<u8>) -> (r: Result<(), String>) {
        let ghost before = out@;
        self.ts.put(out)?;
        self.stroke.put(out)?;
        assert(out@ =~= before + Self::bytes(self.value()));
        Ok(())
    }

    fn get(bytes: &[u8]) -> (r: Result<(Added, usize), String>) {
        match <AddedFields as Wire>::get(bytes) {
            Ok(((ts, stroke), n)) => {
                let r = Added { ts, stroke };
                Ok((r, n))
            },
            Err(text) => Err(text),
        }
    }
}

/// The parts of an element's state.
pub type StrokeEntryFields = (Option<Added>, Option<Timestamp>);

impl Wire for StrokeEntry {
    type Value = EntryView;

    open spec fn value(&self) -> EntryView {
        self@
    }

    open spec fn valid(&self) -> bool {
        true
    }

    open spec fn bytes(v: EntryView) -> Seq<u8> {
        <StrokeEntryFields as Wire>::bytes((v.add, v.removed))
    }

    open spec fn read(bytes: Seq<u8>) -> ReadView<EntryView> {
        match <StrokeEntryFields as Wire>::read(bytes) {
            Ok(((add, removed), n)) => Ok(
                (
                    EntryView { add, removed },
                    n,
                ),
            ),
            Err(text) => Err(text),
        }
    }

    open spec fn faithful(v: EntryView) -> bool {
        <StrokeEntryFields as Wire>::faithful((v.add, v.removed))
    }

    proof fn round_trip(v: EntryView, rest: Seq<u8>) {
        <StrokeEntryFields as Wire>::round_trip((v.add, v.removed), rest);
    }

    fn put(&self, out: &mut Vec<u8>) -> (r: Result<(), String>) {
        let ghost before = out@;
        self.add.put(out)?;
        self.removed.put(out)?;
        assert(out@ =~= before + Self::bytes(self.value()));
        Ok(())
    }

    fn get(bytes: &[u8]) -> (r: Result<(StrokeEntry, usize), String>) {
        match <StrokeEntryFields as Wire>::get(bytes) {
            Ok(((add, removed), n)) => {
                let r = StrokeEntry { add, removed };
                Ok((r, n))
            },
            Err(text) => Err(text),
        }
    }
}

/// The parts of a cursor.
pub type CursorStateFields = (u128, (String, (Rgba, (Option<Point>, bool))));

impl Wire for CursorState {
    type Value = CursorView;

    open spec fn value(&self) -> CursorView {
        self@
    }

    open spec fn valid(&self) -> bool {
        true
    }

    open spec fn bytes(v: CursorView) -> Seq<u8> {
        <CursorStateFields as Wire>::bytes(
            (v.client_id, (v.name, (v.color, (v.position, v.drawing)))),
        )
    }

    open spec fn read(bytes: Seq<u8>) -> ReadView<CursorView> {
        match <CursorStateFields as Wire>::read(bytes) {
            Ok(((client_id, (name, (color, (position, drawing)))), n)) => Ok(
                (
                    CursorView { client_id, name, color, position, drawing },
                    n,
                ),
            ),
            Err(text) => Err(text),
        }
    }

    open spec fn faithful(v: CursorView) -> bool {
        <CursorStateFields as Wire>::faithful(
            (v.client_id, (v.name, (v.color, (v.position, v.drawing)))),
        )
    }

    proof fn round_trip(v: CursorView, rest: Seq<u8>) {
        <CursorStateFields as Wire>::round_trip(
            (v.client_id, (v.name, (v.color, (v.position, v.drawing)))),
            rest,
        );
    }

    fn put(&self, out: &mut Vec<u8>) -> (r: Result<(), String>) {
        let ghost before = out@;
        self.client_id.put(out)?;
        self.name.put(out)?;
        self.color.put(out)?;
        self.position.put(out)?;
        self.drawing.put(out)?;
        assert(out@ =~= before + Self::bytes(self.value()));
        Ok(())
    }

    fn get(bytes: &[u8]) -> (r: Result<(CursorState, usize), String>) {
        match <CursorStateFields as Wire>::get(bytes) {
            Ok(((client_id, (name, (color, (position, drawing)))), n)) => {
                let r = CursorState { client_id, name, color, position, drawing };
                Ok((r, n))
            },
            Err(text) => Err(text),
        }
    }
}

/// The parts of a stroke chunk.
pub type StrokeDeltaFields = (u128, (u128, (Rgba, (Scalar, (StrokeKind, Vec<Point>)))));

impl Wire for StrokeDelta {
    type Value = DeltaView;

    open spec fn value(&self) -> DeltaView {
        self@
    }

    open spec fn valid(&self) -> bool {
        true
    }

    open spec fn bytes(v: DeltaView) -> Seq<u8> {
        <StrokeDeltaFields as Wire>::bytes(
            (v.stroke_id, (v.client_id, (v.color, (v.width, (v.kind, v.points))))),
        )
    }

    open spec fn read(bytes: Seq<u8>) -> ReadView<DeltaView> {
        match <StrokeDeltaFields as Wire>::read(bytes) {
            Ok(((stroke_id, (client_id, (color, (width, (kind, points))))), n)) => Ok(
                (
                    DeltaView { stroke_id, client_id, color, width, kind, points },
                    n,
                ),
            ),
            Err(text) => Err(text),
        }
    }

    open spec fn faithful(v: DeltaView) -> bool {
        <StrokeDeltaFields as Wire>::faithful(
            (v.stroke_id, (v.client_id, (v.color, (v.width, (v.kind, v.points))))),
        )
    }

    proof fn round_trip(v: DeltaView, rest: Seq<u8>) {
        <StrokeDeltaFields as Wire>::round_trip(
            (v.stroke_id, (v.client_id, (v.color, (v.width, (v.kind, v.points))))),
            rest,
        );
    }

    fn put(&self, out: &mut Vec<u8>) -> (r: Result<(), String>) {
        let ghost before = out@;
        self.stroke_id.put(out)?;
        self.client_id.put(out)?;
        self.color.put(out)?;
        self.width.put(out)?;
        self.kind.put(out)?;
        self.points.put(out)?;
        assert(self.points.value() =~= self.points@);
        assert(out@ =~= before + Self::bytes(self.value()));
        Ok(())
    }

    fn get(bytes: &[u8]) -> (r: Result<(StrokeDelta, usize), String>) {
        match <StrokeDeltaFields as Wire>::get(bytes) {
            Ok(((stroke_id, (client_id, (color, (width, (kind, points))))), n)) => {
                let r = StrokeDelta { stroke_id, client_id, color, width, kind, points };
                assert(r.points.value() =~= r.points@);
                Ok((r, n))
            },
            Err(text) => Err(text),
        }
    }
}

impl Wire for Rejection {
    type Value = Rejection;

    open spec fn value(&self) -> Rejection {
        *self
    }

    open spec fn valid(&self) -> bool {
        true
    }

    open spec fn bytes(v: Rejection) -> Seq<u8> {
        match v {
            Rejection::UnsupportedProtocol { server, client } => {
                number_bytes(0) + <(u16, u16) as Wire>::bytes((server, client))
            },
            Rejection::NotJoined => number_bytes(1),
            Rejection::RoomFull => number_bytes(2),
            Rejection::InvalidRoom => number_bytes(3),
            Rejection::Malformed => number_bytes(4),
        }
    }

    open spec fn read(bytes: Seq<u8>) -> ReadView<Rejection> {
        match tag_read(bytes, 5) {
            Ok((0, n)) => match read_after::<(u16, u16)>(bytes, n) {
                Ok(((server, client), m)) => {
                    Ok((Rejection::UnsupportedProtocol { server, client }, m))
                },
                Err(text) => Err(text),
            },
            Ok((1, n)) => Ok((Rejection::NotJoined, n)),
            Ok((2, n)) => Ok((Rejection::RoomFull, n)),
            Ok((3, n)) => Ok((Rejection::InvalidRoom, n)),
            Ok((_, n)) => Ok((Rejection::Malformed, n)),
            Err(text) => Err(text),
        }
    }

    open spec fn faithful(v: Rejection) -> bool {
        match v {
            Rejection::UnsupportedProtocol { server, client } => {
                <(u16, u16) as Wire>::faithful((server, client))
            },
            Rejection::NotJoined => true,
            Rejection::RoomFull => true,
            Rejection::InvalidRoom => true,
            Rejection::Malformed => true,
        }
    }

    proof fn round_trip(v: Rejection, rest: Seq<u8>) {
        match v {
            Rejection::UnsupportedProtocol { server, client } => {
                lemma_tagged_round_trip::<(u16, u16)>(
                    0,
                    5,
                    (server, client),
                    rest,
                )
            },
            Rejection::NotJoined => lemma_tag_round_trip(1, 5, rest),
            Rejection::RoomFull => lemma_tag_round_trip(2, 5, rest),
            Rejection::InvalidRoom => lemma_tag_round_trip(3, 5, rest),
            Rejection::Malformed => lemma_tag_round_trip(4, 5, rest),
        }
    }

    fn put(&self, out: &mut Vec<u8>) -> (r: Result<(), String>) {
        let ghost before = out@;
        match self {
            Rejection::UnsupportedProtocol { server, client } => {
                put_tag(out, 0)?;
                server.put(out)?;
                client.put(out)?;
            },
            Rejection::NotJoined => put_tag(out, 1)?,
            Rejection::RoomFull => put_tag(out, 2)?,
            Rejection::InvalidRoom => put_tag(out, 3)?,
            Rejection::Malformed => put_tag(out, 4)?,
        }
        assert(out@ =~= before + Self::bytes(self.value()));
        Ok(())
    }

    fn get(bytes: &[u8]) -> (r: Result<(Rejection, usize), String>) {
        let (tag, n) = match get_tag(bytes, 5) {
            Ok(found) => found,
            Err(text) => return Err(text),
        };
        match tag {
            0 => match get_after::<(u16, u16)>(bytes, n) {
                Ok(((server, client), m)) => {
                    Ok((Rejection::UnsupportedProtocol { server, client }, m))
                },
                Err(text) => Err(text),
            },
            1 => Ok((Rejection::NotJoined, n)),
            2 => Ok((Rejection::RoomFull, n)),
            3 => Ok((Rejection::InvalidRoom, n)),
            _ => Ok((Rejection::Malformed, n)),
        }
    }
}

/// The elements in ascending order of their ids, as a list of pairs.
impl Wire for StrokeSet {
    type Value = SetView;

    open spec fn value(&self) -> SetView {
        self@
    }

    open spec fn valid(&self) -> bool {
        self.wf()
    }

    open spec fn bytes(v: SetView) -> Seq<u8> {
        <Vec<(StrokeId, StrokeEntry)> as Wire>::bytes(sorted_pairs(v.entries))
    }

    open spec fn read(bytes: Seq<u8>) -> ReadView<SetView> {
        match <Vec<(StrokeId, StrokeEntry)> as Wire>::read(bytes) {
            Ok((pairs, n)) => Ok((SetView::load(pairs), n)),
            Err(text) => Err(text),
        }
    }

    open spec fn faithful(v: SetView) -> bool {
        &&& v.entries.dom().finite()
        &&& v.indexed()
        &&& <Vec<(StrokeId, StrokeEntry)> as Wire>::faithful(sorted_pairs(v.entries))
    }

    proof fn round_trip(v: SetView, rest: Seq<u8>) {
        law_snapshot_rebuilds_the_set(v);
        <Vec<(StrokeId, StrokeEntry)> as Wire>::round_trip(sorted_pairs(v.entries), rest);
    }

    fn put(&self, out: &mut Vec<u8>) -> (r: Result<(), String>) {
        let ghost before = out@;
        let entries = self.entries();
        let ghost all = sorted_pairs(self@.entries);
        put_all(out, encode_number(entries.len() as u64))?;
        let ghost head = out@;
        assert(head =~= head + items_bytes::<(StrokeId, StrokeEntry)>(all.take(0)));
        let mut i: usize = 0;
        while i < entries.len()
            invariant
                i <= entries.len(),
                all == entries@.map_values(|p: (StrokeId, &StrokeEntry)| (p.0, p.1@)),
                out@ == head + items_bytes::<(StrokeId, StrokeEntry)>(all.take(i as int)),
            decreases entries.len() - i,
        {
            entries[i].0.put(out)?;
            entries[i].1.put(out)?;
            proof {
                assert(all.take(i + 1).drop_last() =~= all.take(i as int));
                assert(all[i as int] == (entries@[i as int].0, entries@[i as int].1@));
                assert(out@ =~= head + items_bytes::<(StrokeId, StrokeEntry)>(all.take(i + 1)));
            }
            i += 1;
        }
        assert(all.take(i as int) =~= all);
        assert(out@ =~= before + Self::bytes(self.value()));
        Ok(())
    }

    fn get(bytes: &[u8]) -> (r: Result<(StrokeSet, usize), String>) {
        match <Vec<(StrokeId, StrokeEntry)> as Wire>::get(bytes) {
            Ok((pairs, n)) => {
                assert(values(pairs@) =~= entry_views(pairs@));
                Ok((StrokeSet::from_entries(pairs), n))
            },
            Err(text) => Err(text),
        }
    }
}

/// The parts of a greeting.
pub type HelloFields = (u16, (u128, (String, (String, Rgba))));

impl Wire for ClientMessage {
    type Value = ClientView;

    open spec fn value(&self) -> ClientView {
        self@
    }

    open spec fn valid(&self) -> bool {
        true
    }

    open spec fn bytes(v: ClientView) -> Seq<u8> {
        match v {
            ClientView::Hello { protocol, client_id, room, name, color } => {
                number_bytes(0)
                    + <HelloFields as Wire>::bytes((protocol, (client_id, (room, (name, color)))))
            },
            ClientView::Ops(ops) => number_bytes(1) + <Vec<StrokeOp> as Wire>::bytes(ops),
            ClientView::Cursor(cursor) => number_bytes(2) + <CursorState as Wire>::bytes(cursor),
            ClientView::StrokeDelta(delta) => number_bytes(3) + <StrokeDelta as Wire>::bytes(delta),
            ClientView::RequestSnapshot => number_bytes(4),
            ClientView::Ping(nonce) => number_bytes(5) + <u64 as Wire>::bytes(nonce),
        }
    }

    open spec fn read(bytes: Seq<u8>) -> ReadView<ClientView> {
        match tag_read(bytes, 6) {
            Ok((0, n)) => match read_after::<HelloFields>(bytes, n) {
                Ok(((protocol, (client_id, (room, (name, color)))), m)) => {
                    Ok((ClientView::Hello { protocol, client_id, room, name, color }, m))
                },
                Err(text) => Err(text),
            },
            Ok((1, n)) => match read_after::<Vec<StrokeOp>>(bytes, n) {
                Ok((ops, m)) => Ok((ClientView::Ops(ops), m)),
                Err(text) => Err(text),
            },
            Ok((2, n)) => match read_after::<CursorState>(bytes, n) {
                Ok((cursor, m)) => Ok((ClientView::Cursor(cursor), m)),
                Err(text) => Err(text),
            },
            Ok((3, n)) => match read_after::<StrokeDelta>(bytes, n) {
                Ok((delta, m)) => Ok((ClientView::StrokeDelta(delta), m)),
                Err(text) => Err(text),
            },
            Ok((4, n)) => Ok((ClientView::RequestSnapshot, n)),
            Ok((_, n)) => match read_after::<u64>(bytes, n) {
                Ok((nonce, m)) => Ok((ClientView::Ping(nonce), m)),
                Err(text) => Err(text),
            },
            Err(text) => Err(text),
        }
    }

    open spec fn faithful(v: ClientView) -> bool {
        match v {
            ClientView::Hello { protocol, client_id, room, name, color } => {
                <HelloFields as Wire>::faithful((protocol, (client_id, (room, (name, color)))))
            },
            ClientView::Ops(ops) => <Vec<StrokeOp> as Wire>::faithful(ops),
            ClientView::Cursor(cursor) => <CursorState as Wire>::faithful(cursor),
            ClientView::StrokeDelta(delta) => <StrokeDelta as Wire>::faithful(delta),
            ClientView::RequestSnapshot => true,
            ClientView::Ping(nonce) => <u64 as Wire>::faithful(nonce),
        }
    }

    proof fn round_trip(v: ClientView, rest: Seq<u8>) {
        match v {
            ClientView::Hello { protocol, client_id, room, name, color } => {
                lemma_tagged_round_trip::<HelloFields>(
                    0,
                    6,
                    (protocol, (client_id, (room, (name, color)))),
                    rest,
                )
            },
            ClientView::Ops(ops) => {
                lemma_tagged_round_trip::<Vec<StrokeOp>>(
                    1,
                    6,
                    ops,
                    rest,
                )
            },
            ClientView::Cursor(cursor) => {
                lemma_tagged_round_trip::<CursorState>(
                    2,
                    6,
                    cursor,
                    rest,
                )
            },
            ClientView::StrokeDelta(delta) => {
                lemma_tagged_round_trip::<StrokeDelta>(
                    3,
                    6,
                    delta,
                    rest,
                )
            },
            ClientView::RequestSnapshot => {
                lemma_tag_round_trip(4, 6, rest)
            },
            ClientView::Ping(nonce) => {
                lemma_tagged_round_trip::<u64>(5, 6, nonce, rest)
            },
        }
    }

    fn put(&self, out: &mut Vec<u8>) -> (r: Result<(), String>) {
        let ghost before = out@;
        match self {
            ClientMessage::Hello { protocol, client_id, room, name, color } => {
                put_tag(out, 0)?;
                protocol.put(out)?;
                client_id.put(out)?;
                room.put(out)?;
                name.put(out)?;
                color.put(out)?;
            },
            ClientMessage::Ops(ops) => {
                put_tag(out, 1)?;
                ops.put(out)?;
                assert(values(ops@) =~= op_views(ops@));
            },
            ClientMessage::Cursor(cursor) => {
                put_tag(out, 2)?;
                cursor.put(out)?;
            },
            ClientMessage::StrokeDelta(delta) => {
                put_tag(out, 3)?;
                delta.put(out)?;
            },
            ClientMessage::RequestSnapshot => put_tag(out, 4)?,
            ClientMessage::Ping(nonce) => {
                put_tag(out, 5)?;
                nonce.put(out)?;
            },
        }
        assert(out@ =~= before + Self::bytes(self.value()));
        Ok(())
    }

    fn get(bytes: &[u8]) -> (r: Result<(ClientMessage, usize), String>) {
        let (tag, n) = match get_tag(bytes, 6) {
            Ok(found) => found,
            Err(text) => return Err(text),
        };
        match tag {
            0 => match get_after::<HelloFields>(bytes, n) {
                Ok(((protocol, (client_id, (room, (name, color)))), m)) => {
                    Ok((ClientMessage::Hello { protocol, client_id, room, name, color }, m))
                },
                Err(text) => Err(text),
            },
            1 => match get_after::<Vec<StrokeOp>>(bytes, n) {
                Ok((ops, m)) => {
                    assert(values(ops@) =~= op_views(ops@));
                    Ok((ClientMessage::Ops(ops), m))
                },
                Err(text) => Err(text),
            },
            2 => match get_after::<CursorState>(bytes, n) {
                Ok((cursor, m)) => {
                    Ok((ClientMessage::Cursor(cursor), m))
                },
                Err(text) => Err(text),
            },
            3 => match get_after::<StrokeDelta>(bytes, n) {
                Ok((delta, m)) => {
                    Ok((ClientMessage::StrokeDelta(delta), m))
                },
                Err(text) => Err(text),
            },
            4 => Ok((ClientMessage::RequestSnapshot, n)),
            _ => match get_after::<u64>(bytes, n) {
                Ok((nonce, m)) => {
                    Ok((ClientMessage::Ping(nonce), m))
                },
                Err(text) => Err(text),
            },
        }
    }
}

/// The parts of a welcome.
pub type WelcomeFields = (u128, (String, (StrokeSet, Vec<CursorState>)));

impl Wire for ServerMessage {
    type Value = ServerView;

    open spec fn value(&self) -> ServerView {
        self@
    }

    open spec fn valid(&self) -> bool {
        self.wf()
    }

    open spec fn bytes(v: ServerView) -> Seq<u8> {
        match v {
            ServerView::Welcome { client_id, room, snapshot, peers } => {
                number_bytes(0)
                    + <WelcomeFields as Wire>::bytes((client_id, (room, (snapshot, peers))))
            },
            ServerView::Snapshot(set) => number_bytes(1) + <StrokeSet as Wire>::bytes(set),
            ServerView::Ops { from, ops } => {
                number_bytes(2) + <(u128, Vec<StrokeOp>) as Wire>::bytes((from, ops))
            },
            ServerView::Cursor(cursor) => number_bytes(3) + <CursorState as Wire>::bytes(cursor),
            ServerView::StrokeDelta(delta) => number_bytes(4) + <StrokeDelta as Wire>::bytes(delta),
            ServerView::PeerJoined(cursor) => {
                number_bytes(5) + <CursorState as Wire>::bytes(cursor)
            },
            ServerView::PeerLeft(id) => number_bytes(6) + <u128 as Wire>::bytes(id),
            ServerView::Rejected(why) => number_bytes(7) + <Rejection as Wire>::bytes(why),
            ServerView::Pong(nonce) => number_bytes(8) + <u64 as Wire>::bytes(nonce),
        }
    }

    open spec fn read(bytes: Seq<u8>) -> ReadView<ServerView> {
        match tag_read(bytes, 9) {
            Ok((0, n)) => match read_after::<WelcomeFields>(bytes, n) {
                Ok(((client_id, (room, (snapshot, peers))), m)) => {
                    Ok((ServerView::Welcome { client_id, room, snapshot, peers }, m))
                },
                Err(text) => Err(text),
            },
            Ok((1, n)) => match read_after::<StrokeSet>(bytes, n) {
                Ok((set, m)) => Ok((ServerView::Snapshot(set), m)),
                Err(text) => Err(text),
            },
            Ok((2, n)) => match read_after::<(u128, Vec<StrokeOp>)>(bytes, n) {
                Ok(((from, ops), m)) => Ok((ServerView::Ops { from, ops }, m)),
                Err(text) => Err(text),
            },
            Ok((3, n)) => match read_after::<CursorState>(bytes, n) {
                Ok((cursor, m)) => Ok((ServerView::Cursor(cursor), m)),
                Err(text) => Err(text),
            },
            Ok((4, n)) => match read_after::<StrokeDelta>(bytes, n) {
                Ok((delta, m)) => Ok((ServerView::StrokeDelta(delta), m)),
                Err(text) => Err(text),
            },
            Ok((5, n)) => match read_after::<CursorState>(bytes, n) {
                Ok((cursor, m)) => Ok((ServerView::PeerJoined(cursor), m)),
                Err(text) => Err(text),
            },
            Ok((6, n)) => match read_after::<u128>(bytes, n) {
                Ok((id, m)) => Ok((ServerView::PeerLeft(id), m)),
                Err(text) => Err(text),
            },
            Ok((7, n)) => match read_after::<Rejection>(bytes, n) {
                Ok((why, m)) => Ok((ServerView::Rejected(why), m)),
                Err(text) => Err(text),
            },
            Ok((_, n)) => match read_after::<u64>(bytes, n) {
                Ok((nonce, m)) => Ok((ServerView::Pong(nonce), m)),
                Err(text) => Err(text),
            },
            Err(text) => Err(text),
        }
    }

    open spec fn faithful(v: ServerView) -> bool {
        match v {
            ServerView::Welcome { client_id, room, snapshot, peers } => {
                <WelcomeFields as Wire>::faithful((client_id, (room, (snapshot, peers))))
            },
            ServerView::Snapshot(set) => <StrokeSet as Wire>::faithful(set),
            ServerView::Ops { from, ops } => <(u128, Vec<StrokeOp>) as Wire>::faithful((from, ops)),
            ServerView::Cursor(cursor) => <CursorState as Wire>::faithful(cursor),
            ServerView::StrokeDelta(delta) => <StrokeDelta as Wire>::faithful(delta),
            ServerView::PeerJoined(cursor) => <CursorState as Wire>::faithful(cursor),
            ServerView::PeerLeft(id) => <u128 as Wire>::faithful(id),
            ServerView::Rejected(why) => <Rejection as Wire>::faithful(why),
            ServerView::Pong(nonce) => <u64 as Wire>::faithful(nonce),
        }
    }

    proof fn round_trip(v: ServerView, rest: Seq<u8>) {
        match v {
            ServerView::Welcome { client_id, room, snapshot, peers } => {
                lemma_tagged_round_trip::<WelcomeFields>(
                    0,
                    9,
                    (client_id, (room, (snapshot, peers))),
                    rest,
                )
            },
            ServerView::Snapshot(set) => {
                lemma_tagged_round_trip::<StrokeSet>(1, 9, set, rest)
            },
            ServerView::Ops { from, ops } => {
                lemma_tagged_round_trip::<(u128, Vec<StrokeOp>)>(
                    2,
                    9,
                    (from, ops),
                    rest,
                )
            },
            ServerView::Cursor(cursor) => {
                lemma_tagged_round_trip::<CursorState>(
                    3,
                    9,
                    cursor,
                    rest,
                )
            },
            ServerView::StrokeDelta(delta) => {
                lemma_tagged_round_trip::<StrokeDelta>(
                    4,
                    9,
                    delta,
                    rest,
                )
            },
            ServerView::PeerJoined(cursor) => {
                lemma_tagged_round_trip::<CursorState>(
                    5,
                    9,
                    cursor,
                    rest,
                )
            },
            ServerView::PeerLeft(id) => {
                lemma_tagged_round_trip::<u128>(6, 9, id, rest)
            },
            ServerView::Rejected(why) => {
                lemma_tagged_round_trip::<Rejection>(7, 9, why, rest)
            },
            ServerView::Pong(nonce) => {
                lemma_tagged_round_trip::<u64>(8, 9, nonce, rest)
            },
        }
    }

    fn put(&self, out: &mut Vec<u8>) -> (r: Result<(), String>) {
        let ghost before = out@;
        match self {
            ServerMessage::Welcome { client_id, room, snapshot, peers } => {
                put_tag(out, 0)?;
                client_id.put(out)?;
                room.put(out)?;
                snapshot.put(out)?;
                peers.put(out)?;
                assert(values(peers@) =~= cursor_views(peers@));
            },
            ServerMessage::Snapshot(set) => {
                put_tag(out, 1)?;
                set.put(out)?;
            },
            ServerMessage::Ops { from, ops } => {
                put_tag(out, 2)?;
                from.put(out)?;
                ops.put(out)?;
                assert(values(ops@) =~= op_views(ops@));
            },
            ServerMessage::Cursor(cursor) => {
                put_tag(out, 3)?;
                cursor.put(out)?;
            },
            ServerMessage::StrokeDelta(delta) => {
                put_tag(out, 4)?;
                delta.put(out)?;
            },
            ServerMessage::PeerJoined(cursor) => {
                put_tag(out, 5)?;
                cursor.put(out)?;
            },
            ServerMessage::PeerLeft(id) => {
                put_tag(out, 6)?;
                id.put(out)?;
            },
            ServerMessage::Rejected(why) => {
                put_tag(out, 7)?;
                why.put(out)?;
            },
            ServerMessage::Pong(nonce) => {
                put_tag(out, 8)?;
                nonce.put(out)?;
            },
        }
        assert(out@ =~= before + Self::bytes(self.value()));
        Ok(())
    }

    fn get(bytes: &[u8]) -> (r: Result<(ServerMessage, usize), String>) {
        let (tag, n) = match get_tag(bytes, 9) {
            Ok(found) => found,
            Err(text) => return Err(text),
        };
        match tag {
            0 => match get_after::<WelcomeFields>(bytes, n) {
                Ok(((client_id, (room, (snapshot, peers))), m)) => {
                    assert(values(peers@) =~= cursor_views(peers@));
                    Ok((ServerMessage::Welcome { client_id, room, snapshot, peers }, m))
                },
                Err(text) => Err(text),
            },
            1 => match get_after::<StrokeSet>(bytes, n) {
                Ok((set, m)) => {
                    Ok((ServerMessage::Snapshot(set), m))
                },
                Err(text) => Err(text),
            },
            2 => match get_after::<(u128, Vec<StrokeOp>)>(bytes, n) {
                Ok(((from, ops), m)) => {
                    assert(values(ops@) =~= op_views(ops@));
                    Ok((ServerMessage::Ops { from, ops }, m))
                },
                Err(text) => Err(text),
            },
            3 => match get_after::<CursorState>(bytes, n) {
                Ok((cursor, m)) => {
                    Ok((ServerMessage::Cursor(cursor), m))
                },
                Err(text) => Err(text),
            },
            4 => match get_after::<StrokeDelta>(bytes, n) {
                Ok((delta, m)) => {
                    Ok((ServerMessage::StrokeDelta(delta), m))
                },
                Err(text) => Err(text),
            },
            5 => match get_after::<CursorState>(bytes, n) {
                Ok((cursor, m)) => {
                    Ok((ServerMessage::PeerJoined(cursor), m))
                },
                Err(text) => Err(text),
            },
            6 => match get_after::<u128>(bytes, n) {
                Ok((id, m)) => {
                    Ok((ServerMessage::PeerLeft(id), m))
                },
                Err(text) => Err(text),
            },
            7 => match get_after::<Rejection>(bytes, n) {
                Ok((why, m)) => {
                    Ok((ServerMessage::Rejected(why), m))
                },
                Err(text) => Err(text),
            },
            _ => match get_after::<u64>(bytes, n) {
                Ok((nonce, m)) => {
                    Ok((ServerMessage::Pong(nonce), m))
                },
                Err(text) => Err(text),
            },
        }
    }
}

} // verus!
