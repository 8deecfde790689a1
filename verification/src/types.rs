//! Plain domain types shared by every part of the whiteboard.

use vstd::prelude::*;

use crate::ids::{is_random_id, random_id};
use crate::text::{line_lengths, to_chars};

verus! {

/// Identifies a connected peer. Generated once per client session; the 128
/// bits of a UUID, most significant first.
pub type ClientId = u128;

/// Identifies a single stroke, globally unique across all peers.
pub type StrokeId = u128;

/// Rooms are addressed by a human-readable slug (e.g. `"design-review"`).
pub type RoomId = String;

/// A single-precision number, held as its IEEE 754 bit pattern: one sign bit
/// above thirty-one magnitude bits. The library carries and compares such
/// numbers; arithmetic on them is left to the caller.
#[derive(Clone, Copy, Debug)]
pub struct Scalar {
    pub bits: u32,
}

impl Scalar {
    /// The bits below the sign.
    pub open spec fn magnitude(self) -> int {
        self.bits as int % 0x8000_0000
    }

    pub open spec fn negative(self) -> bool {
        self.bits >= 0x8000_0000
    }

    pub open spec fn nan(self) -> bool {
        self.magnitude() > 0x7f80_0000
    }

    /// Position on the number line, up to a monotone rescaling. Both zeros
    /// sit at the origin.
    pub open spec fn position(self) -> int {
        if self.negative() {
            -self.magnitude()
        } else {
            self.magnitude()
        }
    }

    /// `self < other` as numbers; false whenever either is not a number.
    pub open spec fn below(self, other: Scalar) -> bool {
        !self.nan() && !other.nan() && self.position() < other.position()
    }

    /// `self == other` as numbers.
    pub open spec fn same_number(self, other: Scalar) -> bool {
        !self.nan() && !other.nan() && self.position() == other.position()
    }

    pub fn zero() -> (r: Scalar)
        ensures
            r.bits == 0,
    {
        Scalar { bits: 0 }
    }

    pub fn from_bits(bits: u32) -> (r: Scalar)
        ensures
            r.bits == bits,
    {
        Scalar { bits }
    }

    pub fn is_nan(self) -> (r: bool)
        ensures
            r == self.nan(),
    {
        self.bits % 0x8000_0000 > 0x7f80_0000
    }

    pub fn is_below(self, other: Scalar) -> (r: bool)
        ensures
            r == self.below(other),
    {
        if self.is_nan() || other.is_nan() {
            return false;
        }
        let a: i64 = (self.bits % 0x8000_0000) as i64;
        let b: i64 = (other.bits % 0x8000_0000) as i64;
        let a: i64 = if self.bits >= 0x8000_0000 { -a } else { a };
        let b: i64 = if other.bits >= 0x8000_0000 { -b } else { b };
        a < b
    }
}

impl PartialEq for Scalar {
    fn eq(&self, other: &Scalar) -> (r: bool) {
        !self.is_nan() && !other.is_nan() && !self.is_below(*other) && !other.is_below(*self)
    }
}

impl vstd::std_specs::cmp::PartialEqSpecImpl for Scalar {
    open spec fn obeys_eq_spec() -> bool {
        true
    }

    open spec fn eq_spec(&self, other: &Scalar) -> bool {
        self.same_number(*other)
    }
}

/// A point in *canvas* space (world coordinates, not screen pixels).
#[derive(Clone, Copy, Debug, PartialEq)]
pub struct Point {
    pub x: Scalar,
    pub y: Scalar,
}

impl Point {
    pub open spec fn origin() -> Point {
        Point { x: Scalar { bits: 0 }, y: Scalar { bits: 0 } }
    }

    pub fn zero() -> (r: Point)
        ensures
            r == Point::origin(),
    {
        Point { x: Scalar::zero(), y: Scalar::zero() }
    }

    pub fn new(x: Scalar, y: Scalar) -> (r: Point)
        ensures
            r.x == x,
            r.y == y,
    {
        Point { x, y }
    }
}

impl Default for Point {
    fn default() -> (r: Point)
        ensures
            r == Point::origin(),
    {
        Point::zero()
    }
}

/// 8-bit-per-channel colour with straight (non-premultiplied) alpha.
#[derive(Clone, Copy, Debug, PartialEq, Eq, Structural, Hash)]
pub struct Rgba {
    pub r: u8,
    pub g: u8,
    pub b: u8,
    pub a: u8,
}

impl Rgba {
    /// The opaque colour `0xRRGGBB`; bits above the lowest twenty-four do not
    /// matter.
    pub open spec fn of_hex(hex: int) -> Rgba {
        Rgba {
            r: (hex / 0x1_0000 % 0x100) as u8,
            g: (hex / 0x100 % 0x100) as u8,
            b: (hex % 0x100) as u8,
            a: 0xff,
        }
    }

    pub fn white() -> (c: Rgba)
        ensures
            c == (Rgba { r: 0xff, g: 0xff, b: 0xff, a: 0xff }),
    {
        Rgba::rgb(0xff, 0xff, 0xff)
    }

    pub fn black() -> (c: Rgba)
        ensures
            c == (Rgba { r: 0, g: 0, b: 0, a: 0xff }),
    {
        Rgba::rgb(0x00, 0x00, 0x00)
    }

    pub fn transparent() -> (c: Rgba)
        ensures
            c == (Rgba { r: 0, g: 0, b: 0, a: 0 }),
    {
        Rgba::new(0, 0, 0, 0)
    }

    pub fn new(r: u8, g: u8, b: u8, a: u8) -> (c: Rgba)
        ensures
            c == (Rgba { r, g, b, a }),
    {
        Rgba { r, g, b, a }
    }

    pub fn rgb(r: u8, g: u8, b: u8) -> (c: Rgba)
        ensures
            c == (Rgba { r, g, b, a: 0xff }),
    {
        Rgba { r, g, b, a: 0xff }
    }

    /// Build from a `0xRRGGBB` literal (fully opaque).
    pub fn from_hex(hex: u32) -> (c: Rgba)
        ensures
            c == Rgba::of_hex(hex as int),
    {
        proof {
            assert((hex >> 16) & 0xff == hex / 0x1_0000 % 0x100) by (bit_vector);
            assert((hex >> 8) & 0xff == hex / 0x100 % 0x100) by (bit_vector);
            assert(hex & 0xff == hex % 0x100) by (bit_vector);
        }
        Rgba::rgb(((hex >> 16) & 0xff) as u8, ((hex >> 8) & 0xff) as u8, (hex & 0xff) as u8)
    }

    pub fn with_alpha(self, a: u8) -> (c: Rgba)
        ensures
            c == (Rgba { r: self.r, g: self.g, b: self.b, a }),
    {
        Rgba { r: self.r, g: self.g, b: self.b, a }
    }

    pub fn to_array(self) -> (r: [u8; 4])
        ensures
            r@ == seq![self.r, self.g, self.b, self.a],
    {
        [self.r, self.g, self.b, self.a]
    }

    pub fn from_array(channels: [u8; 4]) -> (c: Rgba)
        ensures
            c == (Rgba { r: channels@[0], g: channels@[1], b: channels@[2], a: channels@[3] }),
    {
        Rgba { r: channels[0], g: channels[1], b: channels[2], a: channels[3] }
    }
}

impl Default for Rgba {
    fn default() -> (c: Rgba)
        ensures
            c == (Rgba { r: 0xff, g: 0xff, b: 0xff, a: 0xff }),
    {
        Rgba::white()
    }
}

/// What a stroke's `points` describe.
#[derive(Debug, PartialEq)]
pub enum StrokeKind {
    /// A freehand polyline through every point.
    Freehand,
    /// A straight segment from `points[0]` to `points[1]`.
    Line,
    /// An axis-aligned rectangle with opposite corners `points[0]`, `points[1]`.
    Rect,
    /// An ellipse inscribed in the rectangle with corners `points[0]`, `points[1]`.
    Ellipse,
    /// Text laid out from the top-left anchor `points[0]`. `size` is the
    /// line height in canvas units; the stroke's `width` is unused.
    Text { content: String, size: Scalar },
}

/// Mathematical counterpart of [`StrokeKind`].
pub enum KindView {
    Freehand,
    Line,
    Rect,
    Ellipse,
    Text { content: Seq<char>, size: Scalar },
}

impl KindView {
    pub open spec fn closed_outline(self) -> bool {
        self is Rect || self is Ellipse
    }

    pub open spec fn two_point(self) -> bool {
        self is Line || self is Rect || self is Ellipse
    }
}

impl View for StrokeKind {
    type V = KindView;

    open spec fn view(&self) -> KindView {
        match self {
            StrokeKind::Freehand => KindView::Freehand,
            StrokeKind::Line => KindView::Line,
            StrokeKind::Rect => KindView::Rect,
            StrokeKind::Ellipse => KindView::Ellipse,
            StrokeKind::Text { content, size } => KindView::Text { content: content@, size: *size },
        }
    }
}

impl Clone for StrokeKind {
    fn clone(&self) -> (r: StrokeKind)
        ensures
            r@ == self@,
    {
        match self {
            StrokeKind::Freehand => StrokeKind::Freehand,
            StrokeKind::Line => StrokeKind::Line,
            StrokeKind::Rect => StrokeKind::Rect,
            StrokeKind::Ellipse => StrokeKind::Ellipse,
            StrokeKind::Text { content, size } => StrokeKind::Text {
                content: content.clone(),
                size: *size,
            },
        }
    }
}

impl Default for StrokeKind {
    fn default() -> (r: StrokeKind)
        ensures
            r@ == KindView::Freehand,
    {
        StrokeKind::Freehand
    }
}

impl StrokeKind {
    /// Closed outlines (rect, ellipse) join their last point back to the first.
    pub fn is_closed(&self) -> (r: bool)
        ensures
            r == self@.closed_outline(),
    {
        matches!(self, StrokeKind::Rect | StrokeKind::Ellipse)
    }

    /// Two-point shapes are defined by a start and end corner rather than a
    /// point trail, so a live preview *replaces* its points instead of
    /// appending to them.
    pub fn is_two_point(&self) -> (r: bool)
        ensures
            r == self@.two_point(),
    {
        matches!(self, StrokeKind::Line | StrokeKind::Rect | StrokeKind::Ellipse)
    }

    pub fn is_freehand(&self) -> (r: bool)
        ensures
            r == (self@ == KindView::Freehand),
    {
        matches!(self, StrokeKind::Freehand)
    }
}

/// A completed stroke: freehand, a primitive shape or a text label.
/// Immutable once committed to the replicated set: the same `id` always
/// refers to the same payload, so replication only needs to reason about
/// *membership* (present / tombstoned), not content.
#[derive(Debug, PartialEq)]
pub struct Stroke {
    pub id: StrokeId,
    /// The peer that drew this stroke.
    pub client_id: ClientId,
    pub color: Rgba,
    /// Brush width in canvas units.
    pub width: Scalar,
    pub kind: StrokeKind,
    pub points: Vec<Point>,
}

/// Mathematical counterpart of [`Stroke`].
#[verifier::ext_equal]
pub struct StrokeView {
    pub id: StrokeId,
    pub client_id: ClientId,
    pub color: Rgba,
    pub width: Scalar,
    pub kind: KindView,
    pub points: Seq<Point>,
}

impl View for Stroke {
    type V = StrokeView;

    open spec fn view(&self) -> StrokeView {
        StrokeView {
            id: self.id,
            client_id: self.client_id,
            color: self.color,
            width: self.width,
            kind: self.kind@,
            points: self.points@,
        }
    }
}

impl Clone for Stroke {
    fn clone(&self) -> (r: Stroke)
        ensures
            r@ == self@,
    {
        let points = self.points.clone();
        assert(points@ =~= self.points@);
        Stroke {
            id: self.id,
            client_id: self.client_id,
            color: self.color,
            width: self.width,
            kind: self.kind.clone(),
            points,
        }
    }
}

/// The polyline that traces a stroke, or the ellipse still to be expanded
/// into `segments` chords between the corners `a` and `b`.
pub enum Outline {
    Path(Vec<Point>),
    Ellipse { a: Point, b: Point, segments: usize },
}

/// Mathematical counterpart of [`Outline`].
pub enum OutlineView {
    Path(Seq<Point>),
    Ellipse { a: Point, b: Point, segments: nat },
}

impl View for Outline {
    type V = OutlineView;

    open spec fn view(&self) -> OutlineView {
        match self {
            Outline::Path(points) => OutlineView::Path(points@),
            Outline::Ellipse { a, b, segments } => OutlineView::Ellipse {
                a: *a,
                b: *b,
                segments: *segments as nat,
            },
        }
    }
}

/// What a bounding box is computed from: a label's anchor and character grid,
/// or the corners of the point cloud with the brush width that pads it.
#[derive(Clone, Copy)]
pub enum Bounds {
    Label { anchor: Point, columns: usize, lines: usize, size: Scalar },
    Padded { min: Point, max: Point, width: Scalar },
}

/// The smaller of two numbers; the other one when one is not a number.
pub open spec fn min_scalar(a: Scalar, b: Scalar) -> Scalar {
    if a.nan() || b.below(a) {
        b
    } else {
        a
    }
}

/// The larger of two numbers; the other one when one is not a number.
pub open spec fn max_scalar(a: Scalar, b: Scalar) -> Scalar {
    if a.nan() || a.below(b) {
        b
    } else {
        a
    }
}

/// Componentwise least corner over a non-empty run of points, starting from
/// the first.
pub open spec fn least_corner(points: Seq<Point>) -> Point
    recommends
        points.len() > 0,
    decreases points.len(),
{
    if points.len() <= 1 {
        points[0]
    } else {
        let c = least_corner(points.drop_last());
        Point { x: min_scalar(c.x, points.last().x), y: min_scalar(c.y, points.last().y) }
    }
}

/// Componentwise greatest corner.
pub open spec fn greatest_corner(points: Seq<Point>) -> Point
    recommends
        points.len() > 0,
    decreases points.len(),
{
    if points.len() <= 1 {
        points[0]
    } else {
        let c = greatest_corner(points.drop_last());
        Point { x: max_scalar(c.x, points.last().x), y: max_scalar(c.y, points.last().y) }
    }
}

impl StrokeView {
    pub open spec fn outline(self, ellipse_segments: nat) -> OutlineView {
        let pts = self.points;
        match self.kind {
            KindView::Text { .. } => OutlineView::Path(Seq::empty()),
            KindView::Freehand => OutlineView::Path(pts),
            KindView::Line => OutlineView::Path(
                if pts.len() <= 2 {
                    pts
                } else {
                    pts.take(2)
                },
            ),
            KindView::Rect => OutlineView::Path(
                if pts.len() >= 2 {
                    seq![
                        pts[0],
                        Point { x: pts[1].x, y: pts[0].y },
                        pts[1],
                        Point { x: pts[0].x, y: pts[1].y },
                        pts[0],
                    ]
                } else {
                    pts
                },
            ),
            KindView::Ellipse => if pts.len() >= 2 {
                OutlineView::Ellipse {
                    a: pts[0],
                    b: pts[1],
                    segments: if ellipse_segments < 3 {
                        3
                    } else {
                        ellipse_segments
                    },
                }
            } else {
                OutlineView::Path(pts)
            },
        }
    }

    pub open spec fn bounds(self) -> Option<Bounds> {
        if self.points.len() == 0 {
            None
        } else {
            match self.kind {
                KindView::Text { content, size } => Some(
                    Bounds::Label {
                        anchor: self.points[0],
                        columns: crate::text::columns(content) as usize,
                        lines: crate::text::rows(content) as usize,
                        size,
                    },
                ),
                _ => Some(
                    Bounds::Padded {
                        min: least_corner(self.points),
                        max: greatest_corner(self.points),
                        width: self.width,
                    },
                ),
            }
        }
    }
}

impl Point {
    pub open spec fn same_place(self, other: Point) -> bool {
        self.x.same_number(other.x) && self.y.same_number(other.y)
    }
}

impl KindView {
    pub open spec fn same_as(self, other: KindView) -> bool {
        match (self, other) {
            (
                KindView::Text { content: c, size: s },
                KindView::Text { content: d, size: t },
            ) => c == d && s.same_number(t),
            (KindView::Text { .. }, _) => false,
            (_, KindView::Text { .. }) => false,
            _ => self == other,
        }
    }
}

impl StrokeView {
    /// The same stroke, with coordinates and sizes compared as numbers.
    pub open spec fn same_as(self, other: StrokeView) -> bool {
        &&& self.id == other.id
        &&& self.client_id == other.client_id
        &&& self.color == other.color
        &&& self.width.same_number(other.width)
        &&& self.kind.same_as(other.kind)
        &&& self.points.len() == other.points.len()
        &&& forall|i: int|
            0 <= i < self.points.len() ==> (#[trigger] self.points[i]).same_place(other.points[i])
    }
}

impl StrokeKind {
    /// Whether two kinds agree, sizes compared as numbers.
    pub fn matches(&self, other: &StrokeKind) -> (r: bool)
        ensures
            r == self@.same_as(other@),
    {
        match (self, other) {
            (
                StrokeKind::Text { content: c, size: s },
                StrokeKind::Text { content: d, size: t },
            ) => *c == *d && *s == *t,
            (StrokeKind::Freehand, StrokeKind::Freehand) => true,
            (StrokeKind::Line, StrokeKind::Line) => true,
            (StrokeKind::Rect, StrokeKind::Rect) => true,
            (StrokeKind::Ellipse, StrokeKind::Ellipse) => true,
            _ => false,
        }
    }
}

impl Stroke {
    /// Whether two strokes agree in every field, numbers compared as numbers.
    pub fn matches(&self, other: &Stroke) -> (r: bool)
        ensures
            r == self@.same_as(other@),
    {
        if self.id != other.id || self.client_id != other.client_id || self.color != other.color
            || self.points.len() != other.points.len() {
            return false;
        }
        if !(self.width == other.width) || !self.kind.matches(&other.kind) {
            return false;
        }
        let mut i: usize = 0;
        while i < self.points.len()
            invariant
                i <= self.points.len(),
                self.points.len() == other.points.len(),
                forall|j: int|
                    0 <= j < i ==> (#[trigger] self.points@[j]).same_place(other.points@[j]),
            decreases self.points.len() - i,
        {
            let p = self.points[i];
            let q = other.points[i];
            if !(p.x == q.x) || !(p.y == q.y) {
                assert(!self.points@[i as int].same_place(other.points@[i as int]));
                return false;
            }
            i += 1;
        }
        true
    }
}

/// A rectangle's outline ends where it began.
pub proof fn law_rect_outline_is_closed(s: StrokeView, segments: nat)
    requires
        s.kind is Rect,
        s.points.len() >= 2,
    ensures
        s.outline(segments) matches OutlineView::Path(path) && path.len() == 5 && path.first()
            == path.last(),
{
}

impl Stroke {
    /// A new, empty freehand stroke under a fresh random id.
    pub fn new(client_id: ClientId, color: Rgba, width: Scalar) -> (r: Stroke)
        ensures
            is_random_id(r.id),
            r@ == (StrokeView {
                id: r.id,
                client_id,
                color,
                width,
                kind: KindView::Freehand,
                points: Seq::empty(),
            }),
    {
        Stroke::with_id(random_id(), client_id, color, width)
    }

    /// A new, empty freehand stroke under a given id.
    pub fn with_id(id: StrokeId, client_id: ClientId, color: Rgba, width: Scalar) -> (r: Stroke)
        ensures
            r@ == (StrokeView {
                id,
                client_id,
                color,
                width,
                kind: KindView::Freehand,
                points: Seq::empty(),
            }),
    {
        Stroke { id, client_id, color, width, kind: StrokeKind::Freehand, points: Vec::new() }
    }

    pub fn with_kind(self, kind: StrokeKind) -> (r: Stroke)
        ensures
            r@ == (StrokeView { kind: kind@, ..self@ }),
    {
        Stroke {
            id: self.id,
            client_id: self.client_id,
            color: self.color,
            width: self.width,
            kind,
            points: self.points,
        }
    }

    /// The same stroke with `points` added at the end of its trail.
    pub fn with_points(self, points: Vec<Point>) -> (r: Stroke)
        ensures
            r@ == (StrokeView { points: self@.points + points@, ..self@ }),
    {
        let mut trail = self.points;
        let mut more = points;
        trail.append(&mut more);
        Stroke {
            id: self.id,
            client_id: self.client_id,
            color: self.color,
            width: self.width,
            kind: self.kind,
            points: trail,
        }
    }

    /// The label and line height of a text stroke.
    pub fn text(&self) -> (r: Option<(&str, Scalar)>)
        ensures
            match r {
                Some((content, size)) => self@.kind == (KindView::Text { content: content@, size }),
                None => !(self@.kind is Text),
            },
    {
        match &self.kind {
            StrokeKind::Text { content, size } => Some((content.as_str(), *size)),
            _ => None,
        }
    }

    /// The character grid that a text stroke's extent is estimated from: how
    /// many columns and lines it fills, at least one each, and the font size.
    pub fn text_extent(&self) -> (r: Option<(usize, usize, Scalar)>)
        ensures
            match r {
                Some((columns, lines, size)) => {
                    &&& self@.kind matches KindView::Text { content, size: s }
                    &&& s == size
                    &&& columns == crate::text::columns(content)
                    &&& lines == crate::text::rows(content)
                },
                None => !(self@.kind is Text),
            },
    {
        match self.text() {
            Some((content, size)) => {
                let lengths = line_lengths(&to_chars(content));
                let lines: usize = if lengths.len() == 0 { 1 } else { lengths.len() };
                let mut columns: usize = 1;
                let mut i: usize = 0;
                while i < lengths.len()
                    invariant
                        i <= lengths.len(),
                        columns == crate::text::widest(lengths@.take(i as int)),
                    decreases lengths.len() - i,
                {
                    assert(lengths@.take(i + 1).drop_last() =~= lengths@.take(i as int));
                    if lengths[i] > columns {
                        columns = lengths[i];
                    }
                    i += 1;
                }
                assert(lengths@.take(i as int) =~= lengths@);
                Some((columns, lines, size))
            },
            None => None,
        }
    }

    /// The polyline that traces this stroke: the points themselves for
    /// freehand and lines, the corners for a rectangle, at least three chords
    /// for an ellipse. Closed shapes repeat their first point at the end. Text
    /// has no outline. Shapes given fewer than two points collapse to whatever
    /// points they have.
    pub fn outline(&self, ellipse_segments: usize) -> (r: Outline)
        ensures
            r@ == self@.outline(ellipse_segments as nat),
    {
        let n = self.points.len();
        match &self.kind {
            StrokeKind::Text { .. } => Outline::Path(Vec::new()),
            StrokeKind::Rect if n >= 2 => {
                let a = self.points[0];
                let b = self.points[1];
                let mut path: Vec<Point> = Vec::new();
                path.push(a);
                path.push(Point::new(b.x, a.y));
                path.push(b);
                path.push(Point::new(a.x, b.y));
                path.push(a);
                assert(path@ =~= seq![
                    a,
                    Point { x: b.x, y: a.y },
                    b,
                    Point { x: a.x, y: b.y },
                    a,
                ]);
                Outline::Path(path)
            },
            StrokeKind::Ellipse if n >= 2 => {
                let segments: usize = if ellipse_segments < 3 { 3 } else { ellipse_segments };
                Outline::Ellipse { a: self.points[0], b: self.points[1], segments }
            },
            StrokeKind::Line if n > 2 => {
                let mut path: Vec<Point> = Vec::new();
                path.push(self.points[0]);
                path.push(self.points[1]);
                assert(path@ =~= self.points@.take(2));
                Outline::Path(path)
            },
            _ => {
                let path = self.points.clone();
                assert(path@ =~= self.points@);
                Outline::Path(path)
            },
        }
    }

    /// What the axis-aligned bounding box is computed from; `None` for a
    /// stroke without points.
    pub fn bounds(&self) -> (r: Option<Bounds>)
        ensures
            r == self@.bounds(),
    {
        if self.points.len() == 0 {
            return None;
        }
        let first = self.points[0];
        if let Some((columns, lines, size)) = self.text_extent() {
            return Some(Bounds::Label { anchor: first, columns, lines, size });
        }
        let mut min = first;
        let mut max = first;
        let mut i: usize = 1;
        assert(self.points@.take(1)[0] == first);
        while i < self.points.len()
            invariant
                1 <= i <= self.points.len(),
                min == least_corner(self.points@.take(i as int)),
                max == greatest_corner(self.points@.take(i as int)),
            decreases self.points.len() - i,
        {
            let p = self.points[i];
            assert(self.points@.take(i + 1).drop_last() =~= self.points@.take(i as int));
            min = Point::new(smaller(min.x, p.x), smaller(min.y, p.y));
            max = Point::new(larger(max.x, p.x), larger(max.y, p.y));
            i += 1;
        }
        assert(self.points@.take(i as int) =~= self.points@);
        Some(Bounds::Padded { min, max, width: self.width })
    }

    pub fn is_empty(&self) -> (r: bool)
        ensures
            r == (self@.points.len() == 0),
    {
        self.points.len() == 0
    }
}

pub(crate) fn smaller(a: Scalar, b: Scalar) -> (r: Scalar)
    ensures
        r == min_scalar(a, b),
{
    if a.is_nan() || b.is_below(a) {
        b
    } else {
        a
    }
}

pub(crate) fn larger(a: Scalar, b: Scalar) -> (r: Scalar)
    ensures
        r == max_scalar(a, b),
{
    if a.is_nan() || a.is_below(b) {
        b
    } else {
        a
    }
}

/// Ephemeral presence ("awareness") information for one peer.
///
/// This is *not* part of the replicated document: it is broadcast at high
/// frequency, never persisted, and the latest value simply wins.
#[derive(Debug, PartialEq)]
pub struct CursorState {
    pub client_id: ClientId,
    /// Display name shown next to the remote cursor.
    pub name: String,
    /// Colour used for the cursor glyph and name label.
    pub color: Rgba,
    /// Cursor position in canvas space; `None` while the pointer is off-canvas.
    pub position: Option<Point>,
    /// `true` while the peer is mid-stroke (lets remotes render a "drawing" hint).
    pub drawing: bool,
}

/// Mathematical counterpart of [`CursorState`].
#[verifier::ext_equal]
pub struct CursorView {
    pub client_id: ClientId,
    pub name: Seq<char>,
    pub color: Rgba,
    pub position: Option<Point>,
    pub drawing: bool,
}

impl View for CursorState {
    type V = CursorView;

    open spec fn view(&self) -> CursorView {
        CursorView {
            client_id: self.client_id,
            name: self.name@,
            color: self.color,
            position: self.position,
            drawing: self.drawing,
        }
    }
}

impl Clone for CursorState {
    fn clone(&self) -> (r: CursorState)
        ensures
            r@ == self@,
    {
        CursorState {
            client_id: self.client_id,
            name: self.name.clone(),
            color: self.color,
            position: self.position,
            drawing: self.drawing,
        }
    }
}

impl CursorView {
    /// The same presence, with positions compared as numbers.
    pub open spec fn same_as(self, other: CursorView) -> bool {
        &&& self.client_id == other.client_id
        &&& self.name == other.name
        &&& self.color == other.color
        &&& self.drawing == other.drawing
        &&& match (self.position, other.position) {
            (Some(p), Some(q)) => p.x.same_number(q.x) && p.y.same_number(q.y),
            (None, None) => true,
            _ => false,
        }
    }
}

impl CursorState {
    pub fn new(client_id: ClientId, name: String, color: Rgba) -> (r: CursorState)
        ensures
            r@ == (CursorView { client_id, name: name@, color, position: None, drawing: false }),
    {
        CursorState { client_id, name, color, position: None, drawing: false }
    }

    /// Whether two presence states agree in every field.
    pub fn matches(&self, other: &CursorState) -> (r: bool)
        ensures
            r == self@.same_as(other@),
    {
        self.client_id == other.client_id && self.name == other.name && self.color == other.color
            && self.drawing == other.drawing && match (self.position, other.position) {
            (Some(p), Some(q)) => p.x == q.x && p.y == q.y,
            (None, None) => true,
            _ => false,
        }
    }
}

} // verus!
