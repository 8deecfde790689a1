//! Domain types.

use weavedraw::protocol::{ClientMessage, Rejection, ServerMessage, StrokeDelta};
use weavedraw::types::{
    Bounds, CursorState, Outline, Point, Rgba, Scalar, Stroke, StrokeKind,
};

/// Rough per-glyph advance and line height as a fraction of the font size.
const TEXT_ADVANCE: f32 = 0.55;
const TEXT_LINE_HEIGHT: f32 = 1.25;

fn scalar(x: f32) -> Scalar {
    Scalar::from_bits(x.to_bits())
}

fn float(s: Scalar) -> f32 {
    f32::from_bits(s.bits)
}

fn point(x: f32, y: f32) -> Point {
    Point::new(scalar(x), scalar(y))
}

fn shape(kind: StrokeKind) -> Stroke {
    Stroke::new(0, Rgba::black(), scalar(2.0))
        .with_kind(kind)
        .with_points(vec![point(10.0, 20.0), point(40.0, 60.0)])
}

/// The outline with an ellipse expanded into its chords.
fn path(stroke: &Stroke, segments: usize) -> Vec<(f32, f32)> {
    match stroke.outline(segments) {
        Outline::Path(points) => points.iter().map(|p| (float(p.x), float(p.y))).collect(),
        Outline::Ellipse { a, b, segments } => {
            let (ax, ay, bx, by) = (float(a.x), float(a.y), float(b.x), float(b.y));
            let (cx, cy) = ((ax + bx) * 0.5, (ay + by) * 0.5);
            let (rx, ry) = ((bx - ax).abs() * 0.5, (by - ay).abs() * 0.5);
            (0..=segments)
                .map(|i| {
                    let t = (i % segments) as f32 / segments as f32 * std::f32::consts::TAU;
                    (cx + rx * t.cos(), cy + ry * t.sin())
                })
                .collect()
        }
    }
}

/// The bounding box, padded by half the brush width.
fn bounds(stroke: &Stroke) -> Option<((f32, f32), (f32, f32))> {
    stroke.bounds().map(|b| match b {
        Bounds::Label {
            anchor,
            columns,
            lines,
            size,
        } => {
            let (x, y, size) = (float(anchor.x), float(anchor.y), float(size));
            (
                (x, y),
                (
                    x + columns as f32 * size * TEXT_ADVANCE,
                    y + lines as f32 * size * TEXT_LINE_HEIGHT,
                ),
            )
        }
        Bounds::Padded { min, max, width } => {
            let pad = float(width) * 0.5;
            (
                (float(min.x) - pad, float(min.y) - pad),
                (float(max.x) + pad, float(max.y) + pad),
            )
        }
    })
}

#[test]
fn rect_outline_is_closed_and_bounds_are_padded() {
    let s = shape(StrokeKind::Rect);
    let o = path(&s, 8);
    assert_eq!(o.len(), 5);
    assert_eq!(o[0], o[4]);
    assert_eq!(o[1], (40.0, 20.0));
    assert_eq!(bounds(&s), Some(((9.0, 19.0), (41.0, 61.0))));
}

#[test]
fn ellipse_outline_stays_inside_its_box() {
    let s = shape(StrokeKind::Ellipse);
    let o = path(&s, 32);
    assert_eq!(o.len(), 33);
    assert!(o
        .iter()
        .all(|p| (10.0..=40.0).contains(&p.0) && (20.0..=60.0).contains(&p.1)));
    assert!((o[0].0 - 40.0).abs() < 1e-4 && (o[0].1 - 40.0).abs() < 1e-4);
    assert_eq!(o[0], o[32], "the outline closes");
}

#[test]
fn shapes_with_one_point_do_not_panic() {
    for kind in [StrokeKind::Line, StrokeKind::Rect, StrokeKind::Ellipse] {
        let s = Stroke::new(0, Rgba::black(), scalar(2.0))
            .with_kind(kind)
            .with_points(vec![Point::zero()]);
        assert_eq!(path(&s, 8).len(), 1);
        assert!(s.bounds().is_some());
    }
}

#[test]
fn text_bounds_grow_with_content() {
    let mut s = Stroke::new(0, Rgba::black(), scalar(2.0))
        .with_kind(StrokeKind::Text {
            content: "hi".into(),
            size: scalar(10.0),
        })
        .with_points(vec![Point::zero()]);
    assert!(path(&s, 8).is_empty());
    let (_, small) = bounds(&s).unwrap();
    s.kind = StrokeKind::Text {
        content: "hello\nworld".into(),
        size: scalar(10.0),
    };
    let (_, big) = bounds(&s).unwrap();
    assert!(big.0 > small.0 && big.1 > small.1);
    assert_eq!(big, (27.5, 25.0));
}

#[test]
fn text_extents_count_lines_and_columns() {
    let extent = |text: &str| {
        Stroke::new(0, Rgba::black(), scalar(1.0))
            .with_kind(StrokeKind::Text {
                content: text.into(),
                size: scalar(2.0),
            })
            .text_extent()
            .map(|(columns, lines, _)| (columns, lines))
    };
    assert_eq!(extent(""), Some((1, 1)));
    assert_eq!(extent("\n"), Some((1, 1)));
    assert_eq!(extent("ab\r\nc\n"), Some((2, 2)));
    assert_eq!(extent("héé\n\nx"), Some((3, 3)));
    let plain = Stroke::new(0, Rgba::black(), scalar(1.0));
    assert_eq!(plain.text_extent(), None);
    assert!(plain.text().is_none() && plain.is_empty() && plain.bounds().is_none());
}

#[test]
fn ellipses_get_at_least_three_chords_and_lines_two_points() {
    assert!(matches!(
        shape(StrokeKind::Ellipse).outline(0),
        Outline::Ellipse { segments: 3, .. }
    ));
    let long = shape(StrokeKind::Line).with_points(vec![point(1.0, 1.0)]);
    assert_eq!(path(&long, 8), vec![(10.0, 20.0), (40.0, 60.0)]);
    assert_eq!(path(&shape(StrokeKind::Freehand), 8).len(), 2);
}

#[test]
fn bounds_take_the_extreme_coordinates() {
    let s = Stroke::new(0, Rgba::black(), scalar(0.0)).with_points(vec![
        point(3.0, -1.0),
        point(-2.5, 7.0),
        point(0.0, 0.5),
    ]);
    assert_eq!(bounds(&s), Some(((-2.5, -1.0), (3.0, 7.0))));
}

#[test]
fn scalars_compare_as_numbers() {
    let order = [
        f32::NEG_INFINITY,
        -2.0,
        -f32::MIN_POSITIVE,
        0.0,
        1e-40,
        1.0,
        f32::MAX,
        f32::INFINITY,
    ];
    for (i, a) in order.iter().enumerate() {
        for (j, b) in order.iter().enumerate() {
            assert_eq!(scalar(*a).is_below(scalar(*b)), i < j);
            assert_eq!(scalar(*a) == scalar(*b), i == j);
        }
    }
    assert!(scalar(0.0) == scalar(-0.0));
    let nan = scalar(f32::NAN);
    assert!(nan.is_nan() && nan != nan && !nan.is_below(scalar(1.0)));
}

#[test]
fn colours_are_taken_apart_and_put_together() {
    let c = Rgba::from_hex(0x89b4fa);
    assert_eq!(c, Rgba::rgb(0x89, 0xb4, 0xfa));
    assert_eq!(Rgba::from_hex(0xff01_0203), Rgba::rgb(1, 2, 3));
    assert_eq!(c.with_alpha(7).to_array(), [0x89, 0xb4, 0xfa, 7]);
    assert_eq!(Rgba::from_array([1, 2, 3, 4]), Rgba::new(1, 2, 3, 4));
    assert_eq!(Rgba::default(), Rgba::white());
    assert_eq!(Rgba::transparent().to_array(), [0, 0, 0, 0]);
}

#[test]
fn kinds_know_their_shape() {
    assert!(StrokeKind::Rect.is_closed() && StrokeKind::Ellipse.is_closed());
    assert!(!StrokeKind::Line.is_closed() && StrokeKind::Line.is_two_point());
    assert!(!StrokeKind::Freehand.is_two_point() && StrokeKind::default().is_freehand());
    assert_eq!(Point::default(), Point::zero());
}

#[test]
fn fresh_strokes_have_ids_of_their_own() {
    let a = Stroke::new(1, Rgba::black(), scalar(1.0));
    let b = Stroke::new(1, Rgba::black(), scalar(1.0));
    assert_ne!(a.id, b.id);
    assert_eq!(uuid::Uuid::from_u128(a.id).get_version_num(), 4);
    assert!(a.matches(&a.clone()) && !a.matches(&b));
    let c = CursorState::new(1, "x".into(), Rgba::black());
    assert!(c.matches(&c.clone()));
}

// ---- protocol ---------------------------------------------------------------

fn delta(kind: StrokeKind, points: Vec<Point>) -> StrokeDelta {
    StrokeDelta {
        stroke_id: 0,
        client_id: 0,
        color: Rgba::white(),
        width: scalar(1.0),
        kind,
        points,
    }
}

#[test]
fn freehand_deltas_append_and_shape_deltas_replace() {
    let mut preview = delta(StrokeKind::Freehand, vec![]).start_preview();
    delta(StrokeKind::Freehand, vec![Point::zero()]).apply_to(&mut preview);
    delta(StrokeKind::Freehand, vec![point(1.0, 1.0)]).apply_to(&mut preview);
    assert_eq!(preview.points.len(), 2);

    let mut preview = delta(StrokeKind::Rect, vec![]).start_preview();
    delta(StrokeKind::Rect, vec![Point::zero(), point(1.0, 1.0)]).apply_to(&mut preview);
    delta(StrokeKind::Rect, vec![Point::zero(), point(5.0, 5.0)]).apply_to(&mut preview);
    assert_eq!(preview.kind, StrokeKind::Rect);
    assert_eq!(preview.points, vec![Point::zero(), point(5.0, 5.0)]);
}

#[test]
fn rejections_explain_themselves() {
    let words = |r: Rejection| r.describe();
    assert_eq!(
        words(Rejection::UnsupportedProtocol {
            server: 2,
            client: 10
        }),
        "protocol mismatch: server v2, client v10"
    );
    assert_eq!(
        words(Rejection::NotJoined),
        "send Hello before any other message"
    );
    assert_eq!(words(Rejection::RoomFull), "room is full");
    assert_eq!(words(Rejection::InvalidRoom), "invalid room id");
    assert_eq!(words(Rejection::Malformed), "malformed message");
}

#[test]
fn only_presence_is_ephemeral() {
    let c = CursorState::new(1, "x".into(), Rgba::black());
    assert!(ClientMessage::Cursor(c.clone()).is_ephemeral());
    assert!(ClientMessage::StrokeDelta(delta(StrokeKind::Line, vec![])).is_ephemeral());
    assert!(!ClientMessage::Ops(vec![]).is_ephemeral());
    assert!(ServerMessage::Cursor(c.clone()).is_ephemeral());
    assert!(!ServerMessage::PeerJoined(c).is_ephemeral());
}
