//! Smoothing, simplification and hit tests, with ordinary arithmetic.

use weavedraw::canvas::{hit_test, overlaps, TessCache};
use weavedraw::geom::{catmull_rom, simplify, CurveMath};
use weavedraw::types::{Bounds, Outline, Point, Rgba, Scalar, Stroke, StrokeKind};

fn scalar(x: f32) -> Scalar {
    Scalar::from_bits(x.to_bits())
}

fn float(s: Scalar) -> f32 {
    f32::from_bits(s.bits)
}

fn point(x: f32, y: f32) -> Point {
    Point::new(scalar(x), scalar(y))
}

fn pts(v: &[(f32, f32)]) -> Vec<Point> {
    v.iter().map(|&(x, y)| point(x, y)).collect()
}

fn dist(a: Point, b: Point) -> f32 {
    ((float(a.x) - float(b.x)).powi(2) + (float(a.y) - float(b.y)).powi(2)).sqrt()
}

/// Distance from `p` to the infinite line through `a` and `b` (or to `a` when
/// the two coincide).
fn perpendicular(p: Point, a: Point, b: Point) -> f32 {
    let dx = float(b.x) - float(a.x);
    let dy = float(b.y) - float(a.y);
    let len2 = dx * dx + dy * dy;
    if len2 <= f32::EPSILON {
        return dist(p, a);
    }
    ((float(p.x) - float(a.x)) * dy - (float(p.y) - float(a.y)) * dx).abs() / len2.sqrt()
}

fn knot(a: Point, b: Point) -> f32 {
    dist(a, b).sqrt().max(1e-4)
}

fn lerp(a: Point, b: Point, wa: f32, wb: f32) -> Point {
    point(
        float(a.x) * wa + float(b.x) * wb,
        float(a.y) * wa + float(b.y) * wb,
    )
}

/// A sample of a centripetal Catmull-Rom span.
fn sample(c: [Point; 4], s: usize, segments: usize) -> Point {
    let [p0, p1, p2, p3] = c;
    let t0 = 0.0;
    let t1 = t0 + knot(p0, p1);
    let t2 = t1 + knot(p1, p2);
    let t3 = t2 + knot(p2, p3);
    let t = t1 + (t2 - t1) * (s as f32 / segments as f32);
    let a1 = lerp(p0, p1, (t1 - t) / (t1 - t0), (t - t0) / (t1 - t0));
    let a2 = lerp(p1, p2, (t2 - t) / (t2 - t1), (t - t1) / (t2 - t1));
    let a3 = lerp(p2, p3, (t3 - t) / (t3 - t2), (t - t2) / (t3 - t2));
    let b1 = lerp(a1, a2, (t2 - t) / (t2 - t0), (t - t0) / (t2 - t0));
    let b2 = lerp(a2, a3, (t3 - t) / (t3 - t1), (t - t1) / (t3 - t1));
    lerp(b1, b2, (t2 - t) / (t2 - t1), (t - t1) / (t2 - t1))
}

fn curve(points: &[Point], subdivide: impl Fn(f32) -> usize) -> Vec<Point> {
    catmull_rom(
        &points.to_vec(),
        &CurveMath {
            length: |a: Point, b: Point| scalar(dist(a, b)),
            subdivide: |d: Scalar| subdivide(float(d)),
            sample,
        },
    )
}

fn thin(points: &[Point], epsilon: f32) -> Vec<Point> {
    simplify(&points.to_vec(), scalar(epsilon), |p: Point, a: Point, b: Point| {
        scalar(perpendicular(p, a, b))
    })
}

#[test]
fn catmull_rom_short_inputs_pass_through() {
    assert!(curve(&[], |_| 8).is_empty());
    let one = pts(&[(1.0, 2.0)]);
    assert_eq!(curve(&one, |_| 8), one);
    let two = pts(&[(0.0, 0.0), (10.0, 0.0)]);
    assert_eq!(curve(&two, |_| 8), two);
}

#[test]
fn catmull_rom_interpolates_control_points() {
    let ctrl = pts(&[(0.0, 0.0), (10.0, 5.0), (20.0, -5.0), (30.0, 0.0)]);
    let out = curve(&ctrl, |_| 4);
    // 3 spans of 4 segments + the first point.
    assert_eq!(out.len(), 13);
    for (i, c) in ctrl.iter().enumerate() {
        assert_eq!(out[i * 4], *c);
    }
    // Interior samples lie between neighbouring control points in x.
    assert!(float(out[1].x) > 0.0 && float(out[1].x) < 10.0);
}

#[test]
fn catmull_rom_no_subdivision_is_identity() {
    let ctrl = pts(&[(0.0, 0.0), (1.0, 1.0), (2.0, 0.0), (3.0, 1.0)]);
    assert_eq!(curve(&ctrl, |_| 1), ctrl);
    assert_eq!(curve(&ctrl, |_| 0), ctrl);
}

#[test]
fn catmull_rom_survives_duplicate_points() {
    let ctrl = pts(&[(0.0, 0.0), (0.0, 0.0), (5.0, 5.0), (5.0, 5.0), (10.0, 0.0)]);
    for p in curve(&ctrl, |_| 6) {
        assert!(float(p.x).is_finite() && float(p.y).is_finite());
    }
}

#[test]
fn smoothing_keeps_endpoints_and_densifies() {
    let ctrl = pts(&[(0.0, 0.0), (10.0, 10.0), (20.0, 0.0)]);
    let out = curve(&ctrl, |span| ((span / 3.0).ceil() as usize).clamp(1, 12));
    assert!(out.len() > ctrl.len());
    assert_eq!(out[0], ctrl[0]);
    assert_eq!(*out.last().unwrap(), ctrl[2]);
}

#[test]
fn spans_too_short_to_divide_stay_straight() {
    let ctrl = pts(&[(0.0, 0.0), (0.0, 0.0), (9.0, 0.0)]);
    assert_eq!(curve(&ctrl, |_| 3).len(), 5);
}

#[test]
fn simplify_drops_collinear_points() {
    let line = pts(&[
        (0.0, 0.0),
        (1.0, 0.01),
        (2.0, -0.01),
        (3.0, 0.0),
        (4.0, 0.0),
    ]);
    let out = thin(&line, 0.1);
    assert_eq!(out, pts(&[(0.0, 0.0), (4.0, 0.0)]));
}

#[test]
fn simplify_keeps_corners() {
    let corner = pts(&[
        (0.0, 0.0),
        (5.0, 0.0),
        (10.0, 0.0),
        (10.0, 5.0),
        (10.0, 10.0),
    ]);
    assert_eq!(
        thin(&corner, 0.5),
        pts(&[(0.0, 0.0), (10.0, 0.0), (10.0, 10.0)])
    );
}

#[test]
fn simplify_short_inputs_and_zero_epsilon_pass_through() {
    let two = pts(&[(0.0, 0.0), (1.0, 1.0)]);
    assert_eq!(thin(&two, 1.0), two);
    let three = pts(&[(0.0, 0.0), (1.0, 0.0), (2.0, 0.0)]);
    assert_eq!(thin(&three, 0.0), three);
    assert_eq!(thin(&three, -1.0), three);
}

#[test]
fn simplify_closed_loop_keeps_shape() {
    // First and last coincide: the "line" degenerates to a point, so the
    // farthest vertex is kept and the loop is preserved.
    let square = pts(&[
        (0.0, 0.0),
        (10.0, 0.0),
        (10.0, 10.0),
        (0.0, 10.0),
        (0.0, 0.0),
    ]);
    assert_eq!(thin(&square, 0.5), square);
}

#[test]
fn simplify_splits_at_the_first_of_the_farthest() {
    let peaks = pts(&[(0.0, 0.0), (1.0, 2.0), (2.0, 0.0), (3.0, 2.0), (4.0, 0.0)]);
    assert_eq!(thin(&peaks, 1.9), pts(&[(0.0, 0.0), (1.0, 2.0), (4.0, 0.0)]));
    assert_eq!(thin(&peaks, 2.0), pts(&[(0.0, 0.0), (4.0, 0.0)]));
}

// ---- hit tests --------------------------------------------------------------

fn segment_distance(p: Point, a: Point, b: Point) -> f32 {
    let (abx, aby) = (float(b.x) - float(a.x), float(b.y) - float(a.y));
    let len2 = abx * abx + aby * aby;
    if len2 <= f32::EPSILON {
        return dist(p, a);
    }
    let t = (((float(p.x) - float(a.x)) * abx + (float(p.y) - float(a.y)) * aby) / len2)
        .clamp(0.0, 1.0);
    dist(p, point(float(a.x) + abx * t, float(a.y) + aby * t))
}

fn hit(stroke: &Stroke, p: Point, tolerance: f32) -> bool {
    let reach = float(stroke.width) * 0.5 + tolerance;
    let (min, max) = match stroke.bounds() {
        Some(Bounds::Padded { min, max, width }) => {
            let pad = float(width) * 0.5;
            (
                (float(min.x) - pad, float(min.y) - pad),
                (float(max.x) + pad, float(max.y) + pad),
            )
        }
        Some(Bounds::Label {
            anchor,
            columns,
            lines,
            size,
        }) => (
            (float(anchor.x), float(anchor.y)),
            (
                float(anchor.x) + columns as f32 * float(size) * 0.55,
                float(anchor.y) + lines as f32 * float(size) * 1.25,
            ),
        ),
        None => return false,
    };
    let in_box = float(p.x) >= min.0 - tolerance
        && float(p.x) <= max.0 + tolerance
        && float(p.y) >= min.1 - tolerance
        && float(p.y) <= max.1 + tolerance;
    let path = match stroke.outline(64) {
        Outline::Path(points) => points,
        Outline::Ellipse { a, b, .. } => vec![a, b],
    };
    hit_test(&stroke.kind, &path, in_box, &|a: Point, b: Point| {
        segment_distance(p, a, b) <= reach
    })
}

#[test]
fn hit_test_respects_width_and_tolerance() {
    let s = Stroke::new(0, Rgba::black(), scalar(4.0))
        .with_points(vec![point(0.0, 0.0), point(10.0, 0.0)]);
    assert!(hit(&s, point(5.0, 1.9), 0.0));
    assert!(!hit(&s, point(5.0, 2.5), 0.0));
    assert!(hit(&s, point(5.0, 2.5), 1.0));
    assert!(!hit(&s, point(15.0, 0.0), 1.0));
    assert!(hit(&s, point(12.0, 0.0), 1.0));
}

#[test]
fn hit_test_single_point_stroke() {
    let s = Stroke::new(0, Rgba::black(), scalar(6.0)).with_points(vec![point(3.0, 3.0)]);
    assert!(hit(&s, point(5.0, 3.0), 0.0));
    assert!(!hit(&s, point(7.0, 3.0), 0.0));
}

#[test]
fn shapes_are_hit_on_their_outline_and_labels_anywhere() {
    let corners = vec![point(0.0, 0.0), point(10.0, 10.0)];
    let rect = Stroke::new(0, Rgba::black(), scalar(1.0))
        .with_kind(StrokeKind::Rect)
        .with_points(corners);
    assert!(hit(&rect, point(10.0, 5.0), 0.0));
    assert!(!hit(&rect, point(5.0, 5.0), 0.0));
    let label = Stroke::new(0, Rgba::black(), scalar(1.0))
        .with_kind(StrokeKind::Text {
            content: "hello".into(),
            size: scalar(10.0),
        })
        .with_points(vec![point(0.0, 0.0)]);
    assert!(hit(&label, point(13.0, 6.0), 0.0));
    assert!(!hit(&label, point(30.0, 6.0), 0.0));
    let empty = Stroke::new(0, Rgba::black(), scalar(1.0));
    assert!(!hit(&empty, point(0.0, 0.0), 5.0));
}

#[test]
fn rectangles_overlap_when_they_share_a_point() {
    let a = (point(0.0, 0.0), point(2.0, 2.0));
    let b = (point(2.0, 1.0), point(3.0, 3.0));
    let c = (point(2.5, 0.0), point(3.0, 3.0));
    assert!(overlaps(a, b) && overlaps(b, a));
    assert!(!overlaps(a, c) && !overlaps(c, a));
    let nan = (point(f32::NAN, 0.0), point(2.0, 2.0));
    assert!(!overlaps(a, nan));
}

#[test]
fn meshes_live_as_long_as_they_are_asked_for() {
    let mut cache: TessCache<&str> = TessCache::new();
    let (one, two) = (scalar(1.0), scalar(2.0));
    assert_eq!(cache.zoom(), scalar(0.0));
    assert!(cache.begin_frame(one, one));
    assert!(!cache.request(7));
    cache.store(7, "seven");
    assert!(!cache.request(8));
    cache.store(8, "eight");
    assert_eq!((cache.len(), cache.built_this_frame()), (2, 2));
    cache.end_frame();

    assert!(!cache.begin_frame(one, one), "same bucket");
    assert_eq!(cache.built_this_frame(), 0);
    assert!(cache.request(8));
    cache.end_frame();
    assert_eq!((cache.get(7), cache.get(8)), (None, Some(&"eight")));

    assert!(cache.begin_frame(two, one), "another zoom bucket");
    assert_eq!(cache.len(), 0);
    assert_eq!(cache.zoom(), two);
    assert!(cache.begin_frame(two, two), "another pixel density");
}

#[test]
fn simplifying_twice_changes_nothing_more() {
    let zigzag: Vec<Point> = (0..40)
        .map(|i| point(i as f32, ((i * 7) % 11) as f32 * 0.3))
        .collect();
    for epsilon in [0.0, 0.4, 1.0, 2.5, f32::NAN] {
        let once = thin(&zigzag, epsilon);
        assert_eq!(thin(&once, epsilon), once);
    }
}

#[test]
fn a_larger_epsilon_keeps_a_part_of_what_a_smaller_one_keeps() {
    let zigzag: Vec<Point> = (0..40)
        .map(|i| point(i as f32, ((i * 7) % 11) as f32 * 0.3))
        .collect();
    let mut finer = zigzag.clone();
    for epsilon in [-1.0, 0.3, 0.9, 1.8, 4.0] {
        let coarser = thin(&zigzag, epsilon);
        let mut rest = finer.iter();
        assert!(coarser.iter().all(|p| rest.any(|q| q == p)), "in the same order");
        finer = coarser;
    }
    assert_eq!(finer.len(), 2);
}
