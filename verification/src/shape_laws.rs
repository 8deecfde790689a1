//! Laws of shapes and of how they are painted: numbers and boxes, outlines,
//! hits, chunks and colours.

use std::hash::DefaultHasher;

use vstd::prelude::*;
use vstd::std_specs::hash::DefaultHasherAdditionalSpecFns;

use crate::canvas::{clear_of, overlapping, touches, CacheView};
use crate::gpu::{chunk, chunk_count, drawn, extent_of, header, planned};
use crate::ids::be_bytes;
use crate::palette::{mix, palette_colors, presence};
use crate::panel::gpu_words;
use crate::text::{columns, decimal, rows};
use crate::types::{
    greatest_corner, least_corner, Bounds, CursorView, KindView, OutlineView, Point, Rgba, Scalar,
    StrokeId, StrokeView,
};

verus! {

/// Numbers are ordered as the bits say: the positive ones by their bits, the
/// negative ones against them, every negative one below every positive one. The
/// two zeros are the same number, and what is not a number is neither below nor
/// above anything.
pub proof fn law_numbers_are_ordered(a: Scalar, b: Scalar)
    ensures
        a.nan() <==> 0x7f80_0000 < a.bits < 0x8000_0000 || 0xff80_0000 < a.bits,
        a.nan() || b.nan() ==> !a.below(b) && !a.same_number(b),
        !a.nan() && !b.nan() ==> {
            let (i, j) = (a.bits as int, b.bits as int);
            &&& i < 0x8000_0000 && j < 0x8000_0000 ==> (a.below(b) <==> i < j)
            &&& i >= 0x8000_0000 && j >= 0x8000_0000 ==> (a.below(b) <==> i > j)
            &&& i >= 0x8000_0000 && j < 0x8000_0000 ==> (a.below(b) <==> !(i == 0x8000_0000 && j
                == 0))
            &&& i < 0x8000_0000 && j >= 0x8000_0000 ==> !a.below(b)
            &&& a.same_number(b) <==> !a.below(b) && !b.below(a)
        },
{
}

/// The least and the greatest corner of a run of points: each coordinate is that
/// of one of the points, none of the points lies beyond it, and it is a number
/// where any of them is.
pub proof fn law_corners_enclose_the_points(points: Seq<Point>)
    requires
        points.len() > 0,
    ensures
        ({
            let (lo, hi) = (least_corner(points), greatest_corner(points));
            &&& forall|i: int|
                0 <= i < points.len() ==> !(#[trigger] points[i]).x.below(lo.x)
                    && !points[i].y.below(lo.y) && !hi.x.below(points[i].x) && !hi.y.below(
                    points[i].y,
                )
            &&& exists|i: int| 0 <= i < points.len() && (#[trigger] points[i]).x == lo.x
            &&& exists|i: int| 0 <= i < points.len() && (#[trigger] points[i]).y == lo.y
            &&& exists|i: int| 0 <= i < points.len() && (#[trigger] points[i]).x == hi.x
            &&& exists|i: int| 0 <= i < points.len() && (#[trigger] points[i]).y == hi.y
            &&& forall|i: int|
                0 <= i < points.len() ==> (lo.x.nan() || hi.x.nan() ==> (
                #[trigger] points[i]).x.nan()) && (lo.y.nan() || hi.y.nan() ==> points[i].y.nan())
        }),
    decreases points.len(),
{
    let last = points.len() - 1;
    if points.len() > 1 {
        let front = points.drop_last();
        law_corners_enclose_the_points(front);
        let (lo, hi) = (least_corner(points), greatest_corner(points));
        let (flo, fhi) = (least_corner(front), greatest_corner(front));
        assert(points[last] == points.last());
        assert forall|i: int| 0 <= i < points.len() implies !(#[trigger] points[i]).x.below(lo.x)
            && !points[i].y.below(lo.y) && !hi.x.below(points[i].x) && !hi.y.below(
            points[i].y,
        ) by {
            if i < last {
                assert(front[i] == points[i]);
            }
        }
        assert forall|i: int| 0 <= i < points.len() implies (lo.x.nan() || hi.x.nan() ==> (
        #[trigger] points[i]).x.nan()) && (lo.y.nan() || hi.y.nan() ==> points[i].y.nan()) by {
            if i < last {
                assert(front[i] == points[i]);
            }
        }
        if lo.x == flo.x {
            let i = choose|i: int| 0 <= i < front.len() && (#[trigger] front[i]).x == flo.x;
            assert(points[i].x == lo.x);
        }
        if lo.y == flo.y {
            let i = choose|i: int| 0 <= i < front.len() && (#[trigger] front[i]).y == flo.y;
            assert(points[i].y == lo.y);
        }
        if hi.x == fhi.x {
            let i = choose|i: int| 0 <= i < front.len() && (#[trigger] front[i]).x == fhi.x;
            assert(points[i].x == hi.x);
        }
        if hi.y == fhi.y {
            let i = choose|i: int| 0 <= i < front.len() && (#[trigger] front[i]).y == fhi.y;
            assert(points[i].y == hi.y);
        }
    } else {
        assert(points[0] == points.last());
    }
}

/// The outline of a stroke: its samples freehand, the first two points of a
/// line, a closed walk round the corners of a rectangle, the box and at least
/// three segments of an ellipse, and nothing for a label.
pub proof fn law_outlines(stroke: StrokeView, segments: nat)
    ensures
        ({
            let out = stroke.outline(segments);
            let pts = stroke.points;
            match stroke.kind {
                KindView::Freehand => out == OutlineView::Path(pts),
                KindView::Line => out is Path && out->Path_0.len() == (if pts.len() < 2 {
                    pts.len()
                } else {
                    2
                }) && forall|i: int| 0 <= i < out->Path_0.len() ==> #[trigger] out->Path_0[i] == pts[i],
                KindView::Rect => if pts.len() < 2 {
                    out == OutlineView::Path(pts)
                } else {
                    &&& out is Path
                    &&& out->Path_0.len() == 5
                    &&& out->Path_0[0] == pts[0]
                    &&& out->Path_0[1] == Point { x: pts[1].x, y: pts[0].y }
                    &&& out->Path_0[2] == pts[1]
                    &&& out->Path_0[3] == Point { x: pts[0].x, y: pts[1].y }
                    &&& out->Path_0[4] == pts[0]
                },
                KindView::Ellipse => if pts.len() < 2 {
                    out == OutlineView::Path(pts)
                } else {
                    &&& out is Ellipse
                    &&& out->a == pts[0]
                    &&& out->b == pts[1]
                    &&& out->segments >= 3
                    &&& segments >= 3 ==> out->segments == segments
                    &&& segments < 3 ==> out->segments == 3
                },
                KindView::Text { .. } => out is Path && out->Path_0.len() == 0,
            }
        }),
{
}

/// The box of a stroke: that of its points, padded by its width, or the grid of
/// characters of a label. Without points there is none.
pub proof fn law_boxes(stroke: StrokeView)
    ensures
        stroke.bounds() is None <==> stroke.points.len() == 0,
        stroke.points.len() > 0 && !(stroke.kind is Text) ==> stroke.bounds()
            == Some(Bounds::Padded {
            min: least_corner(stroke.points),
            max: greatest_corner(stroke.points),
            width: stroke.width,
        }),
        stroke.points.len() > 0 && stroke.kind is Text ==> stroke.bounds() is Some
            && stroke.bounds()->0 is Label && stroke.bounds()->0->anchor == stroke.points[0]
            && stroke.bounds()->0->Label_size == stroke.kind->size
            && stroke.bounds()->0->columns == columns(
            stroke.kind->content,
        ) as usize && stroke.bounds()->0->lines == rows(stroke.kind->content) as usize,
{
}

/// Two strokes are the same where every part of them is, numbers compared as
/// numbers.
pub proof fn law_same_strokes(a: StrokeView, b: StrokeView)
    ensures
        a.same_as(b) <==> {
            &&& a.id == b.id
            &&& a.client_id == b.client_id
            &&& a.color == b.color
            &&& a.width.same_number(b.width)
            &&& a.points.len() == b.points.len()
            &&& forall|i: int|
                0 <= i < a.points.len() ==> (#[trigger] a.points[i]).x.same_number(b.points[i].x)
                    && a.points[i].y.same_number(b.points[i].y)
            &&& match a.kind {
                KindView::Text { content, size } => b.kind is Text && b.kind->content == content
                    && size.same_number(b.kind->size),
                _ => b.kind == a.kind,
            }
        },
{
    if a.same_as(b) {
        assert forall|i: int| 0 <= i < a.points.len() implies (
        #[trigger] a.points[i]).x.same_number(b.points[i].x) && a.points[i].y.same_number(
            b.points[i].y,
        ) by {
            assert(a.points[i].same_place(b.points[i]));
        }
    }
}

/// Two cursors are the same where every part of them is.
pub proof fn law_same_cursors(a: CursorView, b: CursorView)
    ensures
        a.same_as(b) <==> {
            &&& a.client_id == b.client_id
            &&& a.name == b.name
            &&& a.color == b.color
            &&& a.drawing == b.drawing
            &&& a.position is Some <==> b.position is Some
            &&& a.position is Some ==> a.position->0.x.same_number(b.position->0.x)
                && a.position->0.y.same_number(b.position->0.y)
        },
{
}

/// The colour that a number spells, opaque.
pub proof fn law_colours_of_hex(hex: int)
    requires
        0 <= hex < 0x100_0000,
    ensures
        Rgba::of_hex(hex).r * 0x1_0000 + Rgba::of_hex(hex).g * 0x100 + Rgba::of_hex(hex).b == hex,
        Rgba::of_hex(hex).a == 255,
{
}

/// The colour of a peer is one of the palette's, neither the first nor the last,
/// and depends on nothing but the peer's id.
pub proof fn law_presence_colours(id: u128)
    ensures
        ({
            let h = mix(be_bytes(id as nat, 16)) % 8;
            &&& 0 <= h < 8
            &&& presence(id) == palette_colors()[1 + h]
        }),
        palette_colors().len() == 10,
        forall|bytes: Seq<u8>, b: u8|
            mix(#[trigger] bytes.push(b)) == (31 * mix(bytes) + b) % 0x1_0000_0000,
        mix(Seq::empty()) == 0,
{
    assert forall|bytes: Seq<u8>, b: u8| mix(#[trigger] bytes.push(b)) == (31 * mix(bytes) + b)
        % 0x1_0000_0000 by {
        assert(bytes.push(b).drop_last() =~= bytes);
    }
}

/// The palette, colour by colour.
pub proof fn law_palette()
    ensures
        ({
            let p = palette_colors();
            &&& p.len() == 10
            &&& p[0] == Rgba { r: 0x1e, g: 0x1e, b: 0x2e, a: 255 }
            &&& p[1] == Rgba { r: 0xf3, g: 0x8b, b: 0xa8, a: 255 }
            &&& p[2] == Rgba { r: 0xfa, g: 0xb3, b: 0x87, a: 255 }
            &&& p[3] == Rgba { r: 0xf9, g: 0xe2, b: 0xaf, a: 255 }
            &&& p[4] == Rgba { r: 0xa6, g: 0xe3, b: 0xa1, a: 255 }
            &&& p[5] == Rgba { r: 0x94, g: 0xe2, b: 0xd5, a: 255 }
            &&& p[6] == Rgba { r: 0x89, g: 0xb4, b: 0xfa, a: 255 }
            &&& p[7] == Rgba { r: 0xcb, g: 0xa6, b: 0xf7, a: 255 }
            &&& p[8] == Rgba { r: 0xf5, g: 0xc2, b: 0xe7, a: 255 }
            &&& p[9] == Rgba { r: 255, g: 255, b: 255, a: 255 }
        }),
{
}

/// Two boxes overlap exactly where some point lies in both.
pub proof fn law_overlapping_boxes_share_a_point(a: (Point, Point), b: (Point, Point))
    requires
        !a.0.x.nan() && !a.0.y.nan() && !a.1.x.nan() && !a.1.y.nan(),
        !b.0.x.nan() && !b.0.y.nan() && !b.1.x.nan() && !b.1.y.nan(),
        !a.1.x.below(a.0.x) && !a.1.y.below(a.0.y),
        !b.1.x.below(b.0.x) && !b.1.y.below(b.0.y),
    ensures
        overlapping(a, b) <==> exists|p: Point| #[trigger] lies_in(p, a) && lies_in(p, b),
{
    if overlapping(a, b) {
        let p = Point {
            x: if a.0.x.below(b.0.x) {
                b.0.x
            } else {
                a.0.x
            },
            y: if a.0.y.below(b.0.y) {
                b.0.y
            } else {
                a.0.y
            },
        };
        assert(lies_in(p, a) && lies_in(p, b));
    }
}

/// A point with numbers for coordinates that is not outside a box.
pub open spec fn lies_in(p: Point, area: (Point, Point)) -> bool {
    &&& !p.x.nan() && !p.y.nan()
    &&& !p.x.below(area.0.x) && !area.1.x.below(p.x)
    &&& !p.y.below(area.0.y) && !area.1.y.below(p.y)
}

/// The pointer is on a stroke where it is in the stroke's box and near a segment
/// of its outline, or near a lone point; on a label wherever it is in the box.
pub proof fn law_hits<F: Fn(Point, Point) -> bool>(
    kind: KindView,
    path: Seq<Point>,
    in_box: bool,
    near: F,
    within: spec_fn(Point, Point) -> bool,
    hit: bool,
)
    requires
        touches(kind, path, in_box, near, hit),
        forall|p: Point, q: Point, answer: bool| #[trigger]
            call_ensures(near, (p, q), answer) ==> answer == within(p, q),
    ensures
        hit <==> in_box && (kind is Text || (path.len() == 1 && within(path[0], path[0])) || exists|
            i: int,
        |
            0 <= i < path.len() - 1 && within(#[trigger] path[i], path[i + 1])),
{
    if in_box && !(kind is Text) && path.len() != 1 {
        if hit {
            let i = choose|i: int|
                0 <= i < path.len() - 1 && call_ensures(
                    near,
                    (#[trigger] path[i], path[i + 1]),
                    true,
                ) && clear_of(path, near, i);
            assert(within(path[i], path[i + 1]));
        } else {
            assert forall|i: int| 0 <= i < path.len() - 1 implies !within(
                #[trigger] path[i],
                path[i + 1],
            ) by {
                assert(call_ensures(near, (path[i], path[i + 1]), false));
            }
        }
    }
}

/// Meshes are kept for the zoom and the density they were built at, and for no
/// other.
pub proof fn law_meshes_are_for_one_scale<M>(cache: CacheView<M>, zoom: Scalar, density: Scalar)
    ensures
        cache.scale is None ==> !cache.built_at(zoom, density),
        cache.scale matches Some((z, d)) ==> (cache.built_at(zoom, density) <==> z.same_number(zoom)
            && d.same_number(density)),
{
}

/// Strokes go to the GPU in chunks of sixty-four, in draw order: every stroke is
/// in exactly one, and all but the last are full.
pub proof fn law_chunks_hold_every_stroke(ids: Seq<StrokeId>, i: int, c: int)
    requires
        0 <= i < ids.len(),
        0 <= c < chunk_count(ids.len()),
    ensures
        i / 64 < chunk_count(ids.len()),
        chunk(ids, i / 64).len() > i % 64,
        chunk(ids, i / 64)[i % 64] == ids[i],
        64 * (chunk_count(ids.len()) - 1) < ids.len() <= 64 * chunk_count(ids.len()),
        chunk(ids, c).len() == (if 64 * (c + 1) <= ids.len() {
            64
        } else {
            ids.len() - 64 * c
        }),
        forall|k: int| 0 <= k < chunk(ids, c).len() ==> #[trigger] chunk(ids, c)[k] == ids[64 * c + k],
        chunk_count(0) == 0,
{
}

/// A chunk's buffers are filled anew exactly where they do not hold its strokes
/// yet, by the hash of the strokes' ids.
pub proof fn law_chunks_are_uploaded_when_they_change(keys: Seq<u64>, ids: Seq<StrokeId>, c: int)
    requires
        0 <= c < chunk_count(ids.len()),
        ids.len() <= usize::MAX,
    ensures
        ({
            let plan = planned(keys, ids, c);
            let end = if 64 * (c + 1) <= ids.len() {
                64 * (c + 1)
            } else {
                ids.len() as int
            };
            &&& plan.start == 64 * c
            &&& plan.end == end
            &&& plan.key == DefaultHasher::spec_finish(
                ids.subrange(64 * c, end).map_values(|id: StrokeId| be_bytes(id as nat, 16)),
            )
            &&& plan.upload <==> !(c < keys.len() && keys[c] == plan.key)
        }),
{
    assert(chunk(ids, c) =~= ids.subrange(
        64 * c,
        if 64 * (c + 1) <= ids.len() {
            64 * (c + 1)
        } else {
            ids.len() as int
        },
    ));
}

/// The GPU draws all strokes but labels, in draw order.
pub proof fn law_labels_are_not_for_the_gpu(strokes: Seq<StrokeView>)
    ensures
        drawn(strokes) == strokes.filter(|s: StrokeView| !(s.kind is Text)).map_values(
            |s: StrokeView| s.id,
        ),
    decreases strokes.len(),
{
    reveal(Seq::filter);
    let keep = |s: StrokeView| !(s.kind is Text);
    let name = |s: StrokeView| s.id;
    if strokes.len() > 0 {
        let front = strokes.drop_last();
        law_labels_are_not_for_the_gpu(front);
        if keep(strokes.last()) {
            assert(strokes.filter(keep) == front.filter(keep).push(strokes.last()));
            assert(drawn(strokes) =~= strokes.filter(keep).map_values(name));
        } else {
            assert(strokes.filter(keep) == front.filter(keep));
        }
    } else {
        assert(drawn(strokes) =~= strokes.filter(keep).map_values(name));
    }
}

/// A chunk starts at the least corner of its first stroke and encloses the boxes
/// of all of them.
pub proof fn law_chunks_enclose_their_strokes(boxes: Seq<(Point, Point)>)
    ensures
        extent_of(boxes) is None <==> boxes.len() == 0,
        extent_of(boxes) matches Some((origin, (lo, hi))) ==> {
            &&& origin == boxes[0].0
            &&& forall|i: int|
                0 <= i < boxes.len() ==> !(#[trigger] boxes[i]).0.x.below(lo.x)
                    && !boxes[i].0.y.below(lo.y) && !hi.x.below(boxes[i].1.x) && !hi.y.below(
                    boxes[i].1.y,
                )
            &&& exists|i: int| 0 <= i < boxes.len() && (#[trigger] boxes[i]).0.x == lo.x
            &&& exists|i: int| 0 <= i < boxes.len() && (#[trigger] boxes[i]).0.y == lo.y
            &&& exists|i: int| 0 <= i < boxes.len() && (#[trigger] boxes[i]).1.x == hi.x
            &&& exists|i: int| 0 <= i < boxes.len() && (#[trigger] boxes[i]).1.y == hi.y
        },
{
    if boxes.len() > 0 {
        let mins = boxes.map_values(|b: (Point, Point)| b.0);
        let maxs = boxes.map_values(|b: (Point, Point)| b.1);
        law_corners_enclose_the_points(mins);
        law_corners_enclose_the_points(maxs);
        let (lo, hi) = (least_corner(mins), greatest_corner(maxs));
        assert forall|i: int| 0 <= i < boxes.len() implies !(#[trigger] boxes[i]).0.x.below(lo.x)
            && !boxes[i].0.y.below(lo.y) && !hi.x.below(boxes[i].1.x) && !hi.y.below(
            boxes[i].1.y,
        ) by {
            assert(mins[i] == boxes[i].0 && maxs[i] == boxes[i].1);
        }
        let a = choose|i: int| 0 <= i < mins.len() && (#[trigger] mins[i]).x == lo.x;
        let b = choose|i: int| 0 <= i < mins.len() && (#[trigger] mins[i]).y == lo.y;
        let c = choose|i: int| 0 <= i < maxs.len() && (#[trigger] maxs[i]).x == hi.x;
        let d = choose|i: int| 0 <= i < maxs.len() && (#[trigger] maxs[i]).y == hi.y;
        assert(boxes[a].0.x == lo.x && boxes[b].0.y == lo.y);
        assert(boxes[c].1.x == hi.x && boxes[d].1.y == hi.y);
    }
}

/// The lines before a shader's source begin with the version, name the shader
/// interface, and ask for precision where OpenGL is an embedded one.
pub proof fn law_shader_headers(declaration: Seq<char>)
    ensures
        header(declaration, true, false) == declaration + "#define NEW_SHADER_INTERFACE 1\n"@
            + "#define I in\n#define O out\n"@,
        header(declaration, false, false) == declaration + "#define NEW_SHADER_INTERFACE 0\n"@
            + "#define I attribute\n#define O varying\n"@,
        header(declaration, true, true) == header(declaration, true, false)
            + "precision highp float;\n"@,
        header(declaration, false, true) == header(declaration, false, false)
            + "precision highp float;\n"@,
{
    assert(header(declaration, true, false) =~= declaration
        + "#define NEW_SHADER_INTERFACE 1\n"@ + "#define I in\n#define O out\n"@);
    assert(header(declaration, false, false) =~= declaration
        + "#define NEW_SHADER_INTERFACE 0\n"@ + "#define I attribute\n#define O varying\n"@);
    assert(header(declaration, true, true) =~= header(declaration, true, false)
        + "precision highp float;\n"@);
    assert(header(declaration, false, true) =~= header(declaration, false, false)
        + "precision highp float;\n"@);
}

/// Lines, rectangles and ellipses are drawn by two points; of these all but
/// lines are closed.
pub proof fn law_shapes(kind: KindView)
    ensures
        kind.two_point() <==> !(kind is Freehand) && !(kind is Text),
        kind.closed_outline() <==> kind.two_point() && !(kind is Line),
{
}

/// What is said of the renderer.
pub proof fn law_the_renderer_is_told(chunks: nat, meshes: nat, built: nat)
    ensures
        gpu_words(chunks, meshes, built) == "GPU: "@ + decimal(chunks) + " chunks, "@ + decimal(
            meshes,
        ) + " cached meshes, "@ + decimal(built) + " tessellated this frame"@,
{
}

} // verus!
