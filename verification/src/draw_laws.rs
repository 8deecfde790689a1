//! Laws of what a peer does on the board: drawing, typing, erasing, taking back
//! and clearing. Each says what becomes of the board, of the history and of what
//! is sent to the other peers.

use vstd::prelude::*;

use crate::board::{answered, inverses, is_topmost, AppView, Pointer};
use crate::crdt::{ids_by, stamped_removes, OpView, SetView, Timestamp};
use crate::crdt_laws::{lemma_entry_after, lemma_own_ids, named};
use crate::geom::sheds;
use crate::protocol::{ClientView, DeltaView};
use crate::text::blank;
use crate::tool::{Command, Route, Tool};
use crate::types::{ClientId, KindView, Point, Rgba, Scalar, Stroke, StrokeId, StrokeView};

verus! {

/// A drag that starts at a point begins a stroke there: it carries the id, the
/// brush of the moment, its author, and what the tool draws, and is shown to the
/// other peers at once. Nothing else on the board changes.
pub proof fn law_a_press_begins_a_stroke<
    F: Fn(Point, Point) -> bool,
    D: Fn(Point, Point, Point) -> Scalar,
>(
    app: AppView,
    id: StrokeId,
    input: Pointer,
    test: F,
    epsilon: Scalar,
    distance: D,
    after: AppView,
)
    requires
        app.draws(id, input, test, epsilon, distance, after),
        input.started,
        input.at is Some,
        !input.stopped,
    ensures
        after.drawing is Some,
        ({
            let stroke = after.drawing->0.stroke;
            &&& stroke.id == id
            &&& stroke.client_id == app.me
            &&& stroke.color == app.brush_color
            &&& stroke.width == app.brush_width
            &&& stroke.kind == (match app.tool {
                Tool::Line => KindView::Line,
                Tool::Rect => KindView::Rect,
                Tool::Ellipse => KindView::Ellipse,
                _ => KindView::Freehand,
            })
            &&& 1 <= stroke.points.len() <= 2
            &&& !input.dragging ==> stroke.points.len() == 1
            &&& forall|i: int|
                0 <= i < stroke.points.len() ==> (#[trigger] stroke.points[i]) == input.at->0
            &&& after.drawing->0.sent == stroke.points.len()
            &&& after.outgoing == app.outgoing.push(
                ClientView::StrokeDelta(
                    DeltaView {
                        stroke_id: id,
                        client_id: app.me,
                        color: app.brush_color,
                        width: app.brush_width,
                        kind: stroke.kind,
                        points: stroke.points,
                    },
                ),
            )
        }),
        after == (AppView { drawing: after.drawing, outgoing: after.outgoing, ..app }),
{
    let (far, trail) = choose|far: bool, trail: Seq<Point>|
        after == #[trigger] app.drawn(id, input, far, trail);
    let p = input.at->0;
    let s = app.begun(id, input).followed(input, far);
    let points = s.drawing->0.stroke.points;
    assert(points.skip(0) =~= points);
    assert(seq![p].push(p) =~= seq![p, p]);
}

/// A stroke keeps its id, author, colour, width and kind while it is drawn. A
/// freehand stroke grows by the pointer's position where the pointer went far
/// enough from its last sample; of a shape the far corner follows the pointer.
pub proof fn law_a_drag_extends_the_stroke<
    F: Fn(Point, Point) -> bool,
    D: Fn(Point, Point, Point) -> Scalar,
>(
    app: AppView,
    id: StrokeId,
    input: Pointer,
    test: F,
    epsilon: Scalar,
    distance: D,
    after: AppView,
)
    requires
        app.draws(id, input, test, epsilon, distance, after),
        app.drawing is Some,
        !input.started,
        !input.stopped,
    ensures
        after.drawing is Some,
        ({
            let (was, now) = (app.drawing->0.stroke, after.drawing->0.stroke);
            &&& now.id == was.id
            &&& now.client_id == was.client_id
            &&& now.color == was.color
            &&& now.width == was.width
            &&& now.kind == was.kind
            &&& !input.dragging || input.at is None ==> now.points == was.points
            &&& input.dragging && input.at is Some && was.points.len() == 0 ==> now.points == seq![
                input.at->0,
            ]
            &&& input.dragging && input.at is Some && was.points.len() > 0 && was.kind
                == KindView::Freehand ==> exists|far: bool|
                #![trigger call_ensures(test, (was.points.last(), input.at->0), far)]
                call_ensures(test, (was.points.last(), input.at->0), far) && now.points == (if far {
                    was.points.push(input.at->0)
                } else {
                    was.points
                })
            &&& input.dragging && input.at is Some && was.points.len() > 0 && was.kind
                != KindView::Freehand ==> now.points == seq![was.points[0], input.at->0]
        }),
        after == (AppView { drawing: after.drawing, outgoing: after.outgoing, ..app }),
{
    let (far, trail) = choose|far: bool, trail: Seq<Point>|
        after == #[trigger] app.drawn(id, input, far, trail) && app.begun(id, input).asks(
            input,
            test,
            far,
        );
    let was = app.drawing->0.stroke.points;
    if was.len() == 0 {
        assert(was.push(input.at->0) =~= seq![input.at->0]);
    }
    if was.len() == 2 {
        assert(was =~= seq![was[0], was[1]]);
    }
}

/// While a stroke is drawn the other peers get to see what is new of it, once:
/// of a freehand stroke the samples they have not seen, of a shape the whole
/// wherever it moved.
pub proof fn law_what_is_new_is_streamed<
    F: Fn(Point, Point) -> bool,
    D: Fn(Point, Point, Point) -> Scalar,
>(
    app: AppView,
    id: StrokeId,
    input: Pointer,
    test: F,
    epsilon: Scalar,
    distance: D,
    after: AppView,
)
    requires
        app.draws(id, input, test, epsilon, distance, after),
        app.drawing is Some,
        app.drawing->0.sent <= app.drawing->0.stroke.points.len(),
        !input.started,
        !input.stopped,
    ensures
        after.drawing is Some,
        after.drawing->0.sent == after.drawing->0.stroke.points.len(),
        ({
            let (was, now) = (app.drawing->0, after.drawing->0.stroke);
            let news = was.sent < now.points.len() || (now.kind != KindView::Freehand && now.points
                != was.stroke.points);
            after.outgoing == (if news {
                app.outgoing.push(
                    ClientView::StrokeDelta(
                        DeltaView {
                            stroke_id: now.id,
                            client_id: now.client_id,
                            color: now.color,
                            width: now.width,
                            kind: now.kind,
                            points: if now.kind == KindView::Freehand {
                                now.points.skip(was.sent as int)
                            } else {
                                now.points
                            },
                        },
                    ),
                )
            } else {
                app.outgoing
            })
        }),
{
    let (far, trail) = choose|far: bool, trail: Seq<Point>|
        after == #[trigger] app.drawn(id, input, far, trail);
    let was = app.drawing->0.stroke.points;
    if was.len() == 2 {
        assert(was =~= seq![was[0], was[1]]);
    }
}

/// Without a stroke in the works a frame that starts none changes nothing.
pub proof fn law_nothing_is_drawn_unasked<
    F: Fn(Point, Point) -> bool,
    D: Fn(Point, Point, Point) -> Scalar,
>(
    app: AppView,
    id: StrokeId,
    input: Pointer,
    test: F,
    epsilon: Scalar,
    distance: D,
    after: AppView,
)
    requires
        app.draws(id, input, test, epsilon, distance, after),
        app.drawing is None,
        !input.started || input.at is None,
    ensures
        after == app,
{
}

/// An add that is newer than everything on the board puts its stroke there.
proof fn lemma_lands(app: AppView, stroke: StrokeView, q: StrokeId)
    requires
        app.doc.set.known_by(app.time),
        app.time < u64::MAX,
    ensures
        ({
            let ts = Timestamp { counter: (app.time + 1) as u64, client: app.me };
            let set = app.doc.set.apply(OpView::Add { stroke, ts });
            &&& set.get(stroke.id) == Some(stroke)
            &&& q != stroke.id ==> set.get(q) == app.doc.set.get(q) && set.get_any(q)
                == app.doc.set.get_any(q)
        }),
{
    let ts = Timestamp { counter: (app.time + 1) as u64, client: app.me };
    let op = OpView::Add { stroke, ts };
    lemma_entry_after(app.doc.set, op, q);
    lemma_entry_after(app.doc.set, op, stroke.id);
    let e = app.doc.set.entry(stroke.id);
    if app.doc.set.entries.contains_key(stroke.id) {
        if e.add is Some {
            assert(app.doc.set.entries[stroke.id].mentions(e.add->0.ts));
            assert(app.doc.set.mentions(e.add->0.ts));
        }
        if e.removed is Some {
            assert(app.doc.set.entries[stroke.id].mentions(e.removed->0));
            assert(app.doc.set.mentions(e.removed->0));
        }
    }
}

/// Releasing the button commits the stroke, with the id, author, colour, width
/// and kind that it was begun with: it is on the board, it is the next to be
/// undone, and the other peers are sent the very operation that put it there.
pub proof fn law_a_release_commits_the_stroke<
    F: Fn(Point, Point) -> bool,
    D: Fn(Point, Point, Point) -> Scalar,
>(
    app: AppView,
    id: StrokeId,
    input: Pointer,
    test: F,
    epsilon: Scalar,
    distance: D,
    after: AppView,
    q: StrokeId,
)
    requires
        app.draws(id, input, test, epsilon, distance, after),
        input.stopped,
        app.drawing is Some || (input.started && input.at is Some),
        app.time < u64::MAX,
    ensures
        after.drawing is None,
        after.time == app.time + 1,
        after.outgoing.len() > 0,
        after.outgoing.last() is Ops,
        after.outgoing.last()->Ops_0.len() == 1,
        after.outgoing.last()->Ops_0[0] is Add,
        ({
            let op = after.outgoing.last()->Ops_0[0];
            let stroke = op->Add_stroke;
            let anew = input.started && input.at is Some;
            let begun = app.drawing->0.stroke;
            &&& op.ts() == Timestamp { counter: (app.time + 1) as u64, client: app.me }
            &&& anew ==> {
                &&& stroke.id == id
                &&& stroke.client_id == app.me
                &&& stroke.color == app.brush_color
                &&& stroke.width == app.brush_width
                &&& stroke.kind == (match app.tool {
                    Tool::Line => KindView::Line,
                    Tool::Rect => KindView::Rect,
                    Tool::Ellipse => KindView::Ellipse,
                    _ => KindView::Freehand,
                })
            }
            &&& !anew ==> {
                &&& stroke.id == begun.id
                &&& stroke.client_id == begun.client_id
                &&& stroke.color == begun.color
                &&& stroke.width == begun.width
                &&& stroke.kind == begun.kind
            }
            &&& after.doc.set == app.doc.set.apply(op)
            &&& after.doc == app.doc.applied_all(seq![op])
            &&& after.history.undo.len() > 0
            &&& after.history.undo.last() == seq![op]
            &&& after.history == app.history.recorded(seq![op])
            &&& after.history.redo.len() == 0
            &&& app.doc.set.known_by(app.time) ==> after.doc.set.get(stroke.id) == Some(stroke)
            &&& app.doc.set.known_by(app.time) && q != stroke.id ==> after.doc.set.get(q)
                == app.doc.set.get(q)
        }),
        app.outgoing.len() < after.outgoing.len() <= app.outgoing.len() + 2,
        after.outgoing.len() == app.outgoing.len() + 2 ==> ({
            let stroke = after.outgoing.last()->Ops_0[0]->Add_stroke;
            let shown = after.outgoing[app.outgoing.len() as int];
            &&& shown is StrokeDelta
            &&& shown->StrokeDelta_0.stroke_id == stroke.id
            &&& shown->StrokeDelta_0.client_id == stroke.client_id
            &&& shown->StrokeDelta_0.color == stroke.color
            &&& shown->StrokeDelta_0.width == stroke.width
            &&& shown->StrokeDelta_0.kind == stroke.kind
        }),
        after.outgoing.take(app.outgoing.len() as int) == app.outgoing,
        after == (AppView {
            drawing: None,
            time: after.time,
            doc: after.doc,
            history: after.history,
            outgoing: after.outgoing,
            ..app
        }),
{
    reveal_with_fuel(SetView::apply_all, 2);
    let (far, trail) = choose|far: bool, trail: Seq<Point>|
        after == #[trigger] app.drawn(id, input, far, trail);
    let s = app.begun(id, input).followed(input, far).streamed();
    let op = after.outgoing.last()->Ops_0[0];
    assert(seq![op].drop_last() =~= Seq::<OpView>::empty());
    assert(after.outgoing.take(app.outgoing.len() as int) =~= app.outgoing);
    if app.doc.set.known_by(app.time) {
        lemma_lands(app, op->Add_stroke, q);
    }
}

/// The points of the stroke that a release commits: of a shape the two corners
/// as they were when the button was released, of a freehand stroke what
/// simplifying leaves of its samples.
pub proof fn law_a_release_keeps_the_shape<
    F: Fn(Point, Point) -> bool,
    D: Fn(Point, Point, Point) -> Scalar,
>(
    app: AppView,
    id: StrokeId,
    input: Pointer,
    test: F,
    epsilon: Scalar,
    distance: D,
    after: AppView,
)
    requires
        app.draws(id, input, test, epsilon, distance, after),
        input.stopped,
        !input.started,
        app.drawing is Some,
        app.drawing->0.stroke.points.len() > 0,
    ensures
        after.outgoing.len() > 0,
        after.outgoing.last() is Ops,
        after.outgoing.last()->Ops_0.len() == 1,
        ({
            let was = app.drawing->0.stroke;
            let moved = input.dragging && input.at is Some;
            let points = after.outgoing.last()->Ops_0[0]->Add_stroke.points;
            if was.kind == KindView::Freehand {
                &&& !moved ==> sheds(was.points, epsilon, distance, points)
                &&& moved ==> exists|far: bool|
                    #![trigger call_ensures(test, (was.points.last(), input.at->0), far)]
                    call_ensures(test, (was.points.last(), input.at->0), far) && sheds(
                        if far {
                            was.points.push(input.at->0)
                        } else {
                            was.points
                        },
                        epsilon,
                        distance,
                        points,
                    )
            } else {
                points == (if moved {
                    seq![was.points[0], input.at->0]
                } else {
                    was.points
                })
            }
        }),
{
    let (far, trail) = choose|far: bool, trail: Seq<Point>|
        after == #[trigger] app.drawn(id, input, far, trail) && app.begun(id, input).asks(
            input,
            test,
            far,
        ) && (input.stopped ==> app.begun(id, input).followed(input, far).leaves(
            epsilon,
            distance,
            trail,
        ));
    let was = app.drawing->0.stroke.points;
    if was.len() == 2 {
        assert(was =~= seq![was[0], was[1]]);
    }
}

/// A label begins empty, where it was placed, with the brush and the text size
/// of the moment. Nothing else on the board changes.
pub proof fn law_labels_begin_empty(app: AppView, id: StrokeId, at: Point)
    ensures
        ({
            let after = app.label_placed(id, at);
            let stroke = after.drawing->0.stroke;
            &&& after.drawing is Some
            &&& stroke.id == id
            &&& stroke.client_id == app.me
            &&& stroke.color == app.brush_color
            &&& stroke.width == app.brush_width
            &&& stroke.kind matches KindView::Text { content, size } && content.len() == 0 && size
                == app.text_size
            &&& stroke.points == seq![at]
            &&& after.drawing->0.sent == 0
            &&& after == (AppView { drawing: after.drawing, ..app })
        }),
{
}

/// Typing changes the label's text and nothing else of it, and the other peers
/// see the whole label wherever the text changed.
pub proof fn law_typing_is_streamed(app: AppView, content: Seq<char>)
    ensures
        ({
            let after = app.label_edited(content);
            if app.drawing is Some && app.drawing->0.stroke.kind is Text {
                let (was, now) = (app.drawing->0.stroke, after.drawing->0.stroke);
                &&& after.drawing is Some
                &&& now.id == was.id
                &&& now.client_id == was.client_id
                &&& now.color == was.color
                &&& now.width == was.width
                &&& now.points == was.points
                &&& now.kind matches KindView::Text { content: text, size } && text == content
                    && size == was.kind->size
                &&& after == (AppView { drawing: after.drawing, outgoing: after.outgoing, ..app })
                &&& was.kind->content == content ==> after == app
                &&& was.kind->content != content && was.points.len() > 0 ==> after.outgoing
                    == app.outgoing.push(
                    ClientView::StrokeDelta(
                        DeltaView {
                            stroke_id: now.id,
                            client_id: now.client_id,
                            color: now.color,
                            width: now.width,
                            kind: now.kind,
                            points: now.points,
                        },
                    ),
                )
            } else {
                after == app
            }
        }),
{
}

/// A finished label is put on the board as it was typed, can be undone and is
/// sent; an unusable one is dropped without a trace.
pub proof fn law_labels_are_committed(app: AppView, unusable: bool, q: StrokeId)
    requires
        app.time < u64::MAX,
    ensures
        ({
            let after = app.label_committed(unusable);
            if app.drawing is Some && app.drawing->0.stroke.kind is Text {
                let stroke = app.drawing->0.stroke;
                let ts = Timestamp { counter: (app.time + 1) as u64, client: app.me };
                let op = OpView::Add { stroke, ts };
                if unusable {
                    after == (AppView { drawing: None, ..app })
                } else {
                    &&& after.drawing is None
                    &&& after.time == app.time + 1
                    &&& after.doc.set == app.doc.set.apply(op)
                    &&& after.doc == app.doc.applied_all(seq![op])
                    &&& after.history.undo.len() > 0
                    &&& after.history.undo.last() == seq![op]
                    &&& after.history == app.history.recorded(seq![op])
                    &&& after.history.redo.len() == 0
                    &&& after.outgoing == app.outgoing.push(ClientView::Ops(seq![op]))
                    &&& app.doc.set.known_by(app.time) ==> after.doc.set.get(stroke.id) == Some(
                        stroke,
                    )
                    &&& app.doc.set.known_by(app.time) && q != stroke.id ==> after.doc.set.get(q)
                        == app.doc.set.get(q)
                    &&& after == (AppView {
                        drawing: None,
                        time: after.time,
                        doc: after.doc,
                        history: after.history,
                        outgoing: after.outgoing,
                        ..app
                    })
                }
            } else {
                after == app
            }
        }),
{
    reveal_with_fuel(SetView::apply_all, 2);
    if app.drawing is Some {
        let stroke = app.drawing->0.stroke;
        let op = OpView::Add { stroke, ts: app.next_stamp() };
        assert(seq![op].drop_last() =~= Seq::<OpView>::empty());
        if app.doc.set.known_by(app.time) {
            lemma_lands(app, stroke, q);
        }
    }
}

/// The eraser takes the stroke under the pointer off the board, that one alone,
/// and tells the other peers.
pub proof fn law_the_eraser_takes_one_stroke(
    app: AppView,
    input: Pointer,
    hit: Option<StrokeId>,
    q: StrokeId,
)
    requires
        app.time < u64::MAX,
    ensures
        ({
            let after = app.rubbed(input, hit);
            let on = (input.started || input.clicked || input.dragging) && input.at is Some;
            let ts = Timestamp { counter: (app.time + 1) as u64, client: app.me };
            &&& on && hit is Some ==> {
                let op = OpView::Remove { id: hit->0, ts };
                &&& after.doc.set == app.doc.set.apply(op)
                &&& after.doc.generation == app.doc.applied(op).generation
                &&& after.time == app.time + 1
                &&& after.outgoing == app.outgoing.push(ClientView::Ops(seq![op]))
                &&& app.doc.set.known_by(app.time) ==> after.doc.set.get(hit->0) is None
                &&& after.doc.set.get_any(hit->0) == app.doc.set.get_any(hit->0)
                &&& q != hit->0 ==> after.doc.set.get(q) == app.doc.set.get(q)
            }
            &&& !on || hit is None ==> after.doc == app.doc && after.time == app.time
                && after.outgoing == app.outgoing
            &&& after == (AppView {
                time: after.time,
                doc: after.doc,
                erasing: after.erasing,
                history: after.history,
                outgoing: after.outgoing,
                ..app
            })
        }),
{
    if let Some(id) = hit {
        let op = OpView::Remove { id, ts: app.next_stamp() };
        lemma_entry_after(app.doc.set, op, id);
        lemma_entry_after(app.doc.set, op, q);
        let e = app.doc.set.entry(id);
        if app.doc.set.known_by(app.time) && app.doc.set.entries.contains_key(id) {
            if e.add is Some {
                assert(app.doc.set.entries[id].mentions(e.add->0.ts));
                assert(app.doc.set.mentions(e.add->0.ts));
            }
            if e.removed is Some {
                assert(app.doc.set.entries[id].mentions(e.removed->0));
                assert(app.doc.set.mentions(e.removed->0));
            }
        }
    }
}

/// Everything erased between pressing and releasing the button is one gesture:
/// it can be undone once the button is released, a lone click at once, and a
/// gesture that erased nothing leaves the history alone.
pub proof fn law_an_eraser_drag_is_one_gesture(
    app: AppView,
    input: Pointer,
    hit: Option<StrokeId>,
)
    ensures
        ({
            let after = app.rubbed(input, hit);
            let pressed = input.started || input.clicked;
            let on = (pressed || input.dragging) && input.at is Some && hit is Some;
            let over = input.stopped || (pressed && !input.moving);
            let op = OpView::Remove {
                id: hit->0,
                ts: Timestamp { counter: (app.time + 1) as u64, client: app.me },
            };
            let before = match app.erasing {
                Some(ops) => ops,
                None => Seq::empty(),
            };
            let rubbed = if on {
                before.push(op)
            } else {
                before
            };
            if app.erasing is None && !pressed {
                after.erasing is None && after.history == app.history
            } else if !over {
                after.erasing == Some(rubbed) && after.history == app.history
            } else if rubbed.len() == 0 {
                after.erasing is None && after.history == app.history
            } else {
                &&& after.erasing is None
                &&& after.history.undo.len() > 0
                &&& after.history.undo.last() == rubbed
                &&& after.history == app.history.recorded(rubbed)
                &&& after.history.redo.len() == 0
            }
        }),
{
}

/// A dropped gesture leaves no stroke behind. What it erased stays erased and is
/// the next to be undone.
pub proof fn law_dropped_gestures_leave_the_board(app: AppView)
    ensures
        ({
            let after = app.gesture_dropped();
            &&& after.drawing is None
            &&& after.erasing is None
            &&& after == (AppView { drawing: None, erasing: None, history: after.history, ..app })
            &&& app.erasing is None || app.erasing->0.len() == 0 ==> after.history == app.history
            &&& app.erasing is Some && app.erasing->0.len() > 0 ==> after.history.undo.len() > 0
                && after.history.undo.last() == app.erasing->0 && after.history.redo.len() == 0
                && after.history == app.history.recorded(app.erasing->0)
        }),
        ({
            let after = app.erase_ended();
            &&& after.erasing is None
            &&& after == (AppView { erasing: None, history: after.history, ..app })
            &&& app.erasing is None || app.erasing->0.len() == 0 ==> after.history == app.history
            &&& app.erasing is Some && app.erasing->0.len() > 0 ==> after.history.undo.len() > 0
                && after.history.undo.last() == app.erasing->0 && after.history.redo.len() == 0
                && after.history == app.history.recorded(app.erasing->0)
        }),
{
}

/// Committed operations are applied and sent as they are, and recorded where
/// they are to be undone. No operations change nothing.
pub proof fn law_commits_are_sent(app: AppView, ops: Seq<OpView>, record: bool)
    ensures
        ({
            let after = app.committed(ops, record);
            &&& ops.len() == 0 ==> after == app
            &&& ops.len() > 0 ==> {
                &&& after.doc == app.doc.applied_all(ops)
                &&& after.doc.set == app.doc.set.apply_all(ops)
                &&& after.outgoing == app.outgoing.push(ClientView::Ops(ops))
                &&& !record ==> after.history == app.history
                &&& record ==> after.history.undo.len() > 0 && after.history.undo.last() == ops
                    && after.history.redo.len() == 0 && after.history == app.history.recorded(ops)
                &&& after == (AppView {
                    doc: after.doc,
                    history: after.history,
                    outgoing: after.outgoing,
                    ..app
                })
            }
        }),
{
}

/// Undo and redo apply operations that they send as they are and that the other
/// of the two takes back next; without a gesture they change nothing.
pub proof fn law_taking_back_is_sent(app: AppView)
    requires
        app.time + app.undo_ticks() <= u64::MAX,
        app.time + app.redo_ticks() <= u64::MAX,
    ensures
        app.history.undo.len() == 0 ==> app.undone() == app,
        app.history.undo.len() > 0 ==> ({
            let after = app.undone();
            let ops = after.history.redo.last();
            &&& after.history.redo == app.history.redo.push(ops)
            &&& after.history.undo == app.history.undo.drop_last()
            &&& after.doc == app.doc.applied_all(ops)
            &&& after.doc.set == app.doc.set.apply_all(ops)
            &&& after.outgoing == app.outgoing.push(ClientView::Ops(ops))
            &&& after.time == app.time + app.history.undo.last().len()
            &&& after == (AppView {
                doc: after.doc,
                time: after.time,
                history: after.history,
                outgoing: after.outgoing,
                ..app
            })
        }),
        app.history.redo.len() == 0 ==> app.redone() == app,
        app.history.redo.len() > 0 ==> ({
            let after = app.redone();
            let ops = after.history.undo.last();
            &&& after.history.undo == app.history.undo.push(ops)
            &&& after.history.redo == app.history.redo.drop_last()
            &&& after.doc == app.doc.applied_all(ops)
            &&& after.doc.set == app.doc.set.apply_all(ops)
            &&& after.outgoing == app.outgoing.push(ClientView::Ops(ops))
            &&& after.time == app.time + app.history.redo.last().len()
            &&& after == (AppView {
                doc: after.doc,
                time: after.time,
                history: after.history,
                outgoing: after.outgoing,
                ..app
            })
        }),
{
}

/// A gesture is taken back operation by operation, the newest first: an add by a
/// remove of its stroke, a remove by an add of what is known of the stroke.
pub proof fn law_gestures_are_taken_back_in_reverse(
    set: SetView,
    first: Seq<OpView>,
    second: Seq<OpView>,
    op: OpView,
    time: nat,
    me: ClientId,
)
    requires
        time + first.len() + second.len() < u64::MAX,
    ensures
        inverses(set, first + second, time, me) == inverses(set, second, time, me) + inverses(
            set,
            first,
            time + second.len(),
            me,
        ),
        inverses(set, Seq::empty(), time, me).len() == 0,
        op is Add ==> inverses(set, seq![op], time, me) == seq![
            OpView::Remove {
                id: op.id(),
                ts: Timestamp { counter: (time + 1) as u64, client: me },
            },
        ],
        op is Remove && set.get_any(op.id()) is None ==> inverses(set, seq![op], time, me).len()
            == 0,
        op is Remove && set.get_any(op.id()) is Some ==> inverses(set, seq![op], time, me) == seq![
            OpView::Add {
                stroke: set.get_any(op.id())->0,
                ts: Timestamp { counter: (time + 1) as u64, client: me },
            },
        ],
{
    lemma_inverses_concat(set, first, second, time, me);
    reveal_with_fuel(inverses, 2);
    assert(seq![op].drop_last() =~= Seq::empty());
}

proof fn lemma_inverses_concat(
    set: SetView,
    first: Seq<OpView>,
    second: Seq<OpView>,
    time: nat,
    me: ClientId,
)
    ensures
        inverses(set, first + second, time, me) == inverses(set, second, time, me) + inverses(
            set,
            first,
            time + second.len(),
            me,
        ),
    decreases second.len(),
{
    if second.len() == 0 {
        assert(first + second =~= first);
        assert(inverses(set, first, time, me) =~= Seq::empty() + inverses(set, first, time, me));
    } else {
        lemma_inverses_concat(set, first, second.drop_last(), time + 1, me);
        let all = first + second;
        assert(all.drop_last() =~= first + second.drop_last());
        assert(all.last() == second.last());
        assert(inverses(set, all, time, me) =~= inverses(set, second, time, me) + inverses(
            set,
            first,
            time + second.len(),
            me,
        ));
    }
}

/// Clearing sends one gesture that can be undone: it removes every stroke of the
/// peer's own that is on the board, and only those; without any it changes
/// nothing.
pub proof fn law_clearing_is_sent(app: AppView, q: StrokeId)
    requires
        app.doc.set.indexed(),
        named(app.doc.set),
        app.doc.set.order.dom().finite(),
        app.time + ids_by(app.doc.set.visible(), app.me).len() <= u64::MAX,
    ensures
        ({
            let after = app.cleared();
            let own = exists|p: StrokeId|
                (#[trigger] app.doc.set.get(p)) is Some && app.doc.set.get(p)->0.client_id
                    == app.me;
            &&& !own ==> after == app
            &&& own ==> {
                let ops = after.history.undo.last();
                &&& after.history.undo.len() > 0
                &&& after.history.redo.len() == 0
                &&& after.history == app.history.recorded(ops)
                &&& after.outgoing == app.outgoing.push(ClientView::Ops(ops))
                &&& after.doc == app.doc.applied_all(ops)
                &&& after.doc.set == app.doc.set.apply_all(ops)
                &&& after.time == app.time + ops.len()
                &&& forall|i: int|
                    0 <= i < ops.len() ==> (#[trigger] ops[i]) is Remove && ops[i].ts()
                        == Timestamp { counter: (app.time + 1 + i) as u64, client: app.me }
                &&& (exists|i: int| 0 <= i < ops.len() && (#[trigger] ops[i]).id() == q) <==> (
                app.doc.set.get(q) is Some && app.doc.set.get(q)->0.client_id == app.me)
                &&& after == (AppView {
                    doc: after.doc,
                    time: after.time,
                    history: after.history,
                    outgoing: after.outgoing,
                    ..app
                })
            }
        }),
{
    let s = app.doc.set;
    let ids = ids_by(s.visible(), app.me);
    lemma_own_ids(s, app.me);
    let after = app.cleared();
    if ids.len() > 0 {
        let ops = stamped_removes(ids, app.time as nat, app.me);
        assert(ids.contains(ids[0]));
        assert(s.get(ids[0]) is Some);
        assert(after.history.undo.last() == ops);
        if s.get(q) is Some && s.get(q)->0.client_id == app.me {
            assert(ids.contains(q));
            let k = choose|k: int| 0 <= k < ids.len() && ids[k] == q;
            assert(ops[k].id() == q);
        }
        if exists|i: int| 0 <= i < ops.len() && (#[trigger] ops[i]).id() == q {
            let i = choose|i: int| 0 <= i < ops.len() && (#[trigger] ops[i]).id() == q;
            assert(ids[i] == q && ids.contains(q));
        }
    } else {
        assert forall|p: StrokeId| (#[trigger] s.get(p)) is Some implies s.get(p)->0.client_id
            != app.me by {
            assert(ids.contains(p) ==> false);
        }
    }
}

/// Commands do what their names say; the key of another tool drops what was
/// being drawn, that of the tool in use leaves it alone.
pub proof fn law_commands(app: AppView, tool: Tool)
    ensures
        app.performed(Command::Undo) == app.undone(),
        app.performed(Command::Redo) == app.redone(),
        app.performed(Command::Clear) == app.cleared(),
        app.performed(Command::Narrower) == app,
        app.performed(Command::Wider) == app,
        app.performed(Command::ResetView) == app,
        app.performed(Command::Select(tool)).tool == tool,
        tool == app.tool ==> app.performed(Command::Select(tool)) == app,
        tool != app.tool ==> ({
            let after = app.performed(Command::Select(tool));
            &&& after.drawing is None
            &&& after.erasing is None
            &&& after == (AppView {
                tool,
                drawing: None,
                erasing: None,
                history: after.history,
                ..app
            })
            &&& app.erasing is None || app.erasing->0.len() == 0 ==> after.history == app.history
            &&& app.erasing is Some && app.erasing->0.len() > 0 ==> after.history.undo.len() > 0
                && after.history.undo.last() == app.erasing->0 && after.history.redo.len() == 0
                && after.history == app.history.recorded(app.erasing->0)
        }),
{
}

/// Where a drag goes: the middle button always pans, and so does the primary one
/// with the pan tool or while space is held. Otherwise the tool in use decides,
/// and while space is held it is never given anything.
pub proof fn law_drags_are_routed(app: AppView, middle: bool, primary: bool)
    ensures
        ({
            let route = app.route(middle, primary);
            let panning = app.tool == Tool::Pan || app.space_held;
            &&& route == Route::Pan <==> middle || (primary && panning)
            &&& route == Route::Hold <==> !middle && !primary && panning
            &&& route == Route::Erase <==> !middle && !panning && app.tool == Tool::Eraser
            &&& route == Route::Label <==> !middle && !panning && app.tool == Tool::Text
            &&& route == Route::Draw <==> !middle && !panning && (app.tool == Tool::Pen || app.tool
                == Tool::Line || app.tool == Tool::Rect || app.tool == Tool::Ellipse)
        }),
{
}

/// The stroke picked is the one drawn last among those that the test accepts.
pub proof fn law_the_topmost_is_picked<H: Fn(&Stroke) -> bool>(
    strokes: Seq<StrokeView>,
    hits: H,
    accepts: spec_fn(StrokeView) -> bool,
    hit: Option<StrokeId>,
)
    requires
        is_topmost(strokes, hits, hit),
        forall|s: Stroke, answer: bool| #[trigger]
            call_ensures(hits, (&s,), answer) ==> answer == accepts(s@),
    ensures
        hit is None <==> forall|i: int| 0 <= i < strokes.len() ==> !accepts(#[trigger] strokes[i]),
        hit matches Some(id) ==> exists|i: int|
            0 <= i < strokes.len() && (#[trigger] strokes[i]).id == id && accepts(strokes[i])
                && forall|j: int| i < j < strokes.len() ==> !accepts(#[trigger] strokes[j]),
{
    match hit {
        Some(id) => {
            let i = choose|i: int|
                0 <= i < strokes.len() && (#[trigger] strokes[i]).id == id && answered(
                    hits,
                    strokes[i],
                    true,
                ) && forall|j: int|
                    i < j < strokes.len() ==> answered(hits, #[trigger] strokes[j], false);
            let s = choose|s: Stroke|
                s@ == strokes[i] && #[trigger] call_ensures(hits, (&s,), true);
            assert(accepts(strokes[i]));
            assert forall|j: int| i < j < strokes.len() implies !accepts(#[trigger] strokes[j]) by {
                assert(answered(hits, strokes[j], false));
                let s = choose|s: Stroke|
                    s@ == strokes[j] && #[trigger] call_ensures(hits, (&s,), false);
                assert(s@ == strokes[j]);
            }
        },
        None => {
            assert forall|j: int| 0 <= j < strokes.len() implies !accepts(#[trigger] strokes[j]) by {
                assert(answered(hits, strokes[j], false));
                let s = choose|s: Stroke|
                    s@ == strokes[j] && #[trigger] call_ensures(hits, (&s,), false);
                assert(s@ == strokes[j]);
            }
        },
    }
}

/// How many ticks of its clock a command takes: one for each operation that it
/// takes back or removes.
pub proof fn law_commands_take_ticks(app: AppView, tool: Tool)
    ensures
        app.ticks(Command::Undo) == (if app.history.undo.len() > 0 {
            app.history.undo.last().len()
        } else {
            0
        }),
        app.ticks(Command::Redo) == (if app.history.redo.len() > 0 {
            app.history.redo.last().len()
        } else {
            0
        }),
        app.ticks(Command::Clear) == ids_by(app.doc.set.visible(), app.me).len(),
        app.ticks(Command::Select(tool)) == 0,
        app.undo_ticks() == app.ticks(Command::Undo),
        app.redo_ticks() == app.ticks(Command::Redo),
{
}

/// A label counts as blank where its text is, or where there is no label; a
/// label is being typed where the drawing is one; and a frame finishes a stroke
/// where the button is released with one in the works.
pub proof fn law_drawings_are_told_apart(app: AppView, input: Pointer)
    ensures
        app.typing() <==> app.drawing is Some && app.drawing->0.stroke.kind is Text,
        app.label_blank() <==> !app.typing() || blank(app.drawing->0.stroke.kind->content),
        app.finishes(input) <==> input.stopped && (app.drawing is Some || (input.started && input.at
            is Some)),
{
}

/// From press to release: a stroke drawn after a colour was chosen is on the
/// board in that colour, under the id and the author it began with, whatever
/// colour was used before.
pub proof fn law_strokes_carry_the_chosen_colour<
    F: Fn(Point, Point) -> bool,
    D: Fn(Point, Point, Point) -> Scalar,
>(
    before: AppView,
    color: Rgba,
    id: StrokeId,
    press: Pointer,
    held: AppView,
    other: StrokeId,
    release: Pointer,
    test: F,
    epsilon: Scalar,
    distance: D,
    after: AppView,
)
    requires
        before.doc.set.known_by(before.time),
        before.time < u64::MAX,
        press.started && press.at is Some && !press.stopped,
        !release.started && release.stopped,
        (AppView { brush_color: color, ..before }).draws(
            id,
            press,
            test,
            epsilon,
            distance,
            held,
        ),
        held.draws(other, release, test, epsilon, distance, after),
    ensures
        after.doc.set.get(id) is Some,
        after.doc.set.get(id)->0.id == id,
        after.doc.set.get(id)->0.client_id == before.me,
        after.doc.set.get(id)->0.color == color,
        after.doc.set.get(id)->0.width == before.brush_width,
        forall|q: StrokeId| q != id ==> #[trigger] after.doc.set.get(q) == before.doc.set.get(q),
{
    let chosen = AppView { brush_color: color, ..before };
    law_a_press_begins_a_stroke(chosen, id, press, test, epsilon, distance, held);
    assert forall|q: StrokeId| q != id implies #[trigger] after.doc.set.get(q)
        == before.doc.set.get(q) by {
        law_a_release_commits_the_stroke(
            held,
            other,
            release,
            test,
            epsilon,
            distance,
            after,
            q,
        );
    }
    law_a_release_commits_the_stroke(held, other, release, test, epsilon, distance, after, id);
}

} // verus!
