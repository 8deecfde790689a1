//! What holds of the whiteboard, whatever happens to it.

use vstd::prelude::*;

use crate::board::{inverses, AppView, DrawingView};
use crate::crdt::{ids_by, stamped_removes, EntryView, OpView, SetView, Timestamp};
use crate::crdt_laws::{
    by_others, law_clear_for_hides_own, law_merge_commutes, law_merge_is_seeing_both,
    law_removes_hide_exactly, law_replicas_converge, lemma_entry_after, lemma_known_after,
    lemma_own_ids, named, unique_adds,
};
use crate::ordmap::{lemma_sorted_pairs, pairs_map};
use crate::protocol::DeltaView;
use crate::room::RoomView;
use crate::types::{ClientId, CursorView, KindView, Point, StrokeId, StrokeView};

verus! {

/// What a peer stamps next sorts after everything it knows.
pub proof fn law_own_ops_sort_after_history(app: AppView, ts: Timestamp)
    requires
        app.sane(),
        app.time < u64::MAX,
        app.doc.set.mentions(ts),
    ensures
        app.next_stamp().after(ts),
{
}

/// Undoing a drawn stroke takes it off the board, and redoing it brings the same
/// stroke back.
pub proof fn law_undo_and_redo_a_stroke(app: AppView, stroke: StrokeView, ts: Timestamp)
    requires
        app.sane(),
        app.time + 2 <= u64::MAX,
        app.history.undo.len() > 0,
        app.history.undo.last() == seq![OpView::Add { stroke, ts }],
        app.doc.set.get(stroke.id) == Some(stroke),
    ensures
        !app.undone().doc.set.shows(stroke.id),
        app.undone().redone().doc.set.get(stroke.id) == Some(stroke),
        app.undone().redone().history.undo.len() == app.history.undo.len(),
        app.undone().redone().history.redo == app.history.redo,
{
    reveal_with_fuel(inverses, 2);
    reveal_with_fuel(SetView::apply_all, 2);
    let id = stroke.id;
    let s = app.doc.set;
    let e = s.entry(id);
    let t1 = Timestamp { counter: (app.time + 1) as u64, client: app.me };
    let t2 = Timestamp { counter: (app.time + 2) as u64, client: app.me };
    let group = seq![OpView::Add { stroke, ts }];
    assert(group.drop_last() =~= Seq::empty());
    let remove = OpView::Remove { id, ts: t1 };
    assert(s.entries.contains_key(id));
    assert(s.mentions(e.add->0.ts)) by {
        assert(s.entries[id].mentions(e.add->0.ts));
    }
    if e.removed is Some {
        assert(s.mentions(e.removed->0)) by {
            assert(s.entries[id].mentions(e.removed->0));
        }
    }
    let ops = inverses(s, group, app.time as nat, app.me);
    assert(ops =~= seq![remove]);
    assert(ops.drop_last() =~= Seq::empty());
    let gone = app.undone();
    assert(gone.doc.set == s.apply(remove));
    assert(gone.history.redo.last() == ops);
    let add = OpView::Add { stroke, ts: t2 };
    assert(gone.doc.set.get_any(id) == Some(stroke));
    let back = inverses(gone.doc.set, ops, gone.time as nat, gone.me);
    assert(back =~= seq![add]);
    assert(back.drop_last() =~= Seq::empty());
    assert(gone.redone().doc.set == gone.doc.set.apply(add));
    assert(gone.redone().history.redo =~= app.history.redo);
}

/// Clearing takes exactly the peer's own strokes off the board; what others drew
/// stays, in the same order.
pub proof fn law_clear_takes_only_own_strokes(app: AppView, id: StrokeId)
    requires
        app.sane(),
        app.doc.set.indexed(),
        named(app.doc.set),
        app.doc.set.order.dom().finite(),
        app.time + ids_by(app.doc.set.visible(), app.me).len() <= u64::MAX,
    ensures
        app.cleared().doc.set.get(id) == (match app.doc.set.get(id) {
            Some(stroke) => if stroke.client_id == app.me {
                None
            } else {
                Some(stroke)
            },
            None => None,
        }),
        app.cleared().doc.set.visible() == by_others(app.doc.set.visible(), app.me),
{
    let s = app.doc.set;
    let ids = ids_by(s.visible(), app.me);
    let ops = stamped_removes(ids, app.time as nat, app.me);
    law_clear_for_hides_own(s, app.me, app.time as nat, app.me);
    let t = s.apply_all(ops);
    assert(t.get(id) == (match s.get(id) {
        Some(stroke) => if stroke.client_id == app.me {
            None
        } else {
            Some(stroke)
        },
        None => None,
    }));
    if ops.len() == 0 {
        assert(t == s);
    }
}

/// Presence never touches the document.
pub proof fn law_presence_leaves_the_document(
    app: AppView,
    c: CursorView,
    d: DeltaView,
    id: ClientId,
)
    ensures
        app.heard_cursor(c).doc == app.doc,
        app.heard_delta(d).doc == app.doc,
        app.heard_left(id).doc == app.doc,
{
}

/// A preview is gone once its stroke is committed, or its author has left.
pub proof fn law_previews_end(app: AppView, op: OpView, id: ClientId, key: StrokeId)
    ensures
        op is Add ==> !app.heard_op(op).previews.contains_key(op.id()),
        app.heard_left(id).previews.contains_key(key) ==> app.heard_left(id).previews[key].client_id
            != id,
{
}

/// The ids of the strokes that operations add.
pub open spec fn added(ops: Seq<OpView>) -> Set<StrokeId> {
    Set::new(
        |id: StrokeId|
            exists|i: int|
                0 <= i < ops.len() && (#[trigger] ops[i]) is Add && ops[i].id() == id,
    )
}

/// Remote operations reach the document in order. The clock then shows the
/// greatest of what it showed and what it heard, the previews lose exactly the
/// strokes that were added, and nothing else changes.
pub proof fn law_remote_ops_are_applied(app: AppView, ops: Seq<OpView>)
    ensures
        ({
            let after = app.heard_ops(ops);
            &&& after.doc.set == app.doc.set.apply_all(ops)
            &&& after.time >= app.time
            &&& forall|i: int|
                0 <= i < ops.len() ==> (#[trigger] ops[i]).ts().counter <= after.time
            &&& after.time == app.time || exists|i: int|
                0 <= i < ops.len() && (#[trigger] ops[i]).ts().counter == after.time
            &&& after.previews == app.previews.remove_keys(added(ops))
            &&& after == (AppView {
                doc: after.doc,
                time: after.time,
                previews: after.previews,
                ..app
            })
        }),
    decreases ops.len(),
{
    let after = app.heard_ops(ops);
    if ops.len() == 0 {
        assert(after.previews =~= app.previews.remove_keys(added(ops)));
    } else {
        let front = ops.drop_last();
        let last = ops.len() - 1;
        law_remote_ops_are_applied(app, front);
        let before = app.heard_ops(front);
        assert(ops[last] == ops.last());
        assert forall|i: int| 0 <= i < ops.len() implies (#[trigger] ops[i]).ts().counter
            <= after.time by {
            if i < last {
                assert(front[i] == ops[i]);
            }
        }
        if after.time != app.time && after.time == before.time {
            let i = choose|i: int|
                0 <= i < front.len() && (#[trigger] front[i]).ts().counter == before.time;
            assert(ops[i].ts().counter == after.time);
        }
        assert forall|id: StrokeId| added(ops).contains(id) <==> added(front).contains(id) || (
        ops.last() is Add && ops.last().id() == id) by {
            if added(front).contains(id) {
                let i = choose|i: int|
                    0 <= i < front.len() && (#[trigger] front[i]) is Add && front[i].id() == id;
                assert(ops[i] == front[i]);
            }
            if added(ops).contains(id) {
                let i = choose|i: int|
                    0 <= i < ops.len() && (#[trigger] ops[i]) is Add && ops[i].id() == id;
                if i < last {
                    assert(front[i] == ops[i]);
                }
            }
        }
        assert(after.previews =~= app.previews.remove_keys(added(ops)));
    }
}

/// Whether a group holds an operation on an element.
pub open spec fn touches(group: Seq<OpView>, id: StrokeId) -> bool {
    exists|i: int| 0 <= i < group.len() && (#[trigger] group[i]).id() == id
}

proof fn lemma_untouched(set: SetView, ops: Seq<OpView>, id: StrokeId)
    requires
        !touches(ops, id),
    ensures
        set.apply_all(ops).entry(id) == set.entry(id),
    decreases ops.len(),
{
    if ops.len() > 0 {
        let front = ops.drop_last();
        assert forall|i: int| 0 <= i < front.len() implies (#[trigger] front[i]).id() != id by {
            assert(front[i] == ops[i]);
        }
        lemma_untouched(set, front, id);
        assert(ops[ops.len() - 1].id() != id);
    }
}

/// The inverses of a group are about the elements of the group.
proof fn lemma_inverses_touch(
    set: SetView,
    ops: Seq<OpView>,
    time: nat,
    me: ClientId,
    id: StrokeId,
)
    requires
        named(set),
        !touches(ops, id),
    ensures
        !touches(inverses(set, ops, time, me), id),
    decreases ops.len(),
{
    if ops.len() > 0 {
        let front = ops.drop_last();
        assert forall|i: int| 0 <= i < front.len() implies (#[trigger] front[i]).id() != id by {
            assert(front[i] == ops[i]);
        }
        lemma_inverses_touch(set, front, time + 1, me, id);
        let rest = inverses(set, front, time + 1, me);
        let all = inverses(set, ops, time, me);
        assert(ops[ops.len() - 1].id() != id);
        assert(set.entry(ops.last().id()).add matches Some(a) ==> a.stroke.id == ops.last().id());
        assert forall|i: int| 0 <= i < all.len() implies (#[trigger] all[i]).id() != id by {
            if all.len() == rest.len() {
                assert(all[i] == rest[i]);
            } else if i > 0 {
                assert(all[i] == rest[i - 1]);
            }
        }
    }
}

/// Undo and redo touch nothing but the elements of the gesture.
pub proof fn law_undo_leaves_the_rest(app: AppView, id: StrokeId)
    requires
        named(app.doc.set),
    ensures
        app.history.undo.len() > 0 && touches(app.history.undo.last(), id)
            || app.undone().doc.set.get(id) == app.doc.set.get(id),
        app.history.redo.len() > 0 && touches(app.history.redo.last(), id)
            || app.redone().doc.set.get(id) == app.doc.set.get(id),
{
    let s = app.doc.set;
    if app.history.undo.len() > 0 && !touches(app.history.undo.last(), id) {
        let group = app.history.undo.last();
        lemma_inverses_touch(s, group, app.time as nat, app.me, id);
        lemma_untouched(s, inverses(s, group, app.time as nat, app.me), id);
    }
    if app.history.redo.len() > 0 && !touches(app.history.redo.last(), id) {
        let group = app.history.redo.last();
        lemma_inverses_touch(s, group, app.time as nat, app.me, id);
        lemma_untouched(s, inverses(s, group, app.time as nat, app.me), id);
    }
}

/// The inverses of removes add what is known of each element, later than `time`.
proof fn lemma_inverses_of_removes(
    set: SetView,
    ops: Seq<OpView>,
    time: nat,
    me: ClientId,
    id: StrokeId,
)
    requires
        named(set),
        time + ops.len() <= u64::MAX,
        forall|i: int| 0 <= i < ops.len() ==> #[trigger] ops[i] is Remove,
    ensures
        ({
            let all = inverses(set, ops, time, me);
            &&& forall|i: int|
                0 <= i < all.len() ==> (#[trigger] all[i]) is Add && all[i].ts().counter > time && (
                all[i].id() == id ==> set.get_any(id) == Some(all[i]->stroke))
            &&& touches(ops, id) && set.get_any(id) is Some ==> touches(all, id)
        }),
    decreases ops.len(),
{
    if ops.len() > 0 {
        let front = ops.drop_last();
        assert forall|i: int| 0 <= i < front.len() implies #[trigger] front[i] is Remove by {
            assert(front[i] == ops[i]);
        }
        lemma_inverses_of_removes(set, front, time + 1, me, id);
        let rest = inverses(set, front, time + 1, me);
        let all = inverses(set, ops, time, me);
        let last = ops.last();
        assert(ops[ops.len() - 1] is Remove);
        assert(set.entry(last.id()).add matches Some(a) ==> a.stroke.id == last.id());
        assert forall|i: int| 0 <= i < all.len() implies (#[trigger] all[i]) is Add
            && all[i].ts().counter > time && (all[i].id() == id ==> set.get_any(id) == Some(
            all[i]->stroke,
        )) by {
            if all.len() == rest.len() {
                assert(all[i] == rest[i]);
            } else if i > 0 {
                assert(all[i] == rest[i - 1]);
            }
        }
        if touches(ops, id) && set.get_any(id) is Some {
            let k = choose|k: int| 0 <= k < ops.len() && (#[trigger] ops[k]).id() == id;
            if k < front.len() {
                assert(front[k].id() == id);
                let j = choose|j: int| 0 <= j < rest.len() && (#[trigger] rest[j]).id() == id;
                if all.len() == rest.len() {
                    assert(all[j].id() == id);
                } else {
                    assert(all[j + 1] == rest[j]);
                    assert(all[j + 1].id() == id);
                }
            } else {
                assert(all[0].id() == id);
            }
        }
    }
}

/// Adds of one payload, later than what hid it, bring it back.
proof fn lemma_brought_back(
    set: SetView,
    ops: Seq<OpView>,
    id: StrokeId,
    stroke: StrokeView,
    time: u64,
)
    requires
        set.get_any(id) == Some(stroke),
        set.entry(id).removed matches Some(r) ==> r.counter <= time,
        forall|i: int|
            0 <= i < ops.len() ==> (#[trigger] ops[i]) is Add && (ops[i].id() == id
                ==> ops[i]->stroke == stroke && ops[i].ts().counter > time),
    ensures
        ({
            let e = set.apply_all(ops).entry(id);
            &&& e.removed == set.entry(id).removed
            &&& e.add is Some && e.add->0.stroke == stroke
            &&& touches(ops, id) ==> e.add->0.ts.counter > time
        }),
    decreases ops.len(),
{
    if ops.len() > 0 {
        let front = ops.drop_last();
        assert forall|i: int| 0 <= i < front.len() implies (#[trigger] front[i]) is Add && (
        front[i].id() == id ==> front[i]->stroke == stroke && front[i].ts().counter > time) by {
            assert(front[i] == ops[i]);
        }
        lemma_brought_back(set, front, id, stroke, time);
        let last = ops[ops.len() - 1];
        assert(last == ops.last() && last is Add);
        if touches(ops, id) && last.id() != id {
            let k = choose|k: int| 0 <= k < ops.len() && (#[trigger] ops[k]).id() == id;
            assert(front[k].id() == id);
        }
    }
}

/// Undoing a gesture that erased brings back every stroke it erased.
pub proof fn law_undo_brings_back_what_was_erased(app: AppView, id: StrokeId)
    requires
        app.sane(),
        named(app.doc.set),
        app.time + app.undo_ticks() <= u64::MAX,
        app.history.undo.len() > 0,
        forall|i: int|
            0 <= i < app.history.undo.last().len() ==> #[trigger] app.history.undo.last()[i]
                is Remove,
        touches(app.history.undo.last(), id),
        app.doc.set.get_any(id) is Some,
    ensures
        app.undone().doc.set.get(id) == app.doc.set.get_any(id),
{
    lemma_erased_comes_back(app, id);
}

proof fn lemma_erased_comes_back(app: AppView, id: StrokeId)
    requires
        app.doc.set.known_by(app.time),
        named(app.doc.set),
        app.time + app.undo_ticks() <= u64::MAX,
        app.history.undo.len() > 0,
        forall|i: int|
            0 <= i < app.history.undo.last().len() ==> #[trigger] app.history.undo.last()[i]
                is Remove,
        touches(app.history.undo.last(), id),
        app.doc.set.get_any(id) is Some,
    ensures
        app.undone().doc.set.get(id) == app.doc.set.get_any(id),
{
    let s = app.doc.set;
    let group = app.history.undo.last();
    let ops = inverses(s, group, app.time as nat, app.me);
    lemma_inverses_of_removes(s, group, app.time as nat, app.me, id);
    let e = s.entry(id);
    assert(s.entries.contains_key(id));
    if e.removed is Some {
        assert(s.entries[id].mentions(e.removed->0));
        assert(s.mentions(e.removed->0));
    }
    lemma_brought_back(s, ops, id, s.get_any(id)->0, app.time);
}

/// A gesture still holds: it is about different elements, what it added is
/// visible, and what it removed is not, though its payload is known.
pub open spec fn in_effect(set: SetView, group: Seq<OpView>) -> bool {
    &&& forall|i: int, j: int|
        0 <= i < group.len() && 0 <= j < group.len() && (#[trigger] group[i]).id() == (
        #[trigger] group[j]).id() ==> i == j
    &&& forall|i: int|
        0 <= i < group.len() ==> match #[trigger] group[i] {
            OpView::Add { stroke, .. } => set.shows(stroke.id),
            OpView::Remove { id, .. } => !set.shows(id) && set.get_any(id) is Some,
        }
}

/// Operations carry consecutive ticks of a clock that showed `time`.
pub open spec fn ticked(ops: Seq<OpView>, time: int, me: ClientId) -> bool {
    forall|i: int|
        0 <= i < ops.len() ==> (#[trigger] ops[i]).ts() == (Timestamp {
            counter: (time + 1 + i) as u64,
            client: me,
        })
}

/// Where every operation of a group can be inverted, each is, newest first.
proof fn lemma_inverses_at(set: SetView, ops: Seq<OpView>, time: nat, me: ClientId)
    requires
        forall|i: int|
            0 <= i < ops.len() ==> (#[trigger] ops[i]) is Add || set.get_any(ops[i].id()) is Some,
    ensures
        ({
            let all = inverses(set, ops, time, me);
            &&& all.len() == ops.len()
            &&& forall|k: int|
                0 <= k < all.len() ==> #[trigger] all[k] == set.inverse(
                    ops[ops.len() - 1 - k],
                    Timestamp { counter: (time + 1 + k) as u64, client: me },
                )->0
        }),
    decreases ops.len(),
{
    if ops.len() > 0 {
        let front = ops.drop_last();
        assert forall|i: int| 0 <= i < front.len() implies (#[trigger] front[i]) is Add
            || set.get_any(front[i].id()) is Some by {
            assert(front[i] == ops[i]);
        }
        lemma_inverses_at(set, front, time + 1, me);
        let rest = inverses(set, front, time + 1, me);
        let all = inverses(set, ops, time, me);
        assert(ops[ops.len() - 1] == ops.last());
        assert forall|k: int| 0 <= k < all.len() implies #[trigger] all[k] == set.inverse(
            ops[ops.len() - 1 - k],
            Timestamp { counter: (time + 1 + k) as u64, client: me },
        )->0 by {
            if k > 0 {
                assert(all[k] == rest[k - 1]);
                assert(front[front.len() - 1 - (k - 1)] == ops[ops.len() - 1 - k]);
            }
        }
    }
}

/// One operation on an element, among others on other elements, settles it.
proof fn lemma_one_op(set: SetView, ops: Seq<OpView>, at: int)
    requires
        0 <= at < ops.len(),
        forall|i: int|
            0 <= i < ops.len() && i != at ==> (#[trigger] ops[i]).id() != ops[at].id(),
    ensures
        set.apply_all(ops).entry(ops[at].id()) == set.entry(ops[at].id()).apply(ops[at]),
    decreases ops.len(),
{
    let front = ops.drop_last();
    let id = ops[at].id();
    assert(ops[ops.len() - 1] == ops.last());
    lemma_entry_after(set.apply_all(front), ops.last(), id);
    if at < front.len() {
        assert(front[at] == ops[at]);
        assert forall|i: int| 0 <= i < front.len() && i != at implies (#[trigger] front[i]).id()
            != front[at].id() by {
            assert(front[i] == ops[i]);
        }
        lemma_one_op(set, front, at);
    } else {
        assert forall|i: int| 0 <= i < front.len() implies (#[trigger] front[i]).id() != id by {
            assert(front[i] == ops[i]);
        }
        lemma_untouched(set, front, id);
    }
}

/// Operations keep every payload under its own id.
proof fn lemma_stays_named(set: SetView, ops: Seq<OpView>)
    requires
        named(set),
    ensures
        named(set.apply_all(ops)),
    decreases ops.len(),
{
    if ops.len() > 0 {
        let front = set.apply_all(ops.drop_last());
        lemma_stays_named(set, ops.drop_last());
        let t = set.apply_all(ops);
        assert forall|q: StrokeId| (#[trigger] t.entry(q)).add is Some implies t.entry(
            q,
        ).add->0.stroke.id == q by {
            lemma_entry_after(front, ops.last(), q);
            assert(front.entry(q).add is Some ==> front.entry(q).add->0.stroke.id == q);
        }
    }
}

/// The whole newest gesture, where it still holds, is taken back by an undo and
/// restored by the redo after it. The inverse operations of both carry strictly
/// rising stamps, newer than everything before them, and the history is as long
/// as it was.
pub proof fn law_redo_restores_what_undo_took(app: AppView, id: StrokeId)
    requires
        app.sane(),
        named(app.doc.set),
        app.history.undo.len() > 0,
        in_effect(app.doc.set, app.history.undo.last()),
        app.time + 2 * app.undo_ticks() <= u64::MAX,
    ensures
        ({
            let group = app.history.undo.last();
            let gone = app.undone();
            let back = gone.redone();
            &&& forall|i: int|
                0 <= i < group.len() && (#[trigger] group[i]).id() == id
                    ==> gone.doc.set.get(id) == (if group[i] is Add {
                    None
                } else {
                    app.doc.set.get_any(id)
                })
            &&& back.doc.set.get(id) == app.doc.set.get(id)
            &&& gone.history.redo.last().len() == group.len()
            &&& ticked(gone.history.redo.last(), app.time as int, app.me)
            &&& gone.history.undo.len() == app.history.undo.len() - 1
            &&& gone.history.redo.len() == app.history.redo.len() + 1
            &&& back.history.undo.last().len() == group.len()
            &&& ticked(back.history.undo.last(), app.time + group.len(), app.me)
            &&& back.history.undo.len() == app.history.undo.len()
            &&& back.history.redo == app.history.redo
        }),
{
    let s = app.doc.set;
    let group = app.history.undo.last();
    let n = group.len() as int;
    let gone = app.undone();
    let back = gone.redone();
    let first = inverses(s, group, app.time as nat, app.me);
    assert forall|i: int| 0 <= i < n implies (#[trigger] group[i]) is Add || s.get_any(
        group[i].id(),
    ) is Some by {}
    lemma_inverses_at(s, group, app.time as nat, app.me);
    let t = s.apply_all(first);
    assert(gone.doc.set == t);
    assert(gone.history.redo.last() == first);
    assert forall|k: int| 0 <= k < n implies (#[trigger] first[k]).id() == group[n - 1 - k].id() by {
        let op = group[n - 1 - k];
        assert(s.entry(op.id()).add is Some ==> s.entry(op.id()).add->0.stroke.id == op.id());
    }
    lemma_stays_named(s, first);
    assert forall|k: int| 0 <= k < n implies (#[trigger] first[k]) is Add || t.get_any(
        first[k].id(),
    ) is Some by {
        if first[k] is Remove {
            lemma_gesture_taken_back(app, first, n - 1 - k);
        }
    }
    let second = inverses(t, first, (app.time + n) as nat, app.me);
    lemma_inverses_at(t, first, (app.time + n) as nat, app.me);
    let u = t.apply_all(second);
    assert(back.doc.set == u);
    assert(back.history.undo.last() == second);
    assert(back.history.redo =~= app.history.redo);
    assert forall|k: int| 0 <= k < n implies (#[trigger] second[k]).id() == group[k].id() by {
        let op = first[n - 1 - k];
        assert(op.id() == group[k].id());
        assert(t.entry(op.id()).add is Some ==> t.entry(op.id()).add->0.stroke.id == op.id());
    }
    if touches(group, id) {
        let j = choose|j: int| 0 <= j < n && (#[trigger] group[j]).id() == id;
        lemma_gesture_taken_back(app, first, j);
        assert(second[j].id() == id);
        assert forall|i: int| 0 <= i < n && i != j implies (#[trigger] second[i]).id()
            != second[j].id() by {
            assert(group[i].id() != group[j].id());
        }
        lemma_one_op(t, second, j);
        assert(first[n - 1 - j].id() == group[j].id());
        assert(second[j] == t.inverse(
            first[n - 1 - j],
            Timestamp { counter: (app.time + n + 1 + j) as u64, client: app.me },
        )->0);
    } else {
        lemma_inverses_touch(s, group, app.time as nat, app.me, id);
        lemma_untouched(s, first, id);
        lemma_inverses_touch(t, first, (app.time + n) as nat, app.me, id);
        lemma_untouched(t, second, id);
    }
}

/// What an undo does to the element of operation `j` of the newest gesture.
proof fn lemma_gesture_taken_back(app: AppView, first: Seq<OpView>, j: int)
    requires
        app.sane(),
        named(app.doc.set),
        app.history.undo.len() > 0,
        in_effect(app.doc.set, app.history.undo.last()),
        app.time + app.undo_ticks() <= u64::MAX,
        0 <= j < app.history.undo.last().len() == first.len(),
        forall|k: int|
            0 <= k < first.len() ==> #[trigger] first[k] == app.doc.set.inverse(
                app.history.undo.last()[first.len() - 1 - k],
                Timestamp { counter: (app.time + 1 + k) as u64, client: app.me },
            )->0,
        forall|k: int|
            0 <= k < first.len() ==> (#[trigger] first[k]).id() == app.history.undo.last()[
            first.len() - 1 - k].id(),
    ensures
        ({
            let op = app.history.undo.last()[j];
            let e = app.doc.set.entry(op.id());
            let after = app.doc.set.apply_all(first).entry(op.id());
            &&& after.add is Some
            &&& after.add->0.stroke == e.add->0.stroke
            &&& after.visible() != e.visible()
            &&& e.visible() == (op is Add)
            &&& after.add->0.ts.counter <= app.time + first.len()
            &&& after.removed matches Some(r) ==> r.counter <= app.time + first.len()
        }),
{
    let s = app.doc.set;
    let group = app.history.undo.last();
    let n = group.len() as int;
    let at = n - 1 - j;
    let op = group[j];
    let id = op.id();
    assert(first[at].id() == id);
    assert forall|i: int| 0 <= i < n && i != at implies (#[trigger] first[i]).id()
        != first[at].id() by {
        assert(group[n - 1 - i].id() != group[j].id());
    }
    lemma_one_op(s, first, at);
    let e = s.entry(id);
    assert(e.add is Some);
    assert(s.entries.contains_key(id));
    assert(s.mentions(e.add->0.ts)) by {
        assert(s.entries[id].mentions(e.add->0.ts));
    }
    if e.removed is Some {
        assert(s.mentions(e.removed->0)) by {
            assert(s.entries[id].mentions(e.removed->0));
        }
    }
}

/// Clearing is undone as one gesture: every stroke is back.
pub proof fn law_clear_can_be_undone(app: AppView, id: StrokeId)
    requires
        app.sane(),
        app.doc.set.indexed(),
        named(app.doc.set),
        app.doc.set.order.dom().finite(),
        ids_by(app.doc.set.visible(), app.me).len() > 0,
        app.time + 2 * ids_by(app.doc.set.visible(), app.me).len() <= u64::MAX,
    ensures
        app.cleared().undone().doc.set.get(id) == app.doc.set.get(id),
{
    let s = app.doc.set;
    let ids = ids_by(s.visible(), app.me);
    let ops = stamped_removes(ids, app.time as nat, app.me);
    let gone = app.cleared();
    let t = gone.doc.set;
    lemma_own_ids(s, app.me);
    law_removes_hide_exactly(s, ids, app.time as nat, app.me);
    assert(t == s.apply_all(ops));
    assert(gone.history.undo.last() == ops);
    assert(named(t)) by {
        assert forall|q: StrokeId| (#[trigger] t.entry(q)).add is Some implies t.entry(
            q,
        ).add->0.stroke.id == q by {
            assert(t.get_any(q) == s.get_any(q));
            assert(s.entry(q).add is Some);
        }
    }
    if ids.contains(id) {
        let k = choose|k: int| 0 <= k < ids.len() && ids[k] == id;
        assert(ops[k].id() == id);
        assert(t.known_by(gone.time)) by {
            lemma_known_after(s, ops, gone.time);
        }
        assert(t.get_any(id) == s.get_any(id));
        lemma_erased_comes_back(gone, id);
    } else {
        assert forall|i: int| 0 <= i < ops.len() implies (#[trigger] ops[i]).id() != id by {
            assert(ids[i] != id);
        }
        lemma_inverses_touch(t, ops, gone.time as nat, gone.me, id);
        lemma_untouched(t, inverses(t, ops, gone.time as nat, gone.me), id);
        assert(t.entry(id) == s.entry(id));
    }
}

/// A shape is two corners: it keeps the one where the drag began, and the other
/// follows the pointer.
pub proof fn law_shapes_keep_two_corners(d: DrawingView, at: Point, far: bool)
    requires
        d.stroke.kind is Line || d.stroke.kind is Rect || d.stroke.kind is Ellipse,
        1 <= d.stroke.points.len() <= 2,
    ensures
        d.extended(at, far).stroke.points == seq![d.stroke.points[0], at],
{
    if d.stroke.points.len() == 2 && d.stroke.points[1] == at {
        assert(d.stroke.points =~= seq![d.stroke.points[0], at]);
    }
}

/// Peers see what is drawn: where a preview shows what was streamed so far, it
/// shows the whole drawing after the next chunk.
pub proof fn law_previews_follow_the_drawing(d: DrawingView, preview: StrokeView)
    requires
        d.sent <= d.stroke.points.len(),
        d.stroke.kind == KindView::Freehand ==> preview.kind == KindView::Freehand
            && preview.points == d.stroke.points.take(d.sent as int),
    ensures
        d.delta().apply_to(preview).kind == d.stroke.kind,
        d.delta().apply_to(preview).points == d.stroke.points,
        !d.streamed().unsent(),
        d.sent == 0 ==> d.delta().apply_to(d.delta().start_preview()) == d.stroke,
{
    if d.stroke.kind == KindView::Freehand {
        let points = d.stroke.points;
        assert(points.take(d.sent as int) + points.skip(d.sent as int) =~= points);
    }
    if d.sent == 0 {
        assert(Seq::<Point>::empty() + d.stroke.points.skip(0) =~= d.stroke.points);
    }
}

/// A newcomer sees the room: its document is the snapshot it is welcomed with,
/// and stays the room's as operations come in.
pub proof fn law_newcomers_see_the_room(
    app: AppView,
    room: RoomView,
    time: u64,
    ops: Seq<OpView>,
)
    requires
        app.doc.set == SetView::empty(),
        room.state.sound(),
    ensures
        app.merged(room.state, time).doc.set == room.state,
        app.merged(room.state, time).heard_ops(ops).doc.set == room.with_ops(ops).state,
{
    let none = SetView::empty();
    let s = room.state;
    assert(none.sound()) by {
        assert(none.entries.dom() =~= Set::empty());
    }
    assert(none.compatible(s));
    law_merge_commutes(none, s);
    lemma_sorted_pairs(Seq::<(StrokeId, EntryView)>::empty());
    assert(pairs_map(Seq::<(StrokeId, EntryView)>::empty()) =~= none.entries);
    assert(none.ops() =~= Seq::empty());
    assert(s.merge(none) == s);
    law_remote_ops_are_applied(app.merged(s, time), ops);
}

/// A peer that comes back merges the room's state and sends what it did in the
/// meantime; then the two are the same.
pub proof fn law_returning_peers_catch_up(
    seen: Seq<OpView>,
    stored: Seq<OpView>,
    queued: Seq<OpView>,
)
    requires
        unique_adds((seen + stored).to_set()),
        forall|op: OpView| #[trigger]
            seen.contains(op) ==> stored.contains(op) || queued.contains(op),
        forall|op: OpView| #[trigger] queued.contains(op) ==> seen.contains(op),
    ensures
        ({
            let peer = SetView::empty().apply_all(seen);
            let room = SetView::empty().apply_all(stored);
            peer.merge(room) == room.apply_all(queued)
        }),
{
    law_merge_is_seeing_both(seen, stored);
    let a = seen + stored;
    let b = stored + queued;
    assert(a.to_set() =~= b.to_set()) by {
        assert forall|op: OpView| a.contains(op) <==> b.contains(op) by {
            lemma_contains_either(seen, stored, op);
            lemma_contains_either(stored, queued, op);
        }
    }
    law_replicas_converge(a, b);
    SetView::empty().lemma_apply_all_concat(stored, queued);
}

proof fn lemma_contains_either(a: Seq<OpView>, b: Seq<OpView>, op: OpView)
    ensures
        (a + b).contains(op) <==> a.contains(op) || b.contains(op),
{
    if (a + b).contains(op) {
        let i = choose|i: int| 0 <= i < (a + b).len() && (a + b)[i] == op;
        if i < a.len() {
            assert(a[i] == op);
        } else {
            assert(b[i - a.len()] == op);
        }
    }
    if a.contains(op) {
        let i = choose|i: int| 0 <= i < a.len() && a[i] == op;
        assert((a + b)[i] == op);
    }
    if b.contains(op) {
        let i = choose|i: int| 0 <= i < b.len() && b[i] == op;
        assert((a + b)[a.len() + i] == op);
    }
}

} // verus!
