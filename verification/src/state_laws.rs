//! Laws of the replicated state seen from outside: what operations amount to,
//! what a merge keeps, what a counter or a reported number means, and what the
//! history remembers.

use vstd::prelude::*;

use crate::crdt::{EntryView, OpView, SetView, Timestamp};
use crate::crdt_laws::{law_replica_reflects_its_ops, lemma_entry_after, named, unique_adds};
use crate::document::{DocView, HistoryView};
use crate::order_laws::{law_apply_reports_visible_changes, lemma_unchanged};
use crate::ordmap::{
    ascending, lemma_pairs_map_at, lemma_pairs_map_dom, lemma_sorted_pairs_exist, pairs_keys,
    pairs_map, sorted_pairs, Ranked,
};
use crate::types::StrokeId;

verus! {

/// A stroke is on the board exactly where one of its adds is later than all of
/// its removes. What is shown is the newest add.
pub proof fn law_newest_add_shows(ops: Seq<OpView>, id: StrokeId)
    requires
        unique_adds(ops.to_set()),
    ensures
        ({
            let s = SetView::empty().apply_all(ops);
            &&& s.get(id) is Some <==> exists|i: int|
                0 <= i < ops.len() && (#[trigger] ops[i]) is Add && ops[i].id() == id && forall|
                    j: int,
                |
                    0 <= j < ops.len() && (#[trigger] ops[j]) is Remove && ops[j].id() == id
                        ==> ops[i].ts().after(ops[j].ts())
            &&& s.get_any(id) is Some <==> exists|i: int|
                0 <= i < ops.len() && (#[trigger] ops[i]) is Add && ops[i].id() == id
            &&& s.get(id) is Some ==> s.get(id) == s.get_any(id)
            &&& s.get_any(id) matches Some(stroke) ==> exists|i: int|
                0 <= i < ops.len() && (#[trigger] ops[i]) == (OpView::Add {
                    stroke,
                    ts: ops[i].ts(),
                }) && forall|j: int|
                    0 <= j < ops.len() && (#[trigger] ops[j]) is Add && ops[j].id() == id
                        ==> !ops[j].ts().after(ops[i].ts())
        }),
{
    let s = SetView::empty().apply_all(ops);
    law_replica_reflects_its_ops(ops);
    let seen = ops.to_set();
    assert(s.entry_reflects(id, seen));
    let e = s.entry(id);
    assert forall|i: int| 0 <= i < ops.len() implies seen.contains(#[trigger] ops[i]) by {
        assert(ops.contains(ops[i]));
    }
    if let Some(a) = e.add {
        let add = OpView::Add { stroke: a.stroke, ts: a.ts };
        assert(ops.contains(add));
        let n = choose|n: int| 0 <= n < ops.len() && ops[n] == add;
        assert(ops[n] is Add && ops[n].id() == id);
        assert forall|j: int|
            0 <= j < ops.len() && (#[trigger] ops[j]) is Add && ops[j].id()
                == id implies !ops[j].ts().after(a.ts) by {
            assert(seen.contains(ops[j]));
        }
        if e.visible() {
            assert forall|j: int|
                0 <= j < ops.len() && (#[trigger] ops[j]) is Remove && ops[j].id()
                    == id implies ops[n].ts().after(ops[j].ts()) by {
                assert(seen.contains(ops[j]));
            }
        }
    }
    if let Some(r) = e.removed {
        let rem = OpView::Remove { id, ts: r };
        assert(ops.contains(rem));
        let n = choose|n: int| 0 <= n < ops.len() && ops[n] == rem;
        assert(ops[n] is Remove && ops[n].id() == id);
    }
    if exists|i: int|
        0 <= i < ops.len() && (#[trigger] ops[i]) is Add && ops[i].id() == id && forall|j: int|
            0 <= j < ops.len() && (#[trigger] ops[j]) is Remove && ops[j].id() == id
                ==> ops[i].ts().after(ops[j].ts()) {
        let i = choose|i: int|
            0 <= i < ops.len() && (#[trigger] ops[i]) is Add && ops[i].id() == id && forall|j: int|
                0 <= j < ops.len() && (#[trigger] ops[j]) is Remove && ops[j].id() == id
                    ==> ops[i].ts().after(ops[j].ts());
        assert(seen.contains(ops[i]));
        assert(e.add is Some);
        assert(!ops[i].ts().after(e.add->0.ts));
    }
    if exists|i: int| 0 <= i < ops.len() && (#[trigger] ops[i]) is Add && ops[i].id() == id {
        let i = choose|i: int|
            0 <= i < ops.len() && (#[trigger] ops[i]) is Add && ops[i].id() == id;
        assert(seen.contains(ops[i]));
    }
}

/// A timestamp occurs in a replica only where an operation brought it.
pub proof fn law_timestamps_come_from_operations(ops: Seq<OpView>, ts: Timestamp)
    requires
        unique_adds(ops.to_set()),
        SetView::empty().apply_all(ops).mentions(ts),
    ensures
        exists|i: int| 0 <= i < ops.len() && (#[trigger] ops[i]).ts() == ts,
{
    let s = SetView::empty().apply_all(ops);
    law_replica_reflects_its_ops(ops);
    let seen = ops.to_set();
    let id = choose|id: StrokeId| #[trigger]
        s.entries.contains_key(id) && s.entries[id].mentions(ts);
    assert(s.entry_reflects(id, seen));
    let e = s.entry(id);
    let op = if e.key() == Some(ts) {
        OpView::Add { stroke: e.add->0.stroke, ts }
    } else {
        OpView::Remove { id, ts }
    };
    assert(seen.contains(op) && ops.contains(op));
    let n = choose|n: int| 0 <= n < ops.len() && ops[n] == op;
    assert(ops[n].ts() == ts);
}

/// No operation is newer than every timestamp in the replica that applied it.
pub proof fn law_newest_timestamp_is_kept(ops: Seq<OpView>, i: int)
    requires
        unique_adds(ops.to_set()),
        0 <= i < ops.len(),
    ensures
        exists|ts: Timestamp| #[trigger]
            SetView::empty().apply_all(ops).mentions(ts) && !ops[i].ts().after(ts),
{
    let s = SetView::empty().apply_all(ops);
    law_replica_reflects_its_ops(ops);
    let seen = ops.to_set();
    let op = ops[i];
    assert(ops.contains(op) && seen.contains(op));
    let id = op.id();
    assert(s.entries.contains_key(id));
    assert(s.entry_reflects(id, seen));
    let e = s.entry(id);
    let ts = if op is Add {
        e.add->0.ts
    } else {
        e.removed->0
    };
    assert(s.entries[id].mentions(ts));
    assert(s.mentions(ts));
}

/// Replaying one element of a replica.
proof fn lemma_entry_replayed(s: SetView, id: StrokeId, e: EntryView, q: StrokeId)
    requires
        e.add matches Some(a) ==> a.stroke.id == id,
    ensures
        s.apply_all(e.ops(id)).entry(q) == (if q == id {
            s.entry(id).join(e)
        } else {
            s.entry(q)
        }),
{
    let ops = e.ops(id);
    let add = OpView::Add { stroke: e.add->0.stroke, ts: e.add->0.ts };
    let rem = OpView::Remove { id, ts: e.removed->0 };
    reveal_with_fuel(SetView::apply_all, 3);
    if e.add is Some && e.removed is Some {
        assert(ops =~= seq![add, rem]);
        assert(ops.drop_last() =~= seq![add]);
        assert(seq![add].drop_last() =~= Seq::<OpView>::empty());
        lemma_entry_after(s, add, q);
        lemma_entry_after(s.apply(add), rem, q);
    } else if e.add is Some {
        assert(ops =~= seq![add]);
        assert(ops.drop_last() =~= Seq::<OpView>::empty());
        lemma_entry_after(s, add, q);
    } else if e.removed is Some {
        assert(ops =~= seq![rem]);
        assert(ops.drop_last() =~= Seq::<OpView>::empty());
        lemma_entry_after(s, rem, q);
    } else {
        assert(ops =~= Seq::<OpView>::empty());
    }
}

/// Replaying part of a replica.
proof fn lemma_replayed(a: SetView, b: SetView, pairs: Seq<(StrokeId, EntryView)>, q: StrokeId)
    requires
        named(b),
        ascending(pairs_keys(pairs)),
        forall|k: int|
            0 <= k < pairs.len() ==> b.entries.contains_key((#[trigger] pairs[k]).0)
                && b.entries[pairs[k].0] == pairs[k].1,
    ensures
        a.apply_all(SetView::ops_of(pairs)).entry(q) == (if pairs_map(pairs).contains_key(q) {
            a.entry(q).join(b.entry(q))
        } else {
            a.entry(q)
        }),
    decreases pairs.len(),
{
    if pairs.len() > 0 {
        let front = pairs.drop_last();
        let (id, e) = pairs.last();
        assert(pairs[pairs.len() - 1] == (id, e));
        let keys = pairs_keys(pairs);
        assert(ascending(pairs_keys(front))) by {
            assert forall|i: int, j: int| 0 <= i < j < front.len() implies pairs_keys(
                front,
            )[i].rank() < pairs_keys(front)[j].rank() by {
                assert(keys[i].rank() < keys[j].rank());
            }
        }
        assert forall|k: int| 0 <= k < front.len() implies b.entries.contains_key(
            (#[trigger] front[k]).0,
        ) && b.entries[front[k].0] == front[k].1 by {
            assert(pairs[k] == front[k]);
        }
        lemma_replayed(a, b, front, q);
        lemma_pairs_map_dom(front, q);
        lemma_pairs_map_dom(pairs, q);
        assert(!pairs_map(front).contains_key(id)) by {
            lemma_pairs_map_dom(front, id);
            if pairs_map(front).contains_key(id) {
                let i = choose|i: int| 0 <= i < front.len() && (#[trigger] front[i]).0 == id;
                assert(keys[i].rank() < keys[pairs.len() - 1].rank());
            }
        }
        assert(pairs_map(pairs).contains_key(q) == (pairs_map(front).contains_key(q) || q == id))
            by {
            if pairs_map(front).contains_key(q) {
                let i = choose|i: int| 0 <= i < front.len() && (#[trigger] front[i]).0 == q;
                assert(pairs[i].0 == q);
            }
            if pairs_map(pairs).contains_key(q) && q != id {
                let i = choose|i: int| 0 <= i < pairs.len() && (#[trigger] pairs[i]).0 == q;
                assert(front[i].0 == q);
            }
        }
        assert(b.entry(id) == e);
        let s0 = a.apply_all(SetView::ops_of(front));
        let ops = e.ops(id);
        a.lemma_apply_all_concat(SetView::ops_of(front), ops);
        lemma_entry_replayed(s0, id, e, q);
    } else {
        lemma_pairs_map_dom(pairs, q);
        assert(SetView::ops_of(pairs) =~= Seq::empty());
    }
}

/// After a merge every element holds the newest add and the newest remove of
/// both replicas, whatever either of them held before.
pub proof fn law_merge_holds_the_newest(a: SetView, b: SetView, id: StrokeId)
    requires
        b.entries.dom().finite(),
        named(b),
    ensures
        ({
            let (x, y, m) = (a.entry(id), b.entry(id), a.merge(b).entry(id));
            &&& m.add == x.add || m.add == y.add
            &&& m.removed == x.removed || m.removed == y.removed
            &&& x.add matches Some(was) ==> m.add matches Some(now) && !was.ts.after(now.ts)
            &&& y.add matches Some(was) ==> m.add matches Some(now) && !was.ts.after(now.ts)
            &&& x.removed matches Some(was) ==> m.removed matches Some(now) && !was.after(now)
            &&& y.removed matches Some(was) ==> m.removed matches Some(now) && !was.after(now)
        }),
{
    let pairs = sorted_pairs(b.entries);
    lemma_sorted_pairs_exist(b.entries);
    assert forall|k: int| 0 <= k < pairs.len() implies b.entries.contains_key(
        (#[trigger] pairs[k]).0,
    ) && b.entries[pairs[k].0] == pairs[k].1 by {
        lemma_pairs_map_at(pairs, k);
    }
    lemma_replayed(a, b, pairs, id);
    assert(a.merge(b) == a.apply_all(SetView::ops_of(pairs)));
}

/// A document takes in another replica by merging its strokes with it.
pub proof fn law_documents_merge(d: DocView, s: SetView, id: StrokeId)
    requires
        s.entries.dom().finite(),
        named(s),
    ensures
        d.merged(s).set == d.set.merge(s),
        ({
            let (x, y, m) = (d.set.entry(id), s.entry(id), d.merged(s).set.entry(id));
            &&& m.add == x.add || m.add == y.add
            &&& m.removed == x.removed || m.removed == y.removed
            &&& x.add matches Some(was) ==> m.add matches Some(now) && !was.ts.after(now.ts)
            &&& y.add matches Some(was) ==> m.add matches Some(now) && !was.ts.after(now.ts)
            &&& x.removed matches Some(was) ==> m.removed matches Some(now) && !was.after(now)
            &&& y.removed matches Some(was) ==> m.removed matches Some(now) && !was.after(now)
        }),
{
    law_merge_holds_the_newest(d.set, s, id);
}

/// The strokes that a merge reports are those that appeared or disappeared.
pub proof fn law_merge_counts_what_toggles(before: SetView, after: SetView, id: StrokeId)
    ensures
        before.toggled(after).contains(id) <==> (before.get(id) is Some) != (after.get(
            id,
        ) is Some),
{
}

/// The operations of a sequence are applied one after another, and each counts
/// that changes what is drawn.
pub proof fn law_every_change_counts(s: SetView, ops: Seq<OpView>, op: OpView)
    ensures
        s.apply_all(Seq::empty()) == s,
        s.count_changes(Seq::empty()) == 0,
        s.apply_all(ops.push(op)) == s.apply_all(ops).apply(op),
        s.count_changes(ops) <= s.count_changes(ops.push(op)) <= s.count_changes(ops) + 1,
        s.apply_all(ops.push(op)).visible() != s.apply_all(ops).visible() ==> s.count_changes(
            ops.push(op),
        ) == s.count_changes(ops) + 1,
        ({
            let t = s.apply_all(ops);
            t.indexed() && t.order.dom().finite() && (op is Add ==> forall|id: StrokeId|
                (#[trigger] t.entry(id)).key() == Some(op.ts()) ==> id == op.id())
        }) ==> s.count_changes(ops.push(op)) == s.count_changes(ops) + (if s.apply_all(
            ops.push(op),
        ).visible() != s.apply_all(ops).visible() {
            1nat
        } else {
            0nat
        }),
{
    assert(ops.push(op).drop_last() =~= ops);
    let t = s.apply_all(ops);
    if !t.changes(op) {
        lemma_unchanged(t, op);
    } else if t.indexed() && t.order.dom().finite() && (op is Add ==> forall|id: StrokeId|
        (#[trigger] t.entry(id)).key() == Some(op.ts()) ==> id == op.id()) {
        law_apply_reports_visible_changes(t, op);
    }
}

/// Operations that change what is drawn are counted.
proof fn lemma_uncounted(s: SetView, ops: Seq<OpView>)
    requires
        s.count_changes(ops) == 0,
    ensures
        s.apply_all(ops).visible() == s.visible(),
    decreases ops.len(),
{
    if ops.len() > 0 {
        lemma_uncounted(s, ops.drop_last());
        lemma_unchanged(s.apply_all(ops.drop_last()), ops.last());
    }
}

/// A document's counter moves whenever what is drawn changes, by operations or
/// by a merge (unless there are as many changes as it takes to wrap it around).
pub proof fn law_counter_follows_the_drawing(d: DocView, op: OpView, ops: Seq<OpView>, s: SetView)
    requires
        d.set.count_changes(ops) < 0x1_0000_0000_0000_0000,
        d.set.count_changes(s.ops()) < 0x1_0000_0000_0000_0000,
    ensures
        d.applied(op).set == d.set.apply(op),
        d.applied_all(ops).set == d.set.apply_all(ops),
        d.applied(op).set.visible() != d.set.visible() ==> d.applied(op).generation
            != d.generation,
        d.applied_all(ops).set.visible() != d.set.visible() ==> d.applied_all(ops).generation
            != d.generation,
        d.merged(s).set.visible() != d.set.visible() ==> d.merged(s).generation != d.generation,
{
    if d.set.count_changes(ops) == 0 {
        lemma_uncounted(d.set, ops);
    }
    if d.set.count_changes(s.ops()) == 0 {
        lemma_uncounted(d.set, s.ops());
    }
    if !d.set.changes(op) {
        lemma_unchanged(d.set, op);
    }
}

/// Whether an element's state is newer in some part, and older in none.
spec fn newer(now: EntryView, was: EntryView) -> bool {
    &&& not_older(now, was)
    &&& now != was
}

spec fn not_older(now: EntryView, was: EntryView) -> bool {
    &&& was.add matches Some(x) ==> now.add matches Some(y) && (y == x || y.ts.after(x.ts))
    &&& was.removed matches Some(x) ==> now.removed matches Some(y) && (y == x || y.after(x))
}

proof fn lemma_fresh_moves(s: SetView, ops: Seq<OpView>)
    ensures
        !s.any_fresh(ops) ==> s.apply_all(ops).entries == s.entries,
        s.any_fresh(ops) ==> exists|id: StrokeId| #[trigger]
            newer(s.apply_all(ops).entry(id), s.entry(id)),
        forall|id: StrokeId| not_older(#[trigger] s.apply_all(ops).entry(id), s.entry(id)),
    decreases ops.len(),
{
    if ops.len() > 0 {
        let front = ops.drop_last();
        let op = ops.last();
        lemma_fresh_moves(s, front);
        let t = s.apply_all(front);
        let after = s.apply_all(ops);
        assert(after == t.apply(op));
        assert forall|id: StrokeId| not_older(#[trigger] after.entry(id), s.entry(id)) by {
            lemma_entry_after(t, op, id);
            assert(not_older(t.entry(id), s.entry(id)));
        }
        if t.entry(op.id()).fresh(op) {
            let id = op.id();
            lemma_entry_after(t, op, id);
            assert(not_older(t.entry(id), s.entry(id)));
            assert(newer(after.entry(id), s.entry(id)));
        } else {
            assert(t.entries.contains_key(op.id()));
            assert(after.entries =~= t.entries);
            if s.any_fresh(front) {
                let id = choose|id: StrokeId| #[trigger] newer(t.entry(id), s.entry(id));
                lemma_entry_after(t, op, id);
                assert(newer(after.entry(id), s.entry(id)));
            }
        }
        if s.any_fresh(front) && t.entry(op.id()).fresh(op) {
            assert(s.any_fresh(ops));
        }
    }
}

/// Operations are news exactly where they leave the set other than it was: no
/// later operation takes it back.
pub proof fn law_news_changes_the_set(s: SetView, ops: Seq<OpView>)
    ensures
        s.any_fresh(ops) <==> s.apply_all(ops).entries != s.entries,
        !s.any_fresh(ops) ==> s.apply_all(ops) == s,
{
    lemma_fresh_moves(s, ops);
    if s.any_fresh(ops) {
        let id = choose|id: StrokeId| #[trigger] newer(s.apply_all(ops).entry(id), s.entry(id));
        assert(s.apply_all(ops).entry(id) != s.entry(id));
    } else {
        lemma_stale(s, ops);
    }
}

proof fn lemma_stale(s: SetView, ops: Seq<OpView>)
    requires
        !s.any_fresh(ops),
    ensures
        s.apply_all(ops) == s,
    decreases ops.len(),
{
    if ops.len() > 0 {
        lemma_stale(s, ops.drop_last());
        let op = ops.last();
        assert(s.entries.contains_key(op.id()));
        assert(s.apply(op).entries =~= s.entries);
    }
}

/// A recorded gesture is the next to be undone, nothing can be redone after it,
/// and the gestures before it are kept: all of them as long as there are fewer
/// than 200, else all but the oldest.
pub proof fn law_history_remembers(h: HistoryView, group: Seq<OpView>)
    ensures
        ({
            let r = h.recorded(group);
            &&& r.undo.len() > 0 && r.undo.last() == group
            &&& r.redo.len() == 0
            &&& h.undo.len() < 200 ==> r.undo.len() == h.undo.len() + 1 && forall|i: int|
                0 <= i < h.undo.len() ==> r.undo[i] == #[trigger] h.undo[i]
            &&& h.undo.len() == 200 ==> r.undo.len() == 200 && forall|i: int|
                0 < i < 200 ==> r.undo[i - 1] == #[trigger] h.undo[i]
        }),
{
}

/// Undoing and redoing move one gesture over, as what takes it back, and touch
/// no other.
pub proof fn law_history_moves_one_gesture(h: HistoryView, group: Seq<OpView>)
    ensures
        h.undo.len() > 0 ==> ({
            let r = h.undone(group);
            &&& r.undo.len() == h.undo.len() - 1
            &&& r.redo.len() == h.redo.len() + 1
            &&& r.redo.last() == group
            &&& forall|i: int| 0 <= i < r.undo.len() ==> #[trigger] r.undo[i] == h.undo[i]
            &&& forall|i: int| 0 <= i < h.redo.len() ==> r.redo[i] == #[trigger] h.redo[i]
        }),
        h.redo.len() > 0 ==> ({
            let r = h.redone(group);
            &&& r.redo.len() == h.redo.len() - 1
            &&& r.undo.len() == h.undo.len() + 1
            &&& r.undo.last() == group
            &&& forall|i: int| 0 <= i < r.redo.len() ==> #[trigger] r.redo[i] == h.redo[i]
            &&& forall|i: int| 0 <= i < h.undo.len() ==> r.undo[i] == #[trigger] h.undo[i]
        }),
{
}

/// One timestamp is newer than another by its counter, and by its client where
/// the counters are the same.
pub proof fn law_newer_timestamps(a: Timestamp, b: Timestamp)
    ensures
        a.counter > b.counter ==> a.after(b),
        a.counter < b.counter ==> !a.after(b),
        a.counter == b.counter ==> (a.after(b) <==> a.client > b.client),
{
}

/// A list may name an element more than once: the newest add and the newest
/// remove of all its mentions count, in whatever order they come.
pub proof fn law_lists_hold_the_newest(pairs: Seq<(StrokeId, EntryView)>, i: int)
    requires
        0 <= i < pairs.len(),
        forall|j: int|
            0 <= j < pairs.len() ==> ((#[trigger] pairs[j]).1.add matches Some(a) ==> a.stroke.id
                == pairs[j].0),
    ensures
        ({
            let (id, was) = pairs[i];
            let now = SetView::load(pairs).entry(id);
            &&& was.add matches Some(x) ==> now.add matches Some(y) && !x.ts.after(y.ts)
            &&& was.removed matches Some(x) ==> now.removed matches Some(y) && !x.after(y)
            &&& now.add is Some ==> exists|j: int|
                0 <= j < pairs.len() && (#[trigger] pairs[j]).0 == id && pairs[j].1.add == now.add
            &&& now.removed is Some ==> exists|j: int|
                0 <= j < pairs.len() && (#[trigger] pairs[j]).0 == id && pairs[j].1.removed
                    == now.removed
        }),
{
    lemma_loaded(pairs, pairs[i].0);
    assert(no_older(SetView::load(pairs).entry(pairs[i].0), pairs[i].1));
}

proof fn lemma_loaded(pairs: Seq<(StrokeId, EntryView)>, id: StrokeId)
    requires
        forall|j: int|
            0 <= j < pairs.len() ==> ((#[trigger] pairs[j]).1.add matches Some(a) ==> a.stroke.id
                == pairs[j].0),
    ensures
        ({
            let now = SetView::load(pairs).entry(id);
            &&& forall|j: int|
                0 <= j < pairs.len() && (#[trigger] pairs[j]).0 == id ==> no_older(now, pairs[j].1)
            &&& now.add is Some ==> exists|j: int|
                0 <= j < pairs.len() && (#[trigger] pairs[j]).0 == id && pairs[j].1.add == now.add
            &&& now.removed is Some ==> exists|j: int|
                0 <= j < pairs.len() && (#[trigger] pairs[j]).0 == id && pairs[j].1.removed
                    == now.removed
        }),
    decreases pairs.len(),
{
    if pairs.len() > 0 {
        let front = pairs.drop_last();
        let last = pairs.len() - 1;
        assert(pairs[last] == pairs.last());
        assert forall|j: int| 0 <= j < front.len() implies ((#[trigger] front[j]).1.add matches Some(
            a,
        ) ==> a.stroke.id == front[j].0) by {
            assert(pairs[j] == front[j]);
        }
        lemma_loaded(front, id);
        let s = SetView::load(front);
        let (q, e) = pairs.last();
        if s.entries.contains_key(q) {
            lemma_entry_replayed(s, q, e, id);
        }
        let (was, now) = (s.entry(id), SetView::load(pairs).entry(id));
        if q == id && !s.entries.contains_key(q) {
            assert(was == EntryView::blank());
        }
        assert(now == (if q == id {
            was.join(e)
        } else {
            was
        }));
        assert forall|j: int| 0 <= j < pairs.len() && (#[trigger] pairs[j]).0 == id implies no_older(
            now,
            pairs[j].1,
        ) by {
            if j < last {
                assert(front[j].0 == id);
                assert(no_older(was, front[j].1));
            }
        }
        if now.add is Some {
            if q == id && now.add == e.add {
                assert(pairs[last].0 == id);
            } else {
                let j = choose|j: int|
                    0 <= j < front.len() && (#[trigger] front[j]).0 == id && front[j].1.add
                        == was.add;
                assert(pairs[j].0 == id);
            }
        }
        if now.removed is Some {
            if q == id && now.removed == e.removed {
                assert(pairs[last].0 == id);
            } else {
                let j = choose|j: int|
                    0 <= j < front.len() && (#[trigger] front[j]).0 == id && front[j].1.removed
                        == was.removed;
                assert(pairs[j].0 == id);
            }
        }
    }
}

/// Whether an element's state is as new as another in every part.
spec fn no_older(now: EntryView, was: EntryView) -> bool {
    &&& was.add matches Some(x) ==> now.add matches Some(y) && !x.ts.after(y.ts)
    &&& was.removed matches Some(x) ==> now.removed matches Some(y) && !x.after(y)
}

/// Two replicas are the same where they know of the same elements and of each the
/// same, whatever their draw order is kept as.
pub proof fn law_same_replicas(a: SetView, b: SetView)
    ensures
        a.same_as(b) <==> {
            &&& a.entries.dom() == b.entries.dom()
            &&& forall|id: StrokeId| #[trigger]
                a.entries.contains_key(id) ==> {
                    let (x, y) = (a.entries[id], b.entries[id]);
                    &&& x.removed == y.removed
                    &&& x.add is Some <==> y.add is Some
                    &&& x.add is Some ==> x.add->0.ts == y.add->0.ts && x.add->0.stroke.same_as(
                        y.add->0.stroke,
                    )
                }
        },
{
    if a.same_as(b) {
        assert forall|id: StrokeId| #[trigger] a.entries.contains_key(id) implies ({
            let (x, y) = (a.entries[id], b.entries[id]);
            &&& x.removed == y.removed
            &&& x.add is Some <==> y.add is Some
            &&& x.add is Some ==> x.add->0.ts == y.add->0.ts && x.add->0.stroke.same_as(
                y.add->0.stroke,
            )
        }) by {
            assert(a.entries[id].same_as(b.entries[id]));
        }
    }
}

/// A document's counter counts the changes, one by one, until it wraps around.
pub proof fn law_the_counter_counts(d: DocView, op: OpView, ops: Seq<OpView>, s: SetView)
    ensures
        d.set.changes(op) && d.generation < u64::MAX ==> d.applied(op).generation == d.generation
            + 1,
        !d.set.changes(op) ==> d.applied(op).generation == d.generation,
        d.generation + d.set.count_changes(ops) <= u64::MAX ==> d.applied_all(ops).generation
            == d.generation + d.set.count_changes(ops),
        d.generation + d.set.count_changes(s.ops()) <= u64::MAX ==> d.merged(s).generation
            == d.generation + d.set.count_changes(s.ops()),
        DocView::empty().generation == 0,
        DocView::empty().set.entries.dom() =~= Set::empty(),
        DocView::empty().set.order.dom() =~= Set::empty(),
{
}

} // verus!
