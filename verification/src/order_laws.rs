//! Laws of the draw order: which operations change what is on the board, and
//! where a stroke that comes back is drawn.

use vstd::prelude::*;

use crate::crdt::{EntryView, OpView, SetView, Timestamp};
use crate::crdt_laws::{
    law_draw_order, law_index_stays_exact, lemma_entry_after, lemma_order_stays_finite,
};
use crate::ordmap::sorted_pairs;
use crate::types::{StrokeId, StrokeView};

verus! {

impl SetView {
    /// The ids of the visible strokes in draw order, with their add timestamps.
    pub open spec fn drawn_ids(self) -> Seq<(Timestamp, StrokeId)> {
        self.visible().map_values(|p: (Timestamp, StrokeView)| (p.0, p.1.id))
    }
}

/// An operation reports a change exactly where what is drawn, or its order,
/// changes. Its add timestamp must not be that of another element.
pub proof fn law_apply_reports_visible_changes(s: SetView, op: OpView)
    requires
        s.indexed(),
        s.order.dom().finite(),
        op is Add ==> forall|id: StrokeId|
            (#[trigger] s.entry(id)).key() == Some(op.ts()) ==> id == op.id(),
    ensures
        s.changes(op) == (s.apply(op).drawn_ids() != s.drawn_ids()),
        s.changes(op) == (s.apply(op).visible() != s.visible()),
{
    let t = s.apply(op);
    let id = op.id();
    let (was, now) = (s.entry(id), s.entry(id).apply(op));
    law_index_stays_exact(s, op);
    lemma_after_one(s, op);
    lemma_order_stays_finite(s, seq![op]);
    assert forall|q: StrokeId| #[trigger] t.entry(q) == (if q == id {
        now
    } else {
        s.entry(q)
    }) by {
        lemma_entry_after(s, op, q);
    }
    if s.changes(op) {
        let k = if was.visible() {
            was.key()->0
        } else {
            now.key()->0
        };
        if was.visible() {
            assert(s.shows(id));
            assert(s.order.contains_key(k) && s.order[k] == id);
            if t.order.contains_key(k) {
                let q = t.order[k];
                assert(t.shows(q) && t.entry(q).key() == Some(k));
                if q != id {
                    assert(s.shows(q));
                    assert(s.order[s.entry(q).key()->0] == q);
                }
            }
        } else {
            assert(t.shows(id));
            assert(t.order.contains_key(k) && t.order[k] == id);
            if s.order.contains_key(k) {
                let q = s.order[k];
                assert(s.shows(q) && s.entry(q).key() == Some(k));
                assert(op is Add && op.ts() == k);
            }
        }
        assert(s.order.contains_key(k) != t.order.contains_key(k));
        lemma_drawn_at(s, k);
        lemma_drawn_at(t, k);
        if t.drawn_ids() == s.drawn_ids() {
            if exists|i: int| 0 <= i < s.visible().len() && (#[trigger] s.drawn_ids()[i]).0 == k {
                let i = choose|i: int|
                    0 <= i < s.visible().len() && (#[trigger] s.drawn_ids()[i]).0 == k;
                assert(t.drawn_ids()[i].0 == k && t.drawn_ids().len() == t.visible().len());
            } else {
                let i = choose|i: int|
                    0 <= i < t.visible().len() && (#[trigger] t.drawn_ids()[i]).0 == k;
                assert(s.drawn_ids()[i].0 == k && s.drawn_ids().len() == s.visible().len());
            }
        }
    } else {
        lemma_unchanged(s, op);
        assert(t.drawn_ids() =~= s.drawn_ids());
    }
}

/// An operation that changes nothing visible leaves what is drawn as it was.
pub proof fn lemma_unchanged(s: SetView, op: OpView)
    requires
        !s.changes(op),
    ensures
        s.apply(op).visible() == s.visible(),
{
    let t = s.apply(op);
    assert forall|q: StrokeId| #[trigger] t.get(q) == s.get(q) by {
        lemma_entry_after(s, op, q);
    }
    lemma_visible_in_same(s, t, sorted_pairs(s.order));
}

proof fn lemma_after_one(s: SetView, op: OpView)
    ensures
        s.apply_all(seq![op]) == s.apply(op),
{
    reveal_with_fuel(SetView::apply_all, 2);
    assert(seq![op].drop_last() =~= Seq::empty());
}

/// A timestamp is in the index exactly where something is drawn under it.
proof fn lemma_drawn_at(s: SetView, k: Timestamp)
    requires
        s.indexed(),
        s.order.dom().finite(),
    ensures
        s.order.contains_key(k) <==> exists|i: int|
            0 <= i < s.visible().len() && (#[trigger] s.drawn_ids()[i]).0 == k,
{
    law_draw_order(s);
    if s.order.contains_key(k) {
        let id = s.order[k];
        assert(s.shows(id));
        let want = (s.entry(id).key()->0, s.get(id)->0);
        let i = choose|i: int| 0 <= i < s.visible().len() && s.visible()[i] == want;
        assert(s.drawn_ids()[i].0 == k);
    }
    if exists|i: int| 0 <= i < s.visible().len() && (#[trigger] s.drawn_ids()[i]).0 == k {
        let i = choose|i: int| 0 <= i < s.visible().len() && (#[trigger] s.drawn_ids()[i]).0 == k;
        assert(s.order.contains_key(s.visible()[i].0));
    }
}

proof fn lemma_visible_in_same(s: SetView, t: SetView, index: Seq<(Timestamp, StrokeId)>)
    requires
        forall|q: StrokeId| #[trigger] t.get(q) == s.get(q),
    ensures
        t.visible_in(index) == s.visible_in(index),
    decreases index.len(),
{
    if index.len() > 0 {
        lemma_visible_in_same(s, t, index.drop_last());
        assert(t.get(index.last().1) == s.get(index.last().1));
    }
}

/// No two elements of a list share an add timestamp, and an element that the
/// list repeats carries its own payload.
pub open spec fn well_listed(pairs: Seq<(StrokeId, EntryView)>) -> bool {
    &&& forall|i: int, j: int|
        0 <= i < pairs.len() && 0 <= j < pairs.len() && (#[trigger] pairs[i]).1.key() is Some
            && pairs[i].1.key() == (#[trigger] pairs[j]).1.key() ==> pairs[i].0 == pairs[j].0
    &&& forall|i: int, j: int|
        0 <= i < j < pairs.len() && (#[trigger] pairs[i]).0 == (#[trigger] pairs[j]).0 && pairs[j].1.add
            is Some ==> pairs[j].1.add->0.stroke.id == pairs[j].0
}

/// What is known of an element comes from the list.
spec fn listed(pairs: Seq<(StrokeId, EntryView)>, s: SetView) -> bool {
    &&& forall|id: StrokeId| #[trigger]
        s.entries.contains_key(id) ==> exists|i: int|
            0 <= i < pairs.len() && (#[trigger] pairs[i]).0 == id
    &&& forall|id: StrokeId|
        (#[trigger] s.entry(id)).key() is Some ==> exists|i: int|
            0 <= i < pairs.len() && (#[trigger] pairs[i]).0 == id && pairs[i].1.key() == s.entry(
                id,
            ).key()
}

/// The set that a list of elements describes is exactly indexed, so its draw
/// order lists every visible element once.
pub proof fn law_lists_are_indexed(pairs: Seq<(StrokeId, EntryView)>)
    requires
        well_listed(pairs),
    ensures
        SetView::load(pairs).indexed(),
        SetView::load(pairs).order.dom().finite(),
{
    lemma_listed(pairs);
}

proof fn lemma_listed(pairs: Seq<(StrokeId, EntryView)>)
    requires
        well_listed(pairs),
    ensures
        SetView::load(pairs).indexed(),
        SetView::load(pairs).order.dom().finite(),
        listed(pairs, SetView::load(pairs)),
    decreases pairs.len(),
{
    if pairs.len() > 0 {
        let front = pairs.drop_last();
        let last = pairs.len() - 1;
        let (id, e) = pairs[last];
        assert forall|i: int| 0 <= i < front.len() implies #[trigger] front[i] == pairs[i] by {}
        assert(well_listed(front)) by {
            assert forall|i: int, j: int|
                0 <= i < front.len() && 0 <= j < front.len() && (#[trigger] front[i]).1.key()
                    is Some && front[i].1.key() == (
                #[trigger] front[j]).1.key() implies front[i].0 == front[j].0 by {
                assert(pairs[i].1.key() == pairs[j].1.key());
            }
            assert forall|i: int, j: int|
                0 <= i < j < front.len() && (#[trigger] front[i]).0 == (#[trigger] front[j]).0
                    && front[j].1.add is Some implies front[j].1.add->0.stroke.id == front[j].0 by {
                assert(pairs[i].0 == pairs[j].0);
            }
        }
        lemma_listed(front);
        let t0 = SetView::load(front);
        let t = SetView::load(pairs);
        assert(listed(pairs, t0)) by {
            assert forall|q: StrokeId| #[trigger] t0.entries.contains_key(q) implies exists|i: int|
                0 <= i < pairs.len() && (#[trigger] pairs[i]).0 == q by {
                let i = choose|i: int| 0 <= i < front.len() && (#[trigger] front[i]).0 == q;
                assert(pairs[i].0 == q);
            }
            assert forall|q: StrokeId| (#[trigger] t0.entry(q)).key() is Some implies exists|
                i: int,
            | 0 <= i < pairs.len() && (#[trigger] pairs[i]).0 == q && pairs[i].1.key() == t0.entry(
                q,
            ).key() by {
                let i = choose|i: int|
                    0 <= i < front.len() && (#[trigger] front[i]).0 == q && front[i].1.key()
                        == t0.entry(q).key();
                assert(pairs[i].0 == q);
            }
        }
        // Whoever carries the timestamp of the last add is the last element.
        assert forall|q: StrokeId| (#[trigger] t0.entry(q)).key() == e.key() && e.key()
            is Some implies q == id by {
            let i = choose|i: int|
                0 <= i < pairs.len() && (#[trigger] pairs[i]).0 == q && pairs[i].1.key()
                    == t0.entry(q).key();
            assert(pairs[i].0 == pairs[last].0);
        }
        if t0.entries.contains_key(id) {
            let k = choose|k: int| 0 <= k < front.len() && (#[trigger] front[k]).0 == id;
            assert(pairs[k].0 == pairs[last].0);
            lemma_folded_in(t0, pairs, e);
        } else {
            lemma_inserted(t0, pairs, e);
        }
    } else {
        assert(SetView::load(pairs).order.dom().finite());
    }
}

/// A repeated element keeps the index exact.
proof fn lemma_folded_in(t0: SetView, pairs: Seq<(StrokeId, EntryView)>, e: EntryView)
    requires
        pairs.len() > 0,
        pairs.last().1 == e,
        t0.indexed(),
        t0.order.dom().finite(),
        listed(pairs, t0),
        e.add is Some ==> e.add->0.stroke.id == pairs.last().0,
        forall|q: StrokeId|
            (#[trigger] t0.entry(q)).key() == e.key() && e.key() is Some ==> q == pairs.last().0,
    ensures
        t0.apply_all(e.ops(pairs.last().0)).indexed(),
        t0.apply_all(e.ops(pairs.last().0)).order.dom().finite(),
        listed(pairs, t0.apply_all(e.ops(pairs.last().0))),
{
    let id = pairs.last().0;
    let ops = e.ops(id);
    let last = pairs.len() - 1;
    assert(pairs[last] == pairs.last());
    lemma_order_stays_finite(t0, ops);
    let mid = if e.add is Some {
        t0.apply(OpView::Add { stroke: e.add->0.stroke, ts: e.add->0.ts })
    } else {
        t0
    };
    let t = if e.removed is Some {
        mid.apply(OpView::Remove { id, ts: e.removed->0 })
    } else {
        mid
    };
    assert(t0.apply_all(ops) == t) by {
        reveal_with_fuel(SetView::apply_all, 3);
        if e.removed is Some {
            assert(ops.last() == (OpView::Remove { id, ts: e.removed->0 }));
            if e.add is Some {
                let add = OpView::Add { stroke: e.add->0.stroke, ts: e.add->0.ts };
                assert(ops.drop_last() =~= seq![add]);
                lemma_after_one(t0, add);
            } else {
                assert(ops.drop_last() =~= Seq::empty());
            }
        } else if e.add is Some {
            let add = OpView::Add { stroke: e.add->0.stroke, ts: e.add->0.ts };
            assert(ops =~= seq![add]);
            lemma_after_one(t0, add);
        } else {
            assert(ops =~= Seq::empty());
        }
    }
    if e.add is Some {
        law_index_stays_exact(t0, OpView::Add { stroke: e.add->0.stroke, ts: e.add->0.ts });
    }
    if e.removed is Some {
        law_index_stays_exact(mid, OpView::Remove { id, ts: e.removed->0 });
    }
    assert forall|q: StrokeId| (#[trigger] t.entry(q)).key() is Some implies exists|i: int|
        0 <= i < pairs.len() && (#[trigger] pairs[i]).0 == q && pairs[i].1.key() == t.entry(
            q,
        ).key() by {
        if t.entry(q).key() == t0.entry(q).key() {
            assert(t0.entry(q).key() is Some);
        } else {
            assert(q == id && t.entry(q).key() == e.key());
            assert(pairs[last].0 == q);
        }
    }
    assert forall|q: StrokeId| #[trigger] t.entries.contains_key(q) implies exists|i: int|
        0 <= i < pairs.len() && (#[trigger] pairs[i]).0 == q by {
        if q == id {
            assert(pairs[last].0 == q);
        } else {
            assert(t0.entries.contains_key(q));
        }
    }
}

/// A new element keeps the index exact.
proof fn lemma_inserted(t0: SetView, pairs: Seq<(StrokeId, EntryView)>, e: EntryView)
    requires
        pairs.len() > 0,
        pairs.last().1 == e,
        t0.indexed(),
        t0.order.dom().finite(),
        listed(pairs, t0),
        !t0.entries.contains_key(pairs.last().0),
        forall|q: StrokeId|
            (#[trigger] t0.entry(q)).key() == e.key() && e.key() is Some ==> q == pairs.last().0,
    ensures
        t0.load_one(pairs.last().0, e).indexed(),
        t0.load_one(pairs.last().0, e).order.dom().finite(),
        listed(pairs, t0.load_one(pairs.last().0, e)),
{
    let id = pairs.last().0;
    let last = pairs.len() - 1;
    assert(pairs[last] == pairs.last());
    let t = t0.load_one(id, e);
    assert forall|q: StrokeId| #[trigger] t.entry(q) == (if q == id {
        e
    } else {
        t0.entry(q)
    }) by {}
    assert forall|ts: Timestamp| #[trigger] t.order.contains_key(ts) implies t.shows(t.order[ts])
        && t.entry(t.order[ts]).key() == Some(ts) by {
        if !(e.visible() && ts == e.key()->0) {
            assert(t0.order.contains_key(ts));
            let q = t0.order[ts];
            assert(t0.shows(q));
            assert(t.entry(q) == t0.entry(q));
        } else {
            assert(t.entry(id) == e);
        }
    }
    assert forall|q: StrokeId| #[trigger] t.shows(q) implies t.order.contains_key(
        t.entry(q).key()->0,
    ) && t.order[t.entry(q).key()->0] == q by {
        if q != id {
            assert(t.entry(q) == t0.entry(q));
            assert(t0.shows(q));
        } else {
            assert(t.entry(id) == e);
        }
    }
    assert forall|q: StrokeId| (#[trigger] t.entry(q)).key() is Some implies exists|i: int|
        0 <= i < pairs.len() && (#[trigger] pairs[i]).0 == q && pairs[i].1.key() == t.entry(
            q,
        ).key() by {
        if q == id {
            assert(pairs[last].0 == q);
        } else {
            assert(t0.entry(q).key() is Some);
        }
    }
    assert forall|q: StrokeId| #[trigger] t.entries.contains_key(q) implies exists|i: int|
        0 <= i < pairs.len() && (#[trigger] pairs[i]).0 == q by {
        if q == id {
            assert(pairs[last].0 == q);
        } else {
            assert(t0.entries.contains_key(q));
        }
    }
}

/// Undoing an add hides the stroke. Undoing a remove brings the stroke back,
/// drawn over everything else; it is possible exactly where the payload is
/// known. The stamp has to be newer than everything the set has seen.
pub proof fn law_inverse_undoes(s: SetView, op: OpView, ts: Timestamp)
    requires
        s.indexed(),
        s.order.dom().finite(),
        forall|t: Timestamp| #[trigger] s.mentions(t) ==> ts.after(t),
    ensures
        s.inverse(op, ts) is None <==> op is Remove && s.get_any(op.id()) is None,
        s.inverse(op, ts) matches Some(inv) ==> inv.ts() == ts && match op {
            OpView::Add { stroke, .. } => inv == (OpView::Remove { id: stroke.id, ts })
                && !s.apply(inv).shows(stroke.id),
            OpView::Remove { id, .. } => {
                let stroke = s.get_any(id)->0;
                &&& inv == (OpView::Add { stroke, ts })
                &&& s.apply(inv).get(stroke.id) == Some(stroke)
                &&& s.apply(inv).visible().len() > 0
                &&& s.apply(inv).visible().last() == (ts, stroke)
            },
        },
{
    assert forall|q: StrokeId| (#[trigger] s.entry(q)).key() == Some(ts) || s.entry(q).removed
        == Some(ts) implies false by {
        assert(s.entries[q].mentions(ts));
        assert(s.mentions(ts));
    }
    if let Some(inv) = s.inverse(op, ts) {
        let t = s.apply(inv);
        let id = inv.id();
        let e = s.entry(id);
        if e.add is Some {
            assert(s.entries[id].mentions(e.add->0.ts));
            assert(s.mentions(e.add->0.ts));
        }
        if e.removed is Some {
            assert(s.entries[id].mentions(e.removed->0));
            assert(s.mentions(e.removed->0));
        }
        lemma_entry_after(s, inv, id);
        if op is Remove {
            let stroke = s.get_any(op.id())->0;
            law_index_stays_exact(s, inv);
            lemma_after_one(s, inv);
            lemma_order_stays_finite(s, seq![inv]);
            law_draw_order(t);
            assert(t.shows(id));
            assert(t.entry(id).key() == Some(ts) && t.get(id) == Some(stroke));
            assert(t.visible().contains((ts, stroke)));
            let i = choose|i: int| 0 <= i < t.visible().len() && t.visible()[i] == (ts, stroke);
            let last = t.visible().len() - 1;
            if i < last {
                let top = t.visible()[last].0;
                assert(top.after(ts));
                let q = t.order[top];
                assert(t.entry(q).key() == Some(top));
                lemma_entry_after(s, inv, q);
                if q != id {
                    assert(s.entries[q].mentions(top));
                    assert(s.mentions(top));
                }
            }
        }
    }
}

} // verus!
