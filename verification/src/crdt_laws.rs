//! Laws of the replicated set: what every replica keeps, and why replicas
//! converge.

use vstd::prelude::*;

use crate::crdt::{
    ids_by, stamped_removes, EntryView, LamportClock, OpView, SetView, Timestamp,
};
use crate::ordmap::{
    ascending, lemma_pairs_map_at, lemma_pairs_map_dom, lemma_same_pairs, lemma_sorted_pairs_exist,
    pairs_keys, pairs_map, sorted_pairs, Ranked,
};
use crate::types::{ClientId, StrokeId, StrokeView};

verus! {

/// Every payload is kept under its own id.
pub open spec fn named(set: SetView) -> bool {
    forall|id: StrokeId| (#[trigger] set.entry(id)).add matches Some(a) ==> a.stroke.id == id
}

/// Add timestamps are unique: one stamps one operation.
pub open spec fn unique_adds(seen: Set<OpView>) -> bool {
    forall|a: OpView, b: OpView|
        #![trigger seen.contains(a), seen.contains(b)]
        seen.contains(a) && seen.contains(b) && a is Add && b is Add && a.ts() == b.ts() ==> a == b
}

impl SetView {
    /// The index names exactly the visible elements, each under the timestamp
    /// of its newest add.
    pub open spec fn indexed(self) -> bool {
        &&& forall|ts: Timestamp| #[trigger]
            self.order.contains_key(ts) ==> self.shows(self.order[ts]) && self.entry(
                self.order[ts],
            ).key() == Some(ts)
        &&& forall|id: StrokeId| #[trigger]
            self.shows(id) ==> self.order.contains_key(self.entry(id).key()->0)
                && self.order[self.entry(id).key()->0] == id
    }

    /// The element's state is what the newest of the operations seen on it
    /// say.
    pub open spec fn entry_reflects(self, id: StrokeId, seen: Set<OpView>) -> bool {
        let e = self.entry(id);
        &&& match e.add {
            Some(a) => {
                &&& seen.contains(OpView::Add { stroke: a.stroke, ts: a.ts })
                &&& a.stroke.id == id
                &&& forall|op: OpView| #[trigger]
                    seen.contains(op) && op is Add && op.id() == id ==> !op.ts().after(a.ts)
            },
            None => forall|op: OpView| #[trigger]
                seen.contains(op) && op.id() == id ==> !(op is Add),
        }
        &&& match e.removed {
            Some(ts) => {
                &&& seen.contains(OpView::Remove { id, ts })
                &&& forall|op: OpView| #[trigger]
                    seen.contains(op) && op is Remove && op.id() == id ==> !op.ts().after(ts)
            },
            None => forall|op: OpView| #[trigger]
                seen.contains(op) && op.id() == id ==> !(op is Remove),
        }
    }

    /// The set is what the operations seen amount to, whatever order they came
    /// in.
    pub open spec fn reflects(self, seen: Set<OpView>) -> bool {
        &&& forall|id: StrokeId| #[trigger]
            self.entries.contains_key(id) <==> exists|op: OpView| #[trigger]
                seen.contains(op) && op.id() == id
        &&& forall|id: StrokeId| #[trigger] self.entry_reflects(id, seen)
        &&& self.indexed()
    }
}

/// An operation touches one element only.
pub proof fn lemma_entry_after(s: SetView, op: OpView, id: StrokeId)
    ensures
        s.apply(op).entry(id) == (if id == op.id() {
            s.entry(id).apply(op)
        } else {
            s.entry(id)
        }),
{
}

/// The index stays exact under an operation whose add timestamp no other
/// element carries.
pub proof fn law_index_stays_exact(s: SetView, op: OpView)
    requires
        s.indexed(),
        op is Add ==> forall|id: StrokeId|
            (#[trigger] s.entry(id)).key() == Some(op.ts()) ==> id == op.id(),
    ensures
        s.apply(op).indexed(),
{
    let t = s.apply(op);
    let id = op.id();
    let before = s.entry(id);
    let after = before.apply(op);
    assert forall|q: StrokeId| t.entry(q) == (if q == id {
        after
    } else {
        s.entry(q)
    }) by {
        lemma_entry_after(s, op, q);
    }
    assert forall|ts: Timestamp| #[trigger] t.order.contains_key(ts) implies t.shows(t.order[ts])
        && t.entry(t.order[ts]).key() == Some(ts) by {
        if before.changes(op) {
            if after.visible() && ts == after.key()->0 {
            } else {
                assert(s.order.contains_key(ts));
                let q = s.order[ts];
                assert(s.shows(q) && s.entry(q).key() == Some(ts));
                if q == id {
                    assert(before.visible());
                    assert(false);
                }
            }
        } else {
            assert(s.order.contains_key(ts));
            let q = s.order[ts];
            if q == id {
                assert(before.visible() && before.key() == Some(ts));
            }
        }
    }
    assert forall|q: StrokeId| #[trigger] t.shows(q) implies t.order.contains_key(
        t.entry(q).key()->0,
    ) && t.order[t.entry(q).key()->0] == q by {
        if q == id {
            if !before.changes(op) {
                assert(s.shows(id));
            }
        } else {
            assert(s.shows(q));
            let k = s.entry(q).key()->0;
            assert(s.order.contains_key(k) && s.order[k] == q);
            if before.changes(op) && before.visible() {
                assert(s.shows(id));
                assert(before.key()->0 != k);
            }
            if before.changes(op) && after.visible() {
                if op is Add {
                    assert(after.key()->0 != k) by {
                        if after.key()->0 == k {
                            if before.fresh(op) {
                                assert(s.entry(q).key() == Some(op.ts()));
                            } else {
                                assert(s.shows(id));
                            }
                        }
                    }
                } else {
                    assert(after.key() == before.key());
                }
            }
        }
    }
}

/// Seeing one more operation.
proof fn lemma_reflects_step(s: SetView, seen: Set<OpView>, op: OpView)
    requires
        s.reflects(seen),
        unique_adds(seen.insert(op)),
    ensures
        s.apply(op).reflects(seen.insert(op)),
{
    let t = s.apply(op);
    let now = seen.insert(op);
    let id = op.id();
    assert forall|q: StrokeId| t.entry(q) == (if q == id {
        s.entry(id).apply(op)
    } else {
        s.entry(q)
    }) by {
        lemma_entry_after(s, op, q);
    }
    if op is Add {
        assert forall|q: StrokeId| (#[trigger] s.entry(q)).key() == Some(op.ts()) implies q
            == id by {
            assert(s.entry_reflects(q, seen));
            let a = s.entry(q).add->0;
            let other = OpView::Add { stroke: a.stroke, ts: a.ts };
            assert(now.contains(other) && now.contains(op));
        }
    }
    law_index_stays_exact(s, op);
    assert forall|q: StrokeId| #[trigger]
        t.entries.contains_key(q) <==> exists|o: OpView| #[trigger]
            now.contains(o) && o.id() == q by {
        if t.entries.contains_key(q) {
            if q == id {
                assert(now.contains(op) && op.id() == q);
            } else {
                assert(s.entries.contains_key(q));
                let o = choose|o: OpView| #[trigger] seen.contains(o) && o.id() == q;
                assert(now.contains(o) && o.id() == q);
            }
        }
        if exists|o: OpView| #[trigger] now.contains(o) && o.id() == q {
            let o = choose|o: OpView| #[trigger] now.contains(o) && o.id() == q;
            if o != op {
                assert(seen.contains(o));
                assert(s.entries.contains_key(q));
            }
        }
    }
    assert forall|q: StrokeId| #[trigger] t.entry_reflects(q, now) by {
        assert(s.entry_reflects(q, seen));
        let e = s.entry(q);
        if q == id {
            match op {
                OpView::Add { stroke, ts } => {
                    if e.fresh(op) {
                        assert forall|o: OpView| #[trigger]
                            now.contains(o) && o is Add && o.id() == q implies !o.ts().after(
                            ts,
                        ) by {
                            if o != op {
                                assert(seen.contains(o));
                            }
                        }
                    }
                },
                OpView::Remove { ts, .. } => {
                    if e.fresh(op) {
                        assert forall|o: OpView| #[trigger]
                            now.contains(o) && o is Remove && o.id() == q implies !o.ts().after(
                            ts,
                        ) by {
                            if o != op {
                                assert(seen.contains(o));
                            }
                        }
                    }
                },
            }
        }
    }
}

proof fn lemma_unique_adds_subset(part: Set<OpView>, all: Set<OpView>)
    requires
        unique_adds(all),
        forall|op: OpView| #[trigger] part.contains(op) ==> all.contains(op),
    ensures
        unique_adds(part),
{
    assert forall|a: OpView, b: OpView|
        #![trigger part.contains(a), part.contains(b)]
        part.contains(a) && part.contains(b) && a is Add && b is Add && a.ts()
            == b.ts() implies a == b by {
        assert(all.contains(a) && all.contains(b));
    }
}

/// A replica that started empty is exactly what the operations it has seen
/// amount to: an element is known once an operation named it, its newest add
/// and newest remove are the newest of those seen, and the index lists the
/// visible elements.
pub proof fn law_replica_reflects_its_ops(ops: Seq<OpView>)
    requires
        unique_adds(ops.to_set()),
    ensures
        SetView::empty().apply_all(ops).reflects(ops.to_set()),
    decreases ops.len(),
{
    if ops.len() == 0 {
        let s = SetView::empty();
        assert(forall|op: OpView| !ops.to_set().contains(op));
        assert forall|id: StrokeId| #[trigger] s.entry_reflects(id, ops.to_set()) by {}
    } else {
        let front = ops.drop_last();
        let op = ops.last();
        assert(ops.to_set() =~= front.to_set().insert(op)) by {
            assert forall|o: OpView| ops.contains(o) implies front.contains(o) || o == op by {
                let i = choose|i: int| 0 <= i < ops.len() && ops[i] == o;
                if i < ops.len() - 1 {
                    assert(front[i] == o);
                }
            }
            assert forall|o: OpView| front.contains(o) implies ops.contains(o) by {
                let i = choose|i: int| 0 <= i < front.len() && front[i] == o;
                assert(ops[i] == o);
            }
            assert(ops[ops.len() - 1] == op);
        }
        lemma_unique_adds_subset(front.to_set(), ops.to_set());
        law_replica_reflects_its_ops(front);
        lemma_reflects_step(SetView::empty().apply_all(front), front.to_set(), op);
    }
}

/// Indexed sets with the same elements have the same index.
pub proof fn lemma_index_is_derived(s: SetView, t: SetView)
    requires
        s.indexed(),
        t.indexed(),
        s.entries == t.entries,
    ensures
        s == t,
{
    assert forall|id: StrokeId| s.entry(id) == t.entry(id) by {}
    assert forall|ts: Timestamp| #[trigger] s.order.contains_key(ts) implies t.order.contains_key(
        ts,
    ) && t.order[ts] == s.order[ts] by {
        let id = s.order[ts];
        assert(s.shows(id) && t.shows(id));
    }
    assert forall|ts: Timestamp| #[trigger] t.order.contains_key(ts) implies s.order.contains_key(
        ts,
    ) by {
        let id = t.order[ts];
        assert(s.shows(id) && t.shows(id));
    }
    assert(s.order =~= t.order);
}

/// What the operations seen amount to is one set only.
proof fn lemma_reflection_is_unique(s: SetView, t: SetView, seen: Set<OpView>)
    requires
        s.reflects(seen),
        t.reflects(seen),
        unique_adds(seen),
    ensures
        s == t,
{
    assert forall|id: StrokeId| #[trigger] s.entry(id) == t.entry(id) by {
        assert(s.entry_reflects(id, seen) && t.entry_reflects(id, seen));
        let e = s.entry(id);
        let f = t.entry(id);
        if e.add is Some && f.add is Some {
            let a = OpView::Add { stroke: e.add->0.stroke, ts: e.add->0.ts };
            let b = OpView::Add { stroke: f.add->0.stroke, ts: f.add->0.ts };
            assert(seen.contains(a) && seen.contains(b));
            assert(!a.ts().after(b.ts()) && !b.ts().after(a.ts()));
            assert(a == b);
        }
        if e.removed is Some && f.removed is Some {
            let a = OpView::Remove { id, ts: e.removed->0 };
            let b = OpView::Remove { id, ts: f.removed->0 };
            assert(seen.contains(a) && seen.contains(b));
        }
        if e.add is Some {
            assert(seen.contains(OpView::Add { stroke: e.add->0.stroke, ts: e.add->0.ts }));
        }
        if f.add is Some {
            assert(seen.contains(OpView::Add { stroke: f.add->0.stroke, ts: f.add->0.ts }));
        }
        if e.removed is Some {
            assert(seen.contains(OpView::Remove { id, ts: e.removed->0 }));
        }
        if f.removed is Some {
            assert(seen.contains(OpView::Remove { id, ts: f.removed->0 }));
        }
    }
    assert(s.entries =~= t.entries) by {
        assert forall|id: StrokeId| #[trigger] s.entries.contains_key(id) == t.entries.contains_key(
            id,
        ) by {}
        assert forall|id: StrokeId| #[trigger] s.entries.contains_key(id) implies s.entries[id]
            == t.entries[id] by {
            assert(s.entry(id) == t.entry(id));
        }
    }
    lemma_index_is_derived(s, t);
}

/// Convergence: any two replicas that have seen the same operations, in any
/// order and with any duplication, are the same: same elements, same visible
/// set, same draw order.
pub proof fn law_replicas_converge(a: Seq<OpView>, b: Seq<OpView>)
    requires
        a.to_set() == b.to_set(),
        unique_adds(a.to_set()),
    ensures
        SetView::empty().apply_all(a) == SetView::empty().apply_all(b),
        SetView::empty().apply_all(a).visible() == SetView::empty().apply_all(b).visible(),
{
    law_replica_reflects_its_ops(a);
    law_replica_reflects_its_ops(b);
    lemma_reflection_is_unique(
        SetView::empty().apply_all(a),
        SetView::empty().apply_all(b),
        a.to_set(),
    );
}

impl EntryView {
    /// The newest of what two replicas know about an element.
    pub open spec fn join(self, other: EntryView) -> EntryView {
        EntryView {
            add: match (self.add, other.add) {
                (Some(a), Some(b)) => if b.ts.after(a.ts) {
                    Some(b)
                } else {
                    Some(a)
                },
                (Some(a), None) => Some(a),
                (None, b) => b,
            },
            removed: match (self.removed, other.removed) {
                (Some(a), Some(b)) => if b.after(a) {
                    Some(b)
                } else {
                    Some(a)
                },
                (Some(a), None) => Some(a),
                (None, b) => b,
            },
        }
    }
}

impl SetView {
    /// A replica as operations build it: finite, exactly indexed, every
    /// element named by its own payload, no element about which nothing is
    /// known, and no two elements added under one timestamp.
    pub open spec fn sound(self) -> bool {
        &&& self.entries.dom().finite()
        &&& self.indexed()
        &&& forall|id: StrokeId| #[trigger]
            self.entries.contains_key(id) ==> self.entries[id] != EntryView::blank()
        &&& self.compatible(self)
    }

    /// Wherever the two replicas carry the same add timestamp, it stamps the
    /// same add of the same element.
    pub open spec fn compatible(self, other: SetView) -> bool {
        &&& forall|id: StrokeId| (#[trigger] self.entry(id)).add matches Some(a) ==> a.stroke.id
            == id
        &&& forall|id: StrokeId| (#[trigger] other.entry(id)).add matches Some(a) ==> a.stroke.id
            == id
        &&& forall|i: StrokeId, j: StrokeId|
            (#[trigger] self.entry(i)).key() is Some && self.entry(i).key() == (
            #[trigger] other.entry(j)).key() ==> self.entry(i).add == other.entry(j).add
    }

    /// Each element is what the newest of both replicas say.
    pub open spec fn joins(self, a: SetView, b: SetView) -> bool {
        &&& self.entries.dom() == a.entries.dom().union(b.entries.dom())
        &&& forall|id: StrokeId| #[trigger] self.entry(id) == a.entry(id).join(b.entry(id))
    }
}

/// Replaying part of a replica.
proof fn lemma_merge_prefix(a: SetView, b: SetView, pairs: Seq<(StrokeId, EntryView)>)
    requires
        a.sound(),
        b.sound(),
        a.compatible(b),
        ascending(pairs_keys(pairs)),
        forall|k: int|
            0 <= k < pairs.len() ==> b.entries.contains_key((#[trigger] pairs[k]).0)
                && b.entries[pairs[k].0] == pairs[k].1,
    ensures
        ({
            let s = a.apply_all(SetView::ops_of(pairs));
            let seen = pairs_map(pairs);
            &&& s.indexed()
            &&& forall|id: StrokeId| #[trigger]
                s.entries.contains_key(id) <==> a.entries.contains_key(id) || seen.contains_key(id)
            &&& forall|id: StrokeId| #[trigger]
                s.entry(id) == (if seen.contains_key(id) {
                    a.entry(id).join(b.entry(id))
                } else {
                    a.entry(id)
                })
        }),
    decreases pairs.len(),
{
    if pairs.len() > 0 {
        let front = pairs.drop_last();
        let (id, e) = pairs.last();
        assert(pairs[pairs.len() - 1] == (id, e));
        let keys = pairs_keys(pairs);
        assert(ascending(pairs_keys(front))) by {
            assert forall|i: int, j: int| 0 <= i < j < front.len() implies pairs_keys(
                front,
            )[i].rank() < pairs_keys(front)[j].rank() by {
                assert(keys[i].rank() < keys[j].rank());
            }
        }
        assert forall|k: int| 0 <= k < front.len() implies b.entries.contains_key(
            (#[trigger] front[k]).0,
        ) && b.entries[front[k].0] == front[k].1 by {
            assert(pairs[k] == front[k]);
        }
        lemma_merge_prefix(a, b, front);
        let s0 = a.apply_all(SetView::ops_of(front));
        let seen = pairs_map(front);
        assert(!seen.contains_key(id)) by {
            lemma_pairs_map_dom(front, id);
            if seen.contains_key(id) {
                let i = choose|i: int| 0 <= i < front.len() && (#[trigger] front[i]).0 == id;
                assert(keys[i].rank() < keys[pairs.len() - 1].rank());
            }
        }
        assert(b.entry(id) == e);
        let ops = e.ops(id);
        a.lemma_apply_all_concat(SetView::ops_of(front), ops);
        let s = s0.apply_all(ops);
        assert(s == a.apply_all(SetView::ops_of(pairs)));
        let add = OpView::Add { stroke: e.add->0.stroke, ts: e.add->0.ts };
        let rem = OpView::Remove { id, ts: e.removed->0 };
        if e.add is Some {
            assert(add.id() == id);
            assert forall|q: StrokeId| (#[trigger] s0.entry(q)).key() == Some(
                add.ts(),
            ) implies q == id by {
                let x = a.entry(q);
                let y = b.entry(q);
                assert(s0.entry(q).add == x.add || s0.entry(q).add == y.add);
                if s0.entry(q).add == x.add {
                    assert(x.key() == b.entry(id).key());
                } else {
                    assert(y.key() == b.entry(id).key());
                }
            }
            law_index_stays_exact(s0, add);
        }
        let s1 = if e.add is Some {
            s0.apply(add)
        } else {
            s0
        };
        if e.removed is Some {
            law_index_stays_exact(s1, rem);
        }
        let s2 = if e.removed is Some {
            s1.apply(rem)
        } else {
            s1
        };
        assert(s == s2) by {
            reveal_with_fuel(SetView::apply_all, 3);
            if e.add is Some && e.removed is Some {
                assert(ops =~= seq![add, rem]);
                assert(ops.drop_last() =~= seq![add]);
                assert(seq![add].drop_last() =~= Seq::<OpView>::empty());
            } else if e.add is Some {
                assert(ops =~= seq![add]);
                assert(ops.drop_last() =~= Seq::<OpView>::empty());
            } else if e.removed is Some {
                assert(ops =~= seq![rem]);
                assert(ops.drop_last() =~= Seq::<OpView>::empty());
            } else {
                assert(ops =~= Seq::<OpView>::empty());
            }
        }
        assert(e != EntryView::blank());
        assert forall|q: StrokeId| #[trigger] s.entry(q) == (if pairs_map(pairs).contains_key(q) {
            a.entry(q).join(b.entry(q))
        } else {
            a.entry(q)
        }) by {
            if e.add is Some {
                lemma_entry_after(s0, add, q);
            }
            if e.removed is Some {
                lemma_entry_after(s1, rem, q);
            }
            assert(s0.entry(q) == (if seen.contains_key(q) {
                a.entry(q).join(b.entry(q))
            } else {
                a.entry(q)
            }));
        }
        assert forall|q: StrokeId| #[trigger]
            s.entries.contains_key(q) <==> a.entries.contains_key(q) || pairs_map(
                pairs,
            ).contains_key(q) by {
            assert(s0.entries.contains_key(q) <==> a.entries.contains_key(q) || seen.contains_key(
                q,
            ));
        }
    }
}

/// Merging two replicas takes, for each element, the newest add and the newest
/// remove of both, and leaves a sound replica.
pub proof fn law_merge_takes_the_newest(a: SetView, b: SetView)
    requires
        a.sound(),
        b.sound(),
        a.compatible(b),
    ensures
        a.merge(b).joins(a, b),
        a.merge(b).sound(),
{
    let pairs = sorted_pairs(b.entries);
    lemma_sorted_pairs_exist(b.entries);
    assert forall|k: int| 0 <= k < pairs.len() implies b.entries.contains_key(
        (#[trigger] pairs[k]).0,
    ) && b.entries[pairs[k].0] == pairs[k].1 by {
        lemma_pairs_map_at(pairs, k);
    }
    lemma_merge_prefix(a, b, pairs);
    let s = a.merge(b);
    assert forall|id: StrokeId| #[trigger] s.entry(id) == a.entry(id).join(b.entry(id)) by {
        if !b.entries.contains_key(id) {
            assert(b.entry(id) == EntryView::blank());
        }
    }
    assert(s.entries.dom() =~= a.entries.dom().union(b.entries.dom()));
    lemma_joined_is_sound(s, a, b);
}

proof fn lemma_joined_is_sound(s: SetView, a: SetView, b: SetView)
    requires
        a.sound(),
        b.sound(),
        a.compatible(b),
        s.joins(a, b),
        s.indexed(),
    ensures
        s.sound(),
{
    assert forall|id: StrokeId| #[trigger] s.entries.contains_key(id) implies s.entries[id]
        != EntryView::blank() by {
        assert(s.entry(id) == a.entry(id).join(b.entry(id)));
        assert(a.entries.contains_key(id) || b.entries.contains_key(id));
    }
    assert forall|id: StrokeId| (#[trigger] s.entry(id)).add is Some implies s.entry(
        id,
    ).add->0.stroke.id == id by {
        assert(s.entry(id) == a.entry(id).join(b.entry(id)));
    }
    assert forall|i: StrokeId, j: StrokeId|
        (#[trigger] s.entry(i)).key() is Some && s.entry(i).key() == (#[trigger] s.entry(
            j,
        )).key() implies s.entry(i).add == s.entry(j).add by {
        let (ai, bi, aj, bj) = (a.entry(i), b.entry(i), a.entry(j), b.entry(j));
        assert(s.entry(i).add == ai.add || s.entry(i).add == bi.add);
        assert(s.entry(j).add == aj.add || s.entry(j).add == bj.add);
    }
}

/// Merging is commutative.
pub proof fn law_merge_commutes(a: SetView, b: SetView)
    requires
        a.sound(),
        b.sound(),
        a.compatible(b),
    ensures
        a.merge(b) == b.merge(a),
        a.merge(b).visible() == b.merge(a).visible(),
{
    lemma_compatible_symmetric(a, b);
    law_merge_takes_the_newest(a, b);
    law_merge_takes_the_newest(b, a);
    let s = a.merge(b);
    let t = b.merge(a);
    assert forall|id: StrokeId| s.entry(id) == t.entry(id) by {
        let x = a.entry(id);
        let y = b.entry(id);
        assert(s.entry(id) == x.join(y) && t.entry(id) == y.join(x));
    }
    assert(s.entries.dom() =~= t.entries.dom());
    lemma_same_entries(s, t);
}

proof fn lemma_compatible_symmetric(a: SetView, b: SetView)
    requires
        a.compatible(b),
    ensures
        b.compatible(a),
{
}

proof fn lemma_same_entries(s: SetView, t: SetView)
    requires
        s.indexed(),
        t.indexed(),
        s.entries.dom() == t.entries.dom(),
        forall|id: StrokeId| s.entry(id) == t.entry(id),
    ensures
        s == t,
{
    assert(s.entries =~= t.entries) by {
        assert forall|id: StrokeId| #[trigger] s.entries.contains_key(id) implies s.entries[id]
            == t.entries[id] by {
            assert(s.entry(id) == t.entry(id));
        }
    }
    lemma_index_is_derived(s, t);
}

/// What is compatible with both of two replicas is compatible with their
/// merge.
proof fn lemma_compatible_with_merge(a: SetView, b: SetView, c: SetView)
    requires
        a.sound(),
        b.sound(),
        a.compatible(b),
        a.compatible(c),
        b.compatible(c),
    ensures
        a.merge(b).compatible(c),
{
    law_merge_takes_the_newest(a, b);
    let s = a.merge(b);
    assert forall|i: StrokeId, j: StrokeId|
        (#[trigger] s.entry(i)).key() is Some && s.entry(i).key() == (#[trigger] c.entry(
            j,
        )).key() implies s.entry(i).add == c.entry(j).add by {
        let (ai, bi) = (a.entry(i), b.entry(i));
        assert(s.entry(i).add == ai.add || s.entry(i).add == bi.add);
    }
}

/// Merging is associative.
pub proof fn law_merge_associates(a: SetView, b: SetView, c: SetView)
    requires
        a.sound(),
        b.sound(),
        c.sound(),
        a.compatible(b),
        a.compatible(c),
        b.compatible(c),
    ensures
        a.merge(b).merge(c) == a.merge(b.merge(c)),
        a.merge(b).merge(c).visible() == a.merge(b.merge(c)).visible(),
{
    lemma_compatible_with_merge(a, b, c);
    lemma_compatible_symmetric(a, b);
    lemma_compatible_symmetric(a, c);
    lemma_compatible_with_merge(b, c, a);
    lemma_compatible_symmetric(b.merge(c), a);
    law_merge_takes_the_newest(a, b);
    law_merge_takes_the_newest(b, c);
    law_merge_takes_the_newest(a.merge(b), c);
    law_merge_takes_the_newest(a, b.merge(c));
    let s = a.merge(b).merge(c);
    let t = a.merge(b.merge(c));
    assert forall|id: StrokeId| s.entry(id) == t.entry(id) by {
        let (x, y, z) = (a.entry(id), b.entry(id), c.entry(id));
        assert(a.merge(b).entry(id) == x.join(y));
        assert(b.merge(c).entry(id) == y.join(z));
        assert(s.entry(id) == x.join(y).join(z) && t.entry(id) == x.join(y.join(z)));
    }
    assert(s.entries.dom() =~= t.entries.dom());
    lemma_same_entries(s, t);
}

/// Merging is idempotent: what is already known changes nothing.
pub proof fn law_merge_is_idempotent(a: SetView, b: SetView)
    requires
        a.sound(),
        b.sound(),
        a.compatible(b),
    ensures
        a.merge(a) == a,
        a.merge(b).merge(b) == a.merge(b),
{
    law_merge_takes_the_newest(a, a);
    let s = a.merge(a);
    assert forall|id: StrokeId| s.entry(id) == a.entry(id) by {
        let x = a.entry(id);
        assert(s.entry(id) == x.join(x));
    }
    assert(s.entries.dom() =~= a.entries.dom());
    lemma_same_entries(s, a);
    law_merge_takes_the_newest(a, b);
    lemma_compatible_with_merge(a, b, b);
    let u = a.merge(b);
    law_merge_takes_the_newest(u, b);
    let v = u.merge(b);
    assert forall|id: StrokeId| v.entry(id) == u.entry(id) by {
        let (x, y) = (a.entry(id), b.entry(id));
        assert(u.entry(id) == x.join(y));
        assert(v.entry(id) == u.entry(id).join(y));
    }
    assert(v.entries.dom() =~= u.entries.dom());
    lemma_same_entries(v, u);
}

/// A replica that started empty is sound.
pub proof fn law_replicas_are_sound(ops: Seq<OpView>)
    requires
        unique_adds(ops.to_set()),
    ensures
        SetView::empty().apply_all(ops).sound(),
{
    let s = SetView::empty().apply_all(ops);
    law_replica_reflects_its_ops(ops);
    lemma_finite_after(ops);
    assert forall|id: StrokeId| #[trigger] s.entries.contains_key(id) implies s.entries[id]
        != EntryView::blank() by {
        let op = choose|op: OpView| #[trigger] ops.to_set().contains(op) && op.id() == id;
        assert(s.entry_reflects(id, ops.to_set()));
        assert(s.entry(id) == s.entries[id]);
    }
    assert forall|id: StrokeId| (#[trigger] s.entry(id)).add is Some implies s.entry(
        id,
    ).add->0.stroke.id == id by {
        assert(s.entry_reflects(id, ops.to_set()));
    }
    assert forall|i: StrokeId, j: StrokeId|
        (#[trigger] s.entry(i)).key() is Some && s.entry(i).key() == (#[trigger] s.entry(
            j,
        )).key() implies s.entry(i).add == s.entry(j).add by {
        assert(s.entry_reflects(i, ops.to_set()) && s.entry_reflects(j, ops.to_set()));
        let x = s.entry(i).add->0;
        let y = s.entry(j).add->0;
        let p = OpView::Add { stroke: x.stroke, ts: x.ts };
        let q = OpView::Add { stroke: y.stroke, ts: y.ts };
        assert(ops.to_set().contains(p) && ops.to_set().contains(q));
        assert(p == q);
    }
}

proof fn lemma_finite_after(ops: Seq<OpView>)
    ensures
        SetView::empty().apply_all(ops).entries.dom().finite(),
    decreases ops.len(),
{
    if ops.len() > 0 {
        lemma_finite_after(ops.drop_last());
        let s = SetView::empty().apply_all(ops.drop_last());
        assert(s.apply(ops.last()).entries.dom() =~= s.entries.dom().insert(ops.last().id()));
    }
}

/// Syncing by state is syncing by operations: merging two replicas gives the
/// replica that has seen the operations of both.
pub proof fn law_merge_is_seeing_both(a: Seq<OpView>, b: Seq<OpView>)
    requires
        unique_adds((a + b).to_set()),
    ensures
        SetView::empty().apply_all(a).merge(SetView::empty().apply_all(b))
            == SetView::empty().apply_all(a + b),
{
    let all = (a + b).to_set();
    assert forall|op: OpView| a.to_set().contains(op) implies all.contains(op) by {
        let i = choose|i: int| 0 <= i < a.len() && a[i] == op;
        assert((a + b)[i] == op);
    }
    assert forall|op: OpView| b.to_set().contains(op) implies all.contains(op) by {
        let i = choose|i: int| 0 <= i < b.len() && b[i] == op;
        assert((a + b)[a.len() + i] == op);
    }
    assert forall|op: OpView| all.contains(op) implies a.to_set().contains(op) || b.to_set().contains(
        op,
    ) by {
        let i = choose|i: int| 0 <= i < (a + b).len() && (a + b)[i] == op;
        if i < a.len() {
            assert(a[i] == op);
        } else {
            assert(b[i - a.len()] == op);
        }
    }
    lemma_unique_adds_subset(a.to_set(), all);
    lemma_unique_adds_subset(b.to_set(), all);
    let s = SetView::empty().apply_all(a);
    let t = SetView::empty().apply_all(b);
    law_replica_reflects_its_ops(a);
    law_replica_reflects_its_ops(b);
    law_replica_reflects_its_ops(a + b);
    law_replicas_are_sound(a);
    law_replicas_are_sound(b);
    assert(s.compatible(t)) by {
        assert forall|i: StrokeId, j: StrokeId|
            (#[trigger] s.entry(i)).key() is Some && s.entry(i).key() == (#[trigger] t.entry(
                j,
            )).key() implies s.entry(i).add == t.entry(j).add by {
            assert(s.entry_reflects(i, a.to_set()) && t.entry_reflects(j, b.to_set()));
            let x = s.entry(i).add->0;
            let y = t.entry(j).add->0;
            let p = OpView::Add { stroke: x.stroke, ts: x.ts };
            let q = OpView::Add { stroke: y.stroke, ts: y.ts };
            assert(all.contains(p) && all.contains(q));
            assert(p == q);
        }
    }
    law_merge_takes_the_newest(s, t);
    let m = s.merge(t);
    assert(m.reflects(all)) by {
        assert forall|id: StrokeId| #[trigger]
            m.entries.contains_key(id) <==> exists|op: OpView| #[trigger]
                all.contains(op) && op.id() == id by {
            if s.entries.contains_key(id) {
                let op = choose|op: OpView| #[trigger] a.to_set().contains(op) && op.id() == id;
                assert(all.contains(op));
            }
            if t.entries.contains_key(id) {
                let op = choose|op: OpView| #[trigger] b.to_set().contains(op) && op.id() == id;
                assert(all.contains(op));
            }
            if exists|op: OpView| #[trigger] all.contains(op) && op.id() == id {
                let op = choose|op: OpView| #[trigger] all.contains(op) && op.id() == id;
                assert(a.to_set().contains(op) || b.to_set().contains(op));
                assert(s.entries.contains_key(id) || t.entries.contains_key(id));
            }
        }
        assert forall|id: StrokeId| #[trigger] m.entry_reflects(id, all) by {
            assert(s.entry_reflects(id, a.to_set()) && t.entry_reflects(id, b.to_set()));
            assert(m.entry(id) == s.entry(id).join(t.entry(id)));
        }
    }
    lemma_reflection_is_unique(m, SetView::empty().apply_all(a + b), all);
}

/// An exact index lists every visible element once, in strictly ascending order
/// of the timestamps of the newest adds.
pub proof fn law_draw_order(s: SetView)
    requires
        s.indexed(),
        s.order.dom().finite(),
    ensures
        s.visible().len() == s.order.dom().len(),
        forall|i: int, j: int|
            0 <= i < j < s.visible().len() ==> s.visible()[j].0.after(s.visible()[i].0),
        forall|i: int|
            0 <= i < s.visible().len() ==> {
                let (ts, stroke) = #[trigger] s.visible()[i];
                &&& s.order.contains_key(ts)
                &&& s.get(s.order[ts]) == Some(stroke)
                &&& s.entry(s.order[ts]).key() == Some(ts)
            },
        forall|i: int, j: int|
            0 <= i < s.visible().len() && 0 <= j < s.visible().len() && s.order[(
            #[trigger] s.visible()[i]).0] == s.order[(#[trigger] s.visible()[j]).0] ==> i == j,
        forall|id: StrokeId|
            #![trigger s.shows(id)]
            s.shows(id) ==> s.visible().contains((s.entry(id).key()->0, s.get(id)->0)),
{
    let index = sorted_pairs(s.order);
    lemma_sorted_pairs_exist(s.order);
    lemma_visible_in_index(s, index);
    let keys = pairs_keys(index);
    assert(keys.no_duplicates()) by {
        assert forall|i: int, j: int| 0 <= i < keys.len() && 0 <= j < keys.len() && i
            != j implies keys[i] != keys[j] by {
            if i < j {
                assert(keys[i].rank() < keys[j].rank());
            } else {
                assert(keys[j].rank() < keys[i].rank());
            }
        }
    }
    keys.unique_seq_to_set();
    assert(keys.to_set() =~= s.order.dom()) by {
        assert forall|k: Timestamp| keys.to_set().contains(k) <==> s.order.dom().contains(k) by {
            lemma_pairs_map_dom(index, k);
            if keys.contains(k) {
                let i = choose|i: int| 0 <= i < keys.len() && keys[i] == k;
                assert(index[i].0 == k);
            }
            if exists|i: int| 0 <= i < index.len() && (#[trigger] index[i]).0 == k {
                let i = choose|i: int| 0 <= i < index.len() && (#[trigger] index[i]).0 == k;
                assert(keys[i] == k);
            }
        }
    }
    assert forall|i: int, j: int| 0 <= i < j < s.visible().len() implies s.visible()[j].0.after(
        s.visible()[i].0,
    ) by {
        assert(keys[i].rank() < keys[j].rank());
    }
    assert forall|i: int| 0 <= i < s.visible().len() implies {
        let (ts, stroke) = #[trigger] s.visible()[i];
        &&& s.order.contains_key(ts)
        &&& s.get(s.order[ts]) == Some(stroke)
        &&& s.entry(s.order[ts]).key() == Some(ts)
    } by {
        lemma_pairs_map_at(index, i);
        assert(s.order.contains_key(index[i].0));
        let id = index[i].1;
        assert(s.shows(id) && s.entry(id).key() == Some(index[i].0));
    }
    assert forall|i: int, j: int|
        0 <= i < s.visible().len() && 0 <= j < s.visible().len() && s.order[(
        #[trigger] s.visible()[i]).0] == s.order[(#[trigger] s.visible()[j]).0] implies i == j by {
        assert(s.visible()[i].0 == s.visible()[j].0);
        assert(keys[i] == keys[j]);
    }
    assert forall|id: StrokeId|
        #![trigger s.shows(id)]
        s.shows(id) implies s.visible().contains((s.entry(id).key()->0, s.get(id)->0)) by {
        let ts = s.entry(id).key()->0;
        assert(s.order.contains_key(ts) && s.order[ts] == id);
        lemma_pairs_map_dom(index, ts);
        let i = choose|i: int| 0 <= i < index.len() && (#[trigger] index[i]).0 == ts;
        lemma_pairs_map_at(index, i);
        assert(s.visible()[i] == (ts, s.get(id)->0));
    }
}

/// Where every payload stands under its own id, the draw order names every
/// visible stroke once, by that id.
pub proof fn law_draw_order_by_id(s: SetView)
    requires
        s.indexed(),
        named(s),
        s.order.dom().finite(),
    ensures
        forall|i: int|
            0 <= i < s.visible().len() ==> {
                let (ts, stroke) = #[trigger] s.visible()[i];
                s.get(stroke.id) == Some(stroke) && s.entry(stroke.id).key() == Some(ts)
            },
        forall|i: int, j: int|
            0 <= i < s.visible().len() && 0 <= j < s.visible().len() && (
            #[trigger] s.visible()[i]).1.id == (#[trigger] s.visible()[j]).1.id ==> i == j,
{
    law_draw_order(s);
    assert forall|i: int| 0 <= i < s.visible().len() implies {
        let (ts, stroke) = #[trigger] s.visible()[i];
        &&& s.get(stroke.id) == Some(stroke)
        &&& s.entry(stroke.id).key() == Some(ts)
        &&& s.order[ts] == stroke.id
    } by {
        let id = s.order[s.visible()[i].0];
        assert(s.entry(id).add->0.stroke.id == id);
    }
}

/// Every index entry of an exact index names a visible stroke.
proof fn lemma_visible_in_index(s: SetView, index: Seq<(Timestamp, StrokeId)>)
    requires
        s.indexed(),
        ascending(pairs_keys(index)),
        forall|k: Timestamp| #[trigger]
            pairs_map(index).contains_key(k) ==> s.order.contains_key(k) && s.order[k]
                == pairs_map(index)[k],
    ensures
        s.visible_in(index).len() == index.len(),
        forall|i: int|
            0 <= i < index.len() ==> #[trigger] s.visible_in(index)[i] == (
                index[i].0,
                s.get(index[i].1)->0,
            ),
    decreases index.len(),
{
    if index.len() > 0 {
        let front = index.drop_last();
        let keys = pairs_keys(index);
        assert(ascending(pairs_keys(front))) by {
            assert forall|i: int, j: int| 0 <= i < j < front.len() implies pairs_keys(
                front,
            )[i].rank() < pairs_keys(front)[j].rank() by {
                assert(keys[i].rank() < keys[j].rank());
            }
        }
        assert forall|k: Timestamp| #[trigger]
            pairs_map(front).contains_key(k) implies s.order.contains_key(k) && s.order[k]
            == pairs_map(front)[k] by {
            lemma_pairs_map_dom(front, k);
            let i = choose|i: int| 0 <= i < front.len() && (#[trigger] front[i]).0 == k;
            assert(keys[i].rank() < keys[index.len() - 1].rank());
            assert(pairs_map(index).contains_key(k));
        }
        lemma_visible_in_index(s, front);
        let (ts, id) = index.last();
        assert(pairs_map(index).contains_key(ts));
        assert(s.order.contains_key(ts) && s.order[ts] == id);
        assert(s.shows(id));
        assert(s.get(id) is Some);
    }
}

/// A peer's ticks rise strictly, and after observing a timestamp the next tick
/// is newer than it.
pub proof fn law_clock(before: LamportClock, after: LamportClock, seen: Timestamp, tick: Timestamp)
    requires
        after.time() == before.time() + 1,
        tick == (Timestamp { counter: after.time(), client: before.owner() }),
        seen.counter <= before.time(),
    ensures
        tick.after(seen),
{
}

/// Timestamps are totally ordered: of two different ones exactly one is newer.
pub proof fn law_timestamps_are_totally_ordered(a: Timestamp, b: Timestamp, c: Timestamp)
    ensures
        a == b || a.after(b) || b.after(a),
        !(a.after(b) && b.after(a)),
        !a.after(a),
        a.after(b) && b.after(c) ==> a.after(c),
{
}

/// Undoing an add hides the stroke but keeps its payload; undoing that undo
/// brings the same stroke back. The stamps only have to be newer than what the
/// element has seen.
pub proof fn law_undo_redo(
    s: SetView,
    stroke: StrokeView,
    ts: Timestamp,
    undo_ts: Timestamp,
    redo_ts: Timestamp,
)
    requires
        s.entry(stroke.id).fresh(OpView::Add { stroke, ts }),
        undo_ts.after(ts),
        redo_ts.after(undo_ts),
        s.entry(stroke.id).removed matches Some(r) ==> undo_ts.after(r),
    ensures
        ({
            let op = OpView::Add { stroke, ts };
            let drawn = s.apply(op);
            let undo = drawn.inverse(op, undo_ts);
            let undone = drawn.apply(undo->0);
            let redo = undone.inverse(undo->0, redo_ts);
            &&& undo is Some
            &&& !undone.shows(stroke.id)
            &&& undone.get_any(stroke.id) == Some(stroke)
            &&& redo == Some(OpView::Add { stroke, ts: redo_ts })
            &&& undone.apply(redo->0).get(stroke.id) == Some(stroke)
        }),
{
}

/// Removing elements under stamps newer than everything hides exactly those
/// elements; the others stay as they were and nothing is forgotten.
pub proof fn law_removes_hide_exactly(
    s: SetView,
    ids: Seq<StrokeId>,
    time: nat,
    client: ClientId,
)
    requires
        forall|t: Timestamp| #[trigger] s.mentions(t) ==> t.counter <= time,
        time + ids.len() <= u64::MAX,
        forall|i: int| 0 <= i < ids.len() ==> s.entries.contains_key(#[trigger] ids[i]),
    ensures
        ({
            let t = s.apply_all(stamped_removes(ids, time, client));
            &&& t.entries.dom() == s.entries.dom()
            &&& forall|id: StrokeId| ids.contains(id) ==> !#[trigger] t.shows(id)
            &&& forall|id: StrokeId| !ids.contains(id) ==> #[trigger] t.entry(id) == s.entry(id)
            &&& forall|id: StrokeId| #[trigger] t.get_any(id) == s.get_any(id)
        }),
    decreases ids.len(),
{
    let ops = stamped_removes(ids, time, client);
    let t = s.apply_all(ops);
    if ids.len() == 0 {
        assert(ops.len() == 0);
    } else {
        let front = ids.drop_last();
        let id = ids.last();
        assert(ids[ids.len() - 1] == id);
        assert(ops.drop_last() =~= stamped_removes(front, time, client));
        assert forall|i: int| 0 <= i < front.len() implies s.entries.contains_key(
            #[trigger] front[i],
        ) by {
            assert(front[i] == ids[i]);
        }
        law_removes_hide_exactly(s, front, time, client);
        lemma_removes_bounded(s, front, time, client);
        let t0 = s.apply_all(ops.drop_last());
        let op = ops.last();
        assert(op == OpView::Remove {
            id,
            ts: Timestamp { counter: (time + ids.len()) as u64, client },
        });
        assert forall|q: StrokeId| ids.contains(q) <==> front.contains(q) || q == id by {
            if ids.contains(q) {
                let i = choose|i: int| 0 <= i < ids.len() && ids[i] == q;
                if i < ids.len() - 1 {
                    assert(front[i] == q);
                }
            }
            if front.contains(q) {
                let i = choose|i: int| 0 <= i < front.len() && front[i] == q;
                assert(ids[i] == q);
            }
        }
        let e = t0.entry(id);
        assert(t0.entries.contains_key(id));
        if e.add is Some {
            assert(t0.get_any(id) == s.get_any(id));
            assert(t0.mentions(e.add->0.ts)) by {
                assert(t0.entries[id].mentions(e.add->0.ts));
            }
        }
        if e.removed is Some {
            assert(t0.mentions(e.removed->0)) by {
                assert(t0.entries[id].mentions(e.removed->0));
            }
        }
        assert(t == t0.apply(op));
        assert(t.entries.dom() =~= s.entries.dom());
        assert(!t.shows(id));
        assert forall|q: StrokeId| ids.contains(q) implies !#[trigger] t.shows(q) by {
            lemma_entry_after(t0, op, q);
            if q != id {
                assert(!t0.shows(q));
            }
        }
        assert forall|q: StrokeId| !ids.contains(q) implies #[trigger] t.entry(q) == s.entry(q) by {
            lemma_entry_after(t0, op, q);
            assert(t0.entry(q) == s.entry(q));
        }
        assert forall|q: StrokeId| #[trigger] t.get_any(q) == s.get_any(q) by {
            lemma_entry_after(t0, op, q);
            assert(t0.get_any(q) == s.get_any(q));
        }
    }
}

/// After the removes, nothing is stamped later than the last of them.
proof fn lemma_removes_bounded(
    s: SetView,
    ids: Seq<StrokeId>,
    time: nat,
    client: ClientId,
)
    requires
        forall|t: Timestamp| #[trigger] s.mentions(t) ==> t.counter <= time,
        time + ids.len() <= u64::MAX,
    ensures
        forall|t: Timestamp| #[trigger]
            s.apply_all(stamped_removes(ids, time, client)).mentions(t) ==> t.counter <= time
                + ids.len(),
    decreases ids.len(),
{
    let ops = stamped_removes(ids, time, client);
    let after = s.apply_all(ops);
    if ids.len() == 0 {
        assert(ops.len() == 0);
    } else {
        let front = ids.drop_last();
        assert(ops.drop_last() =~= stamped_removes(front, time, client));
        lemma_removes_bounded(s, front, time, client);
        let t0 = s.apply_all(ops.drop_last());
        assert forall|t: Timestamp| #[trigger] after.mentions(t) implies t.counter <= time
            + ids.len() by {
            let q = choose|q: StrokeId| #[trigger]
                after.entries.contains_key(q) && after.entries[q].mentions(t);
            if t != ops.last().ts() {
                if t0.entries.contains_key(q) {
                    assert(t0.entries[q].mentions(t));
                    assert(t0.mentions(t));
                }
            }
        }
    }
}

/// Removing different visible elements under stamps newer than everything
/// changes the board once for each.
pub proof fn law_removes_count(s: SetView, ids: Seq<StrokeId>, time: nat, client: ClientId)
    requires
        forall|t: Timestamp| #[trigger] s.mentions(t) ==> t.counter <= time,
        time + ids.len() <= u64::MAX,
        ids.no_duplicates(),
        forall|i: int| 0 <= i < ids.len() ==> s.shows(#[trigger] ids[i]),
    ensures
        s.count_changes(stamped_removes(ids, time, client)) == ids.len(),
    decreases ids.len(),
{
    let ops = stamped_removes(ids, time, client);
    if ids.len() > 0 {
        let front = ids.drop_last();
        let id = ids.last();
        assert(ids[ids.len() - 1] == id);
        assert(ops.drop_last() =~= stamped_removes(front, time, client));
        assert forall|i: int| 0 <= i < front.len() implies s.shows(#[trigger] front[i]) by {
            assert(front[i] == ids[i]);
        }
        law_removes_count(s, front, time, client);
        law_removes_hide_exactly(s, front, time, client);
        assert(!front.contains(id));
        let e = s.entry(id);
        assert(s.apply_all(ops.drop_last()).entry(id) == e);
        assert(s.mentions(e.add->0.ts)) by {
            assert(s.entries[id].mentions(e.add->0.ts));
        }
        if e.removed is Some {
            assert(s.mentions(e.removed->0)) by {
                assert(s.entries[id].mentions(e.removed->0));
            }
        }
        assert(!e.apply(ops.last()).visible());
    }
}

/// Clearing changes the board once for each visible stroke, leaves nothing
/// visible and forgets nothing.
pub proof fn law_clear_empties(s: SetView, time: nat, client: ClientId)
    requires
        s.indexed(),
        s.order.dom().finite(),
        forall|t: Timestamp| #[trigger] s.mentions(t) ==> t.counter <= time,
        time + sorted_pairs(s.order).len() <= u64::MAX,
    ensures
        ({
            let ids = sorted_pairs(s.order).map_values(|p: (Timestamp, StrokeId)| p.1);
            let ops = stamped_removes(ids, time, client);
            let t = s.apply_all(ops);
            &&& ops.len() == s.visible().len()
            &&& s.count_changes(ops) == s.visible().len()
            &&& forall|id: StrokeId| !#[trigger] t.shows(id)
            &&& t.order == Map::<Timestamp, StrokeId>::empty()
            &&& t.visible().len() == 0
            &&& t.entries.dom() == s.entries.dom()
        }),
{
    let index = sorted_pairs(s.order);
    let ids = index.map_values(|p: (Timestamp, StrokeId)| p.1);
    lemma_sorted_pairs_exist(s.order);
    lemma_visible_in_index(s, index);
    assert forall|i: int| 0 <= i < ids.len() implies s.entries.contains_key(#[trigger] ids[i])
        && s.shows(ids[i]) && s.entry(ids[i]).key() == Some(index[i].0) by {
        lemma_pairs_map_at(index, i);
        assert(s.order.contains_key(index[i].0));
        assert(s.shows(ids[i]));
    }
    assert(ids.no_duplicates()) by {
        let keys = pairs_keys(index);
        assert forall|i: int, j: int| 0 <= i < ids.len() && 0 <= j < ids.len() && i
            != j implies ids[i] != ids[j] by {
            if ids[i] == ids[j] {
                assert(keys[i] == keys[j]);
                if i < j {
                    assert(keys[i].rank() < keys[j].rank());
                } else {
                    assert(keys[j].rank() < keys[i].rank());
                }
            }
        }
    }
    law_removes_count(s, ids, time, client);
    law_removes_hide_exactly(s, ids, time, client);
    let t = s.apply_all(stamped_removes(ids, time, client));
    assert forall|id: StrokeId| !#[trigger] t.shows(id) by {
        if s.shows(id) {
            let k = s.entry(id).key()->0;
            assert(s.order.contains_key(k) && s.order[k] == id);
            lemma_pairs_map_dom(index, k);
            let i = choose|i: int| 0 <= i < index.len() && (#[trigger] index[i]).0 == k;
            lemma_pairs_map_at(index, i);
            assert(ids[i] == id);
        }
        if !ids.contains(id) {
            assert(t.entry(id) == s.entry(id));
        }
    }
    lemma_removes_keep_index(s, stamped_removes(ids, time, client));
    assert(t.order =~= Map::empty()) by {
        assert forall|k: Timestamp| !t.order.contains_key(k) by {
            if t.order.contains_key(k) {
                assert(t.shows(t.order[k]));
            }
        }
    }
    law_draw_order(t);
}

proof fn lemma_removes_keep_index(s: SetView, ops: Seq<OpView>)
    requires
        s.indexed(),
        forall|i: int| 0 <= i < ops.len() ==> #[trigger] ops[i] is Remove,
    ensures
        s.apply_all(ops).indexed(),
    decreases ops.len(),
{
    if ops.len() > 0 {
        let front = ops.drop_last();
        assert forall|i: int| 0 <= i < front.len() implies #[trigger] front[i] is Remove by {
            assert(front[i] == ops[i]);
        }
        lemma_removes_keep_index(s, front);
        assert(ops[ops.len() - 1] is Remove);
        law_index_stays_exact(s.apply_all(front), ops.last());
    }
}

/// The ids of the visible strokes that a peer drew.
pub proof fn lemma_own_ids(s: SetView, who: ClientId)
    requires
        s.indexed(),
        named(s),
        s.order.dom().finite(),
    ensures
        forall|id: StrokeId| #[trigger]
            ids_by(s.visible(), who).contains(id) <==> s.get(id) is Some && s.get(id)->0.client_id
                == who,
        forall|i: int|
            0 <= i < ids_by(s.visible(), who).len() ==> s.entries.contains_key(
                #[trigger] ids_by(s.visible(), who)[i],
            ),
{
    let ids = ids_by(s.visible(), who);
    law_draw_order(s);
    law_draw_order_by_id(s);
    assert forall|id: StrokeId| #[trigger]
        ids.contains(id) <==> s.get(id) is Some && s.get(id)->0.client_id == who by {
        lemma_ids_by(s.visible(), who, id);
        if ids.contains(id) {
            let i = choose|i: int|
                0 <= i < s.visible().len() && (#[trigger] s.visible()[i]).1.id == id
                    && s.visible()[i].1.client_id == who;
            assert(s.get(s.visible()[i].1.id) == Some(s.visible()[i].1));
        }
        if s.get(id) is Some && s.get(id)->0.client_id == who {
            assert(s.shows(id));
            let want = (s.entry(id).key()->0, s.get(id)->0);
            let i = choose|i: int| 0 <= i < s.visible().len() && s.visible()[i] == want;
            assert(s.get(s.visible()[i].1.id) == Some(s.visible()[i].1));
            assert(s.entry(id).add->0.stroke.id == id);
        }
    }
    assert forall|i: int| 0 <= i < ids.len() implies s.entries.contains_key(#[trigger] ids[i]) by {
        assert(ids.contains(ids[i]));
    }
}

/// The strokes among `strokes` that `who` did not draw.
pub open spec fn by_others(
    strokes: Seq<(Timestamp, StrokeView)>,
    who: ClientId,
) -> Seq<(Timestamp, StrokeView)>
    decreases strokes.len(),
{
    if strokes.len() == 0 {
        Seq::empty()
    } else {
        let front = by_others(strokes.drop_last(), who);
        if strokes.last().1.client_id == who {
            front
        } else {
            front.push(strokes.last())
        }
    }
}

proof fn lemma_by_others(strokes: Seq<(Timestamp, StrokeView)>, who: ClientId)
    requires
        ascending(pairs_keys(strokes)),
    ensures
        ascending(pairs_keys(by_others(strokes, who))),
        forall|p: (Timestamp, StrokeView)| #[trigger]
            by_others(strokes, who).contains(p) <==> strokes.contains(p) && p.1.client_id != who,
    decreases strokes.len(),
{
    let rest = by_others(strokes, who);
    if strokes.len() > 0 {
        let front = strokes.drop_last();
        let last = strokes.last();
        let keys = pairs_keys(strokes);
        let n = strokes.len() - 1;
        assert(strokes[n] == last);
        assert(pairs_keys(front) =~= keys.drop_last());
        assert forall|i: int, j: int| 0 <= i < j < front.len() implies pairs_keys(front)[i].rank()
            < pairs_keys(front)[j].rank() by {
            assert(keys[i].rank() < keys[j].rank());
        }
        lemma_by_others(front, who);
        let kept = by_others(front, who);
        assert forall|p: (Timestamp, StrokeView)| #[trigger]
            rest.contains(p) <==> strokes.contains(p) && p.1.client_id != who by {
            if strokes.contains(p) && p.1.client_id != who {
                let i = choose|i: int| 0 <= i < strokes.len() && strokes[i] == p;
                if i < n {
                    assert(front[i] == p);
                    assert(kept.contains(p));
                    let k = choose|k: int| 0 <= k < kept.len() && kept[k] == p;
                    assert(rest[k] == p);
                } else {
                    assert(rest[kept.len() as int] == p);
                }
            }
            if rest.contains(p) {
                let k = choose|k: int| 0 <= k < rest.len() && rest[k] == p;
                if k < kept.len() {
                    assert(kept[k] == p);
                    assert(kept.contains(p));
                    let i = choose|i: int| 0 <= i < front.len() && front[i] == p;
                    assert(strokes[i] == p);
                }
            }
        }
        let after = pairs_keys(rest);
        assert forall|i: int, j: int| 0 <= i < j < after.len() implies after[i].rank()
            < after[j].rank() by {
            if j < kept.len() {
                assert(pairs_keys(kept)[i].rank() < pairs_keys(kept)[j].rank());
            } else {
                assert(kept.contains(kept[i]));
                let k = choose|k: int| 0 <= k < front.len() && front[k] == kept[i];
                assert(keys[k].rank() < keys[n].rank());
            }
        }
    }
}

/// The timestamps of the draw order rise.
proof fn lemma_visible_ascends(s: SetView)
    requires
        s.indexed(),
        s.order.dom().finite(),
    ensures
        ascending(pairs_keys(s.visible())),
{
    law_draw_order(s);
    let keys = pairs_keys(s.visible());
    assert forall|i: int, j: int| 0 <= i < j < keys.len() implies keys[i].rank()
        < keys[j].rank() by {
        assert(s.visible()[j].0.after(s.visible()[i].0));
    }
}

/// Operations keep the index finite.
pub proof fn lemma_order_stays_finite(s: SetView, ops: Seq<OpView>)
    requires
        s.order.dom().finite(),
    ensures
        s.apply_all(ops).order.dom().finite(),
    decreases ops.len(),
{
    if ops.len() > 0 {
        lemma_order_stays_finite(s, ops.drop_last());
    }
}

/// Clearing one client's strokes, under whatever clock, takes exactly these off
/// the board: what others drew stays, in the same order.
pub proof fn law_clear_for_hides_own(s: SetView, who: ClientId, time: nat, client: ClientId)
    requires
        s.indexed(),
        named(s),
        s.order.dom().finite(),
        forall|t: Timestamp| #[trigger] s.mentions(t) ==> t.counter <= time,
        time + ids_by(s.visible(), who).len() <= u64::MAX,
    ensures
        ({
            let t = s.apply_all(stamped_removes(ids_by(s.visible(), who), time, client));
            &&& forall|id: StrokeId| #[trigger]
                t.get(id) == (match s.get(id) {
                    Some(stroke) => if stroke.client_id == who {
                        None
                    } else {
                        Some(stroke)
                    },
                    None => None,
                })
            &&& t.visible() == by_others(s.visible(), who)
        }),
{
    let ids = ids_by(s.visible(), who);
    let ops = stamped_removes(ids, time, client);
    lemma_own_ids(s, who);
    law_removes_hide_exactly(s, ids, time, client);
    let t = s.apply_all(ops);
    assert forall|id: StrokeId| #[trigger]
        t.get(id) == (match s.get(id) {
            Some(stroke) => if stroke.client_id == who {
                None
            } else {
                Some(stroke)
            },
            None => None,
        }) by {
        if ids.contains(id) {
            assert(!t.shows(id));
        } else {
            assert(t.entry(id) == s.entry(id));
        }
    }
    lemma_removes_keep_index(s, ops);
    lemma_order_stays_finite(s, ops);
    lemma_visible_ascends(s);
    lemma_visible_ascends(t);
    lemma_by_others(s.visible(), who);
    law_draw_order(s);
    law_draw_order(t);
    let rest = by_others(s.visible(), who);
    assert forall|p: (Timestamp, StrokeView)| #[trigger]
        t.visible().contains(p) <==> rest.contains(p) by {
        if t.visible().contains(p) {
            let i = choose|i: int| 0 <= i < t.visible().len() && t.visible()[i] == p;
            let id = t.order[p.0];
            assert(t.get(id) == Some(p.1));
            assert(!ids.contains(id));
            assert(t.entry(id) == s.entry(id));
            assert(s.shows(id));
            assert(s.visible().contains((s.entry(id).key()->0, s.get(id)->0)));
        }
        if rest.contains(p) {
            assert(s.visible().contains(p));
            let i = choose|i: int| 0 <= i < s.visible().len() && s.visible()[i] == p;
            let id = s.order[p.0];
            assert(s.get(id) == Some(p.1));
            assert(!ids.contains(id));
            assert(t.entry(id) == s.entry(id));
            assert(t.shows(id));
            assert(t.visible().contains((t.entry(id).key()->0, t.get(id)->0)));
        }
    }
    lemma_same_pairs(t.visible(), rest);
}

proof fn lemma_ids_by(
    strokes: Seq<(Timestamp, StrokeView)>,
    who: ClientId,
    id: StrokeId,
)
    ensures
        ids_by(strokes, who).contains(id) <==> exists|i: int|
            0 <= i < strokes.len() && (#[trigger] strokes[i]).1.id == id && strokes[i].1.client_id
                == who,
    decreases strokes.len(),
{
    if strokes.len() > 0 {
        let front = strokes.drop_last();
        let rest = ids_by(front, who);
        let all = ids_by(strokes, who);
        lemma_ids_by(front, who, id);
        if all.contains(id) {
            let k = choose|k: int| 0 <= k < all.len() && all[k] == id;
            if k < rest.len() {
                assert(rest[k] == id);
                let i = choose|i: int|
                    0 <= i < front.len() && (#[trigger] front[i]).1.id == id
                        && front[i].1.client_id == who;
                assert(strokes[i] == front[i]);
            } else {
                assert(strokes[strokes.len() - 1].1.id == id);
            }
        }
        if exists|i: int|
            0 <= i < strokes.len() && (#[trigger] strokes[i]).1.id == id && strokes[i].1.client_id
                == who {
            let i = choose|i: int|
                0 <= i < strokes.len() && (#[trigger] strokes[i]).1.id == id
                    && strokes[i].1.client_id == who;
            if i < front.len() {
                assert(front[i] == strokes[i]);
                let k = choose|k: int| 0 <= k < rest.len() && rest[k] == id;
                assert(all[k] == id);
            } else {
                assert(all[all.len() - 1] == id);
            }
        }
    }
}

/// A snapshot rebuilds the set it was taken of, draw order included.
pub proof fn law_snapshot_rebuilds_the_set(s: SetView)
    requires
        s.entries.dom().finite(),
        s.indexed(),
    ensures
        SetView::load(sorted_pairs(s.entries)) == s,
{
    let pairs = sorted_pairs(s.entries);
    lemma_sorted_pairs_exist(s.entries);
    lemma_load_prefix(s, pairs);
    let t = SetView::load(pairs);
    assert(t.entries == s.entries);
    lemma_index_is_derived(t, s);
}

/// A snapshot keeps everything known about every element, whatever stamps them:
/// each is as visible as it was, with the same payload.
pub proof fn law_snapshot_keeps_every_element(s: SetView)
    requires
        s.entries.dom().finite(),
    ensures
        SetView::load(sorted_pairs(s.entries)).entries == s.entries,
        forall|id: StrokeId| #[trigger]
            SetView::load(sorted_pairs(s.entries)).get(id) == s.get(id),
{
    let pairs = sorted_pairs(s.entries);
    lemma_sorted_pairs_exist(s.entries);
    lemma_load_entries(pairs);
}

proof fn lemma_load_entries(pairs: Seq<(StrokeId, EntryView)>)
    requires
        ascending(pairs_keys(pairs)),
    ensures
        SetView::load(pairs).entries == pairs_map(pairs),
    decreases pairs.len(),
{
    if pairs.len() == 0 {
        assert(SetView::load(pairs).entries =~= pairs_map(pairs));
    } else {
        let front = pairs.drop_last();
        let id = pairs.last().0;
        let keys = pairs_keys(pairs);
        assert(ascending(pairs_keys(front))) by {
            assert forall|i: int, j: int| 0 <= i < j < front.len() implies pairs_keys(
                front,
            )[i].rank() < pairs_keys(front)[j].rank() by {
                assert(keys[i].rank() < keys[j].rank());
            }
        }
        assert(!pairs_map(front).contains_key(id)) by {
            lemma_pairs_map_dom(front, id);
            if pairs_map(front).contains_key(id) {
                let i = choose|i: int| 0 <= i < front.len() && (#[trigger] front[i]).0 == id;
                assert(keys[i].rank() < keys[pairs.len() - 1].rank());
            }
        }
        lemma_load_entries(front);
    }
}

proof fn lemma_load_prefix(s: SetView, pairs: Seq<(StrokeId, EntryView)>)
    requires
        s.indexed(),
        ascending(pairs_keys(pairs)),
        forall|k: StrokeId| #[trigger]
            pairs_map(pairs).contains_key(k) ==> s.entries.contains_key(k) && s.entries[k]
                == pairs_map(pairs)[k],
    ensures
        SetView::load(pairs).entries == pairs_map(pairs),
        SetView::load(pairs).indexed(),
    decreases pairs.len(),
{
    lemma_load_entries(pairs);
    if pairs.len() > 0 {
        let front = pairs.drop_last();
        let (id, e) = pairs.last();
        let keys = pairs_keys(pairs);
        assert(ascending(pairs_keys(front))) by {
            assert forall|i: int, j: int| 0 <= i < j < front.len() implies pairs_keys(
                front,
            )[i].rank() < pairs_keys(front)[j].rank() by {
                assert(keys[i].rank() < keys[j].rank());
            }
        }
        assert(!pairs_map(front).contains_key(id)) by {
            lemma_pairs_map_dom(front, id);
            if pairs_map(front).contains_key(id) {
                let i = choose|i: int| 0 <= i < front.len() && (#[trigger] front[i]).0 == id;
                assert(keys[i].rank() < keys[pairs.len() - 1].rank());
            }
        }
        assert forall|k: StrokeId| #[trigger]
            pairs_map(front).contains_key(k) implies s.entries.contains_key(k) && s.entries[k]
            == pairs_map(front)[k] by {
            assert(pairs_map(pairs).contains_key(k));
        }
        lemma_load_prefix(s, front);
        let t0 = SetView::load(front);
        let t = SetView::load(pairs);
        assert(pairs_map(pairs).contains_key(id));
        assert(s.entry(id) == e);
        assert forall|q: StrokeId| #[trigger] t0.entries.contains_key(q) implies t0.entry(q)
            == s.entry(q) by {
            assert(pairs_map(front).contains_key(q));
        }
        assert forall|ts: Timestamp| #[trigger] t.order.contains_key(ts) implies t.shows(
            t.order[ts],
        ) && t.entry(t.order[ts]).key() == Some(ts) by {
            if !(e.visible() && ts == e.key()->0) {
                assert(t0.order.contains_key(ts));
                assert(t0.shows(t0.order[ts]));
            }
        }
        assert forall|q: StrokeId| #[trigger] t.shows(q) implies t.order.contains_key(
            t.entry(q).key()->0,
        ) && t.order[t.entry(q).key()->0] == q by {
            if q != id {
                assert(t0.shows(q));
                assert(t0.entries.contains_key(q));
                assert(s.shows(q));
                assert(s.shows(id) == e.visible());
            }
        }
    }
}

/// The newest timestamp of the set, observed by a clock, makes the clock's next
/// tick newer than everything in the set.
pub proof fn law_first_op_sorts_after_history(s: SetView, latest: Timestamp, tick: Timestamp)
    requires
        forall|t: Timestamp| #[trigger] s.mentions(t) ==> !t.after(latest),
        tick.counter > latest.counter,
    ensures
        forall|t: Timestamp| #[trigger] s.mentions(t) ==> tick.after(t),
{
}

/// An operation that a set has seen is no news to it, nor ever again.
proof fn lemma_seen(s: SetView, ops: Seq<OpView>, op: OpView)
    requires
        ops.contains(op),
    ensures
        s.apply_all(ops).entries.contains_key(op.id()),
        !s.apply_all(ops).entry(op.id()).fresh(op),
    decreases ops.len(),
{
    let front = ops.drop_last();
    let last = ops.last();
    let i = choose|i: int| 0 <= i < ops.len() && ops[i] == op;
    lemma_entry_after(s.apply_all(front), last, op.id());
    if i < front.len() {
        assert(front[i] == op);
        lemma_seen(s, front, op);
    } else {
        assert(last == op);
    }
}

/// Duplicates are harmless: operations that a set has seen, in whatever order
/// and however often they come again, leave it as it is and change nothing.
pub proof fn law_duplicates_are_harmless(s: SetView, ops: Seq<OpView>, again: Seq<OpView>)
    requires
        forall|i: int| 0 <= i < again.len() ==> ops.contains(#[trigger] again[i]),
    ensures
        ({
            let t = s.apply_all(ops);
            &&& t.apply_all(again) == t
            &&& t.count_changes(again) == 0
            &&& !t.any_fresh(again)
        }),
    decreases again.len(),
{
    if again.len() > 0 {
        let front = again.drop_last();
        let op = again.last();
        assert(again[again.len() - 1] == op);
        assert forall|i: int| 0 <= i < front.len() implies ops.contains(#[trigger] front[i]) by {
            assert(front[i] == again[i]);
        }
        law_duplicates_are_harmless(s, ops, front);
        lemma_seen(s, ops, op);
        let t = s.apply_all(ops);
        assert(t.apply(op).entries =~= t.entries);
    }
}

impl SetView {
    /// Nothing in the set is stamped later than `time`.
    pub open spec fn known_by(self, time: u64) -> bool {
        forall|ts: Timestamp| #[trigger] self.mentions(ts) ==> ts.counter <= time
    }
}

/// Operations stamped no later than `time` leave a set in which nothing is.
pub proof fn lemma_known_after(s: SetView, ops: Seq<OpView>, time: u64)
    requires
        s.known_by(time),
        forall|i: int| 0 <= i < ops.len() ==> (#[trigger] ops[i]).ts().counter <= time,
    ensures
        s.apply_all(ops).known_by(time),
    decreases ops.len(),
{
    if ops.len() > 0 {
        let front = ops.drop_last();
        assert forall|i: int| 0 <= i < front.len() implies (#[trigger] front[i]).ts().counter
            <= time by {
            assert(front[i] == ops[i]);
        }
        lemma_known_after(s, front, time);
        let t0 = s.apply_all(front);
        let op = ops.last();
        assert(ops[ops.len() - 1] == op);
        let after = s.apply_all(ops);
        assert forall|ts: Timestamp| #[trigger] after.mentions(ts) implies ts.counter <= time by {
            let q = choose|q: StrokeId| #[trigger]
                after.entries.contains_key(q) && after.entries[q].mentions(ts);
            if ts != op.ts() {
                if t0.entries.contains_key(q) {
                    assert(t0.entries[q].mentions(ts));
                    assert(t0.mentions(ts));
                }
            }
        }
    }
}

/// Merging what is known by a time leaves what is known by it.
pub proof fn lemma_merge_known(a: SetView, b: SetView, time: u64)
    requires
        a.known_by(time),
        b.known_by(time),
        b.entries.dom().finite(),
    ensures
        a.merge(b).known_by(time),
{
    let pairs = sorted_pairs(b.entries);
    lemma_sorted_pairs_exist(b.entries);
    assert forall|k: int| 0 <= k < pairs.len() implies b.entries.contains_key(
        (#[trigger] pairs[k]).0,
    ) && b.entries[pairs[k].0] == pairs[k].1 by {
        lemma_pairs_map_at(pairs, k);
    }
    lemma_ops_known(b, pairs, time);
    lemma_known_after(a, b.ops(), time);
}

proof fn lemma_ops_known(b: SetView, pairs: Seq<(StrokeId, EntryView)>, time: u64)
    requires
        b.known_by(time),
        forall|k: int|
            0 <= k < pairs.len() ==> b.entries.contains_key((#[trigger] pairs[k]).0)
                && b.entries[pairs[k].0] == pairs[k].1,
    ensures
        forall|i: int|
            0 <= i < SetView::ops_of(pairs).len() ==> (#[trigger] SetView::ops_of(
                pairs,
            )[i]).ts().counter <= time,
    decreases pairs.len(),
{
    if pairs.len() > 0 {
        let front = pairs.drop_last();
        assert forall|k: int| 0 <= k < front.len() implies b.entries.contains_key(
            (#[trigger] front[k]).0,
        ) && b.entries[front[k].0] == front[k].1 by {
            assert(front[k] == pairs[k]);
        }
        lemma_ops_known(b, front, time);
        let (id, e) = pairs.last();
        assert(pairs[pairs.len() - 1] == (id, e));
        assert(b.entries.contains_key(id) && b.entries[id] == e);
        if e.add is Some {
            assert(e.mentions(e.add->0.ts));
            assert(b.mentions(e.add->0.ts));
        }
        if e.removed is Some {
            assert(e.mentions(e.removed->0));
            assert(b.mentions(e.removed->0));
        }
        let all = SetView::ops_of(pairs);
        let head = SetView::ops_of(front);
        assert forall|i: int| 0 <= i < all.len() implies (#[trigger] all[i]).ts().counter
            <= time by {
            if i < head.len() {
                assert(all[i] == head[i]);
            } else {
                assert(all[i] == e.ops(id)[i - head.len()]);
            }
        }
    }
}

} // verus!
