//! Conflict-free replication primitives.
//!
//! The whiteboard document is a last-writer-wins element set keyed by
//! [`StrokeId`]. Every mutation is stamped with a [`Timestamp`] from a
//! per-peer [`LamportClock`]; because timestamps are totally ordered and
//! unique (`(counter, client_id)`), any two replicas that have seen the same
//! set of [`StrokeOp`]s, in *any* order, with *any* duplication, converge to
//! the same visible set of strokes and the same draw order.
//!
//! Strokes are immutable once created, so the set only tracks membership:
//! an *add* carries the payload, a *remove* leaves a tombstone. An element is
//! visible when its newest add is strictly newer than its newest remove
//! (remove-biased on the impossible tie).

use vstd::prelude::*;

use crate::ordmap::{
    ascending, lemma_pairs_map_at, lemma_pairs_map_dom, lemma_pairs_map_len, lemma_sorted_pairs,
    pairs_keys, pairs_map,
    sorted_pairs, OrdMap, Ranked,
};
use crate::types::{ClientId, Stroke, StrokeId, StrokeView};

verus! {

/// A Lamport timestamp. Ordering is `counter` first, then `client` as a
/// deterministic tie-breaker, which makes every timestamp in the system unique.
#[derive(Clone, Copy, Debug, PartialEq, Eq, Structural, Hash)]
pub struct Timestamp {
    pub counter: u64,
    pub client: ClientId,
}

impl Timestamp {
    /// Strictly newer.
    pub open spec fn after(self, other: Timestamp) -> bool {
        self.counter > other.counter || (self.counter == other.counter && self.client
            > other.client)
    }

    pub fn new(counter: u64, client: ClientId) -> (r: Timestamp)
        ensures
            r == (Timestamp { counter, client }),
    {
        Timestamp { counter, client }
    }

    pub fn is_after(self, other: Timestamp) -> (r: bool)
        ensures
            r == self.after(other),
    {
        self.counter > other.counter || (self.counter == other.counter && self.client
            > other.client)
    }
}

impl Ranked for Timestamp {
    open spec fn rank(self) -> int {
        self.counter * 0x1_0000_0000_0000_0000_0000_0000_0000_0000 + self.client
    }

    proof fn rank_is_injective(a: Timestamp, b: Timestamp) {
    }

    fn precedes(self, other: Timestamp) -> (r: bool) {
        other.is_after(self)
    }
}

impl PartialOrd for Timestamp {
    fn partial_cmp(&self, other: &Timestamp) -> (r: Option<core::cmp::Ordering>) {
        if other.is_after(*self) {
            Some(core::cmp::Ordering::Less)
        } else if self.is_after(*other) {
            Some(core::cmp::Ordering::Greater)
        } else {
            Some(core::cmp::Ordering::Equal)
        }
    }
}

impl vstd::std_specs::cmp::PartialOrdSpecImpl for Timestamp {
    open spec fn obeys_partial_cmp_spec() -> bool {
        true
    }

    open spec fn partial_cmp_spec(&self, other: &Timestamp) -> Option<core::cmp::Ordering> {
        if other.after(*self) {
            Some(core::cmp::Ordering::Less)
        } else if self.after(*other) {
            Some(core::cmp::Ordering::Greater)
        } else {
            Some(core::cmp::Ordering::Equal)
        }
    }
}

/// Per-peer logical clock. Call [`tick`](Self::tick) to stamp a local
/// operation and [`observe`](Self::observe) for every remote timestamp seen,
/// so local operations always sort after everything already known.
#[derive(Clone, Copy, Debug)]
pub struct LamportClock {
    client: ClientId,
    counter: u64,
}

impl LamportClock {
    pub closed spec fn owner(self) -> ClientId {
        self.client
    }

    pub closed spec fn time(self) -> u64 {
        self.counter
    }

    pub fn new(client: ClientId) -> (r: LamportClock)
        ensures
            r.owner() == client,
            r.time() == 0,
    {
        LamportClock { client, counter: 0 }
    }

    pub fn client(&self) -> (r: ClientId)
        ensures
            r == self.owner(),
    {
        self.client
    }

    /// Current counter without advancing it.
    pub fn now(&self) -> (r: u64)
        ensures
            r == self.time(),
    {
        self.counter
    }

    /// Advance the clock and return a fresh, unique timestamp.
    pub fn tick(&mut self) -> (r: Timestamp)
        requires
            old(self).time() < u64::MAX,
        ensures
            final(self).owner() == old(self).owner(),
            final(self).time() == old(self).time() + 1,
            r == (Timestamp { counter: final(self).time(), client: old(self).owner() }),
    {
        self.counter += 1;
        Timestamp::new(self.counter, self.client)
    }

    /// Merge a remote timestamp so subsequent ticks are causally after it.
    pub fn observe(&mut self, ts: Timestamp)
        ensures
            final(self).owner() == old(self).owner(),
            final(self).time() == (if ts.counter > old(self).time() {
                ts.counter
            } else {
                old(self).time()
            }),
    {
        if ts.counter > self.counter {
            self.counter = ts.counter;
        }
    }
}

/// A replicated mutation. This is the unit sent over the wire and persisted.
#[derive(Debug, PartialEq)]
pub enum StrokeOp {
    /// Insert (or re-insert after an undo of a delete) a stroke.
    Add { stroke: Stroke, ts: Timestamp },
    /// Tombstone a stroke.
    Remove { id: StrokeId, ts: Timestamp },
}

/// Mathematical counterpart of [`StrokeOp`].
pub enum OpView {
    Add { stroke: StrokeView, ts: Timestamp },
    Remove { id: StrokeId, ts: Timestamp },
}

impl OpView {
    pub open spec fn id(self) -> StrokeId {
        match self {
            OpView::Add { stroke, .. } => stroke.id,
            OpView::Remove { id, .. } => id,
        }
    }

    pub open spec fn ts(self) -> Timestamp {
        match self {
            OpView::Add { ts, .. } => ts,
            OpView::Remove { ts, .. } => ts,
        }
    }
}

impl View for StrokeOp {
    type V = OpView;

    open spec fn view(&self) -> OpView {
        match self {
            StrokeOp::Add { stroke, ts } => OpView::Add { stroke: stroke@, ts: *ts },
            StrokeOp::Remove { id, ts } => OpView::Remove { id: *id, ts: *ts },
        }
    }
}

impl Clone for StrokeOp {
    fn clone(&self) -> (r: StrokeOp)
        ensures
            r@ == self@,
    {
        match self {
            StrokeOp::Add { stroke, ts } => StrokeOp::Add { stroke: stroke.clone(), ts: *ts },
            StrokeOp::Remove { id, ts } => StrokeOp::Remove { id: *id, ts: *ts },
        }
    }
}

impl StrokeOp {
    pub fn id(&self) -> (r: StrokeId)
        ensures
            r == self@.id(),
    {
        match self {
            StrokeOp::Add { stroke, .. } => stroke.id,
            StrokeOp::Remove { id, .. } => *id,
        }
    }

    pub fn timestamp(&self) -> (r: Timestamp)
        ensures
            r == self@.ts(),
    {
        match self {
            StrokeOp::Add { ts, .. } => *ts,
            StrokeOp::Remove { ts, .. } => *ts,
        }
    }
}

/// The mathematical values of a list of operations.
pub open spec fn op_views(ops: Seq<StrokeOp>) -> Seq<OpView> {
    ops.map_values(|op: StrokeOp| op@)
}

pub proof fn lemma_op_views_push(ops: Seq<StrokeOp>, op: StrokeOp)
    ensures
        op_views(ops.push(op)) == op_views(ops).push(op@),
{
    assert(op_views(ops.push(op)) =~= op_views(ops).push(op@));
}

/// A copy of a list of operations.
pub fn clone_ops(ops: &Vec<StrokeOp>) -> (r: Vec<StrokeOp>)
    ensures
        op_views(r@) == op_views(ops@),
{
    let mut out: Vec<StrokeOp> = Vec::new();
    let mut i: usize = 0;
    while i < ops.len()
        invariant
            i <= ops.len(),
            op_views(out@) == op_views(ops@).take(i as int),
        decreases ops.len() - i,
    {
        let ghost before = out@;
        let op = ops[i].clone();
        out.push(op);
        proof {
            lemma_op_views_push(before, op);
            assert(op_views(ops@).take(i + 1) =~= op_views(ops@).take(i as int).push(ops@[i as int]@));
        }
        i += 1;
    }
    assert(op_views(ops@).take(i as int) =~= op_views(ops@));
    out
}

/// The newest *add* observed for an element, with its payload.
#[derive(Debug, PartialEq)]
pub struct Added {
    pub ts: Timestamp,
    pub stroke: Stroke,
}

/// Mathematical counterpart of [`Added`].
pub struct AddedView {
    pub ts: Timestamp,
    pub stroke: StrokeView,
}

impl View for Added {
    type V = AddedView;

    open spec fn view(&self) -> AddedView {
        AddedView { ts: self.ts, stroke: self.stroke@ }
    }
}

/// Replication state for one element. Kept even when tombstoned so that a
/// late-arriving add can be correctly out-voted.
#[derive(Debug, PartialEq)]
pub struct StrokeEntry {
    /// `None` if only a tombstone has been seen so far.
    pub add: Option<Added>,
    /// Newest remove timestamp, if any.
    pub removed: Option<Timestamp>,
}

/// Mathematical counterpart of [`StrokeEntry`].
pub struct EntryView {
    pub add: Option<AddedView>,
    pub removed: Option<Timestamp>,
}

impl View for StrokeEntry {
    type V = EntryView;

    open spec fn view(&self) -> EntryView {
        EntryView {
            add: match self.add {
                Some(a) => Some(a@),
                None => None,
            },
            removed: self.removed,
        }
    }
}

impl Clone for StrokeEntry {
    fn clone(&self) -> (r: StrokeEntry)
        ensures
            r@ == self@,
    {
        StrokeEntry {
            add: match &self.add {
                Some(a) => Some(Added { ts: a.ts, stroke: a.stroke.clone() }),
                None => None,
            },
            removed: self.removed,
        }
    }
}

impl Default for StrokeEntry {
    fn default() -> (r: StrokeEntry)
        ensures
            r@ == EntryView::blank(),
    {
        StrokeEntry { add: None, removed: None }
    }
}

impl EntryView {
    /// An element about which nothing is known.
    pub open spec fn blank() -> EntryView {
        EntryView { add: None, removed: None }
    }

    pub open spec fn visible(self) -> bool {
        match (self.add, self.removed) {
            (Some(a), Some(r)) => a.ts.after(r),
            (Some(_), None) => true,
            (None, _) => false,
        }
    }

    /// The timestamp under which the element is drawn while it is visible.
    pub open spec fn key(self) -> Option<Timestamp> {
        match self.add {
            Some(a) => Some(a.ts),
            None => None,
        }
    }

    /// Whether a timestamp occurs in the element's state.
    pub open spec fn mentions(self, ts: Timestamp) -> bool {
        self.key() == Some(ts) || self.removed == Some(ts)
    }

    /// Whether an operation on this element is news.
    pub open spec fn fresh(self, op: OpView) -> bool {
        match op {
            OpView::Add { ts, .. } => self.add is None || ts.after(self.add->0.ts),
            OpView::Remove { ts, .. } => self.removed is None || ts.after(self.removed->0),
        }
    }

    /// The element after an operation on it: news replaces what it outdates.
    pub open spec fn apply(self, op: OpView) -> EntryView {
        if !self.fresh(op) {
            self
        } else {
            match op {
                OpView::Add { stroke, ts } => EntryView {
                    add: Some(AddedView { ts, stroke }),
                    ..self
                },
                OpView::Remove { ts, .. } => EntryView { removed: Some(ts), ..self },
            }
        }
    }

    /// Whether an operation on this element makes it appear, disappear or move
    /// in draw order.
    pub open spec fn changes(self, op: OpView) -> bool {
        let e = self.apply(op);
        self.visible() != e.visible() || (e.visible() && self.key() != e.key())
    }

    /// The operations that recreate this element, add first.
    pub open spec fn ops(self, id: StrokeId) -> Seq<OpView> {
        let adds = match self.add {
            Some(a) => seq![OpView::Add { stroke: a.stroke, ts: a.ts }],
            None => Seq::<OpView>::empty(),
        };
        let removes = match self.removed {
            Some(ts) => seq![OpView::Remove { id, ts }],
            None => Seq::<OpView>::empty(),
        };
        adds + removes
    }
}

impl StrokeEntry {
    pub fn is_visible(&self) -> (r: bool)
        ensures
            r == self@.visible(),
    {
        match (&self.add, self.removed) {
            (Some(a), Some(r)) => a.ts.is_after(r),
            (Some(_), None) => true,
            (None, _) => false,
        }
    }

    fn add_ts(&self) -> (r: Option<Timestamp>)
        ensures
            r == self@.key(),
    {
        match &self.add {
            Some(a) => Some(a.ts),
            None => None,
        }
    }
}

/// Mathematical counterpart of [`StrokeSet`]: everything known about each
/// element, and the draw-order index from add timestamps to elements.
#[verifier::ext_equal]
pub struct SetView {
    pub entries: Map<StrokeId, EntryView>,
    pub order: Map<Timestamp, StrokeId>,
}

impl SetView {
    pub open spec fn empty() -> SetView {
        SetView { entries: Map::empty(), order: Map::empty() }
    }

    /// What is known about an element.
    pub open spec fn entry(self, id: StrokeId) -> EntryView {
        if self.entries.contains_key(id) {
            self.entries[id]
        } else {
            EntryView::blank()
        }
    }

    pub open spec fn shows(self, id: StrokeId) -> bool {
        self.entry(id).visible()
    }

    /// Whether an operation changes the visible state.
    pub open spec fn changes(self, op: OpView) -> bool {
        self.entry(op.id()).changes(op)
    }

    /// The set after an operation.
    pub open spec fn apply(self, op: OpView) -> SetView {
        let id = op.id();
        let before = self.entry(id);
        let after = before.apply(op);
        let entries = self.entries.insert(id, after);
        if !before.changes(op) {
            SetView { entries, order: self.order }
        } else {
            let trimmed = if before.visible() {
                self.order.remove(before.key()->0)
            } else {
                self.order
            };
            SetView {
                entries,
                order: if after.visible() {
                    trimmed.insert(after.key()->0, id)
                } else {
                    trimmed
                },
            }
        }
    }

    /// The set after operations in sequence.
    pub open spec fn apply_all(self, ops: Seq<OpView>) -> SetView
        decreases ops.len(),
    {
        if ops.len() == 0 {
            self
        } else {
            self.apply_all(ops.drop_last()).apply(ops.last())
        }
    }

    /// How many operations of a sequence change the visible state when their
    /// turn comes.
    pub open spec fn count_changes(self, ops: Seq<OpView>) -> nat
        decreases ops.len(),
    {
        if ops.len() == 0 {
            0
        } else {
            self.count_changes(ops.drop_last()) + if self.apply_all(ops.drop_last()).changes(
                ops.last(),
            ) {
                1nat
            } else {
                0nat
            }
        }
    }

    /// Whether some operation of a sequence is news when its turn comes.
    pub open spec fn any_fresh(self, ops: Seq<OpView>) -> bool
        decreases ops.len(),
    {
        ops.len() > 0 && (self.any_fresh(ops.drop_last()) || self.apply_all(ops.drop_last()).entry(
            ops.last().id(),
        ).fresh(ops.last()))
    }

    /// The operations that recreate elements, in the order given.
    pub open spec fn ops_of(pairs: Seq<(StrokeId, EntryView)>) -> Seq<OpView>
        decreases pairs.len(),
    {
        if pairs.len() == 0 {
            Seq::empty()
        } else {
            SetView::ops_of(pairs.drop_last()) + pairs.last().1.ops(pairs.last().0)
        }
    }

    /// The operations that recreate this set, in ascending order of the
    /// elements' ids.
    pub open spec fn ops(self) -> Seq<OpView> {
        SetView::ops_of(sorted_pairs(self.entries))
    }

    /// This set joined with another replica.
    pub open spec fn merge(self, other: SetView) -> SetView {
        self.apply_all(other.ops())
    }

    /// The elements whose visibility differs between two sets.
    pub open spec fn toggled(self, other: SetView) -> Set<StrokeId> {
        self.entries.dom().union(other.entries.dom()).filter(
            |id: StrokeId| self.shows(id) != other.shows(id),
        )
    }

    /// Visible payload of an element.
    pub open spec fn get(self, id: StrokeId) -> Option<StrokeView> {
        if self.shows(id) {
            Some(self.entry(id).add->0.stroke)
        } else {
            None
        }
    }

    /// Payload of an element, visible or not.
    pub open spec fn get_any(self, id: StrokeId) -> Option<StrokeView> {
        match self.entry(id).add {
            Some(a) => Some(a.stroke),
            None => None,
        }
    }

    /// The visible strokes named by index entries, in the order given.
    pub open spec fn visible_in(self, index: Seq<(Timestamp, StrokeId)>) -> Seq<
        (Timestamp, StrokeView),
    >
        decreases index.len(),
    {
        if index.len() == 0 {
            Seq::empty()
        } else {
            let front = self.visible_in(index.drop_last());
            match self.get(index.last().1) {
                Some(stroke) => front.push((index.last().0, stroke)),
                None => front,
            }
        }
    }

    /// The visible strokes in draw order (oldest first), with their add
    /// timestamps.
    pub open spec fn visible(self) -> Seq<(Timestamp, StrokeView)> {
        self.visible_in(sorted_pairs(self.order))
    }

    /// Whether a timestamp occurs anywhere in the set.
    pub open spec fn mentions(self, ts: Timestamp) -> bool {
        exists|id: StrokeId| #[trigger]
            self.entries.contains_key(id) && self.entries[id].mentions(ts)
    }

    /// The operation that undoes `op`, stamped with `ts`.
    pub open spec fn inverse(self, op: OpView, ts: Timestamp) -> Option<OpView> {
        match op {
            OpView::Add { stroke, .. } => Some(OpView::Remove { id: stroke.id, ts }),
            OpView::Remove { id, .. } => match self.get_any(id) {
                Some(stroke) => Some(OpView::Add { stroke, ts }),
                None => None,
            },
        }
    }

    /// Index of the strokes that would be loaded from a list of elements.
    pub open spec fn load_one(self, id: StrokeId, entry: EntryView) -> SetView {
        if self.entries.contains_key(id) {
            self.apply_all(entry.ops(id))
        } else {
            SetView {
                entries: self.entries.insert(id, entry),
                order: if entry.visible() {
                    self.order.insert(entry.key()->0, id)
                } else {
                    self.order
                },
            }
        }
    }

    /// The set that a list of elements describes; repeated elements are folded
    /// in as their operations.
    pub open spec fn load(pairs: Seq<(StrokeId, EntryView)>) -> SetView
        decreases pairs.len(),
    {
        if pairs.len() == 0 {
            SetView::empty()
        } else {
            SetView::load(pairs.drop_last()).load_one(pairs.last().0, pairs.last().1)
        }
    }
}

/// Last-writer-wins element set of strokes with a maintained draw-order index.
///
/// Serialises as a flat list of elements (the index is rebuilt on load), so
/// the same type doubles as the on-disk snapshot and the "full sync" payload
/// sent to newly joined peers.
#[derive(Debug)]
pub struct StrokeSet {
    entries: OrdMap<StrokeId, StrokeEntry>,
    /// Visible strokes keyed by their add timestamp: walking it is draw order.
    order: OrdMap<Timestamp, StrokeId>,
}

impl View for StrokeSet {
    type V = SetView;

    closed spec fn view(&self) -> SetView {
        SetView {
            entries: self.entries@.map_values(|e: StrokeEntry| e@),
            order: self.order@,
        }
    }
}

impl StrokeSet {
    /// Both indices are sorted.
    pub closed spec fn wf(self) -> bool {
        self.entries.wf() && self.order.wf()
    }

    pub fn new() -> (r: StrokeSet)
        ensures
            r.wf(),
            r@ == SetView::empty(),
    {
        let r = StrokeSet { entries: OrdMap::new(), order: OrdMap::new() };
        assert(r@.entries =~= SetView::empty().entries);
        r
    }

    /// Apply one operation. Returns `true` if the *visible* state changed
    /// (a stroke appeared, disappeared, or moved in draw order); callers use
    /// this to decide whether to repaint or rebroadcast.
    pub fn apply(&mut self, op: StrokeOp) -> (r: bool)
        requires
            old(self).wf(),
        ensures
            final(self).wf(),
            final(self)@ == old(self)@.apply(op@),
            r == old(self)@.changes(op@),
    {
        let id = op.id();
        let ghost before = self@;
        let ghost op_view = op@;
        let entry = match self.entries.position(id) {
            Some(i) => self.entries.swap_at(i, StrokeEntry::default()),
            None => StrokeEntry::default(),
        };
        assert(entry@ == before.entry(id));
        let was_visible = entry.is_visible();
        let old_key = entry.add_ts();
        let mut entry = entry;
        match op {
            StrokeOp::Add { stroke, ts } => {
                let newer = match &entry.add {
                    Some(a) => ts.is_after(a.ts),
                    None => true,
                };
                if newer {
                    entry.add = Some(Added { ts, stroke });
                }
            },
            StrokeOp::Remove { ts, .. } => {
                let newer = match entry.removed {
                    Some(r) => ts.is_after(r),
                    None => true,
                };
                if newer {
                    entry.removed = Some(ts);
                }
            },
        }
        assert(entry@ == before.entry(id).apply(op_view));
        let now_visible = entry.is_visible();
        let new_key = entry.add_ts();
        let moved = match (old_key, new_key) {
            (Some(a), Some(b)) => a != b,
            (None, None) => false,
            _ => true,
        };
        let changed = was_visible != now_visible || (now_visible && moved);
        self.entries.insert(id, entry);
        if changed {
            if was_visible {
                if let Some(k) = old_key {
                    self.order.remove(k);
                }
            }
            if now_visible {
                if let Some(k) = new_key {
                    self.order.insert(k, id);
                }
            }
        }
        assert(self@.entries =~= before.apply(op_view).entries);
        changed
    }

    /// Apply one operation and say both whether it was news at all and whether
    /// the visible state changed.
    pub fn apply_tracked(&mut self, op: StrokeOp) -> (r: (bool, bool))
        requires
            old(self).wf(),
        ensures
            final(self).wf(),
            final(self)@ == old(self)@.apply(op@),
            r.0 == old(self)@.entry(op@.id()).fresh(op@),
            r.1 == old(self)@.changes(op@),
    {
        let news = match self.entries.get(op.id()) {
            None => true,
            Some(entry) => match &op {
                StrokeOp::Add { ts, .. } => match &entry.add {
                    Some(a) => ts.is_after(a.ts),
                    None => true,
                },
                StrokeOp::Remove { ts, .. } => match entry.removed {
                    Some(r) => ts.is_after(r),
                    None => true,
                },
            },
        };
        let changed = self.apply(op);
        (news, changed)
    }

    /// Apply a batch, returning how many ops changed visible state.
    pub fn apply_all(&mut self, ops: Vec<StrokeOp>) -> (r: usize)
        requires
            old(self).wf(),
        ensures
            final(self).wf(),
            final(self)@ == old(self)@.apply_all(op_views(ops@)),
            r == old(self)@.count_changes(op_views(ops@)),
            r <= ops@.len(),
    {
        self.apply_all_tracked(ops).1
    }

    /// Apply a batch, returning whether any op was news and how many ops
    /// changed visible state.
    pub fn apply_all_tracked(&mut self, ops: Vec<StrokeOp>) -> (r: (bool, usize))
        requires
            old(self).wf(),
        ensures
            final(self).wf(),
            final(self)@ == old(self)@.apply_all(op_views(ops@)),
            r.0 == old(self)@.any_fresh(op_views(ops@)),
            r.1 == old(self)@.count_changes(op_views(ops@)),
            r.1 <= ops@.len(),
    {
        let ghost start = self@;
        let ghost all = op_views(ops@);
        let total: usize = ops.len();
        let mut news = false;
        let mut changed: usize = 0;
        for op in it: ops
            invariant
                it.seq() == ops@,
                all == op_views(ops@),
                self.wf(),
                self@ == start.apply_all(all.take(it.index() as int)),
                news == start.any_fresh(all.take(it.index() as int)),
                changed == start.count_changes(all.take(it.index() as int)),
                changed <= it.index(),
                it.index() <= ops@.len() == total,
        {
            proof {
                let n = it.index() as int;
                assert(all.take(n + 1).drop_last() =~= all.take(n));
                assert(all.take(n + 1).last() == op@);
            }
            let (fresh, visible) = self.apply_tracked(op);
            news = news || fresh;
            if visible {
                changed += 1;
            }
        }
        assert(all.take(ops@.len() as int) =~= all);
        (news, changed)
    }

    /// Look up a stroke by id, only if it is currently visible.
    pub fn get(&self, id: StrokeId) -> (r: Option<&Stroke>)
        requires
            self.wf(),
        ensures
            match r {
                Some(stroke) => self@.get(id) == Some(stroke@),
                None => self@.get(id) is None,
            },
    {
        match self.entries.get(id) {
            Some(entry) => if entry.is_visible() {
                match &entry.add {
                    Some(a) => Some(&a.stroke),
                    None => None,
                }
            } else {
                None
            },
            None => None,
        }
    }

    /// The payload for an id regardless of visibility (used to undo a delete).
    pub fn get_any(&self, id: StrokeId) -> (r: Option<&Stroke>)
        requires
            self.wf(),
        ensures
            match r {
                Some(stroke) => self@.get_any(id) == Some(stroke@),
                None => self@.get_any(id) is None,
            },
    {
        match self.entries.get(id) {
            Some(entry) => match &entry.add {
                Some(a) => Some(&a.stroke),
                None => None,
            },
            None => None,
        }
    }

    pub fn contains(&self, id: StrokeId) -> (r: bool)
        requires
            self.wf(),
        ensures
            r == self@.shows(id),
    {
        self.get(id).is_some()
    }

    /// Number of visible strokes.
    pub fn len(&self) -> (r: usize)
        requires
            self.wf(),
        ensures
            self@.order.dom().finite(),
            r == self@.order.dom().len(),
    {
        self.order.len()
    }

    pub fn is_empty(&self) -> (r: bool)
        requires
            self.wf(),
        ensures
            r == (self@.order == Map::<Timestamp, StrokeId>::empty()),
    {
        let n = self.order.len();
        proof {
            if n == 0 {
                assert(self@.order =~= Map::empty());
            } else {
                assert(self@.order.dom() != Set::<Timestamp>::empty());
            }
        }
        n == 0
    }

    /// A set tracks finitely many elements.
    pub proof fn lemma_finite(&self)
        requires
            self.wf(),
        ensures
            self@.entries.dom().finite(),
    {
        lemma_pairs_map_len(self.entries.pairs());
        assert(self@.entries.dom() =~= self.entries@.dom());
    }

    /// Total elements tracked, including tombstones.
    pub fn tracked_len(&self) -> (r: usize)
        requires
            self.wf(),
        ensures
            self@.entries.dom().finite(),
            r == self@.entries.dom().len(),
    {
        let r = self.entries.len();
        assert(self@.entries.dom() =~= self.entries@.dom());
        r
    }

    /// Visible strokes in draw order, paired with their add timestamp.
    pub fn visible_with_ts(&self) -> (r: Vec<(Timestamp, &Stroke)>)
        requires
            self.wf(),
        ensures
            r@.map_values(|p: (Timestamp, &Stroke)| (p.0, p.1@)) == self@.visible(),
    {
        let ghost index = self.order.pairs();
        proof {
            lemma_sorted_pairs(index);
        }
        let mut out: Vec<(Timestamp, &Stroke)> = Vec::new();
        let mut i: usize = 0;
        let n = self.order.len();
        assert(out@.map_values(|p: (Timestamp, &Stroke)| (p.0, p.1@)) =~= Seq::empty());
        while i < n
            invariant
                self.wf(),
                i <= n == index.len(),
                index == self.order.pairs(),
                out@.map_values(|p: (Timestamp, &Stroke)| (p.0, p.1@)) == self@.visible_in(
                    index.take(i as int),
                ),
            decreases n - i,
        {
            assert(index.take(i + 1).drop_last() =~= index.take(i as int));
            let ts = self.order.key_at(i);
            let id = *self.order.value_at(i);
            let ghost before = out@;
            if let Some(stroke) = self.get(id) {
                out.push((ts, stroke));
                assert(out@.map_values(|p: (Timestamp, &Stroke)| (p.0, p.1@))
                    =~= before.map_values(|p: (Timestamp, &Stroke)| (p.0, p.1@)).push(
                    (ts, stroke@),
                ));
            }
            i += 1;
        }
        assert(index.take(i as int) =~= index);
        out
    }

    /// Visible strokes in draw order (oldest first).
    pub fn visible(&self) -> (r: Vec<&Stroke>)
        requires
            self.wf(),
        ensures
            r@.map_values(|s: &Stroke| s@) == self@.visible().map_values(
                |p: (Timestamp, StrokeView)| p.1,
            ),
    {
        let stamped = self.visible_with_ts();
        let ghost all = stamped@.map_values(|p: (Timestamp, &Stroke)| (p.0, p.1@));
        let mut out: Vec<&Stroke> = Vec::new();
        let mut i: usize = 0;
        while i < stamped.len()
            invariant
                i <= stamped.len(),
                out@.len() == i,
                forall|j: int| 0 <= j < i ==> (#[trigger] out@[j])@ == stamped@[j].1@,
            decreases stamped.len() - i,
        {
            out.push(stamped[i].1);
            i += 1;
        }
        proof {
            let got = out@.map_values(|s: &Stroke| s@);
            let want = self@.visible().map_values(|p: (Timestamp, StrokeView)| p.1);
            assert(got.len() == want.len());
            assert forall|j: int| 0 <= j < got.len() implies got[j] == want[j] by {
                assert(all[j].1 == stamped@[j].1@);
            }
            assert(got =~= want);
        }
        out
    }

    /// The ids of the indexed strokes in draw order.
    pub fn draw_order(&self) -> (r: Vec<StrokeId>)
        requires
            self.wf(),
        ensures
            r@ == sorted_pairs(self@.order).map_values(|p: (Timestamp, StrokeId)| p.1),
    {
        let ghost index = self.order.pairs();
        proof {
            lemma_sorted_pairs(index);
        }
        let mut out: Vec<StrokeId> = Vec::new();
        let mut i: usize = 0;
        let n = self.order.len();
        while i < n
            invariant
                self.wf(),
                i <= n == index.len(),
                index == self.order.pairs(),
                out@ == index.take(i as int).map_values(|p: (Timestamp, StrokeId)| p.1),
            decreases n - i,
        {
            let id = *self.order.value_at(i);
            proof {
                assert(index.take(i + 1).map_values(|p: (Timestamp, StrokeId)| p.1)
                    =~= index.take(i as int).map_values(|p: (Timestamp, StrokeId)| p.1).push(id));
            }
            out.push(id);
            i += 1;
        }
        assert(index.take(i as int) =~= index);
        out
    }

    /// All entries including tombstones, in ascending order of their ids (for
    /// persistence / debugging).
    pub fn entries(&self) -> (r: Vec<(StrokeId, &StrokeEntry)>)
        requires
            self.wf(),
        ensures
            r@.map_values(|p: (StrokeId, &StrokeEntry)| (p.0, p.1@)) == sorted_pairs(self@.entries),
    {
        let mut out: Vec<(StrokeId, &StrokeEntry)> = Vec::new();
        let mut i: usize = 0;
        let n = self.entries.len();
        let ghost pairs = self.entries.pairs();
        while i < n
            invariant
                self.wf(),
                i <= n == pairs.len(),
                pairs == self.entries.pairs(),
                out@.len() == i,
                forall|j: int|
                    0 <= j < i ==> (#[trigger] out@[j]).0 == pairs[j].0 && *out@[j].1 == pairs[j].1,
            decreases n - i,
        {
            out.push((self.entries.key_at(i), self.entries.value_at(i)));
            i += 1;
        }
        proof {
            let got = out@.map_values(|p: (StrokeId, &StrokeEntry)| (p.0, p.1@));
            assert(got =~= entry_views(pairs));
            lemma_entry_views(pairs);
        }
        out
    }

    /// The largest timestamp in the set. A freshly joined peer feeds this into
    /// [`LamportClock::observe`] so its first local op sorts after history.
    pub fn latest_timestamp(&self) -> (r: Option<Timestamp>)
        requires
            self.wf(),
        ensures
            match r {
                Some(ts) => self@.mentions(ts) && forall|t: Timestamp|
                    self@.mentions(t) ==> !t.after(ts),
                None => forall|t: Timestamp| !self@.mentions(t),
            },
    {
        let mut latest: Option<Timestamp> = None;
        let mut i: usize = 0;
        let n = self.entries.len();
        let ghost pairs = self.entries.pairs();
        while i < n
            invariant
                self.wf(),
                i <= n == pairs.len(),
                pairs == self.entries.pairs(),
                latest matches Some(ts) ==> self@.mentions(ts),
                forall|j: int, t: Timestamp|
                    0 <= j < i && (#[trigger] pairs[j].1@.mentions(t)) ==> latest is Some
                        && !t.after(latest->0),
            decreases n - i,
        {
            let id = self.entries.key_at(i);
            let entry = self.entries.value_at(i);
            proof {
                lemma_pairs_map_at(pairs, i as int);
                assert(self@.entries.contains_key(id) && self@.entries[id] == entry@);
            }
            if let Some(t) = entry.add_ts() {
                let newer = match latest {
                    Some(l) => t.is_after(l),
                    None => true,
                };
                if newer {
                    latest = Some(t);
                }
            }
            if let Some(t) = entry.removed {
                let newer = match latest {
                    Some(l) => t.is_after(l),
                    None => true,
                };
                if newer {
                    latest = Some(t);
                }
            }
            i += 1;
        }
        proof {
            assert forall|t: Timestamp| self@.mentions(t) implies latest is Some && !t.after(
                latest->0,
            ) by {
                let id = choose|id: StrokeId| #[trigger]
                    self@.entries.contains_key(id) && self@.entries[id].mentions(t);
                lemma_pairs_map_dom(pairs, id);
                let j = choose|j: int| 0 <= j < pairs.len() && (#[trigger] pairs[j]).0 == id;
                lemma_pairs_map_at(pairs, j);
            }
        }
        latest
    }

    /// Build the op that undoes `op`, stamped with `ts`. Undoing a remove
    /// requires the payload, which is `None` if we only ever saw a tombstone.
    pub fn inverse(&self, op: &StrokeOp, ts: Timestamp) -> (r: Option<StrokeOp>)
        requires
            self.wf(),
        ensures
            match r {
                Some(inv) => self@.inverse(op@, ts) == Some(inv@),
                None => self@.inverse(op@, ts) is None,
            },
    {
        match op {
            StrokeOp::Add { stroke, .. } => Some(StrokeOp::Remove { id: stroke.id, ts }),
            StrokeOp::Remove { id, .. } => match self.get_any(*id) {
                Some(stroke) => Some(StrokeOp::Add { stroke: stroke.clone(), ts }),
                None => None,
            },
        }
    }

    /// Ops that would tombstone every currently visible stroke ("clear").
    pub fn clear_ops(&self, clock: &mut LamportClock) -> (r: Vec<StrokeOp>)
        requires
            self.wf(),
            old(clock).time() + self@.order.dom().len() <= u64::MAX,
        ensures
            op_views(r@) == stamped_removes(
                sorted_pairs(self@.order).map_values(|p: (Timestamp, StrokeId)| p.1),
                old(clock).time() as nat,
                old(clock).owner(),
            ),
            final(clock).owner() == old(clock).owner(),
            final(clock).time() == old(clock).time() + r@.len(),
    {
        let ids = self.draw_order();
        proof {
            lemma_sorted_pairs(self.order.pairs());
            lemma_pairs_map_len(self.order.pairs());
        }
        stamp_removes(&ids, clock)
    }

    /// Ops that would tombstone every visible stroke drawn by `client`.
    pub fn clear_ops_for(&self, client: ClientId, clock: &mut LamportClock) -> (r: Vec<StrokeOp>)
        requires
            self.wf(),
            old(clock).time() + ids_by(self@.visible(), client).len() <= u64::MAX,
        ensures
            op_views(r@) == stamped_removes(
                ids_by(self@.visible(), client),
                old(clock).time() as nat,
                old(clock).owner(),
            ),
            final(clock).owner() == old(clock).owner(),
            final(clock).time() == old(clock).time() + r@.len(),
    {
        let ids = self.ids_for(client);
        stamp_removes(&ids, clock)
    }

    /// The ids of the visible strokes drawn by `client`, in draw order.
    pub(crate) fn ids_for(&self, client: ClientId) -> (r: Vec<StrokeId>)
        requires
            self.wf(),
        ensures
            r@ == ids_by(self@.visible(), client),
    {
        let visible = self.visible_with_ts();
        let ghost all = self@.visible();
        let mut ids: Vec<StrokeId> = Vec::new();
        let mut i: usize = 0;
        while i < visible.len()
            invariant
                i <= visible.len(),
                all == visible@.map_values(|p: (Timestamp, &Stroke)| (p.0, p.1@)),
                ids@ == ids_by(all.take(i as int), client),
            decreases visible.len() - i,
        {
            assert(all.take(i + 1).drop_last() =~= all.take(i as int));
            assert(all[i as int].1 == visible@[i as int].1@);
            if visible[i].1.client_id == client {
                ids.push(visible[i].1.id);
            }
            i += 1;
        }
        assert(all.take(i as int) =~= all);
        ids
    }
}

/// The mathematical values of a list of elements.
pub open spec fn entry_views(pairs: Seq<(StrokeId, StrokeEntry)>) -> Seq<(StrokeId, EntryView)> {
    pairs.map_values(|p: (StrokeId, StrokeEntry)| (p.0, p.1@))
}

/// A sorted list of elements, seen as values, is the sorted list of the map of
/// values.
proof fn lemma_entry_views(pairs: Seq<(StrokeId, StrokeEntry)>)
    requires
        ascending(pairs_keys(pairs)),
    ensures
        ascending(pairs_keys(entry_views(pairs))),
        pairs_map(entry_views(pairs)) == pairs_map(pairs).map_values(|e: StrokeEntry| e@),
        sorted_pairs(pairs_map(pairs).map_values(|e: StrokeEntry| e@)) == entry_views(pairs),
    decreases pairs.len(),
{
    assert(pairs_keys(entry_views(pairs)) =~= pairs_keys(pairs));
    lemma_entry_views_map(pairs);
    lemma_sorted_pairs(entry_views(pairs));
}

proof fn lemma_entry_views_map(pairs: Seq<(StrokeId, StrokeEntry)>)
    ensures
        pairs_map(entry_views(pairs)) == pairs_map(pairs).map_values(|e: StrokeEntry| e@),
    decreases pairs.len(),
{
    if pairs.len() > 0 {
        lemma_entry_views_map(pairs.drop_last());
        assert(entry_views(pairs).drop_last() =~= entry_views(pairs.drop_last()));
    }
    assert(pairs_map(entry_views(pairs)) =~= pairs_map(pairs).map_values(|e: StrokeEntry| e@));
}

/// The ids of the strokes among `strokes` that `client` drew.
pub open spec fn ids_by(strokes: Seq<(Timestamp, StrokeView)>, client: ClientId) -> Seq<StrokeId>
    decreases strokes.len(),
{
    if strokes.len() == 0 {
        Seq::empty()
    } else {
        let front = ids_by(strokes.drop_last(), client);
        if strokes.last().1.client_id == client {
            front.push(strokes.last().1.id)
        } else {
            front
        }
    }
}

/// One remove for each id, stamped by consecutive ticks of a clock that showed
/// `time`.
pub open spec fn stamped_removes(ids: Seq<StrokeId>, time: nat, client: ClientId) -> Seq<OpView> {
    Seq::new(
        ids.len(),
        |i: int|
            OpView::Remove {
                id: ids[i],
                ts: Timestamp { counter: (time + i + 1) as u64, client },
            },
    )
}

fn stamp_removes(ids: &Vec<StrokeId>, clock: &mut LamportClock) -> (r: Vec<StrokeOp>)
    requires
        old(clock).time() + ids@.len() <= u64::MAX,
    ensures
        op_views(r@) == stamped_removes(ids@, old(clock).time() as nat, old(clock).owner()),
        final(clock).owner() == old(clock).owner(),
        final(clock).time() == old(clock).time() + r@.len(),
        r@.len() == ids@.len(),
{
    let mut out: Vec<StrokeOp> = Vec::new();
    let ghost want = stamped_removes(ids@, clock.time() as nat, clock.owner());
    let mut i: usize = 0;
    while i < ids.len()
        invariant
            i <= ids.len(),
            old(clock).time() + ids@.len() <= u64::MAX,
            clock.time() == old(clock).time() + i,
            clock.owner() == old(clock).owner(),
            want == stamped_removes(ids@, old(clock).time() as nat, old(clock).owner()),
            op_views(out@) == want.take(i as int),
            out@.len() == i,
        decreases ids.len() - i,
    {
        let ghost before = out@;
        let op = StrokeOp::Remove { id: ids[i], ts: clock.tick() };
        out.push(op);
        proof {
            lemma_op_views_push(before, op);
            assert(want.take(i + 1) =~= want.take(i as int).push(want[i as int]));
        }
        i += 1;
    }
    assert(want.take(i as int) =~= want);
    out
}

impl SetView {
    /// No more strokes are visible than the index has entries.
    pub proof fn lemma_visible_in_len(self, index: Seq<(Timestamp, StrokeId)>)
        ensures
            self.visible_in(index).len() <= index.len(),
        decreases index.len(),
    {
        if index.len() > 0 {
            self.lemma_visible_in_len(index.drop_last());
        }
    }
}

impl SetView {
    pub proof fn lemma_apply_all_concat(self, a: Seq<OpView>, b: Seq<OpView>)
        ensures
            self.apply_all(a + b) == self.apply_all(a).apply_all(b),
            self.count_changes(a + b) == self.count_changes(a) + self.apply_all(a).count_changes(b),
        decreases b.len(),
    {
        if b.len() == 0 {
            assert(a + b =~= a);
        } else {
            self.lemma_apply_all_concat(a, b.drop_last());
            assert((a + b).drop_last() =~= a + b.drop_last());
        }
    }

    /// Elements are never forgotten.
    pub proof fn lemma_apply_all_keeps(self, ops: Seq<OpView>)
        ensures
            self.entries.dom().subset_of(self.apply_all(ops).entries.dom()),
        decreases ops.len(),
    {
        if ops.len() > 0 {
            self.lemma_apply_all_keeps(ops.drop_last());
        }
    }

    pub proof fn lemma_count_bound(self, ops: Seq<OpView>)
        ensures
            self.count_changes(ops) <= ops.len(),
        decreases ops.len(),
    {
        if ops.len() > 0 {
            self.lemma_count_bound(ops.drop_last());
        }
    }
}

pub proof fn lemma_ops_of_len(pairs: Seq<(StrokeId, EntryView)>)
    ensures
        SetView::ops_of(pairs).len() <= 2 * pairs.len(),
    decreases pairs.len(),
{
    if pairs.len() > 0 {
        lemma_ops_of_len(pairs.drop_last());
    }
}

/// What a merge did.
#[derive(Clone, Copy, Debug)]
pub struct MergeOutcome {
    /// Elements that appeared or disappeared.
    pub toggled: usize,
    /// Operations that changed the visible state on the way.
    pub changes: u128,
}

impl StrokeSet {
    /// The elements with their visibility, as of now.
    fn visibility(&self) -> (r: OrdMap<StrokeId, bool>)
        requires
            self.wf(),
        ensures
            r.wf(),
            forall|id: StrokeId| #[trigger]
                r@.contains_key(id) <==> self@.entries.contains_key(id),
            forall|id: StrokeId| #[trigger] r@.contains_key(id) ==> r@[id] == self@.shows(id),
    {
        let mut seen: OrdMap<StrokeId, bool> = OrdMap::new();
        let ghost pairs = self.entries.pairs();
        let n = self.entries.len();
        let mut i: usize = 0;
        while i < n
            invariant
                self.wf(),
                i <= n == pairs.len(),
                pairs == self.entries.pairs(),
                seen.wf(),
                forall|id: StrokeId| #[trigger]
                    seen@.contains_key(id) <==> exists|j: int|
                        0 <= j < i && (#[trigger] pairs[j]).0 == id,
                forall|id: StrokeId| #[trigger]
                    seen@.contains_key(id) ==> seen@[id] == self@.shows(id),
            decreases n - i,
        {
            let id = self.entries.key_at(i);
            let visible = self.entries.value_at(i).is_visible();
            let ghost before = seen@;
            seen.insert(id, visible);
            proof {
                assert(self@.shows(id) == visible);
                assert forall|q: StrokeId| #[trigger]
                    seen@.contains_key(q) <==> exists|j: int|
                        0 <= j < i + 1 && (#[trigger] pairs[j]).0 == q by {
                    if before.contains_key(q) {
                        let j = choose|j: int| 0 <= j < i && (#[trigger] pairs[j]).0 == q;
                        assert(pairs[j].0 == q);
                    }
                    if q == id {
                        assert(pairs[i as int].0 == q);
                    }
                    if exists|j: int| 0 <= j < i + 1 && (#[trigger] pairs[j]).0 == q {
                        let j = choose|j: int| 0 <= j < i + 1 && (#[trigger] pairs[j]).0 == q;
                        if j < i {
                            assert(before.contains_key(q));
                        }
                    }
                }
            }
            i += 1;
        }
        proof {
            assert forall|id: StrokeId| #[trigger]
                seen@.contains_key(id) <==> self@.entries.contains_key(id) by {
                lemma_pairs_map_dom(pairs, id);
            }
        }
        seen
    }

    /// How many elements stand otherwise than `before` says; elements that
    /// `before` does not know were not visible.
    fn count_toggled(&self, before: &OrdMap<StrokeId, bool>, Ghost(past): Ghost<SetView>) -> (r:
        usize)
        requires
            self.wf(),
            before.wf(),
            past.entries.dom().subset_of(self@.entries.dom()),
            forall|id: StrokeId| #[trigger]
                before@.contains_key(id) <==> past.entries.contains_key(id),
            forall|id: StrokeId| #[trigger]
                before@.contains_key(id) ==> before@[id] == past.shows(id),
        ensures
            past.toggled(self@).finite(),
            r == past.toggled(self@).len(),
    {
        let ghost pairs = self.entries.pairs();
        let ghost keys = pairs_keys(pairs);
        let n = self.entries.len();
        let ghost mut found: Set<StrokeId> = Set::empty();
        let mut count: usize = 0;
        let mut i: usize = 0;
        while i < n
            invariant
                self.wf(),
                before.wf(),
                past.entries.dom().subset_of(self@.entries.dom()),
                forall|id: StrokeId| #[trigger]
                    before@.contains_key(id) <==> past.entries.contains_key(id),
                forall|id: StrokeId| #[trigger]
                    before@.contains_key(id) ==> before@[id] == past.shows(id),
                i <= n == pairs.len(),
                pairs == self.entries.pairs(),
                keys == pairs_keys(pairs),
                found.finite(),
                count == found.len(),
                count <= i,
                forall|id: StrokeId| #[trigger]
                    found.contains(id) <==> past.toggled(self@).contains(id) && exists|j: int|
                        0 <= j < i && keys[j] == id,
            decreases n - i,
        {
            let id = self.entries.key_at(i);
            let now = self.entries.value_at(i).is_visible();
            let was = match before.get(id) {
                Some(v) => *v,
                None => false,
            };
            let ghost earlier = found;
            assert(keys[i as int] == id);
            assert(self@.entries.contains_key(id));
            assert(was == past.shows(id));
            assert(now == self@.shows(id));
            assert(!earlier.contains(id)) by {
                assert forall|j: int| 0 <= j < i implies keys[j] != id by {
                    assert(keys[j].rank() < keys[i as int].rank());
                }
            }
            if was != now {
                count += 1;
                proof {
                    found = found.insert(id);
                }
            }
            proof {
                assert forall|q: StrokeId| #[trigger]
                    found.contains(q) <==> past.toggled(self@).contains(q) && exists|j: int|
                        0 <= j < i + 1 && keys[j] == q by {
                    if past.toggled(self@).contains(q) && exists|j: int|
                        0 <= j < i + 1 && keys[j] == q {
                        let j = choose|j: int| 0 <= j < i + 1 && keys[j] == q;
                        if j < i {
                            assert(earlier.contains(q));
                        }
                    }
                    if earlier.contains(q) {
                        let j = choose|j: int| 0 <= j < i && keys[j] == q;
                        assert(0 <= j < i + 1 && keys[j] == q);
                    }
                }
            }
            i += 1;
        }
        proof {
            assert forall|id: StrokeId| past.toggled(self@).contains(id) implies found.contains(
                id,
            ) by {
                assert(self@.entries.contains_key(id));
                lemma_pairs_map_dom(pairs, id);
                let j = choose|j: int| 0 <= j < pairs.len() && (#[trigger] pairs[j]).0 == id;
                assert(keys[j] == id);
            }
            assert(found =~= past.toggled(self@));
        }
        count
    }

    /// Merge another replica into this one (state-based sync), reporting both
    /// how many elements changed visibility and how many of the operations that
    /// recreate the other replica changed the visible state.
    pub fn absorb(&mut self, other: StrokeSet) -> (r: MergeOutcome)
        requires
            old(self).wf(),
            other.wf(),
        ensures
            final(self).wf(),
            final(self)@ == old(self)@.merge(other@),
            old(self)@.toggled(final(self)@).finite(),
            r.toggled == old(self)@.toggled(final(self)@).len(),
            r.changes == old(self)@.count_changes(other@.ops()),
            r.changes <= 2 * other@.entries.dom().len(),
    {
        let ghost start = self@;
        let before = self.visibility();
        let ghost sorted = entry_views(other.entries.pairs());
        proof {
            lemma_entry_views(other.entries.pairs());
            lemma_ops_of_len(sorted);
            start.lemma_count_bound(other@.ops());
        }
        let count = other.entries.len();
        let pairs = other.entries.into_pairs();
        assert(other@.entries.dom() =~= other.entries@.dom());
        let mut changes: u128 = 0;
        for pair in it: pairs
            invariant
                it.seq() == pairs@,
                sorted == entry_views(pairs@),
                self.wf(),
                self@ == start.apply_all(SetView::ops_of(sorted.take(it.index() as int))),
                changes == start.count_changes(SetView::ops_of(sorted.take(it.index() as int))),
                changes <= 2 * it.index(),
                it.index() <= pairs@.len() == count,
                count <= usize::MAX,
        {
            let ghost n = it.index() as int;
            let (id, entry) = pair;
            let ghost prefix = sorted.take(n);
            proof {
                assert(sorted.take(n + 1).drop_last() =~= prefix);
                assert(sorted.take(n + 1).last() == (id, entry@));
                start.lemma_apply_all_concat(SetView::ops_of(prefix), entry@.ops(id));
            }
            let ghost mid = self@;
            let ghost entry_view = entry@;
            let c = self.replay(id, entry);
            assert(c == mid.count_changes(entry_view.ops(id)));
            changes += c as u128;
        }
        assert(sorted.take(pairs@.len() as int) =~= sorted);
        proof {
            start.lemma_apply_all_keeps(other@.ops());
        }
        let toggled = self.count_toggled(&before, Ghost(start));
        MergeOutcome { toggled, changes }
    }

    /// Apply the operations that recreate one element; returns how many changed
    /// the visible state.
    fn replay(&mut self, id: StrokeId, entry: StrokeEntry) -> (r: usize)
        requires
            old(self).wf(),
        ensures
            final(self).wf(),
            final(self)@ == old(self)@.apply_all(entry@.ops(id)),
            r == old(self)@.count_changes(entry@.ops(id)),
            r <= 2,
    {
        let ghost start = self@;
        let ghost all = entry@.ops(id);
        let removed = entry.removed;
        let mut changed: usize = 0;
        reveal_with_fuel(SetView::apply_all, 3);
        reveal_with_fuel(SetView::count_changes, 3);
        if let Some(a) = entry.add {
            let ghost add = OpView::Add { stroke: a.stroke@, ts: a.ts };
            assert(all.take(1) =~= seq![add]);
            assert(seq![add].drop_last() =~= Seq::empty());
            if self.apply(StrokeOp::Add { stroke: a.stroke, ts: a.ts }) {
                changed += 1;
            }
            assert(self@ == start.apply_all(all.take(1)));
            assert(changed == start.count_changes(all.take(1)));
            if removed.is_none() {
                assert(all =~= all.take(1));
            } else {
                assert(all.drop_last() =~= all.take(1));
            }
        } else {
            if removed.is_none() {
                assert(all =~= Seq::empty());
            } else {
                assert(all.drop_last() =~= Seq::empty());
            }
        }
        if let Some(ts) = removed {
            assert(all.last() == (OpView::Remove { id, ts }));
            if self.apply(StrokeOp::Remove { id, ts }) {
                changed += 1;
            }
        }
        changed
    }

    /// Merge another replica into this one (state-based sync). Commutative,
    /// associative and idempotent. Returns how many elements changed visibility.
    pub fn merge(&mut self, other: StrokeSet) -> (r: usize)
        requires
            old(self).wf(),
            other.wf(),
        ensures
            final(self).wf(),
            final(self)@ == old(self)@.merge(other@),
            old(self)@.toggled(final(self)@).finite(),
            r == old(self)@.toggled(final(self)@).len(),
    {
        self.absorb(other).toggled
    }

    /// The set that a list of elements describes. Repeated ids are folded in by
    /// the same newest-wins rules as operations; the draw-order index is
    /// rebuilt.
    pub fn from_entries(entries: Vec<(StrokeId, StrokeEntry)>) -> (r: StrokeSet)
        ensures
            r.wf(),
            r@ == SetView::load(entry_views(entries@)),
    {
        let ghost all = entry_views(entries@);
        let mut set = StrokeSet::new();
        for pair in it: entries
            invariant
                it.seq() == entries@,
                all == entry_views(entries@),
                set.wf(),
                set@ == SetView::load(all.take(it.index() as int)),
                it.index() <= entries@.len(),
        {
            let ghost n = it.index() as int;
            let ghost before = set@;
            let (id, entry) = pair;
            proof {
                assert(all.take(n + 1).drop_last() =~= all.take(n));
                assert(all.take(n + 1).last() == (id, entry@));
            }
            if set.entries.contains_key(id) {
                assert(before.entries.contains_key(id));
                set.replay(id, entry);
            } else {
                assert(!before.entries.contains_key(id));
                let ghost entry_view = entry@;
                if entry.is_visible() {
                    if let Some(ts) = entry.add_ts() {
                        set.order.insert(ts, id);
                    }
                }
                set.entries.insert(id, entry);
                assert(set@.entries =~= before.entries.insert(id, entry_view));
            }
        }
        assert(all.take(entries@.len() as int) =~= all);
        set
    }

    /// The elements in ascending order of their ids.
    pub fn into_entries(self) -> (r: Vec<(StrokeId, StrokeEntry)>)
        requires
            self.wf(),
        ensures
            entry_views(r@) == sorted_pairs(self@.entries),
    {
        proof {
            lemma_entry_views(self.entries.pairs());
        }
        self.entries.into_pairs()
    }
}

impl Clone for StrokeSet {
    fn clone(&self) -> (r: StrokeSet)
        ensures
            self.wf() ==> r.wf() && r@ == self@,
    {
        let r = StrokeSet { entries: self.entries.clone(), order: self.order.clone() };
        proof {
            if self.wf() {
                assert(entry_views(r.entries.pairs()) =~= entry_views(self.entries.pairs())) by {
                    assert forall|i: int| 0 <= i < self.entries.pairs().len() implies entry_views(
                        r.entries.pairs(),
                    )[i] == entry_views(self.entries.pairs())[i] by {
                        assert(pairs_keys(r.entries.pairs())[i] == pairs_keys(
                            self.entries.pairs(),
                        )[i]);
                        assert(cloned::<StrokeEntry>(
                            self.entries.pairs()[i].1,
                            r.entries.pairs()[i].1,
                        ));
                    }
                }
                lemma_entry_views(r.entries.pairs());
                lemma_entry_views(self.entries.pairs());
                assert(r.order.pairs() =~= self.order.pairs()) by {
                    assert forall|i: int| 0 <= i < self.order.pairs().len() implies r.order.pairs()[i]
                        == self.order.pairs()[i] by {
                        assert(pairs_keys(r.order.pairs())[i] == pairs_keys(
                            self.order.pairs(),
                        )[i]);
                        assert(cloned::<StrokeId>(
                            self.order.pairs()[i].1,
                            r.order.pairs()[i].1,
                        ));
                    }
                }
            }
        }
        r
    }
}

impl EntryView {
    /// The same state, with the payload's numbers compared as numbers.
    pub open spec fn same_as(self, other: EntryView) -> bool {
        &&& self.removed == other.removed
        &&& match (self.add, other.add) {
            (Some(a), Some(b)) => a.ts == b.ts && a.stroke.same_as(b.stroke),
            (None, None) => true,
            _ => false,
        }
    }
}

impl SetView {
    /// The same replication state (the index is derived).
    pub open spec fn same_as(self, other: SetView) -> bool {
        &&& self.entries.dom() == other.entries.dom()
        &&& forall|id: StrokeId| #[trigger]
            self.entries.contains_key(id) ==> self.entries[id].same_as(other.entries[id])
    }
}

impl StrokeEntry {
    fn matches(&self, other: &StrokeEntry) -> (r: bool)
        ensures
            r == self@.same_as(other@),
    {
        let removed = match (self.removed, other.removed) {
            (Some(a), Some(b)) => a == b,
            (None, None) => true,
            _ => false,
        };
        removed && match (&self.add, &other.add) {
            (Some(a), Some(b)) => a.ts == b.ts && a.stroke.matches(&b.stroke),
            (None, None) => true,
            _ => false,
        }
    }
}

/// Two lists of elements agree place by place.
pub open spec fn same_pairs(
    a: Seq<(StrokeId, EntryView)>,
    b: Seq<(StrokeId, EntryView)>,
) -> bool {
    &&& a.len() == b.len()
    &&& forall|i: int|
        0 <= i < a.len() ==> (#[trigger] a[i]).0 == b[i].0 && a[i].1.same_as(b[i].1)
}

/// Sorted lists agree place by place exactly when their maps agree.
proof fn lemma_same_pairs(a: Seq<(StrokeId, EntryView)>, b: Seq<(StrokeId, EntryView)>)
    requires
        ascending(pairs_keys(a)),
        ascending(pairs_keys(b)),
    ensures
        same_pairs(a, b) <==> {
            &&& pairs_map(a).dom() == pairs_map(b).dom()
            &&& forall|id: StrokeId| #[trigger]
                pairs_map(a).contains_key(id) ==> pairs_map(a)[id].same_as(pairs_map(b)[id])
        },
{
    let ma = pairs_map(a);
    let mb = pairs_map(b);
    if same_pairs(a, b) {
        assert forall|id: StrokeId| #[trigger] ma.contains_key(id) implies mb.contains_key(id)
            && ma[id].same_as(mb[id]) by {
            lemma_pairs_map_dom(a, id);
            let i = choose|i: int| 0 <= i < a.len() && (#[trigger] a[i]).0 == id;
            lemma_pairs_map_at(a, i);
            lemma_pairs_map_at(b, i);
        }
        assert forall|id: StrokeId| #[trigger] mb.contains_key(id) implies ma.contains_key(id) by {
            lemma_pairs_map_dom(b, id);
            let i = choose|i: int| 0 <= i < b.len() && (#[trigger] b[i]).0 == id;
            assert(a[i].0 == id);
            lemma_pairs_map_at(a, i);
        }
        assert(ma.dom() =~= mb.dom());
    }
    if ma.dom() == mb.dom() && forall|id: StrokeId| #[trigger]
        ma.contains_key(id) ==> ma[id].same_as(mb[id]) {
        let da = a.map_values(|p: (StrokeId, EntryView)| (p.0, ()));
        let db = b.map_values(|p: (StrokeId, EntryView)| (p.0, ()));
        assert(pairs_keys(da) =~= pairs_keys(a));
        assert(pairs_keys(db) =~= pairs_keys(b));
        assert(pairs_map(da).dom() =~= pairs_map(db).dom()) by {
            assert forall|id: StrokeId| #[trigger]
                pairs_map(da).dom().contains(id) == ma.dom().contains(id) by {
                lemma_pairs_map_dom(a, id);
                lemma_pairs_map_dom(da, id);
                if ma.contains_key(id) {
                    let i = choose|i: int| 0 <= i < a.len() && (#[trigger] a[i]).0 == id;
                    assert(da[i].0 == id);
                }
                if pairs_map(da).contains_key(id) {
                    let i = choose|i: int| 0 <= i < da.len() && (#[trigger] da[i]).0 == id;
                    assert(a[i].0 == id);
                }
            }
            assert forall|id: StrokeId| #[trigger]
                pairs_map(db).dom().contains(id) == mb.dom().contains(id) by {
                lemma_pairs_map_dom(b, id);
                lemma_pairs_map_dom(db, id);
                if mb.contains_key(id) {
                    let i = choose|i: int| 0 <= i < b.len() && (#[trigger] b[i]).0 == id;
                    assert(db[i].0 == id);
                }
                if pairs_map(db).contains_key(id) {
                    let i = choose|i: int| 0 <= i < db.len() && (#[trigger] db[i]).0 == id;
                    assert(b[i].0 == id);
                }
            }
        }
        assert(pairs_map(da) =~= pairs_map(db));
        crate::ordmap::lemma_pairs_map_unique(da, db);
        assert(a.len() == da.len() && b.len() == db.len());
        assert forall|i: int| 0 <= i < a.len() implies (#[trigger] a[i]).0 == b[i].0
            && a[i].1.same_as(b[i].1) by {
            assert(da[i] == db[i]);
            lemma_pairs_map_at(a, i);
            lemma_pairs_map_at(b, i);
        }
    }
}

impl StrokeSet {
    /// The elements agree place by place in the sorted lists.
    pub closed spec fn same_elements(&self, other: &StrokeSet) -> bool {
        same_pairs(entry_views(self.entries.pairs()), entry_views(other.entries.pairs()))
    }

    /// Comparing the sorted lists compares the sets.
    pub proof fn lemma_same_elements(&self, other: &StrokeSet)
        requires
            self.wf(),
            other.wf(),
        ensures
            self.same_elements(other) == self@.same_as(other@),
    {
        let a = entry_views(self.entries.pairs());
        let b = entry_views(other.entries.pairs());
        lemma_entry_views(self.entries.pairs());
        lemma_entry_views(other.entries.pairs());
        lemma_same_pairs(a, b);
    }

    /// Equal when replication state is identical (the index is derived).
    pub fn matches(&self, other: &StrokeSet) -> (r: bool)
        requires
            self.wf(),
            other.wf(),
        ensures
            r == self@.same_as(other@),
    {
        proof {
            self.lemma_same_elements(other);
        }
        *self == *other
    }
}

impl PartialEq for StrokeSet {
    fn eq(&self, other: &StrokeSet) -> (r: bool) {
        let a = self.entries.as_pairs();
        let b = other.entries.as_pairs();
        let ghost va = entry_views(a@);
        let ghost vb = entry_views(b@);
        if a.len() != b.len() {
            return false;
        }
        let mut i: usize = 0;
        while i < a.len()
            invariant
                i <= a.len() == b.len(),
                a@ == self.entries.pairs(),
                b@ == other.entries.pairs(),
                va == entry_views(a@),
                vb == entry_views(b@),
                forall|j: int|
                    0 <= j < i ==> (#[trigger] va[j]).0 == vb[j].0 && va[j].1.same_as(vb[j].1),
            decreases a.len() - i,
        {
            if a[i].0 != b[i].0 || !a[i].1.matches(&b[i].1) {
                assert(!(va[i as int].0 == vb[i as int].0 && va[i as int].1.same_as(
                    vb[i as int].1,
                )));
                return false;
            }
            i += 1;
        }
        true
    }
}

impl vstd::std_specs::cmp::PartialEqSpecImpl for StrokeSet {
    open spec fn obeys_eq_spec() -> bool {
        true
    }

    open spec fn eq_spec(&self, other: &StrokeSet) -> bool {
        self.same_elements(other)
    }
}

impl Default for StrokeSet {
    fn default() -> (r: StrokeSet)
        ensures
            r.wf(),
            r@ == SetView::empty(),
    {
        StrokeSet::new()
    }
}

impl From<Vec<(StrokeId, StrokeEntry)>> for StrokeSet {
    fn from(entries: Vec<(StrokeId, StrokeEntry)>) -> (r: StrokeSet)
        ensures
            r.wf(),
            r@ == SetView::load(entry_views(entries@)),
    {
        StrokeSet::from_entries(entries)
    }
}

impl vstd::std_specs::convert::FromSpecImpl<Vec<(StrokeId, StrokeEntry)>> for StrokeSet {
    open spec fn obeys_from_spec() -> bool {
        false
    }

    open spec fn from_spec(entries: Vec<(StrokeId, StrokeEntry)>) -> StrokeSet {
        arbitrary()
    }
}

} // verus!
