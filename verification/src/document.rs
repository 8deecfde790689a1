//! The document with its generation counter, and the undo history.

use vstd::prelude::*;

use crate::crdt::{op_views, OpView, SetView, StrokeOp, StrokeSet};

verus! {

/// A counter `n` steps later. It wraps around, which nobody lives to see.
pub open spec fn advanced(generation: u64, n: nat) -> u64 {
    ((generation + n) % 0x1_0000_0000_0000_0000) as u64
}

fn advance(generation: u64, n: u128) -> (r: u64)
    requires
        n <= 0x2_0000_0000_0000_0000,
    ensures
        r == advanced(generation, n as nat),
{
    ((generation as u128 + n) % 0x1_0000_0000_0000_0000) as u64
}

/// The replicated stroke set plus a counter that advances on every visible
/// change, so renderers can tell at a glance whether anything moved.
#[derive(Debug)]
pub struct Document {
    set: StrokeSet,
    generation: u64,
}

/// Mathematical counterpart of [`Document`].
#[verifier::ext_equal]
pub struct DocView {
    pub set: SetView,
    pub generation: u64,
}

impl DocView {
    pub open spec fn empty() -> DocView {
        DocView { set: SetView::empty(), generation: 0 }
    }

    pub open spec fn applied(self, op: OpView) -> DocView {
        DocView {
            set: self.set.apply(op),
            generation: if self.set.changes(op) {
                advanced(self.generation, 1)
            } else {
                self.generation
            },
        }
    }

    pub open spec fn applied_all(self, ops: Seq<OpView>) -> DocView {
        DocView {
            set: self.set.apply_all(ops),
            generation: advanced(self.generation, self.set.count_changes(ops)),
        }
    }

    pub open spec fn merged(self, other: SetView) -> DocView {
        self.applied_all(other.ops())
    }
}

impl View for Document {
    type V = DocView;

    closed spec fn view(&self) -> DocView {
        DocView { set: self.set@, generation: self.generation }
    }
}

impl Document {
    pub closed spec fn wf(self) -> bool {
        self.set.wf()
    }

    pub fn new() -> (r: Document)
        ensures
            r.wf(),
            r@ == DocView::empty(),
    {
        Document { set: StrokeSet::new(), generation: 0 }
    }

    /// The strokes themselves.
    pub fn strokes(&self) -> (r: &StrokeSet)
        requires
            self.wf(),
        ensures
            r.wf(),
            r@ == self@.set,
    {
        &self.set
    }

    pub fn generation(&self) -> (r: u64)
        ensures
            r == self@.generation,
    {
        self.generation
    }

    pub fn apply(&mut self, op: StrokeOp) -> (r: bool)
        requires
            old(self).wf(),
        ensures
            final(self).wf(),
            final(self)@ == old(self)@.applied(op@),
            r == old(self)@.set.changes(op@),
    {
        let changed = self.set.apply(op);
        if changed {
            self.generation = advance(self.generation, 1);
        }
        changed
    }

    pub fn apply_all(&mut self, ops: Vec<StrokeOp>) -> (r: usize)
        requires
            old(self).wf(),
        ensures
            final(self).wf(),
            final(self)@ == old(self)@.applied_all(op_views(ops@)),
            r == old(self)@.set.count_changes(op_views(ops@)),
    {
        let changed = self.set.apply_all(ops);
        self.generation = advance(self.generation, changed as u128);
        changed
    }

    /// Merge another replica. Returns how many strokes appeared or disappeared.
    pub fn merge(&mut self, other: StrokeSet) -> (r: usize)
        requires
            old(self).wf(),
            other.wf(),
        ensures
            final(self).wf(),
            final(self)@ == old(self)@.merged(other@),
            final(self)@.set == old(self)@.set.merge(other@),
            r == old(self)@.set.toggled(final(self)@.set).len(),
    {
        let known: usize = other.tracked_len();
        let outcome = self.set.absorb(other);
        assert(outcome.changes <= 2 * known);
        self.generation = advance(self.generation, outcome.changes);
        outcome.toggled
    }
}

/// The counter moves whenever an operation changes what is visible, and only
/// then.
pub proof fn law_generation_tells_of_changes(doc: DocView, op: OpView)
    ensures
        (doc.applied(op).generation != doc.generation) == doc.set.changes(op),
{
}

/// The counter moves whenever operations change what is visible, unless there
/// are exactly as many changes as it takes to wrap it around.
pub proof fn law_generation_tells_of_batches(doc: DocView, ops: Seq<OpView>)
    requires
        doc.set.count_changes(ops) < 0x1_0000_0000_0000_0000,
    ensures
        (doc.applied_all(ops).generation != doc.generation) == (doc.set.count_changes(ops) > 0),
{
}

/// How many gestures can be undone or redone.
pub const MAX_HISTORY: usize = 200;

/// Gestures (a stroke, an eraser drag) that can be undone or redone, newest
/// last. Each is the operations it applied.
#[derive(Debug)]
pub struct History {
    undo: Vec<Vec<StrokeOp>>,
    redo: Vec<Vec<StrokeOp>>,
}

/// Mathematical counterpart of [`History`].
#[verifier::ext_equal]
pub struct HistoryView {
    pub undo: Seq<Seq<OpView>>,
    pub redo: Seq<Seq<OpView>>,
}

/// The mathematical values of groups of operations.
pub open spec fn group_views(groups: Seq<Vec<StrokeOp>>) -> Seq<Seq<OpView>> {
    groups.map_values(|g: Vec<StrokeOp>| op_views(g@))
}

impl HistoryView {
    pub open spec fn empty() -> HistoryView {
        HistoryView { undo: Seq::empty(), redo: Seq::empty() }
    }

    /// A new gesture: it can be undone, the oldest one is forgotten where there
    /// are too many, and there is nothing left to redo.
    pub open spec fn recorded(self, group: Seq<OpView>) -> HistoryView {
        let all = self.undo.push(group);
        HistoryView {
            undo: if all.len() > MAX_HISTORY {
                all.remove(0)
            } else {
                all
            },
            redo: Seq::empty(),
        }
    }

    /// The newest gesture moves over to what can be redone, as its inverse.
    pub open spec fn undone(self, inverse: Seq<OpView>) -> HistoryView {
        HistoryView { undo: self.undo.drop_last(), redo: self.redo.push(inverse) }
    }

    pub open spec fn redone(self, inverse: Seq<OpView>) -> HistoryView {
        HistoryView { undo: self.undo.push(inverse), redo: self.redo.drop_last() }
    }

    /// No more gestures than may be.
    pub open spec fn bounded(self) -> bool {
        self.undo.len() + self.redo.len() <= MAX_HISTORY
    }
}

impl View for History {
    type V = HistoryView;

    closed spec fn view(&self) -> HistoryView {
        HistoryView { undo: group_views(self.undo@), redo: group_views(self.redo@) }
    }
}

impl History {
    pub fn new() -> (r: History)
        ensures
            r@ == HistoryView::empty(),
    {
        let r = History { undo: Vec::new(), redo: Vec::new() };
        assert(r@ =~= HistoryView::empty());
        r
    }

    pub fn can_undo(&self) -> (r: bool)
        ensures
            r == (self@.undo.len() > 0),
    {
        self.undo.len() > 0
    }

    pub fn can_redo(&self) -> (r: bool)
        ensures
            r == (self@.redo.len() > 0),
    {
        self.redo.len() > 0
    }

    pub fn record(&mut self, group: Vec<StrokeOp>)
        ensures
            final(self)@ == old(self)@.recorded(op_views(group@)),
    {
        let ghost before = self@;
        let ghost view = op_views(group@);
        self.undo.push(group);
        assert(group_views(self.undo@) =~= before.undo.push(view));
        if self.undo.len() > MAX_HISTORY {
            let _oldest = self.undo.remove(0);
            assert(group_views(self.undo@) =~= before.undo.push(view).remove(0));
        }
        self.redo.clear();
        assert(group_views(self.redo@) =~= Seq::empty());
    }

    pub fn pop_undo(&mut self) -> (r: Option<Vec<StrokeOp>>)
        ensures
            match r {
                Some(group) => old(self)@.undo.len() > 0 && op_views(group@)
                    == old(self)@.undo.last() && final(self)@ == (HistoryView {
                    undo: old(self)@.undo.drop_last(),
                    ..old(self)@
                }),
                None => old(self)@.undo.len() == 0 && final(self)@ == old(self)@,
            },
    {
        let ghost before = self@;
        let r = self.undo.pop();
        proof {
            if r is Some {
                assert(self@.undo =~= before.undo.drop_last());
            }
        }
        r
    }

    pub fn pop_redo(&mut self) -> (r: Option<Vec<StrokeOp>>)
        ensures
            match r {
                Some(group) => old(self)@.redo.len() > 0 && op_views(group@)
                    == old(self)@.redo.last() && final(self)@ == (HistoryView {
                    redo: old(self)@.redo.drop_last(),
                    ..old(self)@
                }),
                None => old(self)@.redo.len() == 0 && final(self)@ == old(self)@,
            },
    {
        let ghost before = self@;
        let r = self.redo.pop();
        proof {
            if r is Some {
                assert(self@.redo =~= before.redo.drop_last());
            }
        }
        r
    }

    pub fn push_undo(&mut self, group: Vec<StrokeOp>)
        ensures
            final(self)@ == (HistoryView {
                undo: old(self)@.undo.push(op_views(group@)),
                ..old(self)@
            }),
    {
        let ghost before = self@;
        let ghost view = op_views(group@);
        self.undo.push(group);
        assert(self@.undo =~= before.undo.push(view));
    }

    pub fn push_redo(&mut self, group: Vec<StrokeOp>)
        ensures
            final(self)@ == (HistoryView {
                redo: old(self)@.redo.push(op_views(group@)),
                ..old(self)@
            }),
    {
        let ghost before = self@;
        let ghost view = op_views(group@);
        self.redo.push(group);
        assert(self@.redo =~= before.redo.push(view));
    }

    /// How many operations the next undo takes back.
    pub fn undo_len(&self) -> (r: usize)
        ensures
            r == (if self@.undo.len() > 0 {
                self@.undo.last().len()
            } else {
                0
            }),
    {
        let n = self.undo.len();
        if n > 0 {
            assert(self@.undo.last() == op_views(self.undo@[n - 1]@));
            self.undo[n - 1].len()
        } else {
            0
        }
    }

    /// How many operations the next redo brings back.
    pub fn redo_len(&self) -> (r: usize)
        ensures
            r == (if self@.redo.len() > 0 {
                self@.redo.last().len()
            } else {
                0
            }),
    {
        let n = self.redo.len();
        if n > 0 {
            assert(self@.redo.last() == op_views(self.redo@[n - 1]@));
            self.redo[n - 1].len()
        } else {
            0
        }
    }
}

/// However gestures are recorded, undone and redone, no more than the limit are
/// remembered.
pub proof fn law_history_is_bounded(h: HistoryView, group: Seq<OpView>)
    requires
        h.bounded(),
    ensures
        HistoryView::empty().bounded(),
        h.recorded(group).bounded(),
        h.undo.len() > 0 ==> h.undone(group).bounded(),
        h.redo.len() > 0 ==> h.redone(group).bounded(),
{
}

} // verus!
