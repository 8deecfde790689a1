//! What the panels around the canvas show.

use vstd::prelude::*;

use crate::text::{before, decimal, to_decimal};
use crate::types::{CursorState, CursorView, Rgba};

verus! {

/// One line of the list of peers.
#[derive(Debug)]
pub struct PeerRow {
    pub color: Rgba,
    pub name: String,
    pub drawing: bool,
    pub me: bool,
}

/// Mathematical counterpart of [`PeerRow`].
pub struct RowView {
    pub color: Rgba,
    pub name: Seq<char>,
    pub drawing: bool,
    pub me: bool,
}

impl View for PeerRow {
    type V = RowView;

    open spec fn view(&self) -> RowView {
        RowView { color: self.color, name: self.name@, drawing: self.drawing, me: self.me }
    }
}

/// The line for another peer.
pub open spec fn row_of(c: CursorView) -> RowView {
    RowView { color: c.color, name: c.name, drawing: c.drawing, me: false }
}

/// A cursor put in its place among cursors in order of their names: behind those
/// of the same name.
pub open spec fn placed(sorted: Seq<CursorView>, c: CursorView) -> Seq<CursorView>
    decreases sorted.len(),
{
    if sorted.len() == 0 || !before(c.name, sorted.last().name) {
        sorted.push(c)
    } else {
        placed(sorted.drop_last(), c).push(sorted.last())
    }
}

/// Cursors in order of their names; those of the same name keep their order.
pub open spec fn by_name(cursors: Seq<CursorView>) -> Seq<CursorView>
    decreases cursors.len(),
{
    if cursors.len() == 0 {
        Seq::empty()
    } else {
        placed(by_name(cursors.drop_last()), cursors.last())
    }
}

pub proof fn lemma_placed(sorted: Seq<CursorView>, c: CursorView, at: int)
    requires
        0 <= at <= sorted.len(),
        at > 0 ==> !before(c.name, sorted[at - 1].name),
        forall|i: int| at <= i < sorted.len() ==> before(c.name, (#[trigger] sorted[i]).name),
    ensures
        placed(sorted, c) == sorted.insert(at, c),
    decreases sorted.len(),
{
    if at < sorted.len() {
        let front = sorted.drop_last();
        assert forall|i: int| at <= i < front.len() implies before(
            c.name,
            (#[trigger] front[i]).name,
        ) by {
            assert(front[i] == sorted[i]);
        }
        assert(sorted[sorted.len() - 1] == sorted.last());
        lemma_placed(front, c, at);
        assert(front.insert(at, c).push(sorted.last()) =~= sorted.insert(at, c));
    } else {
        if sorted.len() > 0 {
            assert(sorted[at - 1] == sorted.last());
        }
        assert(sorted.push(c) =~= sorted.insert(at, c));
    }
}

/// The line at the foot of the window.
#[derive(Debug)]
pub struct Status {
    pub dot: Rgba,
    pub text: String,
    pub room: String,
    pub strokes: String,
    pub rtt: Option<String>,
}

/// What is said of the renderer.
pub open spec fn gpu_words(chunks: nat, meshes: nat, built: nat) -> Seq<char> {
    "GPU: "@ + decimal(chunks) + " chunks, "@ + decimal(meshes) + " cached meshes, "@ + decimal(
        built,
    ) + " tessellated this frame"@
}

/// What is said of the renderer.
pub fn gpu_detail(chunks: usize, meshes: usize, built: usize) -> (r: String)
    ensures
        r@ == gpu_words(chunks as nat, meshes as nat, built as nat),
{
    let mut out = "GPU: ".to_owned();
    out.append(to_decimal(chunks as u128).as_str());
    out.append(" chunks, ");
    out.append(to_decimal(meshes as u128).as_str());
    out.append(" cached meshes, ");
    out.append(to_decimal(built as u128).as_str());
    out.append(" tessellated this frame");
    out
}

/// What is written next to a peer's cursor.
pub fn cursor_label(cursor: &CursorState) -> (r: String)
    ensures
        r@ == (if cursor@.drawing {
            cursor@.name + " ✏"@
        } else {
            cursor@.name
        }),
{
    let mut out = cursor.name.clone();
    if cursor.drawing {
        out.append(" ✏");
    }
    out
}

/// The title of the window.
pub fn window_title(room: &str) -> (r: String)
    ensures
        r@ == "Weavedraw — "@ + room@,
{
    let mut out = "Weavedraw — ".to_owned();
    out.append(room);
    out
}

} // verus!
