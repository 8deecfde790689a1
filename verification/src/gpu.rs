//! How committed strokes are grouped for the GPU.
//!
//! Committed strokes are grouped, in draw order, into chunks of
//! [`CHUNK_SIZE`]. Each chunk is identified by a hash of the stroke ids it
//! contains, so a frame in which nothing changed uploads nothing. Adding a
//! stroke touches only the last chunk; erasing one re-uploads the chunks after
//! it (their membership shifts).

use std::hash::{DefaultHasher, Hasher};

use vstd::prelude::*;
use vstd::std_specs::hash::DefaultHasherAdditionalSpecFns;

use crate::crdt::{StrokeSet, Timestamp};
use crate::ids::{be_bytes, id_bytes};
use crate::types::{
    greatest_corner, larger, least_corner, smaller, Point, StrokeId, StrokeKind, StrokeView,
};

verus! {

pub const CHUNK_SIZE: usize = 64;

/// The key of a chunk: the hash of its stroke ids, in order.
pub open spec fn key_of(ids: Seq<StrokeId>) -> u64 {
    DefaultHasher::spec_finish(ids.map_values(|id: StrokeId| be_bytes(id as nat, 16)))
}

/// The key of a chunk.
pub fn chunk_key(ids: &[StrokeId]) -> (r: u64)
    ensures
        r == key_of(ids@),
{
    let mut h = DefaultHasher::new();
    let ghost words = ids@.map_values(|id: StrokeId| be_bytes(id as nat, 16));
    let mut i: usize = 0;
    assert(h@ =~= words.take(0));
    while i < ids.len()
        invariant
            i <= ids@.len(),
            words == ids@.map_values(|id: StrokeId| be_bytes(id as nat, 16)),
            h@ == words.take(i as int),
        decreases ids.len() - i,
    {
        h.write(id_bytes(ids[i]).as_slice());
        assert(h@ =~= words.take(i + 1));
        i += 1;
    }
    assert(words.take(i as int) =~= words);
    h.finish()
}

/// How many chunks it takes to hold `n` strokes.
pub open spec fn chunk_count(n: nat) -> nat {
    (n + CHUNK_SIZE as nat - 1) as nat / CHUNK_SIZE as nat
}

/// The ids in chunk `c`.
pub open spec fn chunk(ids: Seq<StrokeId>, c: int) -> Seq<StrokeId> {
    let start = c * CHUNK_SIZE;
    let end = if start + CHUNK_SIZE <= ids.len() {
        start + CHUNK_SIZE
    } else {
        ids.len() as int
    };
    ids.subrange(start, end)
}

/// What a sync does about one chunk.
#[derive(Clone, Copy, Debug)]
pub struct ChunkPlan {
    /// The strokes in it, by their position in draw order: from `start`, up to
    /// and without `end`.
    pub start: usize,
    pub end: usize,
    pub key: u64,
    /// Whether its buffers are to be filled anew.
    pub upload: bool,
}

/// What a sync does about chunk `c`, where the buffers hold chunks with `keys`.
pub open spec fn planned(keys: Seq<u64>, ids: Seq<StrokeId>, c: int) -> ChunkPlan {
    let key = key_of(chunk(ids, c));
    ChunkPlan {
        start: (c * CHUNK_SIZE) as usize,
        end: (c * CHUNK_SIZE + chunk(ids, c).len()) as usize,
        key,
        upload: c >= keys.len() || keys[c] != key,
    }
}

/// What a sync does: one plan for each chunk, in order. Buffers beyond them are
/// dropped.
pub fn plan_sync(keys: &Vec<u64>, ids: &Vec<StrokeId>) -> (r: Vec<ChunkPlan>)
    ensures
        r@.len() == chunk_count(ids@.len()),
        forall|c: int| 0 <= c < r@.len() ==> #[trigger] r@[c] == planned(keys@, ids@, c),
{
    let n = ids.len();
    let mut out: Vec<ChunkPlan> = Vec::new();
    let mut start: usize = 0;
    while start < n
        invariant
            n == ids@.len(),
            start <= n,
            start == out@.len() * CHUNK_SIZE || (start == n && out@.len() == chunk_count(n as nat)),
            start < n ==> start == out@.len() * CHUNK_SIZE,
            out@.len() <= chunk_count(n as nat),
            forall|c: int| 0 <= c < out@.len() ==> #[trigger] out@[c] == planned(keys@, ids@, c),
        decreases n - start,
    {
        let c = out.len();
        let end: usize = if n - start > CHUNK_SIZE {
            start + CHUNK_SIZE
        } else {
            n
        };
        let group = vstd::slice::slice_subrange(ids.as_slice(), start, end);
        assert(group@ =~= chunk(ids@, c as int));
        let key = chunk_key(group);
        let upload = if c < keys.len() {
            keys[c] != key
        } else {
            true
        };
        out.push(ChunkPlan { start, end, key, upload });
        start = end;
    }
    out
}

/// Whether the buffers have to be brought in line with the document.
pub fn needs_sync(invalidated: bool, synced: Option<u64>, generation: u64) -> (r: bool)
    ensures
        r == (invalidated || synced != Some(generation)),
{
    if invalidated {
        return true;
    }
    match synced {
        Some(g) => g != generation,
        None => true,
    }
}

/// The ids of the strokes that the GPU draws, in draw order: all but text, which
/// needs the font atlas.
pub open spec fn drawn(strokes: Seq<StrokeView>) -> Seq<StrokeId>
    decreases strokes.len(),
{
    if strokes.len() == 0 {
        Seq::empty()
    } else {
        let front = drawn(strokes.drop_last());
        if strokes.last().kind is Text {
            front
        } else {
            front.push(strokes.last().id)
        }
    }
}

/// The ids of the strokes that the GPU draws, in draw order.
pub fn gpu_strokes(doc: &StrokeSet) -> (r: Vec<StrokeId>)
    requires
        doc.wf(),
    ensures
        r@ == drawn(doc@.visible().map_values(|p: (Timestamp, StrokeView)| p.1)),
{
    let visible = doc.visible_with_ts();
    let ghost all = doc@.visible().map_values(|p: (Timestamp, StrokeView)| p.1);
    let mut out: Vec<StrokeId> = Vec::new();
    let mut i: usize = 0;
    while i < visible.len()
        invariant
            i <= visible@.len() == all.len(),
            forall|k: int| 0 <= k < all.len() ==> #[trigger] all[k] == visible@[k].1@,
            out@ == drawn(all.take(i as int)),
        decreases visible.len() - i,
    {
        let stroke = visible[i].1;
        proof {
            assert(all.take(i + 1).drop_last() =~= all.take(i as int));
            assert(all[i as int] == stroke@);
        }
        match stroke.kind {
            StrokeKind::Text { .. } => {},
            _ => out.push(stroke.id),
        }
        i += 1;
    }
    assert(all.take(i as int) =~= all);
    out
}

/// Where nothing changed, nothing is uploaded.
pub proof fn law_no_change_uploads_nothing(keys: Seq<u64>, ids: Seq<StrokeId>, c: int)
    requires
        keys.len() == chunk_count(ids.len()),
        forall|k: int| 0 <= k < keys.len() ==> #[trigger] keys[k] == key_of(chunk(ids, k)),
        0 <= c < chunk_count(ids.len()),
    ensures
        !planned(keys, ids, c).upload,
{
}

/// Adding strokes on top leaves every full chunk as it was: only the chunks
/// from the last one on are uploaded.
pub proof fn law_adding_touches_only_the_last_chunk(
    keys: Seq<u64>,
    ids: Seq<StrokeId>,
    more: Seq<StrokeId>,
    c: int,
)
    requires
        keys.len() == chunk_count(ids.len()),
        forall|k: int| 0 <= k < keys.len() ==> #[trigger] keys[k] == key_of(chunk(ids, k)),
        0 <= c,
        (c + 1) * CHUNK_SIZE <= ids.len(),
    ensures
        c < keys.len(),
        !planned(keys, ids + more, c).upload,
{
    assert(chunk(ids + more, c) =~= chunk(ids, c));
}

/// Erasing a stroke leaves the chunks before it as they were.
pub proof fn law_erasing_keeps_earlier_chunks(
    keys: Seq<u64>,
    ids: Seq<StrokeId>,
    erased: int,
    c: int,
)
    requires
        keys.len() == chunk_count(ids.len()),
        forall|k: int| 0 <= k < keys.len() ==> #[trigger] keys[k] == key_of(chunk(ids, k)),
        0 <= erased < ids.len(),
        0 <= c,
        (c + 1) * CHUNK_SIZE <= erased,
    ensures
        !planned(keys, ids.remove(erased), c).upload,
{
    assert(chunk(ids.remove(erased), c) =~= chunk(ids, c));
}

/// The lines put before a shader's source, for an OpenGL version given by its
/// version declaration, whether it has the new shader interface, and whether it
/// is an embedded one.
pub open spec fn header(declaration: Seq<char>, new: bool, embedded: bool) -> Seq<char> {
    declaration + (if new {
        "#define NEW_SHADER_INTERFACE 1\n"@ + "#define I in\n#define O out\n"@
    } else {
        "#define NEW_SHADER_INTERFACE 0\n"@ + "#define I attribute\n#define O varying\n"@
    }) + (if embedded {
        "precision highp float;\n"@
    } else {
        Seq::empty()
    })
}

/// The lines put before a shader's source.
pub fn shader_header(declaration: &str, new: bool, embedded: bool) -> (r: String)
    ensures
        r@ == header(declaration@, new, embedded),
{
    let mut h = declaration.to_owned();
    if new {
        h.append("#define NEW_SHADER_INTERFACE 1\n");
        h.append("#define I in\n#define O out\n");
    } else {
        h.append("#define NEW_SHADER_INTERFACE 0\n");
        h.append("#define I attribute\n#define O varying\n");
    }
    if embedded {
        h.append("precision highp float;\n");
    }
    assert(h@ =~= header(declaration@, new, embedded));
    h
}

/// Where a chunk lies, by the least and greatest corners of its strokes: its
/// origin, which is the least corner of its first stroke, and its own corners.
pub open spec fn extent_of(boxes: Seq<(Point, Point)>) -> Option<(Point, (Point, Point))> {
    if boxes.len() == 0 {
        None
    } else {
        Some(
            (
                boxes[0].0,
                (
                    least_corner(boxes.map_values(|b: (Point, Point)| b.0)),
                    greatest_corner(boxes.map_values(|b: (Point, Point)| b.1)),
                ),
            ),
        )
    }
}

/// The origin and the corners of a chunk. `None` where no stroke of it has a
/// mesh.
pub fn chunk_extent(boxes: &Vec<(Point, Point)>) -> (r: Option<(Point, (Point, Point))>)
    ensures
        r == extent_of(boxes@),
{
    if boxes.len() == 0 {
        return None;
    }
    let ghost lows = boxes@.map_values(|b: (Point, Point)| b.0);
    let ghost highs = boxes@.map_values(|b: (Point, Point)| b.1);
    let (origin, far) = boxes[0];
    let mut lo = origin;
    let mut hi = far;
    let mut i: usize = 1;
    while i < boxes.len()
        invariant
            1 <= i <= boxes@.len(),
            lows == boxes@.map_values(|b: (Point, Point)| b.0),
            highs == boxes@.map_values(|b: (Point, Point)| b.1),
            lo == least_corner(lows.take(i as int)),
            hi == greatest_corner(highs.take(i as int)),
        decreases boxes.len() - i,
    {
        let (min, max) = boxes[i];
        lo = Point { x: smaller(lo.x, min.x), y: smaller(lo.y, min.y) };
        hi = Point { x: larger(hi.x, max.x), y: larger(hi.y, max.y) };
        proof {
            assert(lows.take(i + 1).drop_last() =~= lows.take(i as int));
            assert(highs.take(i + 1).drop_last() =~= highs.take(i as int));
        }
        i += 1;
    }
    assert(lows.take(i as int) =~= lows);
    assert(highs.take(i as int) =~= highs);
    Some((origin, (lo, hi)))
}

} // verus!
