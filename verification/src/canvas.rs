//! Canvas rules that need no arithmetic: what overlaps, what the eraser hits,
//! and which tessellated meshes are kept.

use vstd::prelude::*;

use crate::ordmap::OrdMap;
use crate::types::{KindView, Point, Scalar, StrokeId, StrokeKind};

verus! {

/// `a >= b` as numbers; false whenever either is not a number.
pub open spec fn at_least(a: Scalar, b: Scalar) -> bool {
    !a.nan() && !b.nan() && !a.below(b)
}

fn is_at_least(a: Scalar, b: Scalar) -> (r: bool)
    ensures
        r == at_least(a, b),
{
    !a.is_nan() && !b.is_nan() && !a.is_below(b)
}

/// Two rectangles, each given by its least and greatest corner, share a point.
pub open spec fn overlapping(a: (Point, Point), b: (Point, Point)) -> bool {
    &&& at_least(a.1.x, b.0.x)
    &&& at_least(b.1.x, a.0.x)
    &&& at_least(a.1.y, b.0.y)
    &&& at_least(b.1.y, a.0.y)
}

/// `true` if two world-space rects `(min, max)` overlap.
pub fn overlaps(a: (Point, Point), b: (Point, Point)) -> (r: bool)
    ensures
        r == overlapping(a, b),
{
    is_at_least(a.1.x, b.0.x) && is_at_least(b.1.x, a.0.x) && is_at_least(a.1.y, b.0.y)
        && is_at_least(b.1.y, a.0.y)
}

/// Which rectangle comes first does not matter.
pub proof fn law_overlap_is_symmetric(a: (Point, Point), b: (Point, Point))
    ensures
        overlapping(a, b) == overlapping(b, a),
{
}

/// Whether the pointer is on a stroke's painted body: within its box, and near
/// its outline (a label fills its box). `near` tells of a segment of the outline
/// whether the pointer is within reach; a dot is a segment from a point to
/// itself. The first segment within reach settles it.
pub open spec fn touches<F: Fn(Point, Point) -> bool>(
    kind: KindView,
    path: Seq<Point>,
    in_box: bool,
    near: F,
    hit: bool,
) -> bool {
    if !in_box || kind is Text {
        hit == in_box
    } else if path.len() == 1 {
        call_ensures(near, (path[0], path[0]), hit)
    } else if hit {
        exists|i: int|
            0 <= i < path.len() - 1 && call_ensures(near, (#[trigger] path[i], path[i + 1]), true)
                && clear_of(path, near, i)
    } else {
        clear_of(path, near, path.len() - 1)
    }
}

/// None of the first `upto` segments is within reach.
pub open spec fn clear_of<F: Fn(Point, Point) -> bool>(
    path: Seq<Point>,
    near: F,
    upto: int,
) -> bool {
    forall|k: int|
        0 <= k < upto ==> call_ensures(near, (#[trigger] path[k], path[k + 1]), false)
}

/// `true` if the pointer lies within reach of the stroke's painted body, whose
/// outline is `path`.
pub fn hit_test<F: Fn(Point, Point) -> bool>(
    kind: &StrokeKind,
    path: &Vec<Point>,
    in_box: bool,
    near: &F,
) -> (r: bool)
    requires
        forall|a: Point, b: Point| #[trigger] call_requires(*near, (a, b)),
    ensures
        touches(kind@, path@, in_box, *near, r),
{
    if !in_box {
        return false;
    }
    if let StrokeKind::Text { .. } = kind {
        return true;
    }
    if path.len() == 1 {
        return near(path[0], path[0]);
    }
    if path.len() == 0 {
        return false;
    }
    let mut i: usize = 0;
    while i < path.len() - 1
        invariant
            i <= path.len() - 1,
            in_box,
            !(kind@ is Text),
            path@.len() >= 2,
            forall|a: Point, b: Point| #[trigger] call_requires(*near, (a, b)),
            clear_of(path@, *near, i as int),
        decreases path.len() - i,
    {
        if near(path[i], path[i + 1]) {
            return true;
        }
        i += 1;
    }
    false
}

/// Tessellated meshes for committed strokes, keyed by id. A mesh is built once
/// per zoom bucket and kept while its stroke is asked for; crossing a zoom
/// bucket or changing DPI invalidates everything.
pub struct TessCache<M> {
    /// The zoom and pixel density the meshes were built at.
    scale: Option<(Scalar, Scalar)>,
    meshes: OrdMap<StrokeId, M>,
    /// Ids requested since the last [`Self::end_frame`]; the rest are pruned
    /// there.
    touched: OrdMap<StrokeId, ()>,
    built: usize,
}

/// Mathematical counterpart of [`TessCache`].
pub struct CacheView<M> {
    pub scale: Option<(Scalar, Scalar)>,
    pub meshes: Map<StrokeId, M>,
    pub touched: Set<StrokeId>,
    pub built: nat,
}

impl<M> CacheView<M> {
    /// Whether the meshes were built at this zoom and pixel density.
    pub open spec fn built_at(self, zoom: Scalar, density: Scalar) -> bool {
        match self.scale {
            Some((z, d)) => z.same_number(zoom) && d.same_number(density),
            None => false,
        }
    }
}

impl<M> View for TessCache<M> {
    type V = CacheView<M>;

    closed spec fn view(&self) -> CacheView<M> {
        CacheView {
            scale: self.scale,
            meshes: self.meshes@,
            touched: self.touched@.dom(),
            built: self.built as nat,
        }
    }
}

impl<M> TessCache<M> {
    pub closed spec fn wf(self) -> bool {
        self.meshes.wf() && self.touched.wf()
    }

    pub fn new() -> (r: Self)
        ensures
            r.wf(),
            r@ == (CacheView {
                scale: None,
                meshes: Map::<StrokeId, M>::empty(),
                touched: Set::empty(),
                built: 0,
            }),
    {
        let r = TessCache {
            scale: None,
            meshes: OrdMap::new(),
            touched: OrdMap::new(),
            built: 0,
        };
        assert(r@.touched =~= Set::empty());
        r
    }

    /// Call once per frame before requesting meshes, with the quantised zoom.
    /// Returns `true` when the zoom bucket or DPI changed and every mesh was
    /// dropped, so GPU-side copies must be rebuilt too.
    pub fn begin_frame(&mut self, zoom: Scalar, density: Scalar) -> (r: bool)
        requires
            old(self).wf(),
        ensures
            final(self).wf(),
            r == !old(self)@.built_at(zoom, density),
            final(self)@ == (if r {
                CacheView {
                    scale: Some((zoom, density)),
                    meshes: Map::empty(),
                    touched: Set::empty(),
                    built: 0,
                }
            } else {
                CacheView { built: 0, ..old(self)@ }
            }),
    {
        self.built = 0;
        let same = match self.scale {
            Some((z, d)) => z == zoom && d == density,
            None => false,
        };
        if same {
            return false;
        }
        self.scale = Some((zoom, density));
        self.meshes.clear();
        self.touched.clear();
        assert(self@.touched =~= Set::empty());
        true
    }

    /// The quantised zoom the current meshes were built at; zero before the
    /// first frame.
    pub fn zoom(&self) -> (r: Scalar)
        ensures
            r == (match self@.scale {
                Some((z, _)) => z,
                None => Scalar { bits: 0 },
            }),
    {
        match self.scale {
            Some((z, _)) => z,
            None => Scalar::zero(),
        }
    }

    /// Ask for a stroke's mesh, which keeps it alive. `false` where it has to
    /// be built first and handed to [`Self::store`].
    pub fn request(&mut self, id: StrokeId) -> (r: bool)
        requires
            old(self).wf(),
        ensures
            final(self).wf(),
            r == old(self)@.meshes.contains_key(id),
            final(self)@ == (CacheView { touched: old(self)@.touched.insert(id), ..old(self)@ }),
    {
        let ghost before = self@;
        self.touched.insert(id, ());
        assert(self@.touched =~= before.touched.insert(id));
        self.meshes.contains_key(id)
    }

    /// Keep a mesh that was just built.
    pub fn store(&mut self, id: StrokeId, mesh: M)
        requires
            old(self).wf(),
            old(self)@.built < usize::MAX,
        ensures
            final(self).wf(),
            final(self)@ == (CacheView {
                meshes: old(self)@.meshes.insert(id, mesh),
                built: old(self)@.built + 1,
                ..old(self)@
            }),
    {
        self.meshes.insert(id, mesh);
        self.built += 1;
    }

    pub fn get(&self, id: StrokeId) -> (r: Option<&M>)
        requires
            self.wf(),
        ensures
            match r {
                Some(m) => self@.meshes.contains_key(id) && self@.meshes[id] == *m,
                None => !self@.meshes.contains_key(id),
            },
    {
        self.meshes.get(id)
    }

    /// Forget meshes for strokes that were not requested since the previous
    /// call (i.e. during this sync pass).
    pub fn end_frame(&mut self)
        requires
            old(self).wf(),
        ensures
            final(self).wf(),
            final(self)@ == (CacheView {
                meshes: old(self)@.meshes.restrict(old(self)@.touched),
                touched: Set::empty(),
                ..old(self)@
            }),
    {
        let mut meshes: OrdMap<StrokeId, M> = OrdMap::new();
        std::mem::swap(&mut meshes, &mut self.meshes);
        meshes.retain_keys(&self.touched);
        self.meshes = meshes;
        self.touched.clear();
        assert(self@.touched =~= Set::empty());
    }

    pub fn len(&self) -> (r: usize)
        requires
            self.wf(),
        ensures
            r == self@.meshes.dom().len(),
    {
        self.meshes.len()
    }

    /// Meshes tessellated during the current frame (for the debug readout).
    pub fn built_this_frame(&self) -> (r: usize)
        ensures
            r == self@.built,
    {
        self.built
    }
}

} // verus!
