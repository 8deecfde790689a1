//! Laws that relate several runs of simplification, and a run to the arithmetic
//! it was given.

use vstd::prelude::*;

use crate::geom::{
    is_simplified, keeps, kept_marks, law_simplify_drops_only_near_points, lemma_peak_is_farthest,
    lemma_peak_range, marked, measured, peak, sheds, simplified, split, straight_between, CurveMath,
    CurveModel,
};
use crate::types::{Point, Scalar};

verus! {

/// What simplification leaves is settled by the distances: where every answer
/// of `distance` is what `model` says, the outcome is the one by `model`.
pub proof fn law_simplify_follows_the_distance<F: Fn(Point, Point, Point) -> Scalar>(
    points: Seq<Point>,
    epsilon: Scalar,
    distance: F,
    model: spec_fn(Point, Point, Point) -> Scalar,
    r: Seq<Point>,
)
    requires
        sheds(points, epsilon, distance, r),
        forall|p: Point, a: Point, b: Point, d: Scalar| #[trigger]
            call_ensures(distance, (p, a, b), d) ==> d == model(p, a, b),
    ensures
        r == simplified(points, epsilon, model),
{
    let dist = choose|dist: spec_fn(Point, Point, Point) -> Scalar|
        r == #[trigger] simplified(points, epsilon, dist) && (is_simplified(points, epsilon)
            ==> measured(points, 0, points.len() - 1, epsilon, distance, dist));
    if is_simplified(points, epsilon) {
        assert forall|i: int| 0 <= i < points.len() implies kept_marks(points, epsilon, dist)[i]
            == kept_marks(points, epsilon, model)[i] by {
            lemma_same_keeps(points, 0, points.len() - 1, epsilon, distance, dist, model, i);
        }
        assert(kept_marks(points, epsilon, dist) =~= kept_marks(points, epsilon, model));
    }
}

proof fn lemma_same_peak(
    points: Seq<Point>,
    first: int,
    end: int,
    a: Point,
    b: Point,
    dist: spec_fn(Point, Point, Point) -> Scalar,
    model: spec_fn(Point, Point, Point) -> Scalar,
)
    requires
        forall|i: int|
            first < i < end ==> dist(#[trigger] points[i], a, b) == model(points[i], a, b),
    ensures
        peak(points, first, end, a, b, dist) == peak(points, first, end, a, b, model),
    decreases end - first,
{
    if end > first + 1 {
        lemma_same_peak(points, first, end - 1, a, b, dist, model);
        assert(dist(points[end - 1], a, b) == model(points[end - 1], a, b));
    }
}

proof fn lemma_same_keeps<F: Fn(Point, Point, Point) -> Scalar>(
    points: Seq<Point>,
    first: int,
    last: int,
    epsilon: Scalar,
    distance: F,
    dist: spec_fn(Point, Point, Point) -> Scalar,
    model: spec_fn(Point, Point, Point) -> Scalar,
    i: int,
)
    requires
        measured(points, first, last, epsilon, distance, dist),
        forall|p: Point, a: Point, b: Point, d: Scalar| #[trigger]
            call_ensures(distance, (p, a, b), d) ==> d == model(p, a, b),
    ensures
        keeps(points, first, last, epsilon, dist, i) == keeps(
            points,
            first,
            last,
            epsilon,
            model,
            i,
        ),
    decreases last - first,
{
    lemma_same_peak(points, first, last, points[first], points[last], dist, model);
    if let Some(best) = split(points, first, last, epsilon, dist) {
        if i < best {
            lemma_same_keeps(points, first, best, epsilon, distance, dist, model, i);
        } else if best < i {
            lemma_same_keeps(points, best, last, epsilon, distance, dist, model, i);
        }
    }
}

/// The indices below `upto` that are marked, in order.
spec fn survivors(marks: Seq<bool>, upto: int) -> Seq<int>
    decreases upto,
{
    if upto <= 0 {
        Seq::empty()
    } else if marks[upto - 1] {
        survivors(marks, upto - 1).push(upto - 1)
    } else {
        survivors(marks, upto - 1)
    }
}

proof fn lemma_survivors(points: Seq<Point>, marks: Seq<bool>, upto: int)
    requires
        0 <= upto <= points.len() == marks.len(),
    ensures
        ({
            let at = survivors(marks, upto);
            &&& at.len() == marked(points, marks, upto).len()
            &&& forall|j: int|
                0 <= j < at.len() ==> {
                    &&& 0 <= #[trigger] at[j] < upto
                    &&& marks[at[j]]
                    &&& marked(points, marks, upto)[j] == points[at[j]]
                }
            &&& forall|i: int, j: int| 0 <= i < j < at.len() ==> at[i] < at[j]
            &&& forall|i: int| 0 <= i < upto && marks[i] ==> #[trigger] at.contains(i)
        }),
    decreases upto,
{
    let at = survivors(marks, upto);
    if upto > 0 {
        lemma_survivors(points, marks, upto - 1);
        let front = survivors(marks, upto - 1);
        assert forall|i: int| 0 <= i < upto && marks[i] implies #[trigger] at.contains(i) by {
            if i == upto - 1 {
                assert(at[front.len() as int] == i);
            } else {
                assert(front.contains(i));
                let j = choose|j: int| 0 <= j < front.len() && front[j] == i;
                assert(at[j] == i);
            }
        }
    }
}

/// The farthest point is the first at its distance: those before it lie nearer.
proof fn lemma_peak_is_first(
    points: Seq<Point>,
    first: int,
    end: int,
    a: Point,
    b: Point,
    dist: spec_fn(Point, Point, Point) -> Scalar,
)
    requires
        first < end,
    ensures
        ({
            let (best, far) = peak(points, first, end, a, b, dist);
            best > first ==> {
                &&& far == dist(points[best], a, b)
                &&& (Scalar { bits: 0 }).below(far)
                &&& forall|i: int|
                    first < i < best ==> {
                        let d = dist(#[trigger] points[i], a, b);
                        d.nan() || d.below(far)
                    }
            }
        }),
    decreases end - first,
{
    if end > first + 1 {
        lemma_peak_is_first(points, first, end - 1, a, b, dist);
        lemma_peak_range(points, first, end - 1, a, b, dist);
        let (best, far) = peak(points, first, end - 1, a, b, dist);
        let d = dist(points[end - 1], a, b);
        if far.below(d) {
            assert forall|i: int| first < i < end - 1 implies {
                let e = dist(#[trigger] points[i], a, b);
                e.nan() || e.below(d)
            } by {
                lemma_peak_is_farthest(points, first, end - 1, a, b, dist, i);
            }
        }
    }
}

/// A point at a positive distance, with nothing farther and only nearer points
/// before it, is the farthest one.
proof fn lemma_is_peak(
    points: Seq<Point>,
    first: int,
    end: int,
    a: Point,
    b: Point,
    dist: spec_fn(Point, Point, Point) -> Scalar,
    best: int,
)
    requires
        first < best < end,
        (Scalar { bits: 0 }).below(dist(points[best], a, b)),
        forall|i: int|
            first < i < best ==> {
                let d = dist(#[trigger] points[i], a, b);
                d.nan() || d.below(dist(points[best], a, b))
            },
        forall|i: int|
            best < i < end ==> !dist(points[best], a, b).below(
                dist(#[trigger] points[i], a, b),
            ),
    ensures
        peak(points, first, end, a, b, dist) == (best, dist(points[best], a, b)),
    decreases end - first,
{
    if best < end - 1 {
        lemma_is_peak(points, first, end - 1, a, b, dist, best);
        assert(!dist(points[best], a, b).below(dist(points[end - 1], a, b)));
    } else {
        lemma_peak_range(points, first, best, a, b, dist);
        lemma_peak_is_first(points, first, best, a, b, dist);
        let (was, far) = peak(points, first, best, a, b, dist);
        if was > first {
            let d = dist(points[was], a, b);
            assert(d.nan() || d.below(dist(points[best], a, b)));
        }
    }
}

/// Within a stretch whose ends survive, every survivor is kept again.
proof fn lemma_kept_again(
    points: Seq<Point>,
    epsilon: Scalar,
    dist: spec_fn(Point, Point, Point) -> Scalar,
    lo: int,
    hi: int,
    j: int,
)
    requires
        ({
            let marks = kept_marks(points, epsilon, dist);
            let at = survivors(marks, points.len() as int);
            &&& 0 <= lo < j < hi < at.len()
            &&& forall|i: int|
                at[lo] < i < at[hi] ==> (#[trigger] marks[i] <==> keeps(
                    points,
                    at[lo],
                    at[hi],
                    epsilon,
                    dist,
                    i,
                ))
        }),
    ensures
        keeps(
            marked(points, kept_marks(points, epsilon, dist), points.len() as int),
            lo,
            hi,
            epsilon,
            dist,
            j,
        ),
    decreases hi - lo,
{
    let n = points.len() as int;
    let marks = kept_marks(points, epsilon, dist);
    let at = survivors(marks, n);
    let left = marked(points, marks, n);
    lemma_survivors(points, marks, n);
    let (first, last) = (at[lo], at[hi]);
    let (a, b) = (points[first], points[last]);
    assert(at[lo] < at[j] < at[hi]);
    assert(marks[at[j]]);
    assert(keeps(points, first, last, epsilon, dist, at[j]));
    lemma_peak_range(points, first, last, a, b, dist);
    lemma_peak_is_first(points, first, last, a, b, dist);
    let best = split(points, first, last, epsilon, dist)->0;
    let (_, far) = peak(points, first, last, a, b, dist);
    assert(keeps(points, first, last, epsilon, dist, best));
    assert(marks[best]);
    assert(at.contains(best));
    let mid = choose|k: int| 0 <= k < at.len() && at[k] == best;
    assert(lo < mid < hi) by {
        if mid <= lo {
            assert(mid == lo || at[mid] < at[lo]);
        }
        if mid >= hi {
            assert(mid == hi || at[hi] < at[mid]);
        }
    }
    assert(left[mid] == points[best]);
    assert forall|k: int| lo < k < mid implies {
        let d = dist(#[trigger] left[k], a, b);
        d.nan() || d.below(dist(left[mid], a, b))
    } by {
        assert(at[lo] < at[k] < at[mid]);
        assert(left[k] == points[at[k]]);
    }
    assert forall|k: int| mid < k < hi implies !dist(left[mid], a, b).below(
        dist(#[trigger] left[k], a, b),
    ) by {
        assert(at[mid] < at[k] < at[hi]);
        assert(left[k] == points[at[k]]);
        lemma_peak_is_farthest(points, first, last, a, b, dist, at[k]);
    }
    lemma_is_peak(left, lo, hi, a, b, dist, mid);
    assert(left[lo] == a && left[hi] == b);
    assert(split(left, lo, hi, epsilon, dist) == Some(mid));
    if j < mid {
        assert forall|i: int| at[lo] < i < at[mid] implies (#[trigger] marks[i] <==> keeps(
            points,
            at[lo],
            at[mid],
            epsilon,
            dist,
            i,
        )) by {
            assert(marks[i] <==> keeps(points, first, last, epsilon, dist, i));
        }
        lemma_kept_again(points, epsilon, dist, lo, mid, j);
    } else if mid < j {
        assert forall|i: int| at[mid] < i < at[hi] implies (#[trigger] marks[i] <==> keeps(
            points,
            at[mid],
            at[hi],
            epsilon,
            dist,
            i,
        )) by {
            assert(marks[i] <==> keeps(points, first, last, epsilon, dist, i));
        }
        lemma_kept_again(points, epsilon, dist, mid, hi, j);
    }
}

proof fn lemma_all_marked(points: Seq<Point>, marks: Seq<bool>, upto: int)
    requires
        0 <= upto <= points.len() == marks.len(),
        forall|i: int| 0 <= i < upto ==> #[trigger] marks[i],
    ensures
        marked(points, marks, upto) == points.take(upto),
    decreases upto,
{
    if upto > 0 {
        lemma_all_marked(points, marks, upto - 1);
        assert(marks[upto - 1]);
        assert(points.take(upto) =~= points.take(upto - 1).push(points[upto - 1]));
    } else {
        assert(points.take(0) =~= Seq::empty());
    }
}

/// Simplifying what is already simplified, with the same `epsilon`, changes
/// nothing.
pub proof fn law_simplify_is_idempotent(
    points: Seq<Point>,
    epsilon: Scalar,
    dist: spec_fn(Point, Point, Point) -> Scalar,
)
    ensures
        simplified(simplified(points, epsilon, dist), epsilon, dist) == simplified(
            points,
            epsilon,
            dist,
        ),
{
    let left = simplified(points, epsilon, dist);
    if is_simplified(points, epsilon) && left.len() >= 3 {
        let n = points.len() as int;
        let m = left.len() as int;
        let marks = kept_marks(points, epsilon, dist);
        let at = survivors(marks, n);
        let again = kept_marks(left, epsilon, dist);
        lemma_survivors(points, marks, n);
        assert(at[0] == 0) by {
            assert(marks[0]);
            assert(at.contains(0int));
        }
        assert(at[m - 1] == n - 1) by {
            assert(marks[n - 1]);
            assert(at.contains(n - 1));
        }
        assert forall|j: int| 0 <= j < m implies #[trigger] again[j] by {
            if 0 < j < m - 1 {
                lemma_kept_again(points, epsilon, dist, 0, m - 1, j);
            }
        }
        lemma_all_marked(left, again, m);
        assert(left.take(m) =~= left);
    }
}

/// `a` is made of the items of `b` at the rising places `at`.
pub open spec fn picks(a: Seq<Point>, b: Seq<Point>, at: Seq<int>) -> bool {
    &&& at.len() == a.len()
    &&& forall|j: int| 0 <= j < at.len() ==> 0 <= #[trigger] at[j] < b.len() && a[j] == b[at[j]]
    &&& forall|i: int, j: int| 0 <= i < j < at.len() ==> at[i] < at[j]
}

/// `a` is left of `b` when some of its items are dropped.
pub open spec fn subsequence(a: Seq<Point>, b: Seq<Point>) -> bool {
    exists|at: Seq<int>| picks(a, b, at)
}

proof fn lemma_fewer_marks(points: Seq<Point>, fewer: Seq<bool>, more: Seq<bool>, upto: int)
    requires
        0 <= upto <= points.len() == fewer.len() == more.len(),
        forall|i: int| 0 <= i < upto && #[trigger] fewer[i] ==> more[i],
    ensures
        subsequence(marked(points, fewer, upto), marked(points, more, upto)),
    decreases upto,
{
    if upto == 0 {
        assert(picks(marked(points, fewer, 0), marked(points, more, 0), Seq::empty()));
    } else {
        lemma_fewer_marks(points, fewer, more, upto - 1);
        let a = marked(points, fewer, upto - 1);
        let b = marked(points, more, upto - 1);
        let at = choose|at: Seq<int>| picks(a, b, at);
        if fewer[upto - 1] {
            let p = points[upto - 1];
            assert(picks(a.push(p), b.push(p), at.push(b.len() as int)));
        } else if more[upto - 1] {
            assert(picks(a, b.push(points[upto - 1]), at));
        }
    }
}

/// A larger `epsilon` keeps no point of a stretch that a smaller one drops.
proof fn lemma_keeps_fewer(
    points: Seq<Point>,
    first: int,
    last: int,
    finer: Scalar,
    coarser: Scalar,
    dist: spec_fn(Point, Point, Point) -> Scalar,
    i: int,
)
    requires
        !finer.nan(),
        !coarser.below(finer),
        keeps(points, first, last, coarser, dist, i),
    ensures
        keeps(points, first, last, finer, dist, i),
    decreases last - first,
{
    let best = split(points, first, last, coarser, dist)->0;
    assert(split(points, first, last, finer, dist) == Some(best));
    if i < best {
        lemma_keeps_fewer(points, first, best, finer, coarser, dist, i);
    } else if best < i {
        lemma_keeps_fewer(points, best, last, finer, coarser, dist, i);
    }
}

/// What a larger `epsilon` leaves is what a smaller one leaves with some more
/// points dropped, in the same order.
pub proof fn law_simplify_is_monotone(
    points: Seq<Point>,
    finer: Scalar,
    coarser: Scalar,
    dist: spec_fn(Point, Point, Point) -> Scalar,
)
    requires
        !finer.nan(),
        !coarser.nan(),
        !coarser.below(finer),
    ensures
        subsequence(simplified(points, coarser, dist), simplified(points, finer, dist)),
{
    let n = points.len() as int;
    if is_simplified(points, coarser) {
        let fewer = kept_marks(points, coarser, dist);
        let more = if is_simplified(points, finer) {
            kept_marks(points, finer, dist)
        } else {
            Seq::new(points.len(), |i: int| true)
        };
        assert forall|i: int| 0 <= i < n && #[trigger] fewer[i] implies more[i] by {
            if is_simplified(points, finer) && 0 < i < n - 1 {
                lemma_keeps_fewer(points, 0, n - 1, finer, coarser, dist, i);
            }
        }
        lemma_fewer_marks(points, fewer, more, n);
        if !is_simplified(points, finer) {
            lemma_all_marked(points, more, n);
            assert(points.take(n) =~= points);
        }
    } else {
        assert(picks(points, points, Seq::new(points.len(), |i: int| i)));
    }
}

/// A curve is settled by its arithmetic: where every answer of the functions is
/// what `model` says, the outcome is the curve by `model`.
pub proof fn law_curve_follows_the_math<
    D: Fn(Point, Point) -> Scalar,
    S: Fn(Scalar) -> usize,
    C: Fn([Point; 4], usize, usize) -> Point,
>(math: CurveMath<D, S, C>, points: Seq<Point>, model: CurveModel, r: Seq<Point>)
    requires
        math.smooths(points, r),
        forall|a: Point, b: Point, d: Scalar| #[trigger]
            call_ensures(math.length, (a, b), d) ==> d == (model.length)(a, b),
        forall|d: Scalar, n: usize| #[trigger]
            call_ensures(math.subdivide, (d,), n) ==> n == (model.subdivide)(d),
        forall|c: [Point; 4], s: usize, n: usize, p: Point| #[trigger]
            call_ensures(math.sample, (c, s, n), p) ==> p == (model.sample)(c, s, n),
    ensures
        r == model.smoothed(points),
{
    let used = choose|used: CurveModel|
        r == #[trigger] used.smoothed(points) && (points.len() >= 3 ==> forall|i: int|
            0 <= i < points.len() - 1 ==> #[trigger] math.answers_for(used, points, i));
    if points.len() >= 3 {
        lemma_same_curve(math, points, used, model, points.len() - 1);
    }
}

proof fn lemma_same_curve<
    D: Fn(Point, Point) -> Scalar,
    S: Fn(Scalar) -> usize,
    C: Fn([Point; 4], usize, usize) -> Point,
>(
    math: CurveMath<D, S, C>,
    points: Seq<Point>,
    used: CurveModel,
    model: CurveModel,
    spans: int,
)
    requires
        0 <= spans < points.len(),
        forall|i: int|
            0 <= i < points.len() - 1 ==> #[trigger] math.answers_for(used, points, i),
        forall|a: Point, b: Point, d: Scalar| #[trigger]
            call_ensures(math.length, (a, b), d) ==> d == (model.length)(a, b),
        forall|d: Scalar, n: usize| #[trigger]
            call_ensures(math.subdivide, (d,), n) ==> n == (model.subdivide)(d),
        forall|c: [Point; 4], s: usize, n: usize, p: Point| #[trigger]
            call_ensures(math.sample, (c, s, n), p) ==> p == (model.sample)(c, s, n),
    ensures
        used.curve(points, spans) == model.curve(points, spans),
    decreases spans,
{
    if spans > 0 {
        lemma_same_curve(math, points, used, model, spans - 1);
        let i = spans - 1;
        assert(math.answers_for(used, points, i));
        let n = used.segments(points[i], points[i + 1]);
        assert(n == model.segments(points[i], points[i + 1]));
        let c = CurveModel::controls(points, i);
        let (was, now) = (used.span(points, i), model.span(points, i));
        assert forall|k: int| 0 <= k < n implies was[k] == now[k] by {
            if k < n - 1 {
                assert(math.answers_sample(used, c, (k + 1) as usize, n as usize));
            }
        }
        assert(was =~= now);
    }
}

/// What is left of a polyline is its points at rising places, the first and the
/// last among them, and every point left out lies within `epsilon` of the
/// straight line between its neighbours in what is left.
pub proof fn law_simplified_stays_near(
    points: Seq<Point>,
    epsilon: Scalar,
    dist: spec_fn(Point, Point, Point) -> Scalar,
)
    requires
        points.len() > 0,
    ensures
        exists|at: Seq<int>| #[trigger]
            picks(simplified(points, epsilon, dist), points, at) && at.len() > 0 && at[0] == 0
                && at.last() == points.len() - 1 && forall|j: int, i: int|
                0 <= j < at.len() - 1 && #[trigger] at[j] < i < at[j + 1]
                    ==> !epsilon.below(
                    dist(#[trigger] points[i], points[at[j]], points[at[j + 1]]),
                ),
{
    let n = points.len() as int;
    let r = simplified(points, epsilon, dist);
    if is_simplified(points, epsilon) {
        let marks = kept_marks(points, epsilon, dist);
        let at = survivors(marks, n);
        lemma_survivors(points, marks, n);
        assert(marks[0] && marks[n - 1]);
        assert(at.contains(0int) && at.contains(n - 1));
        let first = choose|k: int| 0 <= k < at.len() && at[k] == 0;
        let last = choose|k: int| 0 <= k < at.len() && at[k] == n - 1;
        assert(first == 0) by {
            if first > 0 {
                assert(at[0] < at[first]);
            }
        }
        assert(last == at.len() - 1) by {
            if last < at.len() - 1 {
                assert(at[last] < at[at.len() - 1]);
            }
        }
        assert(picks(r, points, at));
        assert forall|j: int, i: int|
            0 <= j < at.len() - 1 && #[trigger] at[j] < i < at[j + 1] implies !epsilon.below(
            dist(#[trigger] points[i], points[at[j]], points[at[j + 1]]),
        ) by {
            assert(!marks[i]) by {
                if marks[i] {
                    assert(at.contains(i));
                    let k = choose|k: int| 0 <= k < at.len() && at[k] == i;
                    lemma_between(at, j, k);
                }
            }
            law_simplify_drops_only_near_points(points, epsilon, dist, i);
            let (f, l) = choose|f: int, l: int| #[trigger]
                straight_between(points, marks, epsilon, dist, f, l, i);
            assert(at.contains(f) && at.contains(l));
            let kf = choose|k: int| 0 <= k < at.len() && at[k] == f;
            let kl = choose|k: int| 0 <= k < at.len() && at[k] == l;
            assert(f == at[j]) by {
                if at[j] > f {
                    assert(!marks[at[j]]);
                } else if at[j] < f {
                    lemma_between(at, j, kf);
                }
            }
            assert(l == at[j + 1]) by {
                if at[j + 1] < l {
                    assert(!marks[at[j + 1]]);
                } else if at[j + 1] > l {
                    lemma_between(at, j, kl);
                }
            }
        }
    } else {
        let at = Seq::new(points.len(), |i: int| i);
        assert(picks(r, points, at));
    }
}

/// Nothing in a rising sequence lies between two items that follow each other.
proof fn lemma_between(at: Seq<int>, j: int, k: int)
    requires
        0 <= j < at.len() - 1,
        0 <= k < at.len(),
        forall|a: int, b: int| 0 <= a < b < at.len() ==> at[a] < at[b],
    ensures
        !(at[j] < at[k] < at[j + 1]),
{
    if k < j {
        assert(at[k] < at[j]);
    }
    if k > j + 1 {
        assert(at[j + 1] < at[k]);
    }
}

/// A polyline without a point that deviates by more than `epsilon` from the line
/// between its ends is left with these ends alone.
pub proof fn law_straight_lines_collapse(
    points: Seq<Point>,
    epsilon: Scalar,
    dist: spec_fn(Point, Point, Point) -> Scalar,
)
    requires
        points.len() >= 2,
        (Scalar { bits: 0 }).below(epsilon),
        forall|i: int|
            0 < i < points.len() - 1 ==> !epsilon.below(
                dist(#[trigger] points[i], points.first(), points.last()),
            ),
    ensures
        simplified(points, epsilon, dist) == seq![points.first(), points.last()],
{
    let n = points.len() as int;
    if n == 2 {
        assert(points =~= seq![points.first(), points.last()]);
    } else {
        let marks = kept_marks(points, epsilon, dist);
        let (best, far) = peak(points, 0, n - 1, points[0], points[n - 1], dist);
        lemma_peak_range(points, 0, n - 1, points[0], points[n - 1], dist);
        lemma_peak_is_first(points, 0, n - 1, points[0], points[n - 1], dist);
        assert(split(points, 0, n - 1, epsilon, dist) is None) by {
            if 0 < best {
                assert(!epsilon.below(dist(points[best], points.first(), points.last())));
            }
        }
        assert forall|i: int| 0 <= i < n implies marks[i] == (i == 0 || i == n - 1) by {}
        lemma_ends_marked(points, marks, n - 1);
        assert(marked(points, marks, n) =~= seq![points.first(), points.last()]);
    }
}

proof fn lemma_ends_marked(points: Seq<Point>, marks: Seq<bool>, upto: int)
    requires
        1 <= upto < points.len() == marks.len(),
        forall|i: int| 0 <= i < upto ==> marks[i] == (i == 0),
    ensures
        marked(points, marks, upto) == seq![points[0]],
    decreases upto,
{
    if upto > 1 {
        lemma_ends_marked(points, marks, upto - 1);
        assert(!marks[upto - 1]);
    } else {
        assert(marks[0]);
        assert(marked(points, marks, 0) =~= Seq::empty());
        assert(marked(points, marks, 1) =~= seq![points[0]]);
    }
}

/// A polyline is simplified piece by piece: where `best` is the first point that
/// deviates most from the line between the ends, and by more than `epsilon`, it
/// stays, and what is left are the simplified pieces before and after it.
pub proof fn law_corners_split_the_work(
    points: Seq<Point>,
    epsilon: Scalar,
    dist: spec_fn(Point, Point, Point) -> Scalar,
    best: int,
)
    requires
        0 < best < points.len() - 1,
        (Scalar { bits: 0 }).below(epsilon),
        ({
            let far = dist(points[best], points.first(), points.last());
            &&& epsilon.below(far)
            &&& forall|i: int|
                0 < i < best ==> {
                    let d = dist(#[trigger] points[i], points.first(), points.last());
                    d.nan() || d.below(far)
                }
            &&& forall|i: int|
                best < i < points.len() - 1 ==> !far.below(
                    dist(#[trigger] points[i], points.first(), points.last()),
                )
        }),
    ensures
        simplified(points, epsilon, dist) == simplified(points.take(best + 1), epsilon, dist)
            + simplified(points.skip(best), epsilon, dist).skip(1),
{
    let n = points.len() as int;
    let left = points.take(best + 1);
    let right = points.skip(best);
    let marks = kept_marks(points, epsilon, dist);
    lemma_is_peak(points, 0, n - 1, points[0], points[n - 1], dist, best);
    assert(split(points, 0, n - 1, epsilon, dist) == Some(best));
    lemma_always_marked(left, epsilon, dist);
    lemma_always_marked(right, epsilon, dist);
    let lm = kept_marks(left, epsilon, dist);
    let rm = kept_marks(right, epsilon, dist);
    assert(left =~= points.subrange(0, best + 1));
    assert(right =~= points.subrange(best, n));
    assert forall|i: int| 0 <= i <= best implies marks[i] == lm[i] by {
        if 0 < i < best {
            lemma_keeps_within(points, 0, best + 1, 0, best, epsilon, dist, i);
        }
    }
    assert forall|i: int| best <= i < n implies marks[i] == rm[i - best] by {
        if best < i < n - 1 {
            lemma_keeps_within(points, best, n, best, n - 1, epsilon, dist, i);
        }
    }
    lemma_marked_same(points, marks, left, lm, best + 1);
    lemma_marked_tail(points, marks, right, rm, best, n - best);
    assert(marked(points, marks, best + 1) =~= marked(points, marks, best).push(points[best]));
    assert(marked(right, rm, 1) =~= seq![right[0]]) by {
        assert(rm[0]);
        assert(marked(right, rm, 0) =~= Seq::empty());
    }
    let tail = marked(right, rm, n - best);
    lemma_marked_grows(right, rm, 1, n - best);
    assert(tail[0] == right[0]);
    assert(marked(points, marks, n) =~= marked(points, marks, best) + tail);
    assert(marked(points, marks, best) + tail =~= marked(points, marks, best + 1) + tail.skip(1));
}

/// With a positive `epsilon` what is left is always what is marked.
proof fn lemma_always_marked(
    points: Seq<Point>,
    epsilon: Scalar,
    dist: spec_fn(Point, Point, Point) -> Scalar,
)
    requires
        points.len() >= 2,
        (Scalar { bits: 0 }).below(epsilon),
    ensures
        simplified(points, epsilon, dist) == marked(
            points,
            kept_marks(points, epsilon, dist),
            points.len() as int,
        ),
{
    if points.len() == 2 {
        lemma_all_marked(points, kept_marks(points, epsilon, dist), 2);
        assert(points.take(2) =~= points);
    }
}

proof fn lemma_peak_within(
    points: Seq<Point>,
    lo: int,
    hi: int,
    first: int,
    end: int,
    a: Point,
    b: Point,
    dist: spec_fn(Point, Point, Point) -> Scalar,
)
    requires
        0 <= lo <= first,
        end <= hi <= points.len(),
    ensures
        ({
            let (best, far) = peak(points, first, end, a, b, dist);
            peak(points.subrange(lo, hi), first - lo, end - lo, a, b, dist) == (best - lo, far)
        }),
    decreases end - first,
{
    if end > first + 1 {
        lemma_peak_within(points, lo, hi, first, end - 1, a, b, dist);
        assert(points.subrange(lo, hi)[end - 1 - lo] == points[end - 1]);
    }
}

proof fn lemma_keeps_within(
    points: Seq<Point>,
    lo: int,
    hi: int,
    first: int,
    last: int,
    epsilon: Scalar,
    dist: spec_fn(Point, Point, Point) -> Scalar,
    i: int,
)
    requires
        0 <= lo <= first,
        first <= last < hi <= points.len(),
    ensures
        keeps(points.subrange(lo, hi), first - lo, last - lo, epsilon, dist, i - lo) == keeps(
            points,
            first,
            last,
            epsilon,
            dist,
            i,
        ),
    decreases last - first,
{
    let sub = points.subrange(lo, hi);
    assert(sub[first - lo] == points[first] && sub[last - lo] == points[last]);
    lemma_peak_within(points, lo, hi, first, last, points[first], points[last], dist);
    if let Some(best) = split(points, first, last, epsilon, dist) {
        assert(split(sub, first - lo, last - lo, epsilon, dist) == Some(best - lo));
        lemma_keeps_within(points, lo, hi, first, best, epsilon, dist, i);
        lemma_keeps_within(points, lo, hi, best, last, epsilon, dist, i);
    } else {
        assert(split(sub, first - lo, last - lo, epsilon, dist) is None);
    }
}

proof fn lemma_marked_same(
    points: Seq<Point>,
    marks: Seq<bool>,
    others: Seq<Point>,
    other_marks: Seq<bool>,
    upto: int,
)
    requires
        0 <= upto <= points.len() == marks.len(),
        upto <= others.len() == other_marks.len(),
        forall|i: int| 0 <= i < upto ==> points[i] == others[i],
        forall|i: int| 0 <= i < upto ==> marks[i] == other_marks[i],
    ensures
        marked(points, marks, upto) == marked(others, other_marks, upto),
    decreases upto,
{
    if upto > 0 {
        lemma_marked_same(points, marks, others, other_marks, upto - 1);
        assert(points[upto - 1] == others[upto - 1]);
        assert(marks[upto - 1] == other_marks[upto - 1]);
    }
}

proof fn lemma_marked_tail(
    points: Seq<Point>,
    marks: Seq<bool>,
    tail: Seq<Point>,
    tail_marks: Seq<bool>,
    from: int,
    upto: int,
)
    requires
        0 <= from,
        0 <= upto,
        from + upto <= points.len() == marks.len(),
        upto <= tail.len() == tail_marks.len(),
        forall|i: int| 0 <= i < upto ==> tail[i] == points[from + i],
        forall|i: int| 0 <= i < upto ==> tail_marks[i] == marks[from + i],
    ensures
        marked(points, marks, from + upto) == marked(points, marks, from) + marked(
            tail,
            tail_marks,
            upto,
        ),
    decreases upto,
{
    if upto > 0 {
        lemma_marked_tail(points, marks, tail, tail_marks, from, upto - 1);
        assert(tail[upto - 1] == points[from + upto - 1]);
        assert(tail_marks[upto - 1] == marks[from + upto - 1]);
    }
    assert(marked(points, marks, from + upto) =~= marked(points, marks, from) + marked(
        tail,
        tail_marks,
        upto,
    ));
}

proof fn lemma_marked_grows(points: Seq<Point>, marks: Seq<bool>, few: int, upto: int)
    requires
        0 <= few <= upto <= points.len() == marks.len(),
    ensures
        marked(points, marks, few).len() <= marked(points, marks, upto).len(),
        forall|i: int|
            0 <= i < marked(points, marks, few).len() ==> #[trigger] marked(points, marks, upto)[i]
                == marked(points, marks, few)[i],
    decreases upto,
{
    if few < upto {
        lemma_marked_grows(points, marks, few, upto - 1);
        let all = marked(points, marks, upto);
        let most = marked(points, marks, upto - 1);
        assert forall|i: int| 0 <= i < marked(points, marks, few).len() implies #[trigger] all[i]
            == marked(points, marks, few)[i] by {
            assert(most[i] == marked(points, marks, few)[i]);
        }
    }
}

/// Too few points to simplify, or an `epsilon` of zero or less, leave a polyline
/// as it is.
pub proof fn law_nothing_to_simplify(
    points: Seq<Point>,
    epsilon: Scalar,
    dist: spec_fn(Point, Point, Point) -> Scalar,
)
    requires
        points.len() < 3 || (!epsilon.nan() && !(Scalar { bits: 0 }).below(epsilon)),
    ensures
        simplified(points, epsilon, dist) == points,
{
}

impl CurveModel {
    /// Between two points that follow each other the curve runs through the
    /// samples of their span, from the near end to the far end: the `s`-th of
    /// `n` segments ends at sample `s`, taken with the points around the span.
    pub proof fn law_curve_samples(self, points: Seq<Point>, i: int, s: int, c: [Point; 4])
        requires
            points.len() >= 3,
            0 <= i < points.len() - 1,
            0 < s < self.segments(points[i], points[i + 1]),
            c@ == seq![
                points[if i == 0 {
                    0
                } else {
                    i - 1
                }],
                points[i],
                points[i + 1],
                points[if i + 2 < points.len() {
                    i + 2
                } else {
                    i + 1
                }],
            ],
        ensures
            ({
                let at = self.total_segments(points, i) + s;
                &&& at < self.smoothed(points).len()
                &&& self.smoothed(points)[at] == (self.sample)(
                    c,
                    s as usize,
                    self.segments(points[i], points[i + 1]) as usize,
                )
            }),
    {
        assert(c =~= CurveModel::controls(points, i));
        self.lemma_samples(points, i, s, points.len() - 1);
    }

    proof fn lemma_samples(self, points: Seq<Point>, i: int, s: int, upto: int)
        requires
            0 <= i < upto < points.len(),
            0 < s < self.segments(points[i], points[i + 1]),
        ensures
            ({
                let at = self.total_segments(points, i) + s;
                &&& at < self.curve(points, upto).len()
                &&& self.curve(points, upto)[at] == (self.sample)(
                    CurveModel::controls(points, i),
                    s as usize,
                    self.segments(points[i], points[i + 1]) as usize,
                )
            }),
        decreases upto,
    {
        self.lemma_curve_len(points, upto - 1);
        if i < upto - 1 {
            self.lemma_samples(points, i, s, upto - 1);
        } else {
            let n = self.segments(points[i], points[i + 1]);
            assert(self.span(points, i)[s - 1] == (self.sample)(
                CurveModel::controls(points, i),
                s as usize,
                n as usize,
            ));
        }
    }

    proof fn lemma_curve_len(self, points: Seq<Point>, spans: int)
        requires
            0 <= spans < points.len(),
        ensures
            self.curve(points, spans).len() == 1 + self.total_segments(points, spans),
        decreases spans,
    {
        if spans > 0 {
            self.lemma_curve_len(points, spans - 1);
        }
    }

    /// One or two points are their own curve.
    pub proof fn law_short_polylines_stay(self, points: Seq<Point>)
        requires
            points.len() < 3,
        ensures
            self.smoothed(points) == points,
    {
    }

    /// A span gets as many segments as `subdivide` says of its length; one where
    /// it says none or one, or where the span has no length to speak of.
    pub proof fn law_spans_are_divided(self, points: Seq<Point>, i: int)
        requires
            0 <= i < points.len() - 1,
        ensures
            self.total_segments(points, 0) == 0,
            ({
                let d = (self.length)(points[i], points[i + 1]);
                let n = (self.subdivide)(d);
                let none = !d.nan() && !(Scalar { bits: 0x3400_0000 }).below(d);
                &&& self.segments(points[i], points[i + 1]) == (if n > 1 && !none {
                    n as nat
                } else {
                    1
                })
                &&& self.total_segments(points, i + 1) == self.total_segments(points, i)
                    + self.segments(points[i], points[i + 1])
            }),
    {
    }
}

/// Whatever simplifying leaves, by a distance that always gives the same answer,
/// is the polyline's points at rising places, its ends among them, and every
/// point left out is within `epsilon` of the line between its neighbours there.
pub proof fn law_what_is_left_stays_near<F: Fn(Point, Point, Point) -> Scalar>(
    points: Seq<Point>,
    epsilon: Scalar,
    distance: F,
    model: spec_fn(Point, Point, Point) -> Scalar,
    r: Seq<Point>,
)
    requires
        points.len() > 0,
        sheds(points, epsilon, distance, r),
        forall|p: Point, a: Point, b: Point, d: Scalar| #[trigger]
            call_ensures(distance, (p, a, b), d) ==> d == model(p, a, b),
    ensures
        exists|at: Seq<int>| #[trigger]
            picks(r, points, at) && at.len() > 0 && at[0] == 0 && at.last() == points.len() - 1
                && forall|j: int, i: int|
                0 <= j < at.len() - 1 && #[trigger] at[j] < i < at[j + 1] ==> !epsilon.below(
                    model(#[trigger] points[i], points[at[j]], points[at[j + 1]]),
                ),
{
    law_simplify_follows_the_distance(points, epsilon, distance, model, r);
    law_simplified_stays_near(points, epsilon, model);
}

} // verus!
