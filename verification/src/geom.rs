//! Polyline geometry: spline smoothing for rendering and
//! Ramer-Douglas-Peucker simplification for shrinking strokes before they are
//! committed and shipped.
//!
//! Both algorithms take the arithmetic they need (a distance, a sample of a
//! span) as functions; which points are kept and how a curve is put together
//! is decided here.

use vstd::prelude::*;

use crate::types::{Point, Scalar};

verus! {

/// The distance function can be called on any points and always answers the
/// same.
pub open spec fn is_gauge<F: Fn(Point, Point, Point) -> Scalar>(f: F) -> bool {
    &&& forall|p: Point, a: Point, b: Point| #[trigger] call_requires(f, (p, a, b))
    &&& forall|p: Point, a: Point, b: Point, x: Scalar, y: Scalar|
        #![trigger call_ensures(f, (p, a, b), x), call_ensures(f, (p, a, b), y)]
        call_ensures(f, (p, a, b), x) && call_ensures(f, (p, a, b), y) ==> x == y
}

/// One answer of a distance function for each three points.
spec fn gauge<F: Fn(Point, Point, Point) -> Scalar>(f: F) -> spec_fn(
    Point,
    Point,
    Point,
) -> Scalar {
    |p: Point, a: Point, b: Point| choose|d: Scalar| call_ensures(f, (p, a, b), d)
}

/// The first point strictly between `first` and `end` that lies farthest from
/// the line through `a` and `b`, with its distance; `first` itself where no
/// distance is positive.
pub open spec fn peak(
    points: Seq<Point>,
    first: int,
    end: int,
    a: Point,
    b: Point,
    dist: spec_fn(Point, Point, Point) -> Scalar,
) -> (int, Scalar)
    decreases end - first,
{
    if end <= first + 1 {
        (first, Scalar { bits: 0 })
    } else {
        let (best, far) = peak(points, first, end - 1, a, b, dist);
        let d = dist(points[end - 1], a, b);
        if far.below(d) {
            (end - 1, d)
        } else {
            (best, far)
        }
    }
}

/// Where the stretch from `first` to `last` is split: at its farthest point, if
/// that deviates by more than `epsilon`.
pub open spec fn split(
    points: Seq<Point>,
    first: int,
    last: int,
    epsilon: Scalar,
    dist: spec_fn(Point, Point, Point) -> Scalar,
) -> Option<int> {
    let (best, far) = peak(points, first, last, points[first], points[last], dist);
    if first < best < last && epsilon.below(far) {
        Some(best)
    } else {
        None
    }
}

/// Whether simplification keeps the point `i` of the stretch strictly between
/// `first` and `last`.
pub open spec fn keeps(
    points: Seq<Point>,
    first: int,
    last: int,
    epsilon: Scalar,
    dist: spec_fn(Point, Point, Point) -> Scalar,
    i: int,
) -> bool
    decreases last - first,
{
    match split(points, first, last, epsilon, dist) {
        Some(best) => if first < best < last {
            i == best || (i < best && keeps(points, first, best, epsilon, dist, i)) || (best < i
                && keeps(points, best, last, epsilon, dist, i))
        } else {
            false
        },
        None => false,
    }
}

/// The points among the first `upto` that are marked, in order.
pub open spec fn marked(points: Seq<Point>, marks: Seq<bool>, upto: int) -> Seq<Point>
    decreases upto,
{
    if upto <= 0 {
        Seq::empty()
    } else if marks[upto - 1] {
        marked(points, marks, upto - 1).push(points[upto - 1])
    } else {
        marked(points, marks, upto - 1)
    }
}

/// Which points simplification keeps: the endpoints, and what deviates.
pub open spec fn kept_marks(
    points: Seq<Point>,
    epsilon: Scalar,
    dist: spec_fn(Point, Point, Point) -> Scalar,
) -> Seq<bool> {
    Seq::new(
        points.len(),
        |i: int|
            i == 0 || i == points.len() - 1 || keeps(
                points,
                0,
                points.len() - 1,
                epsilon,
                dist,
                i,
            ),
    )
}

/// The simplified polyline. Fewer than three points, or an `epsilon` that is
/// zero or less, leave it as it is.
pub open spec fn simplified(
    points: Seq<Point>,
    epsilon: Scalar,
    dist: spec_fn(Point, Point, Point) -> Scalar,
) -> Seq<Point> {
    if is_simplified(points, epsilon) {
        marked(points, kept_marks(points, epsilon, dist), points.len() as int)
    } else {
        points
    }
}

/// Every distance that the stretch from `first` to `last` turns on is an answer
/// of `distance`.
pub open spec fn measured<F: Fn(Point, Point, Point) -> Scalar>(
    points: Seq<Point>,
    first: int,
    last: int,
    epsilon: Scalar,
    distance: F,
    dist: spec_fn(Point, Point, Point) -> Scalar,
) -> bool
    decreases last - first,
{
    &&& forall|i: int|
        first < i < last ==> call_ensures(
            distance,
            (#[trigger] points[i], points[first], points[last]),
            dist(points[i], points[first], points[last]),
        )
    &&& match split(points, first, last, epsilon, dist) {
        Some(best) => if first < best < last {
            measured(points, first, best, epsilon, distance, dist) && measured(
                points,
                best,
                last,
                epsilon,
                distance,
                dist,
            )
        } else {
            true
        },
        None => true,
    }
}

/// The polyline `r` is what simplification leaves of `points`, by the answers
/// that `distance` gave.
pub open spec fn sheds<F: Fn(Point, Point, Point) -> Scalar>(
    points: Seq<Point>,
    epsilon: Scalar,
    distance: F,
    r: Seq<Point>,
) -> bool {
    exists|dist: spec_fn(Point, Point, Point) -> Scalar|
        r == #[trigger] simplified(points, epsilon, dist) && (is_simplified(points, epsilon)
            ==> measured(points, 0, points.len() - 1, epsilon, distance, dist))
}

/// Whether there is anything to simplify: three points or more, and an
/// `epsilon` that is not zero or less.
pub open spec fn is_simplified(points: Seq<Point>, epsilon: Scalar) -> bool {
    points.len() >= 3 && !epsilon.below(Scalar { bits: 0 }) && !epsilon.same_number(
        Scalar { bits: 0 },
    )
}

/// Work left in a stack of stretches.
spec fn backlog(stack: Seq<(usize, usize)>) -> int
    decreases stack.len(),
{
    if stack.len() == 0 {
        0
    } else {
        backlog(stack.drop_last()) + 2 * (stack.last().1 - stack.last().0) - 1
    }
}

proof fn lemma_backlog_nonnegative(stack: Seq<(usize, usize)>)
    requires
        forall|k: int| 0 <= k < stack.len() ==> (#[trigger] stack[k]).0 < stack[k].1,
    ensures
        backlog(stack) >= 0,
    decreases stack.len(),
{
    if stack.len() > 0 {
        assert(stack.last() == stack[stack.len() - 1]);
        assert forall|k: int| 0 <= k < stack.drop_last().len() implies (
        #[trigger] stack.drop_last()[k]).0 < stack.drop_last()[k].1 by {
            assert(stack.drop_last()[k] == stack[k]);
        }
        lemma_backlog_nonnegative(stack.drop_last());
    }
}

/// The farthest point lies in the stretch, and its distance is a number.
pub proof fn lemma_peak_range(
    points: Seq<Point>,
    first: int,
    end: int,
    a: Point,
    b: Point,
    dist: spec_fn(Point, Point, Point) -> Scalar,
)
    requires
        first < end,
    ensures
        ({
            let (best, far) = peak(points, first, end, a, b, dist);
            &&& first <= best < end
            &&& best == first ==> far == (Scalar { bits: 0 })
            &&& !far.nan()
        }),
    decreases end - first,
{
    if end > first + 1 {
        lemma_peak_range(points, first, end - 1, a, b, dist);
    }
}

/// No point strictly between lies farther than the farthest.
pub proof fn lemma_peak_is_farthest(
    points: Seq<Point>,
    first: int,
    end: int,
    a: Point,
    b: Point,
    dist: spec_fn(Point, Point, Point) -> Scalar,
    i: int,
)
    requires
        first < i < end,
    ensures
        !peak(points, first, end, a, b, dist).1.below(dist(points[i], a, b)),
    decreases end - first,
{
    lemma_peak_range(points, first, end - 1, a, b, dist);
    if i < end - 1 {
        lemma_peak_is_farthest(points, first, end - 1, a, b, dist, i);
    }
}

proof fn lemma_keeps_range(
    points: Seq<Point>,
    first: int,
    last: int,
    epsilon: Scalar,
    dist: spec_fn(Point, Point, Point) -> Scalar,
    i: int,
)
    requires
        keeps(points, first, last, epsilon, dist, i),
    ensures
        first < i < last,
    decreases last - first,
{
    let best = split(points, first, last, epsilon, dist)->0;
    if i < best {
        lemma_keeps_range(points, first, best, epsilon, dist, i);
    } else if best < i {
        lemma_keeps_range(points, best, last, epsilon, dist, i);
    }
}

/// A stretch still to be looked at keeps the point.
spec fn pending(
    points: Seq<Point>,
    stack: Seq<(usize, usize)>,
    epsilon: Scalar,
    dist: spec_fn(Point, Point, Point) -> Scalar,
    i: int,
) -> bool {
    exists|k: int|
        0 <= k < stack.len() && keeps(
            points,
            (#[trigger] stack[k]).0 as int,
            stack[k].1 as int,
            epsilon,
            dist,
            i,
        )
}

proof fn lemma_pending_push(
    points: Seq<Point>,
    stack: Seq<(usize, usize)>,
    top: (usize, usize),
    epsilon: Scalar,
    dist: spec_fn(Point, Point, Point) -> Scalar,
    i: int,
)
    ensures
        pending(points, stack.push(top), epsilon, dist, i) <==> pending(
            points,
            stack,
            epsilon,
            dist,
            i,
        ) || keeps(points, top.0 as int, top.1 as int, epsilon, dist, i),
{
    let more = stack.push(top);
    if pending(points, more, epsilon, dist, i) {
        let k = choose|k: int|
            0 <= k < more.len() && keeps(
                points,
                (#[trigger] more[k]).0 as int,
                more[k].1 as int,
                epsilon,
                dist,
                i,
            );
        if k < stack.len() {
            assert(stack[k] == more[k]);
        }
    }
    if pending(points, stack, epsilon, dist, i) {
        let k = choose|k: int|
            0 <= k < stack.len() && keeps(
                points,
                (#[trigger] stack[k]).0 as int,
                stack[k].1 as int,
                epsilon,
                dist,
                i,
            );
        assert(more[k] == stack[k]);
    }
    assert(more[stack.len() as int] == top);
}

/// Every stretch still to be looked at is measured.
spec fn all_measured<F: Fn(Point, Point, Point) -> Scalar>(
    points: Seq<Point>,
    stack: Seq<(usize, usize)>,
    epsilon: Scalar,
    distance: F,
    dist: spec_fn(Point, Point, Point) -> Scalar,
) -> bool {
    forall|k: int|
        0 <= k < stack.len() ==> measured(
            points,
            (#[trigger] stack[k]).0 as int,
            stack[k].1 as int,
            epsilon,
            distance,
            dist,
        )
}

/// Find the farthest point of a stretch.
fn find_peak<F: Fn(Point, Point, Point) -> Scalar>(
    points: &Vec<Point>,
    first: usize,
    last: usize,
    distance: &F,
) -> (r: (usize, Scalar))
    requires
        first < last < points@.len(),
        is_gauge(*distance),
    ensures
        peak(
            points@,
            first as int,
            last as int,
            points@[first as int],
            points@[last as int],
            gauge(*distance),
        ) == (r.0 as int, r.1),
        first <= r.0 < last,
        forall|k: int|
            first < k < last ==> call_ensures(
                *distance,
                (#[trigger] points@[k], points@[first as int], points@[last as int]),
                gauge(*distance)(points@[k], points@[first as int], points@[last as int]),
            ),
{
    let a = points[first];
    let b = points[last];
    let mut best: usize = first;
    let mut far: Scalar = Scalar::zero();
    let mut i: usize = first + 1;
    while i < last
        invariant
            first < i <= last < points@.len(),
            first <= best < i,
            is_gauge(*distance),
            peak(points@, first as int, i as int, a, b, gauge(*distance)) == (best as int, far),
            forall|k: int|
                first < k < i ==> call_ensures(
                    *distance,
                    (#[trigger] points@[k], a, b),
                    gauge(*distance)(points@[k], a, b),
                ),
        decreases last - i,
    {
        let p = points[i];
        let d = distance(p, a, b);
        assert(d == gauge(*distance)(p, a, b));
        if far.is_below(d) {
            best = i;
            far = d;
        }
        i += 1;
    }
    (best, far)
}

/// Ramer-Douglas-Peucker: drop points that deviate less than `epsilon` from the
/// straight line between their retained neighbours, as measured by
/// `distance(point, a, b)`. Endpoints are always kept. Iterative, so deep
/// recursion on long strokes is not a risk.
pub fn simplify<F: Fn(Point, Point, Point) -> Scalar>(
    points: &Vec<Point>,
    epsilon: Scalar,
    distance: F,
) -> (r: Vec<Point>)
    requires
        is_gauge(distance),
    ensures
        sheds(points@, epsilon, distance, r@),
{
    let n = points.len();
    if n < 3 || epsilon.is_below(Scalar::zero()) || epsilon == Scalar::zero() {
        let copy = points.clone();
        assert(copy@ =~= simplified(points@, epsilon, gauge(distance)));
        return copy;
    }
    let ghost dist = gauge(distance);
    let ghost pts = points@;
    let mut keep: Vec<bool> = Vec::new();
    let mut i: usize = 0;
    while i < n
        invariant
            i <= n == points@.len(),
            n >= 3,
            keep@.len() == i,
            forall|k: int| 0 <= k < i ==> keep@[k] == (k == 0 || k == n - 1),
        decreases n - i,
    {
        keep.push(i == 0 || i == n - 1);
        i += 1;
    }
    let mut stack: Vec<(usize, usize)> = Vec::new();
    stack.push((0, n - 1));
    proof {
        assert forall|k: int| 0 < k < n - 1 implies (#[trigger] keeps(
            pts,
            0,
            n - 1,
            epsilon,
            dist,
            k,
        ) <==> keep@[k] || pending(pts, stack@, epsilon, dist, k)) by {
            lemma_pending_push(pts, Seq::empty(), (0, (n - 1) as usize), epsilon, dist, k);
            assert(stack@ =~= Seq::<(usize, usize)>::empty().push((0, (n - 1) as usize)));
        }
        if all_measured(pts, stack@, epsilon, distance, dist) {
            assert(stack@[0] == (0usize, (n - 1) as usize));
        }
    }
    while stack.len() > 0
        invariant
            pts == points@,
            n == points@.len() >= 3,
            keep@.len() == n,
            keep@[0] && keep@[n - 1],
            !epsilon.below(Scalar { bits: 0 }),
            is_gauge(distance),
            dist == gauge(distance),
            forall|k: int|
                0 <= k < stack@.len() ==> (#[trigger] stack@[k]).0 < stack@[k].1 < n,
            forall|k: int|
                0 < k < n - 1 ==> (#[trigger] keeps(pts, 0, n - 1, epsilon, dist, k) <==> keep@[k]
                    || pending(pts, stack@, epsilon, dist, k)),
            all_measured(pts, stack@, epsilon, distance, dist) ==> measured(
                pts,
                0,
                n - 1,
                epsilon,
                distance,
                dist,
            ),
        decreases backlog(stack@),
    {
        let ghost before = stack@;
        let ghost marks = keep@;
        let (first, last) = stack.pop().unwrap();
        let ghost rest = stack@;
        proof {
            assert(before =~= rest.push((first, last)));
            assert(before.drop_last() =~= rest);
            lemma_backlog_nonnegative(before);
            assert forall|k: int| 0 <= k < rest.len() implies (#[trigger] rest[k]).0 < rest[k].1
                < n by {
                assert(rest[k] == before[k]);
            }
            lemma_backlog_nonnegative(rest);
        }
        assert(before[before.len() - 1] == (first, last));
        let (best, far) = find_peak(points, first, last, &distance);
        proof {
            lemma_peak_range(pts, first as int, last as int, pts[first as int], pts[last as int], dist);
        }
        if epsilon.is_below(far) {
            keep.set(best, true);
            stack.push((first, best));
            stack.push((best, last));
            proof {
                let mid = rest.push((first, best));
                assert(stack@.drop_last() =~= mid);
                assert(mid.drop_last() =~= rest);
                assert(backlog(mid) == backlog(rest) + 2 * (best - first) - 1);
                assert(backlog(stack@) == backlog(mid) + 2 * (last - best) - 1);
                lemma_backlog_nonnegative(stack@);
                assert(split(pts, first as int, last as int, epsilon, dist) == Some(best as int));
                assert forall|k: int| 0 < k < n - 1 implies (#[trigger] keeps(
                    pts,
                    0,
                    n - 1,
                    epsilon,
                    dist,
                    k,
                ) <==> keep@[k] || pending(pts, stack@, epsilon, dist, k)) by {
                    lemma_pending_push(pts, rest, (first, last), epsilon, dist, k);
                    lemma_pending_push(pts, rest, (first, best), epsilon, dist, k);
                    lemma_pending_push(pts, mid, (best, last), epsilon, dist, k);
                    if keeps(pts, first as int, best as int, epsilon, dist, k) {
                        lemma_keeps_range(pts, first as int, best as int, epsilon, dist, k);
                    }
                    if keeps(pts, best as int, last as int, epsilon, dist, k) {
                        lemma_keeps_range(pts, best as int, last as int, epsilon, dist, k);
                    }
                    assert(keeps(pts, 0, n - 1, epsilon, dist, k) <==> marks[k] || pending(
                        pts,
                        before,
                        epsilon,
                        dist,
                        k,
                    ));
                }
                if all_measured(pts, stack@, epsilon, distance, dist) {
                    assert(stack@[rest.len() as int] == (first, best));
                    assert(stack@[rest.len() as int + 1] == (best, last));
                    assert forall|k: int| 0 <= k < before.len() implies measured(
                        pts,
                        (#[trigger] before[k]).0 as int,
                        before[k].1 as int,
                        epsilon,
                        distance,
                        dist,
                    ) by {
                        if k < rest.len() {
                            assert(stack@[k] == before[k]);
                        }
                    }
                }
            }
        } else {
            proof {
                assert(split(pts, first as int, last as int, epsilon, dist) is None);
                assert forall|k: int| 0 < k < n - 1 implies (#[trigger] keeps(
                    pts,
                    0,
                    n - 1,
                    epsilon,
                    dist,
                    k,
                ) <==> keep@[k] || pending(pts, stack@, epsilon, dist, k)) by {
                    lemma_pending_push(pts, rest, (first, last), epsilon, dist, k);
                }
                if all_measured(pts, stack@, epsilon, distance, dist) {
                    assert forall|k: int| 0 <= k < before.len() implies measured(
                        pts,
                        (#[trigger] before[k]).0 as int,
                        before[k].1 as int,
                        epsilon,
                        distance,
                        dist,
                    ) by {
                        if k < rest.len() {
                            assert(stack@[k] == before[k]);
                        }
                    }
                }
            }
        }
    }
    proof {
        assert forall|k: int| 0 <= k < n implies keep@[k] == #[trigger] kept_marks(
            pts,
            epsilon,
            dist,
        )[k] by {
            if 0 < k < n - 1 {
                assert(keeps(pts, 0, n - 1, epsilon, dist, k) <==> keep@[k] || pending(
                    pts,
                    stack@,
                    epsilon,
                    dist,
                    k,
                ));
            }
        }
        assert(keep@ =~= kept_marks(pts, epsilon, dist));
    }
    let mut out: Vec<Point> = Vec::new();
    let mut j: usize = 0;
    while j < n
        invariant
            j <= n == points@.len() == keep@.len(),
            out@ == marked(points@, keep@, j as int),
        decreases n - j,
    {
        if keep[j] {
            out.push(points[j]);
        }
        j += 1;
    }
    assert(out@ == simplified(pts, epsilon, dist));
    out
}

/// The endpoints survive simplification, and nothing is left of nothing.
pub proof fn law_simplify_keeps_endpoints(
    points: Seq<Point>,
    epsilon: Scalar,
    dist: spec_fn(Point, Point, Point) -> Scalar,
)
    requires
        points.len() > 0,
    ensures
        ({
            let r = simplified(points, epsilon, dist);
            &&& r.len() > 0
            &&& r.first() == points.first()
            &&& r.last() == points.last()
            &&& r.len() <= points.len()
        }),
{
    if points.len() >= 3 {
        let marks = kept_marks(points, epsilon, dist);
        lemma_marked_first(points, marks, points.len() as int);
    }
}

proof fn lemma_marked_first(points: Seq<Point>, marks: Seq<bool>, upto: int)
    requires
        0 < upto <= points.len() == marks.len(),
        marks[0],
    ensures
        0 < marked(points, marks, upto).len() <= upto,
        marked(points, marks, upto)[0] == points[0],
    decreases upto,
{
    if upto > 1 {
        lemma_marked_first(points, marks, upto - 1);
    } else {
        assert(marked(points, marks, 0) =~= Seq::empty());
    }
}

/// `f` and `l` are the retained neighbours of the dropped point `i`, and it
/// deviates from the line between them by no more than `epsilon`.
pub open spec fn straight_between(
    points: Seq<Point>,
    marks: Seq<bool>,
    epsilon: Scalar,
    dist: spec_fn(Point, Point, Point) -> Scalar,
    f: int,
    l: int,
    i: int,
) -> bool {
    &&& 0 <= f < i < l < points.len()
    &&& marks[f]
    &&& marks[l]
    &&& forall|k: int| f < k < l ==> !#[trigger] marks[k]
    &&& !epsilon.below(dist(points[i], points[f], points[l]))
}

/// Every dropped point deviates no more than `epsilon` from the straight line
/// between its retained neighbours.
pub proof fn law_simplify_drops_only_near_points(
    points: Seq<Point>,
    epsilon: Scalar,
    dist: spec_fn(Point, Point, Point) -> Scalar,
    i: int,
)
    requires
        points.len() >= 3,
        !epsilon.below(Scalar { bits: 0 }),
        0 <= i < points.len(),
        !kept_marks(points, epsilon, dist)[i],
    ensures
        exists|f: int, l: int| #[trigger]
            straight_between(
                points,
                kept_marks(points, epsilon, dist),
                epsilon,
                dist,
                f,
                l,
                i,
            ),
{
    let n = points.len();
    let (f, l) = lemma_gap(points, 0, n - 1, epsilon, dist, i);
    let marks = kept_marks(points, epsilon, dist);
    assert forall|k: int| f < k < l implies !#[trigger] marks[k] by {}
    assert(straight_between(points, marks, epsilon, dist, f, l, i));
}

proof fn lemma_gap(
    points: Seq<Point>,
    first: int,
    last: int,
    epsilon: Scalar,
    dist: spec_fn(Point, Point, Point) -> Scalar,
    i: int,
) -> (r: (int, int))
    requires
        0 <= first < i < last < points.len(),
        !epsilon.below(Scalar { bits: 0 }),
        !keeps(points, first, last, epsilon, dist, i),
    ensures
        first <= r.0 < i < r.1 <= last,
        r.0 == first || keeps(points, first, last, epsilon, dist, r.0),
        r.1 == last || keeps(points, first, last, epsilon, dist, r.1),
        forall|k: int| r.0 < k < r.1 ==> !keeps(points, first, last, epsilon, dist, k),
        !epsilon.below(dist(points[i], points[r.0], points[r.1])),
    decreases last - first,
{
    lemma_peak_range(points, first, last, points[first], points[last], dist);
    match split(points, first, last, epsilon, dist) {
        Some(best) => {
            if i < best {
                let (f, l) = lemma_gap(points, first, best, epsilon, dist, i);
                assert forall|k: int| f < k < l implies !keeps(
                    points,
                    first,
                    last,
                    epsilon,
                    dist,
                    k,
                ) by {
                    assert(!keeps(points, first, best, epsilon, dist, k));
                }
                (f, l)
            } else {
                let (f, l) = lemma_gap(points, best, last, epsilon, dist, i);
                assert forall|k: int| f < k < l implies !keeps(
                    points,
                    first,
                    last,
                    epsilon,
                    dist,
                    k,
                ) by {
                    assert(!keeps(points, best, last, epsilon, dist, k));
                }
                (f, l)
            }
        },
        None => {
            lemma_peak_is_farthest(points, first, last, points[first], points[last], dist, i);
            (first, last)
        },
    }
}

/// Smallest span that is worth subdividing: two to the power of minus
/// twenty-three.
pub open spec fn span_epsilon() -> Scalar {
    Scalar { bits: 0x3400_0000 }
}

/// The arithmetic of a curve: the length of a span, the number of segments for
/// a length, and the sample `s` of `segments` on the span between the middle two
/// of four control points.
#[verifier::reject_recursive_types(D)]
#[verifier::reject_recursive_types(S)]
#[verifier::reject_recursive_types(C)]
pub struct CurveMath<
    D: Fn(Point, Point) -> Scalar,
    S: Fn(Scalar) -> usize,
    C: Fn([Point; 4], usize, usize) -> Point,
> {
    pub length: D,
    pub subdivide: S,
    pub sample: C,
}

impl<
    D: Fn(Point, Point) -> Scalar,
    S: Fn(Scalar) -> usize,
    C: Fn([Point; 4], usize, usize) -> Point,
> CurveMath<D, S, C> {
    /// The functions can be called on anything and always answer the same.
    pub open spec fn steady(self) -> bool {
        &&& forall|a: Point, b: Point| #[trigger] call_requires(self.length, (a, b))
        &&& forall|a: Point, b: Point, x: Scalar, y: Scalar|
            #![trigger call_ensures(self.length, (a, b), x), call_ensures(self.length, (a, b), y)]
            call_ensures(self.length, (a, b), x) && call_ensures(self.length, (a, b), y) ==> x == y
        &&& forall|d: Scalar| #[trigger] call_requires(self.subdivide, (d,))
        &&& forall|d: Scalar, x: usize, y: usize|
            #![trigger call_ensures(self.subdivide, (d,), x), call_ensures(self.subdivide, (d,), y)]
            call_ensures(self.subdivide, (d,), x) && call_ensures(self.subdivide, (d,), y) ==> x
                == y
        &&& forall|c: [Point; 4], s: usize, n: usize| #[trigger]
            call_requires(self.sample, (c, s, n))
        &&& forall|c: [Point; 4], s: usize, n: usize, x: Point, y: Point|
            #![trigger call_ensures(self.sample, (c, s, n), x), call_ensures(self.sample, (c, s, n), y)]
            call_ensures(self.sample, (c, s, n), x) && call_ensures(self.sample, (c, s, n), y) ==> x
                == y
    }

    /// One answer of each function for each of its arguments.
    spec fn answers(self) -> CurveModel {
        CurveModel {
            length: |a: Point, b: Point| choose|d: Scalar| call_ensures(self.length, (a, b), d),
            subdivide: |d: Scalar| choose|n: usize| call_ensures(self.subdivide, (d,), n),
            sample: |c: [Point; 4], s: usize, n: usize|
                choose|p: Point| call_ensures(self.sample, (c, s, n), p),
        }
    }

    /// Whatever the curve takes from the model for span `i` is an answer of the
    /// functions.
    pub open spec fn answers_for(self, model: CurveModel, points: Seq<Point>, i: int) -> bool {
        let d = (model.length)(points[i], points[i + 1]);
        let n = model.segments(points[i], points[i + 1]);
        &&& call_ensures(self.length, (points[i], points[i + 1]), d)
        &&& call_ensures(self.subdivide, (d,), (model.subdivide)(d))
        &&& forall|s: usize|
            1 <= s < n ==> #[trigger] self.answers_sample(
                model,
                CurveModel::controls(points, i),
                s,
                n as usize,
            )
    }

    /// A sample is an answer of the function.
    pub open spec fn answers_sample(
        self,
        model: CurveModel,
        c: [Point; 4],
        s: usize,
        n: usize,
    ) -> bool {
        call_ensures(self.sample, (c, s, n), (model.sample)(c, s, n))
    }

    /// The polyline `r` is the curve through `points`, by the answers that the
    /// functions gave.
    pub open spec fn smooths(self, points: Seq<Point>, r: Seq<Point>) -> bool {
        exists|model: CurveModel|
            r == #[trigger] model.smoothed(points) && (points.len() >= 3 ==> forall|i: int|
                0 <= i < points.len() - 1 ==> #[trigger] self.answers_for(model, points, i))
    }
}

/// The arithmetic of a curve as mathematical functions.
pub struct CurveModel {
    pub length: spec_fn(Point, Point) -> Scalar,
    pub subdivide: spec_fn(Scalar) -> usize,
    pub sample: spec_fn([Point; 4], usize, usize) -> Point,
}

impl CurveModel {
    /// How many segments a span gets: at least one, and one where it is too
    /// short to divide.
    pub open spec fn segments(self, a: Point, b: Point) -> nat {
        let d = (self.length)(a, b);
        let n = (self.subdivide)(d);
        if n <= 1 || d.below(span_epsilon()) || d.same_number(span_epsilon()) {
            1
        } else {
            n as nat
        }
    }

    /// The four control points of span `i`; the ends are repeated where there
    /// is no neighbour.
    pub open spec fn controls(points: Seq<Point>, i: int) -> [Point; 4] {
        [
            if i == 0 {
                points[0]
            } else {
                points[i - 1]
            },
            points[i],
            points[i + 1],
            if i + 2 < points.len() {
                points[i + 2]
            } else {
                points[points.len() - 1]
            },
        ]
    }

    /// What span `i` adds to the curve: its samples, then its far end.
    pub open spec fn span(self, points: Seq<Point>, i: int) -> Seq<Point> {
        let n = self.segments(points[i], points[i + 1]);
        Seq::new(
            (n - 1) as nat,
            |k: int| (self.sample)(Self::controls(points, i), (k + 1) as usize, n as usize),
        ).push(points[i + 1])
    }

    /// The curve through the first `spans` spans.
    pub open spec fn curve(self, points: Seq<Point>, spans: int) -> Seq<Point>
        decreases spans,
    {
        if spans <= 0 {
            seq![points[0]]
        } else {
            self.curve(points, spans - 1) + self.span(points, spans - 1)
        }
    }

    /// The smoothed polyline; fewer than three points stay as they are.
    pub open spec fn smoothed(self, points: Seq<Point>) -> Seq<Point> {
        if points.len() < 3 {
            points
        } else {
            self.curve(points, points.len() - 1)
        }
    }
}

/// Resample a polyline through a Catmull-Rom spline. The curve passes through
/// every input point; `subdivide(span_length)` decides how many segments to
/// emit for each span (`0`/`1` keeps it straight).
pub fn catmull_rom<
    D: Fn(Point, Point) -> Scalar,
    S: Fn(Scalar) -> usize,
    C: Fn([Point; 4], usize, usize) -> Point,
>(points: &Vec<Point>, math: &CurveMath<D, S, C>) -> (r: Vec<Point>)
    requires
        math.steady(),
    ensures
        math.smooths(points@, r@),
{
    let ghost model = math.answers();
    let n = points.len();
    if n < 3 {
        let copy = points.clone();
        assert(copy@ =~= model.smoothed(points@));
        return copy;
    }
    let tiny = Scalar::from_bits(0x3400_0000);
    let mut out: Vec<Point> = Vec::new();
    out.push(points[0]);
    assert(out@ =~= seq![points@[0]]);
    let mut i: usize = 0;
    while i < n - 1
        invariant
            i <= n - 1,
            n == points@.len() >= 3,
            math.steady(),
            model == math.answers(),
            tiny == span_epsilon(),
            out@ == model.curve(points@, i as int),
            forall|k: int| 0 <= k < i ==> #[trigger] math.answers_for(model, points@, k),
        decreases n - 1 - i,
    {
        let ghost done = out@;
        let p0 = if i == 0 {
            points[0]
        } else {
            points[i - 1]
        };
        let p1 = points[i];
        let p2 = points[i + 1];
        let p3 = if i + 1 < n - 1 {
            points[i + 2]
        } else {
            points[n - 1]
        };
        let controls = [p0, p1, p2, p3];
        assert(controls@ =~= CurveModel::controls(points@, i as int)@);
        let span = (math.length)(p1, p2);
        assert(span == (model.length)(p1, p2));
        let segments = (math.subdivide)(span);
        assert(segments == (model.subdivide)(span));
        let ghost want = model.span(points@, i as int);
        if segments <= 1 || span.is_below(tiny) || span == tiny {
            assert(model.segments(p1, p2) == 1);
            out.push(p2);
            assert(out@ =~= done + want);
        } else {
            assert(model.segments(p1, p2) == segments as nat);
            let mut s: usize = 1;
            while s < segments
                invariant
                    1 <= s <= segments,
                    math.steady(),
                    model == math.answers(),
                    0 <= i < n - 1,
                    n == points@.len(),
                    segments as nat == model.segments(points@[i as int], points@[i + 1]),
                    controls == CurveModel::controls(points@, i as int),
                    want == model.span(points@, i as int),
                    out@ == done + want.take(s - 1),
                    forall|k: usize|
                        1 <= k < s ==> #[trigger] math.answers_sample(
                            model,
                            controls,
                            k,
                            segments,
                        ),
                decreases segments - s,
            {
                let p = (math.sample)(controls, s, segments);
                assert(p == (model.sample)(controls, s, segments));
                assert(want.take(s as int) =~= want.take(s - 1).push(p));
                out.push(p);
                assert(out@ =~= done + want.take(s as int));
                s += 1;
            }
            out.push(p2);
            assert(out@ =~= done + want);
        }
        assert(math.answers_for(model, points@, i as int));
        i += 1;
    }
    assert(out@ == model.smoothed(points@));
    out
}

impl CurveModel {
    /// Segments on the first `spans` spans together.
    pub open spec fn total_segments(self, points: Seq<Point>, spans: int) -> nat
        decreases spans,
    {
        if spans <= 0 {
            0
        } else {
            self.total_segments(points, spans - 1) + self.segments(
                points[spans - 1],
                points[spans],
            )
        }
    }

    proof fn lemma_curve(self, points: Seq<Point>, spans: int, upto: int)
        requires
            0 <= spans <= upto < points.len(),
        ensures
            self.curve(points, upto).len() == 1 + self.total_segments(points, upto),
            self.total_segments(points, spans) <= self.total_segments(points, upto),
            self.curve(points, upto)[self.total_segments(points, spans) as int] == points[spans],
        decreases upto,
    {
        if upto > 0 {
            if spans < upto {
                self.lemma_curve(points, spans, upto - 1);
            } else {
                self.lemma_curve(points, spans - 1, upto - 1);
            }
        }
    }

    /// The curve passes through every input point, in order, with each span's
    /// segments in between: as many points as segments, and the first point.
    pub proof fn law_curve_interpolates(self, points: Seq<Point>, i: int)
        requires
            points.len() >= 3,
            0 <= i < points.len(),
        ensures
            ({
                let r = self.smoothed(points);
                let at = self.total_segments(points, i);
                &&& r.len() == 1 + self.total_segments(points, points.len() - 1)
                &&& at < r.len()
                &&& r[at as int] == points[i]
            }),
    {
        self.lemma_curve(points, i, points.len() - 1);
    }

    /// Without subdivision the curve is the polyline itself.
    pub proof fn law_curve_without_subdivision(self, points: Seq<Point>)
        requires
            forall|i: int|
                0 <= i < points.len() - 1 ==> self.segments(#[trigger] points[i], points[i + 1])
                    == 1,
        ensures
            self.smoothed(points) == points,
    {
        if points.len() >= 3 {
            self.lemma_straight(points, points.len() - 1);
            assert(points.take(points.len() as int) =~= points);
        }
    }

    proof fn lemma_straight(self, points: Seq<Point>, spans: int)
        requires
            0 <= spans < points.len(),
            forall|i: int|
                0 <= i < points.len() - 1 ==> self.segments(#[trigger] points[i], points[i + 1])
                    == 1,
        ensures
            self.curve(points, spans) == points.take(spans + 1),
        decreases spans,
    {
        if spans > 0 {
            self.lemma_straight(points, spans - 1);
            assert(self.segments(points[spans - 1], points[spans]) == 1);
            assert(self.span(points, spans - 1) =~= seq![points[spans]]);
        }
        assert(self.curve(points, spans) =~= points.take(spans + 1));
    }
}

} // verus!
