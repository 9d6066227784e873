//! Distances do not depend on which of two strokes is looked at first.
use crate::distance;
use crate::exact::arithmetic;
use crate::milli::Milli;
use crate::scalar::Scalar;
use crate::strokes::MarkView;
use vstd::prelude::*;

verus! {

/// The distance between two segments is the same from either side.
pub proof fn law_distance_is_symmetric(
    a: (Milli, Milli),
    b: (Milli, Milli),
    c: (Milli, Milli),
    d: (Milli, Milli),
)
    ensures
        distance::segment_to_segment(a, b, c, d) == distance::segment_to_segment(c, d, a, b),
{
    let (p, q) = (distance::point_to_segment(a, c, d), distance::point_to_segment(b, c, d));
    let (r, s) = (distance::point_to_segment(c, a, b), distance::point_to_segment(d, a, b));
    lemma_least_of_four(p, q, r, s);
}

proof fn lemma_least_of_four(p: Milli, q: Milli, r: Milli, s: Milli)
    ensures
        p.smaller(q).smaller(r).smaller(s) == r.smaller(s).smaller(p).smaller(q),
{
}

/// A point moved right.
pub open spec fn moved(p: (Milli, Milli), x: Milli) -> (Milli, Milli) {
    (p.0 + x, p.1)
}

/// Whether a point lies within a million pixels of the origin.
pub open spec fn is_on_page(p: (Milli, Milli)) -> bool {
    arithmetic::within(p.0, 1_000_000_000) && arithmetic::within(p.1, 1_000_000_000)
}

proof fn lemma_moving_keeps_differences(a: (Milli, Milli), b: (Milli, Milli), x: Milli)
    requires
        is_on_page(a),
        is_on_page(b),
        arithmetic::within(x, 1_000_000_000),
    ensures
        moved(a, x).0 - moved(b, x).0 == a.0 - b.0,
{
}

proof fn lemma_moving_keeps_the_distance(
    p: (Milli, Milli),
    a: (Milli, Milli),
    b: (Milli, Milli),
    x: Milli,
)
    requires
        is_on_page(p),
        is_on_page(a),
        is_on_page(b),
        arithmetic::within(x, 1_000_000_000),
    ensures
        distance::point_to_segment(moved(p, x), moved(a, x), moved(b, x))
            == distance::point_to_segment(p, a, b),
{
    lemma_moving_keeps_differences(p, a, x);
    lemma_moving_keeps_differences(b, a, x);
}

proof fn lemma_moving_keeps_sides(
    p: (Milli, Milli),
    q: (Milli, Milli),
    r: (Milli, Milli),
    x: Milli,
)
    requires
        is_on_page(p),
        is_on_page(q),
        is_on_page(r),
        arithmetic::within(x, 1_000_000_000),
    ensures
        distance::side(moved(p, x), moved(q, x), moved(r, x)) == distance::side(p, q, r),
{
    lemma_moving_keeps_differences(q, p, x);
    lemma_moving_keeps_differences(r, p, x);
}

proof fn lemma_moving_keeps_overlap(a: Milli, b: Milli, c: Milli, d: Milli, x: Milli)
    requires
        arithmetic::within(a, 1_000_000_000),
        arithmetic::within(b, 1_000_000_000),
        arithmetic::within(c, 1_000_000_000),
        arithmetic::within(d, 1_000_000_000),
        arithmetic::within(x, 1_000_000_000),
    ensures
        ((a + x).smaller(b + x) <= (c + x).larger(d + x)) == (a.smaller(b) <= c.larger(d)),
{
}

/// Moving both segments together keeps their distance.
pub proof fn law_distance_is_the_same_everywhere(
    a: (Milli, Milli),
    b: (Milli, Milli),
    c: (Milli, Milli),
    d: (Milli, Milli),
    x: Milli,
)
    requires
        is_on_page(a),
        is_on_page(b),
        is_on_page(c),
        is_on_page(d),
        arithmetic::within(x, 1_000_000_000),
    ensures
        distance::segment_to_segment(moved(a, x), moved(b, x), moved(c, x), moved(d, x))
            == distance::segment_to_segment(a, b, c, d),
{
    lemma_moving_keeps_the_distance(a, c, d, x);
    lemma_moving_keeps_the_distance(b, c, d, x);
    lemma_moving_keeps_the_distance(c, a, b, x);
    lemma_moving_keeps_the_distance(d, a, b, x);
    lemma_moving_keeps_sides(a, b, c, x);
    lemma_moving_keeps_sides(a, b, d, x);
    lemma_moving_keeps_sides(c, d, a, x);
    lemma_moving_keeps_sides(c, d, b, x);
    lemma_moving_keeps_overlap(a.0, b.0, c.0, d.0, x);
    lemma_moving_keeps_overlap(c.0, d.0, a.0, b.0, x);
}

/// Whether all points of a stroke lie within half a million pixels of the origin.
pub open spec fn stroke_is_central(points: Seq<(Milli, Milli)>) -> bool {
    forall|i: int|
        0 <= i < points.len() ==> arithmetic::within((#[trigger] points[i]).0, 500_000_000)
            && arithmetic::within(points[i].1, 500_000_000)
}

/// Whether all points of some strokes lie within half a million pixels of the origin.
pub open spec fn ink_is_central(marks: Seq<MarkView<Milli>>) -> bool {
    forall|i: int| 0 <= i < marks.len() ==> stroke_is_central((#[trigger] marks[i]).points)
}

proof fn lemma_segments_are_mutually_close(
    left: Seq<(Milli, Milli)>,
    i: int,
    right: Seq<(Milli, Milli)>,
    j: int,
    offset: Milli,
    clearance: Milli,
)
    requires
        stroke_is_central(left),
        stroke_is_central(right),
        0 <= i < left.len(),
        0 <= j < right.len(),
        arithmetic::within(offset, 500_000_000),
    ensures
        distance::segments_are_close(left, i, right, j, offset, clearance)
            == distance::segments_are_close(right, j, left, i, -offset, clearance),
{
    let (a, b) = (left[i], distance::segment_end(left, i));
    let (c, d) = (right[j], distance::segment_end(right, j));
    let back = -offset;
    let (e, f) = (moved(a, back), moved(b, back));
    assert(moved(e, offset) == a);
    assert(moved(f, offset) == b);
    law_distance_is_symmetric(c, d, e, f);
    law_distance_is_the_same_everywhere(e, f, c, d, offset);
}

/// Two groups of strokes come too close to each other from either side alike.
pub proof fn law_closeness_is_mutual(
    a: Seq<MarkView<Milli>>,
    b: Seq<MarkView<Milli>>,
    offset: Milli,
    clearance: Milli,
)
    requires
        ink_is_central(a),
        ink_is_central(b),
        arithmetic::within(offset, 500_000_000),
    ensures
        distance::ink_is_close(a, b, offset, clearance) == distance::ink_is_close(
            b,
            a,
            -offset,
            clearance,
        ),
{
    lemma_closeness_turns_round(a, b, offset, clearance);
    lemma_closeness_turns_round(b, a, -offset, clearance);
    assert(-(-offset) == offset);
}

proof fn lemma_closeness_turns_round(
    a: Seq<MarkView<Milli>>,
    b: Seq<MarkView<Milli>>,
    offset: Milli,
    clearance: Milli,
)
    requires
        ink_is_central(a),
        ink_is_central(b),
        arithmetic::within(offset, 500_000_000),
    ensures
        distance::ink_is_close(a, b, offset, clearance) ==> distance::ink_is_close(
            b,
            a,
            -offset,
            clearance,
        ),
{
    if distance::ink_is_close(a, b, offset, clearance) {
        let (i, j) = choose|i: int, j: int|
            0 <= i < a.len() && 0 <= j < b.len() && #[trigger] distance::strokes_are_close(
                a[i].points,
                b[j].points,
                offset,
                clearance,
            );
        let (l, r) = (a[i].points, b[j].points);
        let (m, n) = choose|m: int, n: int|
            0 <= m < l.len() && 0 <= n < r.len() && #[trigger] distance::segments_are_close(
                l,
                m,
                r,
                n,
                offset,
                clearance,
            );
        assert(stroke_is_central(a[i].points) && stroke_is_central(b[j].points));
        lemma_segments_are_mutually_close(l, m, r, n, offset, clearance);
        assert(distance::segments_are_close(r, n, l, m, -offset, clearance));
        assert(distance::strokes_are_close(b[j].points, a[i].points, -offset, clearance));
    }
}

} // verus!
