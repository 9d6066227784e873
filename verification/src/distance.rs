//! How far strokes are from each other.
use crate::scalar::Scalar;
use crate::strokes;
use crate::strokes::{Mark, MarkView};
use vstd::prelude::*;

verus! {

/// The square of a number.
pub open spec fn squared<S: Scalar>(x: S) -> S {
    x * x
}

/// How far along the segment from `a` to `b` the point nearest to `p` lies, from
/// zero to one.
pub open spec fn foot<S: Scalar>(p: (S, S), a: (S, S), b: (S, S)) -> S {
    let (dx, dy) = (b.0 - a.0, b.1 - a.1);
    let along = if S::mil(0) < dx * dx + dy * dy {
        ((p.0 - a.0) * dx + (p.1 - a.1) * dy) / (dx * dx + dy * dy)
    } else {
        S::mil(0)
    };
    along.held(S::mil(0), S::mil(1_000))
}

/// The squared distance from `p` to the segment from `a` to `b`.
pub open spec fn point_to_segment<S: Scalar>(p: (S, S), a: (S, S), b: (S, S)) -> S {
    let t = foot(p, a, b);
    squared(p.0 - a.0 - t * (b.0 - a.0)) + squared(p.1 - a.1 - t * (b.1 - a.1))
}

/// On which side of the line from `p` to `q` the point `r` lies.
pub open spec fn side<S: Scalar>(p: (S, S), q: (S, S), r: (S, S)) -> S {
    (q.0 - p.0) * (r.1 - p.1) - (q.1 - p.1) * (r.0 - p.0)
}

/// Whether the segments `ab` and `cd` cross: each has its ends on both sides of the
/// other, and their bounding boxes meet.
pub open spec fn segments_cross<S: Scalar>(a: (S, S), b: (S, S), c: (S, S), d: (S, S)) -> bool {
    &&& side(a, b, c) * side(a, b, d) <= S::mil(0)
    &&& side(c, d, a) * side(c, d, b) <= S::mil(0)
    &&& a.0.smaller(b.0) <= c.0.larger(d.0)
    &&& c.0.smaller(d.0) <= a.0.larger(b.0)
    &&& a.1.smaller(b.1) <= c.1.larger(d.1)
    &&& c.1.smaller(d.1) <= a.1.larger(b.1)
}

/// The squared distance between the segments `ab` and `cd`: zero where they cross,
/// else that of the nearest end.
pub open spec fn segment_to_segment<S: Scalar>(a: (S, S), b: (S, S), c: (S, S), d: (S, S)) -> S {
    if segments_cross(a, b, c, d) {
        S::mil(0)
    } else {
        point_to_segment(a, c, d).smaller(point_to_segment(b, c, d)).smaller(
            point_to_segment(c, a, b),
        ).smaller(point_to_segment(d, a, b))
    }
}

/// Where the segment ends that starts at point `i`: at the next point, the last one
/// being a segment of its own.
pub open spec fn segment_end<S>(points: Seq<(S, S)>, i: int) -> (S, S) {
    if i + 1 < points.len() {
        points[i + 1]
    } else {
        points[i]
    }
}

/// Whether segment `i` of one stroke comes closer than the clearance to segment `j`
/// of another that is moved right by `offset`.
pub open spec fn segments_are_close<S: Scalar>(
    left: Seq<(S, S)>,
    i: int,
    right: Seq<(S, S)>,
    j: int,
    offset: S,
    clearance: S,
) -> bool {
    let first = right[j];
    let last = segment_end(right, j);
    segment_to_segment(
        left[i],
        segment_end(left, i),
        (first.0 + offset, first.1),
        (last.0 + offset, last.1),
    ) < clearance * clearance
}

/// Whether any segment of the one stroke comes too close to one of the other.
pub open spec fn strokes_are_close<S: Scalar>(
    left: Seq<(S, S)>,
    right: Seq<(S, S)>,
    offset: S,
    clearance: S,
) -> bool {
    exists|i: int, j: int|
        0 <= i < left.len() && 0 <= j < right.len() && #[trigger] segments_are_close(
            left,
            i,
            right,
            j,
            offset,
            clearance,
        )
}

/// Whether any ink of `a` comes too close to ink of `b` moved right by `offset`.
pub open spec fn ink_is_close<S: Scalar>(
    a: Seq<MarkView<S>>,
    b: Seq<MarkView<S>>,
    offset: S,
    clearance: S,
) -> bool {
    exists|i: int, j: int|
        0 <= i < a.len() && 0 <= j < b.len() && #[trigger] strokes_are_close(
            a[i].points,
            b[j].points,
            offset,
            clearance,
        )
}

/// The mark redrawn with a subtle asymmetry that depends on where it stands, so that
/// neighbouring brackets do not look stamped. Strokes other than parentheses stay.
pub open spec fn parenthesis_varied<S: Scalar>(mark: MarkView<S>) -> MarkView<S> {
    if !mark.parenthesis || mark.points.len() < 3 {
        mark
    } else {
        let (x, y) = mark.points[0];
        let belly = S::mil(1_250) * (x * S::mil(129) + y * S::mil(217)).sine();
        let skew = S::mil(950) * (x * S::mil(71) + y * S::mil(170)).cosine();
        let rise = S::mil(650) * ((x + y) * S::mil(90)).sine();
        strokes::with_points(mark, bowed(mark.points, belly, skew, rise))
    }
}

/// The points displaced by a bow that fades towards both ends.
pub open spec fn bowed<S: Scalar>(points: Seq<(S, S)>, belly: S, skew: S, rise: S) -> Seq<(S, S)> {
    Seq::new(
        points.len(),
        |i: int|
            {
                let t = S::counted(i) / S::counted(points.len() - 1);
                let envelope = (S::half_turn() * t).sine();
                (
                    points[i].0 + envelope * (belly + skew * (S::mil(2_000) * t - S::mil(1_000))),
                    points[i].1 + envelope * rise,
                )
            },
    )
}

/// The squared distance from a point to a segment.
pub fn point_segment_distance_squared<S: Scalar>(p: (S, S), a: (S, S), b: (S, S)) -> (r: S)
    ensures
        r == point_to_segment(p, a, b),
{
    let dx = b.0.minus(a.0);
    let dy = b.1.minus(a.1);
    let length = dx.times(dx).plus(dy.times(dy));
    let along = if S::milli(0).lt(length) {
        p.0.minus(a.0).times(dx).plus(p.1.minus(a.1).times(dy)).over(length)
    } else {
        S::milli(0)
    };
    let t = along.clamp(S::milli(0), S::milli(1_000));
    let across = p.0.minus(a.0).minus(t.times(dx));
    let down = p.1.minus(a.1).minus(t.times(dy));
    across.times(across).plus(down.times(down))
}

fn cross<S: Scalar>(p: (S, S), q: (S, S), r: (S, S)) -> (s: S)
    ensures
        s == side(p, q, r),
{
    q.0.minus(p.0).times(r.1.minus(p.1)).minus(q.1.minus(p.1).times(r.0.minus(p.0)))
}

/// The squared distance between two segments.
pub fn segment_distance_squared<S: Scalar>(a: (S, S), b: (S, S), c: (S, S), d: (S, S)) -> (r: S)
    ensures
        r == segment_to_segment(a, b, c, d),
{
    if cross(a, b, c).times(cross(a, b, d)).le(S::milli(0)) && cross(c, d, a).times(
        cross(c, d, b),
    ).le(S::milli(0)) && a.0.min(b.0).le(c.0.max(d.0)) && c.0.min(d.0).le(a.0.max(b.0))
        && a.1.min(b.1).le(c.1.max(d.1)) && c.1.min(d.1).le(a.1.max(b.1)) {
        return S::milli(0);
    }
    point_segment_distance_squared(a, c, d).min(point_segment_distance_squared(b, c, d)).min(
        point_segment_distance_squared(c, a, b),
    ).min(point_segment_distance_squared(d, a, b))
}

fn end_of_segment<S: Scalar>(points: &Vec<(S, S)>, i: usize) -> (r: (S, S))
    requires
        i < points.len(),
    ensures
        r == segment_end(points@, i as int),
{
    if i < points.len() - 1 {
        points[i + 1]
    } else {
        points[i]
    }
}

fn strokes_too_close<S: Scalar>(
    left: &Vec<(S, S)>,
    right: &Vec<(S, S)>,
    offset: S,
    clearance: S,
) -> (r: bool)
    ensures
        r == strokes_are_close(left@, right@, offset, clearance),
{
    let mut i: usize = 0;
    while i < left.len()
        invariant
            i <= left.len(),
            forall|k: int, j: int|
                0 <= k < i && 0 <= j < right.len() ==> !#[trigger] segments_are_close(
                    left@,
                    k,
                    right@,
                    j,
                    offset,
                    clearance,
                ),
        decreases left.len() - i,
    {
        let start = left[i];
        let end = end_of_segment(left, i);
        let mut j: usize = 0;
        while j < right.len()
            invariant
                i < left.len(),
                start == left@[i as int],
                end == segment_end(left@, i as int),
                j <= right.len(),
                forall|l: int|
                    0 <= l < j ==> !#[trigger] segments_are_close(
                        left@,
                        i as int,
                        right@,
                        l,
                        offset,
                        clearance,
                    ),
            decreases right.len() - j,
        {
            let first = right[j];
            let last = end_of_segment(right, j);
            let near = segment_distance_squared(
                start,
                end,
                (first.0.plus(offset), first.1),
                (last.0.plus(offset), last.1),
            ).lt(clearance.times(clearance));
            if near {
                assert(segments_are_close(left@, i as int, right@, j as int, offset, clearance));
                return true;
            }
            j += 1;
        }
        i += 1;
    }
    false
}

/// Whether ink of `a` comes closer than `clearance` to ink of `b` moved by `offset`.
pub fn ink_is_too_close<S: Scalar>(
    a: &Vec<Mark<S>>,
    b: &Vec<Mark<S>>,
    offset: S,
    clearance: S,
) -> (r: bool)
    ensures
        r == ink_is_close(strokes::views_of(a@), strokes::views_of(b@), offset, clearance),
{
    let ghost va = strokes::views_of(a@);
    let ghost vb = strokes::views_of(b@);
    let mut i: usize = 0;
    while i < a.len()
        invariant
            i <= a.len(),
            va == strokes::views_of(a@),
            vb == strokes::views_of(b@),
            forall|k: int, j: int|
                0 <= k < i && 0 <= j < b.len() ==> !#[trigger] strokes_are_close(
                    va[k].points,
                    vb[j].points,
                    offset,
                    clearance,
                ),
        decreases a.len() - i,
    {
        let mut j: usize = 0;
        while j < b.len()
            invariant
                i < a.len(),
                j <= b.len(),
                va == strokes::views_of(a@),
                vb == strokes::views_of(b@),
                forall|l: int|
                    0 <= l < j ==> !#[trigger] strokes_are_close(
                        va[i as int].points,
                        vb[l].points,
                        offset,
                        clearance,
                    ),
            decreases b.len() - j,
        {
            if strokes_too_close(&a[i].points, &b[j].points, offset, clearance) {
                assert(strokes_are_close(
                    va[i as int].points,
                    vb[j as int].points,
                    offset,
                    clearance,
                ));
                return true;
            }
            j += 1;
        }
        i += 1;
    }
    false
}

/// Bends a parenthesis a little, the same way each time it is drawn in its place.
pub fn vary_parenthesis<S: Scalar>(mark: &mut Mark<S>)
    ensures
        final(mark)@ == parenthesis_varied(old(mark)@),
{
    if !mark.parenthesis || mark.points.len() < 3 {
        return;
    }
    let (x, y) = mark.points[0];
    let belly = S::milli(1_250).times(x.times(S::milli(129)).plus(y.times(S::milli(217))).sin());
    let skew = S::milli(950).times(x.times(S::milli(71)).plus(y.times(S::milli(170))).cos());
    let rise = S::milli(650).times(x.plus(y).times(S::milli(90)).sin());
    let last = S::whole(mark.points.len() - 1);
    let ghost before = mark.points@;
    let mut i: usize = 0;
    while i < mark.points.len()
        invariant
            i <= mark.points.len(),
            mark.points.len() == before.len(),
            last == S::counted(before.len() - 1),
            mark@ == strokes::with_points(old(mark)@, mark.points@),
            forall|k: int|
                0 <= k < i ==> mark.points@[k] == bowed(before, belly, skew, rise)[k],
            forall|k: int| i <= k < before.len() ==> mark.points@[k] == before[k],
        decreases mark.points.len() - i,
    {
        let t = S::whole(i).over(last);
        let envelope = S::pi().times(t).sin();
        let point = mark.points[i];
        let lean = skew.times(S::milli(2_000).times(t).minus(S::milli(1_000)));
        mark.points[i] = (
            point.0.plus(envelope.times(belly.plus(lean))),
            point.1.plus(envelope.times(rise)),
        );
        i += 1;
    }
    proof {
        assert(mark.points@ =~= bowed(before, belly, skew, rise));
    }
}

} // verus!
