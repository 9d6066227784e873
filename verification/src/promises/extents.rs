//! How far ink reaches, and how far strokes are from each other.
use crate::distance;
use crate::exact::text;
use crate::milli::Milli;
use crate::pen::Pen;
use crate::prose;
use crate::scalar::Scalar;
use crate::strokes;
use crate::strokes::{Axis, MarkView};
use crate::traces;
use vstd::prelude::*;

verus! {

proof fn lemma_least(start: Milli, xs: Seq<Milli>)
    ensures
        ({
            let l = strokes::least_from(start, xs);
            &&& l.0 <= start.0
            &&& forall|i: int| 0 <= i < xs.len() ==> l.0 <= (#[trigger] xs[i]).0
            &&& l == start || exists|i: int| 0 <= i < xs.len() && #[trigger] xs[i] == l
        }),
    decreases xs.len(),
{
    if xs.len() > 0 {
        let before = xs.drop_last();
        lemma_least(start, before);
        let l = strokes::least_from(start, before);
        assert forall|i: int| 0 <= i < xs.len() implies strokes::least_from(start, xs).0 <= (
        #[trigger] xs[i]).0 by {
            if i < before.len() {
                assert(before[i] == xs[i]);
            }
        }
        if exists|i: int| 0 <= i < before.len() && #[trigger] before[i] == l {
            let i = choose|i: int| 0 <= i < before.len() && #[trigger] before[i] == l;
            assert(xs[i] == l);
        }
        assert(xs[xs.len() - 1] == xs.last());
    }
}

proof fn lemma_greatest(start: Milli, xs: Seq<Milli>)
    ensures
        ({
            let g = strokes::greatest_from(start, xs);
            &&& start.0 <= g.0
            &&& forall|i: int| 0 <= i < xs.len() ==> (#[trigger] xs[i]).0 <= g.0
            &&& g == start || exists|i: int| 0 <= i < xs.len() && #[trigger] xs[i] == g
        }),
    decreases xs.len(),
{
    if xs.len() > 0 {
        let before = xs.drop_last();
        lemma_greatest(start, before);
        let g = strokes::greatest_from(start, before);
        assert forall|i: int| 0 <= i < xs.len() implies (#[trigger] xs[i]).0
            <= strokes::greatest_from(start, xs).0 by {
            if i < before.len() {
                assert(before[i] == xs[i]);
            }
        }
        if exists|i: int| 0 <= i < before.len() && #[trigger] before[i] == g {
            let i = choose|i: int| 0 <= i < before.len() && #[trigger] before[i] == g;
            assert(xs[i] == g);
        }
        assert(xs[xs.len() - 1] == xs.last());
    }
}

/// One coordinate of a point: across or down.
pub open spec fn coordinate<S>(p: (S, S), axis: Axis) -> S {
    match axis {
        Axis::X => p.0,
        Axis::Y => p.1,
    }
}

/// The extent of some strokes is exactly that of their points: there is none where there is
/// no point, every point lies in it, and both ends are those of a point.
pub proof fn law_extents_are_those_of_the_points(
    marks: Seq<MarkView<Milli>>,
    axis: Axis,
    i: int,
    j: int,
)
    requires
        strokes::has_point(marks, i, j),
    ensures
        strokes::extent(marks, axis) matches Some((low, high)) && {
            &&& low.0 <= coordinate(marks[i].points[j], axis).0 <= high.0
            &&& exists|k: int, l: int|
                strokes::has_point(marks, k, l) && low == coordinate(
                    #[trigger] marks[k].points[l],
                    axis,
                )
            &&& exists|k: int, l: int|
                strokes::has_point(marks, k, l) && high == coordinate(
                    #[trigger] marks[k].points[l],
                    axis,
                )
        },
{
    let points = strokes::all_points(marks);
    let xs = strokes::coordinates(points, axis);
    let at = strokes::lemma_points_are_among_all(marks, i, j);
    lemma_least(Milli::topmost(), xs);
    lemma_greatest(Milli::bottommost(), xs);
    assert(xs[at] == coordinate(marks[i].points[j], axis));
    let (low, high) = (strokes::lowest(points, axis), strokes::highest(points, axis));
    if low == Milli::topmost() {
        assert(xs[at] == low);
    }
    if high == Milli::bottommost() {
        assert(xs[at] == high);
    }
    let a = choose|k: int| 0 <= k < xs.len() && #[trigger] xs[k] == low;
    let b = choose|k: int| 0 <= k < xs.len() && #[trigger] xs[k] == high;
    let (k, l) = strokes::lemma_all_points_are_from_marks(marks, a);
    assert(low == coordinate(marks[k].points[l], axis));
    let (m, n) = strokes::lemma_all_points_are_from_marks(marks, b);
    assert(high == coordinate(marks[m].points[n], axis));
}

/// Strokes without any point have no extent.
pub proof fn law_nothing_has_no_extent(marks: Seq<MarkView<Milli>>, axis: Axis)
    requires
        forall|i: int| 0 <= i < marks.len() ==> (#[trigger] marks[i]).points.len() == 0,
    ensures
        strokes::extent(marks, axis) is None,
        strokes::body_extent(marks) is None,
{
    let points = strokes::all_points(marks);
    if points.len() > 0 {
        let (i, j) = strokes::lemma_all_points_are_from_marks(marks, 0);
        assert(marks[i].points.len() == 0);
    }
    assert(strokes::body_xs(points).len() == 0);
}

/// Whether a height belongs to the body of a letter: five to sixty-five pixels above the
/// baseline.
pub open spec fn is_in_body(y: Milli) -> bool {
    -65_000 <= y.0 <= -5_000
}

proof fn lemma_body_x(points: Seq<(Milli, Milli)>, i: int) -> (k: int)
    requires
        0 <= i < points.len(),
        is_in_body(points[i].1),
    ensures
        0 <= k < strokes::body_xs(points).len(),
        strokes::body_xs(points)[k] == points[i].0,
    decreases points.len(),
{
    if i < points.len() - 1 {
        lemma_body_x(points.drop_last(), i)
    } else {
        strokes::body_xs(points.drop_last()).len() as int
    }
}

proof fn lemma_body_point(points: Seq<(Milli, Milli)>, k: int) -> (i: int)
    requires
        0 <= k < strokes::body_xs(points).len(),
    ensures
        0 <= i < points.len(),
        is_in_body(points[i].1),
        points[i].0 == strokes::body_xs(points)[k],
    decreases points.len(),
{
    if k < strokes::body_xs(points.drop_last()).len() {
        lemma_body_point(points.drop_last(), k)
    } else {
        points.len() - 1
    }
}

/// The body of a letter reaches from its leftmost to its rightmost point between five and
/// sixty-five pixels above the baseline; where there is none so high, all points count.
pub proof fn law_bodies_are_those_of_their_points(marks: Seq<MarkView<Milli>>, i: int, j: int)
    requires
        strokes::has_point(marks, i, j),
    ensures
        ({
            let some_body = exists|k: int, l: int|
                strokes::has_point(marks, k, l) && is_in_body((#[trigger] marks[k].points[l]).1);
            strokes::body_extent(marks) matches Some((left, right)) && {
                &&& is_in_body(marks[i].points[j].1) || !some_body ==> left.0
                    <= marks[i].points[j].0.0 <= right.0
                &&& exists|k: int, l: int|
                    strokes::has_point(marks, k, l) && left == (#[trigger] marks[k].points[l]).0 && (
                    is_in_body(marks[k].points[l].1) || !some_body)
                &&& exists|k: int, l: int|
                    strokes::has_point(marks, k, l) && right == (#[trigger] marks[k].points[l]).0
                        && (is_in_body(marks[k].points[l].1) || !some_body)
            }
        }),
{
    let points = strokes::all_points(marks);
    let body = strokes::body_xs(points);
    let xs = strokes::spacing_xs(marks);
    let at = strokes::lemma_points_are_among_all(marks, i, j);
    let some_body = exists|k: int, l: int|
        strokes::has_point(marks, k, l) && is_in_body((#[trigger] marks[k].points[l]).1);
    if some_body {
        let (k, l) = choose|k: int, l: int|
            strokes::has_point(marks, k, l) && is_in_body((#[trigger] marks[k].points[l]).1);
        let m = strokes::lemma_points_are_among_all(marks, k, l);
        lemma_body_x(points, m);
    } else if body.len() > 0 {
        let m = lemma_body_point(points, 0);
        let (k, l) = strokes::lemma_all_points_are_from_marks(marks, m);
        assert(is_in_body(marks[k].points[l].1));
    }
    assert(some_body <==> body.len() > 0);
    assert(xs.len() > 0);
    let rest = xs.drop_first();
    lemma_least(xs[0], rest);
    lemma_greatest(xs[0], rest);
    let (left, right) = strokes::body_extent(marks)->0;
    if is_in_body(marks[i].points[j].1) || !some_body {
        let k = if some_body {
            lemma_body_x(points, at)
        } else {
            at
        };
        assert(xs[k] == points[at].0);
        if k > 0 {
            assert(rest[k - 1] == xs[k]);
        }
    }
    let a = lemma_is_among(xs, left);
    let b = lemma_is_among(xs, right);
    let (k, l) = lemma_spacing_point(marks, a);
    let (m, n) = lemma_spacing_point(marks, b);
    assert(left == marks[k].points[l].0 && right == marks[m].points[n].0);
}

proof fn lemma_is_among(xs: Seq<Milli>, v: Milli) -> (k: int)
    requires
        xs.len() > 0,
        v == xs[0] || exists|i: int|
            0 <= i < xs.drop_first().len() && #[trigger] xs.drop_first()[i] == v,
    ensures
        0 <= k < xs.len() && xs[k] == v,
{
    if v == xs[0] {
        0
    } else {
        let i = choose|i: int|
            0 <= i < xs.drop_first().len() && #[trigger] xs.drop_first()[i] == v;
        i + 1
    }
}

proof fn lemma_spacing_point(marks: Seq<MarkView<Milli>>, a: int) -> (r: (int, int))
    requires
        0 <= a < strokes::spacing_xs(marks).len(),
    ensures
        strokes::has_point(marks, r.0, r.1),
        marks[r.0].points[r.1].0 == strokes::spacing_xs(marks)[a],
        strokes::body_xs(strokes::all_points(marks)).len() > 0 ==> is_in_body(
            marks[r.0].points[r.1].1,
        ),
{
    let points = strokes::all_points(marks);
    let body = strokes::body_xs(points);
    if body.len() > 0 {
        let m = lemma_body_point(points, a);
        strokes::lemma_all_points_are_from_marks(marks, m)
    } else {
        strokes::lemma_all_points_are_from_marks(marks, a)
    }
}

// Distances.

/// The squared distance of a point from a segment is that from the nearest place on it,
/// which lies between its ends.
pub proof fn law_points_are_as_far_as_the_nearest_place<S: Scalar>(
    p: (S, S),
    a: (S, S),
    b: (S, S),
)
    ensures
        ({
            let (dx, dy) = (b.0 - a.0, b.1 - a.1);
            let size = dx * dx + dy * dy;
            let along = if S::mil(0) < size {
                ((p.0 - a.0) * dx + (p.1 - a.1) * dy) / size
            } else {
                S::mil(0)
            };
            let t = along.held(S::mil(0), S::mil(1_000));
            let (x, y) = (p.0 - a.0 - t * dx, p.1 - a.1 - t * dy);
            distance::point_to_segment(p, a, b) == x * x + y * y
        }),
{
}

/// Two segments that cross are not apart at all; others are as far apart as the nearest of
/// their four ends is from the other segment. They cross where each has its ends on both
/// sides of the other, and their boxes meet.
pub proof fn law_segments_are_as_far_as_their_nearest_end<S: Scalar>(
    a: (S, S),
    b: (S, S),
    c: (S, S),
    d: (S, S),
)
    ensures
        ({
            let side = |p: (S, S), q: (S, S), r: (S, S)|
                (q.0 - p.0) * (r.1 - p.1) - (q.1 - p.1) * (r.0 - p.0);
            let meet = |p: S, q: S, r: S, s: S|
                p.smaller(q) <= r.larger(s) && r.smaller(s) <= p.larger(q);
            let cross = side(a, b, c) * side(a, b, d) <= S::mil(0) && side(c, d, a) * side(c, d, b)
                <= S::mil(0) && meet(a.0, b.0, c.0, d.0) && meet(a.1, b.1, c.1, d.1);
            distance::segment_to_segment(a, b, c, d) == if cross {
                S::mil(0)
            } else {
                distance::point_to_segment(a, c, d).smaller(
                    distance::point_to_segment(b, c, d),
                ).smaller(distance::point_to_segment(c, a, b)).smaller(
                    distance::point_to_segment(d, a, b),
                )
            }
        }),
{
}

/// The end of the segment that starts at point `i`; that of the last point is itself.
pub open spec fn next_point<S>(points: Seq<(S, S)>, i: int) -> (S, S) {
    if i + 1 < points.len() {
        points[i + 1]
    } else {
        points[i]
    }
}

/// Whether segment `j` of stroke `i` of some ink comes closer than a clearance to segment
/// `l` of stroke `k` of other ink that is moved to the right.
pub open spec fn comes_close<S: Scalar>(
    a: Seq<MarkView<S>>,
    i: int,
    j: int,
    b: Seq<MarkView<S>>,
    k: int,
    l: int,
    offset: S,
    clearance: S,
) -> bool {
    let (p, q) = (b[k].points[l], next_point(b[k].points, l));
    &&& strokes::has_point(a, i, j) && strokes::has_point(b, k, l)
    &&& distance::segment_to_segment(
        a[i].points[j],
        next_point(a[i].points, j),
        (p.0 + offset, p.1),
        (q.0 + offset, q.1),
    ) < clearance * clearance
}

/// Ink is too close to other ink exactly where some segment of the one comes closer than
/// the clearance to some segment of the other.
pub proof fn law_ink_is_close_where_a_segment_is<S: Scalar>(
    a: Seq<MarkView<S>>,
    b: Seq<MarkView<S>>,
    offset: S,
    clearance: S,
)
    ensures
        distance::ink_is_close(a, b, offset, clearance) <==> exists|
            i: int,
            j: int,
            k: int,
            l: int,
        | #[trigger]
            comes_close(a, i, j, b, k, l, offset, clearance),
{
    if distance::ink_is_close(a, b, offset, clearance) {
        let (i, k) = choose|i: int, k: int|
            0 <= i < a.len() && 0 <= k < b.len() && #[trigger] distance::strokes_are_close(
                a[i].points,
                b[k].points,
                offset,
                clearance,
            );
        let (j, l) = choose|j: int, l: int|
            0 <= j < a[i].points.len() && 0 <= l < b[k].points.len()
                && #[trigger] distance::segments_are_close(
                a[i].points,
                j,
                b[k].points,
                l,
                offset,
                clearance,
            );
        assert(comes_close(a, i, j, b, k, l, offset, clearance));
    }
    if exists|i: int, j: int, k: int, l: int| #[trigger]
        comes_close(a, i, j, b, k, l, offset, clearance) {
        let (i, j, k, l) = choose|i: int, j: int, k: int, l: int| #[trigger]
            comes_close(a, i, j, b, k, l, offset, clearance);
        assert(distance::segments_are_close(
            a[i].points,
            j,
            b[k].points,
            l,
            offset,
            clearance,
        ));
        assert(distance::strokes_are_close(a[i].points, b[k].points, offset, clearance));
    }
}

/// In thousandths, two letters of a word stand clear of each other: the later one begins
/// more than six and a half pixels behind the box of the earlier one, or no ink of it comes
/// nearer than that to ink of the other.
pub proof fn law_letters_of_a_word_keep_their_distance(
    pen: Pen<Milli>,
    chars: Seq<char>,
    n: int,
    i: int,
    j: int,
)
    requires
        0 <= n <= chars.len(),
        prose::text_upto(pen, chars, n).1 matches Ok((_, word)) && text::word_is_inked(word) && 0
            <= i < j < word.len(),
    ensures
        ({
            let (_, word) = prose::text_upto(pen, chars, n).1->Ok_0;
            let ((a, x), (b, y)) = (word[i], word[j]);
            ||| x.0 + a.width.0 + 6_500 < y.0
            ||| !distance::ink_is_close(a.marks, b.marks, y - x, Milli(6_500))
        }),
{
    text::law_letters_of_a_word_do_not_touch(pen, chars, n);
    let (_, word) = prose::text_upto(pen, chars, n).1->Ok_0;
    assert(!prose::touches(word[i], word[j].0, word[j].1));
    assert(text::is_placed(word[i]) && text::is_placed(word[j]));
}

// Splitting.

/// A stroke with an entry gets one more point where its captured part is a pixel long: on
/// the segment there, with the pressure that belongs to it, unless that falls on a point.
/// Where the first captured segment is longer than a pixel, it lies a pixel from the join.
pub proof fn law_strokes_are_split_a_pixel_behind_the_join<S: Scalar>(mark: MarkView<S>)
    requires
        strokes::mark_is_sound(mark),
        mark.entry_tail_points > 0,
        mark.entry_tail_points + 1 < mark.points.len(),
    ensures
        ({
            let n = mark.entry_tail_points as int;
            let split = traces::split_near_join(mark);
            let (a, b) = (mark.points[n], mark.points[n + 1]);
            let length = (b.0 - a.0).hypotenuse(b.1 - a.1);
            let t = (S::mil(1_000) - S::mil(0)) / length;
            S::mil(1_000) < S::mil(0) + length ==> if S::mil(10) <= t && t < S::mil(990) {
                &&& split.points == mark.points.insert(
                    n + 1,
                    (a.0 + (b.0 - a.0) * t, a.1 + (b.1 - a.1) * t),
                )
                &&& split.pressures == match mark.pressures {
                    Some(p) => Some(p.insert(n + 1, p[n] + (p[n + 1] - p[n]) * t)),
                    None => None,
                }
                &&& split.entry_tail_points == n
                &&& split.entry_taper_length == mark.entry_taper_length
            } else {
                split == mark
            }
        }),
{
}

/// Where a stroke is split: segment by segment from the join, at the first one with which
/// the captured length exceeds a pixel, and not at all where none does or where the split
/// would fall within a hundredth of an end.
pub proof fn law_splits_are_sought_segment_by_segment<S: Scalar>(
    points: Seq<(S, S)>,
    i: int,
    captured: S,
)
    requires
        0 <= i,
    ensures
        ({
            let (a, b) = (points[i], points[i + 1]);
            let length = (b.0 - a.0).hypotenuse(b.1 - a.1);
            let t = (S::mil(1_000) - captured) / length;
            traces::split_from(points, i, captured) == if i + 1 >= points.len() {
                None
            } else if !(S::mil(1_000) < captured + length) {
                traces::split_from(points, i + 1, captured + length)
            } else if S::mil(10) <= t && t < S::mil(990) {
                Some((i, t))
            } else {
                None
            }
        }),
{
}

/// A stroke without an entry is not split.
pub proof fn law_only_entries_are_split<S: Scalar>(mark: MarkView<S>)
    ensures
        mark.entry_tail_points == 0 ==> traces::split_near_join(mark) == mark,
        mark.entry_tail_points > 0 ==> match traces::split_from(
            mark.points,
            mark.entry_tail_points as int,
            S::mil(0),
        ) {
            None => traces::split_near_join(mark) == mark,
            Some((i, t)) => {
                let split = traces::split_near_join(mark);
                let (a, b) = (mark.points[i], mark.points[i + 1]);
                &&& split.points == mark.points.insert(
                    i + 1,
                    (a.0 + (b.0 - a.0) * t, a.1 + (b.1 - a.1) * t),
                )
                &&& split.pressures == match mark.pressures {
                    Some(p) => Some(p.insert(i + 1, p[i] + (p[i + 1] - p[i]) * t)),
                    None => None,
                }
                &&& split.entry_tail_points == mark.entry_tail_points
                &&& split.entry_taper_length == mark.entry_taper_length
                &&& split.parenthesis == mark.parenthesis
            },
        },
{
}

} // verus!
