//! Every stroke is drawn through all its points.
use crate::distance;
use crate::exact::arithmetic;
use crate::ink;
use crate::ink::InkWeight;
use crate::laws;
use crate::milli::Milli;
use crate::scalar::Scalar;
use crate::strokes;
use crate::strokes::MarkView;
use crate::traces;
use crate::traces::{Inked, TraceView};
use vstd::prelude::*;

verus! {

/// Where a point of a stroke lies on a page whose baseline is `top` below its upper edge:
/// twenty-two pixels from the left edge is where the formula begins.
pub open spec fn page_place<S: Scalar>(top: S, p: (S, S)) -> (S, S) {
    (S::mil(22_000) + p.0, top + p.1)
}

/// A stroke without pressures is drawn as one curve through all its points, in their
/// order, in the ordinary width.
pub proof fn law_plain_strokes_are_one_curve<S: Scalar>(
    mark: MarkView<S>,
    weight: InkWeight<S>,
    top: S,
)
    requires
        mark.pressures is None,
        mark.entry_tail_points == 0,
        2 <= mark.points.len(),
    ensures
        ({
            let drawn = traces::traces_of_mark(mark, weight, top);
            &&& drawn.len() == 1
            &&& drawn[0] matches TraceView::Curve { points, width } && {
                &&& width == weight.base
                &&& points.len() == mark.points.len()
                &&& forall|i: int|
                    0 <= i < points.len() ==> #[trigger] points[i] == page_place(
                        top,
                        if mark.parenthesis {
                            distance::parenthesis_varied(mark).points[i]
                        } else {
                            mark.points[i]
                        },
                    )
            }
        }),
{
}

/// What a stroke is drawn from: its points once it has been bent, if it is a parenthesis,
/// and split, if it has an entry. With pressures it is drawn in lines, without as one curve
/// through all of these, and without a point not at all.
pub proof fn law_strokes_are_drawn_by_their_pressures<S: Scalar>(
    mark: MarkView<S>,
    weight: InkWeight<S>,
    top: S,
)
    ensures
        ({
            let drawn = traces::traces_of_mark(mark, weight, top);
            let split = traces::split_near_join(distance::parenthesis_varied(mark));
            &&& split.points.len() == 0 ==> drawn.len() == 0
            &&& 2 <= split.points.len() ==> match split.pressures {
                Some(pressures) => drawn == traces::inked_lines(
                    Inked { mark: split, pressures, ink: weight, top },
                ),
                None => drawn.len() == 1 && (drawn[0] matches TraceView::Curve { points, width }
                    && {
                    &&& width == weight.base
                    &&& points.len() == split.points.len()
                    &&& forall|i: int|
                        0 <= i < points.len() ==> #[trigger] points[i] == page_place(
                            top,
                            split.points[i],
                        )
                }),
            }
        }),
{
}

/// A stroke of one point is drawn as a dot there: in the width for its pressure, or in the
/// ordinary width where it has none.
pub proof fn law_single_points_are_dots<S: Scalar>(
    mark: MarkView<S>,
    weight: InkWeight<S>,
    top: S,
)
    requires
        strokes::mark_is_sound(mark),
        mark.points.len() == 1,
    ensures
        traces::traces_of_mark(mark, weight, top) == seq![
            TraceView::Dot {
                at: page_place(top, mark.points[0]),
                width: match mark.pressures {
                    Some(p) => ink::width_for(weight, p[0]),
                    None => weight.base,
                },
            },
        ],
{
}

/// Strokes are drawn one after the other, each on its own: what is drawn for some strokes
/// and then some more is what is drawn for the first, then what is drawn for the others.
pub proof fn law_strokes_are_drawn_in_order<S: Scalar>(
    before: Seq<MarkView<S>>,
    after: Seq<MarkView<S>>,
    weight: InkWeight<S>,
    top: S,
)
    ensures
        traces::traces_of(before + after, weight, top) == traces::traces_of(before, weight, top)
            + traces::traces_of(after, weight, top),
    decreases after.len(),
{
    if after.len() == 0 {
        assert(before + after =~= before);
        assert(traces::traces_of(before, weight, top) + traces::traces_of(after, weight, top)
            =~= traces::traces_of(before, weight, top));
    } else {
        law_strokes_are_drawn_in_order(before, after.drop_last(), weight, top);
        assert((before + after).drop_last() =~= before + after.drop_last());
        assert(traces::traces_of(before + after, weight, top) =~= traces::traces_of(
            before,
            weight,
            top,
        ) + traces::traces_of(after, weight, top));
    }
}

/// A stroke on its own is drawn as it is among others.
pub proof fn law_no_stroke_is_left_out<S: Scalar>(mark: MarkView<S>, weight: InkWeight<S>, top: S)
    ensures
        traces::traces_of(seq![mark], weight, top) == traces::traces_of_mark(mark, weight, top),
        mark.points.len() > 0 && strokes::mark_is_sound(mark) && mark.pressures is None
            ==> traces::traces_of_mark(mark, weight, top).len() > 0,
{
    reveal_with_fuel(traces::traces_of, 2);
    assert(seq![mark].drop_last() =~= Seq::<MarkView<S>>::empty());
    assert(traces::traces_of(seq![mark], weight, top) =~= traces::traces_of_mark(
        mark,
        weight,
        top,
    ));
}

// Strokes with pressures.

/// Where a line begins.
pub open spec fn start_of<S>(t: TraceView<S>) -> (S, S) {
    match t {
        TraceView::Dot { at, .. } => at,
        TraceView::Line { from, .. } => from,
        TraceView::Curve { points, .. } => points[0],
    }
}

/// Where a line ends.
pub open spec fn end_of<S>(t: TraceView<S>) -> (S, S) {
    match t {
        TraceView::Dot { at, .. } => at,
        TraceView::Line { to, .. } => to,
        TraceView::Curve { points, .. } => points.last(),
    }
}

/// Whether some lines follow each other without a gap.
pub open spec fn is_chain<S>(lines: Seq<TraceView<S>>) -> bool {
    forall|k: int|
        0 < k < lines.len() ==> #[trigger] start_of(lines[k]) == end_of(lines[k - 1])
}

/// Whether some lines pass through some points in their order: line `at[i]` begins at point
/// `i`, the line before `at[i]` ends there, and there is at least one line from each point
/// to the next.
pub open spec fn passes<S>(lines: Seq<TraceView<S>>, points: Seq<(S, S)>, at: Seq<int>) -> bool {
    &&& at.len() == points.len()
    &&& at.len() > 0 && at[0] == 0 && at.last() == lines.len()
    &&& forall|i: int, j: int| 0 <= i < j < at.len() ==> #[trigger] at[i] < #[trigger] at[j]
    &&& forall|i: int|
        0 <= i < points.len() - 1 ==> start_of(lines[at[i]]) == #[trigger] points[i]
    &&& forall|i: int|
        0 < i < points.len() ==> end_of(lines[at[i] - 1]) == #[trigger] points[i]
}

/// The places on the page of some points.
pub open spec fn page_places<S: Scalar>(top: S, points: Seq<(S, S)>) -> Seq<(S, S)> {
    Seq::new(points.len(), |i: int| page_place(top, points[i]))
}

/// Whether both coordinates of some points stay within a hundred thousand pixels.
pub open spec fn are_modest(points: Seq<(Milli, Milli)>) -> bool {
    forall|i: int|
        0 <= i < points.len() ==> arithmetic::within((#[trigger] points[i]).0, 100_000_000)
            && arithmetic::within(points[i].1, 100_000_000)
}

proof fn lemma_whole_share(n: int)
    requires
        0 < n,
    ensures
        Milli::counted(n) / Milli::counted(n) == Milli(1_000),
        Milli::counted(0) / Milli::counted(n) == Milli(0),
{
    let d = Milli::counted(n).0 as int;
    assert(d > 0);
    assert(d * 1_000 / d == 1_000) by (nonlinear_arith)
        requires
            0 < d,
    ;
    assert(0int / d == 0);
    assert(0int * 1_000 == 0);
}

proof fn lemma_section_shape<S: Scalar>(inked: Inked<S>, i: int, captured: S, k: int, n: int)
    ensures
        ({
            let (a, b) = (inked.mark.points[i], inked.mark.points[i + 1]);
            let line = traces::section_line(inked, i, captured, k, n);
            let (f, t) = (S::counted(k) / S::counted(n), S::counted(k + 1) / S::counted(n));
            let (x, y) = page_place(inked.top, a);
            &&& start_of(line) == (x + (b.0 - a.0) * f, y + (b.1 - a.1) * f)
            &&& end_of(line) == (x + (b.0 - a.0) * t, y + (b.1 - a.1) * t)
        }),
{
}

proof fn lemma_sections_are_chained<S: Scalar>(inked: Inked<S>, i: int, captured: S)
    ensures
        is_chain(traces::section_lines(inked, i, captured)),
{
    let lines = traces::section_lines(inked, i, captured);
    let n = lines.len() as int;
    assert forall|k: int| 0 < k < lines.len() implies #[trigger] start_of(lines[k]) == end_of(
        lines[k - 1],
    ) by {
        lemma_section_shape(inked, i, captured, k, n);
        lemma_section_shape(inked, i, captured, k - 1, n);
    }
}

proof fn lemma_there_are_sections(inked: Inked<Milli>, i: int, captured: Milli)
    ensures
        traces::section_count(inked, i, captured) > 0,
{
    let length = traces::length_between(inked.mark.points[i], inked.mark.points[i + 1]);
    let c = (length / Milli::mil(1_500)).ceiling().larger(Milli::mil(1_000));
    assert(c.0 as int / 1_000 >= 1);
}

proof fn lemma_shares_of_a_side(x: Milli, a: Milli, b: Milli, n: int)
    requires
        arithmetic::within(x, 200_000_000),
        arithmetic::within(a, 100_000_000),
        arithmetic::within(b, 100_000_000),
        0 < n,
    ensures
        x + a + (b - a) * (Milli::counted(0) / Milli::counted(n)) == x + a,
        x + a + (b - a) * (Milli::counted(n) / Milli::counted(n)) == x + b,
{
    lemma_whole_share(n);
    arithmetic::lemma_nothing_times(b - a);
    arithmetic::lemma_once(b - a);
}

/// Whether the sections of a segment lead from its one end to the other.
pub open spec fn segment_is_drawn<S: Scalar>(inked: Inked<S>, i: int, captured: S) -> bool {
    let lines = traces::section_lines(inked, i, captured);
    &&& lines.len() > 0
    &&& start_of(lines[0]) == page_place(inked.top, inked.mark.points[i])
    &&& end_of(lines.last()) == page_place(inked.top, inked.mark.points[i + 1])
    &&& is_chain(lines)
}

proof fn lemma_segment_is_drawn(inked: Inked<Milli>, i: int, captured: Milli)
    requires
        0 <= i < inked.mark.points.len() - 1,
        are_modest(inked.mark.points),
        arithmetic::within(inked.top, 200_000_000),
    ensures
        segment_is_drawn(inked, i, captured),
{
    let (a, b) = (inked.mark.points[i], inked.mark.points[i + 1]);
    let n = traces::section_count(inked, i, captured) as int;
    lemma_there_are_sections(inked, i, captured);
    lemma_sections_are_chained(inked, i, captured);
    lemma_section_shape(inked, i, captured, 0, n);
    lemma_section_shape(inked, i, captured, n - 1, n);
    lemma_shares_of_a_side(Milli(22_000), a.0, b.0, n);
    lemma_shares_of_a_side(inked.top, a.1, b.1, n);
}

proof fn lemma_joined_chains<S>(a: Seq<TraceView<S>>, b: Seq<TraceView<S>>)
    requires
        is_chain(a),
        is_chain(b),
        a.len() > 0 && b.len() > 0 ==> start_of(b[0]) == end_of(a.last()),
    ensures
        is_chain(a + b),
{
    let all = a + b;
    assert forall|k: int| 0 < k < all.len() implies #[trigger] start_of(all[k]) == end_of(
        all[k - 1],
    ) by {
        if k < a.len() {
            assert(start_of(a[k]) == end_of(a[k - 1]));
        } else if k > a.len() {
            assert(start_of(b[k - a.len()]) == end_of(b[k - a.len() - 1]));
        }
    }
}

proof fn lemma_prepended<S>(
    first: Seq<TraceView<S>>,
    rest: Seq<TraceView<S>>,
    from: (S, S),
    points: Seq<(S, S)>,
    later: Seq<int>,
) -> (at: Seq<int>)
    requires
        first.len() > 0,
        start_of(first[0]) == from,
        points.len() > 0,
        end_of(first.last()) == points[0],
        passes(rest, points, later),
        is_chain(first),
        is_chain(rest),
    ensures
        passes(first + rest, seq![from] + points, at),
        is_chain(first + rest),
{
    let n = first.len() as int;
    let at = seq![0int] + Seq::new(later.len(), |k: int| later[k] + n);
    let all = first + rest;
    let here = seq![from] + points;
    if rest.len() > 0 {
        assert(later[0] < later[later.len() - 1]);
        assert(start_of(rest[later[0]]) == points[0]);
    }
    lemma_joined_chains(first, rest);
    assert forall|i: int, j: int| 0 <= i < j < at.len() implies #[trigger] at[i]
        < #[trigger] at[j] by {
        assert(at[j] == later[j - 1] + n);
        if i > 0 {
            assert(at[i] == later[i - 1] + n);
        } else if j > 1 {
            assert(later[0] < later[j - 1]);
        }
    }
    assert forall|i: int| 0 <= i < here.len() - 1 implies start_of(all[at[i]])
        == #[trigger] here[i] by {
        if i > 0 {
            assert(here[i] == points[i - 1]);
            assert(later[i - 1] < later[later.len() - 1]);
            if i > 1 {
                assert(later[0] < later[i - 1]);
            }
            assert(all[at[i]] == rest[later[i - 1]]);
        }
    }
    assert forall|i: int| 0 < i < here.len() implies end_of(all[at[i] - 1])
        == #[trigger] here[i] by {
        assert(here[i] == points[i - 1]);
        if i > 1 {
            assert(later[0] < later[i - 1]);
            if i - 1 < later.len() - 1 {
                assert(later[i - 1] < later[later.len() - 1]);
            }
            assert(all[at[i] - 1] == rest[later[i - 1] - 1]);
        } else {
            assert(all[n - 1] == first.last());
        }
    }
    at
}

proof fn lemma_lines_pass<S: Scalar>(inked: Inked<S>, i: int, captured: S) -> (at: Seq<int>)
    requires
        0 <= i < inked.mark.points.len(),
        forall|k: int, c: S|
            0 <= k < inked.mark.points.len() - 1 ==> #[trigger] segment_is_drawn(inked, k, c),
    ensures
        passes(
            traces::lines_from(inked, i, captured),
            page_places(inked.top, inked.mark.points.skip(i)),
            at,
        ),
        is_chain(traces::lines_from(inked, i, captured)),
    decreases inked.mark.points.len() - i,
{
    let points = inked.mark.points;
    let here = page_places(inked.top, points.skip(i));
    if i + 1 >= points.len() {
        assert(here.len() == 1);
        seq![0int]
    } else {
        let first = traces::section_lines(inked, i, captured);
        let further = captured + traces::length_between(points[i], points[i + 1]);
        let rest = traces::lines_from(inked, i + 1, further);
        let later = lemma_lines_pass(inked, i + 1, further);
        let there = page_places(inked.top, points.skip(i + 1));
        assert(segment_is_drawn(inked, i, captured));
        let from = page_place(inked.top, points[i]);
        assert(there[0] == page_place(inked.top, points[i + 1]));
        assert(here =~= seq![from] + there);
        assert(traces::lines_from(inked, i, captured) == first + rest);
        lemma_prepended(first, rest, from, there, later)
    }
}

proof fn lemma_entry_passes<S: Scalar>(inked: Inked<S>, i: int, last: int, captured: S) -> (at:
    Seq<int>)
    requires
        0 <= i <= last < inked.mark.points.len(),
        forall|k: int, c: S|
            0 <= k < inked.mark.points.len() - 1 ==> #[trigger] segment_is_drawn(inked, k, c),
    ensures
        passes(
            traces::entry_lines(inked, last).skip(i) + traces::lines_from(inked, last, captured),
            page_places(inked.top, inked.mark.points.skip(i)),
            at,
        ),
        is_chain(
            traces::entry_lines(inked, last).skip(i) + traces::lines_from(inked, last, captured),
        ),
    decreases last - i,
{
    let points = inked.mark.points;
    let lines = traces::entry_lines(inked, last);
    let more = traces::lines_from(inked, last, captured);
    if i == last {
        assert(lines.skip(i) + more =~= more);
        lemma_lines_pass(inked, last, captured)
    } else {
        let later = lemma_entry_passes(inked, i + 1, last, captured);
        let rest = lines.skip(i + 1) + more;
        let from = page_place(inked.top, points[i]);
        let there = page_places(inked.top, points.skip(i + 1));
        assert(page_places(inked.top, points.skip(i)) =~= seq![from] + there);
        assert(there[0] == page_place(inked.top, points[i + 1]));
        assert(lines.skip(i) + more =~= seq![lines[i]] + rest);
        lemma_prepended(seq![lines[i]], rest, from, there, later)
    }
}

proof fn lemma_reach_is_inside<S: Scalar>(points: Seq<(S, S)>, last: int, captured: S)
    requires
        0 <= last < points.len(),
    ensures
        last <= traces::entry_reach(points, last, captured).0 < points.len(),
    decreases points.len() - last,
{
    if last + 1 < points.len() && captured < S::mil(750) {
        lemma_reach_is_inside(
            points,
            last + 1,
            captured + traces::length_between(points[last], points[last + 1]),
        );
    }
}

proof fn lemma_inked_lines_pass(inked: Inked<Milli>) -> (at: Seq<int>)
    requires
        strokes::mark_is_sound(inked.mark),
        inked.mark.points.len() > 0,
        are_modest(inked.mark.points),
        arithmetic::within(inked.top, 200_000_000),
    ensures
        passes(traces::inked_lines(inked), page_places(inked.top, inked.mark.points), at),
        is_chain(traces::inked_lines(inked)),
{
    let points = inked.mark.points;
    assert forall|k: int, c: Milli| 0 <= k < points.len() - 1 implies #[trigger] segment_is_drawn(
        inked,
        k,
        c,
    ) by {
        lemma_segment_is_drawn(inked, k, c);
    }
    assert(points.skip(0) =~= points);
    if inked.mark.entry_tail_points > 0 {
        let entry = inked.mark.entry_tail_points as int;
        let (last, captured) = traces::entry_reach(points, entry, Milli::mil(0));
        lemma_reach_is_inside(points, entry, Milli::mil(0));
        let lines = traces::entry_lines(inked, last);
        assert(lines.skip(0) =~= lines);
        lemma_entry_passes(inked, 0, last, captured)
    } else {
        lemma_lines_pass(inked, 0, Milli::mil(0))
    }
}

proof fn lemma_fewer_points<S>(
    lines: Seq<TraceView<S>>,
    points: Seq<(S, S)>,
    at: Seq<int>,
    k: int,
) -> (fewer: Seq<int>)
    requires
        passes(lines, points, at),
        0 < k < points.len() - 1,
    ensures
        passes(lines, points.remove(k), fewer),
{
    let fewer = at.remove(k);
    let left = points.remove(k);
    assert forall|i: int, j: int| 0 <= i < j < fewer.len() implies #[trigger] fewer[i]
        < #[trigger] fewer[j] by {
        let a = if i < k {
            i
        } else {
            i + 1
        };
        let b = if j < k {
            j
        } else {
            j + 1
        };
        assert(at[a] < at[b]);
    }
    assert forall|i: int| 0 <= i < left.len() - 1 implies start_of(lines[fewer[i]])
        == #[trigger] left[i] by {
        let a = if i < k {
            i
        } else {
            i + 1
        };
        assert(left[i] == points[a]);
    }
    assert forall|i: int| 0 < i < left.len() implies end_of(lines[fewer[i] - 1])
        == #[trigger] left[i] by {
        let a = if i < k {
            i
        } else {
            i + 1
        };
        assert(left[i] == points[a]);
    }
    fewer
}

/// A stroke with pressures is drawn by lines that follow each other without a gap from its
/// first point to its last, through every point in between and in their order, with an
/// entry or without one. A parenthesis is bent before.
pub proof fn law_inked_strokes_pass_through_all_points(
    mark: MarkView<Milli>,
    weight: InkWeight<Milli>,
    top: Milli,
) -> (at: Seq<int>)
    requires
        strokes::mark_is_sound(mark),
        mark.pressures is Some,
        2 <= mark.points.len(),
        are_modest(traces::split_near_join(distance::parenthesis_varied(mark)).points),
        arithmetic::within(top, 200_000_000),
    ensures
        passes(
            traces::traces_of_mark(mark, weight, top),
            page_places(top, distance::parenthesis_varied(mark).points),
            at,
        ),
        distance::parenthesis_varied(mark).points.len() == mark.points.len(),
        !mark.parenthesis ==> distance::parenthesis_varied(mark) == mark,
        is_chain(traces::traces_of_mark(mark, weight, top)),
{
    let whole = mark;
    let mark = distance::parenthesis_varied(whole);
    laws::law_only_parentheses_bend(whole);
    assert(strokes::mark_is_sound(mark));
    let split = traces::split_near_join(mark);
    laws::law_splitting_keeps_every_point(mark);
    let inked = Inked { mark: split, pressures: split.pressures->0, ink: weight, top };
    let at = lemma_inked_lines_pass(inked);
    assert(traces::traces_of_mark(whole, weight, top) == traces::inked_lines(inked));
    if split == mark {
        at
    } else {
        let k = choose|i: int|
            mark.entry_tail_points < i < mark.points.len()
                && #[trigger] traces::split_near_join(mark).points.remove(i) == mark.points
                && traces::split_near_join(mark).points.len() == mark.points.len() + 1;
        assert forall|j: int| 0 <= j < mark.points.len() implies #[trigger] mark.points[j]
            == split.points[if j < k { j } else { j + 1 }] by {
            assert(split.points.remove(k)[j] == mark.points[j]);
        }
        assert(page_places(top, split.points).remove(k) =~= page_places(top, mark.points));
        lemma_fewer_points(
            traces::traces_of_mark(whole, weight, top),
            page_places(top, split.points),
            at,
            k,
        )
    }
}

proof fn lemma_lines_without_an_entry<S: Scalar>(inked: Inked<S>, i: int, captured: S, k: int)
    requires
        inked.mark.entry_tail_points == 0,
        0 <= i < inked.mark.points.len(),
    ensures
        traces::lines_from(inked, i, captured).len() == inked.mark.points.len() - 1 - i,
        0 <= k < inked.mark.points.len() - 1 - i ==> exists|c: S|
            traces::lines_from(inked, i, captured)[k] == #[trigger] traces::section_line(
                inked,
                i + k,
                c,
                0,
                1,
            ),
    decreases inked.mark.points.len() - i,
{
    let points = inked.mark.points;
    if i + 1 < points.len() {
        let further = captured + traces::length_between(points[i], points[i + 1]);
        lemma_lines_without_an_entry(inked, i + 1, further, k - 1);
        let first = traces::section_lines(inked, i, captured);
        assert(first.len() == 1);
        assert(first[0] == traces::section_line(inked, i, captured, 0, 1));
        if 0 < k < points.len() - 1 - i {
            let c = choose|c: S|
                traces::lines_from(inked, i + 1, further)[k - 1] == #[trigger] traces::section_line(
                    inked,
                    i + 1 + (k - 1),
                    c,
                    0,
                    1,
                );
            assert(traces::lines_from(inked, i, captured)[k] == traces::section_line(
                inked,
                i + k,
                c,
                0,
                1,
            ));
        }
    }
}

/// The width of a trace.
pub open spec fn width_of<S>(t: TraceView<S>) -> S {
    match t {
        TraceView::Dot { width, .. } => width,
        TraceView::Line { width, .. } => width,
        TraceView::Curve { width, .. } => width,
    }
}

/// A stroke with pressures and without an entry is drawn by one line from each point to the
/// next, and each is as wide as the pressure halfway between the two asks for.
pub proof fn law_pressure_widens_each_segment(
    mark: MarkView<Milli>,
    weight: InkWeight<Milli>,
    top: Milli,
    i: int,
)
    requires
        strokes::mark_is_sound(mark),
        mark.pressures is Some,
        mark.entry_tail_points == 0,
        0 <= i < mark.points.len() - 1,
        arithmetic::within(mark.pressures->0[i], 1_000_000_000),
        arithmetic::within(mark.pressures->0[i + 1], 1_000_000_000),
    ensures
        ({
            let drawn = traces::traces_of_mark(mark, weight, top);
            let (p, q) = (mark.pressures->0[i], mark.pressures->0[i + 1]);
            &&& drawn.len() == mark.points.len() - 1
            &&& width_of(drawn[i]) == ink::width_for(weight, p + (q - p) * Milli(500))
        }),
{
    let bent = distance::parenthesis_varied(mark);
    laws::law_only_parentheses_bend(mark);
    let split = traces::split_near_join(bent);
    assert(split == bent);
    let inked = Inked { mark: split, pressures: split.pressures->0, ink: weight, top };
    lemma_lines_without_an_entry(inked, 0, Milli(0), i);
    let drawn = traces::traces_of_mark(mark, weight, top);
    assert(drawn == traces::lines_from(inked, 0, Milli(0)));
    let c = choose|c: Milli| drawn[i] == #[trigger] traces::section_line(inked, 0 + i, c, 0, 1);
    let (p, q) = (mark.pressures->0[i], mark.pressures->0[i + 1]);
    let (f, t) = (
        Milli::counted(0) / Milli::counted(1),
        Milli::counted(1) / Milli::counted(1),
    );
    lemma_section_width(inked, i, c);
    lemma_whole_share(1);
    arithmetic::lemma_once(q - p);
    assert(f + t == Milli(1_000));
}

proof fn lemma_section_width<S: Scalar>(inked: Inked<S>, i: int, captured: S)
    requires
        inked.mark.entry_tail_points == 0,
    ensures
        ({
            let (p, q) = (inked.pressures[i], inked.pressures[i + 1]);
            let (f, t) = (S::counted(0) / S::counted(1), S::counted(1) / S::counted(1));
            width_of(traces::section_line(inked, i, captured, 0, 1)) == ink::width_for(
                inked.ink,
                p + (q - p) * (f + t) * S::mil(500),
            )
        }),
{
}

/// An entry is drawn lightly: its first line has a quarter of the way from 0.15 to 0.47 of
/// the weight that the stroke has where the entry joins it, and its last the whole way.
pub proof fn law_entries_grow_from_their_tip<S: Scalar>(
    mark: MarkView<S>,
    weight: InkWeight<S>,
    top: S,
    i: int,
)
    requires
        strokes::mark_is_sound(mark),
        mark.pressures is Some,
        !mark.parenthesis,
        0 <= i < mark.entry_tail_points,
    ensures
        ({
            let drawn = traces::traces_of_mark(mark, weight, top);
            let n = mark.entry_tail_points as int;
            let (light, full) = (S::mil(150), S::mil(470));
            let share = (S::counted(i) + S::mil(1_000)) / S::counted(n);
            &&& n <= drawn.len()
            &&& drawn[i] == (TraceView::Line {
                from: page_place(top, mark.points[i]),
                to: page_place(top, mark.points[i + 1]),
                width: ink::width_for(weight, mark.pressures->0[n]) * (light + (full - light)
                    * share),
            })
        }),
{
    assert(distance::parenthesis_varied(mark) == mark);
    let split = traces::split_near_join(mark);
    let n = mark.entry_tail_points as int;
    laws::lemma_split_is_behind_the_entry(mark);
    let inked = Inked { mark: split, pressures: split.pressures->0, ink: weight, top };
    lemma_reach_is_inside(split.points, n, S::mil(0));
    let (last, captured) = traces::entry_reach(split.points, n, S::mil(0));
    let drawn = traces::traces_of_mark(mark, weight, top);
    assert(drawn == traces::inked_lines(inked));
    assert(drawn[i] == traces::entry_lines(inked, last)[i]);
}

/// While a stroke still grows out of its entry it is drawn in sections no longer than a
/// pixel and a half; otherwise each segment is one line.
pub proof fn law_growing_strokes_are_drawn_in_short_sections(
    inked: Inked<Milli>,
    i: int,
    captured: Milli,
)
    requires
        0 <= i < inked.mark.points.len() - 1,
        0 <= traces::length_between(inked.mark.points[i], inked.mark.points[i + 1]).0
            <= 1_000_000_000,
    ensures
        ({
            let growing = inked.mark.entry_tail_points > 0 && captured.0
                < inked.mark.entry_taper_length.0;
            let n = traces::section_lines(inked, i, captured).len();
            let length = traces::length_between(inked.mark.points[i], inked.mark.points[i + 1]).0;
            &&& growing ==> length <= 1_500 * n + 1 && (n == 1 || 1_500 * (n - 1) < length)
            &&& !growing ==> n == 1
        }),
{
    let length = traces::length_between(inked.mark.points[i], inked.mark.points[i + 1]);
    let l = length.0 as int;
    arithmetic::lemma_ratio(l, 1_500);
    let q = l * 1_000 / 1_500;
    assert((length / Milli::mil(1_500)).0 == q);
    let c = (length / Milli::mil(1_500)).ceiling();
    assert(c.0 == q + (-q) % 1_000);
    assert(1_500 * q <= l * 1_000 < 1_500 * q + 1_500);
}

/// The ink of a stroke with an entry grows from 0.47 of the weight at the join to its full
/// weight at the end of the taper.
pub proof fn law_growing_strokes_reach_their_weight(
    inked: Inked<Milli>,
    pressure: Milli,
    midpoint: Milli,
)
    requires
        inked.mark.entry_tail_points > 0,
        0 < inked.mark.entry_taper_length.0 <= 1_000_000,
        0 <= ink::width_for(inked.ink, pressure).0 <= 1_000_000,
        0 <= ink::width_for(
            inked.ink,
            inked.pressures[inked.mark.entry_tail_points as int],
        ).0 <= 1_000_000,
        0 <= midpoint.0 <= 1_000_000_000,
    ensures
        ({
            let full = ink::width_for(inked.ink, pressure);
            let join = ink::width_for(
                inked.ink,
                inked.pressures[inked.mark.entry_tail_points as int],
            );
            let width = traces::section_width(inked, pressure, midpoint);
            &&& midpoint.0 == 0 ==> width.0 == join.0 * 470 / 1_000
            &&& inked.mark.entry_taper_length.0 <= midpoint.0 ==> width == full
        }),
{
    let full = ink::width_for(inked.ink, pressure);
    let join = ink::width_for(inked.ink, inked.pressures[inked.mark.entry_tail_points as int]);
    let light = join * Milli(470);
    arithmetic::lemma_share(470, join.0 as int);
    let (m, d) = (midpoint.0 as int, inked.mark.entry_taper_length.0 as int);
    arithmetic::lemma_ratio(m, d);
    assert(m == 0 ==> m * 1_000 / d == 0) by (nonlinear_arith)
        requires
            0 < d,
    ;
    assert(d <= m ==> m * 1_000 / d >= 1_000) by (nonlinear_arith)
        requires
            0 < d,
            0 <= m,
    ;
    arithmetic::lemma_nothing_times(Milli(0));
    arithmetic::lemma_nothing_times(Milli(3_000) - Milli(2_000) * Milli(0));
    arithmetic::lemma_once(Milli(1_000));
    arithmetic::lemma_once(Milli(2_000));
    assert(Milli(1_000) * Milli(1_000) == Milli(1_000));
    arithmetic::lemma_nothing_times(full - light);
    arithmetic::lemma_once(full - light);
}

/// One section of a segment: from `k` to `k + 1` of `n` equal shares of it, with the weight
/// for the pressure in its middle and for how far into the captured stroke that lies. The
/// weight is full where there is no entry; else it grows from 0.47 of that at the join,
/// slowly at first and at last, until the end of the taper.
pub proof fn law_sections_share_their_segment<S: Scalar>(
    inked: Inked<S>,
    i: int,
    captured: S,
    k: int,
)
    requires
        0 <= i < inked.mark.points.len() - 1,
        0 <= k < traces::section_lines(inked, i, captured).len(),
    ensures
        ({
            let lines = traces::section_lines(inked, i, captured);
            let n = lines.len() as int;
            let (a, b) = (inked.mark.points[i], inked.mark.points[i + 1]);
            let (p, q) = (inked.pressures[i], inked.pressures[i + 1]);
            let (f, t) = (S::counted(k) / S::counted(n), S::counted(k + 1) / S::counted(n));
            let (x, y) = page_place(inked.top, a);
            let length = (b.0 - a.0).hypotenuse(b.1 - a.1);
            let full = ink::width_for(inked.ink, p + (q - p) * (f + t) * S::mil(500));
            let entry = inked.mark.entry_tail_points as int;
            let share = ((captured + length * (f + t) * S::mil(500))
                / inked.mark.entry_taper_length).held(S::mil(0), S::mil(1_000));
            let slow = share * share * (S::mil(3_000) - S::mil(2_000) * share);
            let light = ink::width_for(inked.ink, inked.pressures[entry]) * S::mil(470);
            lines[k] == (TraceView::Line {
                from: (x + (b.0 - a.0) * f, y + (b.1 - a.1) * f),
                to: (x + (b.0 - a.0) * t, y + (b.1 - a.1) * t),
                width: if entry == 0 {
                    full
                } else {
                    light + (full - light) * slow
                },
            })
        }),
{
}

/// The segments of a captured stroke are drawn one after the other, and each adds its length
/// to what lies before the next.
pub proof fn law_segments_add_their_length<S: Scalar>(inked: Inked<S>, i: int, captured: S)
    requires
        0 <= i < inked.mark.points.len(),
    ensures
        ({
            let points = inked.mark.points;
            traces::lines_from(inked, i, captured) == if i + 1 < points.len() {
                let (a, b) = (points[i], points[i + 1]);
                traces::section_lines(inked, i, captured) + traces::lines_from(
                    inked,
                    i + 1,
                    captured + (b.0 - a.0).hypotenuse(b.1 - a.1),
                )
            } else {
                Seq::empty()
            }
        }),
{
}

/// The light weight of an entry is kept on for the first of the captured stroke, segment by
/// segment until three quarters of a pixel have been drawn; from there on it grows.
pub proof fn law_entries_keep_light_behind_the_join<S: Scalar>(
    inked: Inked<S>,
    last: int,
    captured: S,
)
    requires
        0 <= last < inked.mark.points.len(),
    ensures
        ({
            let points = inked.mark.points;
            let (a, b) = (points[last], points[last + 1]);
            traces::entry_reach(points, last, captured) == if last + 1 < points.len() && captured
                < S::mil(750) {
                traces::entry_reach(
                    points,
                    last + 1,
                    captured + (b.0 - a.0).hypotenuse(b.1 - a.1),
                )
            } else {
                (last, captured)
            }
        }),
        forall|i: int|
            inked.mark.entry_tail_points <= i < last ==> #[trigger] traces::entry_lines(
                inked,
                last,
            )[i] == (TraceView::Line {
                from: page_place(inked.top, inked.mark.points[i]),
                to: page_place(inked.top, inked.mark.points[i + 1]),
                width: ink::width_for(
                    inked.ink,
                    inked.pressures[inked.mark.entry_tail_points as int],
                ) * S::mil(470),
            }),
        traces::inked_lines(inked) == if inked.mark.entry_tail_points > 0 {
            let (end, before) = traces::entry_reach(
                inked.mark.points,
                inked.mark.entry_tail_points as int,
                S::mil(0),
            );
            traces::entry_lines(inked, end) + traces::lines_from(inked, end, before)
        } else {
            traces::lines_from(inked, 0, S::mil(0))
        },
        traces::entry_lines(inked, last).len() == last,
{
}

} // verus!
