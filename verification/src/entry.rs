//! Entry strokes: the short lead-in with which a pen may start a free stem.
use crate::bits;
use crate::bits::{redraw, unit_interval};
use crate::scalar::Scalar;
use crate::strokes;
use crate::strokes::{Axis, Box2, BoxView, Mark, MarkView};
use vstd::prelude::*;

verus! {

/// Largest distance a stroke may start below its own top and still count as a
/// free stem end whose lead-in can be replaced, in thousandths of a pixel.
pub const ENTRY_MAX_START_BELOW_TOP: i32 = 10_000;

/// Largest horizontal travel of the replaced lead-in: a longer sweep along the
/// writing is a real entry stroke and must be left intact. In thousandths of a pixel.
pub const ENTRY_MAX_HORIZONTAL_REACH: i32 = 4_000;

/// How far an entry tapers into the captured stroke, in thousandths of a pixel.
pub const L_ENTRY_STROKE_TAPER_LENGTH: i32 = 9_000;

pub const ONE_ENTRY_STROKE_TAPER_LENGTH: i32 = 25_000;

/// The number of generated points of an entry.
pub const ENTRY_POINTS: usize = 4;

/// The first point from index `from` on that lies at least `depth` below height `y`.
pub open spec fn first_below<S: Scalar>(
    points: Seq<(S, S)>,
    from: int,
    y: S,
    depth: S,
) -> Option<int>
    decreases points.len() - from,
{
    if from >= points.len() {
        None
    } else if depth <= points[from].1 - y {
        Some(from)
    } else {
        first_below(points, from + 1, y, depth)
    }
}

/// The index and height of the peak among the first `n` points: the last one that is
/// not clearly below the peak before it.
pub open spec fn peak_among<S: Scalar>(points: Seq<(S, S)>, n: int) -> (int, S)
    decreases n,
{
    if n <= 0 {
        (0, S::topmost())
    } else {
        let (best, top) = peak_among(points, n - 1);
        if points[n - 1].1 <= top + S::mil(150) {
            (n - 1, points[n - 1].1)
        } else {
            (best, top)
        }
    }
}

/// Where the captured line has settled into its downstroke: just below the peak of a
/// tiny upward curl at its start, or at its very start.
pub open spec fn settled_index<S: Scalar>(points: Seq<(S, S)>, first_down: int) -> int {
    let peak = peak_among(points, first_down + 1).0;
    if peak == 0 {
        0
    } else {
        match first_below(points, peak, points[peak].1, S::mil(2_000)) {
            Some(i) => i,
            None => peak,
        }
    }
}

/// Whether a stroke is tall enough, and starts high enough, to be a free stem.
pub open spec fn is_stem<S: Scalar>(points: Seq<(S, S)>, glyph_top: S, glyph_height: S) -> bool {
    &&& points.len() > 0
    &&& !(glyph_height < S::mil(35_000))
    &&& !(strokes::highest(points, Axis::Y) - strokes::lowest(points, Axis::Y) < glyph_height
        * S::mil(600))
    &&& !(S::mil(ENTRY_MAX_START_BELOW_TOP as int) < points[0].1 - glyph_top)
}

/// The point where a synthetic entry may join a captured stroke, past a short lead-in;
/// none where the stroke is not a free stem end.
pub open spec fn join_of<S: Scalar>(
    points: Seq<(S, S)>,
    glyph_top: S,
    glyph_height: S,
) -> Option<int> {
    if !is_stem(points, glyph_top, glyph_height) {
        None
    } else {
        match first_below(points, 0, points[0].1, S::mil(3_000)) {
            None => None,
            Some(first_down) => {
                let join = settled_index(points, first_down);
                // A prefix that sweeps along the writing is a real entry stroke, and
                // the stroke must continue downward after the join.
                if S::mil(ENTRY_MAX_HORIZONTAL_REACH as int) < (points[join].0
                    - points[0].0).magnitude() {
                    None
                } else if first_below(points, join + 1, points[join].1, S::mil(3_000)) is None {
                    None
                } else {
                    Some(join)
                }
            },
        }
    }
}

/// A point of the cubic curve from `a` to `d` that `b` and `c` control.
pub open spec fn curve_at<S: Scalar>(a: S, b: S, c: S, d: S, t: S) -> S {
    let u = S::mil(1_000) - t;
    let three = S::mil(3_000);
    u * u * u * a + three * u * u * t * b + three * u * t * t * c + t * t * t * d
}

/// How far an entry reaches to the left.
pub open spec fn entry_length<S: Scalar>(bits: u64, digit_one: bool) -> S {
    S::mil(if digit_one { 2_800 } else { 4_200 }) + S::mil(if digit_one { 1_100 } else { 1_300 })
        * bits::unit_of::<S>(bits::redrawn(bits, 29))
}

/// How far the tip of an entry lies below the point where it joins.
pub open spec fn entry_drop<S: Scalar>(bits: u64, digit_one: bool) -> S {
    S::mil(if digit_one { -200 } else { -1_000 }) + S::mil(if digit_one { 3_200 } else { 4_000 })
        * bits::unit_of::<S>(bits::redrawn(bits, 13))
}

/// Where an entry that joins at `start` begins.
pub open spec fn entry_tip<S: Scalar>(start: (S, S), bits: u64, digit_one: bool) -> (S, S) {
    (start.0 - entry_length(bits, digit_one), start.1 + entry_drop(bits, digit_one))
}

/// The two points that control the curve of an entry: one near its tip, and one before
/// `start` in the direction of the downstroke.
pub open spec fn entry_controls<S: Scalar>(
    start: (S, S),
    downstroke: (S, S),
    bits: u64,
    digit_one: bool,
) -> ((S, S), (S, S)) {
    let (dx, dy) = (downstroke.0 - start.0, downstroke.1 - start.1);
    let distance = dx.hypotenuse(dy);
    let tip = entry_tip(start, bits, digit_one);
    (
        (
            tip.0 + entry_length::<S>(bits, digit_one) * S::mil(450),
            tip.1 - S::mil(800) - entry_drop::<S>(bits, digit_one).larger(S::mil(0)) * S::mil(650),
        ),
        (start.0 - S::mil(2_000) * dx / distance, start.1 - S::mil(2_000) * dy / distance),
    )
}

/// The generated points of an entry that joins at `start` and follows the direction to
/// `downstroke`: a curve from a tip on the left.
pub open spec fn entry_curve<S: Scalar>(
    start: (S, S),
    downstroke: (S, S),
    bits: u64,
    digit_one: bool,
) -> Seq<(S, S)> {
    let tip = entry_tip(start, bits, digit_one);
    let (a, b) = entry_controls(start, downstroke, bits, digit_one);
    Seq::new(
        ENTRY_POINTS as nat,
        |i: int|
            {
                let t = S::counted(i) / S::mil(4_000);
                (curve_at(tip.0, a.0, b.0, start.0, t), curve_at(tip.1, a.1, b.1, start.1, t))
            },
    )
}

/// The pressures of a mark, ordinary pressure throughout where it has none.
pub open spec fn pressures_or_ordinary<S: Scalar>(mark: MarkView<S>) -> Seq<S> {
    match mark.pressures {
        Some(p) => p,
        None => Seq::new(mark.points.len(), |i: int| S::mil(500)),
    }
}

/// The mark with an entry in place of its points before `join`.
pub open spec fn with_entry<S: Scalar>(
    mark: MarkView<S>,
    join: int,
    bits: u64,
    digit_one: bool,
) -> MarkView<S> {
    let points = mark.points;
    let start = points[join];
    let down = first_below(points, join + 1, start.1, S::mil(3_000))->0;
    let pressures = pressures_or_ordinary(mark);
    MarkView {
        points: entry_curve(start, points[down], bits, digit_one) + points.skip(join),
        pressures: Some(Seq::new(ENTRY_POINTS as nat, |i: int| pressures[join]) + pressures.skip(
            join,
        )),
        parenthesis: mark.parenthesis,
        entry_tail_points: ENTRY_POINTS,
        entry_taper_length: S::mil(
            if digit_one {
                ONE_ENTRY_STROKE_TAPER_LENGTH as int
            } else {
                L_ENTRY_STROKE_TAPER_LENGTH as int
            },
        ),
    }
}

/// The mark with an entry stroke, where it is a free stem end.
pub open spec fn entry_added<S: Scalar>(
    mark: MarkView<S>,
    bits: u64,
    glyph_top: S,
    glyph_height: S,
    digit_one: bool,
) -> Option<MarkView<S>> {
    match join_of(mark.points, glyph_top, glyph_height) {
        Some(join) => Some(with_entry(mark, join, bits, digit_one)),
        None => None,
    }
}

/// The first mark from index `from` on that has a generated entry.
pub open spec fn first_entry<S>(marks: Seq<MarkView<S>>, from: int) -> Option<int>
    decreases marks.len() - from,
{
    if from >= marks.len() {
        None
    } else if marks[from].entry_tail_points > 0 {
        Some(from)
    } else {
        first_entry(marks, from + 1)
    }
}

/// Whether the previous stroke ended close enough, and low enough, to lean towards.
pub open spec fn is_within_reach<S: Scalar>(horizontal: S, vertical: S) -> bool {
    &&& S::mil(0) <= horizontal
    &&& horizontal <= S::mil(32_000)
    &&& S::mil(10_000) <= vertical
    &&& vertical <= S::mil(100_000)
}

/// The points with the first `count` lowered, the most at the tip and less towards
/// the join.
pub open spec fn lowered<S: Scalar>(
    points: Seq<(S, S)>,
    count: int,
    adjustment: S,
) -> Seq<(S, S)> {
    Seq::new(
        points.len(),
        |i: int|
            if i < count {
                let remaining = S::mil(1_000) - S::counted(i) / S::counted(count);
                (points[i].0, points[i].1 + adjustment * remaining * remaining)
            } else {
                points[i]
            },
    )
}

/// The box with its extent round the baseline measured from its ink.
pub open spec fn remeasured<S: Scalar>(b: BoxView<S>) -> BoxView<S> {
    match strokes::extent(b.marks, Axis::Y) {
        Some((top, bottom)) => BoxView {
            above: (-top).larger(S::mil(0)),
            below: bottom.larger(S::mil(0)),
            ..b
        },
        None => b,
    }
}

/// The box with its entry bent towards where the previous stroke ended.
pub open spec fn entry_adjusted<S: Scalar>(
    b: BoxView<S>,
    previous_end: (S, S),
    x: S,
) -> BoxView<S> {
    match first_entry(b.marks, 0) {
        None => b,
        Some(k) => {
            let mark = b.marks[k];
            let count = mark.entry_tail_points as int;
            let join = mark.points[count];
            let horizontal = x + join.0 - previous_end.0;
            let vertical = previous_end.1 - join.1;
            if !is_within_reach(horizontal, vertical) {
                b
            } else {
                let desired = (vertical * S::mil(235)).held(S::mil(4_000), S::mil(16_000));
                let adjustment = desired - (mark.points[0].1 - join.1);
                let bent = strokes::with_points(mark, lowered(mark.points, count, adjustment));
                remeasured(BoxView { marks: b.marks.update(k, bent), ..b })
            }
        },
    }
}

/// What is found lies where it was looked for.
proof fn lemma_first_below_range<S: Scalar>(points: Seq<(S, S)>, from: int, y: S, depth: S)
    requires
        0 <= from,
    ensures
        first_below(points, from, y, depth) matches Some(i) ==> from <= i < points.len(),
    decreases points.len() - from,
{
    if from < points.len() && !(depth <= points[from].1 - y) {
        lemma_first_below_range(points, from + 1, y, depth);
    }
}

proof fn lemma_peak_range<S: Scalar>(points: Seq<(S, S)>, n: int)
    requires
        1 <= n,
    ensures
        0 <= peak_among(points, n).0 < n,
    decreases n,
{
    reveal_with_fuel(peak_among, 2);
    if n > 1 {
        lemma_peak_range(points, n - 1);
    }
}

/// A join is a point of the stroke that has points after it.
pub proof fn lemma_join_range<S: Scalar>(points: Seq<(S, S)>, glyph_top: S, glyph_height: S)
    ensures
        join_of(points, glyph_top, glyph_height) matches Some(join) ==> {
            &&& 0 <= join < points.len() - 1
            &&& first_below(points, join + 1, points[join].1, S::mil(3_000)) matches Some(down)
                && join < down < points.len()
        },
{
    if let Some(join) = join_of(points, glyph_top, glyph_height) {
        let first_down = first_below(points, 0, points[0].1, S::mil(3_000))->0;
        lemma_first_below_range(points, 0, points[0].1, S::mil(3_000));
        lemma_peak_range(points, first_down + 1);
        let peak = peak_among(points, first_down + 1).0;
        lemma_first_below_range(points, peak, points[peak].1, S::mil(2_000));
        lemma_first_below_range(points, join + 1, points[join].1, S::mil(3_000));
    }
}

/// Adding an entry keeps a sound mark sound: every point keeps a pressure, and the
/// captured stroke goes on after the generated points.
pub proof fn law_entry_keeps_marks_sound<S: Scalar>(
    mark: MarkView<S>,
    bits: u64,
    glyph_top: S,
    glyph_height: S,
    digit_one: bool,
)
    requires
        strokes::mark_is_sound(mark),
    ensures
        entry_added(mark, bits, glyph_top, glyph_height, digit_one) matches Some(m)
            ==> strokes::mark_is_sound(m),
{
    lemma_join_range(mark.points, glyph_top, glyph_height);
}

/// Whether a stroke begins with an entry: four generated points before the captured ones,
/// each with the pressure of the point where the entry joins.
pub open spec fn begins_with_an_entry<S>(mark: MarkView<S>) -> bool {
    &&& mark.entry_tail_points == ENTRY_POINTS
    &&& ENTRY_POINTS < mark.points.len()
    &&& mark.pressures is Some
    &&& mark.pressures->0.len() == mark.points.len()
    &&& forall|i: int|
        0 <= i < ENTRY_POINTS ==> #[trigger] mark.pressures->0[i]
            == mark.pressures->0[ENTRY_POINTS as int]
}

/// The points of an entry are drawn with the pressure of the point where it joins.
pub proof fn law_entries_have_the_pressure_of_their_join<S: Scalar>(
    mark: MarkView<S>,
    bits: u64,
    glyph_top: S,
    glyph_height: S,
    digit_one: bool,
)
    requires
        strokes::mark_is_sound(mark),
    ensures
        entry_added(mark, bits, glyph_top, glyph_height, digit_one) matches Some(m)
            ==> begins_with_an_entry(m),
{
    lemma_join_range(mark.points, glyph_top, glyph_height);
}

/// From the join on, an entry leaves the captured stroke as it was.
pub proof fn law_entry_keeps_the_captured_stroke<S: Scalar>(
    mark: MarkView<S>,
    bits: u64,
    glyph_top: S,
    glyph_height: S,
    digit_one: bool,
)
    ensures
        entry_added(mark, bits, glyph_top, glyph_height, digit_one) matches Some(m) ==> {
            &&& m.points.skip(ENTRY_POINTS as int) == mark.points.skip(
                join_of(mark.points, glyph_top, glyph_height)->0,
            )
            &&& m.points.len() == ENTRY_POINTS + mark.points.len() - join_of(
                mark.points,
                glyph_top,
                glyph_height,
            )->0
        },
{
    lemma_join_range(mark.points, glyph_top, glyph_height);
    if let Some(m) = entry_added(mark, bits, glyph_top, glyph_height, digit_one) {
        let join = join_of(mark.points, glyph_top, glyph_height)->0;
        assert(m.points.skip(ENTRY_POINTS as int) =~= mark.points.skip(join));
    }
}

proof fn lemma_first_entry_range<S>(marks: Seq<MarkView<S>>, from: int)
    requires
        0 <= from,
    ensures
        first_entry(marks, from) matches Some(k) ==> from <= k < marks.len()
            && marks[k].entry_tail_points > 0,
    decreases marks.len() - from,
{
    if from < marks.len() && marks[from].entry_tail_points == 0 {
        lemma_first_entry_range(marks, from + 1);
    }
}

/// Bending an entry moves generated points only: the number of points, the point where
/// the entry joins and everything after it stay, and so do the pressures.
pub proof fn law_bending_keeps_the_join<S: Scalar>(
    b: BoxView<S>,
    previous_end: (S, S),
    x: S,
    k: int,
    i: int,
)
    requires
        strokes::marks_are_sound(b.marks),
        0 <= k < b.marks.len(),
        b.marks[k].entry_tail_points <= i < b.marks[k].points.len(),
    ensures
        entry_adjusted(b, previous_end, x).marks.len() == b.marks.len(),
        entry_adjusted(b, previous_end, x).marks[k].points.len() == b.marks[k].points.len(),
        entry_adjusted(b, previous_end, x).marks[k].points[i] == b.marks[k].points[i],
        entry_adjusted(b, previous_end, x).marks[k].pressures == b.marks[k].pressures,
        strokes::marks_are_sound(entry_adjusted(b, previous_end, x).marks),
{
    lemma_first_entry_range(b.marks, 0);
    let after = entry_adjusted(b, previous_end, x);
    assert forall|j: int| 0 <= j < after.marks.len() implies strokes::mark_is_sound(
        #[trigger] after.marks[j],
    ) by {
        assert(strokes::mark_is_sound(b.marks[j]));
    }
}

fn find_below<S: Scalar>(points: &Vec<(S, S)>, from: usize, y: S, depth: S) -> (r: Option<usize>)
    ensures
        match r {
            Some(i) => first_below(points@, from as int, y, depth) == Some(i as int) && from <= i
                < points.len(),
            None => first_below(points@, from as int, y, depth) is None,
        },
{
    let mut i: usize = from;
    while i < points.len()
        invariant
            from <= i,
            first_below(points@, from as int, y, depth) == first_below(
                points@,
                i as int,
                y,
                depth,
            ),
        decreases points.len() - i,
    {
        if depth.le(points[i].1.minus(y)) {
            return Some(i);
        }
        i += 1;
    }
    None
}

fn find_peak<S: Scalar>(points: &Vec<(S, S)>, count: usize) -> (r: usize)
    requires
        1 <= count <= points.len(),
    ensures
        r == peak_among(points@, count as int).0,
        r < count,
{
    let mut best: usize = 0;
    let mut top = S::infinity();
    let mut i: usize = 0;
    while i < count
        invariant
            i <= count,
            count <= points.len(),
            best as int == peak_among(points@, i as int).0,
            top == peak_among(points@, i as int).1,
            best < i || best == 0,
        decreases count - i,
    {
        let y = points[i].1;
        if y.le(top.plus(S::milli(150))) {
            best = i;
            top = y;
        }
        i += 1;
    }
    best
}

/// The point where a synthetic entry may join a captured stroke: past a short
/// lead-in, where the stroke has settled into its downstroke. `None` when the
/// stroke is not a free stem end.
pub fn entry_tail_join<S: Scalar>(mark: &Mark<S>, glyph_top: S, glyph_height: S) -> (r: Option<
    usize,
>)
    ensures
        match r {
            Some(join) => join_of(mark.points@, glyph_top, glyph_height) == Some(join as int)
                && join < mark.points.len() - 1,
            None => join_of(mark.points@, glyph_top, glyph_height) is None,
        },
{
    proof {
        lemma_join_range(mark.points@, glyph_top, glyph_height);
    }
    if mark.points.len() == 0 {
        return None;
    }
    let first = mark.points[0];
    let (stroke_top, stroke_bottom) = strokes::range_along(&mark.points, Axis::Y);
    if glyph_height.lt(S::milli(35_000)) || stroke_bottom.minus(stroke_top).lt(
        glyph_height.times(S::milli(600)),
    ) {
        return None;
    }
    // A stroke that starts far below the top is not a stem end; leave it alone.
    if S::milli(ENTRY_MAX_START_BELOW_TOP).lt(first.1.minus(glyph_top)) {
        return None;
    }
    let first_down = match find_below(&mark.points, 0, first.1, S::milli(3_000)) {
        Some(i) => i,
        None => return None,
    };
    // A tiny upward curl at the start is replaced; join just below its peak,
    // where the captured line has settled into its downstroke.
    let peak = find_peak(&mark.points, first_down + 1);
    let join = if peak == 0 {
        0
    } else {
        match find_below(&mark.points, peak, mark.points[peak].1, S::milli(2_000)) {
            Some(i) => i,
            None => peak,
        }
    };
    let start = mark.points[join];
    // A prefix that sweeps along the writing is a real entry stroke, not a stub.
    if S::milli(ENTRY_MAX_HORIZONTAL_REACH).lt(start.0.minus(first.0).abs()) {
        return None;
    }
    // The stroke must continue downward after the join.
    match find_below(&mark.points, join + 1, start.1, S::milli(3_000)) {
        Some(_) => Some(join),
        None => None,
    }
}

fn curve<S: Scalar>(a: S, b: S, c: S, d: S, t: S) -> (r: S)
    ensures
        r == curve_at(a, b, c, d, t),
{
    let u = S::milli(1_000).minus(t);
    let three = S::milli(3_000);
    u.times(u).times(u).times(a).plus(three.times(u).times(u).times(t).times(b)).plus(
        three.times(u).times(t).times(t).times(c),
    ).plus(t.times(t).times(t).times(d))
}

fn draw_entry<S: Scalar>(
    start: (S, S),
    downstroke: (S, S),
    bits: u64,
    digit_one: bool,
) -> (r: Vec<(S, S)>)
    ensures
        r@ == entry_curve(start, downstroke, bits, digit_one),
{
    let dx = downstroke.0.minus(start.0);
    let dy = downstroke.1.minus(start.1);
    let distance = dx.hypot(dy);
    let (shortest, longer): (i32, i32) = if digit_one {
        (2_800, 1_100)
    } else {
        (4_200, 1_300)
    };
    let (highest, deeper): (i32, i32) = if digit_one {
        (-200, 3_200)
    } else {
        (-1_000, 4_000)
    };
    let length = S::milli(shortest).plus(
        S::milli(longer).times(unit_interval::<S>(redraw(bits, 29))),
    );
    let tip_drop = S::milli(highest).plus(
        S::milli(deeper).times(unit_interval::<S>(redraw(bits, 13))),
    );
    let tip = (start.0.minus(length), start.1.plus(tip_drop));
    let control_a = (
        tip.0.plus(length.times(S::milli(450))),
        tip.1.minus(S::milli(800)).minus(tip_drop.max(S::milli(0)).times(S::milli(650))),
    );
    // Follow the direction of the captured downstroke at the join instead of
    // adding a short corner that looks pasted onto the letter.
    let control_b = (
        start.0.minus(S::milli(2_000).times(dx).over(distance)),
        start.1.minus(S::milli(2_000).times(dy).over(distance)),
    );
    let mut entry: Vec<(S, S)> = Vec::new();
    let ghost expected = entry_curve(start, downstroke, bits, digit_one);
    let mut i: usize = 0;
    while i < ENTRY_POINTS
        invariant
            i <= ENTRY_POINTS,
            entry.len() == i,
            forall|k: int|
                0 <= k < ENTRY_POINTS ==> expected[k] == (
                    curve_at(
                        tip.0,
                        control_a.0,
                        control_b.0,
                        start.0,
                        S::counted(k) / S::mil(4_000),
                    ),
                    curve_at(
                        tip.1,
                        control_a.1,
                        control_b.1,
                        start.1,
                        S::counted(k) / S::mil(4_000),
                    ),
                ),
            forall|k: int| 0 <= k < i ==> entry@[k] == expected[k],
        decreases ENTRY_POINTS - i,
    {
        let t = S::whole(i).over(S::milli(4_000));
        entry.push(
            (
                curve(tip.0, control_a.0, control_b.0, start.0, t),
                curve(tip.1, control_a.1, control_b.1, start.1, t),
            ),
        );
        i += 1;
    }
    proof {
        assert(entry@ =~= expected);
    }
    entry
}

fn repeated<S: Scalar>(value: S, count: usize) -> (r: Vec<S>)
    ensures
        r@ == Seq::new(count as nat, |i: int| value),
{
    let mut r: Vec<S> = Vec::new();
    let mut i: usize = 0;
    while i < count
        invariant
            i <= count,
            r.len() == i,
            forall|k: int| 0 <= k < i ==> r@[k] == value,
        decreases count - i,
    {
        r.push(value);
        i += 1;
    }
    proof {
        assert(r@ =~= Seq::new(count as nat, |i: int| value));
    }
    r
}

/// A brief entry stroke for a free stem end. Replaces a short isolated lead-in
/// when the captured stroke has one.
pub fn add_entry_tail<S: Scalar>(
    mark: &mut Mark<S>,
    bits: u64,
    glyph_top: S,
    glyph_height: S,
    digit_one: bool,
) -> (r: bool)
    requires
        strokes::mark_is_sound(old(mark)@),
    ensures
        match entry_added(old(mark)@, bits, glyph_top, glyph_height, digit_one) {
            Some(m) => r && final(mark)@ == m,
            None => !r && final(mark)@ == old(mark)@,
        },
        strokes::mark_is_sound(final(mark)@),
{
    proof {
        law_entry_keeps_marks_sound(old(mark)@, bits, glyph_top, glyph_height, digit_one);
        lemma_join_range(mark.points@, glyph_top, glyph_height);
    }
    let join = match entry_tail_join(mark, glyph_top, glyph_height) {
        Some(join) => join,
        None => return false,
    };
    let start = mark.points[join];
    let downstroke = match find_below(&mark.points, join + 1, start.1, S::milli(3_000)) {
        Some(i) => mark.points[i],
        None => start,
    };
    let mut entry = draw_entry(start, downstroke, bits, digit_one);
    let mut pressures = match &mark.pressures {
        Some(p) => strokes::copied(p.as_slice()),
        None => repeated(S::milli(500), mark.points.len()),
    };
    let mut led_in = repeated(pressures[join], ENTRY_POINTS);
    let mut late_pressures = pressures.split_off(join);
    led_in.append(&mut late_pressures);
    let mut captured = mark.points.split_off(join);
    entry.append(&mut captured);
    mark.points = entry;
    mark.pressures = Some(led_in);
    mark.entry_tail_points = ENTRY_POINTS;
    mark.entry_taper_length =
    S::milli(
        if digit_one {
            ONE_ENTRY_STROKE_TAPER_LENGTH
        } else {
            L_ENTRY_STROKE_TAPER_LENGTH
        },
    );
    proof {
        let m = with_entry(old(mark)@, join as int, bits, digit_one);
        assert(mark@.points =~= m.points);
        assert(mark@.pressures->0 =~= m.pressures->0);
        assert(mark@ =~= m);
    }
    true
}

/// Bias an adjacent entry toward the previous pen lift, without drawing a
/// line all the way to it. Preserve the tangent at the recorded downstroke.
pub fn adjust_entry_for_previous_stroke<S: Scalar>(
    box2: &mut Box2<S>,
    previous_end: (S, S),
    x: S,
)
    requires
        strokes::marks_are_sound(old(box2)@.marks),
    ensures
        final(box2)@ == entry_adjusted(old(box2)@, previous_end, x),
        strokes::marks_are_sound(final(box2)@.marks),
{
    let ghost before = box2@;
    let mut k: usize = 0;
    while k < box2.marks.len() && box2.marks[k].entry_tail_points == 0
        invariant
            k <= box2.marks.len(),
            box2@ == before,
            first_entry(before.marks, 0) == first_entry(before.marks, k as int),
        decreases box2.marks.len() - k,
    {
        assert(before.marks[k as int] == box2.marks@[k as int]@);
        k += 1;
    }
    if k == box2.marks.len() {
        return;
    }
    proof {
        assert(before.marks[k as int] == box2.marks@[k as int]@);
        assert(strokes::mark_is_sound(before.marks[k as int]));
    }
    let count = box2.marks[k].entry_tail_points;
    let join = box2.marks[k].points[count];
    let horizontal = x.plus(join.0).minus(previous_end.0);
    let vertical = previous_end.1.minus(join.1);
    if !(S::milli(0).le(horizontal) && horizontal.le(S::milli(32_000)) && S::milli(10_000).le(
        vertical,
    ) && vertical.le(S::milli(100_000))) {
        return;
    }
    let desired_drop = vertical.times(S::milli(235)).clamp(S::milli(4_000), S::milli(16_000));
    let adjustment = desired_drop.minus(box2.marks[k].points[0].1.minus(join.1));
    let ghost points = before.marks[k as int].points;
    let mut i: usize = 0;
    while i < count
        invariant
            i <= count,
            k < box2.marks.len(),
            box2.marks.len() == before.marks.len(),
            count < points.len(),
            points == before.marks[k as int].points,
            box2@ == (BoxView { marks: box2@.marks, ..before }),
            forall|j: int|
                0 <= j < before.marks.len() && j != k ==> box2@.marks[j] == before.marks[j],
            box2@.marks[k as int] == strokes::with_points(
                before.marks[k as int],
                box2.marks@[k as int].points@,
            ),
            box2.marks@[k as int].points.len() == points.len(),
            forall|j: int|
                0 <= j < i ==> box2.marks@[k as int].points@[j] == lowered(
                    points,
                    count as int,
                    adjustment,
                )[j],
            forall|j: int| i <= j < points.len() ==> box2.marks@[k as int].points@[j] == points[j],
        decreases count - i,
    {
        let remaining = S::milli(1_000).minus(S::whole(i).over(S::whole(count)));
        let point = box2.marks[k].points[i];
        box2.marks[k].points[i] = (
            point.0,
            point.1.plus(adjustment.times(remaining).times(remaining)),
        );
        i += 1;
    }
    proof {
        let bent = strokes::with_points(
            before.marks[k as int],
            lowered(points, count as int, adjustment),
        );
        assert(box2.marks@[k as int].points@ =~= bent.points);
        assert(box2@.marks =~= before.marks.update(k as int, bent));
        law_bending_keeps_the_join(before, previous_end, x, k as int, count as int);
    }
    if let Some((top, bottom)) = strokes::ink_extent(&box2.marks, Axis::Y) {
        box2.above = top.negated().max(S::milli(0));
        box2.below = bottom.max(S::milli(0));
    }
}

} // verus!
