//! What boxes hold.
use crate::entry;
use crate::exact::arithmetic;
use crate::glyphs;
use crate::glyphs::Slot;
use crate::milli::Milli;
use crate::node;
use crate::pen;
use crate::pen::Pen;
use crate::profile;
use crate::scalar::Scalar;
use crate::strokes;
use crate::strokes::{Axis, BoxView, MarkView};
use vstd::prelude::*;

verus! {

/// Whether every stroke of a box lies within its height.
pub open spec fn holds_its_ink(b: BoxView<Milli>) -> bool {
    forall|i: int, j: int|
        strokes::has_point(b.marks, i, j) ==> -b.above.0 <= (#[trigger] b.marks[i].points[j]).1.0
            <= b.below.0
}

/// Whether no point of a box has overflowed downwards.
pub open spec fn is_finite_ink(b: BoxView<Milli>) -> bool {
    forall|i: int, j: int|
        strokes::has_point(b.marks, i, j) ==> (#[trigger] b.marks[i].points[j]).1.0 > i64::MIN
}

/// Whether every point lies within a hundred thousand pixels of the origin.
pub open spec fn ink_is_modest(marks: Seq<MarkView<Milli>>) -> bool {
    forall|i: int, j: int|
        strokes::has_point(marks, i, j) ==> arithmetic::within(
            (#[trigger] marks[i].points[j]).0,
            100_000_000,
        ) && arithmetic::within(marks[i].points[j].1, 100_000_000)
}

/// Whether a box and its strokes stay within a hundred thousand pixels.
pub open spec fn is_modest(b: BoxView<Milli>) -> bool {
    &&& arithmetic::within(b.width, 100_000_000)
    &&& arithmetic::within(b.above, 100_000_000)
    &&& arithmetic::within(b.below, 100_000_000)
    &&& arithmetic::within(b.script_drop, 100_000_000)
    &&& ink_is_modest(b.marks)
}

proof fn lemma_least_is_below(start: Milli, xs: Seq<Milli>, i: int)
    requires
        0 <= i < xs.len(),
    ensures
        strokes::least_from(start, xs).0 <= xs[i].0,
    decreases xs.len(),
{
    if i < xs.len() - 1 {
        lemma_least_is_below(start, xs.drop_last(), i);
    }
}

proof fn lemma_greatest_is_above(start: Milli, xs: Seq<Milli>, i: int)
    requires
        0 <= i < xs.len(),
    ensures
        xs[i].0 <= strokes::greatest_from(start, xs).0,
    decreases xs.len(),
{
    if i < xs.len() - 1 {
        lemma_greatest_is_above(start, xs.drop_last(), i);
    }
}

proof fn lemma_least_is_bounded(start: Milli, xs: Seq<Milli>, bound: int)
    requires
        forall|m: int| 0 <= m < xs.len() ==> arithmetic::within(#[trigger] xs[m], bound),
    ensures
        strokes::least_from(start, xs).0 >= -bound || strokes::least_from(start, xs) == start,
    decreases xs.len(),
{
    if xs.len() > 0 {
        lemma_least_is_bounded(start, xs.drop_last(), bound);
    }
}

proof fn lemma_greatest_is_bounded(start: Milli, xs: Seq<Milli>, bound: int)
    requires
        forall|m: int| 0 <= m < xs.len() ==> arithmetic::within(#[trigger] xs[m], bound),
    ensures
        strokes::greatest_from(start, xs).0 <= bound || strokes::greatest_from(start, xs) == start,
    decreases xs.len(),
{
    if xs.len() > 0 {
        lemma_greatest_is_bounded(start, xs.drop_last(), bound);
    }
}

/// The extent of some strokes is reached by their points.
pub proof fn lemma_extent_is_reached(marks: Seq<MarkView<Milli>>, i: int, j: int) -> (r: (
    Milli,
    Milli,
))
    requires
        strokes::has_point(marks, i, j),
        ink_is_modest(marks),
    ensures
        strokes::extent(marks, Axis::X) == Some(r),
        r.0.0 <= marks[i].points[j].0.0 <= r.1.0,
        arithmetic::within(r.0, 100_000_000),
        arithmetic::within(r.1, 100_000_000),
{
    let points = strokes::all_points(marks);
    let xs = strokes::coordinates(points, Axis::X);
    let k = strokes::lemma_points_are_among_all(marks, i, j);
    lemma_least_is_below(Milli::topmost(), xs, k);
    lemma_greatest_is_above(Milli::bottommost(), xs, k);
    assert forall|m: int| 0 <= m < xs.len() implies arithmetic::within(
        #[trigger] xs[m],
        100_000_000,
    ) by {
        let (a, b) = strokes::lemma_all_points_are_from_marks(marks, m);
    }
    lemma_least_is_bounded(Milli::topmost(), xs, 100_000_000);
    lemma_greatest_is_bounded(Milli::bottommost(), xs, 100_000_000);
    (strokes::lowest(points, Axis::X), strokes::highest(points, Axis::X))
}

proof fn lemma_least_is_reached(start: Milli, xs: Seq<Milli>) -> (k: int)
    ensures
        strokes::least_from(start, xs) == start || 0 <= k < xs.len() && xs[k]
            == strokes::least_from(start, xs),
    decreases xs.len(),
{
    if xs.len() == 0 {
        0
    } else {
        let before = strokes::least_from(start, xs.drop_last());
        let k = lemma_least_is_reached(start, xs.drop_last());
        if before.0 <= xs.last().0 {
            k
        } else {
            xs.len() - 1
        }
    }
}

proof fn lemma_greatest_is_reached(start: Milli, xs: Seq<Milli>) -> (k: int)
    ensures
        strokes::greatest_from(start, xs) == start || 0 <= k < xs.len() && xs[k]
            == strokes::greatest_from(start, xs),
    decreases xs.len(),
{
    if xs.len() == 0 {
        0
    } else {
        let before = strokes::greatest_from(start, xs.drop_last());
        let k = lemma_greatest_is_reached(start, xs.drop_last());
        if before.0 >= xs.last().0 {
            k
        } else {
            xs.len() - 1
        }
    }
}

/// Whether some strokes lie between two heights and touch both.
pub open spec fn spans(marks: Seq<MarkView<Milli>>, top: Milli, bottom: Milli) -> bool {
    &&& forall|i: int, j: int|
        strokes::has_point(marks, i, j) ==> top.0 <= (#[trigger] marks[i].points[j]).1.0 <= bottom.0
    &&& exists|i: int, j: int|
        strokes::has_point(marks, i, j) && (#[trigger] marks[i].points[j]).1 == top
    &&& exists|i: int, j: int|
        strokes::has_point(marks, i, j) && (#[trigger] marks[i].points[j]).1 == bottom
}

/// Strokes span the heights between their lowest and their highest point.
pub proof fn lemma_ink_spans_its_extent(marks: Seq<MarkView<Milli>>)
    requires
        strokes::all_points(marks).len() > 0,
        ink_is_modest(marks),
    ensures
        spans(
            marks,
            strokes::lowest(strokes::all_points(marks), Axis::Y),
            strokes::highest(strokes::all_points(marks), Axis::Y),
        ),
        arithmetic::within(strokes::lowest(strokes::all_points(marks), Axis::Y), 100_000_000),
        arithmetic::within(strokes::highest(strokes::all_points(marks), Axis::Y), 100_000_000),
{
    let points = strokes::all_points(marks);
    let ys = strokes::coordinates(points, Axis::Y);
    let (low, high) = (strokes::lowest(points, Axis::Y), strokes::highest(points, Axis::Y));
    assert forall|i: int, j: int| strokes::has_point(marks, i, j) implies low.0 <= (
    #[trigger] marks[i].points[j]).1.0 <= high.0 by {
        let k = strokes::lemma_points_are_among_all(marks, i, j);
        lemma_least_is_below(Milli::topmost(), ys, k);
        lemma_greatest_is_above(Milli::bottommost(), ys, k);
    }
    let (a, b) = strokes::lemma_all_points_are_from_marks(marks, 0);
    lemma_least_is_below(Milli::topmost(), ys, 0);
    lemma_greatest_is_above(Milli::bottommost(), ys, 0);
    let k = lemma_least_is_reached(Milli::topmost(), ys);
    let (c, d) = strokes::lemma_all_points_are_from_marks(marks, k);
    assert(strokes::has_point(marks, c, d) && marks[c].points[d].1 == low);
    let k = lemma_greatest_is_reached(Milli::bottommost(), ys);
    let (e, f) = strokes::lemma_all_points_are_from_marks(marks, k);
    assert(strokes::has_point(marks, e, f) && marks[e].points[f].1 == high);
}

/// No ink is clipped: a measured box reaches as far up and down as its strokes do.
pub proof fn law_measured_boxes_hold_their_ink(b: BoxView<Milli>)
    requires
        is_finite_ink(b),
    ensures
        holds_its_ink(entry::remeasured(b)),
{
    assert forall|i: int, j: int| strokes::has_point(b.marks, i, j) implies -entry::remeasured(b).above.0
        <= (#[trigger] b.marks[i].points[j]).1.0 <= entry::remeasured(b).below.0 by {
        let k = strokes::lemma_points_are_among_all(b.marks, i, j);
        let ys = strokes::coordinates(strokes::all_points(b.marks), Axis::Y);
        lemma_least_is_below(Milli::topmost(), ys, k);
        lemma_greatest_is_above(Milli::bottommost(), ys, k);
    }
}

/// The box of a sample is measured by its ink.
pub proof fn lemma_sample_is_measured<S: Scalar>(pen: Pen<S>, key: Seq<char>) -> (r: BoxView<S>)
    requires
        pen::sample_written(pen, key).1 is Ok,
    ensures
        pen::sample_written(pen, key).1->Ok_0 == entry::remeasured(r),
        r.marks == pen::sample_written(pen, key).1->Ok_0.marks,
{
    let glyph = profile::collected(pen.glyphs, key)->Ok_0;
    let variant = pen::chosen_variant(glyph, pen.seed, pen::occurrence_of(pen, key));
    let b = pen::chosen_bounds(glyph, variant)->0;
    let plain = pen::plain_marks(pen, key, b, pen::chosen_strokes(glyph, variant));
    match pen::entry_drawn(pen, key, pen::occurrence_of(pen, key), plain) {
        Some(marks) => pen::spaced_box(pen::recorded_box(key, b, marks), true),
        None => pen::spaced_box(pen::recorded_box(key, b, plain), false),
    }
}

/// The box of a collected sample holds its ink, however it was varied.
pub proof fn law_samples_hold_their_ink(pen: Pen<Milli>, key: Seq<char>)
    requires
        pen::sample_written(pen, key).1 is Ok,
        is_finite_ink(pen::sample_written(pen, key).1->Ok_0),
    ensures
        holds_its_ink(pen::sample_written(pen, key).1->Ok_0),
{
    let r = lemma_sample_is_measured(pen, key);
    law_measured_boxes_hold_their_ink(r);
}

proof fn lemma_copies_keep_heights(
    marks: Seq<MarkView<Milli>>,
    n: int,
    step: spec_fn(int) -> Milli,
    low: int,
    high: int,
)
    requires
        forall|i: int, j: int|
            strokes::has_point(marks, i, j) ==> low <= (#[trigger] marks[i].points[j]).1.0 <= high,
    ensures
        ({
            let all = glyphs::copies(marks, n, step, Milli(0));
            forall|i: int, j: int|
                strokes::has_point(all, i, j) ==> low <= (#[trigger] all[i].points[j]).1.0 <= high
        }),
    decreases n,
{
    if n > 0 {
        lemma_copies_keep_heights(marks, n - 1, step, low, high);
        let before = glyphs::copies(marks, n - 1, step, Milli(0));
        let more = strokes::marks_moved(marks, step(n - 1), Milli(0));
        let all = glyphs::copies(marks, n, step, Milli(0));
        assert(all == before + more);
        assert forall|i: int, j: int| strokes::has_point(all, i, j) implies low <= (
        #[trigger] all[i].points[j]).1.0 <= high by {
            if i < before.len() {
                assert(all[i] == before[i]);
                assert(strokes::has_point(before, i, j));
                assert(low <= before[i].points[j].1.0 <= high);
            } else {
                let k = i - before.len();
                assert(all[i] == more[k]);
                assert(strokes::has_point(marks, k, j));
                assert(low <= marks[k].points[j].1.0 <= high);
            }
        }
    }
}

/// The first copy stands as high as the strokes do.
proof fn lemma_first_copy(
    marks: Seq<MarkView<Milli>>,
    n: int,
    step: spec_fn(int) -> Milli,
    i: int,
    j: int,
)
    requires
        1 <= n,
        strokes::has_point(marks, i, j),
    ensures
        strokes::has_point(glyphs::copies(marks, n, step, Milli(0)), i, j),
        glyphs::copies(marks, n, step, Milli(0))[i].points[j].1 == marks[i].points[j].1,
    decreases n,
{
    let before = glyphs::copies(marks, n - 1, step, Milli(0));
    let more = strokes::marks_moved(marks, step(n - 1), Milli(0));
    if n == 1 {
        assert(before.len() == 0);
        assert(glyphs::copies(marks, n, step, Milli(0)) =~= more);
    } else {
        lemma_first_copy(marks, n - 1, step, i, j);
        assert(glyphs::copies(marks, n, step, Milli(0))[i] == before[i]);
    }
}

proof fn lemma_literal_delimiter_is_held(slot: Slot<Milli>, token: Seq<char>, j: int)
    requires
        slot.up == Milli(49_000),
        slot.down == Milli(19_000),
        node::is_delimiter_key(token),
        0 <= j < glyphs::procedural_mark(slot, token).points.len(),
    ensures
        -49_000 <= glyphs::procedural_mark(slot, token).points[j].1.0 <= 19_000,
{
    let shape = glyphs::shape_of_token(token);
    if shape == glyphs::Shape::Round {
        arithmetic::lemma_ratio(j * 1_000, 20_000);
        assert(j * 1_000 * 1_000 / 20_000 == 50 * j);
        let t = Milli::counted(j) / Milli::mil(20_000);
        assert(t.0 == 50 * j);
        arithmetic::lemma_share(50 * j, 68_000);
        assert(68_000 * (50 * j) / 1_000 == 3_400 * j);
        let top = -slot.up;
        assert(slot.down - top == Milli(68_000));
        assert(((slot.down - top) * t).0 == 3_400 * j);
    }
}

proof fn lemma_procedural_holds(b: BoxView<Milli>, slot: Slot<Milli>, key: Seq<char>)
    requires
        node::is_delimiter_key(key),
        slot.up == Milli(49_000),
        slot.down == Milli(19_000),
        b.above == Milli(49_000),
        b.below == Milli(19_000),
        b.marks == seq![glyphs::procedural_mark(slot, key)],
    ensures
        holds_its_ink(b),
{
    assert forall|i: int, j: int| strokes::has_point(b.marks, i, j) implies -b.above.0 <= (
    #[trigger] b.marks[i].points[j]).1.0 <= b.below.0 by {
        lemma_literal_delimiter_is_held(slot, key, j);
    }
}

proof fn lemma_copied_box_holds(single: BoxView<Milli>, b: BoxView<Milli>, n: int, step: spec_fn(
    int,
) -> Milli)
    requires
        holds_its_ink(single),
        b.marks == glyphs::copies(single.marks, n, step, Milli(0)),
        b.above == single.above,
        b.below == single.below,
    ensures
        holds_its_ink(b),
{
    lemma_copies_keep_heights(
        single.marks,
        n,
        step,
        -single.above.0 as int,
        single.below.0 as int,
    );
}

proof fn lemma_copied_box_is_finite(single: BoxView<Milli>, b: BoxView<Milli>, n: int, step: spec_fn(
    int,
) -> Milli)
    requires
        is_finite_ink(b),
        b.marks == glyphs::copies(single.marks, n, step, Milli(0)),
        1 <= n,
    ensures
        is_finite_ink(single),
{
    assert forall|i: int, j: int| strokes::has_point(single.marks, i, j) implies (
    #[trigger] single.marks[i].points[j]).1.0 > i64::MIN by {
        lemma_first_copy(single.marks, n, step, i, j);
        assert(b.marks[i].points[j].1.0 > i64::MIN);
    }
}

/// The box of every symbol holds its ink, however it was varied; three dots at the height
/// of an operator are the one exception.
pub proof fn law_glyphs_hold_their_ink(pen: Pen<Milli>, key: Seq<char>)
    requires
        glyphs::glyph_written(pen, key).1 is Ok,
        is_finite_ink(glyphs::glyph_written(pen, key).1->Ok_0),
        key != "\\cdots"@,
    ensures
        holds_its_ink(glyphs::glyph_written(pen, key).1->Ok_0),
{
    reveal(glyphs::glyph_written);
    let b = glyphs::glyph_written(pen, key).1->Ok_0;
    if node::is_delimiter_key(key) && profile::parenthesis_width(pen.glyphs, key) is None {
        assert(key != "."@) by {
            reveal_strlit(".");
            reveal_strlit("(");
            reveal_strlit(")");
            reveal_strlit("[");
            reveal_strlit("]");
            reveal_strlit("|");
            assert("."@[0] == '.');
        }
        let slot = glyphs::literal_slot::<Milli>(key);
        assert(b.marks =~= seq![glyphs::procedural_mark(slot, key)]);
        lemma_procedural_holds(b, slot, key);
    } else if key == "\\ldots"@ {
        assert("\\ldots"@ != "\\cdots"@);
        let dot = pen::sample_written(pen, "."@).1->Ok_0;
        let step = |i: int| Milli::counted(i) * Milli::mil(17_000);
        assert(b.marks == glyphs::copies(dot.marks, 3, step, Milli(0)));
        lemma_copied_box_is_finite(dot, b, 3, step);
        law_samples_hold_their_ink(pen, "."@);
        lemma_copied_box_holds(dot, b, 3, step);
    } else if key == "\\iint"@ || key == "\\iiint"@ {
        let single = pen::sample_written(pen, "\\int"@).1->Ok_0;
        let n: int = if key == "\\iint"@ {
            2
        } else {
            3
        };
        let step = |i: int| Milli::counted(i) * single.width * Milli::mil(650);
        assert(b.marks == glyphs::copies(single.marks, n, step, Milli(0)));
        lemma_copied_box_is_finite(single, b, n, step);
        law_samples_hold_their_ink(pen, "\\int"@);
        lemma_copied_box_holds(single, b, n, step);
    } else {
        law_samples_hold_their_ink(pen, key);
    }
}

/// The box of a symbol reaches at least to the baseline from above and from below: neither
/// of its heights is negative.
pub proof fn law_heights_are_not_negative(pen: Pen<Milli>, key: Seq<char>)
    requires
        glyphs::glyph_written(pen, key).1 is Ok,
    ensures
        0 <= glyphs::glyph_written(pen, key).1->Ok_0.above.0,
        0 <= glyphs::glyph_written(pen, key).1->Ok_0.below.0,
{
    reveal(glyphs::glyph_written);
}

proof fn lemma_least_is_pulled_in(xs: Seq<Milli>, moved: Seq<Milli>, x: Milli, bound: int)
    requires
        xs.len() > 0,
        moved.len() == xs.len(),
        0 <= bound <= 1_000_000_000,
        arithmetic::within(x, bound),
        forall|i: int| 0 <= i < xs.len() ==> arithmetic::within(#[trigger] xs[i], bound),
        forall|i: int| 0 <= i < xs.len() ==> #[trigger] moved[i] == xs[i] - x,
    ensures
        strokes::least_from(Milli::topmost(), moved) == strokes::least_from(Milli::topmost(), xs)
            - x,
        arithmetic::within(strokes::least_from(Milli::topmost(), xs), bound),
        strokes::greatest_from(Milli::bottommost(), moved) == strokes::greatest_from(
            Milli::bottommost(),
            xs,
        ) - x,
        arithmetic::within(strokes::greatest_from(Milli::bottommost(), xs), bound),
    decreases xs.len(),
{
    let last = xs.len() - 1;
    assert(moved[last] == xs[last] - x);
    if last > 0 {
        lemma_least_is_pulled_in(xs.drop_last(), moved.drop_last(), x, bound);
    } else {
        reveal_with_fuel(strokes::least_from, 2);
        reveal_with_fuel(strokes::greatest_from, 2);
    }
}

proof fn lemma_points_are_pulled_in(marks: Seq<MarkView<Milli>>, x: Milli)
    ensures
        ({
            let (points, moved) = (
                strokes::all_points(marks),
                strokes::all_points(pen::pulled_in(marks, x)),
            );
            &&& moved.len() == points.len()
            &&& forall|k: int|
                0 <= k < points.len() ==> #[trigger] moved[k] == (points[k].0 - x, points[k].1)
        }),
    decreases marks.len(),
{
    if marks.len() > 0 {
        lemma_points_are_pulled_in(marks.drop_last(), x);
        assert(pen::pulled_in(marks, x).drop_last() =~= pen::pulled_in(marks.drop_last(), x));
    }
}

/// A sample takes as much space as its ink is wide, and four and a half pixels more: that
/// holds of the ink as it lies in the box, also where it was pulled in.
pub proof fn law_spaced_boxes_are_as_wide_as_their_ink(
    b: BoxView<Milli>,
    has_entry: bool,
    i: int,
    j: int,
)
    requires
        ink_is_modest(b.marks),
        strokes::has_point(b.marks, i, j),
    ensures
        ({
            let spaced = pen::spaced_box(b, has_entry);
            strokes::extent(spaced.marks, Axis::X) matches Some((left, right))
                && spaced.width.0 == (if right.0 - left.0 < 3_000 { 3_000 } else { right.0
                - left.0 }) + pen::GAP
        }),
{
    let (min_x, max_x) = lemma_extent_is_reached(b.marks, i, j);
    let points = strokes::all_points(b.marks);
    let moved = strokes::all_points(pen::pulled_in(b.marks, min_x));
    strokes::lemma_points_are_among_all(b.marks, i, j);
    lemma_points_are_pulled_in(b.marks, min_x);
    let (xs, ys) = (
        strokes::coordinates(points, Axis::X),
        strokes::coordinates(moved, Axis::X),
    );
    assert forall|m: int| 0 <= m < xs.len() implies arithmetic::within(
        #[trigger] xs[m],
        100_000_000,
    ) by {
        let (c, d) = strokes::lemma_all_points_are_from_marks(b.marks, m);
    }
    assert forall|m: int| 0 <= m < xs.len() implies #[trigger] ys[m] == xs[m] - min_x by {
        assert(moved[m] == (points[m].0 - min_x, points[m].1));
    }
    lemma_least_is_pulled_in(xs, ys, min_x, 100_000_000);
}

/// A box that holds its ink still does when it is made smaller.
pub proof fn law_smaller_boxes_hold_their_ink(b: BoxView<Milli>, factor: Milli)
    requires
        holds_its_ink(b),
        0 <= factor.0 <= 1_000,
    ensures
        holds_its_ink(strokes::box_scaled(b, factor)),
        holds_its_ink(strokes::box_stretched(b, factor)),
{
    let (c, d) = (strokes::box_scaled(b, factor), strokes::box_stretched(b, factor));
    assert forall|i: int, j: int| strokes::has_point(c.marks, i, j) implies -c.above.0 <= (
    #[trigger] c.marks[i].points[j]).1.0 <= c.below.0 by {
        assert(strokes::has_point(b.marks, i, j));
        arithmetic::lemma_factor_keeps_order(b.above, b.marks[i].points[j].1, b.below, factor);
    }
    assert forall|i: int, j: int| strokes::has_point(d.marks, i, j) implies -d.above.0 <= (
    #[trigger] d.marks[i].points[j]).1.0 <= d.below.0 by {
        assert(strokes::has_point(b.marks, i, j));
        arithmetic::lemma_factor_keeps_order(b.above, b.marks[i].points[j].1, b.below, factor);
    }
}

} // verus!
