//! What boxes hold.
use crate::entry;
use crate::exact::boxes;
use crate::gauge::measure;
use crate::gauge::measure::Gauge;
use crate::glyphs;
use crate::glyphs::{Shape, Slot};
use crate::laws;
use crate::node;
use crate::pen;
use crate::pen::Pen;
use crate::profile;
use crate::scalar::Scalar;
use crate::strokes;
use crate::strokes::{Axis, BoxView, MarkView};
use vstd::prelude::*;

verus! {

/// Whether every coordinate of some strokes is a number of which several can be summed.
pub open spec fn ink_is_modest<S: Scalar>(g: Gauge<S>, marks: Seq<MarkView<S>>) -> bool {
    forall|i: int, j: int|
        strokes::has_point(marks, i, j) ==> g.is_modest((#[trigger] marks[i].points[j]).0)
            && g.is_modest(marks[i].points[j].1)
}

/// Whether the sides of a box and its strokes are such numbers.
pub open spec fn is_modest<S: Scalar>(g: Gauge<S>, b: BoxView<S>) -> bool {
    g.is_modest(b.width) && g.is_modest(b.above) && g.is_modest(b.below) && ink_is_modest(
        g,
        b.marks,
    )
}

/// Whether every stroke of a box lies within its height.
pub open spec fn holds_its_ink<S: Scalar>(g: Gauge<S>, b: BoxView<S>) -> bool {
    &&& (g.numbers)(b.above) && (g.numbers)(b.below)
    &&& forall|i: int, j: int|
        strokes::has_point(b.marks, i, j) ==> (g.numbers)((#[trigger] b.marks[i].points[j]).1)
            && -(g.at)(b.above) <= (g.at)(b.marks[i].points[j].1) <= (g.at)(b.below)
}

/// The extent of modest ink is modest, and every point lies in it.
pub proof fn lemma_extent<S: Scalar>(
    g: Gauge<S>,
    marks: Seq<MarkView<S>>,
    axis: Axis,
    i: int,
    j: int,
) -> (r: (S, S))
    requires
        g.is_true(),
        ink_is_modest(g, marks),
        strokes::has_point(marks, i, j),
    ensures
        strokes::extent(marks, axis) == Some(r),
        g.is_modest(r.0) && g.is_modest(r.1),
        forall|k: int, l: int|
            strokes::has_point(marks, k, l) ==> (g.at)(r.0) <= (g.at)(
                strokes::along(#[trigger] marks[k].points[l], axis),
            ) <= (g.at)(r.1),
{
    let points = strokes::all_points(marks);
    let xs = strokes::coordinates(points, axis);
    assert forall|m: int| 0 <= m < xs.len() implies g.is_modest(#[trigger] xs[m]) by {
        let (a, b) = strokes::lemma_all_points_are_from_marks(marks, m);
        assert(g.is_modest(marks[a].points[b].0) && g.is_modest(marks[a].points[b].1));
    }
    let m = strokes::lemma_points_are_among_all(marks, i, j);
    let (low, high) = (measure::lemma_least(g, xs), measure::lemma_greatest(g, xs));
    assert forall|k: int, l: int| strokes::has_point(marks, k, l) implies (g.at)(xs[low]) <= (
    g.at)(strokes::along(#[trigger] marks[k].points[l], axis)) <= (g.at)(xs[high]) by {
        let m = strokes::lemma_points_are_among_all(marks, k, l);
        assert(xs[m] == strokes::along(marks[k].points[l], axis));
    }
    assert((g.at)(xs[low]) <= (g.at)(xs[m]) <= (g.at)(xs[high]));
    measure::lemma_order(g, xs[low], xs[high]);
    (xs[low], xs[high])
}

/// The extent of modest ink is reached: the strokes and points that lie lowest and highest.
pub proof fn lemma_extent_is_reached<S: Scalar>(
    g: Gauge<S>,
    marks: Seq<MarkView<S>>,
    axis: Axis,
    i: int,
    j: int,
) -> (r: ((int, int), (int, int)))
    requires
        g.is_true(),
        ink_is_modest(g, marks),
        strokes::has_point(marks, i, j),
    ensures
        ({
            let (low, high) = r;
            let points = strokes::all_points(marks);
            &&& strokes::has_point(marks, low.0, low.1)
            &&& strokes::along(marks[low.0].points[low.1], axis) == strokes::lowest(points, axis)
            &&& strokes::has_point(marks, high.0, high.1)
            &&& strokes::along(marks[high.0].points[high.1], axis) == strokes::highest(points, axis)
        }),
{
    let points = strokes::all_points(marks);
    let xs = strokes::coordinates(points, axis);
    assert forall|m: int| 0 <= m < xs.len() implies (g.numbers)(#[trigger] xs[m]) by {
        let (a, b) = strokes::lemma_all_points_are_from_marks(marks, m);
        assert(g.is_modest(marks[a].points[b].0) && g.is_modest(marks[a].points[b].1));
    }
    strokes::lemma_points_are_among_all(marks, i, j);
    let (low, high) = (measure::lemma_least(g, xs), measure::lemma_greatest(g, xs));
    (
        strokes::lemma_all_points_are_from_marks(marks, low),
        strokes::lemma_all_points_are_from_marks(marks, high),
    )
}

/// No ink is clipped: a measured box reaches as far up and down as its strokes do.
pub proof fn law_measured_boxes_hold_their_ink<S: Scalar>(g: Gauge<S>, b: BoxView<S>, i: int, j: int)
    requires
        g.is_true(),
        ink_is_modest(g, b.marks),
        strokes::has_point(b.marks, i, j),
    ensures
        holds_its_ink(g, entry::remeasured(b)),
{
    let (top, bottom) = lemma_extent(g, b.marks, Axis::Y, i, j);
    measure::lemma_constant(g, 0);
    measure::lemma_opposite(g, top);
    measure::lemma_larger(g, -top, S::mil(0));
    measure::lemma_larger(g, bottom, S::mil(0));
    let r = entry::remeasured(b);
    assert forall|k: int, l: int| strokes::has_point(r.marks, k, l) implies (g.numbers)(
        (#[trigger] r.marks[k].points[l]).1,
    ) && -(g.at)(r.above) <= (g.at)(r.marks[k].points[l].1) <= (g.at)(r.below) by {
        assert((g.at)(top) <= (g.at)(strokes::along(b.marks[k].points[l], Axis::Y)) <= (g.at)(
            bottom,
        ));
    }
}

/// However it was varied, the box of a collected sample holds its ink.
pub proof fn law_samples_hold_their_ink<S: Scalar>(
    g: Gauge<S>,
    pen: Pen<S>,
    key: Seq<char>,
    i: int,
    j: int,
)
    requires
        g.is_true(),
        pen::sample_written(pen, key).1 is Ok,
        ink_is_modest(g, pen::sample_written(pen, key).1->Ok_0.marks),
        strokes::has_point(pen::sample_written(pen, key).1->Ok_0.marks, i, j),
    ensures
        holds_its_ink(g, pen::sample_written(pen, key).1->Ok_0),
{
    let r = boxes::lemma_sample_is_measured(pen, key);
    law_measured_boxes_hold_their_ink(g, r, i, j);
}

/// A box that holds its ink still does when it is made smaller.
pub proof fn law_smaller_boxes_hold_their_ink<S: Scalar>(g: Gauge<S>, b: BoxView<S>, n: int)
    requires
        g.is_true(),
        holds_its_ink(g, b),
        -(g.at)(b.above) <= (g.at)(b.below),
        0 <= n <= 1_000,
    ensures
        holds_its_ink(g, strokes::box_scaled(b, S::mil(n))),
        holds_its_ink(g, strokes::box_stretched(b, S::mil(n))),
        -(g.at)(b.above * S::mil(n)) <= (g.at)(b.below * S::mil(n)),
{
    let (c, d) = (strokes::box_scaled(b, S::mil(n)), strokes::box_stretched(b, S::mil(n)));
    measure::lemma_part(g, b.above, b.below, b.below, n);
    assert forall|i: int, j: int| strokes::has_point(c.marks, i, j) implies (g.numbers)(
        (#[trigger] c.marks[i].points[j]).1,
    ) && -(g.at)(c.above) <= (g.at)(c.marks[i].points[j].1) <= (g.at)(c.below) by {
        assert(strokes::has_point(b.marks, i, j));
        measure::lemma_part(g, b.above, b.marks[i].points[j].1, b.below, n);
    }
    assert forall|i: int, j: int| strokes::has_point(d.marks, i, j) implies (g.numbers)(
        (#[trigger] d.marks[i].points[j]).1,
    ) && -(g.at)(d.above) <= (g.at)(d.marks[i].points[j].1) <= (g.at)(d.below) by {
        assert(strokes::has_point(b.marks, i, j));
        measure::lemma_part(g, b.above, b.marks[i].points[j].1, b.below, n);
    }
}

/// A box that holds its ink does so to any thousandth.
pub proof fn lemma_holding_is_nearly_holding<S: Scalar>(g: Gauge<S>, b: BoxView<S>, n: int)
    requires
        g.is_true(),
        holds_its_ink(g, b),
        0 <= n,
    ensures
        nearly_holds_its_ink(g, b, n),
{
    measure::lemma_constant(g, 0);
    assert(0 <= n * g.unit) by (nonlinear_arith)
        requires
            0 <= n,
            0 < g.unit,
    ;
}

/// Whether every stroke of a box lies within its height, up to `n` thousandths of a pixel.
pub open spec fn nearly_holds_its_ink<S: Scalar>(g: Gauge<S>, b: BoxView<S>, n: int) -> bool {
    forall|i: int, j: int|
        strokes::has_point(b.marks, i, j) ==> -(g.at)(b.above) - n * g.unit <= (g.at)(
            (#[trigger] b.marks[i].points[j]).1,
        ) <= (g.at)(b.below) + n * g.unit
}

proof fn lemma_copies_keep_heights<S: Scalar>(
    g: Gauge<S>,
    marks: Seq<MarkView<S>>,
    n: int,
    step: spec_fn(int) -> S,
    low: int,
    high: int,
)
    requires
        g.is_true(),
        ink_is_modest(g, marks),
        forall|i: int, j: int|
            strokes::has_point(marks, i, j) ==> low <= (g.at)((#[trigger] marks[i].points[j]).1)
                <= high,
    ensures
        ({
            let all = glyphs::copies(marks, n, step, S::mil(0));
            forall|i: int, j: int|
                strokes::has_point(all, i, j) ==> low - 3 * g.unit <= (g.at)(
                    (#[trigger] all[i].points[j]).1,
                ) <= high + 3 * g.unit
        }),
    decreases n,
{
    if n > 0 {
        lemma_copies_keep_heights(g, marks, n - 1, step, low, high);
        let before = glyphs::copies(marks, n - 1, step, S::mil(0));
        let more = strokes::marks_moved(marks, step(n - 1), S::mil(0));
        let all = glyphs::copies(marks, n, step, S::mil(0));
        assert(all == before + more);
        measure::lemma_constant(g, 0);
        assert forall|i: int, j: int| strokes::has_point(all, i, j) implies low - 3 * g.unit <= (
        g.at)((#[trigger] all[i].points[j]).1) <= high + 3 * g.unit by {
            if i < before.len() {
                assert(all[i] == before[i]);
                assert(strokes::has_point(before, i, j));
                assert(low - 3 * g.unit <= (g.at)(before[i].points[j].1) <= high + 3 * g.unit);
            } else {
                let k = i - before.len();
                assert(all[i] == more[k]);
                assert(strokes::has_point(marks, k, j));
                let y = marks[k].points[j].1;
                assert(g.is_modest(y) && low <= (g.at)(y) <= high);
                assert(all[i].points[j].1 == y + S::mil(0));
                measure::lemma_sum(g, y, S::mil(0));
            }
        }
    }
}

proof fn lemma_round_height<S: Scalar>(g: Gauge<S>, slot: Slot<S>, i: int)
    requires
        g.is_true(),
        g.is_fine(),
        slot.up == S::mil(49_000) && slot.down == S::mil(19_000),
        0 <= i <= 20,
    ensures
        -49_000 * g.unit - 3 * g.unit <= (g.at)(glyphs::round_points(slot)[i].1) <= 19_000 * g.unit
            + 3 * g.unit,
{
    measure::lemma_constant(g, 49_000);
    measure::lemma_constant(g, 19_000);
    measure::lemma_opposite(g, slot.up);
    let top = -slot.up;
    let height = slot.down - top;
    let t = S::counted(i) / S::mil(20_000);
    measure::lemma_count_of(g, i, 20);
    measure::lemma_difference(g, slot.down, top);
    measure::lemma_share(g, height, t);
    measure::lemma_sum(g, top, height * t);
    assert(glyphs::round_points(slot)[i].1 == top + height * t);
}

proof fn lemma_procedural_holds<S: Scalar>(g: Gauge<S>, b: BoxView<S>, slot: Slot<S>, key: Seq<char>)
    requires
        g.is_true(),
        g.is_fine(),
        node::is_delimiter_key(key),
        slot.up == S::mil(49_000) && slot.down == S::mil(19_000),
        b.above == S::mil(49_000) && b.below == S::mil(19_000),
        b.marks == seq![glyphs::procedural_mark(slot, key)],
    ensures
        nearly_holds_its_ink(g, b, 3),
{
    lemma_delimiters_have_simple_shapes(key);
    measure::lemma_constant(g, 49_000);
    measure::lemma_constant(g, 19_000);
    measure::lemma_opposite(g, slot.up);
    assert forall|i: int, j: int| strokes::has_point(b.marks, i, j) implies -(g.at)(b.above) - 3
        * g.unit <= (g.at)((#[trigger] b.marks[i].points[j]).1) <= (g.at)(b.below) + 3
        * g.unit by {
        assert(b.marks[i] == glyphs::procedural_mark(slot, key));
        if glyphs::shape_of_token(key) == Shape::Round {
            lemma_round_height(g, slot, j);
        }
    }
}

proof fn lemma_delimiters_have_simple_shapes(key: Seq<char>)
    requires
        node::is_delimiter_key(key),
    ensures
        ({
            let shape = glyphs::shape_of_token(key);
            shape == Shape::Round || shape == Shape::Square || shape == Shape::Bar
        }),
        key != "."@,
{
    reveal_strlit(".");
    reveal_strlit("(");
    reveal_strlit(")");
    reveal_strlit("[");
    reveal_strlit("]");
    reveal_strlit("|");
    assert("."@[0] == '.');
}

proof fn lemma_sample_nearly_holds<S: Scalar>(g: Gauge<S>, pen: Pen<S>, key: Seq<char>)
    requires
        g.is_true(),
        pen::sample_written(pen, key).1 is Ok,
        ink_is_modest(g, pen::sample_written(pen, key).1->Ok_0.marks),
    ensures
        nearly_holds_its_ink(g, pen::sample_written(pen, key).1->Ok_0, 0),
{
    let b = pen::sample_written(pen, key).1->Ok_0;
    assert forall|i: int, j: int| strokes::has_point(b.marks, i, j) implies -(g.at)(b.above) - 0
        * g.unit <= (g.at)((#[trigger] b.marks[i].points[j]).1) <= (g.at)(b.below) + 0
        * g.unit by {
        law_samples_hold_their_ink(g, pen, key, i, j);
        lemma_holding_is_nearly_holding(g, b, 0);
    }
}

/// In every number type that computes nearly exactly the box of every symbol holds its ink
/// up to three thousandths of a pixel, however it was varied; three dots at the height of an
/// operator are the one exception.
pub proof fn law_glyphs_hold_their_ink<S: Scalar>(g: Gauge<S>, pen: Pen<S>, key: Seq<char>)
    requires
        g.is_true(),
        g.is_fine(),
        glyphs::glyph_written(pen, key).1 is Ok,
        key != "\\cdots"@,
        laws::sampled_key(pen.glyphs, key) matches Some(k) ==> ink_is_modest(
            g,
            pen::sample_written(pen, k).1->Ok_0.marks,
        ),
    ensures
        nearly_holds_its_ink(g, glyphs::glyph_written(pen, key).1->Ok_0, 3),
{
    reveal(glyphs::glyph_written);
    measure::lemma_constant(g, 0);
    let b = glyphs::glyph_written(pen, key).1->Ok_0;
    if node::is_delimiter_key(key) && profile::parenthesis_width(pen.glyphs, key) is None {
        lemma_delimiters_have_simple_shapes(key);
        let slot = glyphs::literal_slot::<S>(key);
        assert(b.marks =~= seq![glyphs::procedural_mark(slot, key)]);
        lemma_procedural_holds(g, b, slot, key);
    } else if key == "\\ldots"@ {
        assert("\\ldots"@ != "\\cdots"@);
        let dot = pen::sample_written(pen, "."@).1->Ok_0;
        lemma_sample_nearly_holds(g, pen, "."@);
        let step = |i: int| S::counted(i) * S::mil(17_000);
        assert(b.marks == glyphs::copies(dot.marks, 3, step, S::mil(0)));
        lemma_copies_keep_heights(g, dot.marks, 3, step, -(g.at)(dot.above), (g.at)(dot.below));
    } else if key == "\\iint"@ || key == "\\iiint"@ {
        let single = pen::sample_written(pen, "\\int"@).1->Ok_0;
        lemma_sample_nearly_holds(g, pen, "\\int"@);
        let n: int = if key == "\\iint"@ {
            2
        } else {
            3
        };
        let step = |i: int| S::counted(i) * single.width * S::mil(650);
        assert(b.marks == glyphs::copies(single.marks, n, step, S::mil(0)));
        lemma_copies_keep_heights(
            g,
            single.marks,
            n,
            step,
            -(g.at)(single.above),
            (g.at)(single.below),
        );
    } else {
        lemma_sample_nearly_holds(g, pen, key);
    }
}

} // verus!
