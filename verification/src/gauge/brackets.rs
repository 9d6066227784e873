//! How collected parentheses are fitted.
use crate::gauge::ink;
use crate::gauge::lines;
use crate::gauge::measure;
use crate::gauge::measure::Gauge;
use crate::glyphs;
use crate::glyphs::{Fit, Slot};
use crate::pen;
use crate::pen::Pen;
use crate::profile;
use crate::scalar::Scalar;
use crate::strokes;
use crate::strokes::{Axis, BoxView, MarkView};
use vstd::prelude::*;

verus! {

proof fn lemma_fitted_height<S: Scalar>(g: Gauge<S>, fit: Fit<S>, slot: Slot<S>, point: (S, S))
    requires
        g.is_true(),
        g.is_fine(),
        g.is_modest(fit.min_y) && g.is_modest(point.1) && g.is_modest(fit.max_y),
        (g.at)(fit.min_y) <= (g.at)(point.1) <= (g.at)(fit.max_y),
        500 * g.unit <= (g.at)(fit.max_y - fit.min_y),
        lines::is_short(g, slot.up) && lines::is_short(g, slot.down),
        -(g.at)(slot.up) <= (g.at)(slot.down),
    ensures
        ({
            let y = glyphs::fitted_point(fit, slot, point).1;
            let (top, bottom) = (-(g.at)(slot.up), (g.at)(slot.down));
            &&& (g.numbers)(y)
            &&& top - 4 * g.unit <= (g.at)(y) <= bottom + 4 * g.unit
            &&& (g.at)(point.1) == (g.at)(fit.min_y) ==> g.is_about(y, top, 4)
            &&& (g.at)(point.1) == (g.at)(fit.max_y) ==> g.is_about(y, bottom, 4)
        }),
{
    let t = (point.1 - fit.min_y) / (fit.max_y - fit.min_y);
    measure::lemma_constant(g, 0);
    measure::lemma_between(g, fit.min_y, point.1, fit.max_y);
    measure::lemma_opposite(g, slot.up);
    let top = -slot.up;
    let height = slot.down - top;
    measure::lemma_difference(g, slot.down, top);
    measure::lemma_share(g, height, t);
    let part = (g.at)(t * height);
    assert(-2 * g.unit <= part <= (g.at)(slot.down) + (g.at)(slot.up) + 2 * g.unit);
    assert((g.at)(t) == 1_000 * g.unit ==> (g.at)(slot.down) + (g.at)(slot.up) - 2 * g.unit
        <= part);
    measure::lemma_sum(g, top, t * height);
    assert(glyphs::fitted_point(fit, slot, point).1 == top + t * height);
}

/// Whether some strokes nearly lie between two heights and nearly touch both.
pub open spec fn nearly_span<S: Scalar>(
    g: Gauge<S>,
    marks: Seq<MarkView<S>>,
    top: int,
    bottom: int,
    n: int,
) -> bool {
    &&& forall|i: int, j: int|
        strokes::has_point(marks, i, j) ==> top - n * g.unit <= (g.at)(
            (#[trigger] marks[i].points[j]).1,
        ) <= bottom + n * g.unit
    &&& exists|i: int, j: int|
        strokes::has_point(marks, i, j) && g.is_about((#[trigger] marks[i].points[j]).1, top, n)
    &&& exists|i: int, j: int|
        strokes::has_point(marks, i, j) && g.is_about((#[trigger] marks[i].points[j]).1, bottom, n)
}

/// In every number type that computes nearly exactly a collected parenthesis that is fitted
/// to a slot spans it up to four thousandths of a pixel: all of it lies between the top and
/// the bottom of the slot, and it touches both.
pub proof fn law_fitted_parentheses_span_their_slot<S: Scalar>(
    g: Gauge<S>,
    pen: Pen<S>,
    b: BoxView<S>,
    token: Seq<char>,
    slot: Slot<S>,
    i: int,
    j: int,
)
    requires
        g.is_true(),
        g.is_fine(),
        profile::parenthesis_width(pen.glyphs, token) is Some,
        glyphs::delimiter_written(pen, b, token, slot).1 is Ok,
        ink::ink_is_modest(g, pen::sample_written(pen, token).1->Ok_0.marks),
        strokes::has_point(pen::sample_written(pen, token).1->Ok_0.marks, i, j),
        lines::is_short(g, slot.up) && lines::is_short(g, slot.down),
        -(g.at)(slot.up) <= (g.at)(slot.down),
    ensures
        ({
            let marks = glyphs::delimiter_written(pen, b, token, slot).1->Ok_0.marks;
            let n = b.marks.len() as int;
            &&& n <= marks.len()
            &&& marks.take(n) == b.marks
            &&& nearly_span(g, marks.skip(n), -(g.at)(slot.up), (g.at)(slot.down), 4)
        }),
{
    reveal_strlit("(");
    reveal_strlit(")");
    reveal_strlit(".");
    assert("("@[0] == '(' && ")"@[0] == ')' && "."@[0] == '.');
    let width = profile::parenthesis_width(pen.glyphs, token)->0;
    let (after, sample) = pen::sample_written(pen, token);
    let recorded = sample->Ok_0.marks;
    let fit = glyphs::fit_of(after, token, slot, width, recorded);
    let fitted = glyphs::fitted_marks(fit, slot, recorded);
    let (low, high) = ink::lemma_extent_is_reached(g, recorded, Axis::Y, i, j);
    ink::lemma_extent(g, recorded, Axis::Y, i, j);
    measure::lemma_constant(g, 1_000);
    measure::lemma_difference(g, fit.max_y, fit.min_y);
    measure::lemma_strict_order(g, fit.max_y - fit.min_y, S::mil(1_000));
    assert forall|k: int, l: int| strokes::has_point(fitted, k, l) implies -(g.at)(slot.up) - 4
        * g.unit <= (g.at)((#[trigger] fitted[k].points[l]).1) <= (g.at)(slot.down) + 4
        * g.unit by {
        assert(strokes::has_point(recorded, k, l));
        let y = strokes::along(recorded[k].points[l], Axis::Y);
        assert((g.at)(fit.min_y) <= (g.at)(y) <= (g.at)(fit.max_y));
        lemma_fitted_height(g, fit, slot, recorded[k].points[l]);
    }
    lemma_fitted_height(g, fit, slot, recorded[low.0].points[low.1]);
    lemma_fitted_height(g, fit, slot, recorded[high.0].points[high.1]);
    assert(strokes::has_point(fitted, low.0, low.1) && g.is_about(
        fitted[low.0].points[low.1].1,
        -(g.at)(slot.up),
        4,
    ));
    assert(strokes::has_point(fitted, high.0, high.1) && g.is_about(
        fitted[high.0].points[high.1].1,
        (g.at)(slot.down),
        4,
    ));
    let marks = glyphs::delimiter_written(pen, b, token, slot).1->Ok_0.marks;
    let n = b.marks.len() as int;
    assert(marks.take(n) =~= b.marks);
    assert(marks.skip(n) =~= fitted);
}

} // verus!
