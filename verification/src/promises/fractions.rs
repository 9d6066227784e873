//! How a fraction is put together.
use crate::bits;
use crate::layout;
use crate::node::Node;
use crate::pen::Pen;
use crate::promises::placing;
use crate::scalar::Scalar;
use crate::strokes::BoxView;
use crate::variation;
use vstd::prelude::*;

verus! {

/// The gap between the writing line of a numerator and the middle of the bar: half the ink
/// width, the furthest that a bar strays, and half a pixel.
pub open spec fn gap<S: Scalar>() -> S {
    S::mil(2_300) / S::mil(2_000) + (S::mil(900) * S::mil(1_500) + S::mil(900) / S::mil(2_000))
        + S::mil(500)
}

/// A fraction is thirty pixels wider than the wider of its parts, with variation up to eight
/// more or less. Both parts are scaled by 0.55 and centred; the numerator stands on the bar
/// by its deepest subscript, the denominator hangs below it by its top. The bar comes last.
pub proof fn law_fractions_stand_on_their_bar<S: Scalar>(
    pen: Pen<S>,
    top: BoxView<S>,
    bottom: BoxView<S>,
)
    ensures
        layout::fraction_written(pen, top, bottom).1 is Ok,
        ({
            let f = S::mil(550);
            let b = layout::fraction_written(pen, top, bottom).1->Ok_0;
            let (v, w) = (top.width * f, bottom.width * f);
            let extra = if pen.variation {
                S::mil(8_000) * bits::signed_unit_of::<S>(
                    bits::bits_of_instance(pen.seed, "\\frac-width"@, pen.placed),
                )
            } else {
                S::mil(0)
            };
            let two = S::mil(2_000);
            let axis = -layout::axis_height(pen.glyphs);
            let up = axis - gap::<S>() - top.script_drop * f;
            let down = axis + (gap::<S>() + two) + bottom.above * f;
            let (n, m) = (top.marks.len() as int, bottom.marks.len() as int);
            &&& b.width == v.larger(w) + S::mil(30_000) + extra
            &&& b.marks.len() == n + m + 1
            &&& placing::shows(
                b.marks,
                0,
                top.marks,
                |p: (S, S)| (p.0 * f + (b.width - v) / two, p.1 * f + up),
            )
            &&& placing::shows(
                b.marks,
                n,
                bottom.marks,
                |p: (S, S)| (p.0 * f + (b.width - w) / two, p.1 * f + down),
            )
            &&& placing::is_line(
                b.marks[n + m],
                if pen.variation {
                    variation::drawn_line(
                        pen.seed,
                        pen.placed,
                        "\\fracbar"@,
                        (two, axis),
                        (b.width - two, axis),
                    )
                } else {
                    seq![(two, axis), (b.width - two, axis)]
                },
            )
            &&& b.above == (-up + top.above * f).larger(S::mil(0))
            &&& b.below == (down + bottom.below * f).larger(up + top.below * f).larger(S::mil(0))
            &&& !b.large
        }),
        layout::fraction_written(pen, top, bottom).0 == (Pen {
            placed: if pen.variation {
                pen.placed.wrapping_add(1)
            } else {
                pen.placed
            },
            ..pen
        }),
{
    reveal(layout::fraction_written);
}

/// The numerator of a fraction is written before its denominator.
pub proof fn law_numerators_are_written_first<S: Scalar>(
    pen: Pen<S>,
    a: Box<Node<S>>,
    b: Box<Node<S>>,
)
    ensures
        ({
            let (p, top) = layout::layout_written(pen, *a);
            let (q, bottom) = layout::layout_written(p, *b);
            let whole = layout::layout_written(pen, Node::Fraction(a, b));
            &&& top matches Err(e) ==> whole == (p, Err::<BoxView<S>, Seq<char>>(e))
            &&& top is Ok && bottom is Err ==> whole == (
                q,
                Err::<BoxView<S>, Seq<char>>(bottom->Err_0),
            )
            &&& top is Ok && bottom is Ok ==> whole == layout::fraction_written(
                q,
                top->Ok_0,
                bottom->Ok_0,
            )
        }),
{
}

} // verus!
