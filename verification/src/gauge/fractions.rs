//! How far the parts of a fraction stand from its bar.
use crate::bits;
use crate::compose;
use crate::exact::fractions;
use crate::gauge::ink;
use crate::gauge::lines;
use crate::gauge::measure;
use crate::gauge::measure::Gauge;
use crate::laws;
use crate::layout;
use crate::node::Node;
use crate::pen::Pen;
use crate::scalar::Scalar;
use crate::strokes;
use crate::strokes::BoxView;
use vstd::prelude::*;

verus! {

proof fn lemma_product_of_constants<S: Scalar>(g: Gauge<S>)
    requires
        g.is_true(),
        g.is_fine(),
    ensures
        g.is_about(S::mil(900) * S::mil(1_500), 1_350 * g.unit, 4),
{
    measure::lemma_constant(g, 900);
    measure::lemma_constant(g, 1_500);
    let (x, y, u) = ((g.at)(S::mil(900)), (g.at)(S::mil(1_500)), g.unit);
    let f = 1_000 * u;
    assert(1_347_000 * u * u <= x * y <= 1_353_000 * u * u && -g.reach * f <= x * y <= g.reach * f)
        by (nonlinear_arith)
        requires
            899 * u <= x <= 901 * u,
            1_499 * u <= y <= 1_501 * u,
            0 < u,
            f == 1_000 * u,
            4_000_000 * u <= g.reach,
    ;
    reveal(Gauge::is_fine);
    let z = (g.at)(S::mil(900) * S::mil(1_500));
    assert(-4 * u <= z - 1_350 * u <= 4 * u) by (nonlinear_arith)
        requires
            -u * f <= z * f - x * y <= u * f,
            1_347_000 * u * u <= x * y <= 1_353_000 * u * u,
            f == 1_000 * u,
            0 < u,
    ;
}

proof fn lemma_gap<S: Scalar>(g: Gauge<S>)
    requires
        g.is_true(),
        g.is_fine(),
    ensures
        g.is_about(compose::numerator_gap::<S>(), 3_450 * g.unit, 15),
{
    lemma_product_of_constants(g);
    measure::lemma_constant(g, 900);
    measure::lemma_constant(g, 2_300);
    measure::lemma_constant(g, 500);
    measure::lemma_half(g, S::mil(900));
    measure::lemma_half(g, S::mil(2_300));
    let (wave, tilt, half) = (
        S::mil(900) * S::mil(1_500),
        S::mil(900) / S::mil(2_000),
        S::mil(2_300) / S::mil(2_000),
    );
    measure::lemma_sum(g, wave, tilt);
    measure::lemma_sum(g, half, wave + tilt);
    measure::lemma_sum(g, half + (wave + tilt), S::mil(500));
}

/// Whether the width of a part is an ordinary one.
pub open spec fn is_narrow<S: Scalar>(g: Gauge<S>, b: BoxView<S>) -> bool {
    (g.numbers)(b.width) && 0 <= 64 * (g.at)(b.width) <= g.reach
}

proof fn lemma_width<S: Scalar>(g: Gauge<S>, seed: u64, placed: usize, top: S, bottom: S) -> (r: S)
    requires
        g.is_true(),
        g.is_fine(),
        (g.numbers)(top) && 0 <= 64 * (g.at)(top) <= g.reach,
        (g.numbers)(bottom) && 0 <= 64 * (g.at)(bottom) <= g.reach,
    ensures
        r == compose::fraction_width(seed, true, placed, top, bottom),
        (g.numbers)(r),
        (g.at)(top) + 21_970 * g.unit <= (g.at)(r),
        (g.at)(bottom) + 21_970 * g.unit <= (g.at)(r),
        32 * (g.at)(r) <= g.reach,
{
    let swing = bits::signed_unit_of::<S>(
        bits::bits_of_instance(seed, "\\frac-width"@, placed),
    );
    measure::lemma_draws_are_within(
        g,
        bits::bits_of_instance(seed, "\\frac-width"@, placed),
    );
    measure::lemma_constant(g, 8_000);
    measure::lemma_constant(g, 30_000);
    measure::lemma_product_within(g, S::mil(8_000), swing, 8_000, 1_000, 8_001);
    measure::lemma_larger(g, top, bottom);
    let wider = top.larger(bottom);
    measure::lemma_sum(g, wider, S::mil(30_000));
    measure::lemma_sum(g, wider + S::mil(30_000), S::mil(8_000) * swing);
    compose::fraction_width(seed, true, placed, top, bottom)
}

proof fn lemma_centred<S: Scalar>(g: Gauge<S>, width: S, part: S) -> (r: S)
    requires
        g.is_true(),
        g.is_fine(),
        (g.numbers)(width) && (g.numbers)(part),
        0 <= (g.at)(part),
        (g.at)(part) + 21_970 * g.unit <= (g.at)(width),
        32 * (g.at)(width) <= g.reach,
    ensures
        r == (width - part) / S::mil(2_000),
        (g.numbers)(r),
        10_983 * g.unit <= (g.at)(r),
        2 * (g.at)(r) <= (g.at)(width) - (g.at)(part) + 3 * g.unit,
{
    measure::lemma_constant(g, 0);
    measure::lemma_difference(g, width, part);
    measure::lemma_half(g, width - part);
    (width - part) / S::mil(2_000)
}

/// Whether the ink of a box sticks out of its width by no more than four pixels.
pub open spec fn hardly_sticks_out<S: Scalar>(g: Gauge<S>, b: BoxView<S>) -> bool {
    forall|i: int, j: int|
        strokes::has_point(b.marks, i, j) ==> -4_000 * g.unit <= (g.at)(
            (#[trigger] b.marks[i].points[j]).0,
        ) <= (g.at)(b.width) + 4_000 * g.unit
}

/// Whether a fraction is laid out with variation, and its parts have an ordinary size.
pub open spec fn is_drawn<S: Scalar>(
    g: Gauge<S>,
    pen: Pen<S>,
    a: Box<Node<S>>,
    b: Box<Node<S>>,
) -> bool {
    let (top, bottom) = (fractions::numerator(pen, *a), fractions::denominator(pen, *a, *b));
    &&& g.is_true() && g.is_fine()
    &&& pen.variation
    &&& layout::layout_written(pen, Node::Fraction(a, b)).1 is Ok
    &&& is_narrow(g, top) && is_narrow(g, bottom)
    &&& g.is_modest(top.script_drop) && g.is_modest(bottom.above)
    &&& ink::ink_is_modest(g, top.marks) && ink::ink_is_modest(g, bottom.marks)
    &&& lines::is_short(g, layout::axis_height(pen.glyphs))
}

proof fn lemma_drawn<S: Scalar>(
    g: Gauge<S>,
    pen: Pen<S>,
    a: Box<Node<S>>,
    b: Box<Node<S>>,
    k: int,
) -> (axis: S)
    requires
        is_drawn(g, pen, a, b),
        0 <= k <= 8,
    ensures
        ({
            let f = fractions::drawn(pen, a, b);
            let two = S::mil(2_000);
            let (x, y) = ((f.width - f.top.width) / two, (f.width - f.bottom.width) / two);
            let ty = axis - compose::numerator_gap::<S>() - f.top.script_drop;
            let by = axis + (compose::numerator_gap::<S>() + two) + f.bottom.above;
            &&& lines::is_short(g, axis)
            &&& (g.numbers)(f.width)
            &&& (g.at)(f.top.width) + 21_970 * g.unit <= (g.at)(f.width)
            &&& (g.at)(f.bottom.width) + 21_970 * g.unit <= (g.at)(f.width)
            &&& 32 * (g.at)(f.width) <= g.reach
            &&& f.all.len() == f.top.marks.len() + f.bottom.marks.len() + 1
            &&& f.bar.len() == 9
            &&& g.is_about(f.bar[0].0, 2_000 * g.unit, 12)
            &&& g.is_about(f.bar[8].0, (g.at)(f.width) - 2_000 * g.unit, 13)
            &&& g.is_about(f.bar[k].1, (g.at)(axis), 1_840)
            &&& forall|i: int|
                0 <= i < f.top.marks.len() ==> #[trigger] f.all[i] == strokes::marks_moved(
                    f.top.marks,
                    x,
                    ty,
                )[i]
            &&& forall|i: int|
                f.top.marks.len() <= i < f.all.len() - 1 ==> #[trigger] f.all[i]
                    == strokes::marks_moved(f.bottom.marks, y, by)[i - f.top.marks.len()]
        }),
{
    fractions::lemma_fraction_layout(pen, a, b);
    laws::law_layout_keeps_the_profile(pen, *a);
    laws::law_layout_keeps_the_profile(layout::layout_written(pen, *a).0, *b);
    let q = fractions::bar_pen(pen, *a, *b);
    let (top, bottom) = (fractions::numerator(pen, *a), fractions::denominator(pen, *a, *b));
    let width = lemma_width(g, q.seed, q.placed, top.width, bottom.width);
    let axis = -layout::axis_height(q.glyphs);
    measure::lemma_constant(g, 0);
    measure::lemma_opposite(g, layout::axis_height(q.glyphs));
    lemma_bar(g, q.seed, q.placed, width, axis, k);
    let bar = compose::fraction_bar(q.seed, true, q.placed, width, axis);
    fractions::lemma_fraction_marks(top, bottom, width, axis, bar);
    let f = fractions::drawn(pen, a, b);
    let two = S::mil(2_000);
    let y = (width - bottom.width) / two;
    let by = axis + (compose::numerator_gap::<S>() + two) + bottom.above;
    let below = strokes::marks_moved(bottom.marks, y, by);
    assert forall|i: int| top.marks.len() <= i < f.all.len() - 1 implies #[trigger] f.all[i]
        == below[i - top.marks.len()] by {
        let k = i - top.marks.len();
        assert(f.all[top.marks.len() + k] == below[k]);
    }
    axis
}

proof fn lemma_bar<S: Scalar>(g: Gauge<S>, seed: u64, placed: usize, width: S, axis: S, k: int)
    requires
        g.is_true(),
        g.is_fine(),
        (g.numbers)(width),
        0 <= (g.at)(width),
        32 * (g.at)(width) <= g.reach,
        lines::is_short(g, axis),
        0 <= k <= 8,
    ensures
        ({
            let bar = compose::fraction_bar(seed, true, placed, width, axis);
            &&& bar.len() == 9
            &&& g.is_about(bar[0].0, 2_000 * g.unit, 12)
            &&& g.is_about(bar[8].0, (g.at)(width) - 2_000 * g.unit, 13)
            &&& g.is_about(bar[k].1, (g.at)(axis), 1_840)
        }),
{
    let two = S::mil(2_000);
    measure::lemma_constant(g, 2_000);
    measure::lemma_difference(g, width, two);
    let key = "\\fracbar"@;
    lines::law_level_lines_stay_level(g, seed, placed, key, two, width - two, axis, 0);
    lines::law_level_lines_stay_level(g, seed, placed, key, two, width - two, axis, 8);
    lines::law_level_lines_stay_level(g, seed, placed, key, two, width - two, axis, k);
}

/// In every number type that computes nearly exactly the bar of a fraction overhangs: on
/// both sides it reaches nearly five pixels beyond all ink of the numerator and the
/// denominator, where that hardly sticks out of its box, and it stays within the fraction's
/// width. The numerator's strokes come first, the bar last.
pub proof fn law_bars_reach_beyond_the_ink<S: Scalar>(
    g: Gauge<S>,
    pen: Pen<S>,
    a: Box<Node<S>>,
    b: Box<Node<S>>,
    i: int,
    j: int,
)
    requires
        is_drawn(g, pen, a, b),
        hardly_sticks_out(g, fractions::numerator(pen, *a)),
        hardly_sticks_out(g, fractions::denominator(pen, *a, *b)),
        0 <= i < fractions::drawn(pen, a, b).all.len() - 1,
        strokes::has_point(fractions::drawn(pen, a, b).all, i, j),
    ensures
        ({
            let f = fractions::drawn(pen, a, b);
            let x = (g.at)(f.all[i].points[j].0);
            &&& f.bar.len() == 9
            &&& (g.at)(f.bar[0].0) + 4_950 * g.unit <= x
            &&& x + 4_950 * g.unit <= (g.at)(f.bar[8].0)
            &&& (g.at)(f.bar[8].0) <= (g.at)(f.width)
        }),
{
    let f = fractions::drawn(pen, a, b);
    lemma_drawn(g, pen, a, b, 0);
    measure::lemma_constant(g, 0);
    let x = lemma_centred(g, f.width, f.top.width);
    let y = lemma_centred(g, f.width, f.bottom.width);
    let n = f.top.marks.len() as int;
    if i < n {
        assert(strokes::has_point(f.top.marks, i, j));
        let p = f.top.marks[i].points[j].0;
        assert(f.all[i].points[j].0 == p + x);
        lemma_overhang(g, f.width, f.top.width, p, x);
    } else {
        let k = i - n;
        assert(strokes::has_point(f.bottom.marks, k, j));
        let p = f.bottom.marks[k].points[j].0;
        assert(f.all[i].points[j].0 == p + y);
        lemma_overhang(g, f.width, f.bottom.width, p, y);
    }
}

proof fn lemma_overhang<S: Scalar>(g: Gauge<S>, width: S, part: S, p: S, x: S)
    requires
        g.is_true(),
        (g.numbers)(p) && (g.numbers)(x),
        -4_000 * g.unit <= (g.at)(p) <= (g.at)(part) + 4_000 * g.unit,
        0 <= (g.at)(part),
        (g.at)(part) + 21_970 * g.unit <= (g.at)(width),
        32 * (g.at)(width) <= g.reach,
        10_983 * g.unit <= (g.at)(x),
        2 * (g.at)(x) <= (g.at)(width) - (g.at)(part) + 3 * g.unit,
    ensures
        6_982 * g.unit <= (g.at)(p + x),
        (g.at)(p + x) + 6_970 * g.unit <= (g.at)(width),
{
    measure::lemma_constant(g, 0);
    measure::lemma_sum(g, p, x);
}

/// The bar is the writing line of the numerator. Ink that hangs no lower than the deepest
/// subscript baseline clears the ink of the bar, drawn in the default width, by more than
/// four tenths of a pixel; ink that hangs 5.31 pixels lower crosses the bar.
pub proof fn law_numerators_rest_on_their_bar<S: Scalar>(
    g: Gauge<S>,
    pen: Pen<S>,
    a: Box<Node<S>>,
    b: Box<Node<S>>,
    i: int,
    j: int,
    k: int,
)
    requires
        is_drawn(g, pen, a, b),
        strokes::has_point(fractions::numerator(pen, *a).marks, i, j),
        0 <= k <= 8,
    ensures
        ({
            let f = fractions::drawn(pen, a, b);
            let y = (g.at)(f.top.marks[i].points[j].1);
            let deepest = (g.at)(f.top.script_drop);
            let (ink, bar) = ((g.at)(f.all[i].points[j].1), (g.at)(f.bar[k].1));
            &&& strokes::has_point(f.all, i, j)
            &&& y <= deepest ==> ink + 430 * g.unit + 1_150 * g.unit <= bar
            &&& y >= deepest + 5_310 * g.unit ==> bar <= ink
        }),
{
    let f = fractions::drawn(pen, a, b);
    let axis = lemma_drawn(g, pen, a, b, k);
    let y = f.top.marks[i].points[j].1;
    assert(g.is_modest(y));
    lemma_standing(g, axis, f.top.script_drop, y);
    let ty = axis - compose::numerator_gap::<S>() - f.top.script_drop;
    assert(f.all[i].points[j].1 == y + ty);
}

proof fn lemma_standing<S: Scalar>(g: Gauge<S>, axis: S, drop: S, y: S)
    requires
        g.is_true(),
        g.is_fine(),
        lines::is_short(g, axis),
        g.is_modest(drop) && g.is_modest(y),
    ensures
        0 < g.unit,
        g.is_about(
            y + (axis - compose::numerator_gap::<S>() - drop),
            (g.at)(axis) - 3_450 * g.unit - (g.at)(drop) + (g.at)(y),
            20,
        ),
{
    let gap = compose::numerator_gap::<S>();
    lemma_gap(g);
    measure::lemma_constant(g, 0);
    assert(-15 * g.unit <= (g.at)(gap) - 3_450 * g.unit <= 15 * g.unit);
    measure::lemma_difference(g, axis, gap);
    measure::lemma_difference(g, axis - gap, drop);
    measure::lemma_sum(g, y, axis - gap - drop);
}

proof fn lemma_hanging<S: Scalar>(g: Gauge<S>, axis: S, above: S, y: S)
    requires
        g.is_true(),
        g.is_fine(),
        lines::is_short(g, axis),
        g.is_modest(above) && g.is_modest(y),
    ensures
        0 < g.unit,
        g.is_about(
            y + (axis + (compose::numerator_gap::<S>() + S::mil(2_000)) + above),
            (g.at)(axis) + 5_450 * g.unit + (g.at)(above) + (g.at)(y),
            20,
        ),
{
    let (gap, two) = (compose::numerator_gap::<S>(), S::mil(2_000));
    lemma_gap(g);
    measure::lemma_constant(g, 2_000);
    assert(-15 * g.unit <= (g.at)(gap) - 3_450 * g.unit <= 15 * g.unit);
    measure::lemma_sum(g, gap, two);
    measure::lemma_sum(g, axis, gap + two);
    measure::lemma_sum(g, axis + (gap + two), above);
    measure::lemma_sum(g, y, axis + (gap + two) + above);
}

/// The denominator hangs below the bar by the top of its ink and keeps more air: 2.4 pixels
/// between the two, drawn in the default width.
pub proof fn law_denominators_clear_their_bar<S: Scalar>(
    g: Gauge<S>,
    pen: Pen<S>,
    a: Box<Node<S>>,
    b: Box<Node<S>>,
    i: int,
    j: int,
    k: int,
)
    requires
        is_drawn(g, pen, a, b),
        ink::nearly_holds_its_ink(g, fractions::denominator(pen, *a, *b), 3),
        strokes::has_point(fractions::denominator(pen, *a, *b).marks, i, j),
        0 <= k <= 8,
    ensures
        ({
            let f = fractions::drawn(pen, a, b);
            let first = f.top.marks.len();
            &&& strokes::has_point(f.all, first + i, j)
            &&& (g.at)(f.bar[k].1) + 1_150 * g.unit + 2_400 * g.unit <= (g.at)(
                f.all[first + i].points[j].1,
            )
        }),
{
    let f = fractions::drawn(pen, a, b);
    let axis = lemma_drawn(g, pen, a, b, k);
    let y = f.bottom.marks[i].points[j].1;
    assert(g.is_modest(y));
    lemma_hanging(g, axis, f.bottom.above, y);
    let by = axis + (compose::numerator_gap::<S>() + S::mil(2_000)) + f.bottom.above;
    let first = f.top.marks.len();
    assert(f.all[first + i].points[j].1 == y + by);
}

} // verus!
