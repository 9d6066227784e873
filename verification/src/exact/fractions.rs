//! How far the parts of a fraction stand from its bar.
use crate::bits;
use crate::compose;
use crate::exact::arithmetic;
use crate::exact::boxes;
use crate::exact::lines;
use crate::laws;
use crate::layout;
use crate::milli::Milli;
use crate::node::Node;
use crate::pen::Pen;
use crate::scalar::Scalar;
use crate::strokes;
use crate::strokes::BoxView;
use vstd::prelude::*;

verus! {

/// The numerator of a fraction as it is written, in its size.
pub open spec fn numerator<S: Scalar>(pen: Pen<S>, a: Node<S>) -> BoxView<S> {
    strokes::box_scaled(layout::layout_written(pen, a).1->Ok_0, S::mil(550))
}

/// The denominator of a fraction as it is written after the numerator, in its size.
pub open spec fn denominator<S: Scalar>(pen: Pen<S>, a: Node<S>, b: Node<S>) -> BoxView<S> {
    strokes::box_scaled(
        layout::layout_written(layout::layout_written(pen, a).0, b).1->Ok_0,
        S::mil(550),
    )
}

/// The pen with which the bar of a fraction is drawn.
pub open spec fn bar_pen<S: Scalar>(pen: Pen<S>, a: Node<S>, b: Node<S>) -> Pen<S> {
    layout::layout_written(layout::layout_written(pen, a).0, b).0
}

/// A fraction is put together from its parts.
pub proof fn lemma_fraction_layout<S: Scalar>(pen: Pen<S>, a: Box<Node<S>>, b: Box<Node<S>>)
    requires
        layout::layout_written(pen, Node::Fraction(a, b)).1 is Ok,
    ensures
        ({
            let (top, bottom) = (numerator(pen, *a), denominator(pen, *a, *b));
            let q = bar_pen(pen, *a, *b);
            let width = compose::fraction_width(
                q.seed,
                q.variation,
                q.placed,
                top.width,
                bottom.width,
            );
            let axis = -layout::axis_height(q.glyphs);
            let bar = compose::fraction_bar(q.seed, q.variation, q.placed, width, axis);
            layout::layout_written(pen, Node::Fraction(a, b)).1 == Ok::<BoxView<S>, Seq<char>>(
                compose::fraction_box(top, bottom, width, axis, bar),
            )
        }),
{
    reveal(layout::fraction_written);
}

/// The strokes of a fraction: those of its parts where they are placed, and its bar.
pub proof fn lemma_fraction_marks<S: Scalar>(
    top: BoxView<S>,
    bottom: BoxView<S>,
    width: S,
    axis: S,
    bar: Seq<(S, S)>,
)
    ensures
        ({
            let all = compose::fraction_box(top, bottom, width, axis, bar).marks;
            let two = S::mil(2_000);
            let ty = axis - compose::numerator_gap::<S>() - top.script_drop;
            let by = axis + (compose::numerator_gap::<S>() + two) + bottom.above;
            let above = strokes::marks_moved(top.marks, (width - top.width) / two, ty);
            let below = strokes::marks_moved(bottom.marks, (width - bottom.width) / two, by);
            &&& all.len() == top.marks.len() + bottom.marks.len() + 1
            &&& all.last().points == bar
            &&& forall|i: int| 0 <= i < top.marks.len() ==> #[trigger] all[i] == above[i]
            &&& forall|i: int|
                0 <= i < bottom.marks.len() ==> all[top.marks.len() + i] == #[trigger] below[i]
        }),
{
}

proof fn lemma_axis(pen: Pen<Milli>)
    ensures
        16_000 <= layout::axis_height(pen.glyphs).0 <= 60_000,
{
}

proof fn lemma_width(seed: u64, placed: usize, top: Milli, bottom: Milli) -> (r: Milli)
    requires
        0 <= top.0 <= 100_000_000,
        0 <= bottom.0 <= 100_000_000,
    ensures
        r == compose::fraction_width(seed, true, placed, top, bottom),
        top.0 + 22_000 <= r.0 <= 200_000_000,
        bottom.0 + 22_000 <= r.0,
{
    let draw = bits::bits_of_instance(seed, "\\frac-width"@, placed);
    arithmetic::lemma_draws_are_within_one(draw);
    let swing = bits::signed_unit_of::<Milli>(draw);
    arithmetic::lemma_product_within(Milli(8_000), swing, 8_000, 1_000);
    compose::fraction_width(seed, true, placed, top, bottom)
}

proof fn lemma_centred(width: Milli, part: Milli) -> (r: Milli)
    requires
        0 <= part.0 <= 100_000_000,
        part.0 + 22_000 <= width.0 <= 200_000_000,
    ensures
        r == (width - part) / Milli(2_000),
        11_000 <= r.0,
        2 * r.0 <= width.0 - part.0,
{
    let room = width.0 - part.0;
    arithmetic::lemma_ratio(room, 2_000);
    assert(11_000 <= room * 1_000 / 2_000 && 2 * (room * 1_000 / 2_000) <= room);
    (width - part) / Milli(2_000)
}

/// Whether the ink of a box sticks out of its width by no more than four pixels.
pub open spec fn hardly_sticks_out(b: BoxView<Milli>) -> bool {
    forall|i: int, j: int|
        strokes::has_point(b.marks, i, j) ==> -4_000 <= (#[trigger] b.marks[i].points[j]).0.0
            <= b.width.0 + 4_000
}

/// A fraction that is drawn by hand, its parts, its bar, and the height of that.
pub struct Drawn<S> {
    pub all: Seq<strokes::MarkView<S>>,
    pub top: BoxView<S>,
    pub bottom: BoxView<S>,
    pub bar: Seq<(S, S)>,
    pub width: S,
}

/// The parts of a fraction as it is laid out.
pub open spec fn drawn<S: Scalar>(pen: Pen<S>, a: Box<Node<S>>, b: Box<Node<S>>) -> Drawn<S> {
    let all = layout::layout_written(pen, Node::Fraction(a, b)).1->Ok_0;
    Drawn {
        all: all.marks,
        top: numerator(pen, *a),
        bottom: denominator(pen, *a, *b),
        bar: all.marks.last().points,
        width: all.width,
    }
}

/// Whether a fraction is laid out with variation, and its parts have an ordinary size.
pub open spec fn is_drawn(pen: Pen<Milli>, a: Box<Node<Milli>>, b: Box<Node<Milli>>) -> bool {
    &&& pen.variation
    &&& layout::layout_written(pen, Node::Fraction(a, b)).1 is Ok
    &&& boxes::is_modest(numerator(pen, *a))
    &&& boxes::is_modest(denominator(pen, *a, *b))
    &&& 0 <= numerator(pen, *a).width.0
    &&& 0 <= denominator(pen, *a, *b).width.0
}

proof fn lemma_drawn(pen: Pen<Milli>, a: Box<Node<Milli>>, b: Box<Node<Milli>>, k: int) -> (r: (
    Milli,
    Milli,
))
    requires
        is_drawn(pen, a, b),
        0 <= k <= 8,
    ensures
        ({
            let f = drawn(pen, a, b);
            let (x, y) = (
                (f.width - f.top.width) / Milli(2_000),
                (f.width - f.bottom.width) / Milli(2_000),
            );
            let ty = r.1 - Milli(3_450) - f.top.script_drop;
            let by = r.1 + (Milli(3_450) + Milli(2_000)) + f.bottom.above;
            &&& r.0 == f.width
            &&& -60_000 <= r.1.0 <= -16_000
            &&& f.top.width.0 + 22_000 <= f.width.0 <= 200_000_000
            &&& f.bottom.width.0 + 22_000 <= f.width.0
            &&& f.all.len() == f.top.marks.len() + f.bottom.marks.len() + 1
            &&& f.bar.len() == 9
            &&& f.bar[0] == (Milli(2_000), r.1)
            &&& f.bar[8] == (f.width - Milli(2_000), r.1)
            &&& r.1.0 - 1_800 <= f.bar[k].1.0 <= r.1.0 + 1_800
            &&& forall|i: int|
                0 <= i < f.top.marks.len() ==> #[trigger] f.all[i] == strokes::marks_moved(
                    f.top.marks,
                    x,
                    ty,
                )[i]
            &&& forall|i: int|
                f.top.marks.len() <= i < f.all.len() - 1 ==> #[trigger] f.all[i]
                    == strokes::marks_moved(f.bottom.marks, y, by)[i - f.top.marks.len()]
        }),
{
    lemma_fraction_layout(pen, a, b);
    laws::law_layout_keeps_the_profile(pen, *a);
    laws::law_layout_keeps_the_profile(layout::layout_written(pen, *a).0, *b);
    let q = bar_pen(pen, *a, *b);
    let (top, bottom) = (numerator(pen, *a), denominator(pen, *a, *b));
    let width = lemma_width(q.seed, q.placed, top.width, bottom.width);
    lemma_axis(q);
    let axis = -layout::axis_height(q.glyphs);
    lines::law_bars_are_level(q.seed, q.placed, width, axis, k);
    let bar = compose::fraction_bar(q.seed, true, q.placed, width, axis);
    lemma_fraction_marks(top, bottom, width, axis, bar);
    let f = drawn(pen, a, b);
    let y = (width - bottom.width) / Milli(2_000);
    let by = axis + (Milli(3_450) + Milli(2_000)) + bottom.above;
    let below = strokes::marks_moved(bottom.marks, y, by);
    assert forall|i: int| top.marks.len() <= i < f.all.len() - 1 implies #[trigger] f.all[i]
        == below[i - top.marks.len()] by {
        let k = i - top.marks.len();
        assert(f.all[top.marks.len() + k] == below[k]);
    }
    (width, axis)
}

/// The bar of a fraction overhangs: on both sides it reaches at least five pixels beyond
/// all ink of the numerator and the denominator, where that hardly sticks out of its box,
/// and it stays within the fraction's width. The numerator's strokes come first, the bar
/// last.
pub proof fn law_bars_reach_beyond_the_ink(
    pen: Pen<Milli>,
    a: Box<Node<Milli>>,
    b: Box<Node<Milli>>,
    i: int,
    j: int,
)
    requires
        is_drawn(pen, a, b),
        hardly_sticks_out(numerator(pen, *a)),
        hardly_sticks_out(denominator(pen, *a, *b)),
        0 <= i < drawn(pen, a, b).all.len() - 1,
        strokes::has_point(drawn(pen, a, b).all, i, j),
    ensures
        ({
            let f = drawn(pen, a, b);
            &&& f.bar.len() == 9
            &&& f.bar[0].0.0 + 5_000 <= f.all[i].points[j].0.0
            &&& f.all[i].points[j].0.0 + 5_000 <= f.bar[8].0.0
            &&& f.bar[8].0.0 <= f.width.0
        }),
{
    let f = drawn(pen, a, b);
    let (width, axis) = lemma_drawn(pen, a, b, 0);
    let x = lemma_centred(width, f.top.width);
    let y = lemma_centred(width, f.bottom.width);
    let n = f.top.marks.len() as int;
    if i < n {
        assert(strokes::has_point(f.top.marks, i, j));
        assert(f.all[i].points[j].0 == f.top.marks[i].points[j].0 + x);
    } else {
        let k = i - n;
        let by = axis + (Milli(3_450) + Milli(2_000)) + f.bottom.above;
        assert(f.all[n + k] == strokes::marks_moved(f.bottom.marks, y, by)[k]);
        assert(strokes::has_point(f.bottom.marks, k, j));
        assert(f.all[i].points[j].0 == f.bottom.marks[k].points[j].0 + y);
    }
}

/// The bar is the writing line of the numerator. Ink that hangs no lower than the deepest
/// subscript baseline clears the ink of the bar, drawn in the default width, by half a
/// pixel at least; ink that hangs 5.25 pixels lower crosses the bar.
pub proof fn law_numerators_rest_on_their_bar(
    pen: Pen<Milli>,
    a: Box<Node<Milli>>,
    b: Box<Node<Milli>>,
    i: int,
    j: int,
    k: int,
)
    requires
        is_drawn(pen, a, b),
        strokes::has_point(numerator(pen, *a).marks, i, j),
        0 <= k <= 8,
    ensures
        ({
            let f = drawn(pen, a, b);
            let y = f.top.marks[i].points[j].1.0;
            let deepest = f.top.script_drop.0;
            &&& strokes::has_point(f.all, i, j)
            &&& y <= deepest ==> f.all[i].points[j].1.0 + 500 + 1_150 <= f.bar[k].1.0
            &&& y >= deepest + 5_250 ==> f.bar[k].1.0 <= f.all[i].points[j].1.0
        }),
{
    let f = drawn(pen, a, b);
    let (width, axis) = lemma_drawn(pen, a, b, k);
    let ty = axis - Milli(3_450) - f.top.script_drop;
    assert(arithmetic::within(f.top.marks[i].points[j].1, 100_000_000));
    assert(f.all[i].points[j].1 == f.top.marks[i].points[j].1 + ty);
}

/// The denominator hangs below the bar by the top of its ink and keeps more air: two
/// pixels and a half between the two, drawn in the default width.
pub proof fn law_denominators_clear_their_bar(
    pen: Pen<Milli>,
    a: Box<Node<Milli>>,
    b: Box<Node<Milli>>,
    i: int,
    j: int,
    k: int,
)
    requires
        is_drawn(pen, a, b),
        boxes::holds_its_ink(denominator(pen, *a, *b)),
        strokes::has_point(denominator(pen, *a, *b).marks, i, j),
        0 <= k <= 8,
    ensures
        ({
            let f = drawn(pen, a, b);
            let first = f.top.marks.len();
            &&& strokes::has_point(f.all, first + i, j)
            &&& f.bar[k].1.0 + 1_150 + 2_500 <= f.all[first + i].points[j].1.0
        }),
{
    let f = drawn(pen, a, b);
    let (width, axis) = lemma_drawn(pen, a, b, k);
    let y = (width - f.bottom.width) / Milli(2_000);
    let by = axis + (Milli(3_450) + Milli(2_000)) + f.bottom.above;
    let first = f.top.marks.len();
    assert(f.all[first + i] == strokes::marks_moved(f.bottom.marks, y, by)[i]);
    assert(arithmetic::within(f.bottom.marks[i].points[j].1, 100_000_000));
    assert(-f.bottom.above.0 <= f.bottom.marks[i].points[j].1.0);
    assert(f.all[first + i].points[j].1 == f.bottom.marks[i].points[j].1 + by);
}

} // verus!
