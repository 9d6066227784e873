//! How far the scripts of a formula stand from their base.
use crate::compose;
use crate::gauge::ink;
use crate::gauge::measure;
use crate::gauge::measure::Gauge;
use crate::layout;
use crate::node::Node;
use crate::pen::{Pen, Written};
use crate::scalar::Scalar;
use crate::strokes;
use crate::strokes::{Axis, BoxView, MarkView};
use vstd::prelude::*;

verus! {

/// A subscript of `base` as it is written after it, in its size.
pub open spec fn sub_part<S: Scalar>(pen: Pen<S>, base: Node<S>, sub: Node<S>) -> Written<S> {
    let (p, s) = layout::layout_written(layout::layout_written(pen, base).0, sub);
    (
        p,
        match s {
            Ok(s) => Ok(compose::sub_sized(s, compose::is_integral_node(base))),
            Err(e) => Err(e),
        },
    )
}

/// A superscript of `base` as it is written after the subscript, in its size.
pub open spec fn sup_part<S: Scalar>(
    pen: Pen<S>,
    base: Node<S>,
    sub: Node<S>,
    sup: Node<S>,
) -> Written<S> {
    let (p, s) = layout::layout_written(sub_part(pen, base, sub).0, sup);
    (
        p,
        match s {
            Ok(s) => Ok(compose::sup_sized(s, compose::is_integral_node(base))),
            Err(e) => Err(e),
        },
    )
}

/// The superscript of `base`, where it has one.
pub open spec fn optional_sup<S: Scalar>(
    pen: Pen<S>,
    base: Node<S>,
    sub: Node<S>,
    sup: Option<Box<Node<S>>>,
) -> Option<BoxView<S>> {
    match sup {
        Some(n) => Some(sup_part(pen, base, sub, *n).1->Ok_0),
        None => None,
    }
}

/// A base with a subscript is put together from its parts.
pub proof fn lemma_script_layout<S: Scalar>(
    pen: Pen<S>,
    base: Box<Node<S>>,
    sub: Box<Node<S>>,
    sup: Option<Box<Node<S>>>,
)
    requires
        layout::layout_written(pen, Node::Script { base, sub: Some(sub), sup }).1 is Ok,
    ensures
        layout::layout_written(pen, *base).1 is Ok,
        sub_part(pen, *base, *sub).1 is Ok,
        sup matches Some(n) ==> sup_part(pen, *base, *sub, *n).1 is Ok,
        layout::layout_written(pen, Node::Script { base, sub: Some(sub), sup }).1 == Ok::<
            BoxView<S>,
            Seq<char>,
        >(
            compose::script_box(
                layout::layout_written(pen, *base).1->Ok_0,
                Some(sub_part(pen, *base, *sub).1->Ok_0),
                optional_sup(pen, *base, *sub, sup),
            ),
        ),
{
}

/// The strokes of a base with its scripts beside it: those of the subscript come last.
pub proof fn lemma_beside_marks<S: Scalar>(
    b: BoxView<S>,
    s: BoxView<S>,
    sup: Option<BoxView<S>>,
) -> (r: (S, Seq<MarkView<S>>))
    requires
        !b.large,
    ensures
        compose::script_box(b, Some(s), sup).marks == r.1 + strokes::marks_moved(
            s.marks,
            compose::sub_place(b, Some(s)),
            r.0,
        ),
        b.marks.len() <= r.1.len(),
        forall|i: int| 0 <= i < b.marks.len() ==> #[trigger] r.1[i] == b.marks[i],
{
    reveal(compose::script_box);
    let uy = b.below.larger(S::mil(8_000)) + S::mil(6_000);
    let sy = -(b.above.larger(S::mil(34_000))) + S::mil(10_000);
    let before = match sup {
        Some(p) => b.marks + strokes::marks_moved(p.marks, b.width - S::mil(2_000), sy),
        None => b.marks,
    };
    (uy, before)
}

/// The strokes of a large symbol with its limits, and how far they reach.
pub proof fn lemma_limit_marks<S: Scalar>(b: BoxView<S>, s: BoxView<S>, p: BoxView<S>) -> (r: (S, S, S))
    requires
        b.large,
    ensures
        ({
            let limits = compose::script_box(b, Some(s), Some(p));
            let sy = -b.above - S::mil(10_000) - p.below;
            let uy = b.below + S::mil(10_000) + s.above;
            &&& limits.marks == strokes::marks_moved(b.marks, r.0, S::mil(0))
                + strokes::marks_moved(p.marks, r.1, sy) + strokes::marks_moved(s.marks, r.2, uy)
            &&& limits.above == b.above.larger(-sy + p.above)
            &&& limits.below == b.below.larger(uy + s.below)
        }),
{
    reveal(compose::script_box);
    let two = S::mil(2_000);
    let width = b.width.larger(p.width).larger(s.width) + S::mil(6_000);
    ((width - b.width) / two, (width - p.width) / two, (width - s.width) / two)
}

proof fn lemma_sub_place<S: Scalar>(
    g: Gauge<S>,
    b: BoxView<S>,
    s: BoxView<S>,
    i: int,
    j: int,
    k: int,
    l: int,
)
    requires
        g.is_true(),
        ink::is_modest(g, b),
        ink::is_modest(g, s),
        strokes::has_point(b.marks, i, j),
        strokes::has_point(s.marks, k, l),
    ensures
        ({
            let x = compose::sub_place(b, Some(s));
            &&& (g.numbers)(x)
            &&& -g.reach <= 2 * (g.at)(x) <= g.reach
            &&& (g.at)(b.marks[i].points[j].0) + 7_000 * g.unit - 3 * g.slack <= (g.at)(x) + (
            g.at)(s.marks[k].points[l].0)
        }),
{
    let (left, right) = ink::lemma_extent(g, b.marks, Axis::X, i, j);
    let (sub_left, sub_right) = ink::lemma_extent(g, s.marks, Axis::X, k, l);
    assert((g.at)(strokes::along(b.marks[i].points[j], Axis::X)) <= (g.at)(right));
    assert((g.at)(sub_left) <= (g.at)(strokes::along(s.marks[k].points[l], Axis::X)));
    measure::lemma_constant(g, 2_000);
    measure::lemma_constant(g, 7_000);
    measure::lemma_difference(g, b.width, S::mil(2_000));
    measure::lemma_difference(g, right, sub_left);
    measure::lemma_sum(g, right - sub_left, S::mil(7_000));
    measure::lemma_larger(g, b.width - S::mil(2_000), right - sub_left + S::mil(7_000));
}

/// In every number type that computes nearly exactly, however a formula is varied, the ink
/// of a subscript starts seven pixels to the right of all ink of its base, up to four
/// roundings. The subscript's strokes come last.
pub proof fn law_subscripts_clear_their_base<S: Scalar>(
    g: Gauge<S>,
    pen: Pen<S>,
    base: Box<Node<S>>,
    sub: Box<Node<S>>,
    sup: Option<Box<Node<S>>>,
    i: int,
    j: int,
    k: int,
    l: int,
)
    requires
        g.is_true(),
        layout::layout_written(pen, Node::Script { base, sub: Some(sub), sup }).1 is Ok,
        ({
            let b = layout::layout_written(pen, *base).1->Ok_0;
            let s = sub_part(pen, *base, *sub).1->Ok_0;
            &&& !b.large
            &&& ink::is_modest(g, b)
            &&& ink::is_modest(g, s)
            &&& strokes::has_point(b.marks, i, j)
            &&& strokes::has_point(s.marks, k, l)
        }),
    ensures
        ({
            let b = layout::layout_written(pen, *base).1->Ok_0;
            let s = sub_part(pen, *base, *sub).1->Ok_0;
            let all = layout::layout_written(
                pen,
                Node::Script { base, sub: Some(sub), sup },
            ).1->Ok_0.marks;
            let first = all.len() - s.marks.len();
            &&& all[i] == b.marks[i]
            &&& strokes::has_point(all, first + k, l)
            &&& (g.at)(all[i].points[j].0) + 7_000 * g.unit - 4 * g.slack <= (g.at)(
                all[first + k].points[l].0,
            )
        }),
{
    lemma_script_layout(pen, base, sub, sup);
    let b = layout::layout_written(pen, *base).1->Ok_0;
    let s = sub_part(pen, *base, *sub).1->Ok_0;
    let sup = optional_sup(pen, *base, *sub, sup);
    let x = compose::sub_place(b, Some(s));
    lemma_sub_place(g, b, s, i, j, k, l);
    let (uy, before) = lemma_beside_marks(b, s, sup);
    let all = compose::script_box(b, Some(s), sup).marks;
    let first = before.len() as int;
    let p = s.marks[k].points[l];
    assert(all[first + k] == strokes::marks_moved(s.marks, x, uy)[k]);
    assert(all[first + k].points[l].0 == p.0 + x);
    assert(all[i] == before[i]);
    assert(g.is_modest(p.0));
    measure::lemma_sum(g, p.0, x);
}

proof fn lemma_limits_are_clear<S: Scalar>(
    g: Gauge<S>,
    b: BoxView<S>,
    s: BoxView<S>,
    p: BoxView<S>,
)
    requires
        g.is_true(),
        b.large,
        ink::is_modest(g, b),
        ink::is_modest(g, s),
        ink::is_modest(g, p),
    ensures
        ({
            let sy = -b.above - S::mil(10_000) - p.below;
            let uy = b.below + S::mil(10_000) + s.above;
            let limits = compose::script_box(b, Some(s), Some(p));
            let over = (g.at)(b.above) + 10_000 * g.unit + (g.at)(p.below);
            let under = (g.at)(b.below) + 10_000 * g.unit + (g.at)(s.above);
            &&& (g.numbers)(sy) && (g.numbers)(uy)
            &&& -3 * g.slack <= (g.at)(sy) + over <= 3 * g.slack
            &&& -3 * g.slack <= (g.at)(uy) - under <= 3 * g.slack
            &&& over + (g.at)(p.above) - 4 * g.slack <= (g.at)(limits.above)
            &&& under + (g.at)(s.below) - 4 * g.slack <= (g.at)(limits.below)
        }),
{
    let (bx, px, sx) = lemma_limit_marks(b, s, p);
    let ten = S::mil(10_000);
    measure::lemma_constant(g, 10_000);
    measure::lemma_opposite(g, b.above);
    measure::lemma_difference(g, -b.above, ten);
    measure::lemma_difference(g, -b.above - ten, p.below);
    let sy = -b.above - ten - p.below;
    measure::lemma_opposite(g, sy);
    measure::lemma_sum(g, -sy, p.above);
    measure::lemma_larger(g, b.above, -sy + p.above);
    measure::lemma_sum(g, b.below, ten);
    measure::lemma_sum(g, b.below + ten, s.above);
    let uy = b.below + ten + s.above;
    measure::lemma_sum(g, uy, s.below);
    measure::lemma_larger(g, b.below, uy + s.below);
}

/// In every number type that computes nearly exactly, however a formula is varied, every
/// point of an upper limit lies ten pixels above all ink of a large symbol, and every point
/// of a lower one as far below it, up to six roundings, where the three boxes hold their
/// ink. Where they hold it up to `n` thousandths, so much is lost on either side. The
/// symbol's strokes come first, then the upper limit's.
pub proof fn law_limits_clear_their_symbol<S: Scalar>(
    g: Gauge<S>,
    pen: Pen<S>,
    base: Box<Node<S>>,
    sub: Box<Node<S>>,
    sup: Box<Node<S>>,
    n: int,
    i: int,
    j: int,
    k: int,
    l: int,
)
    requires
        g.is_true(),
        layout::layout_written(pen, Node::Script { base, sub: Some(sub), sup: Some(sup) }).1 is Ok,
        ({
            let b = layout::layout_written(pen, *base).1->Ok_0;
            let s = sub_part(pen, *base, *sub).1->Ok_0;
            let p = sup_part(pen, *base, *sub, *sup).1->Ok_0;
            &&& b.large
            &&& ink::is_modest(g, b) && ink::nearly_holds_its_ink(g, b, n)
            &&& ink::is_modest(g, s) && ink::nearly_holds_its_ink(g, s, n)
            &&& ink::is_modest(g, p) && ink::nearly_holds_its_ink(g, p, n)
            &&& strokes::has_point(b.marks, i, j)
        }),
    ensures
        ({
            let b = layout::layout_written(pen, *base).1->Ok_0;
            let s = sub_part(pen, *base, *sub).1->Ok_0;
            let p = sup_part(pen, *base, *sub, *sup).1->Ok_0;
            let limits = layout::layout_written(
                pen,
                Node::Script { base, sub: Some(sub), sup: Some(sup) },
            ).1->Ok_0;
            let all = limits.marks;
            let upper = b.marks.len() as int;
            let lower = b.marks.len() + p.marks.len();
            let gap = 10_000 * g.unit - 6 * g.slack - 2 * (n * g.unit);
            let reach = 10_000 * g.unit - 6 * g.slack;
            &&& strokes::has_point(all, i, j)
            &&& strokes::has_point(p.marks, k, l) ==> strokes::has_point(all, upper + k, l) && (
            g.at)(all[upper + k].points[l].1) + gap <= (g.at)(all[i].points[j].1)
            &&& strokes::has_point(s.marks, k, l) ==> strokes::has_point(all, lower + k, l) && (
            g.at)(all[i].points[j].1) + gap <= (g.at)(all[lower + k].points[l].1)
            &&& (g.at)(b.above) + (g.at)(p.below) + (g.at)(p.above) + reach <= (g.at)(limits.above)
            &&& (g.at)(b.below) + (g.at)(s.above) + (g.at)(s.below) + reach <= (g.at)(limits.below)
        }),
{
    lemma_script_layout(pen, base, sub, Some(sup));
    let b = layout::layout_written(pen, *base).1->Ok_0;
    let s = sub_part(pen, *base, *sub).1->Ok_0;
    let p = sup_part(pen, *base, *sub, *sup).1->Ok_0;
    let (bx, px, sx) = lemma_limit_marks(b, s, p);
    lemma_limits_are_clear(g, b, s, p);
    measure::lemma_constant(g, 0);
    let all = compose::script_box(b, Some(s), Some(p)).marks;
    let upper = b.marks.len() as int;
    let lower = b.marks.len() + p.marks.len();
    let sy = -b.above - S::mil(10_000) - p.below;
    let uy = b.below + S::mil(10_000) + s.above;
    assert(all[i] == strokes::marks_moved(b.marks, bx, S::mil(0))[i]);
    assert(all[i].points[j].1 == b.marks[i].points[j].1 + S::mil(0));
    assert(g.is_modest(b.marks[i].points[j].1));
    measure::lemma_sum(g, b.marks[i].points[j].1, S::mil(0));
    if strokes::has_point(p.marks, k, l) {
        assert(all[upper + k] == strokes::marks_moved(p.marks, px, sy)[k]);
        assert(all[upper + k].points[l].1 == p.marks[k].points[l].1 + sy);
        assert(g.is_modest(p.marks[k].points[l].1));
        measure::lemma_sum(g, p.marks[k].points[l].1, sy);
    }
    if strokes::has_point(s.marks, k, l) {
        assert(all[lower + k] == strokes::marks_moved(s.marks, sx, uy)[k]);
        assert(all[lower + k].points[l].1 == s.marks[k].points[l].1 + uy);
        assert(g.is_modest(s.marks[k].points[l].1));
        measure::lemma_sum(g, s.marks[k].points[l].1, uy);
    }
}

/// A box that holds its ink does so in the size of a script, too.
pub proof fn law_scripts_hold_their_ink<S: Scalar>(g: Gauge<S>, b: BoxView<S>, integral: bool)
    requires
        g.is_true(),
        ink::holds_its_ink(g, b),
        -(g.at)(b.above) <= (g.at)(b.below),
    ensures
        ink::holds_its_ink(g, compose::sub_sized(b, integral)),
        ink::holds_its_ink(g, compose::sup_sized(b, integral)),
{
    let (lower, upper): (int, int) = if integral {
        (400, 440)
    } else {
        (500, 550)
    };
    ink::law_smaller_boxes_hold_their_ink(g, b, lower);
    ink::law_smaller_boxes_hold_their_ink(g, strokes::box_scaled(b, S::mil(lower)), 820);
    ink::law_smaller_boxes_hold_their_ink(g, b, upper);
    ink::law_smaller_boxes_hold_their_ink(g, strokes::box_scaled(b, S::mil(upper)), 850);
}

} // verus!
