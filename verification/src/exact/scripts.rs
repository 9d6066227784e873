//! How far the scripts of a formula stand from their base.
use crate::compose;
use crate::exact::boxes;
use crate::gauge::ink;
use crate::gauge::measure;
use crate::gauge::scripts;
use crate::glyphs;
use crate::layout;
use crate::milli::Milli;
use crate::node::Node;
use crate::pen::Pen;
use crate::scalar::Scalar;
use crate::strokes;
use crate::strokes::BoxView;
use vstd::prelude::*;

verus! {

proof fn lemma_modest(b: BoxView<Milli>)
    requires
        boxes::is_modest(b),
    ensures
        ink::is_modest(measure::thousandths(), b),
        boxes::holds_its_ink(b) ==> ink::nearly_holds_its_ink(measure::thousandths(), b, 0),
{
}

/// However a formula is varied, the ink of a subscript starts at least seven pixels to the
/// right of all ink of its base. The subscript's strokes come last.
pub proof fn law_subscripts_clear_their_base(
    pen: Pen<Milli>,
    base: Box<Node<Milli>>,
    sub: Box<Node<Milli>>,
    sup: Option<Box<Node<Milli>>>,
    i: int,
    j: int,
    k: int,
    l: int,
)
    requires
        layout::layout_written(pen, Node::Script { base, sub: Some(sub), sup }).1 is Ok,
        ({
            let b = layout::layout_written(pen, *base).1->Ok_0;
            let s = scripts::sub_part(pen, *base, *sub).1->Ok_0;
            &&& !b.large
            &&& boxes::is_modest(b)
            &&& boxes::is_modest(s)
            &&& strokes::has_point(b.marks, i, j)
            &&& strokes::has_point(s.marks, k, l)
        }),
    ensures
        ({
            let b = layout::layout_written(pen, *base).1->Ok_0;
            let s = scripts::sub_part(pen, *base, *sub).1->Ok_0;
            let all = layout::layout_written(
                pen,
                Node::Script { base, sub: Some(sub), sup },
            ).1->Ok_0.marks;
            let first = all.len() - s.marks.len();
            &&& all[i] == b.marks[i]
            &&& strokes::has_point(all, first + k, l)
            &&& all[i].points[j].0.0 + 7_000 <= all[first + k].points[l].0.0
        }),
{
    let g = measure::thousandths();
    measure::law_thousandths_are_exact();
    lemma_modest(layout::layout_written(pen, *base).1->Ok_0);
    lemma_modest(scripts::sub_part(pen, *base, *sub).1->Ok_0);
    scripts::law_subscripts_clear_their_base(g, pen, base, sub, sup, i, j, k, l);
}

/// However a formula is varied, every point of an upper limit lies at least ten pixels
/// above all ink of a large symbol, and every point of a lower one as far below it, where
/// the three boxes hold their ink. The symbol's strokes come first, then the upper limit's.
pub proof fn law_limits_clear_their_symbol(
    pen: Pen<Milli>,
    base: Box<Node<Milli>>,
    sub: Box<Node<Milli>>,
    sup: Box<Node<Milli>>,
    i: int,
    j: int,
    k: int,
    l: int,
)
    requires
        layout::layout_written(pen, Node::Script { base, sub: Some(sub), sup: Some(sup) }).1 is Ok,
        ({
            let b = layout::layout_written(pen, *base).1->Ok_0;
            let s = scripts::sub_part(pen, *base, *sub).1->Ok_0;
            let p = scripts::sup_part(pen, *base, *sub, *sup).1->Ok_0;
            &&& b.large
            &&& boxes::is_modest(b) && boxes::holds_its_ink(b)
            &&& boxes::is_modest(s) && boxes::holds_its_ink(s)
            &&& boxes::is_modest(p) && boxes::holds_its_ink(p)
            &&& strokes::has_point(b.marks, i, j)
        }),
    ensures
        ({
            let b = layout::layout_written(pen, *base).1->Ok_0;
            let s = scripts::sub_part(pen, *base, *sub).1->Ok_0;
            let p = scripts::sup_part(pen, *base, *sub, *sup).1->Ok_0;
            let limits = layout::layout_written(
                pen,
                Node::Script { base, sub: Some(sub), sup: Some(sup) },
            ).1->Ok_0;
            let all = limits.marks;
            let upper = b.marks.len() as int;
            let lower = b.marks.len() + p.marks.len();
            &&& strokes::has_point(all, i, j)
            &&& strokes::has_point(p.marks, k, l) ==> strokes::has_point(all, upper + k, l)
                && all[upper + k].points[l].1.0 + 10_000 <= all[i].points[j].1.0
            &&& strokes::has_point(s.marks, k, l) ==> strokes::has_point(all, lower + k, l)
                && all[i].points[j].1.0 + 10_000 <= all[lower + k].points[l].1.0
            &&& b.above.0 + 10_000 + p.below.0 + p.above.0 <= limits.above.0
            &&& b.below.0 + 10_000 + s.above.0 + s.below.0 <= limits.below.0
        }),
{
    let g = measure::thousandths();
    measure::law_thousandths_are_exact();
    lemma_modest(layout::layout_written(pen, *base).1->Ok_0);
    lemma_modest(scripts::sub_part(pen, *base, *sub).1->Ok_0);
    lemma_modest(scripts::sup_part(pen, *base, *sub, *sup).1->Ok_0);
    scripts::law_limits_clear_their_symbol(g, pen, base, sub, sup, 0, i, j, k, l);
}

/// Single symbols, other than raised dots, are such parts: their boxes hold their ink in
/// the size of a script, too.
pub proof fn law_scripts_hold_their_ink(pen: Pen<Milli>, key: String, integral: bool)
    requires
        key@ != "\\cdots"@,
        layout::layout_written(pen, Node::Glyph(key)).1 is Ok,
        boxes::is_finite_ink(layout::layout_written(pen, Node::Glyph(key)).1->Ok_0),
    ensures
        ({
            let b = layout::layout_written(pen, Node::Glyph(key)).1->Ok_0;
            &&& boxes::holds_its_ink(b)
            &&& boxes::holds_its_ink(compose::sub_sized(b, integral))
            &&& boxes::holds_its_ink(compose::sup_sized(b, integral))
        }),
{
    let b = layout::layout_written(pen, Node::Glyph(key)).1->Ok_0;
    assert(b == glyphs::glyph_written(pen, key@).1->Ok_0);
    boxes::law_glyphs_hold_their_ink(pen, key@);
    let lower = Milli::mil(if integral { 400 } else { 500 });
    let upper = Milli::mil(if integral { 440 } else { 550 });
    boxes::law_smaller_boxes_hold_their_ink(b, lower);
    boxes::law_smaller_boxes_hold_their_ink(strokes::box_scaled(b, lower), Milli(820));
    boxes::law_smaller_boxes_hold_their_ink(b, upper);
    boxes::law_smaller_boxes_hold_their_ink(strokes::box_scaled(b, upper), Milli(850));
}

} // verus!
