//! Where subscripts, superscripts and limits stand.
use crate::compose;
use crate::exact::arithmetic;
use crate::layout;
use crate::milli::Milli;
use crate::node::Node;
use crate::pen::Pen;
use crate::promises::placing;
use crate::scalar::Scalar;
use crate::strokes;
use crate::strokes::{Axis, BoxView, MarkView};
use vstd::prelude::*;

verus! {

/// The strokes of an optional part.
pub open spec fn strokes_of<S>(b: Option<BoxView<S>>) -> Seq<MarkView<S>> {
    match b {
        Some(b) => b.marks,
        None => Seq::empty(),
    }
}

/// How far up a superscript beside a base stands: ten pixels below the top of the base, and
/// at least twenty-four above the baseline.
pub open spec fn sup_height<S: Scalar>(base: BoxView<S>) -> S {
    -(base.above.larger(S::mil(34_000))) + S::mil(10_000)
}

/// How far down a subscript beside a base stands: six pixels below the foot of the base,
/// and at least fourteen below the baseline.
pub open spec fn sub_depth<S: Scalar>(base: BoxView<S>) -> S {
    base.below.larger(S::mil(8_000)) + S::mil(6_000)
}

/// A base that is not large keeps its strokes where they are. The superscript, whether there
/// is a subscript or not, follows two pixels before the end of the base, raised; then the
/// subscript, lowered.
pub proof fn law_scripts_stand_beside_their_base<S: Scalar>(
    base: BoxView<S>,
    sub: Option<BoxView<S>>,
    sup: Option<BoxView<S>>,
)
    requires
        !base.large,
    ensures
        ({
            let all = compose::script_box(base, sub, sup).marks;
            let n = base.marks.len() as int;
            let m = n + strokes_of(sup).len();
            let dx = base.width - S::mil(2_000);
            let x = compose::sub_place(base, sub);
            &&& all.len() == m + strokes_of(sub).len()
            &&& all.take(n) == base.marks
            &&& placing::shows(
                all,
                n,
                strokes_of(sup),
                |p: (S, S)| (p.0 + dx, p.1 + sup_height(base)),
            )
            &&& placing::shows(
                all,
                m,
                strokes_of(sub),
                |p: (S, S)| (p.0 + x, p.1 + sub_depth(base)),
            )
        }),
{
    reveal(compose::script_box);
    let all = compose::script_box(base, sub, sup).marks;
    let n = base.marks.len() as int;
    assert(all.take(n) =~= base.marks);
}

/// A subscript starts where the superscript does, or further right where its ink would come
/// nearer than seven pixels to that of the base.
pub proof fn law_subscripts_start_behind_the_ink<S: Scalar>(base: BoxView<S>, sub: BoxView<S>)
    ensures
        ({
            let dx = base.width - S::mil(2_000);
            compose::sub_place(base, Some(sub)) == match (
                strokes::extent(base.marks, Axis::X),
                strokes::extent(sub.marks, Axis::X),
            ) {
                (Some((_, right)), Some((left, _))) => dx.larger(right - left + S::mil(7_000)),
                _ => dx,
            }
        }),
{
}

/// The box of a base with scripts reaches five pixels beyond the wider of them, and as far
/// up and down as any part does.
pub proof fn law_boxes_hold_the_scripts_beside_them<S: Scalar>(
    base: BoxView<S>,
    sub: Option<BoxView<S>>,
    sup: Option<BoxView<S>>,
)
    requires
        !base.large,
    ensures
        ({
            let b = compose::script_box(base, sub, sup);
            let dx = base.width - S::mil(2_000);
            let upper = match sup {
                Some(s) => dx + s.width,
                None => dx,
            };
            let lower = match sub {
                Some(s) => compose::sub_place(base, sub) + s.width,
                None => dx,
            };
            &&& b.width == upper.larger(lower) + S::mil(5_000)
            &&& b.above == match sup {
                Some(s) => base.above.larger(-sup_height(base) + s.above),
                None => base.above,
            }
            &&& b.below == match sub {
                Some(s) => base.below.larger(sub_depth(base) + s.below),
                None => base.below,
            }
            &&& !b.large
        }),
{
    reveal(compose::script_box);
}

/// In thousandths, a superscript stands at least twenty-four pixels above the baseline of
/// its base, and a subscript at least fourteen below it.
pub proof fn law_scripts_leave_the_baseline(
    base: BoxView<Milli>,
    sub: Option<BoxView<Milli>>,
    sup: Option<BoxView<Milli>>,
    i: int,
    j: int,
)
    requires
        !base.large,
        arithmetic::within(base.above, 1_000_000_000),
        arithmetic::within(base.below, 1_000_000_000),
    ensures
        ({
            let all = compose::script_box(base, sub, sup).marks;
            let n = base.marks.len() as int;
            let m = n + strokes_of(sup).len();
            &&& strokes::has_point(strokes_of(sup), i, j) && arithmetic::within(
                strokes_of(sup)[i].points[j].1,
                1_000_000_000,
            ) ==> all[n + i].points[j].1.0 <= strokes_of(sup)[i].points[j].1.0 - 24_000
                && all[n + i].points[j].1.0 <= strokes_of(sup)[i].points[j].1.0 - base.above.0
                + 10_000
            &&& strokes::has_point(strokes_of(sub), i, j) && arithmetic::within(
                strokes_of(sub)[i].points[j].1,
                1_000_000_000,
            ) ==> all[m + i].points[j].1.0 >= strokes_of(sub)[i].points[j].1.0 + 14_000
                && all[m + i].points[j].1.0 >= strokes_of(sub)[i].points[j].1.0 + base.below.0
                + 6_000
        }),
{
    law_scripts_stand_beside_their_base(base, sub, sup);
    let all = compose::script_box(base, sub, sup).marks;
    let n = base.marks.len() as int;
    let m = n + strokes_of(sup).len();
    if strokes::has_point(strokes_of(sup), i, j) {
        let part = strokes_of(sup)[i];
        assert(all[n + i].points[j].1 == part.points[j].1 + sup_height(base));
    }
    if strokes::has_point(strokes_of(sub), i, j) {
        let part = strokes_of(sub)[i];
        assert(all[m + i].points[j].1 == part.points[j].1 + sub_depth(base));
    }
}

/// A large symbol stands in the middle of a box six pixels wider than the widest of it and
/// its limits. The upper limit is centred ten pixels above its ink, the lower one as far
/// below it; each hangs or rests by its own box.
pub proof fn law_limits_stand_above_and_below<S: Scalar>(
    base: BoxView<S>,
    sub: Option<BoxView<S>>,
    sup: Option<BoxView<S>>,
)
    requires
        base.large,
    ensures
        ({
            let b = compose::script_box(base, sub, sup);
            let n = base.marks.len() as int;
            let m = n + strokes_of(sup).len();
            let over = match sup {
                Some(s) => s.width,
                None => S::mil(0),
            };
            let under = match sub {
                Some(s) => s.width,
                None => S::mil(0),
            };
            let middle = |w: S| (b.width - w) / S::mil(2_000);
            let ten = S::mil(10_000);
            &&& b.width == base.width.larger(over).larger(under) + S::mil(6_000)
            &&& b.marks.len() == m + strokes_of(sub).len()
            &&& placing::shows(
                b.marks,
                0,
                base.marks,
                |p: (S, S)| (p.0 + middle(base.width), p.1 + S::mil(0)),
            )
            &&& sup matches Some(s) ==> {
                let y = -base.above - ten - s.below;
                &&& placing::shows(
                    b.marks,
                    n,
                    s.marks,
                    |p: (S, S)| (p.0 + middle(s.width), p.1 + y),
                )
                &&& b.above == base.above.larger(-y + s.above)
            }
            &&& sup is None ==> b.above == base.above
            &&& sub matches Some(s) ==> {
                let y = base.below + ten + s.above;
                &&& placing::shows(
                    b.marks,
                    m,
                    s.marks,
                    |p: (S, S)| (p.0 + middle(s.width), p.1 + y),
                )
                &&& b.below == base.below.larger(y + s.below)
            }
            &&& sub is None ==> b.below == base.below
            &&& !b.large
        }),
{
    reveal(compose::script_box);
}

/// Whether a base is an integral sign, under and over which limits are smaller.
pub open spec fn is_integral<S>(n: Node<S>) -> bool {
    n matches Node::Glyph(key) && (key@ == "\\int"@ || key@ == "\\oint"@ || key@ == "\\iint"@
        || key@ == "\\iiint"@)
}

/// A base with scripts is written base first, then the subscript, then the superscript, and
/// put together from the three in their sizes. The first of them that cannot be written
/// ends it.
pub proof fn law_scripts_are_written_in_order<S: Scalar>(
    pen: Pen<S>,
    base: Box<Node<S>>,
    sub: Option<Box<Node<S>>>,
    sup: Option<Box<Node<S>>>,
)
    ensures
        ({
            let (p, b) = layout::layout_written(pen, *base);
            let (q, s) = match sub {
                Some(n) => layout::layout_written(p, *n),
                None => (p, b),
            };
            let (r, t) = match sup {
                Some(n) => layout::layout_written(q, *n),
                None => (q, b),
            };
            let whole = layout::layout_written(pen, Node::Script { base, sub, sup });
            let lower = match sub {
                Some(_) => Some(compose::sub_sized(s->Ok_0, is_integral(*base))),
                None => None,
            };
            let upper = match sup {
                Some(_) => Some(compose::sup_sized(t->Ok_0, is_integral(*base))),
                None => None,
            };
            &&& b matches Err(e) ==> whole == (p, Err::<BoxView<S>, Seq<char>>(e))
            &&& b is Ok && s is Err ==> whole == (q, Err::<BoxView<S>, Seq<char>>(s->Err_0))
            &&& b is Ok && s is Ok && t is Err ==> whole == (
                r,
                Err::<BoxView<S>, Seq<char>>(t->Err_0),
            )
            &&& b is Ok && s is Ok && t is Ok ==> whole == (
                r,
                Ok::<BoxView<S>, Seq<char>>(compose::script_box(b->Ok_0, lower, upper)),
            )
        }),
{
}

} // verus!
