//! How a group is put between its delimiters.
use crate::bits;
use crate::exact::arithmetic;
use crate::glyphs;
use crate::glyphs::{Fit, Slot};
use crate::layout;
use crate::milli::Milli;
use crate::node::Node;
use crate::pen;
use crate::pen::Pen;
use crate::profile;
use crate::profile::Glyph;
use crate::promises::placing;
use crate::scalar::Scalar;
use crate::strokes;
use crate::strokes::{Axis, BoxView, MarkView};
use vstd::prelude::*;

verus! {

// Brackets drawn to measure.

/// How far a drawn parenthesis bulges `i` twentieths of the way down: as half a wave, seven
/// fiftieths of its height in the middle, and there between eight and fifteen pixels.
pub open spec fn bulge<S: Scalar>(slot: Slot<S>, i: int) -> S {
    (S::half_turn() * (S::counted(i) / S::mil(20_000))).sine() * ((slot.up + slot.down) * S::mil(
        140,
    )).held(S::mil(8_000), S::mil(15_000))
}

/// A parenthesis that is drawn to measure has twenty-one points, evenly from the top of its
/// slot to the bottom. An opening one bulges to the left, a closing one as much to the
/// right.
pub proof fn law_drawn_parentheses_bulge_outwards<S: Scalar>(
    slot: Slot<S>,
    token: Seq<char>,
    i: int,
)
    requires
        token == "("@ || token == ")"@,
        0 <= i <= 20,
    ensures
        ({
            let mark = glyphs::procedural_mark(slot, token);
            let top = -slot.up;
            &&& mark.points.len() == 21
            &&& mark.points[i] == (
                slot.x + if slot.opening {
                    -bulge(slot, i)
                } else {
                    bulge(slot, i)
                },
                top + (slot.down - top) * (S::counted(i) / S::mil(20_000)),
            )
            &&& mark.parenthesis && mark.entry_tail_points == 0
            &&& mark.entry_taper_length == S::mil(0)
            &&& mark.pressures is Some && mark.pressures->0.len() == 21
            &&& mark.pressures->0[i] == S::mil(150) + S::mil(380) * (S::half_turn() * S::counted(i)
                / S::counted(20)).sine()
        }),
{
}

proof fn lemma_twentieths(i: int)
    requires
        0 <= i <= 20,
    ensures
        Milli::counted(i) / Milli::mil(20_000) == Milli((i * 50) as i64),
{
    arithmetic::lemma_ratio(i * 1_000, 20_000);
    assert(i * 1_000 * 1_000 / 20_000 == i * 50);
}

proof fn lemma_bulge(slot: Slot<Milli>, i: int)
    requires
        0 <= i <= 20,
    ensures
        0 <= bulge(slot, i).0 <= 15_000,
        i == 10 ==> 8_000 <= bulge(slot, i).0,
{
    lemma_twentieths(i);
    let t = Milli((i * 50) as i64);
    let s = (Milli::half_turn() * t).sine();
    let a = ((slot.up + slot.down) * Milli(140)).held(Milli(8_000), Milli(15_000));
    assert(8_000 <= a.0 <= 15_000);
    arithmetic::lemma_arcs_are_not_negative(t);
    arithmetic::lemma_share(s.0 as int, a.0 as int);
    let (x, y) = (s.0 as int, a.0 as int);
    assert(0 <= y * x / 1_000 <= y) by (nonlinear_arith)
        requires
            0 <= x <= 1_000,
            0 <= y,
    ;
    if i == 10 {
        lemma_middle_of_half_a_turn();
        assert(8_000 <= y * x / 1_000) by (nonlinear_arith)
            requires
                x == 1_000,
                8_000 <= y,
        ;
    }
}

proof fn lemma_middle_of_half_a_turn()
    ensures
        (Milli::half_turn() * Milli(500)).sine() == Milli(1_000),
{
    arithmetic::lemma_share(500, 3_142);
    assert(3_142 * 500 / 1_000 == 1_571int);
    assert(Milli::half_turn() * Milli(500) == Milli(1_571));
    arithmetic::lemma_quarter_turn();
}

/// In thousandths, no point of a drawn opening parenthesis lies right of its place and none
/// of a closing one left of it; in the middle it stands off by eight to fifteen pixels. The
/// one is the mirror image of the other.
pub proof fn law_drawn_parentheses_mirror_each_other(
    slot: Slot<Milli>,
    other: Slot<Milli>,
    token: Seq<char>,
    twin: Seq<char>,
    i: int,
)
    requires
        token == "("@ || token == ")"@,
        twin == "("@ || twin == ")"@,
        slot.opening && !other.opening,
        slot.up == other.up && slot.down == other.down,
        arithmetic::within(slot.x, 1_000_000_000),
        arithmetic::within(other.x, 1_000_000_000),
        0 <= i <= 20,
    ensures
        ({
            let p = glyphs::procedural_mark(slot, token).points[i];
            let q = glyphs::procedural_mark(other, twin).points[i];
            &&& p.0.0 - slot.x.0 == -(q.0.0 - other.x.0)
            &&& p.1 == q.1
            &&& slot.x.0 - 15_000 <= p.0.0 <= slot.x.0
            &&& other.x.0 <= q.0.0 <= other.x.0 + 15_000
            &&& i == 10 ==> p.0.0 <= slot.x.0 - 8_000 && other.x.0 + 8_000 <= q.0.0
        }),
{
    law_drawn_parentheses_bulge_outwards(slot, token, i);
    law_drawn_parentheses_bulge_outwards(other, twin, i);
    lemma_bulge(slot, i);
}

/// The other brackets that are drawn to measure: a square bracket stands off by seven
/// pixels and turns back at both ends, a bar is straight, an angle and a brace stand off by
/// eight. All of them stand off to the left when they open and to the right when they
/// close, and reach from the top of the slot to its bottom.
pub proof fn law_drawn_brackets_stand_off_outwards<S: Scalar>(slot: Slot<S>, token: Seq<char>)
    requires
        token != "("@ && token != ")"@,
    ensures
        ({
            let mark = glyphs::procedural_mark(slot, token);
            let (x, top, bottom) = (slot.x, -slot.up, slot.down);
            let middle = (top + bottom) / S::mil(2_000);
            let off = |n: int|
                x + S::mil(
                    if slot.opening {
                        -n
                    } else {
                        n
                    },
                );
            let five = S::mil(5_000);
            placing::is_line(
                mark,
                if token == "["@ || token == "]"@ {
                    seq![(x, top), (off(7_000), top), (off(7_000), bottom), (x, bottom)]
                } else if token == "|"@ || token == "\\lvert"@ || token == "\\rvert"@ {
                    seq![(x, top), (x, bottom)]
                } else if token == "\\langle"@ || token == "\\rangle"@ {
                    seq![(x, top), (off(8_000), middle), (x, bottom)]
                } else {
                    seq![
                        (x, top),
                        (off(8_000), top + five),
                        (off(8_000), middle - five),
                        (x, middle),
                        (off(8_000), middle + five),
                        (off(8_000), bottom - five),
                        (x, bottom),
                    ]
                },
            )
        }),
{
}

// Collected parentheses.

/// Where a point of a collected parenthesis comes to stand: stretched to the height of the
/// slot, its width scaled about the middle, leaning, and bowed outwards or inwards.
pub open spec fn fitted<S: Scalar>(fit: Fit<S>, slot: Slot<S>, p: (S, S)) -> (S, S) {
    let t = (p.1 - fit.min_y) / (fit.max_y - fit.min_y);
    let half = fit.width * S::mil(500);
    let side = S::mil(
        if slot.opening {
            -1_000
        } else {
            1_000
        },
    );
    (
        fit.start_x + half + (p.0 - half) * fit.width_scale + (t - S::mil(500)) * fit.lean + side
            * fit.bow * (S::half_turn() * t).sine(),
        -slot.up + t * (slot.down - (-slot.up)),
    )
}

/// How a collected parenthesis is fitted: from the height of its own ink, before its place
/// when it opens and behind it when it closes. With variation its width differs by up to
/// eighteen hundredths, it leans by up to two pixels and bows by up to three and a half.
pub proof fn law_parentheses_are_fitted_to_their_slot<S: Scalar>(
    pen: Pen<S>,
    token: Seq<char>,
    slot: Slot<S>,
    width: S,
    marks: Seq<MarkView<S>>,
)
    ensures
        ({
            let fit = glyphs::fit_of(pen, token, slot, width, marks);
            let points = strokes::all_points(marks);
            let b = bits::bits_of_instance(pen.seed, token, pen.placed);
            &&& fit.min_y == strokes::lowest(points, Axis::Y)
            &&& fit.max_y == strokes::highest(points, Axis::Y)
            &&& fit.width == width
            &&& fit.start_x == if slot.opening {
                slot.x - width
            } else {
                slot.x
            }
            &&& pen.variation ==> {
                &&& fit.width_scale == S::mil(1_000) + S::mil(180) * bits::signed_unit_of::<S>(b)
                &&& fit.lean == S::mil(2_000) * bits::signed_unit_of::<S>(bits::redrawn(b, 29))
                &&& fit.bow == S::mil(3_500) * bits::signed_unit_of::<S>(bits::redrawn(b, 11))
            }
            &&& !pen.variation ==> fit.width_scale == S::mil(1_000) && fit.lean == S::mil(0)
                && fit.bow == S::mil(0)
            &&& glyphs::fitted_marks(fit, slot, marks).len() == marks.len()
            &&& placing::shows(
                glyphs::fitted_marks(fit, slot, marks),
                0,
                marks,
                |p: (S, S)| fitted(fit, slot, p),
            )
        }),
{
}

/// Without variation a collected parenthesis keeps its shape across: it is moved to its
/// slot, whole, and only its height changes.
pub proof fn law_unvaried_parentheses_keep_their_shape_across(
    pen: Pen<Milli>,
    token: Seq<char>,
    slot: Slot<Milli>,
    width: Milli,
    marks: Seq<MarkView<Milli>>,
    point: (Milli, Milli),
)
    requires
        !pen.variation,
        0 <= width.0 <= 100_000_000,
        arithmetic::within(slot.x, 100_000_000),
        arithmetic::within(point.0, 100_000_000),
    ensures
        ({
            let fit = glyphs::fit_of(pen, token, slot, width, marks);
            let start = if slot.opening {
                slot.x.0 - width.0
            } else {
                slot.x.0 as int
            };
            glyphs::fitted_point(fit, slot, point).0.0 == start + point.0.0
        }),
{
    let fit = glyphs::fit_of(pen, token, slot, width, marks);
    let t = (point.1 - fit.min_y) / (fit.max_y - fit.min_y);
    let half = width * Milli(500);
    arithmetic::lemma_share(500, width.0 as int);
    assert(width.0 * 500 / 1_000 <= 100_000_000);
    arithmetic::lemma_once(point.0 - half);
    arithmetic::lemma_nothing_times(t - Milli(500));
    let side = Milli::mil(if slot.opening { -1_000 } else { 1_000 });
    arithmetic::lemma_nothing_times(side);
    arithmetic::lemma_nothing_times((Milli::half_turn() * t).sine());
    lemma_across(fit, slot, point);
}

proof fn lemma_across<S: Scalar>(fit: Fit<S>, slot: Slot<S>, point: (S, S))
    ensures
        glyphs::fitted_point(fit, slot, point) == fitted(fit, slot, point),
{
}

/// What a delimiter adds to a box: nothing for a full stop, the fitted strokes of the next
/// sample for a collected parenthesis, and one stroke to measure for any other.
pub proof fn law_delimiters_add_their_strokes<S: Scalar>(
    pen: Pen<S>,
    b: BoxView<S>,
    token: Seq<char>,
    slot: Slot<S>,
)
    ensures
        ({
            let (after, r) = glyphs::delimiter_written(pen, b, token, slot);
            let (p, sample) = pen::sample_written(pen, token);
            match profile::parenthesis_width(pen.glyphs, token) {
                Some(width) if token != "."@ => {
                    &&& after == p
                    &&& sample matches Err(e) ==> r == Err::<BoxView<S>, Seq<char>>(e)
                    &&& sample matches Ok(s) ==> {
                        let fit = glyphs::fit_of(p, token, slot, width, s.marks);
                        if fit.max_y - fit.min_y < S::mil(1_000) {
                            r == Err::<BoxView<S>, Seq<char>>(
                                "parenthesis "@ + token + " needs a stroke with vertical height"@,
                            )
                        } else {
                            r == Ok::<BoxView<S>, Seq<char>>(
                                BoxView {
                                    marks: b.marks + glyphs::fitted_marks(fit, slot, s.marks),
                                    ..b
                                },
                            )
                        }
                    }
                },
                _ => {
                    &&& after == pen
                    &&& token == "."@ ==> r == Ok::<BoxView<S>, Seq<char>>(b)
                    &&& token != "."@ ==> r == Ok::<BoxView<S>, Seq<char>>(
                        BoxView {
                            marks: b.marks.push(glyphs::procedural_mark(slot, token)),
                            ..b
                        },
                    )
                },
            }
        }),
{
    assert(b.marks + seq![glyphs::procedural_mark(slot, token)] =~= b.marks.push(
        glyphs::procedural_mark(slot, token),
    ));
}

// Groups.

/// The width kept for a delimiter: that of the widest collected sample and nine and a half
/// pixels more, and twenty at least.
pub open spec fn slot_width<S: Scalar>(glyphs: Map<Seq<char>, Glyph<S>>, token: Seq<char>) -> S {
    match profile::parenthesis_width(glyphs, token) {
        Some(w) => (w + S::mil(6_000) + S::mil(3_500)).larger(S::mil(20_000)),
        None => S::mil(20_000),
    }
}

/// A group is its body, moved behind the slot of its opening delimiter, then the strokes of
/// that, then those of the closing one behind it. Both delimiters reach five pixels above
/// and below the body, and at least forty-seven up and twenty-one down.
pub proof fn law_groups_stand_between_their_delimiters<S: Scalar>(
    pen: Pen<S>,
    left: Seq<char>,
    b: BoxView<S>,
    right: Seq<char>,
)
    requires
        layout::delimited_written(pen, left, b, right).1 is Ok,
    ensures
        ({
            let o = layout::delimited_written(pen, left, b, right).1->Ok_0;
            let (v, w) = (slot_width(pen.glyphs, left), slot_width(pen.glyphs, right));
            let up = b.above.larger(S::mil(42_000)) + S::mil(5_000);
            let down = b.below.larger(S::mil(16_000)) + S::mil(5_000);
            &&& o.width == b.width + v + w
            &&& o.above == up && o.below == down
            &&& !o.large
            &&& placing::shows(
                o.marks,
                0,
                b.marks,
                |p: (S, S)| (p.0 + v, p.1 + S::mil(0)),
            )
        }),
        ({
            let (v, w) = (slot_width(pen.glyphs, left), slot_width(pen.glyphs, right));
            let up = b.above.larger(S::mil(42_000)) + S::mil(5_000);
            let down = b.below.larger(S::mil(16_000)) + S::mil(5_000);
            let six = S::mil(6_000);
            let bare = layout::bare_group(pen.glyphs, left, b, right);
            let opened = glyphs::delimiter_written(
                pen,
                bare,
                left,
                Slot { x: v - six, up, down, opening: true },
            );
            let closed = glyphs::delimiter_written(
                opened.0,
                opened.1->Ok_0,
                right,
                Slot { x: v + b.width + six, up, down, opening: false },
            );
            &&& bare.marks.len() == b.marks.len()
            &&& opened.1 is Ok
            &&& layout::delimited_written(pen, left, b, right) == closed
        }),
{
    reveal(layout::delimited_written);
    let bare = layout::bare_group(pen.glyphs, left, b, right);
    let opening = layout::opening_slot(pen.glyphs, left, b);
    let closing = layout::closing_slot(pen.glyphs, left, b);
    let opened = glyphs::delimiter_written(pen, bare, left, opening);
    assert(closing =~= Slot {
        x: slot_width(pen.glyphs, left) + b.width + S::mil(6_000),
        up: opening.up,
        down: opening.down,
        opening: false,
    });
    lemma_delimiters_keep_the_box(pen, bare, left, opening);
    lemma_delimiters_keep_the_box(opened.0, opened.1->Ok_0, right, closing);
    let o = layout::delimited_written(pen, left, b, right).1->Ok_0;
    let v = slot_width(pen.glyphs, left);
    assert forall|i: int|
        #![trigger b.marks[i]]
        0 <= i < b.marks.len() implies placing::is_placed(
        o.marks[0 + i],
        b.marks[i],
        |p: (S, S)| (p.0 + v, p.1 + S::mil(0)),
    ) by {
        assert(o.marks[i] == opened.1->Ok_0.marks[i]);
        assert(opened.1->Ok_0.marks[i] == bare.marks[i]);
    }
}

proof fn lemma_delimiters_keep_the_box<S: Scalar>(
    pen: Pen<S>,
    b: BoxView<S>,
    token: Seq<char>,
    slot: Slot<S>,
)
    ensures
        glyphs::delimiter_written(pen, b, token, slot).1 matches Ok(o) ==> {
            &&& o.width == b.width && o.above == b.above && o.below == b.below
            &&& o.large == b.large && o.script_drop == b.script_drop
            &&& b.marks.len() <= o.marks.len()
            &&& forall|i: int| 0 <= i < b.marks.len() ==> #[trigger] o.marks[i] == b.marks[i]
        },
{
}

/// A group is opened before it is closed, and the first delimiter that cannot be drawn ends
/// it.
pub proof fn law_groups_are_opened_before_they_are_closed<S: Scalar>(
    pen: Pen<S>,
    left: Seq<char>,
    b: BoxView<S>,
    right: Seq<char>,
)
    ensures
        ({
            let v = slot_width(pen.glyphs, left);
            let up = b.above.larger(S::mil(42_000)) + S::mil(5_000);
            let down = b.below.larger(S::mil(16_000)) + S::mil(5_000);
            let six = S::mil(6_000);
            let bare = layout::bare_group(pen.glyphs, left, b, right);
            let opened = glyphs::delimiter_written(
                pen,
                bare,
                left,
                Slot { x: v - six, up, down, opening: true },
            );
            layout::delimited_written(pen, left, b, right) == match opened.1 {
                Err(e) => (opened.0, Err::<BoxView<S>, Seq<char>>(e)),
                Ok(o) => glyphs::delimiter_written(
                    opened.0,
                    o,
                    right,
                    Slot { x: v + b.width + six, up, down, opening: false },
                ),
            }
        }),
        ({
            let bare = layout::bare_group(pen.glyphs, left, b, right);
            let v = slot_width(pen.glyphs, left);
            &&& bare.width == b.width + v + slot_width(pen.glyphs, right)
            &&& bare.above == b.above.larger(S::mil(42_000)) + S::mil(5_000)
            &&& bare.below == b.below.larger(S::mil(16_000)) + S::mil(5_000)
            &&& bare.marks.len() == b.marks.len()
            &&& placing::shows(bare.marks, 0, b.marks, |p: (S, S)| (p.0 + v, p.1 + S::mil(0)))
            &&& bare.script_drop == S::mil(0).larger(b.script_drop)
            &&& !bare.large
        }),
{
    reveal(layout::delimited_written);
    let opening = layout::opening_slot(pen.glyphs, left, b);
    let closing = layout::closing_slot(pen.glyphs, left, b);
    assert(closing =~= Slot {
        x: slot_width(pen.glyphs, left) + b.width + S::mil(6_000),
        up: opening.up,
        down: opening.down,
        opening: false,
    });
}

/// The body of a group is written before its delimiters.
pub proof fn law_bodies_are_written_before_their_delimiters<S: Scalar>(
    pen: Pen<S>,
    left: String,
    body: Box<Node<S>>,
    right: String,
)
    ensures
        ({
            let (p, b) = layout::layout_written(pen, *body);
            layout::layout_written(pen, Node::Delimited(left, body, right)) == match b {
                Err(e) => (p, Err::<BoxView<S>, Seq<char>>(e)),
                Ok(b) => layout::delimited_written(p, left@, b, right@),
            }
        }),
{
}

} // verus!
