//! Putting boxes together: rows, fractions, roots, scripts, accents, arrows and aligned
//! rows.
use crate::bits;
use crate::bits::{instance_bits, redraw, unit_interval, unit_signed};
use crate::entry;
use crate::ink;
use crate::node;
use crate::node::Node;
use crate::scalar::Scalar;
use crate::strokes;
use crate::strokes::{Axis, Box2, BoxView, Mark, MarkView};
use crate::variation;
use crate::variation::hand_drawn_line;
use crate::words::same_text;
use vstd::prelude::*;

verus! {

/// The gap kept between the ink of a base and that of its subscript, in thousandths of a
/// pixel.
pub const SUBSCRIPT_INK_GAP: i32 = 7_000;

/// The gap between aligned rows, in thousandths of a pixel.
pub const ALIGNED_ROW_GAP: i32 = 36_000;

/// How much wider than its contents a fraction is, and by how much that varies, in
/// thousandths of a pixel.
pub const FRACTION_EXTRA_WIDTH: i32 = 30_000;

pub const FRACTION_EXTRA_WIDTH_VARIATION: i32 = 8_000;

/// How deep below a box's baseline the deepest subscript baseline of a part lies that is
/// placed `y` below it: zero where the part holds no subscripts.
pub open spec fn sunk<S: Scalar>(drop: S, y: S) -> S {
    if S::mil(0) < drop {
        y + drop
    } else {
        S::mil(0)
    }
}

/// The deepest subscript baseline of a part in the box that it is placed in.
fn sink<S: Scalar>(drop: S, y: S) -> (r: S)
    ensures
        r == sunk(drop, y),
{
    if S::milli(0).lt(drop) {
        y.plus(drop)
    } else {
        S::milli(0)
    }
}

// Rows.

/// Where the last stroke ended.
pub open spec fn pen_lift<S>(marks: Seq<MarkView<S>>) -> Option<(S, S)> {
    if marks.len() > 0 && marks.last().points.len() > 0 {
        Some(marks.last().points.last())
    } else {
        None
    }
}

/// Where node `i` of a row stands.
pub open spec fn place_in_row<S: Scalar>(width: S, nodes: Seq<Node<S>>, i: int) -> S {
    width + S::mil(node::padding_of(nodes[i], node::node_before(nodes, i))) + S::mil(
        node::gap_between_groups(node::node_before(nodes, i), nodes[i]),
    ) + S::mil(node::digit_gap_at(nodes, i)) + S::mil(node::decimal_gap_at(nodes, i))
}

/// The box of node `i`, leaning back to the stroke before it where it may.
pub open spec fn leaned<S: Scalar>(
    out: BoxView<S>,
    nodes: Seq<Node<S>>,
    i: int,
    b: BoxView<S>,
    x: S,
) -> BoxView<S> {
    match pen_lift(out.marks) {
        Some(end) => if node::leans_back(nodes, i) {
            entry::entry_adjusted(b, end, x)
        } else {
            b
        },
        None => b,
    }
}

/// The row with one more box at `x`, padded on both sides.
pub open spec fn row_extended<S: Scalar>(
    out: BoxView<S>,
    b: BoxView<S>,
    x: S,
    pad: S,
) -> BoxView<S> {
    BoxView {
        width: x + b.width + pad,
        above: out.above.larger(b.above),
        below: out.below.larger(b.below),
        script_drop: out.script_drop.larger(b.script_drop),
        marks: out.marks + strokes::marks_moved(b.marks, x, S::mil(0)),
        large: out.large,
    }
}

/// The row with the box of node `i` added.
#[verifier::opaque]
pub open spec fn row_step<S: Scalar>(
    out: BoxView<S>,
    nodes: Seq<Node<S>>,
    i: int,
    b: BoxView<S>,
) -> BoxView<S> {
    let x = place_in_row(out.width, nodes, i);
    row_extended(
        out,
        leaned(out, nodes, i, b, x),
        x,
        S::mil(node::padding_of(nodes[i], node::node_before(nodes, i))),
    )
}

/// Adds the box of node `i` to a row.
pub fn extend_row<S: Scalar>(out: &mut Box2<S>, nodes: &Vec<Node<S>>, i: usize, b: Box2<S>)
    requires
        i < nodes.len(),
        strokes::marks_are_sound(old(out)@.marks),
        strokes::marks_are_sound(b@.marks),
    ensures
        final(out)@ == row_step(old(out)@, nodes@, i as int, b@),
        strokes::marks_are_sound(final(out)@.marks),
{
    proof {
        reveal(row_step);
    }
    let mut b = b;
    let previous = if i > 0 {
        Some(&nodes[i - 1])
    } else {
        None
    };
    let pad = node::operator_padding(&nodes[i], previous);
    let group_gap = node::delimiter_gap(previous, &nodes[i]);
    let (digit_gap, decimal_gap) = node::number_gaps(nodes, i);
    let x = out.width.plus(pad).plus(group_gap).plus(digit_gap).plus(decimal_gap);
    if node::may_lean_back(nodes, i) {
        if let Some(end) = last_point(&out.marks) {
            entry::adjust_entry_for_previous_stroke(&mut b, end, x);
        }
    }
    out.above = out.above.max(b.above);
    out.below = out.below.max(b.below);
    out.script_drop = out.script_drop.max(b.script_drop);
    out.width = x.plus(b.width).plus(pad);
    out.add(b.translated(x, S::milli(0)));
}

fn last_point<S: Scalar>(marks: &Vec<Mark<S>>) -> (r: Option<(S, S)>)
    ensures
        r == pen_lift(strokes::views_of(marks@)),
{
    if marks.len() == 0 {
        return None;
    }
    let points = &marks[marks.len() - 1].points;
    if points.len() == 0 {
        return None;
    }
    Some(points[points.len() - 1])
}

// Fractions.

/// How far a hand-drawn bar can wander from its centre line at its worst point:
/// both wave amplitudes plus half the tilt.
pub open spec fn max_bar_wobble<S: Scalar>() -> S {
    S::mil(variation::MAX_LINE_WAVE as int) * S::mil(1_500) + S::mil(
        variation::MAX_LINE_TILT as int,
    ) / S::mil(2_000)
}

/// The gap between the writing line of a numerator and the bar.
pub open spec fn numerator_gap<S: Scalar>() -> S {
    S::mil(ink::INK_WIDTH as int) / S::mil(2_000) + max_bar_wobble::<S>() + S::mil(500)
}

/// The width of a fraction.
pub open spec fn fraction_width<S: Scalar>(
    seed: u64,
    varied: bool,
    placed: usize,
    top: S,
    bottom: S,
) -> S {
    let extra = if varied {
        S::mil(FRACTION_EXTRA_WIDTH_VARIATION as int) * bits::signed_unit_of::<S>(
            bits::bits_of_instance(seed, "\\frac-width"@, placed),
        )
    } else {
        S::mil(0)
    };
    top.larger(bottom) + S::mil(FRACTION_EXTRA_WIDTH as int) + extra
}

/// The bar of a fraction.
pub open spec fn fraction_bar<S: Scalar>(
    seed: u64,
    varied: bool,
    placed: usize,
    width: S,
    axis: S,
) -> Seq<(S, S)> {
    let from = (S::mil(2_000), axis);
    let to = (width - S::mil(2_000), axis);
    if varied {
        variation::drawn_line(seed, placed, "\\fracbar"@, from, to)
    } else {
        seq![from, to]
    }
}

/// A fraction. The bar is the writing line for the numerator: the numerator's own
/// baseline, or its deepest subscript baseline, stands just above the bar, and descenders
/// cross it. The denominator is placed by its ink top and keeps more air.
pub open spec fn fraction_box<S: Scalar>(
    top: BoxView<S>,
    bottom: BoxView<S>,
    width: S,
    axis: S,
    bar: Seq<(S, S)>,
) -> BoxView<S> {
    let two = S::mil(2_000);
    let ty = axis - numerator_gap::<S>() - top.script_drop;
    let by = axis + (numerator_gap::<S>() + two) + bottom.above;
    BoxView {
        marks: (strokes::marks_moved(top.marks, (width - top.width) / two, ty)
            + strokes::marks_moved(bottom.marks, (width - bottom.width) / two, by)).push(
            strokes::plain_mark(bar),
        ),
        script_drop: S::mil(0).larger(sunk(top.script_drop, ty)).larger(
            sunk(bottom.script_drop, by),
        ),
        ..strokes::bare_box(
            width,
            (-ty + top.above).larger(S::mil(0)),
            (by + bottom.below).larger(ty + top.below).larger(S::mil(0)),
        )
    }
}

/// Computes the width of a fraction.
pub fn width_of_fraction<S: Scalar>(seed: u64, varied: bool, placed: usize, top: S, bottom: S) -> (r:
    S)
    ensures
        r == fraction_width(seed, varied, placed, top, bottom),
{
    let extra_width = if varied {
        S::milli(FRACTION_EXTRA_WIDTH_VARIATION).times(
            unit_signed::<S>(instance_bits(seed, "\\frac-width", placed)),
        )
    } else {
        S::milli(0)
    };
    top.max(bottom).plus(S::milli(FRACTION_EXTRA_WIDTH)).plus(extra_width)
}

/// Draws the bar of a fraction.
pub fn draw_fraction_bar<S: Scalar>(seed: u64, varied: bool, placed: usize, width: S, axis: S) -> (r:
    Vec<(S, S)>)
    ensures
        r@ == fraction_bar(seed, varied, placed, width, axis),
{
    let from = (S::milli(2_000), axis);
    let to = (width.minus(S::milli(2_000)), axis);
    if varied {
        hand_drawn_line(seed, placed, "\\fracbar", from, to)
    } else {
        let bar = vec![from, to];
        assert(bar@ =~= seq![from, to]);
        bar
    }
}

/// Puts a fraction together.
pub fn compose_fraction<S: Scalar>(
    top: Box2<S>,
    bottom: Box2<S>,
    width: S,
    axis: S,
    bar: Vec<(S, S)>,
) -> (r: Box2<S>)
    requires
        strokes::marks_are_sound(top@.marks),
        strokes::marks_are_sound(bottom@.marks),
    ensures
        r@ == fraction_box(top@, bottom@, width, axis, bar@),
        strokes::marks_are_sound(r@.marks),
{
    let two = S::milli(2_000);
    let wobble = S::milli(variation::MAX_LINE_WAVE).times(S::milli(1_500)).plus(
        S::milli(variation::MAX_LINE_TILT).over(two),
    );
    let gap = S::milli(ink::INK_WIDTH).over(two).plus(wobble).plus(S::milli(500));
    let ty = axis.minus(gap).minus(top.script_drop);
    let by = axis.plus(gap.plus(two)).plus(bottom.above);
    // A crossing descender can reach below the denominator, so the
    // box has to grow to hold it instead of clipping it.
    let numerator_low = ty.plus(top.below);
    let mut out = Box2::bare(
        width,
        ty.negated().plus(top.above).max(S::milli(0)),
        by.plus(bottom.below).max(numerator_low).max(S::milli(0)),
    );
    out.script_drop = out.script_drop.max(sink(top.script_drop, ty)).max(
        sink(bottom.script_drop, by),
    );
    let tx = width.minus(top.width).over(two);
    let bx = width.minus(bottom.width).over(two);
    out.add(top.translated(tx, ty));
    out.add(bottom.translated(bx, by));
    out.line(bar);
    proof {
        assert(out@.marks =~= fraction_box(top@, bottom@, width, axis, bar@).marks);
    }
    out
}

// Roots.

/// The corners of a radical: the entry hook, its foot, the bend, and the ends of the
/// overline.
pub struct Corners<S> {
    pub hook: (S, S),
    pub foot: (S, S),
    pub bend: (S, S),
    pub rise: (S, S),
    pub end: (S, S),
}

/// The height of the overline above the baseline.
pub open spec fn root_cap<S: Scalar>(body: BoxView<S>) -> S {
    body.above.larger(S::mil(56_000)) + S::mil(9_000)
}

/// The corners of a radical; its lower ones vary.
pub open spec fn root_corners<S: Scalar>(
    seed: u64,
    varied: bool,
    placed: usize,
    cap: S,
    width: S,
) -> Corners<S> {
    let b = bits::bits_of_instance(seed, "\\sqrt-bend"@, placed);
    let foot_x = if varied {
        S::mil(9_000) + S::mil(1_800) * bits::signed_unit_of::<S>(b)
    } else {
        S::mil(9_000)
    };
    let bend_x = if varied {
        S::mil(15_000) + S::mil(4_000) * bits::signed_unit_of::<S>(bits::redrawn(b, 17))
    } else {
        S::mil(15_000)
    };
    let bend_y = if varied {
        S::mil(10_000) + S::mil(1_600) * bits::signed_unit_of::<S>(bits::redrawn(b, 31))
    } else {
        S::mil(10_000)
    };
    Corners {
        hook: (S::mil(1_000), (-cap) * S::mil(450)),
        foot: (foot_x, (-cap) * S::mil(250)),
        bend: (bend_x, bend_y),
        rise: (S::mil(27_000), -cap),
        end: (width - S::mil(3_000), -cap),
    }
}

/// The point at distance `radius` from one point towards another.
pub open spec fn towards<S: Scalar>(from: (S, S), to: (S, S), radius: S) -> (S, S) {
    let (dx, dy) = (to.0 - from.0, to.1 - from.1);
    let fraction = radius / dx.hypotenuse(dy);
    (from.0 + dx * fraction, from.1 + dy * fraction)
}

/// A coordinate of the curve that rounds a corner.
pub open spec fn rounding_at<S: Scalar>(before: S, corner: S, after: S, t: S) -> S {
    let u = S::mil(1_000) - t;
    u * u * before + S::mil(2_000) * u * t * corner + t * t * after
}

/// The points that round a corner.
pub open spec fn rounding<S: Scalar>(before: (S, S), corner: (S, S), after: (S, S)) -> Seq<(S, S)> {
    Seq::new(
        6,
        |i: int|
            {
                let t = S::counted(i + 1) / S::mil(6_000);
                (
                    rounding_at(before.0, corner.0, after.0, t),
                    rounding_at(before.1, corner.1, after.1, t),
                )
            },
    )
}

/// The stroke of a radical drawn by hand: four lines, with the bend rounded or not.
pub open spec fn root_stroke<S: Scalar>(seed: u64, placed: usize, c: Corners<S>) -> Seq<(S, S)> {
    let b = bits::bits_of_instance(seed, "\\sqrt-bend"@, placed);
    let rounded = bits::unit_of::<S>(bits::bits_of_instance(seed, "\\sqrt-round"@, placed))
        < S::mil(500);
    let radius = S::mil(10_000) + S::mil(4_000) * bits::unit_of::<S>(bits::redrawn(b, 43));
    let before = towards(c.bend, c.foot, radius);
    let after = towards(c.bend, c.rise, radius);
    let down_end = if rounded {
        before
    } else {
        c.bend
    };
    let up_start = if rounded {
        after
    } else {
        c.bend
    };
    variation::drawn_line(seed, placed, "\\sqrt-entry"@, c.hook, c.foot) + variation::drawn_line(
        seed,
        placed,
        "\\sqrt-down"@,
        c.foot,
        down_end,
    ).skip(1) + (if rounded {
        rounding(before, c.bend, after)
    } else {
        Seq::empty()
    }) + variation::drawn_line(seed, placed, "\\sqrt-up"@, up_start, c.rise).skip(1)
        + variation::drawn_line(seed, placed, "\\sqrtbar"@, c.rise, c.end).skip(1)
}

/// The points of a radical.
pub open spec fn root_points<S: Scalar>(
    seed: u64,
    varied: bool,
    placed: usize,
    cap: S,
    width: S,
) -> Seq<(S, S)> {
    let c = root_corners(seed, varied, placed, cap, width);
    if varied {
        root_stroke(seed, placed, c)
    } else {
        seq![c.hook, c.foot, c.bend, c.rise, c.end]
    }
}

/// A root without its index.
pub open spec fn root_box<S: Scalar>(
    body: BoxView<S>,
    seed: u64,
    varied: bool,
    placed: usize,
) -> BoxView<S> {
    let cap = root_cap(body);
    let width = body.width + S::mil(30_000);
    BoxView {
        width,
        above: cap + S::mil(4_000),
        below: body.below.larger(S::mil(13_000)),
        script_drop: S::mil(0).larger(body.script_drop),
        marks: strokes::marks_moved(body.marks, S::mil(26_000), S::mil(0)).push(
            strokes::plain_mark(root_points(seed, varied, placed, cap, width)),
        ),
        large: false,
    }
}

/// A root with its index in the crook of the radical.
pub open spec fn with_index<S: Scalar>(root: BoxView<S>, cap: S, index: BoxView<S>) -> BoxView<S> {
    BoxView {
        above: root.above.larger(cap + index.above + S::mil(4_000)),
        script_drop: root.script_drop.larger(sunk(index.script_drop, (-cap) * S::mil(750))),
        marks: root.marks + strokes::marks_moved(
            index.marks,
            (-index.width) * S::mil(250),
            (-cap) * S::mil(750),
        ),
        ..root
    }
}

fn point_towards<S: Scalar>(from: (S, S), to: (S, S), radius: S) -> (r: (S, S))
    ensures
        r == towards(from, to, radius),
{
    let dx = to.0.minus(from.0);
    let dy = to.1.minus(from.1);
    let fraction = radius.over(dx.hypot(dy));
    (from.0.plus(dx.times(fraction)), from.1.plus(dy.times(fraction)))
}

fn round_off<S: Scalar>(before: S, corner: S, after: S, t: S) -> (r: S)
    ensures
        r == rounding_at(before, corner, after, t),
{
    let u = S::milli(1_000).minus(t);
    u.times(u).times(before).plus(S::milli(2_000).times(u).times(t).times(corner)).plus(
        t.times(t).times(after),
    )
}

fn draw_rounding<S: Scalar>(before: (S, S), corner: (S, S), after: (S, S)) -> (r: Vec<(S, S)>)
    ensures
        r@ == rounding(before, corner, after),
{
    let mut points: Vec<(S, S)> = Vec::new();
    let mut i: usize = 0;
    while i < 6
        invariant
            i <= 6,
            points.len() == i,
            forall|k: int| 0 <= k < i ==> points@[k] == rounding(before, corner, after)[k],
        decreases 6 - i,
    {
        let t = S::whole(i + 1).over(S::milli(6_000));
        points.push(
            (
                round_off(before.0, corner.0, after.0, t),
                round_off(before.1, corner.1, after.1, t),
            ),
        );
        i += 1;
    }
    proof {
        assert(points@ =~= rounding(before, corner, after));
    }
    points
}

/// A hand-drawn line without its first point, which the line before it has drawn.
fn continued_line<S: Scalar>(seed: u64, placed: usize, key: &str, from: (S, S), to: (S, S)) -> (r:
    Vec<(S, S)>)
    ensures
        r@ == variation::drawn_line(seed, placed, key@, from, to).skip(1),
{
    let mut line = hand_drawn_line(seed, placed, key, from, to);
    line.split_off(1)
}

fn find_corners<S: Scalar>(seed: u64, varied: bool, placed: usize, cap: S, width: S) -> (r: Corners<
    S,
>)
    ensures
        r == root_corners(seed, varied, placed, cap, width),
{
    let b = instance_bits(seed, "\\sqrt-bend", placed);
    let mut foot_x = S::milli(9_000);
    let mut bend_x = S::milli(15_000);
    let mut bend_y = S::milli(10_000);
    if varied {
        foot_x = foot_x.plus(S::milli(1_800).times(unit_signed::<S>(b)));
        bend_x = bend_x.plus(S::milli(4_000).times(unit_signed::<S>(redraw(b, 17))));
        bend_y = bend_y.plus(S::milli(1_600).times(unit_signed::<S>(redraw(b, 31))));
    }
    let top = cap.negated();
    Corners {
        hook: (S::milli(1_000), top.times(S::milli(450))),
        foot: (foot_x, top.times(S::milli(250))),
        bend: (bend_x, bend_y),
        rise: (S::milli(27_000), top),
        end: (width.minus(S::milli(3_000)), top),
    }
}

fn draw_root_stroke<S: Scalar>(seed: u64, placed: usize, c: &Corners<S>) -> (r: Vec<(S, S)>)
    ensures
        r@ == root_stroke(seed, placed, *c),
{
    let b = instance_bits(seed, "\\sqrt-bend", placed);
    let rounded = unit_interval::<S>(instance_bits(seed, "\\sqrt-round", placed)).lt(S::milli(500));
    let radius = S::milli(10_000).plus(
        S::milli(4_000).times(unit_interval::<S>(redraw(b, 43))),
    );
    let before = point_towards(c.bend, c.foot, radius);
    let after = point_towards(c.bend, c.rise, radius);
    let down_end = if rounded {
        before
    } else {
        c.bend
    };
    let up_start = if rounded {
        after
    } else {
        c.bend
    };
    let mut stroke = hand_drawn_line(seed, placed, "\\sqrt-entry", c.hook, c.foot);
    let mut down = continued_line(seed, placed, "\\sqrt-down", c.foot, down_end);
    stroke.append(&mut down);
    let mut bend: Vec<(S, S)> = if rounded {
        draw_rounding(before, c.bend, after)
    } else {
        Vec::new()
    };
    stroke.append(&mut bend);
    let mut up = continued_line(seed, placed, "\\sqrt-up", up_start, c.rise);
    stroke.append(&mut up);
    let mut bar = continued_line(seed, placed, "\\sqrtbar", c.rise, c.end);
    stroke.append(&mut bar);
    proof {
        assert(stroke@ =~= root_stroke(seed, placed, *c));
    }
    stroke
}

fn draw_root<S: Scalar>(seed: u64, varied: bool, placed: usize, cap: S, width: S) -> (r: Vec<(S, S)>)
    ensures
        r@ == root_points(seed, varied, placed, cap, width),
{
    let c = find_corners(seed, varied, placed, cap, width);
    if varied {
        draw_root_stroke(seed, placed, &c)
    } else {
        let stroke = vec![c.hook, c.foot, c.bend, c.rise, c.end];
        assert(stroke@ =~= root_points(seed, varied, placed, cap, width));
        stroke
    }
}

/// Draws a radical round a body; also gives the height of the overline.
pub fn compose_root<S: Scalar>(body: Box2<S>, seed: u64, varied: bool, placed: usize) -> (r: (
    Box2<S>,
    S,
))
    requires
        strokes::marks_are_sound(body@.marks),
    ensures
        r.0@ == root_box(body@, seed, varied, placed),
        r.1 == root_cap(body@),
        strokes::marks_are_sound(r.0@.marks),
{
    let cap = body.above.max(S::milli(56_000)).plus(S::milli(9_000));
    let mut out = Box2::bare(
        body.width.plus(S::milli(30_000)),
        cap.plus(S::milli(4_000)),
        body.below.max(S::milli(13_000)),
    );
    out.script_drop = out.script_drop.max(body.script_drop);
    out.add(body.translated(S::milli(26_000), S::milli(0)));
    let stroke = draw_root(seed, varied, placed, cap, out.width);
    out.line(stroke);
    proof {
        assert(out@.marks =~= root_box(body@, seed, varied, placed).marks);
    }
    (out, cap)
}

/// Puts an index into the crook of a radical.
pub fn add_index<S: Scalar>(root: Box2<S>, cap: S, index: Box2<S>) -> (r: Box2<S>)
    requires
        strokes::marks_are_sound(root@.marks),
        strokes::marks_are_sound(index@.marks),
    ensures
        r@ == with_index(root@, cap, index@),
        strokes::marks_are_sound(r@.marks),
{
    let mut out = root;
    out.above = out.above.max(cap.plus(index.above).plus(S::milli(4_000)));
    let x = index.width.negated().times(S::milli(250));
    let y = cap.negated().times(S::milli(750));
    out.script_drop = out.script_drop.max(sink(index.script_drop, y));
    out.add(index.translated(x, y));
    out
}

// Scripts.

/// Keys of integral signs, whose limits are written smaller.
pub open spec fn is_integral_key(key: Seq<char>) -> bool {
    key == "\\int"@ || key == "\\oint"@ || key == "\\iint"@ || key == "\\iiint"@
}

/// A subscript in its size.
pub open spec fn sub_sized<S: Scalar>(b: BoxView<S>, integral: bool) -> BoxView<S> {
    strokes::box_stretched(
        strokes::box_scaled(b, S::mil(if integral { 400 } else { 500 })),
        S::mil(820),
    )
}

/// A superscript in its size.
pub open spec fn sup_sized<S: Scalar>(b: BoxView<S>, integral: bool) -> BoxView<S> {
    strokes::box_stretched(
        strokes::box_scaled(b, S::mil(if integral { 440 } else { 550 })),
        S::mil(850),
    )
}

/// A dimension of an optional box.
pub open spec fn width_or_none<S: Scalar>(b: Option<BoxView<S>>) -> S {
    match b {
        Some(b) => b.width,
        None => S::mil(0),
    }
}

/// A large symbol with its limits above and below, clear of its ink.
pub open spec fn limits_box<S: Scalar>(
    base: BoxView<S>,
    sub: Option<BoxView<S>>,
    sup: Option<BoxView<S>>,
) -> BoxView<S> {
    let two = S::mil(2_000);
    let width = base.width.larger(width_or_none(sup)).larger(width_or_none(sub)) + S::mil(6_000);
    let centred = strokes::marks_moved(base.marks, (width - base.width) / two, S::mil(0));
    let plain = BoxView {
        marks: centred,
        script_drop: S::mil(0).larger(base.script_drop),
        ..strokes::bare_box(width, base.above, base.below)
    };
    let topped = match sup {
        Some(b) => {
            let sy = -base.above - S::mil(10_000) - b.below;
            BoxView {
                above: plain.above.larger(-sy + b.above),
                script_drop: plain.script_drop.larger(sunk(b.script_drop, sy)),
                marks: plain.marks + strokes::marks_moved(b.marks, (width - b.width) / two, sy),
                ..plain
            }
        },
        None => plain,
    };
    match sub {
        Some(b) => {
            let uy = base.below + S::mil(10_000) + b.above;
            BoxView {
                below: topped.below.larger(uy + b.below),
                script_drop: topped.script_drop.larger(sunk(b.script_drop, uy)),
                marks: topped.marks + strokes::marks_moved(b.marks, (width - b.width) / two, uy),
                ..topped
            }
        },
        None => topped,
    }
}

/// Where a subscript starts: near its base, but with a gap between the actual strokes.
pub open spec fn sub_place<S: Scalar>(base: BoxView<S>, sub: Option<BoxView<S>>) -> S {
    let dx = base.width - S::mil(2_000);
    match sub {
        Some(b) => match (
            strokes::extent(base.marks, Axis::X),
            strokes::extent(b.marks, Axis::X),
        ) {
            (Some((_, base_right)), Some((sub_left, _))) => dx.larger(
                base_right - sub_left + S::mil(SUBSCRIPT_INK_GAP as int),
            ),
            _ => dx,
        },
        None => dx,
    }
}

/// A base with its scripts beside it.
pub open spec fn beside_box<S: Scalar>(
    base: BoxView<S>,
    sub: Option<BoxView<S>>,
    sup: Option<BoxView<S>>,
) -> BoxView<S> {
    let dx = base.width - S::mil(2_000);
    let sy = -(base.above.larger(S::mil(34_000))) + S::mil(10_000);
    let uy = base.below.larger(S::mil(8_000)) + S::mil(6_000);
    let sub_x = sub_place(base, sub);
    let sup_right = match sup {
        Some(b) => dx + b.width,
        None => dx,
    };
    let sub_right = match sub {
        Some(b) => sub_x + b.width,
        None => dx,
    };
    let plain = BoxView {
        width: sup_right.larger(sub_right) + S::mil(5_000),
        above: base.above,
        below: base.below,
        script_drop: base.script_drop,
        marks: base.marks,
        large: false,
    };
    let topped = match sup {
        Some(b) => BoxView {
            above: plain.above.larger(-sy + b.above),
            script_drop: plain.script_drop.larger(sunk(b.script_drop, sy)),
            marks: plain.marks + strokes::marks_moved(b.marks, dx, sy),
            ..plain
        },
        None => plain,
    };
    match sub {
        Some(b) => BoxView {
            below: topped.below.larger(uy + b.below),
            script_drop: topped.script_drop.larger(uy + b.script_drop),
            marks: topped.marks + strokes::marks_moved(b.marks, sub_x, uy),
            ..topped
        },
        None => topped,
    }
}

/// A base with its scripts.
#[verifier::opaque]
pub open spec fn script_box<S: Scalar>(
    base: BoxView<S>,
    sub: Option<BoxView<S>>,
    sup: Option<BoxView<S>>,
) -> BoxView<S> {
    if base.large {
        limits_box(base, sub, sup)
    } else {
        beside_box(base, sub, sup)
    }
}

/// What an optional box holds.
pub open spec fn view_of_option<S>(b: Option<Box2<S>>) -> Option<BoxView<S>> {
    match b {
        Some(b) => Some(b@),
        None => None,
    }
}

/// Whether an optional box is sound.
pub open spec fn option_is_sound<S>(b: Option<Box2<S>>) -> bool {
    b matches Some(b) ==> strokes::marks_are_sound(b@.marks)
}

fn compose_limits<S: Scalar>(base: Box2<S>, sub: Option<Box2<S>>, sup: Option<Box2<S>>) -> (r: Box2<
    S,
>)
    requires
        strokes::marks_are_sound(base@.marks),
        option_is_sound(sub),
        option_is_sound(sup),
    ensures
        r@ == limits_box(base@, view_of_option(sub), view_of_option(sup)),
        strokes::marks_are_sound(r@.marks),
{
    let two = S::milli(2_000);
    let ten = S::milli(10_000);
    let sup_width = match &sup {
        Some(b) => b.width,
        None => S::milli(0),
    };
    let sub_width = match &sub {
        Some(b) => b.width,
        None => S::milli(0),
    };
    let width = base.width.max(sup_width).max(sub_width).plus(S::milli(6_000));
    // Keep script ink outside the integral's actual ink
    // bounds, not merely beyond its baseline.
    let top = base.above.negated().minus(ten);
    let bottom = base.below.plus(ten);
    let mut out = Box2::bare(width, base.above, base.below);
    out.script_drop = out.script_drop.max(base.script_drop);
    let x = width.minus(base.width).over(two);
    out.add(base.translated(x, S::milli(0)));
    proof {
        assert(out@.marks =~= strokes::marks_moved(base@.marks, x, S::mil(0)));
    }
    if let Some(b) = sup {
        let sy = top.minus(b.below);
        out.above = out.above.max(sy.negated().plus(b.above));
        out.script_drop = out.script_drop.max(sink(b.script_drop, sy));
        let x = width.minus(b.width).over(two);
        out.add(b.translated(x, sy));
    }
    if let Some(b) = sub {
        let uy = bottom.plus(b.above);
        out.below = out.below.max(uy.plus(b.below));
        out.script_drop = out.script_drop.max(sink(b.script_drop, uy));
        let x = width.minus(b.width).over(two);
        out.add(b.translated(x, uy));
    }
    out
}

fn find_sub_place<S: Scalar>(base: &Box2<S>, sub: &Option<Box2<S>>) -> (r: S)
    ensures
        r == sub_place(base@, view_of_option(*sub)),
{
    let dx = base.width.minus(S::milli(2_000));
    match sub {
        Some(b) => match (
            strokes::ink_extent(&base.marks, Axis::X),
            strokes::ink_extent(&b.marks, Axis::X),
        ) {
            (Some((_, base_right)), Some((sub_left, _))) => dx.max(
                base_right.minus(sub_left).plus(S::milli(SUBSCRIPT_INK_GAP)),
            ),
            _ => dx,
        },
        None => dx,
    }
}

fn compose_beside<S: Scalar>(base: Box2<S>, sub: Option<Box2<S>>, sup: Option<Box2<S>>) -> (r: Box2<
    S,
>)
    requires
        strokes::marks_are_sound(base@.marks),
        option_is_sound(sub),
        option_is_sound(sup),
    ensures
        r@ == beside_box(base@, view_of_option(sub), view_of_option(sup)),
        strokes::marks_are_sound(r@.marks),
{
    let dx = base.width.minus(S::milli(2_000));
    let sy = base.above.max(S::milli(34_000)).negated().plus(S::milli(10_000));
    let uy = base.below.max(S::milli(8_000)).plus(S::milli(6_000));
    // A sampled letter can reach right to its box edge, and a
    // subscript digit can begin at its left edge. Reserve a gap
    // between the actual strokes rather than relying on box padding.
    let sub_x = find_sub_place(&base, &sub);
    let sup_right = match &sup {
        Some(b) => dx.plus(b.width),
        None => dx,
    };
    let sub_right = match &sub {
        Some(b) => sub_x.plus(b.width),
        None => dx,
    };
    let mut out = Box2::bare(
        sup_right.max(sub_right).plus(S::milli(5_000)),
        base.above,
        base.below,
    );
    out.script_drop = base.script_drop;
    out.add(base);
    proof {
        assert(out@.marks =~= base@.marks);
    }
    if let Some(b) = sup {
        out.above = out.above.max(sy.negated().plus(b.above));
        out.script_drop = out.script_drop.max(sink(b.script_drop, sy));
        out.add(b.translated(dx, sy));
    }
    if let Some(b) = sub {
        out.below = out.below.max(uy.plus(b.below));
        out.script_drop = out.script_drop.max(uy.plus(b.script_drop));
        out.add(b.translated(sub_x, uy));
    }
    out
}

/// Puts a base and its scripts together.
pub fn compose_script<S: Scalar>(base: Box2<S>, sub: Option<Box2<S>>, sup: Option<Box2<S>>) -> (r:
    Box2<S>)
    requires
        strokes::marks_are_sound(base@.marks),
        option_is_sound(sub),
        option_is_sound(sup),
    ensures
        r@ == script_box(base@, view_of_option(sub), view_of_option(sup)),
        strokes::marks_are_sound(r@.marks),
{
    proof {
        reveal(script_box);
    }
    if base.large {
        compose_limits(base, sub, sup)
    } else {
        compose_beside(base, sub, sup)
    }
}

/// Whether a node is an integral sign.
pub open spec fn is_integral_node<S>(n: Node<S>) -> bool {
    n matches Node::Glyph(key) && is_integral_key(key@)
}

/// Whether the limits of a node are written smaller.
pub fn is_integral<S: Scalar>(n: &Node<S>) -> (r: bool)
    ensures
        r == is_integral_node(*n),
{
    match n {
        Node::Glyph(key) => {
            let key = key.as_str();
            same_text(key, "\\int") || same_text(key, "\\oint") || same_text(key, "\\iint")
                || same_text(key, "\\iiint")
        },
        _ => false,
    }
}

// Accents.

/// The strokes of an accent over, or under, a body of width `w`: `y` is the height just
/// above the body and `under` the one just below it.
pub open spec fn accent_marks<S: Scalar>(name: Seq<char>, w: S, y: S, under: S) -> Seq<
    MarkView<S>,
> {
    let three = S::mil(3_000);
    let four = S::mil(4_000);
    let two = S::mil(2_000);
    if name == "hat"@ || name == "widehat"@ {
        seq![
            strokes::plain_mark(seq![(three, y), (w / two, y - S::mil(10_000)), (w - three, y)]),
        ]
    } else if name == "tilde"@ || name == "widetilde"@ {
        seq![
            strokes::plain_mark(
                seq![
                    (three, y - three),
                    (w * S::mil(300), y - S::mil(9_000)),
                    (w * S::mil(700), y),
                    (w - three, y - S::mil(6_000)),
                ],
            ),
        ]
    } else if name == "vec"@ {
        seq![
            strokes::plain_mark(
                seq![
                    (three, y - four),
                    (w - four, y - four),
                    (w - S::mil(12_000), y - S::mil(10_000)),
                ],
            ),
            strokes::plain_mark(seq![(w - four, y - four), (w - S::mil(12_000), y + two)]),
        ]
    } else if name == "dot"@ {
        seq![strokes::plain_mark(seq![(w / two, y - four)])]
    } else if name == "ddot"@ {
        seq![
            strokes::plain_mark(seq![(w * S::mil(350), y - four)]),
            strokes::plain_mark(seq![(w * S::mil(650), y - four)]),
        ]
    } else if name == "underline"@ {
        seq![strokes::plain_mark(seq![(two, under), (w - two, under)])]
    } else {
        seq![strokes::plain_mark(seq![(two, y - four), (w - two, y - four)])]
    }
}

/// A body with its accent.
pub open spec fn accent_box<S: Scalar>(name: Seq<char>, body: BoxView<S>) -> BoxView<S> {
    BoxView {
        width: body.width,
        above: body.above + S::mil(19_000),
        below: if name == "underline"@ {
            body.below + S::mil(9_000)
        } else {
            body.below
        },
        script_drop: S::mil(0).larger(body.script_drop),
        marks: body.marks + accent_marks(
            name,
            body.width,
            -body.above - S::mil(7_000),
            body.below + S::mil(6_000),
        ),
        large: false,
    }
}

proof fn lemma_literals_differ()
    ensures
        "underline"@ != "hat"@,
        "underline"@ != "widehat"@,
        "underline"@ != "tilde"@,
        "underline"@ != "widetilde"@,
        "underline"@ != "vec"@,
        "underline"@ != "dot"@,
        "underline"@ != "ddot"@,
{
    reveal_strlit("underline");
    reveal_strlit("hat");
    reveal_strlit("widehat");
    reveal_strlit("tilde");
    reveal_strlit("widetilde");
    reveal_strlit("vec");
    reveal_strlit("dot");
    reveal_strlit("ddot");
    assert("underline"@[0] == 'u');
    assert("widetilde"@[0] == 'w');
}

/// Draws an accent over, or a line under, a body.
pub fn compose_accent<S: Scalar>(name: &str, body: Box2<S>) -> (r: Box2<S>)
    requires
        strokes::marks_are_sound(body@.marks),
    ensures
        r@ == accent_box(name@, body@),
        strokes::marks_are_sound(r@.marks),
{
    let w = body.width;
    let under = body.below.plus(S::milli(6_000));
    let y = body.above.negated().minus(S::milli(7_000));
    let mut out = Box2::bare(w, body.above.plus(S::milli(19_000)), body.below);
    out.script_drop = out.script_drop.max(body.script_drop);
    out.add(body);
    proof {
        lemma_literals_differ();
        assert(out@.marks =~= body@.marks);
    }
    let two = S::milli(2_000);
    let three = S::milli(3_000);
    let four = S::milli(4_000);
    if same_text(name, "hat") || same_text(name, "widehat") {
        let points = vec![
            (three, y),
            (w.over(two), y.minus(S::milli(10_000))),
            (w.minus(three), y),
        ];
        proof {
            assert(points@ =~= accent_marks(name@, w, y, under)[0].points);
        }
        out.line(points);
    } else if same_text(name, "tilde") || same_text(name, "widetilde") {
        let points = vec![
            (three, y.minus(three)),
            (w.times(S::milli(300)), y.minus(S::milli(9_000))),
            (w.times(S::milli(700)), y),
            (w.minus(three), y.minus(S::milli(6_000))),
        ];
        proof {
            assert(points@ =~= accent_marks(name@, w, y, under)[0].points);
        }
        out.line(points);
    } else if same_text(name, "vec") {
        let twelve = S::milli(12_000);
        let shaft = vec![
            (three, y.minus(four)),
            (w.minus(four), y.minus(four)),
            (w.minus(twelve), y.minus(S::milli(10_000))),
        ];
        let barb = vec![(w.minus(four), y.minus(four)), (w.minus(twelve), y.plus(two))];
        proof {
            assert(shaft@ =~= accent_marks(name@, w, y, under)[0].points);
            assert(barb@ =~= accent_marks(name@, w, y, under)[1].points);
        }
        out.line(shaft);
        out.line(barb);
    } else if same_text(name, "dot") {
        let points = vec![(w.over(two), y.minus(four))];
        proof {
            assert(points@ =~= accent_marks(name@, w, y, under)[0].points);
        }
        out.line(points);
    } else if same_text(name, "ddot") {
        let left = vec![(w.times(S::milli(350)), y.minus(four))];
        let right = vec![(w.times(S::milli(650)), y.minus(four))];
        proof {
            assert(left@ =~= accent_marks(name@, w, y, under)[0].points);
            assert(right@ =~= accent_marks(name@, w, y, under)[1].points);
        }
        out.line(left);
        out.line(right);
    } else if same_text(name, "underline") {
        let points = vec![(two, under), (w.minus(two), under)];
        proof {
            assert(points@ =~= accent_marks(name@, w, y, under)[0].points);
        }
        out.line(points);
        out.below = out.below.plus(S::milli(9_000));
    } else {
        let points = vec![(two, y.minus(four)), (w.minus(two), y.minus(four))];
        proof {
            assert(points@ =~= accent_marks(name@, w, y, under)[0].points);
        }
        out.line(points);
    }
    proof {
        assert(out@.marks =~= accent_box(name@, body@).marks);
    }
    out
}

// Arrows.

/// The collected arrow that an extensible arrow is drawn with.
pub open spec fn arrow_key(key: Seq<char>) -> Seq<char> {
    if key == "\\xrightarrow"@ {
        "\\rightarrow"@
    } else if key == "\\xleftarrow"@ {
        "\\leftarrow"@
    } else {
        "\\leftrightarrow"@
    }
}

/// An arrow with its label centred above it.
pub open spec fn arrow_box<S: Scalar>(arrow: BoxView<S>, label: BoxView<S>) -> BoxView<S> {
    let two = S::mil(2_000);
    let width = arrow.width.larger(label.width + S::mil(14_000));
    let y = -arrow.above - label.below - S::mil(8_000);
    BoxView {
        marks: strokes::marks_moved(arrow.marks, (width - arrow.width) / two, S::mil(0))
            + strokes::marks_moved(label.marks, (width - label.width) / two, y),
        script_drop: S::mil(0).larger(arrow.script_drop).larger(sunk(label.script_drop, y)),
        ..strokes::bare_box(width, (-y + label.above).larger(arrow.above), arrow.below)
    }
}

/// Puts a label above an arrow.
pub fn compose_arrow<S: Scalar>(arrow: Box2<S>, label: Box2<S>) -> (r: Box2<S>)
    requires
        strokes::marks_are_sound(arrow@.marks),
        strokes::marks_are_sound(label@.marks),
    ensures
        r@ == arrow_box(arrow@, label@),
        strokes::marks_are_sound(r@.marks),
{
    let two = S::milli(2_000);
    let width = arrow.width.max(label.width.plus(S::milli(14_000)));
    let y = arrow.above.negated().minus(label.below).minus(S::milli(8_000));
    let mut out = Box2::bare(
        width,
        y.negated().plus(label.above).max(arrow.above),
        arrow.below,
    );
    out.script_drop = out.script_drop.max(arrow.script_drop).max(sink(label.script_drop, y));
    let arrow_x = width.minus(arrow.width).over(two);
    let label_x = width.minus(label.width).over(two);
    out.add(arrow.translated(arrow_x, S::milli(0)));
    out.add(label.translated(label_x, y));
    proof {
        assert(out@.marks =~= arrow_box(arrow@, label@).marks);
    }
    out
}

// Aligned rows.

/// A row of an aligned block: what stands before its alignment mark, and after it.
pub type Cells<S> = (BoxView<S>, Option<BoxView<S>>);

/// The width of the left column.
pub open spec fn left_width<S: Scalar>(rows: Seq<Cells<S>>) -> S
    decreases rows.len(),
{
    if rows.len() == 0 {
        S::mil(0)
    } else {
        left_width(rows.drop_last()).larger(rows.last().0.width)
    }
}

/// The width of the right column.
pub open spec fn right_width<S: Scalar>(rows: Seq<Cells<S>>) -> S
    decreases rows.len(),
{
    if rows.len() == 0 {
        S::mil(0)
    } else {
        match rows.last().1 {
            Some(b) => right_width(rows.drop_last()).larger(b.width),
            None => right_width(rows.drop_last()),
        }
    }
}

/// How far a row reaches above its baseline.
pub open spec fn row_above<S: Scalar>(row: Cells<S>) -> S {
    row.0.above.larger(
        match row.1 {
            Some(b) => b.above,
            None => S::mil(0),
        },
    )
}

/// How far a row reaches below its baseline.
pub open spec fn row_below<S: Scalar>(row: Cells<S>) -> S {
    row.0.below.larger(
        match row.1 {
            Some(b) => b.below,
            None => S::mil(0),
        },
    )
}

/// The strokes of a row whose baseline is at `y`: the left cell ends, and the right one
/// starts, at the alignment mark.
pub open spec fn row_marks<S: Scalar>(row: Cells<S>, left: S, y: S) -> Seq<MarkView<S>> {
    let first = strokes::marks_moved(row.0.marks, left - row.0.width, y);
    match row.1 {
        Some(b) => first + strokes::marks_moved(b.marks, left + S::mil(12_000), y),
        None => first,
    }
}

/// The deepest subscript baseline of a row whose baseline is at `y`.
pub open spec fn row_drop<S: Scalar>(row: Cells<S>, y: S) -> S {
    sunk(row.0.script_drop, y).larger(
        match row.1 {
            Some(b) => sunk(b.script_drop, y),
            None => S::mil(0),
        },
    )
}

/// The strokes of some rows one below the other, where they end, and their deepest
/// subscript baseline.
pub open spec fn stacked<S: Scalar>(rows: Seq<Cells<S>>, left: S) -> (Seq<MarkView<S>>, S, S)
    decreases rows.len(),
{
    if rows.len() == 0 {
        (Seq::empty(), S::mil(0), S::mil(0))
    } else {
        let (marks, cursor, drop) = stacked(rows.drop_last(), left);
        let row = rows.last();
        let y = cursor + if rows.len() == 1 {
            row_above(row)
        } else {
            row_above(row) + S::mil(ALIGNED_ROW_GAP as int)
        };
        (marks + row_marks(row, left, y), y + row_below(row), drop.larger(row_drop(row, y)))
    }
}

/// An aligned block, hanging from its first row.
#[verifier::opaque]
pub open spec fn aligned_box<S: Scalar>(rows: Seq<Cells<S>>) -> BoxView<S> {
    let left = left_width(rows);
    let right = right_width(rows);
    let (marks, bottom, script_drop) = stacked(rows, left);
    BoxView {
        marks,
        script_drop,
        ..strokes::bare_box(
            left + if S::mil(0) < right {
                S::mil(12_000) + right
            } else {
                S::mil(0)
            },
            S::mil(0),
            bottom,
        )
    }
}

/// What a row holds.
pub open spec fn cells_of<S>(row: (Box2<S>, Option<Box2<S>>)) -> Cells<S> {
    (row.0@, view_of_option(row.1))
}

/// What the rows hold.
pub open spec fn rows_of<S>(rows: Seq<(Box2<S>, Option<Box2<S>>)>) -> Seq<Cells<S>> {
    Seq::new(rows.len(), |i: int| cells_of(rows[i]))
}

/// Whether all cells are sound.
pub open spec fn rows_are_sound<S>(rows: Seq<(Box2<S>, Option<Box2<S>>)>) -> bool {
    forall|i: int|
        0 <= i < rows.len() ==> strokes::marks_are_sound((#[trigger] rows[i]).0@.marks)
            && option_is_sound(rows[i].1)
}

fn stack_row<S: Scalar>(
    out: &mut Box2<S>,
    row: (Box2<S>, Option<Box2<S>>),
    left: S,
    start: S,
    first: bool,
) -> (r: S)
    requires
        strokes::marks_are_sound(old(out)@.marks),
        strokes::marks_are_sound(row.0@.marks),
        option_is_sound(row.1),
    ensures
        ({
            let y = start + if first {
                row_above(cells_of(row))
            } else {
                row_above(cells_of(row)) + S::mil(ALIGNED_ROW_GAP as int)
            };
            &&& final(out)@ == (BoxView {
                marks: old(out)@.marks + row_marks(cells_of(row), left, y),
                script_drop: old(out)@.script_drop.larger(row_drop(cells_of(row), y)),
                ..old(out)@
            })
            &&& r == y + row_below(cells_of(row))
        }),
        strokes::marks_are_sound(final(out)@.marks),
{
    let (a, b) = row;
    let (other_above, other_below) = match &b {
        Some(b) => (b.above, b.below),
        None => (S::milli(0), S::milli(0)),
    };
    let above = a.above.max(other_above);
    let below = a.below.max(other_below);
    let baseline = start.plus(
        if first {
            above
        } else {
            above.plus(S::milli(ALIGNED_ROW_GAP))
        },
    );
    let ghost before = out@;
    let other_drop = match &b {
        Some(b) => sink(b.script_drop, baseline),
        None => S::milli(0),
    };
    out.script_drop = out.script_drop.max(sink(a.script_drop, baseline).max(other_drop));
    let x = left.minus(a.width);
    out.add(a.translated(x, baseline));
    if let Some(b) = b {
        out.add(b.translated(left.plus(S::milli(12_000)), baseline));
    }
    proof {
        assert(out@.marks =~= before.marks + row_marks(cells_of(row), left, baseline));
    }
    baseline.plus(below)
}

/// Stacks aligned rows.
pub fn compose_aligned<S: Scalar>(rows: Vec<(Box2<S>, Option<Box2<S>>)>) -> (r: Box2<S>)
    requires
        rows_are_sound(rows@),
    ensures
        r@ == aligned_box(rows_of(rows@)),
        strokes::marks_are_sound(r@.marks),
{
    proof {
        reveal(aligned_box);
    }
    let ghost cells = rows_of(rows@);
    let mut left = S::milli(0);
    let mut right = S::milli(0);
    let mut i: usize = 0;
    while i < rows.len()
        invariant
            i <= rows.len(),
            cells == rows_of(rows@),
            left == left_width(cells.take(i as int)),
            right == right_width(cells.take(i as int)),
        decreases rows.len() - i,
    {
        proof {
            assert(cells.take(i + 1).drop_last() =~= cells.take(i as int));
            assert(cells.take(i + 1).last() == cells_of(rows@[i as int]));
        }
        left = left.max(rows[i].0.width);
        if let Some(b) = &rows[i].1 {
            right = right.max(b.width);
        }
        i += 1;
    }
    proof {
        assert(cells.take(i as int) =~= cells);
    }
    let mut out: Box2<S> = Box2::empty();
    let mut cursor = S::milli(0);
    let ghost all = rows@;
    let mut first = true;
    for row in rest: rows
        invariant
            rest.seq() == all,
            cells == rows_of(all),
            rows_are_sound(all),
            first == (rest.index() == 0),
            out@ == (BoxView {
                marks: out@.marks,
                script_drop: out@.script_drop,
                ..strokes::empty_box()
            }),
            (out@.marks, cursor, out@.script_drop) == stacked(cells.take(rest.index()), left),
            strokes::marks_are_sound(out@.marks),
    {
        proof {
            let n = rest.index();
            assert(row == all[n]);
            assert(cells.take(n + 1).drop_last() =~= cells.take(n));
            assert(cells.take(n + 1).last() == cells_of(row));
            assert(strokes::marks_are_sound(all[n].0@.marks) && option_is_sound(all[n].1));
        }
        cursor = stack_row(&mut out, row, left, cursor, first);
        first = false;
    }
    proof {
        assert(cells.take(all.len() as int) =~= cells);
    }
    out.width = left.plus(
        if S::milli(0).lt(right) {
            S::milli(12_000).plus(right)
        } else {
            S::milli(0)
        },
    );
    out.above = S::milli(0);
    out.below = cursor;
    out
}

} // verus!
