//! Single symbols: collected glyphs, the symbols made of several of them, and the
//! delimiters that are drawn to measure.
use crate::bits;
use crate::bits::{instance_bits, redraw, unit_signed};
use crate::node;
use crate::node::is_delimiter;
use crate::pen;
use crate::pen::{Layout, Pen, Written};
use crate::profile;
use crate::profile::RenderError;
use crate::scalar::Scalar;
use crate::strokes;
use crate::strokes::{Axis, Box2, BoxView, Mark, MarkView};
use crate::words::{joined, same_text};
use vstd::prelude::*;

verus! {

/// How much a collected parenthesis varies: its width and lean, and its bow in
/// thousandths of a pixel.
pub const PARENTHESIS_WIDTH_VARIATION: i32 = 180;

pub const PARENTHESIS_LEAN: i32 = 2_000;

pub const PARENTHESIS_BOW_VARIATION: i32 = 3_500;

/// How many straight pieces a procedural parenthesis consists of.
pub const PARENTHESIS_SEGMENTS: usize = 20;

/// Where a delimiter is drawn: at `x`, from `up` above the baseline to `down` below it.
pub struct Slot<S> {
    pub x: S,
    pub up: S,
    pub down: S,
    pub opening: bool,
}

impl<S: Copy> Copy for Slot<S> {

}

impl<S: Copy> Clone for Slot<S> {
    fn clone(&self) -> (r: Self)
        ensures
            r == *self,
    {
        *self
    }
}

/// The shapes of procedural delimiters.
#[derive(Clone, Copy, PartialEq, Eq, Structural)]
pub enum Shape {
    Round,
    Square,
    Bar,
    Angle,
    Brace,
}

/// The shape of a delimiter.
pub open spec fn shape_of_token(token: Seq<char>) -> Shape {
    if token == "("@ || token == ")"@ {
        Shape::Round
    } else if token == "["@ || token == "]"@ {
        Shape::Square
    } else if token == "|"@ || token == "\\lvert"@ || token == "\\rvert"@ {
        Shape::Bar
    } else if token == "\\langle"@ || token == "\\rangle"@ {
        Shape::Angle
    } else {
        Shape::Brace
    }
}

/// `n` thousandths to the left for an opening delimiter, to the right for a closing one.
pub open spec fn outward<S: Scalar>(slot: Slot<S>, n: int) -> S {
    S::mil(if slot.opening { -n } else { n })
}

/// The points of a procedural parenthesis: the taller, the more it bulges.
pub open spec fn round_points<S: Scalar>(slot: Slot<S>) -> Seq<(S, S)> {
    let top = -slot.up;
    let amplitude = ((slot.up + slot.down) * S::mil(140)).held(S::mil(8_000), S::mil(15_000));
    Seq::new(
        (PARENTHESIS_SEGMENTS + 1) as nat,
        |i: int|
            {
                let t = S::counted(i) / S::mil(20_000);
                let bulge = (S::half_turn() * t).sine() * amplitude;
                (
                    slot.x + if slot.opening {
                        -bulge
                    } else {
                        bulge
                    },
                    top + (slot.down - top) * t,
                )
            },
    )
}

/// The points of the other procedural delimiters.
pub open spec fn straight_points<S: Scalar>(slot: Slot<S>, shape: Shape) -> Seq<(S, S)> {
    let x = slot.x;
    let top = -slot.up;
    let bottom = slot.down;
    let middle = (top + bottom) / S::mil(2_000);
    let five = S::mil(5_000);
    match shape {
        Shape::Square => {
            let d = outward(slot, 7_000);
            seq![(x, top), (x + d, top), (x + d, bottom), (x, bottom)]
        },
        Shape::Bar => seq![(x, top), (x, bottom)],
        Shape::Angle => seq![(x, top), (x + outward(slot, 8_000), middle), (x, bottom)],
        _ => {
            let d = outward(slot, 8_000);
            seq![
                (x, top),
                (x + d, top + five),
                (x + d, middle - five),
                (x, middle),
                (x + d, middle + five),
                (x + d, bottom - five),
                (x, bottom),
            ]
        },
    }
}

/// The stroke of a procedural delimiter.
pub open spec fn procedural_mark<S: Scalar>(slot: Slot<S>, token: Seq<char>) -> MarkView<S> {
    let shape = shape_of_token(token);
    if shape == Shape::Round {
        strokes::parenthesis_mark(round_points(slot))
    } else {
        strokes::plain_mark(straight_points(slot, shape))
    }
}

/// How a collected parenthesis is fitted: from which range of heights, how wide it was
/// collected, where it starts and how it varies this time.
pub struct Fit<S> {
    pub min_y: S,
    pub max_y: S,
    pub width: S,
    pub start_x: S,
    pub width_scale: S,
    pub lean: S,
    pub bow: S,
}

/// A point of a collected parenthesis, stretched to the height of its slot. Its shape
/// across varies a little, within the slot.
pub open spec fn fitted_point<S: Scalar>(fit: Fit<S>, slot: Slot<S>, point: (S, S)) -> (S, S) {
    let t = (point.1 - fit.min_y) / (fit.max_y - fit.min_y);
    let top = -slot.up;
    let half = S::mil(500);
    (
        fit.start_x + fit.width * half + (point.0 - fit.width * half) * fit.width_scale + (t - half)
            * fit.lean + S::mil(if slot.opening { -1_000 } else { 1_000 }) * fit.bow * (
        S::half_turn() * t).sine(),
        top + t * (slot.down - top),
    )
}

/// The strokes of a collected parenthesis, fitted.
pub open spec fn fitted_marks<S: Scalar>(
    fit: Fit<S>,
    slot: Slot<S>,
    marks: Seq<MarkView<S>>,
) -> Seq<MarkView<S>> {
    Seq::new(
        marks.len(),
        |i: int|
            strokes::with_points(
                marks[i],
                Seq::new(
                    marks[i].points.len(),
                    |j: int| fitted_point(fit, slot, marks[i].points[j]),
                ),
            ),
    )
}

/// How the parenthesis that was written last varies.
pub open spec fn fit_of<S: Scalar>(
    pen: Pen<S>,
    token: Seq<char>,
    slot: Slot<S>,
    width: S,
    marks: Seq<MarkView<S>>,
) -> Fit<S> {
    let b = bits::bits_of_instance(pen.seed, token, pen.placed);
    let points = strokes::all_points(marks);
    Fit {
        min_y: strokes::lowest(points, Axis::Y),
        max_y: strokes::highest(points, Axis::Y),
        width,
        start_x: if slot.opening {
            slot.x - width
        } else {
            slot.x
        },
        width_scale: if pen.variation {
            S::mil(1_000) + S::mil(PARENTHESIS_WIDTH_VARIATION as int)
                * bits::signed_unit_of::<S>(b)
        } else {
            S::mil(1_000)
        },
        lean: if pen.variation {
            S::mil(PARENTHESIS_LEAN as int) * bits::signed_unit_of::<S>(bits::redrawn(b, 29))
        } else {
            S::mil(0)
        },
        bow: if pen.variation {
            S::mil(PARENTHESIS_BOW_VARIATION as int) * bits::signed_unit_of::<S>(
                bits::redrawn(b, 11),
            )
        } else {
            S::mil(0)
        },
    }
}

/// A box with more strokes.
pub open spec fn with_marks<S>(b: BoxView<S>, marks: Seq<MarkView<S>>) -> BoxView<S> {
    BoxView { marks: b.marks + marks, ..b }
}

/// A box with a delimiter drawn in it: a collected parenthesis where there is one, else
/// a procedural shape. A full stop stands for no delimiter.
pub open spec fn delimiter_written<S: Scalar>(
    pen: Pen<S>,
    b: BoxView<S>,
    token: Seq<char>,
    slot: Slot<S>,
) -> Written<S> {
    if token == "."@ {
        (pen, Ok(b))
    } else {
        match profile::parenthesis_width(pen.glyphs, token) {
            Some(width) => {
                let (after, sample) = pen::sample_written(pen, token);
                match sample {
                    Err(e) => (after, Err(e)),
                    Ok(s) => {
                        let fit = fit_of(after, token, slot, width, s.marks);
                        if fit.max_y - fit.min_y < S::mil(1_000) {
                            (
                                after,
                                Err(
                                    "parenthesis "@ + token
                                        + " needs a stroke with vertical height"@,
                                ),
                            )
                        } else {
                            (after, Ok(with_marks(b, fitted_marks(fit, slot, s.marks))))
                        }
                    },
                }
            },
            None => (pen, Ok(with_marks(b, seq![procedural_mark(slot, token)]))),
        }
    }
}

/// The slot of a literal delimiter.
pub open spec fn literal_slot<S: Scalar>(key: Seq<char>) -> Slot<S> {
    let opening = key == "("@ || key == "["@;
    Slot {
        x: S::mil(if opening { 13_000 } else { 5_000 }),
        up: S::mil(49_000),
        down: S::mil(19_000),
        opening,
    }
}

/// The first `n` of the copies of some strokes, each `step` further right, all moved
/// down by `y`.
pub open spec fn copies<S: Scalar>(
    marks: Seq<MarkView<S>>,
    n: int,
    step: spec_fn(int) -> S,
    y: S,
) -> Seq<MarkView<S>>
    decreases n,
{
    if n <= 0 {
        Seq::empty()
    } else {
        copies(marks, n - 1, step, y) + strokes::marks_moved(marks, step(n - 1), y)
    }
}

/// Three dots in a row, at the height of an operator or on the baseline.
pub open spec fn dots_box<S: Scalar>(dot: BoxView<S>, centred: bool) -> BoxView<S> {
    BoxView {
        marks: copies(
            dot.marks,
            3,
            |i: int| S::counted(i) * S::mil(17_000),
            S::mil(if centred { -31_000 } else { 0 }),
        ),
        ..strokes::bare_box(
            S::mil(45_000),
            if centred {
                S::mil(31_000)
            } else {
                dot.above
            },
            dot.below,
        )
    }
}

/// Several integral signs that overlap.
pub open spec fn integrals_box<S: Scalar>(single: BoxView<S>, n: int) -> BoxView<S> {
    BoxView {
        width: single.width + S::counted(n - 1) * (single.width * S::mil(650)),
        above: single.above,
        below: single.below,
        script_drop: S::mil(0),
        marks: copies(
            single.marks,
            n,
            |i: int| S::counted(i) * single.width * S::mil(650),
            S::mil(0),
        ),
        large: true,
    }
}

/// A single symbol as it is written next.
#[verifier::opaque]
pub open spec fn glyph_written<S: Scalar>(pen: Pen<S>, key: Seq<char>) -> Written<S> {
    if node::is_delimiter_key(key) && profile::parenthesis_width(pen.glyphs, key) is None {
        delimiter_written(
            pen,
            strokes::bare_box(S::mil(22_000), S::mil(49_000), S::mil(19_000)),
            key,
            literal_slot(key),
        )
    } else if key == "\\cdots"@ || key == "\\ldots"@ {
        let (after, dot) = pen::sample_written(pen, "."@);
        match dot {
            Ok(dot) => (after, Ok(dots_box(dot, key == "\\cdots"@))),
            Err(e) => (after, Err(e)),
        }
    } else if key == "\\iint"@ || key == "\\iiint"@ {
        let (after, single) = pen::sample_written(pen, "\\int"@);
        match single {
            Ok(single) => (after, Ok(integrals_box(single, if key == "\\iint"@ { 2 } else { 3 }))),
            Err(e) => (after, Err(e)),
        }
    } else {
        pen::sample_written(pen, key)
    }
}

fn shape_of<'t>(token: &'t str) -> (r: Shape)
    ensures
        r == shape_of_token(token@),
{
    if same_text(token, "(") || same_text(token, ")") {
        Shape::Round
    } else if same_text(token, "[") || same_text(token, "]") {
        Shape::Square
    } else if same_text(token, "|") || same_text(token, "\\lvert") || same_text(token, "\\rvert") {
        Shape::Bar
    } else if same_text(token, "\\langle") || same_text(token, "\\rangle") {
        Shape::Angle
    } else {
        Shape::Brace
    }
}

fn draw_round<S: Scalar>(slot: Slot<S>) -> (r: Vec<(S, S)>)
    ensures
        r@ == round_points(slot),
{
    let top = slot.up.negated();
    let amplitude = slot.up.plus(slot.down).times(S::milli(140)).clamp(
        S::milli(8_000),
        S::milli(15_000),
    );
    let mut points: Vec<(S, S)> = Vec::new();
    let mut i: usize = 0;
    while i <= PARENTHESIS_SEGMENTS
        invariant
            i <= PARENTHESIS_SEGMENTS + 1,
            top == -slot.up,
            amplitude == ((slot.up + slot.down) * S::mil(140)).held(S::mil(8_000), S::mil(15_000)),
            points.len() == i,
            forall|k: int| 0 <= k < i ==> points@[k] == round_points(slot)[k],
        decreases PARENTHESIS_SEGMENTS + 1 - i,
    {
        let t = S::whole(i).over(S::milli(20_000));
        let y = top.plus(slot.down.minus(top).times(t));
        let bulge = S::pi().times(t).sin().times(amplitude);
        let offset = if slot.opening {
            bulge.negated()
        } else {
            bulge
        };
        points.push((slot.x.plus(offset), y));
        i += 1;
    }
    proof {
        assert(points@ =~= round_points(slot));
    }
    points
}

fn draw_straight<S: Scalar>(slot: Slot<S>, shape: Shape) -> (r: Vec<(S, S)>)
    ensures
        r@ == straight_points(slot, shape),
{
    let x = slot.x;
    let top = slot.up.negated();
    let bottom = slot.down;
    let middle = top.plus(bottom).over(S::milli(2_000));
    let five = S::milli(5_000);
    let points = match shape {
        Shape::Square => {
            let d = x.plus(
                S::milli(
                    if slot.opening {
                        -7_000
                    } else {
                        7_000
                    },
                ),
            );
            vec![(x, top), (d, top), (d, bottom), (x, bottom)]
        },
        Shape::Bar => vec![(x, top), (x, bottom)],
        Shape::Angle => {
            let d = x.plus(
                S::milli(
                    if slot.opening {
                        -8_000
                    } else {
                        8_000
                    },
                ),
            );
            vec![(x, top), (d, middle), (x, bottom)]
        },
        _ => {
            let d = x.plus(
                S::milli(
                    if slot.opening {
                        -8_000
                    } else {
                        8_000
                    },
                ),
            );
            vec![
                (x, top),
                (d, top.plus(five)),
                (d, middle.minus(five)),
                (x, middle),
                (d, middle.plus(five)),
                (d, bottom.minus(five)),
                (x, bottom),
            ]
        },
    };
    proof {
        assert(points@ =~= straight_points(slot, shape));
    }
    points
}

fn fit_point<S: Scalar>(fit: &Fit<S>, slot: Slot<S>, point: (S, S)) -> (r: (S, S))
    ensures
        r == fitted_point(*fit, slot, point),
{
    let t = point.1.minus(fit.min_y).over(fit.max_y.minus(fit.min_y));
    let top = slot.up.negated();
    let half = S::milli(500);
    let side = S::milli(
        if slot.opening {
            -1_000
        } else {
            1_000
        },
    );
    let centre = fit.width.times(half);
    (
        fit.start_x.plus(centre).plus(point.0.minus(centre).times(fit.width_scale)).plus(
            t.minus(half).times(fit.lean),
        ).plus(side.times(fit.bow).times(S::pi().times(t).sin())),
        top.plus(t.times(slot.down.minus(top))),
    )
}

fn fit_marks<S: Scalar>(fit: &Fit<S>, slot: Slot<S>, marks: &mut Vec<Mark<S>>)
    ensures
        strokes::views_of(final(marks)@) == fitted_marks(
            *fit,
            slot,
            strokes::views_of(old(marks)@),
        ),
        strokes::marks_are_sound(strokes::views_of(old(marks)@)) ==> strokes::marks_are_sound(
            strokes::views_of(final(marks)@),
        ),
{
    let ghost before = strokes::views_of(marks@);
    let mut i: usize = 0;
    while i < marks.len()
        invariant
            i <= marks.len(),
            marks.len() == before.len(),
            forall|k: int| i <= k < marks.len() ==> (#[trigger] marks@[k])@ == before[k],
            forall|k: int|
                0 <= k < i ==> (#[trigger] marks@[k])@ == fitted_marks(*fit, slot, before)[k],
        decreases marks.len() - i,
    {
        let mut points: Vec<(S, S)> = Vec::new();
        let mut j: usize = 0;
        while j < marks[i].points.len()
            invariant
                i < marks.len(),
                marks.len() == before.len(),
                marks@[i as int]@ == before[i as int],
                j <= marks@[i as int].points.len(),
                points.len() == j,
                forall|l: int|
                    0 <= l < j ==> points@[l] == fitted_marks(
                        *fit,
                        slot,
                        before,
                    )[i as int].points[l],
            decreases marks@[i as int].points.len() - j,
        {
            points.push(fit_point(fit, slot, marks[i].points[j]));
            j += 1;
        }
        proof {
            assert(points@ =~= fitted_marks(*fit, slot, before)[i as int].points);
        }
        marks[i].points = points;
        i += 1;
    }
    proof {
        let after = strokes::views_of(marks@);
        assert(after =~= fitted_marks(*fit, slot, before));
        if strokes::marks_are_sound(before) {
            assert forall|k: int| 0 <= k < after.len() implies strokes::mark_is_sound(
                #[trigger] after[k],
            ) by {
                assert(strokes::mark_is_sound(before[k]));
            }
        }
    }
}

impl<'a, S: Scalar> Layout<'a, S> {
    /// How the parenthesis that was written last varies.
    fn fit(&self, token: &str, slot: Slot<S>, width: S, marks: &Vec<Mark<S>>) -> (r: Fit<S>)
        ensures
            r == fit_of(self@, token@, slot, width, strokes::views_of(marks@)),
    {
        let (min_y, max_y) = strokes::range_along(&strokes::points_of(marks), Axis::Y);
        let start_x = if slot.opening {
            slot.x.minus(width)
        } else {
            slot.x
        };
        // Keep collected parentheses within their reserved slots while
        // allowing each occurrence a little more/less curvature and lean.
        let b = instance_bits(self.seed, token, self.placed);
        let one = S::milli(1_000);
        let (width_scale, lean, bow) = if self.variation {
            (
                one.plus(S::milli(PARENTHESIS_WIDTH_VARIATION).times(unit_signed::<S>(b))),
                S::milli(PARENTHESIS_LEAN).times(unit_signed::<S>(redraw(b, 29))),
                S::milli(PARENTHESIS_BOW_VARIATION).times(unit_signed::<S>(redraw(b, 11))),
            )
        } else {
            (one, S::milli(0), S::milli(0))
        };
        Fit { min_y, max_y, width, start_x, width_scale, lean, bow }
    }

    /// Draws a delimiter into a box.
    pub fn delim(&mut self, out: &mut Box2<S>, token: &str, slot: Slot<S>) -> (r: Result<
        (),
        RenderError,
    >)
        ensures
            final(self)@ == delimiter_written(old(self)@, old(out)@, token@, slot).0,
            final(self).hand == old(self).hand,
            match r {
                Ok(_) => delimiter_written(old(self)@, old(out)@, token@, slot).1 == Ok::<
                    BoxView<S>,
                    Seq<char>,
                >(final(out)@),
                Err(e) => delimiter_written(old(self)@, old(out)@, token@, slot).1 == Err::<
                    BoxView<S>,
                    Seq<char>,
                >(e.0@) && final(out)@ == old(out)@,
            },
            strokes::marks_are_sound(old(out)@.marks) ==> strokes::marks_are_sound(
                final(out)@.marks,
            ),
    {
        if same_text(token, ".") {
            return Ok(());
        }
        if let Some(width) = self.hand.recorded_parenthesis_width(token) {
            let mut sample = match self.sample(token) {
                Ok(sample) => sample,
                Err(e) => return Err(e),
            };
            let fit = self.fit(token, slot, width, &sample.marks);
            if fit.max_y.minus(fit.min_y).lt(S::milli(1_000)) {
                return Err(
                    RenderError(
                        joined("parenthesis ", token, " needs a stroke with vertical height"),
                    ),
                );
            }
            fit_marks(&fit, slot, &mut sample.marks);
            out.add(sample);
            return Ok(());
        }
        let shape = shape_of(token);
        if shape == Shape::Round {
            out.parenthesis(draw_round(slot));
        } else {
            out.line(draw_straight(slot, shape));
        }
        proof {
            assert(out@.marks =~= old(out)@.marks + seq![procedural_mark(slot, token@)]);
        }
        Ok(())
    }

    /// Writes a single symbol.
    pub fn glyph(&mut self, key: &str) -> (r: Result<Box2<S>, RenderError>)
        ensures
            final(self)@ == glyph_written(old(self)@, key@).0,
            final(self).hand == old(self).hand,
            match r {
                Ok(b) => glyph_written(old(self)@, key@).1 == Ok::<BoxView<S>, Seq<char>>(b@)
                    && strokes::marks_are_sound(b@.marks),
                Err(e) => glyph_written(old(self)@, key@).1 == Err::<BoxView<S>, Seq<char>>(e.0@),
            },
    {
        proof {
            reveal(glyph_written);
        }
        // Use collected parentheses when available; other literal delimiters
        // (and parentheses in older profiles) remain procedural.
        if is_delimiter(key) && self.hand.recorded_parenthesis_width(key).is_none() {
            let mut out = Box2::bare(S::milli(22_000), S::milli(49_000), S::milli(19_000));
            let opening = same_text(key, "(") || same_text(key, "[");
            let slot = Slot {
                x: S::milli(
                    if opening {
                        13_000
                    } else {
                        5_000
                    },
                ),
                up: S::milli(49_000),
                down: S::milli(19_000),
                opening,
            };
            return match self.delim(&mut out, key, slot) {
                Ok(_) => Ok(out),
                Err(e) => Err(e),
            };
        }
        let centred = same_text(key, "\\cdots");
        if centred || same_text(key, "\\ldots") {
            let dot = match self.sample(".") {
                Ok(dot) => dot,
                Err(e) => return Err(e),
            };
            return Ok(three_dots(dot, centred));
        }
        let double = same_text(key, "\\iint");
        if double || same_text(key, "\\iiint") {
            let single = match self.sample("\\int") {
                Ok(single) => single,
                Err(e) => return Err(e),
            };
            return Ok(
                integrals(
                    single,
                    if double {
                        2
                    } else {
                        3
                    },
                ),
            );
        }
        self.sample(key)
    }
}

fn three_dots<S: Scalar>(dot: Box2<S>, centred: bool) -> (r: Box2<S>)
    requires
        strokes::marks_are_sound(dot@.marks),
    ensures
        r@ == dots_box(dot@, centred),
        strokes::marks_are_sound(r@.marks),
{
    let mut out = Box2::bare(
        S::milli(45_000),
        if centred {
            S::milli(31_000)
        } else {
            dot.above
        },
        dot.below,
    );
    let y = S::milli(
        if centred {
            -31_000
        } else {
            0
        },
    );
    let ghost step = |i: int| S::counted(i) * S::mil(17_000);
    let ghost start = out@;
    let mut i: usize = 0;
    while i < 3
        invariant
            i <= 3,
            step == (|i: int| S::counted(i) * S::mil(17_000)),
            start.marks.len() == 0,
            out@ == (BoxView { marks: copies(dot@.marks, i as int, step, y), ..start }),
            strokes::marks_are_sound(dot@.marks),
            strokes::marks_are_sound(out@.marks),
        decreases 3 - i,
    {
        let x = S::whole(i).times(S::milli(17_000));
        out.add(dot.clone().translated(x, y));
        i += 1;
    }
    out
}

fn integrals<S: Scalar>(single: Box2<S>, n: usize) -> (r: Box2<S>)
    requires
        1 <= n,
        strokes::marks_are_sound(single@.marks),
    ensures
        r@ == integrals_box(single@, n as int),
        strokes::marks_are_sound(r@.marks),
{
    let overlap = S::milli(650);
    let mut out = Box2::bare(
        single.width.plus(S::whole(n - 1).times(single.width.times(overlap))),
        single.above,
        single.below,
    );
    out.large = true;
    let ghost step = |i: int| S::counted(i) * single.width * S::mil(650);
    let ghost start = out@;
    let mut i: usize = 0;
    while i < n
        invariant
            i <= n,
            overlap == S::mil(650),
            step == (|i: int| S::counted(i) * single.width * S::mil(650)),
            start.marks.len() == 0,
            out@ == (BoxView { marks: copies(single@.marks, i as int, step, S::mil(0)), ..start }),
            strokes::marks_are_sound(single@.marks),
            strokes::marks_are_sound(out@.marks),
        decreases n - i,
    {
        let x = S::whole(i).times(single.width).times(overlap);
        out.add(single.clone().translated(x, S::milli(0)));
        i += 1;
    }
    out
}

} // verus!
