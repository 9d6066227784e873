//! Laying out a formula: every node becomes a box of strokes.
use crate::compose;
use crate::compose::{
    add_index, compose_accent, compose_aligned, compose_arrow, compose_fraction, compose_root,
    compose_script, draw_fraction_bar, extend_row, is_integral, width_of_fraction, Cells,
};
use crate::glyphs;
use crate::glyphs::{Slot, PARENTHESIS_BOW_VARIATION};
use crate::node::Node;
use crate::pen;
use crate::pen::{Layout, Pen, Written};
use crate::profile;
use crate::profile::{Glyph, Handwriting, RenderError};
use crate::prose;
use crate::scalar::Scalar;
use crate::strokes;
use crate::strokes::{Box2, BoxView};
use crate::words::same_text;
use vstd::hash_map::StringHashMap;
use vstd::prelude::*;

verus! {

/// A pen that has written nothing yet.
pub open spec fn fresh_pen<S>(
    glyphs: Map<Seq<char>, Glyph<S>>,
    seed: u64,
    variation: bool,
) -> Pen<S> {
    Pen { glyphs, seed, variation, occurrences: Map::empty(), placed: 0 }
}

/// The height of the math axis above the baseline: the middle of the collected equals
/// sign, kept within reason.
pub open spec fn axis_height<S: Scalar>(glyphs: Map<Seq<char>, Glyph<S>>) -> S {
    if glyphs.contains_key("="@) {
        match glyphs["="@].bbox {
            Some(b) => ((b.min_y + b.max_y) * S::mil(500) * S::mil(profile::UNIT as int)).held(
                S::mil(16_000),
                S::mil(60_000),
            ),
            None => S::mil(34_000),
        }
    } else {
        S::mil(34_000)
    }
}

/// A fraction of two boxes in their full size, its bar drawn on the math axis.
#[verifier::opaque]
pub open spec fn fraction_written<S: Scalar>(
    pen: Pen<S>,
    top: BoxView<S>,
    bottom: BoxView<S>,
) -> Written<S> {
    let top = strokes::box_scaled(top, S::mil(550));
    let bottom = strokes::box_scaled(bottom, S::mil(550));
    let axis = -axis_height(pen.glyphs);
    let width = compose::fraction_width(
        pen.seed,
        pen.variation,
        pen.placed,
        top.width,
        bottom.width,
    );
    let bar = compose::fraction_bar(pen.seed, pen.variation, pen.placed, width, axis);
    (
        if pen.variation {
            pen::after_placement(pen)
        } else {
            pen
        },
        Ok(compose::fraction_box(top, bottom, width, axis, bar)),
    )
}

/// The width kept for a delimiter.
pub open spec fn delimiter_slot<S: Scalar>(glyphs: Map<Seq<char>, Glyph<S>>, key: Seq<char>) -> S {
    match profile::parenthesis_width(glyphs, key) {
        Some(w) => (w + S::mil(6_000) + S::mil(PARENTHESIS_BOW_VARIATION as int)).larger(
            S::mil(20_000),
        ),
        None => S::mil(20_000),
    }
}

/// The slot of the delimiter before a box. It reaches above and below what stands in the
/// group.
pub open spec fn opening_slot<S: Scalar>(
    glyphs: Map<Seq<char>, Glyph<S>>,
    left: Seq<char>,
    b: BoxView<S>,
) -> Slot<S> {
    Slot {
        x: delimiter_slot(glyphs, left) - S::mil(6_000),
        up: b.above.larger(S::mil(42_000)) + S::mil(5_000),
        down: b.below.larger(S::mil(16_000)) + S::mil(5_000),
        opening: true,
    }
}

/// The slot of the delimiter after a box, as high as the one before it.
pub open spec fn closing_slot<S: Scalar>(
    glyphs: Map<Seq<char>, Glyph<S>>,
    left: Seq<char>,
    b: BoxView<S>,
) -> Slot<S> {
    Slot {
        x: delimiter_slot(glyphs, left) + b.width + S::mil(6_000),
        opening: false,
        ..opening_slot(glyphs, left, b)
    }
}

/// A box with the space for its delimiters on either side.
pub open spec fn bare_group<S: Scalar>(
    glyphs: Map<Seq<char>, Glyph<S>>,
    left: Seq<char>,
    b: BoxView<S>,
    right: Seq<char>,
) -> BoxView<S> {
    let slot = opening_slot(glyphs, left, b);
    BoxView {
        marks: strokes::marks_moved(b.marks, delimiter_slot(glyphs, left), S::mil(0)),
        script_drop: S::mil(0).larger(b.script_drop),
        ..strokes::bare_box(
            b.width + delimiter_slot(glyphs, left) + delimiter_slot(glyphs, right),
            slot.up,
            slot.down,
        )
    }
}

/// A box between its delimiters.
#[verifier::opaque]
pub open spec fn delimited_written<S: Scalar>(
    pen: Pen<S>,
    left: Seq<char>,
    b: BoxView<S>,
    right: Seq<char>,
) -> Written<S> {
    let opened = glyphs::delimiter_written(
        pen,
        bare_group(pen.glyphs, left, b, right),
        left,
        opening_slot(pen.glyphs, left, b),
    );
    match opened.1 {
        Err(e) => opened,
        Ok(with_left) => glyphs::delimiter_written(
            opened.0,
            with_left,
            right,
            closing_slot(pen.glyphs, left, b),
        ),
    }
}

/// A formula as it is written, part after part in reading order; the first part that
/// cannot be written ends it.
pub open spec fn layout_written<S: Scalar>(pen: Pen<S>, n: Node<S>) -> Written<S>
    decreases n, 0nat,
{
    match n {
        Node::Glyph(key) => glyphs::glyph_written(pen, key@),
        Node::Text(text) => prose::text_written(pen, text@),
        Node::Space(w) => (pen, Ok(BoxView { width: w, ..strokes::empty_box() })),
        Node::Row(nodes) => row_upto(pen, nodes@, nodes@.len()),
        Node::Fraction(a, b) => {
            let (p, top) = layout_written(pen, *a);
            match top {
                Err(e) => (p, Err(e)),
                Ok(top) => {
                    let (q, bottom) = layout_written(p, *b);
                    match bottom {
                        Err(e) => (q, Err(e)),
                        Ok(bottom) => fraction_written(q, top, bottom),
                    }
                },
            }
        },
        Node::Root(index, body) => {
            let (p, body) = layout_written(pen, *body);
            match body {
                Err(e) => (p, Err(e)),
                Ok(body) => {
                    let q = pen::after_placement(p);
                    let root = compose::root_box(body, p.seed, p.variation, p.placed);
                    match index {
                        None => (q, Ok(root)),
                        Some(i) => {
                            let (r, small) = layout_written(q, *i);
                            match small {
                                Err(e) => (r, Err(e)),
                                Ok(small) => (
                                    r,
                                    Ok(
                                        compose::with_index(
                                            root,
                                            compose::root_cap(body),
                                            strokes::box_scaled(small, S::mil(480)),
                                        ),
                                    ),
                                ),
                            }
                        },
                    }
                },
            }
        },
        Node::Script { base, sub, sup } => {
            let integral = compose::is_integral_node(*base);
            let (p, b) = layout_written(pen, *base);
            match b {
                Err(e) => (p, Err(e)),
                Ok(b) => {
                    let (q, lower) = match sub {
                        None => (p, Ok(None)),
                        Some(s) => {
                            let (q, s) = layout_written(p, *s);
                            match s {
                                Err(e) => (q, Err(e)),
                                Ok(s) => (q, Ok(Some(compose::sub_sized(s, integral)))),
                            }
                        },
                    };
                    match lower {
                        Err(e) => (q, Err(e)),
                        Ok(lower) => match sup {
                            None => (q, Ok(compose::script_box(b, lower, None))),
                            Some(s) => {
                                let (r, s) = layout_written(q, *s);
                                match s {
                                    Err(e) => (r, Err(e)),
                                    Ok(s) => (
                                        r,
                                        Ok(
                                            compose::script_box(
                                                b,
                                                lower,
                                                Some(compose::sup_sized(s, integral)),
                                            ),
                                        ),
                                    ),
                                }
                            },
                        },
                    }
                },
            }
        },
        Node::Accent(name, body) => {
            let (p, b) = layout_written(pen, *body);
            match b {
                Err(e) => (p, Err(e)),
                Ok(b) => (p, Ok(compose::accent_box(name@, b))),
            }
        },
        Node::Delimited(left, body, right) => {
            let (p, b) = layout_written(pen, *body);
            match b {
                Err(e) => (p, Err(e)),
                Ok(b) => delimited_written(p, left@, b, right@),
            }
        },
        Node::Arrow(key, label) => {
            let (p, b) = layout_written(pen, *label);
            match b {
                Err(e) => (p, Err(e)),
                Ok(b) => {
                    let (q, arrow) = glyphs::glyph_written(p, compose::arrow_key(key@));
                    match arrow {
                        Err(e) => (q, Err(e)),
                        Ok(arrow) => (
                            q,
                            Ok(compose::arrow_box(arrow, strokes::box_scaled(b, S::mil(600)))),
                        ),
                    }
                },
            }
        },
        Node::Aligned(rows) => {
            let (p, cells) = cells_upto(pen, rows@, rows@.len());
            match cells {
                Err(e) => (p, Err(e)),
                Ok(cells) => (p, Ok(compose::aligned_box(cells))),
            }
        },
    }
}

/// The first `count` nodes of a row as they are written.
pub open spec fn row_upto<S: Scalar>(pen: Pen<S>, nodes: Seq<Node<S>>, count: nat) -> Written<S>
    decreases nodes, count,
{
    if count == 0 || count > nodes.len() {
        (pen, Ok(strokes::empty_box()))
    } else {
        let (p, out) = row_upto(pen, nodes, (count - 1) as nat);
        match out {
            Err(e) => (p, Err(e)),
            Ok(out) => {
                let (q, b) = layout_written(p, nodes[count - 1]);
                match b {
                    Err(e) => (q, Err(e)),
                    Ok(b) => (q, Ok(compose::row_step(out, nodes, count - 1, b))),
                }
            },
        }
    }
}

/// The cells of the first `count` aligned rows as they are written.
pub open spec fn cells_upto<S: Scalar>(
    pen: Pen<S>,
    rows: Seq<(Node<S>, Option<Node<S>>)>,
    count: nat,
) -> (Pen<S>, Result<Seq<Cells<S>>, Seq<char>>)
    decreases rows, count,
{
    if count == 0 || count > rows.len() {
        (pen, Ok(Seq::empty()))
    } else {
        let (p, cells) = cells_upto(pen, rows, (count - 1) as nat);
        match cells {
            Err(e) => (p, Err(e)),
            Ok(cells) => {
                let (q, left) = layout_written(p, rows[count - 1].0);
                match left {
                    Err(e) => (q, Err(e)),
                    Ok(left) => match rows[count - 1].1 {
                        None => (q, Ok(cells.push((left, None)))),
                        Some(n) => {
                            let (r, right) = layout_written(q, n);
                            match right {
                                Err(e) => (r, Err(e)),
                                Ok(right) => (r, Ok(cells.push((left, Some(right))))),
                            }
                        },
                    },
                }
            },
        }
    }
}

impl<'a, S: Scalar> Layout<'a, S> {
    /// A layout that has written nothing yet.
    pub fn new(hand: &'a Handwriting<S>, seed: u64, variation: bool) -> (r: Self)
        ensures
            r@ == fresh_pen(hand.glyphs@, seed, variation),
            r.hand == hand,
    {
        Layout { hand, seed, occurrences: StringHashMap::new(), variation, placed: 0 }
    }

    /// Relations and fraction bars belong on the user's math axis, not the
    /// writing baseline. Measure it from the center of their '=' sample.
    pub fn math_axis(&self) -> (r: S)
        ensures
            r == axis_height(self@.glyphs),
    {
        match self.hand.glyphs.get("=") {
            Some(glyph) => match &glyph.bbox {
                Some(b) => b.min_y.plus(b.max_y).times(S::milli(500)).times(
                    S::milli(profile::UNIT),
                ).clamp(S::milli(16_000), S::milli(60_000)),
                None => S::milli(34_000),
            },
            None => S::milli(34_000),
        }
    }

    fn fraction(&mut self, top: Box2<S>, bottom: Box2<S>) -> (r: Box2<S>)
        requires
            strokes::marks_are_sound(top@.marks),
            strokes::marks_are_sound(bottom@.marks),
        ensures
            final(self)@ == fraction_written(old(self)@, top@, bottom@).0,
            final(self).hand == old(self).hand,
            fraction_written(old(self)@, top@, bottom@).1 == Ok::<BoxView<S>, Seq<char>>(r@),
            strokes::marks_are_sound(r@.marks),
    {
        proof {
            reveal(fraction_written);
        }
        let top = top.scaled(S::milli(550));
        let bottom = bottom.scaled(S::milli(550));
        let axis = self.math_axis().negated();
        let placed = self.placed;
        let width = width_of_fraction(self.seed, self.variation, placed, top.width, bottom.width);
        let bar = draw_fraction_bar(self.seed, self.variation, placed, width, axis);
        if self.variation {
            self.next_placement();
        }
        compose_fraction(top, bottom, width, axis, bar)
    }

    fn slot_for(&self, key: &str) -> (r: S)
        ensures
            r == delimiter_slot(self@.glyphs, key@),
    {
        match self.hand.recorded_parenthesis_width(key) {
            Some(w) => w.plus(S::milli(6_000)).plus(S::milli(PARENTHESIS_BOW_VARIATION)).max(
                S::milli(20_000),
            ),
            None => S::milli(20_000),
        }
    }

    fn delimited(&mut self, left: &str, b: Box2<S>, right: &str) -> (r: Result<
        Box2<S>,
        RenderError,
    >)
        requires
            strokes::marks_are_sound(b@.marks),
        ensures
            final(self)@ == delimited_written(old(self)@, left@, b@, right@).0,
            final(self).hand == old(self).hand,
            match r {
                Ok(o) => delimited_written(old(self)@, left@, b@, right@).1 == Ok::<
                    BoxView<S>,
                    Seq<char>,
                >(o@) && strokes::marks_are_sound(o@.marks),
                Err(e) => delimited_written(old(self)@, left@, b@, right@).1 == Err::<
                    BoxView<S>,
                    Seq<char>,
                >(e.0@),
            },
    {
        proof {
            reveal(delimited_written);
        }
        let up = b.above.max(S::milli(42_000)).plus(S::milli(5_000));
        let down = b.below.max(S::milli(16_000)).plus(S::milli(5_000));
        let left_slot = self.slot_for(left);
        let right_slot = self.slot_for(right);
        let mut out = Box2::bare(b.width.plus(left_slot).plus(right_slot), up, down);
        out.script_drop = out.script_drop.max(b.script_drop);
        let right_x = left_slot.plus(b.width).plus(S::milli(6_000));
        out.add(b.translated(left_slot, S::milli(0)));
        proof {
            assert(out@.marks =~= strokes::marks_moved(b@.marks, left_slot, S::mil(0)));
        }
        let opening = Slot { x: left_slot.minus(S::milli(6_000)), up, down, opening: true };
        match self.delim(&mut out, left, opening) {
            Ok(_) => {},
            Err(e) => return Err(e),
        }
        let closing = Slot { x: right_x, up, down, opening: false };
        match self.delim(&mut out, right, closing) {
            Ok(_) => Ok(out),
            Err(e) => Err(e),
        }
    }

    fn row(&mut self, nodes: &Vec<Node<S>>) -> (r: Result<Box2<S>, RenderError>)
        ensures
            final(self)@ == row_upto(old(self)@, nodes@, nodes@.len()).0,
            final(self).hand == old(self).hand,
            match r {
                Ok(b) => row_upto(old(self)@, nodes@, nodes@.len()).1 == Ok::<
                    BoxView<S>,
                    Seq<char>,
                >(b@) && strokes::marks_are_sound(b@.marks),
                Err(e) => row_upto(old(self)@, nodes@, nodes@.len()).1 == Err::<
                    BoxView<S>,
                    Seq<char>,
                >(e.0@),
            },
        decreases nodes,
    {
        let ghost start = self@;
        let ghost hand = self.hand;
        let mut out = Box2::empty();
        let mut i: usize = 0;
        while i < nodes.len()
            invariant
                i <= nodes.len(),
                start == old(self)@,
                hand == old(self).hand,
                self.hand == hand,
                row_upto(start, nodes@, i as nat) == (
                    self@,
                    Ok::<BoxView<S>, Seq<char>>(out@),
                ),
                strokes::marks_are_sound(out@.marks),
            decreases nodes.len() - i,
        {
            assert(decreases_to!(nodes => nodes[i as int]));
            match self.layout(&nodes[i]) {
                Ok(b) => extend_row(&mut out, nodes, i, b),
                Err(e) => {
                    proof {
                        lemma_row_stops(start, nodes@, (i + 1) as nat, nodes@.len());
                    }
                    return Err(e);
                },
            }
            i += 1;
        }
        Ok(out)
    }

    fn cells(&mut self, rows: &Vec<(Node<S>, Option<Node<S>>)>) -> (r: Result<
        Vec<(Box2<S>, Option<Box2<S>>)>,
        RenderError,
    >)
        ensures
            final(self)@ == cells_upto(old(self)@, rows@, rows@.len()).0,
            final(self).hand == old(self).hand,
            match r {
                Ok(v) => cells_upto(old(self)@, rows@, rows@.len()).1 == Ok::<
                    Seq<Cells<S>>,
                    Seq<char>,
                >(compose::rows_of(v@)) && compose::rows_are_sound(v@),
                Err(e) => cells_upto(old(self)@, rows@, rows@.len()).1 == Err::<
                    Seq<Cells<S>>,
                    Seq<char>,
                >(e.0@),
            },
        decreases rows,
    {
        let ghost start = self@;
        let ghost hand = self.hand;
        let mut out: Vec<(Box2<S>, Option<Box2<S>>)> = Vec::new();
        let mut i: usize = 0;
        proof {
            assert(compose::rows_of(out@) =~= Seq::empty());
        }
        while i < rows.len()
            invariant
                i <= rows.len(),
                start == old(self)@,
                hand == old(self).hand,
                self.hand == hand,
                cells_upto(start, rows@, i as nat) == (
                    self@,
                    Ok::<Seq<Cells<S>>, Seq<char>>(compose::rows_of(out@)),
                ),
                compose::rows_are_sound(out@),
            decreases rows.len() - i,
        {
            let (a, b) = &rows[i];
            assert(decreases_to!(rows => rows[i as int]));
            assert(decreases_to!(rows[i as int] => rows[i as int].0));
            assert(decreases_to!(rows[i as int] => rows[i as int].1));
            let left = match self.layout(a) {
                Ok(left) => left,
                Err(e) => {
                    proof {
                        lemma_cells_stop(start, rows@, (i + 1) as nat, rows@.len());
                    }
                    return Err(e);
                },
            };
            let right = match b {
                Some(n) => match self.layout(n) {
                    Ok(right) => Some(right),
                    Err(e) => {
                        proof {
                            lemma_cells_stop(start, rows@, (i + 1) as nat, rows@.len());
                        }
                        return Err(e);
                    },
                },
                None => None,
            };
            let ghost before = out@;
            out.push((left, right));
            proof {
                assert(compose::rows_of(out@) =~= compose::rows_of(before).push(
                    compose::cells_of((left, right)),
                ));
            }
            i += 1;
        }
        Ok(out)
    }

    /// Lays a formula out.
    pub fn layout(&mut self, n: &Node<S>) -> (r: Result<Box2<S>, RenderError>)
        ensures
            final(self)@ == layout_written(old(self)@, *n).0,
            final(self).hand == old(self).hand,
            match r {
                Ok(b) => layout_written(old(self)@, *n).1 == Ok::<BoxView<S>, Seq<char>>(b@)
                    && strokes::marks_are_sound(b@.marks),
                Err(e) => layout_written(old(self)@, *n).1 == Err::<BoxView<S>, Seq<char>>(e.0@),
            },
        decreases n,
    {
        match n {
            Node::Glyph(key) => self.glyph(key.as_str()),
            Node::Text(text) => self.text(text.as_str()),
            Node::Space(w) => {
                let mut out = Box2::empty();
                out.width = *w;
                Ok(out)
            },
            Node::Row(nodes) => self.row(nodes),
            Node::Fraction(a, b) => {
                let top = match self.layout(a) {
                    Ok(top) => top,
                    Err(e) => return Err(e),
                };
                let bottom = match self.layout(b) {
                    Ok(bottom) => bottom,
                    Err(e) => return Err(e),
                };
                Ok(self.fraction(top, bottom))
            },
            Node::Root(index, body) => {
                let body = match self.layout(body) {
                    Ok(body) => body,
                    Err(e) => return Err(e),
                };
                let placed = self.next_placement();
                let (out, cap) = compose_root(body, self.seed, self.variation, placed);
                match index {
                    Some(index) => match self.layout(index) {
                        Ok(small) => Ok(add_index(out, cap, small.scaled(S::milli(480)))),
                        Err(e) => Err(e),
                    },
                    None => Ok(out),
                }
            },
            Node::Script { base, sub, sup } => {
                let integral = is_integral(base);
                let base = match self.layout(base) {
                    Ok(base) => base,
                    Err(e) => return Err(e),
                };
                let sub = match sub {
                    Some(n) => match self.layout(n) {
                        Ok(b) => Some(
                            b.scaled(S::milli(if integral { 400 } else { 500 })).scaled_vertically(
                                S::milli(820),
                            ),
                        ),
                        Err(e) => return Err(e),
                    },
                    None => None,
                };
                let sup = match sup {
                    Some(n) => match self.layout(n) {
                        Ok(b) => Some(
                            b.scaled(S::milli(if integral { 440 } else { 550 })).scaled_vertically(
                                S::milli(850),
                            ),
                        ),
                        Err(e) => return Err(e),
                    },
                    None => None,
                };
                Ok(compose_script(base, sub, sup))
            },
            Node::Accent(name, body) => match self.layout(body) {
                Ok(body) => Ok(compose_accent(name.as_str(), body)),
                Err(e) => Err(e),
            },
            Node::Delimited(left, body, right) => match self.layout(body) {
                Ok(body) => self.delimited(left.as_str(), body, right.as_str()),
                Err(e) => Err(e),
            },
            Node::Arrow(key, label) => {
                let label = match self.layout(label) {
                    Ok(label) => label.scaled(S::milli(600)),
                    Err(e) => return Err(e),
                };
                let arrow_key = if same_text(key.as_str(), "\\xrightarrow") {
                    "\\rightarrow"
                } else if same_text(key.as_str(), "\\xleftarrow") {
                    "\\leftarrow"
                } else {
                    "\\leftrightarrow"
                };
                match self.glyph(arrow_key) {
                    Ok(arrow) => Ok(compose_arrow(arrow, label)),
                    Err(e) => Err(e),
                }
            },
            Node::Aligned(rows) => match self.cells(rows) {
                Ok(rows) => Ok(compose_aligned(rows)),
                Err(e) => Err(e),
            },
        }
    }
}

/// A row that fails early fails.
pub proof fn lemma_row_stops<S: Scalar>(pen: Pen<S>, nodes: Seq<Node<S>>, from: nat, to: nat)
    requires
        from <= to <= nodes.len(),
        row_upto(pen, nodes, from).1 is Err,
    ensures
        row_upto(pen, nodes, to) == row_upto(pen, nodes, from),
    decreases to - from,
{
    if from < to {
        lemma_row_stops(pen, nodes, from, (to - 1) as nat);
    }
}

/// Rows of which an early one fails fail.
proof fn lemma_cells_stop<S: Scalar>(
    pen: Pen<S>,
    rows: Seq<(Node<S>, Option<Node<S>>)>,
    from: nat,
    to: nat,
)
    requires
        from <= to <= rows.len(),
        cells_upto(pen, rows, from).1 is Err,
    ensures
        cells_upto(pen, rows, to) == cells_upto(pen, rows, from),
    decreases to - from,
{
    if from < to {
        lemma_cells_stop(pen, rows, from, (to - 1) as nat);
    }
}

} // verus!
