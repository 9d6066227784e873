//! Which strokes begin with a generated entry.
use crate::bits;
use crate::compose;
use crate::entry;
use crate::glyphs;
use crate::laws;
use crate::layout;
use crate::node;
use crate::node::Node;
use crate::pen;
use crate::pen::{Hand, Pen};
use crate::profile;
use crate::profile::{Bounds, Point};
use crate::prose;
use crate::scalar::Scalar;
use crate::strokes;
use crate::strokes::{Axis, BoxView, MarkView};
use vstd::prelude::*;

verus! {

/// Whether no stroke begins with an entry.
pub open spec fn has_no_entries<S>(marks: Seq<MarkView<S>>) -> bool {
    forall|i: int| 0 <= i < marks.len() ==> (#[trigger] marks[i]).entry_tail_points == 0
}

/// Whether one stroke begins with an entry and no other does.
pub open spec fn has_one_entry<S>(marks: Seq<MarkView<S>>) -> bool {
    exists|k: int|
        0 <= k < marks.len() && entry::begins_with_an_entry(#[trigger] marks[k]) && forall|i: int|
            0 <= i < marks.len() && i != k ==> (#[trigger] marks[i]).entry_tail_points == 0
}

proof fn lemma_written_strokes_have_no_entries<S: Scalar>(
    hand: Hand<S>,
    b: Bounds<S>,
    strokes: Seq<Vec<Point<S>>>,
)
    ensures
        has_no_entries(pen::written_strokes(hand, b, strokes)),
        strokes::marks_are_sound(pen::written_strokes(hand, b, strokes)),
    decreases strokes.len(),
{
    if strokes.len() > 0 {
        lemma_written_strokes_have_no_entries(hand, b, strokes.drop_last());
    }
}

proof fn lemma_first_stem_gets_the_entry<S: Scalar>(
    marks: Seq<MarkView<S>>,
    from: int,
    bits: u64,
    top: S,
    height: S,
)
    requires
        0 <= from,
        has_no_entries(marks),
        strokes::marks_are_sound(marks),
    ensures
        pen::entry_on_first(marks, from, bits, top, height) matches Some(m) ==> has_one_entry(m),
    decreases marks.len() - from,
{
    if from < marks.len() {
        match entry::entry_added(marks[from], bits, top, height, false) {
            Some(mark) => {
                assert(strokes::mark_is_sound(marks[from]));
                entry::law_entries_have_the_pressure_of_their_join(
                    marks[from],
                    bits,
                    top,
                    height,
                    false,
                );
                let m = marks.update(from, mark);
                assert(entry::begins_with_an_entry(m[from]));
            },
            None => lemma_first_stem_gets_the_entry(marks, from + 1, bits, top, height),
        }
    }
}

proof fn lemma_pulling_in_keeps_entries<S: Scalar>(marks: Seq<MarkView<S>>, x: S)
    ensures
        has_no_entries(marks) ==> has_no_entries(pen::pulled_in(marks, x)),
        has_one_entry(marks) ==> has_one_entry(pen::pulled_in(marks, x)),
{
    let moved = pen::pulled_in(marks, x);
    if has_one_entry(marks) {
        let k = choose|k: int|
            0 <= k < marks.len() && entry::begins_with_an_entry(#[trigger] marks[k]) && forall|i: int|
                0 <= i < marks.len() && i != k ==> (#[trigger] marks[i]).entry_tail_points == 0;
        assert(entry::begins_with_an_entry(moved[k]));
    }
}

proof fn lemma_only_entries_are_pulled_in<S: Scalar>(pen: Pen<S>, key: Seq<char>)
    requires
        pen::sample_written(pen, key).1 is Ok,
    ensures
        ({
            let b = pen::sample_written(pen, key).1->Ok_0;
            ||| has_no_entries(b.marks) && (strokes::extent(b.marks, Axis::X) matches Some(
                (min_x, max_x),
            ) ==> b.width == pen::spaced_width(min_x, max_x))
            ||| pen.variation && key == "L"@ && has_one_entry(b.marks)
        }),
{
    let glyph = profile::collected(pen.glyphs, key)->Ok_0;
    let occurrence = pen::occurrence_of(pen, key);
    let variant = pen::chosen_variant(glyph, pen.seed, occurrence);
    let b = pen::chosen_bounds(glyph, variant)->0;
    let recorded = pen::chosen_strokes(glyph, variant);
    let hand = pen::hand_for(pen, key, occurrence, pen::page_points(b, recorded));
    lemma_written_strokes_have_no_entries(hand, b, recorded);
    let plain = pen::plain_marks(pen, key, b, recorded);
    let drawn = pen::entry_drawn(pen, key, occurrence, plain);
    if let Some(marks) = drawn {
        let bits = bits::bits_of_instance(pen.seed, key + "-tail"@, occurrence);
        if let Some((top, bottom)) = strokes::extent(plain, Axis::Y) {
            lemma_first_stem_gets_the_entry(plain, 0, bits, top, bottom - top);
        }
        if let Some((min_x, _)) = strokes::extent(marks, Axis::X) {
            lemma_pulling_in_keeps_entries(marks, min_x);
        }
    }
}

/// Only an uppercase L that is written with variation gets an entry stroke, and only one
/// of its strokes does; no stroke of any other sample has one. An entry has four points,
/// which have the pressure of the point where it joins.
pub proof fn law_only_a_varied_l_has_an_entry<S: Scalar>(pen: Pen<S>, key: Seq<char>)
    requires
        pen::sample_written(pen, key).1 is Ok,
    ensures
        ({
            let marks = pen::sample_written(pen, key).1->Ok_0.marks;
            has_no_entries(marks) || pen.variation && key == "L"@ && has_one_entry(marks)
        }),
{
    lemma_only_entries_are_pulled_in(pen, key);
}

/// A sample without an entry takes as much space as its ink does.
pub proof fn law_samples_are_as_wide_as_their_ink<S: Scalar>(pen: Pen<S>, key: Seq<char>)
    requires
        pen::sample_written(pen, key).1 is Ok,
        has_no_entries(pen::sample_written(pen, key).1->Ok_0.marks),
    ensures
        ({
            let b = pen::sample_written(pen, key).1->Ok_0;
            strokes::extent(b.marks, Axis::X) matches Some((min_x, max_x)) ==> b.width
                == pen::spaced_width(min_x, max_x)
        }),
{
    lemma_only_entries_are_pulled_in(pen, key);
}

proof fn lemma_copies_have_no_entries<S: Scalar>(
    marks: Seq<MarkView<S>>,
    n: int,
    step: spec_fn(int) -> S,
    y: S,
)
    requires
        has_no_entries(marks),
    ensures
        has_no_entries(glyphs::copies(marks, n, step, y)),
    decreases n,
{
    if n > 0 {
        lemma_copies_have_no_entries(marks, n - 1, step, y);
    }
}

/// No symbol but a varied L has an entry stroke, whether it was collected, is made of
/// several samples or is drawn to measure.
pub proof fn law_only_a_varied_l_is_a_symbol_with_an_entry<S: Scalar>(pen: Pen<S>, key: Seq<char>)
    requires
        glyphs::glyph_written(pen, key).1 is Ok,
        !pen.variation || key != "L"@,
    ensures
        has_no_entries(glyphs::glyph_written(pen, key).1->Ok_0.marks),
{
    reveal(glyphs::glyph_written);
    reveal_strlit("L");
    reveal_strlit(".");
    reveal_strlit("\\int");
    assert("."@[0] == '.' && "\\int"@.len() == 4);
    if node::is_delimiter_key(key) && profile::parenthesis_width(pen.glyphs, key) is None {
    } else if key == "\\cdots"@ || key == "\\ldots"@ {
        law_only_a_varied_l_has_an_entry(pen, "."@);
        let dot = pen::sample_written(pen, "."@).1->Ok_0;
        lemma_copies_have_no_entries(
            dot.marks,
            3,
            |i: int| S::counted(i) * S::mil(17_000),
            S::mil(if key == "\\cdots"@ { -31_000 } else { 0 }),
        );
    } else if key == "\\iint"@ || key == "\\iiint"@ {
        law_only_a_varied_l_has_an_entry(pen, "\\int"@);
        let single = pen::sample_written(pen, "\\int"@).1->Ok_0;
        lemma_copies_have_no_entries(
            single.marks,
            if key == "\\iint"@ { 2 } else { 3 },
            |i: int| S::counted(i) * single.width * S::mil(650),
            S::mil(0),
        );
    } else {
        law_only_a_varied_l_has_an_entry(pen, key);
    }
}

// Whole formulas.

proof fn lemma_text_has_no_entries<S: Scalar>(pen: Pen<S>, chars: Seq<char>, n: int)
    requires
        !pen.variation,
    ensures
        prose::text_upto(pen, chars, n).1 matches Ok((b, _)) ==> has_no_entries(b.marks),
    decreases n,
{
    if n > 0 {
        lemma_text_has_no_entries(pen, chars, n - 1);
        laws::lemma_text_keeps_the_profile(pen, chars, n - 1);
        let before = prose::text_upto(pen, chars, n - 1).0;
        let c = chars[n - 1];
        let key = if c == '%' {
            "\\%"@
        } else {
            seq![c]
        };
        if c != ' ' && glyphs::glyph_written(before, key).1 is Ok {
            law_only_a_varied_l_is_a_symbol_with_an_entry(before, key);
        }
    }
}

proof fn lemma_no_entry_is_first<S>(marks: Seq<MarkView<S>>, from: int)
    requires
        has_no_entries(marks),
        0 <= from,
    ensures
        entry::first_entry(marks, from) is None,
    decreases marks.len() - from,
{
    if from < marks.len() {
        lemma_no_entry_is_first(marks, from + 1);
    }
}

proof fn lemma_row_step_adds_no_entries<S: Scalar>(
    out: BoxView<S>,
    nodes: Seq<Node<S>>,
    i: int,
    b: BoxView<S>,
)
    requires
        has_no_entries(out.marks),
        has_no_entries(b.marks),
    ensures
        has_no_entries(compose::row_step(out, nodes, i, b).marks),
{
    reveal(compose::row_step);
    lemma_no_entry_is_first(b.marks, 0);
}

proof fn lemma_fraction_adds_no_entries<S: Scalar>(pen: Pen<S>, top: BoxView<S>, bottom: BoxView<S>)
    requires
        has_no_entries(top.marks),
        has_no_entries(bottom.marks),
    ensures
        has_no_entries(layout::fraction_written(pen, top, bottom).1->Ok_0.marks),
{
    reveal(layout::fraction_written);
}

proof fn lemma_script_adds_no_entries<S: Scalar>(
    base: BoxView<S>,
    sub: Option<BoxView<S>>,
    sup: Option<BoxView<S>>,
)
    requires
        has_no_entries(base.marks),
        sub matches Some(b) ==> has_no_entries(b.marks),
        sup matches Some(b) ==> has_no_entries(b.marks),
    ensures
        has_no_entries(compose::script_box(base, sub, sup).marks),
{
    reveal(compose::script_box);
}

proof fn lemma_delimiter_adds_no_entries<S: Scalar>(
    pen: Pen<S>,
    b: BoxView<S>,
    token: Seq<char>,
    slot: glyphs::Slot<S>,
)
    requires
        !pen.variation,
        has_no_entries(b.marks),
    ensures
        glyphs::delimiter_written(pen, b, token, slot).1 matches Ok(o) ==> has_no_entries(o.marks),
{
    if pen::sample_written(pen, token).1 is Ok {
        law_only_a_varied_l_has_an_entry(pen, token);
    }
}

proof fn lemma_group_adds_no_entries<S: Scalar>(
    pen: Pen<S>,
    left: Seq<char>,
    b: BoxView<S>,
    right: Seq<char>,
)
    requires
        !pen.variation,
        has_no_entries(b.marks),
    ensures
        layout::delimited_written(pen, left, b, right).1 matches Ok(o) ==> has_no_entries(o.marks),
{
    reveal(layout::delimited_written);
    let bare = layout::bare_group(pen.glyphs, left, b, right);
    let opening = layout::opening_slot(pen.glyphs, left, b);
    let closing = layout::closing_slot(pen.glyphs, left, b);
    lemma_delimiter_adds_no_entries(pen, bare, left, opening);
    let opened = glyphs::delimiter_written(pen, bare, left, opening);
    if let Ok(with_left) = opened.1 {
        lemma_delimiter_adds_no_entries(opened.0, with_left, right, closing);
    }
}

proof fn lemma_accent_adds_no_entries<S: Scalar>(name: Seq<char>, body: BoxView<S>)
    requires
        has_no_entries(body.marks),
    ensures
        has_no_entries(compose::accent_box(name, body).marks),
{
}

proof fn lemma_rows_add_no_entries<S: Scalar>(rows: Seq<compose::Cells<S>>, left: S)
    requires
        forall|i: int|
            0 <= i < rows.len() ==> has_no_entries((#[trigger] rows[i]).0.marks) && (
            rows[i].1 matches Some(b) ==> has_no_entries(b.marks)),
    ensures
        has_no_entries(compose::stacked(rows, left).0),
    decreases rows.len(),
{
    if rows.len() > 0 {
        lemma_rows_add_no_entries(rows.drop_last(), left);
        assert(has_no_entries(rows[rows.len() - 1].0.marks));
    }
}

/// Without variation no stroke of a formula begins with an entry.
pub proof fn law_unvaried_formulas_have_no_entries<S: Scalar>(pen: Pen<S>, n: Node<S>)
    requires
        !pen.variation,
    ensures
        layout::layout_written(pen, n).1 matches Ok(b) ==> has_no_entries(b.marks),
    decreases n, 0nat,
{
    match n {
        Node::Glyph(key) => {
            if glyphs::glyph_written(pen, key@).1 is Ok {
                law_only_a_varied_l_is_a_symbol_with_an_entry(pen, key@);
            }
        },
        Node::Text(text) => lemma_text_has_no_entries(pen, text@, text@.len() as int),
        Node::Space(w) => {},
        Node::Row(nodes) => lemma_row_has_no_entries(pen, nodes@, nodes@.len()),
        Node::Fraction(a, b) => {
            law_unvaried_formulas_have_no_entries(pen, *a);
            laws::law_layout_keeps_the_profile(pen, *a);
            let (p, top) = layout::layout_written(pen, *a);
            law_unvaried_formulas_have_no_entries(p, *b);
            let (q, bottom) = layout::layout_written(p, *b);
            if top is Ok && bottom is Ok {
                lemma_fraction_adds_no_entries(q, top->Ok_0, bottom->Ok_0);
            }
        },
        Node::Root(index, body) => {
            law_unvaried_formulas_have_no_entries(pen, *body);
            laws::law_layout_keeps_the_profile(pen, *body);
            if let Some(i) = index {
                law_unvaried_formulas_have_no_entries(
                    pen::after_placement(layout::layout_written(pen, *body).0),
                    *i,
                );
            }
        },
        Node::Script { base, sub, sup } => {
            let integral = compose::is_integral_node(*base);
            law_unvaried_formulas_have_no_entries(pen, *base);
            laws::law_layout_keeps_the_profile(pen, *base);
            let (p, b) = layout::layout_written(pen, *base);
            let (q, lower) = match sub {
                Some(s) => {
                    law_unvaried_formulas_have_no_entries(p, *s);
                    laws::law_layout_keeps_the_profile(p, *s);
                    let (q, lower) = layout::layout_written(p, *s);
                    (q, Some(compose::sub_sized(lower->Ok_0, integral)))
                },
                None => (p, None),
            };
            let upper = match sup {
                Some(s) => {
                    law_unvaried_formulas_have_no_entries(q, *s);
                    let upper = layout::layout_written(q, *s).1;
                    Some(compose::sup_sized(upper->Ok_0, integral))
                },
                None => None,
            };
            if layout::layout_written(pen, n).1 is Ok {
                lemma_script_adds_no_entries(b->Ok_0, lower, upper);
            }
        },
        Node::Accent(name, body) => {
            law_unvaried_formulas_have_no_entries(pen, *body);
            let b = layout::layout_written(pen, *body).1;
            if b is Ok {
                lemma_accent_adds_no_entries(name@, b->Ok_0);
            }
        },
        Node::Delimited(left, body, right) => {
            law_unvaried_formulas_have_no_entries(pen, *body);
            laws::law_layout_keeps_the_profile(pen, *body);
            let (p, b) = layout::layout_written(pen, *body);
            if b is Ok {
                lemma_group_adds_no_entries(p, left@, b->Ok_0, right@);
            }
        },
        Node::Arrow(key, label) => {
            law_unvaried_formulas_have_no_entries(pen, *label);
            laws::law_layout_keeps_the_profile(pen, *label);
            let p = layout::layout_written(pen, *label).0;
            if glyphs::glyph_written(p, compose::arrow_key(key@)).1 is Ok {
                law_only_a_varied_l_is_a_symbol_with_an_entry(p, compose::arrow_key(key@));
            }
        },
        Node::Aligned(rows) => {
            lemma_cells_have_no_entries(pen, rows@, rows@.len());
            if let Ok(cells) = layout::cells_upto(pen, rows@, rows@.len()).1 {
                reveal(compose::aligned_box);
                lemma_rows_add_no_entries(cells, compose::left_width(cells));
            }
        },
    }
}

proof fn lemma_row_has_no_entries<S: Scalar>(pen: Pen<S>, nodes: Seq<Node<S>>, count: nat)
    requires
        !pen.variation,
    ensures
        layout::row_upto(pen, nodes, count).1 matches Ok(b) ==> has_no_entries(b.marks),
    decreases nodes, count,
{
    if 0 < count <= nodes.len() {
        let before = (count - 1) as nat;
        lemma_row_has_no_entries(pen, nodes, before);
        laws::lemma_row_keeps_the_profile(pen, nodes, before);
        let (p, out) = layout::row_upto(pen, nodes, before);
        law_unvaried_formulas_have_no_entries(p, nodes[count - 1]);
        let b = layout::layout_written(p, nodes[count - 1]).1;
        if out is Ok && b is Ok {
            lemma_row_step_adds_no_entries(out->Ok_0, nodes, count - 1, b->Ok_0);
        }
    }
}

proof fn lemma_cells_have_no_entries<S: Scalar>(
    pen: Pen<S>,
    rows: Seq<(Node<S>, Option<Node<S>>)>,
    count: nat,
)
    requires
        !pen.variation,
    ensures
        layout::cells_upto(pen, rows, count).1 matches Ok(cells) ==> forall|i: int|
            0 <= i < cells.len() ==> has_no_entries((#[trigger] cells[i]).0.marks) && (
            cells[i].1 matches Some(b) ==> has_no_entries(b.marks)),
    decreases rows, count,
{
    if 0 < count <= rows.len() {
        let before = (count - 1) as nat;
        lemma_cells_have_no_entries(pen, rows, before);
        laws::lemma_cells_keep_the_profile(pen, rows, before);
        let p = layout::cells_upto(pen, rows, before).0;
        law_unvaried_formulas_have_no_entries(p, rows[count - 1].0);
        laws::law_layout_keeps_the_profile(p, rows[count - 1].0);
        if let Some(n) = rows[count - 1].1 {
            law_unvaried_formulas_have_no_entries(
                layout::layout_written(p, rows[count - 1].0).0,
                n,
            );
        }
    }
}

} // verus!
