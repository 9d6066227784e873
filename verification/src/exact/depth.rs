//! How deep the subscripts of a box lie.
use crate::compose;
use crate::exact::arithmetic;
use crate::glyphs;
use crate::layout;
use crate::milli::Milli;
use crate::node;
use crate::node::Node;
use crate::pen;
use crate::pen::Pen;
use crate::prose;
use crate::scalar::Scalar;
use crate::strokes;
use crate::strokes::BoxView;
use vstd::prelude::*;

verus! {

/// Whether a node is a large symbol, which takes its scripts as limits above and below.
pub open spec fn takes_limits<S>(n: Node<S>) -> bool {
    n matches Node::Glyph(key) && (pen::is_large_key(key@) || key@ == "\\iint"@ || key@
        == "\\iiint"@)
}

/// Whether a formula has a subscript anywhere. The lower limit of a large symbol stands
/// under it on a line of its own and is no subscript, but it may have subscripts in it.
pub open spec fn has_subscripts<S>(n: Node<S>) -> bool
    decreases n, 0nat,
{
    match n {
        Node::Glyph(_) => false,
        Node::Text(_) => false,
        Node::Space(_) => false,
        Node::Row(nodes) => some_have_subscripts(nodes@, nodes@.len()),
        Node::Fraction(a, b) => has_subscripts(*a) || has_subscripts(*b),
        Node::Root(index, body) => has_subscripts(*body) || match index {
            Some(i) => has_subscripts(*i),
            None => false,
        },
        Node::Script { base, sub, sup } => has_subscripts(*base) || match sub {
            Some(s) => !takes_limits(*base) || has_subscripts(*s),
            None => false,
        } || match sup {
            Some(s) => has_subscripts(*s),
            None => false,
        },
        Node::Accent(_, body) => has_subscripts(*body),
        Node::Delimited(_, body, _) => has_subscripts(*body),
        Node::Arrow(_, label) => has_subscripts(*label),
        Node::Aligned(rows) => some_cells_have_subscripts(rows@, rows@.len()),
    }
}

/// Whether one of the first `count` nodes has a subscript.
pub open spec fn some_have_subscripts<S>(nodes: Seq<Node<S>>, count: nat) -> bool
    decreases nodes, count,
{
    0 < count <= nodes.len() && (has_subscripts(nodes[count - 1]) || some_have_subscripts(
        nodes,
        (count - 1) as nat,
    ))
}

/// Whether a cell of the first `count` aligned rows has a subscript.
pub open spec fn some_cells_have_subscripts<S>(
    rows: Seq<(Node<S>, Option<Node<S>>)>,
    count: nat,
) -> bool
    decreases rows, count,
{
    0 < count <= rows.len() && (has_subscripts(rows[count - 1].0) || match rows[count - 1].1 {
        Some(n) => has_subscripts(n),
        None => false,
    } || some_cells_have_subscripts(rows, (count - 1) as nat))
}

proof fn lemma_sample_is_flat<S: Scalar>(pen: Pen<S>, key: Seq<char>)
    ensures
        pen::sample_written(pen, key).1 matches Ok(b) ==> b.script_drop == S::mil(0),
{
}

proof fn lemma_glyph_is_flat<S: Scalar>(pen: Pen<S>, key: Seq<char>)
    ensures
        glyphs::glyph_written(pen, key).1 matches Ok(b) ==> b.script_drop == S::mil(0),
{
    reveal(glyphs::glyph_written);
    lemma_sample_is_flat(pen, key);
    lemma_delimiter_keeps_depth(
        pen,
        strokes::bare_box(S::mil(22_000), S::mil(49_000), S::mil(19_000)),
        key,
        glyphs::literal_slot(key),
    );
}

proof fn lemma_delimiter_keeps_depth<S: Scalar>(
    pen: Pen<S>,
    b: BoxView<S>,
    token: Seq<char>,
    slot: glyphs::Slot<S>,
)
    ensures
        glyphs::delimiter_written(pen, b, token, slot).1 matches Ok(o) ==> o.script_drop
            == b.script_drop,
{
}

proof fn lemma_text_is_flat<S: Scalar>(pen: Pen<S>, chars: Seq<char>, n: int)
    ensures
        prose::text_upto(pen, chars, n).1 matches Ok((b, _)) ==> b.script_drop == S::mil(0),
    decreases n,
{
    if n > 0 {
        lemma_text_is_flat(pen, chars, n - 1);
    }
}

proof fn lemma_group_depth<S: Scalar>(
    pen: Pen<S>,
    left: Seq<char>,
    b: BoxView<S>,
    right: Seq<char>,
)
    ensures
        layout::delimited_written(pen, left, b, right).1 matches Ok(o) ==> o.script_drop == S::mil(
            0,
        ).larger(b.script_drop),
{
    reveal(layout::delimited_written);
    let bare = layout::bare_group(pen.glyphs, left, b, right);
    let opening = layout::opening_slot(pen.glyphs, left, b);
    let closing = layout::closing_slot(pen.glyphs, left, b);
    lemma_delimiter_keeps_depth(pen, bare, left, opening);
    let opened = glyphs::delimiter_written(pen, bare, left, opening);
    if let Ok(with_left) = opened.1 {
        lemma_delimiter_keeps_depth(opened.0, with_left, right, closing);
    }
}

/// A group in delimiters has its subscripts as deep as its body has them.
pub proof fn law_groups_keep_the_depth_of_their_subscripts<S: Scalar>(
    pen: Pen<S>,
    left: String,
    body: Box<Node<S>>,
    right: String,
)
    requires
        layout::layout_written(pen, Node::Delimited(left, body, right)).1 is Ok,
    ensures
        layout::layout_written(pen, *body).1 is Ok,
        layout::layout_written(pen, Node::Delimited(left, body, right)).1->Ok_0.script_drop
            == S::mil(0).larger(layout::layout_written(pen, *body).1->Ok_0.script_drop),
{
    let (p, b) = layout::layout_written(pen, *body);
    if let Ok(b) = b {
        lemma_group_depth(p, left@, b, right@);
    }
}

/// An accent leaves the subscripts of its body as deep as they are.
pub proof fn law_accents_keep_the_depth_of_their_subscripts<S: Scalar>(
    name: Seq<char>,
    body: BoxView<S>,
)
    ensures
        compose::accent_box(name, body).script_drop == S::mil(0).larger(body.script_drop),
{
}

/// The deepest subscript baseline of a part that has its subscripts `drop` deep and is
/// placed at `y`; none where the part has no subscripts.
pub open spec fn baseline(drop: Milli, y: Milli) -> Set<Milli> {
    if 0 < drop.0 {
        set![y + drop]
    } else {
        Set::empty()
    }
}

/// The deepest subscript baseline of an optional part that is placed at `y`.
pub open spec fn baseline_of(b: Option<BoxView<Milli>>, y: Milli) -> Set<Milli> {
    match b {
        Some(b) => baseline(b.script_drop, y),
        None => Set::empty(),
    }
}

/// Whether a depth is that of the deepest of some baselines, and zero where none lies
/// below the baseline of the whole.
pub open spec fn is_deepest(depth: Milli, baselines: Set<Milli>) -> bool {
    &&& 0 <= depth.0
    &&& forall|y: Milli| #[trigger] baselines.contains(y) ==> y.0 <= depth.0
    &&& depth == Milli(0) || baselines.contains(depth)
}

/// A row has its subscripts as deep as the deepest of its parts has them.
pub proof fn law_rows_keep_the_depth_of_their_subscripts(
    out: BoxView<Milli>,
    nodes: Seq<Node<Milli>>,
    i: int,
    b: BoxView<Milli>,
)
    requires
        0 <= out.script_drop.0,
    ensures
        is_deepest(
            compose::row_step(out, nodes, i, b).script_drop,
            baseline(out.script_drop, Milli(0)).union(baseline(b.script_drop, Milli(0))),
        ),
{
    reveal(compose::row_step);
}

/// A fraction has its subscripts as deep as the parts have them where they are placed.
pub proof fn law_fractions_keep_the_depth_of_their_subscripts(
    top: BoxView<Milli>,
    bottom: BoxView<Milli>,
    width: Milli,
    axis: Milli,
    bar: Seq<(Milli, Milli)>,
)
    ensures
        ({
            let ty = axis - compose::numerator_gap::<Milli>() - top.script_drop;
            let by = axis + (compose::numerator_gap::<Milli>() + Milli::mil(2_000)) + bottom.above;
            is_deepest(
                compose::fraction_box(top, bottom, width, axis, bar).script_drop,
                baseline(top.script_drop, ty).union(baseline(bottom.script_drop, by)),
            )
        }),
{
    let ty = axis - compose::numerator_gap::<Milli>() - top.script_drop;
    let by = axis + (compose::numerator_gap::<Milli>() + Milli::mil(2_000)) + bottom.above;
    lemma_deepest(Milli(0), top.script_drop, ty);
    lemma_deepest(
        Milli(0).larger(compose::sunk(top.script_drop, ty)),
        bottom.script_drop,
        by,
    );
}

proof fn lemma_deepest(depth: Milli, drop: Milli, y: Milli)
    requires
        0 <= depth.0,
    ensures
        ({
            let deeper = depth.larger(compose::sunk(drop, y));
            &&& depth.0 <= deeper.0
            &&& deeper == depth || baseline(drop, y).contains(deeper)
            &&& forall|m: Milli| #[trigger] baseline(drop, y).contains(m) ==> m.0 <= deeper.0
        }),
{
}

/// A root has its subscripts as deep as its body has them, or its index where it stands
/// in the crook of the radical.
pub proof fn law_roots_keep_the_depth_of_their_subscripts(
    body: BoxView<Milli>,
    seed: u64,
    varied: bool,
    placed: usize,
    index: BoxView<Milli>,
)
    ensures
        ({
            let root = compose::root_box(body, seed, varied, placed);
            let cap = compose::root_cap(body);
            let own = baseline(body.script_drop, Milli(0));
            &&& is_deepest(root.script_drop, own)
            &&& is_deepest(
                compose::with_index(root, cap, index).script_drop,
                own.union(baseline(index.script_drop, (-cap) * Milli(750))),
            )
        }),
{
    let root = compose::root_box(body, seed, varied, placed);
    let cap = compose::root_cap(body);
    assert(is_deepest(root.script_drop, baseline(body.script_drop, Milli(0))));
    lemma_deepest(root.script_drop, index.script_drop, (-cap) * Milli(750));
}

/// A large symbol with its limits has its subscripts as deep as it has them itself, or as
/// its limits have them where they stand above and below it. A limit's own line does not
/// count.
pub proof fn law_limits_keep_the_depth_of_their_subscripts(
    base: BoxView<Milli>,
    sub: Option<BoxView<Milli>>,
    sup: Option<BoxView<Milli>>,
)
    requires
        base.large,
    ensures
        ({
            let over = match sup {
                Some(b) => -base.above - Milli(10_000) - b.below,
                None => Milli(0),
            };
            let under = match sub {
                Some(b) => base.below + Milli(10_000) + b.above,
                None => Milli(0),
            };
            is_deepest(
                compose::script_box(base, sub, sup).script_drop,
                baseline(base.script_drop, Milli(0)).union(baseline_of(sup, over)).union(
                    baseline_of(sub, under),
                ),
            )
        }),
{
    reveal(compose::script_box);
    let own = Milli(0).larger(base.script_drop);
    let topped = match sup {
        Some(b) => {
            let sy = -base.above - Milli(10_000) - b.below;
            lemma_deepest(own, b.script_drop, sy);
            own.larger(compose::sunk(b.script_drop, sy))
        },
        None => own,
    };
    if let Some(b) = sub {
        lemma_deepest(topped, b.script_drop, base.below + Milli(10_000) + b.above);
    }
}

/// A base with its scripts beside it has its subscripts as deep as it has them itself, or
/// as its superscript has them where it stands, or as its own subscript stands: the
/// baseline of a subscript counts, and so do the subscripts in it.
pub proof fn law_subscripts_count(
    base: BoxView<Milli>,
    sub: BoxView<Milli>,
    sup: Option<BoxView<Milli>>,
)
    requires
        !base.large,
        0 <= base.script_drop.0,
        arithmetic::within(base.below, 100_000_000),
        0 <= sub.script_drop.0 <= 100_000_000,
    ensures
        ({
            let over = -(base.above.larger(Milli(34_000))) + Milli(10_000);
            let under = base.below.larger(Milli(8_000)) + Milli(6_000);
            is_deepest(
                compose::script_box(base, Some(sub), sup).script_drop,
                baseline(base.script_drop, Milli(0)).union(baseline_of(sup, over)).insert(
                    under + sub.script_drop,
                ),
            )
        }),
        ({
            let depth = compose::script_box(base, Some(sub), sup).script_drop;
            &&& 14_000 + sub.script_drop.0 <= depth.0
            &&& base.below.0 + 6_000 + sub.script_drop.0 <= depth.0
            &&& base.script_drop.0 <= depth.0
        }),
{
    reveal(compose::script_box);
    if let Some(b) = sup {
        let over = -(base.above.larger(Milli(34_000))) + Milli(10_000);
        lemma_deepest(base.script_drop, b.script_drop, over);
    }
}

/// An arrow has its subscripts as deep as its label has them where it stands above it.
pub proof fn law_arrows_keep_the_depth_of_their_subscripts(
    arrow: BoxView<Milli>,
    label: BoxView<Milli>,
)
    ensures
        is_deepest(
            compose::arrow_box(arrow, label).script_drop,
            baseline(arrow.script_drop, Milli(0)).union(
                baseline(label.script_drop, -arrow.above - label.below - Milli(8_000)),
            ),
        ),
{
    lemma_deepest(
        Milli(0).larger(arrow.script_drop),
        label.script_drop,
        -arrow.above - label.below - Milli(8_000),
    );
}

/// Where the last of some aligned rows has its baseline: below the rows before it.
pub open spec fn last_row_y(rows: Seq<compose::Cells<Milli>>, left: Milli) -> Milli
    recommends
        rows.len() > 0,
{
    let row = rows.last();
    compose::stacked(rows.drop_last(), left).1 + if rows.len() == 1 {
        compose::row_above(row)
    } else {
        compose::row_above(row) + Milli(compose::ALIGNED_ROW_GAP as i64)
    }
}

/// The deepest subscript baselines of the cells of some aligned rows.
pub open spec fn row_baselines(rows: Seq<compose::Cells<Milli>>, left: Milli) -> Set<Milli>
    decreases rows.len(),
{
    if rows.len() == 0 {
        Set::empty()
    } else {
        let y = last_row_y(rows, left);
        row_baselines(rows.drop_last(), left).union(
            baseline(rows.last().0.script_drop, y),
        ).union(baseline_of(rows.last().1, y))
    }
}

proof fn lemma_rows_are_as_deep_as_their_cells(rows: Seq<compose::Cells<Milli>>, left: Milli)
    ensures
        is_deepest(compose::stacked(rows, left).2, row_baselines(rows, left)),
    decreases rows.len(),
{
    if rows.len() > 0 {
        lemma_rows_are_as_deep_as_their_cells(rows.drop_last(), left);
        let y = last_row_y(rows, left);
        let before = compose::stacked(rows.drop_last(), left).2;
        let row = rows.last();
        lemma_deepest(before, row.0.script_drop, y);
        let first = before.larger(compose::sunk(row.0.script_drop, y));
        if let Some(b) = row.1 {
            lemma_deepest(first, b.script_drop, y);
        }
    }
}

/// An aligned block has its subscripts as deep as its cells have them on the baselines of
/// their rows.
pub proof fn law_aligned_rows_keep_the_depth_of_their_subscripts(rows: Seq<compose::Cells<Milli>>)
    ensures
        is_deepest(
            compose::aligned_box(rows).script_drop,
            row_baselines(rows, compose::left_width(rows)),
        ),
{
    reveal(compose::aligned_box);
    lemma_rows_are_as_deep_as_their_cells(rows, compose::left_width(rows));
}

/// No formula has a negative depth.
pub proof fn law_depth_is_not_negative(pen: Pen<Milli>, n: Node<Milli>)
    ensures
        layout::layout_written(pen, n).1 matches Ok(b) ==> 0 <= b.script_drop.0,
    decreases n, 0nat,
{
    match n {
        Node::Glyph(key) => lemma_glyph_is_flat(pen, key@),
        Node::Text(text) => lemma_text_is_flat(pen, text@, text@.len() as int),
        Node::Space(w) => {},
        Node::Row(nodes) => lemma_row_depth_is_not_negative(pen, nodes@, nodes@.len()),
        Node::Fraction(a, b) => reveal(layout::fraction_written),
        Node::Root(index, body) => {},
        Node::Script { base, sub, sup } => {
            law_depth_is_not_negative(pen, *base);
            reveal(compose::script_box);
        },
        Node::Accent(name, body) => {},
        Node::Delimited(left, body, right) => {
            let (p, b) = layout::layout_written(pen, *body);
            if b is Ok {
                lemma_group_depth(p, left@, b->Ok_0, right@);
            }
        },
        Node::Arrow(key, label) => {},
        Node::Aligned(rows) => {
            if let Ok(cells) = layout::cells_upto(pen, rows@, rows@.len()).1 {
                law_aligned_rows_keep_the_depth_of_their_subscripts(cells);
            }
        },
    }
}

proof fn lemma_row_depth_is_not_negative(pen: Pen<Milli>, nodes: Seq<Node<Milli>>, count: nat)
    ensures
        layout::row_upto(pen, nodes, count).1 matches Ok(b) ==> 0 <= b.script_drop.0,
    decreases nodes, count,
{
    if 0 < count <= nodes.len() {
        lemma_row_depth_is_not_negative(pen, nodes, (count - 1) as nat);
        reveal(compose::row_step);
    }
}

// Which boxes are large.

proof fn lemma_large_symbols_are_named()
    ensures
        forall|key: Seq<char>| #[trigger]
            node::is_delimiter_key(key) ==> !pen::is_large_key(key) && key != "\\iint"@ && key
                != "\\iiint"@,
        !pen::is_large_key("\\cdots"@) && !pen::is_large_key("\\ldots"@),
        "\\cdots"@ != "\\iint"@ && "\\cdots"@ != "\\iiint"@,
        "\\ldots"@ != "\\iint"@ && "\\ldots"@ != "\\iiint"@,
{
    reveal_strlit("(");
    reveal_strlit(")");
    reveal_strlit("[");
    reveal_strlit("]");
    reveal_strlit("|");
    reveal_strlit("\\int");
    reveal_strlit("\\oint");
    reveal_strlit("\\sum");
    reveal_strlit("\\prod");
    reveal_strlit("\\iint");
    reveal_strlit("\\iiint");
    reveal_strlit("\\cdots");
    reveal_strlit("\\ldots");
    assert("("@.len() == 1 && ")"@.len() == 1 && "["@.len() == 1 && "]"@.len() == 1);
    assert("|"@.len() == 1);
    assert("\\int"@.len() == 4 && "\\oint"@.len() == 5 && "\\sum"@.len() == 4);
    assert("\\prod"@.len() == 5 && "\\iint"@.len() == 5 && "\\iiint"@.len() == 6);
    assert("\\cdots"@[1] == 'c' && "\\ldots"@[1] == 'l' && "\\iiint"@[1] == 'i');
}

proof fn lemma_glyph_is_large<S: Scalar>(pen: Pen<S>, key: String)
    ensures
        glyphs::glyph_written(pen, key@).1 matches Ok(b) ==> b.large == takes_limits(
            Node::<S>::Glyph(key),
        ),
{
    reveal(glyphs::glyph_written);
    lemma_large_symbols_are_named();
}

proof fn lemma_text_is_not_large<S: Scalar>(pen: Pen<S>, chars: Seq<char>, n: int)
    ensures
        prose::text_upto(pen, chars, n).1 matches Ok((b, _)) ==> !b.large,
    decreases n,
{
    if n > 0 {
        lemma_text_is_not_large(pen, chars, n - 1);
    }
}

proof fn lemma_row_is_not_large<S: Scalar>(pen: Pen<S>, nodes: Seq<Node<S>>, count: nat)
    ensures
        layout::row_upto(pen, nodes, count).1 matches Ok(b) ==> !b.large,
    decreases count,
{
    if 0 < count <= nodes.len() {
        lemma_row_is_not_large(pen, nodes, (count - 1) as nat);
        reveal(compose::row_step);
    }
}

proof fn lemma_group_is_not_large<S: Scalar>(
    pen: Pen<S>,
    left: Seq<char>,
    b: BoxView<S>,
    right: Seq<char>,
)
    ensures
        layout::delimited_written(pen, left, b, right).1 matches Ok(o) ==> !o.large,
{
    reveal(layout::delimited_written);
}

/// A large symbol takes its scripts as limits, and nothing else does: only its box is
/// large.
pub proof fn law_only_large_symbols_take_limits<S: Scalar>(pen: Pen<S>, n: Node<S>)
    ensures
        layout::layout_written(pen, n).1 matches Ok(b) ==> b.large == takes_limits(n),
{
    match n {
        Node::Glyph(key) => lemma_glyph_is_large(pen, key),
        Node::Text(text) => lemma_text_is_not_large(pen, text@, text@.len() as int),
        Node::Space(w) => {},
        Node::Row(nodes) => lemma_row_is_not_large(pen, nodes@, nodes@.len()),
        Node::Fraction(a, b) => reveal(layout::fraction_written),
        Node::Root(index, body) => {},
        Node::Script { base, sub, sup } => reveal(compose::script_box),
        Node::Accent(name, body) => {},
        Node::Delimited(left, body, right) => {
            let (p, b) = layout::layout_written(pen, *body);
            if b is Ok {
                lemma_group_is_not_large(p, left@, b->Ok_0, right@);
            }
        },
        Node::Arrow(key, label) => {},
        Node::Aligned(rows) => reveal(compose::aligned_box),
    }
}

// Without subscripts.

proof fn lemma_flat_script(
    b: BoxView<Milli>,
    sub: Option<BoxView<Milli>>,
    sup: Option<BoxView<Milli>>,
)
    requires
        b.script_drop == Milli(0),
        sub matches Some(s) ==> b.large && s.script_drop == Milli(0),
        sup matches Some(s) ==> s.script_drop == Milli(0),
    ensures
        compose::script_box(b, sub, sup).script_drop == Milli(0),
{
    reveal(compose::script_box);
}

proof fn lemma_flat_sizes(b: BoxView<Milli>, integral: bool)
    requires
        b.script_drop == Milli(0),
    ensures
        compose::sub_sized(b, integral).script_drop == Milli(0),
        compose::sup_sized(b, integral).script_drop == Milli(0),
{
    arithmetic::lemma_nothing_times(Milli(400));
    arithmetic::lemma_nothing_times(Milli(440));
    arithmetic::lemma_nothing_times(Milli(500));
    arithmetic::lemma_nothing_times(Milli(550));
    arithmetic::lemma_nothing_times(Milli(820));
    arithmetic::lemma_nothing_times(Milli(850));
}

proof fn lemma_flat_fraction(pen: Pen<Milli>, top: BoxView<Milli>, bottom: BoxView<Milli>)
    requires
        top.script_drop == Milli(0),
        bottom.script_drop == Milli(0),
    ensures
        layout::fraction_written(pen, top, bottom).1->Ok_0.script_drop == Milli(0),
{
    reveal(layout::fraction_written);
    arithmetic::lemma_nothing_times(Milli(550));
    let (a, b) = (
        strokes::box_scaled(top, Milli::mil(550)),
        strokes::box_scaled(bottom, Milli::mil(550)),
    );
    assert(a.script_drop == Milli(0) && b.script_drop == Milli(0));
}

proof fn lemma_flat_row(
    out: BoxView<Milli>,
    nodes: Seq<Node<Milli>>,
    i: int,
    b: BoxView<Milli>,
)
    requires
        out.script_drop == Milli(0),
        b.script_drop == Milli(0),
    ensures
        compose::row_step(out, nodes, i, b).script_drop == Milli(0),
{
    reveal(compose::row_step);
}

proof fn lemma_flat_rows(rows: Seq<compose::Cells<Milli>>, left: Milli)
    requires
        forall|i: int|
            0 <= i < rows.len() ==> (#[trigger] rows[i]).0.script_drop == Milli(0) && (
            rows[i].1 matches Some(b) ==> b.script_drop == Milli(0)),
    ensures
        compose::stacked(rows, left).2 == Milli(0),
    decreases rows.len(),
{
    if rows.len() > 0 {
        lemma_flat_rows(rows.drop_last(), left);
        assert(rows[rows.len() - 1].0.script_drop == Milli(0));
    }
}

/// A formula without any subscript lies as deep as nothing does: its depth is zero.
pub proof fn law_depth_is_zero_without_subscripts(pen: Pen<Milli>, n: Node<Milli>)
    requires
        !has_subscripts(n),
    ensures
        layout::layout_written(pen, n).1 matches Ok(b) ==> b.script_drop == Milli(0),
    decreases n, 0nat,
{
    match n {
        Node::Glyph(key) => lemma_glyph_is_flat(pen, key@),
        Node::Text(text) => lemma_text_is_flat(pen, text@, text@.len() as int),
        Node::Space(w) => {},
        Node::Row(nodes) => lemma_row_is_flat(pen, nodes@, nodes@.len()),
        Node::Fraction(a, b) => {
            law_depth_is_zero_without_subscripts(pen, *a);
            let (p, top) = layout::layout_written(pen, *a);
            law_depth_is_zero_without_subscripts(p, *b);
            let (q, bottom) = layout::layout_written(p, *b);
            if top is Ok && bottom is Ok {
                lemma_flat_fraction(q, top->Ok_0, bottom->Ok_0);
            }
        },
        Node::Root(index, body) => {
            law_depth_is_zero_without_subscripts(pen, *body);
            if let Some(i) = index {
                law_depth_is_zero_without_subscripts(
                    pen::after_placement(layout::layout_written(pen, *body).0),
                    *i,
                );
                arithmetic::lemma_nothing_times(Milli(480));
            }
        },
        Node::Script { base, sub, sup } => {
            let integral = compose::is_integral_node(*base);
            law_depth_is_zero_without_subscripts(pen, *base);
            law_only_large_symbols_take_limits(pen, *base);
            let (p, b) = layout::layout_written(pen, *base);
            let (q, lower) = match sub {
                Some(s) => {
                    law_depth_is_zero_without_subscripts(p, *s);
                    let (q, lower) = layout::layout_written(p, *s);
                    if lower is Ok {
                        lemma_flat_sizes(lower->Ok_0, integral);
                    }
                    (q, Some(compose::sub_sized(lower->Ok_0, integral)))
                },
                None => (p, None),
            };
            match sup {
                Some(s) => {
                    law_depth_is_zero_without_subscripts(q, *s);
                    let upper = layout::layout_written(q, *s).1;
                    if layout::layout_written(pen, n).1 is Ok {
                        lemma_flat_sizes(upper->Ok_0, integral);
                        let sized = compose::sup_sized(upper->Ok_0, integral);
                        lemma_flat_script(b->Ok_0, lower, Some(sized));
                    }
                },
                None => {
                    if layout::layout_written(pen, n).1 is Ok {
                        lemma_flat_script(b->Ok_0, lower, None);
                    }
                },
            }
        },
        Node::Accent(name, body) => law_depth_is_zero_without_subscripts(pen, *body),
        Node::Delimited(left, body, right) => {
            law_depth_is_zero_without_subscripts(pen, *body);
            let (p, b) = layout::layout_written(pen, *body);
            if b is Ok {
                lemma_group_depth(p, left@, b->Ok_0, right@);
            }
        },
        Node::Arrow(key, label) => {
            law_depth_is_zero_without_subscripts(pen, *label);
            lemma_glyph_is_flat(
                layout::layout_written(pen, *label).0,
                compose::arrow_key(key@),
            );
            arithmetic::lemma_nothing_times(Milli(600));
        },
        Node::Aligned(rows) => {
            lemma_cells_are_flat(pen, rows@, rows@.len());
            if let Ok(cells) = layout::cells_upto(pen, rows@, rows@.len()).1 {
                reveal(compose::aligned_box);
                lemma_flat_rows(cells, compose::left_width(cells));
            }
        },
    }
}

proof fn lemma_row_is_flat(pen: Pen<Milli>, nodes: Seq<Node<Milli>>, count: nat)
    requires
        !some_have_subscripts(nodes, count),
        count <= nodes.len(),
    ensures
        layout::row_upto(pen, nodes, count).1 matches Ok(b) ==> b.script_drop == Milli(0),
    decreases nodes, count,
{
    if 0 < count {
        let before = (count - 1) as nat;
        lemma_row_is_flat(pen, nodes, before);
        let (p, out) = layout::row_upto(pen, nodes, before);
        law_depth_is_zero_without_subscripts(p, nodes[count - 1]);
        let b = layout::layout_written(p, nodes[count - 1]).1;
        if out is Ok && b is Ok {
            lemma_flat_row(out->Ok_0, nodes, count - 1, b->Ok_0);
        }
    }
}

proof fn lemma_cells_are_flat(
    pen: Pen<Milli>,
    rows: Seq<(Node<Milli>, Option<Node<Milli>>)>,
    count: nat,
)
    requires
        !some_cells_have_subscripts(rows, count),
        count <= rows.len(),
    ensures
        layout::cells_upto(pen, rows, count).1 matches Ok(cells) ==> forall|i: int|
            0 <= i < cells.len() ==> (#[trigger] cells[i]).0.script_drop == Milli(0) && (
            cells[i].1 matches Some(b) ==> b.script_drop == Milli(0)),
    decreases rows, count,
{
    if 0 < count {
        let before = (count - 1) as nat;
        lemma_cells_are_flat(pen, rows, before);
        let (p, cells) = layout::cells_upto(pen, rows, before);
        law_depth_is_zero_without_subscripts(p, rows[count - 1].0);
        if let Some(n) = rows[count - 1].1 {
            law_depth_is_zero_without_subscripts(
                layout::layout_written(p, rows[count - 1].0).0,
                n,
            );
        }
    }
}

} // verus!
