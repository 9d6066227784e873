//! Accents, arrows and aligned rows.
use crate::compose;
use crate::compose::Cells;
use crate::exact::arithmetic;
use crate::glyphs;
use crate::layout;
use crate::milli::Milli;
use crate::node::Node;
use crate::pen::Pen;
use crate::promises::placing;
use crate::promises::scripts;
use crate::scalar::Scalar;
use crate::strokes;
use crate::strokes::BoxView;
use vstd::prelude::*;

verus! {

/// What is drawn for an accent on a body: a hat and a tilde span it, a vector arrow has a
/// line and half a head, one or two dots stand over it, and a bar runs along it; all of
/// them start seven pixels above the body. A line under it runs six pixels below.
pub open spec fn accent_lines<S: Scalar>(name: Seq<char>, body: BoxView<S>) -> Seq<Seq<(S, S)>> {
    let w = body.width;
    let y = -body.above - S::mil(7_000);
    let under = body.below + S::mil(6_000);
    let (two, three, four) = (S::mil(2_000), S::mil(3_000), S::mil(4_000));
    if name == "hat"@ || name == "widehat"@ {
        seq![seq![(three, y), (w / two, y - S::mil(10_000)), (w - three, y)]]
    } else if name == "tilde"@ || name == "widetilde"@ {
        seq![
            seq![
                (three, y - three),
                (w * S::mil(300), y - S::mil(9_000)),
                (w * S::mil(700), y),
                (w - three, y - S::mil(6_000)),
            ],
        ]
    } else if name == "vec"@ {
        seq![
            seq![
                (three, y - four),
                (w - four, y - four),
                (w - S::mil(12_000), y - S::mil(10_000)),
            ],
            seq![(w - four, y - four), (w - S::mil(12_000), y + two)],
        ]
    } else if name == "dot"@ {
        seq![seq![(w / two, y - four)]]
    } else if name == "ddot"@ {
        seq![seq![(w * S::mil(350), y - four)], seq![(w * S::mil(650), y - four)]]
    } else if name == "underline"@ {
        seq![seq![(two, under), (w - two, under)]]
    } else {
        seq![seq![(two, y - four), (w - two, y - four)]]
    }
}

/// An accent leaves its body as it is and draws its lines after it.
pub proof fn law_accents_are_drawn_on_their_body<S: Scalar>(name: Seq<char>, body: BoxView<S>)
    ensures
        ({
            let b = compose::accent_box(name, body);
            let lines = accent_lines(name, body);
            let n = body.marks.len() as int;
            &&& b.marks.len() == n + lines.len()
            &&& b.marks.take(n) == body.marks
            &&& forall|i: int|
                0 <= i < lines.len() ==> placing::is_line(b.marks[n + i], #[trigger] lines[i])
            &&& b.width == body.width
            &&& b.above == body.above + S::mil(19_000)
            &&& b.below == if name == "underline"@ {
                body.below + S::mil(9_000)
            } else {
                body.below
            }
            &&& !b.large
        }),
{
    let b = compose::accent_box(name, body);
    let n = body.marks.len() as int;
    assert(b.marks.take(n) =~= body.marks);
}

/// In thousandths, an accent stands above its body, and a line under it below; its points
/// lie within the box.
pub proof fn law_accents_stand_clear_of_their_body(
    name: Seq<char>,
    body: BoxView<Milli>,
    i: int,
    j: int,
)
    requires
        arithmetic::within(body.above, 1_000_000_000),
        arithmetic::within(body.below, 1_000_000_000),
        0 <= i < accent_lines(name, body).len(),
        0 <= j < accent_lines(name, body)[i].len(),
    ensures
        ({
            let b = compose::accent_box(name, body);
            let y = b.marks[body.marks.len() + i].points[j].1.0;
            &&& name != "underline"@ ==> -b.above.0 <= y <= -body.above.0 - 5_000
            &&& name == "underline"@ ==> body.below.0 + 6_000 <= y <= b.below.0
        }),
{
    law_accents_are_drawn_on_their_body(name, body);
    reveal_strlit("underline");
    reveal_strlit("hat");
    reveal_strlit("widehat");
    reveal_strlit("tilde");
    reveal_strlit("widetilde");
    reveal_strlit("vec");
    reveal_strlit("dot");
    reveal_strlit("ddot");
    assert("underline"@[0] == 'u');
    assert("widetilde"@[0] == 'w');
    assert(placing::is_line(
        compose::accent_box(name, body).marks[body.marks.len() + i],
        accent_lines(name, body)[i],
    ));
}

/// An accent is put on its body as that is written.
pub proof fn law_accents_are_put_on_what_is_written<S: Scalar>(
    pen: Pen<S>,
    name: String,
    body: Box<Node<S>>,
)
    ensures
        ({
            let (p, b) = layout::layout_written(pen, *body);
            layout::layout_written(pen, Node::Accent(name, body)) == (
                p,
                match b {
                    Ok(b) => Ok::<BoxView<S>, Seq<char>>(compose::accent_box(name@, b)),
                    Err(e) => Err::<BoxView<S>, Seq<char>>(e),
                },
            )
        }),
{
}

// Arrows.

/// An arrow is as wide as its glyph, or as its label with seven pixels on either side. Both
/// are centred, and the label stands eight pixels above the arrow's ink.
pub proof fn law_labels_stand_above_their_arrow<S: Scalar>(arrow: BoxView<S>, label: BoxView<S>)
    ensures
        ({
            let b = compose::arrow_box(arrow, label);
            let two = S::mil(2_000);
            let y = -arrow.above - label.below - S::mil(8_000);
            let n = arrow.marks.len() as int;
            &&& b.width == arrow.width.larger(label.width + S::mil(14_000))
            &&& b.marks.len() == n + label.marks.len()
            &&& placing::shows(
                b.marks,
                0,
                arrow.marks,
                |p: (S, S)| (p.0 + (b.width - arrow.width) / two, p.1 + S::mil(0)),
            )
            &&& placing::shows(
                b.marks,
                n,
                label.marks,
                |p: (S, S)| (p.0 + (b.width - label.width) / two, p.1 + y),
            )
            &&& b.above == (-y + label.above).larger(arrow.above)
            &&& b.below == arrow.below
            &&& !b.large
        }),
{
}

/// The label of an arrow is written first and scaled by 0.6; then comes the arrow, which
/// points to the right, to the left or both ways.
pub proof fn law_arrows_point_where_they_say<S: Scalar>(
    pen: Pen<S>,
    key: String,
    label: Box<Node<S>>,
)
    ensures
        ({
            let (p, b) = layout::layout_written(pen, *label);
            let glyph = if key@ == "\\xrightarrow"@ {
                "\\rightarrow"@
            } else if key@ == "\\xleftarrow"@ {
                "\\leftarrow"@
            } else {
                "\\leftrightarrow"@
            };
            let (q, arrow) = glyphs::glyph_written(p, glyph);
            let whole = layout::layout_written(pen, Node::Arrow(key, label));
            &&& b matches Err(e) ==> whole == (p, Err::<BoxView<S>, Seq<char>>(e))
            &&& b is Ok && arrow is Err ==> whole == (
                q,
                Err::<BoxView<S>, Seq<char>>(arrow->Err_0),
            )
            &&& b is Ok && arrow is Ok ==> whole == (
                q,
                Ok::<BoxView<S>, Seq<char>>(
                    compose::arrow_box(
                        arrow->Ok_0,
                        strokes::box_scaled(b->Ok_0, S::mil(600)),
                    ),
                ),
            )
        }),
{
}

// Aligned rows.

/// The last of some aligned rows stands below the others: its baseline lies its own height
/// below where they end, and thirty-six pixels more unless it is the first. Its left cell
/// ends at the alignment mark, and its right one starts twelve pixels behind it. The rows
/// before it are as they would be without it.
pub proof fn law_rows_stand_one_below_the_other<S: Scalar>(rows: Seq<Cells<S>>, left: S)
    requires
        rows.len() > 0,
    ensures
        ({
            let (all, bottom, _) = compose::stacked(rows, left);
            let (before, end, _) = compose::stacked(rows.drop_last(), left);
            let (a, b) = rows.last();
            let height = a.above.larger(
                match b {
                    Some(b) => b.above,
                    None => S::mil(0),
                },
            );
            let depth = a.below.larger(
                match b {
                    Some(b) => b.below,
                    None => S::mil(0),
                },
            );
            let y = end + if rows.len() == 1 {
                height
            } else {
                height + S::mil(36_000)
            };
            let n = before.len() as int;
            let m = n + a.marks.len();
            &&& all.len() == m + scripts::strokes_of(b).len()
            &&& all.take(n) == before
            &&& placing::shows(
                all,
                n,
                a.marks,
                |p: (S, S)| (p.0 + (left - a.width), p.1 + y),
            )
            &&& placing::shows(
                all,
                m,
                scripts::strokes_of(b),
                |p: (S, S)| (p.0 + (left + S::mil(12_000)), p.1 + y),
            )
            &&& bottom == y + depth
        }),
        compose::stacked(Seq::<Cells<S>>::empty(), left).0.len() == 0,
        compose::stacked(Seq::<Cells<S>>::empty(), left).1 == S::mil(0),
{
    let (all, bottom, _) = compose::stacked(rows, left);
    let before = compose::stacked(rows.drop_last(), left).0;
    assert(all.take(before.len() as int) =~= before);
}

/// An aligned block hangs from the top of its first row: all of it lies below. Its left
/// column ends at the alignment mark, and its right one, where there is any, is twelve
/// pixels apart.
pub proof fn law_aligned_blocks_hang_from_their_top<S: Scalar>(rows: Seq<Cells<S>>)
    ensures
        ({
            let b = compose::aligned_box(rows);
            let (left, right) = (compose::left_width(rows), compose::right_width(rows));
            &&& b.marks == compose::stacked(rows, left).0
            &&& b.above == S::mil(0)
            &&& b.below == compose::stacked(rows, left).1
            &&& b.width == if S::mil(0) < right {
                left + (S::mil(12_000) + right)
            } else {
                left + S::mil(0)
            }
            &&& !b.large
        }),
{
    reveal(compose::aligned_box);
}

/// The columns of an aligned block are as wide as their widest cell.
pub proof fn law_columns_are_as_wide_as_their_widest_cell(rows: Seq<Cells<Milli>>, i: int)
    requires
        0 <= i < rows.len(),
    ensures
        rows[i].0.width.0 <= compose::left_width(rows).0,
        rows[i].1 matches Some(b) ==> b.width.0 <= compose::right_width(rows).0,
        compose::left_width(rows).0 == 0 || exists|k: int|
            0 <= k < rows.len() && compose::left_width(rows) == (#[trigger] rows[k]).0.width,
        compose::right_width(rows).0 == 0 || exists|k: int|
            0 <= k < rows.len() && ((#[trigger] rows[k]).1 matches Some(b) && b.width
                == compose::right_width(rows)),
    decreases rows.len(),
{
    let before = rows.drop_last();
    let last = rows.len() - 1;
    reveal_with_fuel(compose::left_width, 2);
    reveal_with_fuel(compose::right_width, 2);
    if before.len() > 0 {
        law_columns_are_as_wide_as_their_widest_cell(before, if i < last { i } else { 0 });
        if compose::left_width(before).0 != 0 {
            let k = choose|k: int|
                0 <= k < before.len() && compose::left_width(before) == (
                #[trigger] before[k]).0.width;
            assert(rows[k] == before[k]);
        }
        if compose::right_width(before).0 != 0 {
            let k = choose|k: int|
                0 <= k < before.len() && ((#[trigger] before[k]).1 matches Some(b) && b.width
                    == compose::right_width(before));
            assert(rows[k] == before[k]);
        }
    }
    assert(rows[last] == rows.last());
}

/// The cells of an aligned block are written row by row, the left one of each first; the
/// first that cannot be written ends it.
pub proof fn law_cells_are_written_row_by_row<S: Scalar>(
    pen: Pen<S>,
    rows: Seq<(Node<S>, Option<Node<S>>)>,
    i: int,
)
    requires
        0 <= i < rows.len(),
    ensures
        ({
            let (p, cells) = layout::cells_upto(pen, rows, i as nat);
            let (q, left) = layout::layout_written(p, rows[i].0);
            let next = layout::cells_upto(pen, rows, (i + 1) as nat);
            &&& cells matches Err(e) ==> next == (p, Err::<Seq<Cells<S>>, Seq<char>>(e))
            &&& cells is Ok && left is Err ==> next == (
                q,
                Err::<Seq<Cells<S>>, Seq<char>>(left->Err_0),
            )
            &&& cells is Ok && left is Ok ==> match rows[i].1 {
                None => next == (
                    q,
                    Ok::<Seq<Cells<S>>, Seq<char>>((cells->Ok_0).push((left->Ok_0, None))),
                ),
                Some(n) => match layout::layout_written(q, n) {
                    (r, Ok(right)) => next == (
                        r,
                        Ok::<Seq<Cells<S>>, Seq<char>>(
                            (cells->Ok_0).push((left->Ok_0, Some(right))),
                        ),
                    ),
                    (r, Err(e)) => next == (r, Err::<Seq<Cells<S>>, Seq<char>>(e)),
                },
            }
        }),
        layout::cells_upto(pen, rows, 0) == (
            pen,
            Ok::<Seq<Cells<S>>, Seq<char>>(Seq::empty()),
        ),
{
}

/// An aligned block is put together from all its rows.
pub proof fn law_aligned_blocks_have_all_their_rows<S: Scalar>(
    pen: Pen<S>,
    rows: Vec<(Node<S>, Option<Node<S>>)>,
)
    ensures
        ({
            let (p, cells) = layout::cells_upto(pen, rows@, rows@.len());
            layout::layout_written(pen, Node::Aligned(rows)) == (
                p,
                match cells {
                    Ok(cells) => Ok::<BoxView<S>, Seq<char>>(compose::aligned_box(cells)),
                    Err(e) => Err::<BoxView<S>, Seq<char>>(e),
                },
            )
        }),
{
}

} // verus!
