//! How the parts of a row follow each other.
use crate::compose;
use crate::entry;
use crate::exact::arithmetic;
use crate::layout;
use crate::milli::Milli;
use crate::node;
use crate::node::Node;
use crate::pen::Pen;
use crate::promises::placing;
use crate::scalar::Scalar;
use crate::strokes;
use crate::strokes::BoxView;
use vstd::prelude::*;

verus! {

/// Whether a key names a relation or an arrow.
pub open spec fn relates(key: Seq<char>) -> bool {
    ||| key == "="@ || key == "<"@ || key == ">"@ || key == "\\ne"@ || key == "\\equiv"@
    ||| key == "\\approx"@ || key == "\\simeq"@ || key == "\\sim"@ || key == "\\propto"@
    ||| key == "\\le"@ || key == "\\ge"@ || key == "\\ll"@ || key == "\\gg"@
    ||| key == "\\in"@ || key == "\\notin"@ || key == "\\mid"@ || key == "\\parallel"@
    ||| key == "\\to"@ || key == "\\rightarrow"@ || key == "\\longrightarrow"@
    ||| key == "\\leftarrow"@ || key == "\\longleftarrow"@ || key == "\\leftrightarrow"@
    ||| key == "\\Rightarrow"@ || key == "\\Longrightarrow"@ || key == "\\Leftarrow"@
    ||| key == "\\Leftrightarrow"@ || key == "\\mapsto"@ || key == "\\uparrow"@
    ||| key == "\\downarrow"@ || key == "\\rightleftharpoons"@
}

/// Whether a key names an operator between two terms.
pub open spec fn operates(key: Seq<char>) -> bool {
    ||| key == "+"@ || key == "*"@ || key == "/"@ || key == "\\times"@ || key == "\\cdot"@
    ||| key == "\\div"@ || key == "\\pm"@ || key == "\\mp"@ || key == "\\ast"@
    ||| key == "\\oplus"@ || key == "\\otimes"@
}

/// Relations have sixteen pixels of space on either side, operators twelve and labelled
/// arrows nineteen. A minus is an operator unless it begins the row or follows a relation
/// sign or another sign. Nothing else has any.
pub proof fn law_operators_have_room<S>(n: Node<S>, previous: Option<Node<S>>)
    ensures
        node::padding_of(n, previous) == match n {
            Node::Arrow(..) => 19_000int,
            Node::Glyph(key) => {
                let after_sign = match previous {
                    None => true,
                    Some(Node::Glyph(k)) => k@ == "="@ || k@ == "+"@ || k@ == "-"@ || k@ == "<"@
                        || k@ == ">"@,
                    Some(_) => false,
                };
                if relates(key@) {
                    16_000
                } else if operates(key@) || key@ == "-"@ && !after_sign {
                    12_000
                } else {
                    0
                }
            },
            _ => 0,
        },
{
}

/// Two groups in delimiters stand twenty pixels apart, and a closing bracket ten from an
/// opening one.
pub proof fn law_brackets_have_room<S>(previous: Option<Node<S>>, next: Node<S>)
    ensures
        node::gap_between_groups(previous, next) == match (previous, next) {
            (Some(Node::Delimited(..)), Node::Delimited(..)) => 20_000int,
            (Some(Node::Glyph(a)), Node::Glyph(b)) => if (a@ == ")"@ || a@ == "]"@ || a@ == "|"@)
                && (b@ == "("@ || b@ == "["@ || b@ == "|"@) {
                10_000
            } else {
                0
            },
            _ => 0,
        },
{
}

/// Whether node `i` of a row is a single digit.
pub open spec fn is_digit<S>(nodes: Seq<Node<S>>, i: int) -> bool {
    0 <= i < nodes.len() && (nodes[i] matches Node::Glyph(key) && key@.len() == 1 && '0' <= key@[0]
        <= '9')
}

/// Whether node `i` of a row is a point between two digits.
pub open spec fn is_point<S>(nodes: Seq<Node<S>>, i: int) -> bool {
    &&& 0 < i < nodes.len()
    &&& nodes[i] matches Node::Glyph(key) && key@ == "."@
    &&& is_digit(nodes, i - 1)
    &&& is_digit(nodes, i + 1)
}

/// Digits stand nine pixels further apart than their widths ask for, and eight pixels are
/// left on either side of a decimal point.
pub proof fn law_numbers_have_room<S>(nodes: Seq<Node<S>>, i: int)
    requires
        0 <= i < nodes.len(),
    ensures
        node::digit_gap_at(nodes, i) == if is_digit(nodes, i - 1) && is_digit(nodes, i) {
            9_000int
        } else {
            0
        },
        node::decimal_gap_at(nodes, i) == if is_point(nodes, i) || is_point(nodes, i - 1) {
            8_000int
        } else {
            0
        },
{
}

/// Where node `i` of a row stands when what comes before it is `width` wide.
pub open spec fn place_in_row<S: Scalar>(width: S, nodes: Seq<Node<S>>, i: int) -> S {
    let previous = if i > 0 {
        Some(nodes[i - 1])
    } else {
        None
    };
    width + S::mil(node::padding_of(nodes[i], previous)) + S::mil(
        node::gap_between_groups(previous, nodes[i]),
    ) + S::mil(node::digit_gap_at(nodes, i)) + S::mil(node::decimal_gap_at(nodes, i))
}

/// A row is written part by part. Each is added to the strokes of those before it, on the
/// same baseline, right behind them but for the space between, and the row grows to hold
/// it. An entry may lean towards the stroke before it; then the part is as that leaves it.
pub proof fn law_rows_grow_by_one_part<S: Scalar>(pen: Pen<S>, nodes: Seq<Node<S>>, i: int) -> (r:
    BoxView<S>)
    requires
        0 <= i < nodes.len(),
        layout::row_upto(pen, nodes, (i + 1) as nat).1 is Ok,
    ensures
        ({
            let (p, started) = layout::row_upto(pen, nodes, i as nat);
            let (q, part) = layout::layout_written(p, nodes[i]);
            let out = started->Ok_0;
            let next = layout::row_upto(pen, nodes, (i + 1) as nat);
            let row = next.1->Ok_0;
            let x = place_in_row(out.width, nodes, i);
            let n = out.marks.len() as int;
            &&& started is Ok && part is Ok && next.0 == q
            &&& row.marks.len() == n + r.marks.len()
            &&& row.marks.take(n) == out.marks
            &&& placing::shows(row.marks, n, r.marks, |p: (S, S)| (p.0 + x, p.1 + S::mil(0)))
            &&& row.width == x + r.width + S::mil(
                node::padding_of(nodes[i], if i > 0 { Some(nodes[i - 1]) } else { None }),
            )
            &&& row.above == out.above.larger(r.above)
            &&& row.below == out.below.larger(r.below)
            &&& !row.large
            &&& r == if node::leans_back(nodes, i) && n > 0 && out.marks.last().points.len() > 0 {
                entry::entry_adjusted(part->Ok_0, out.marks.last().points.last(), x)
            } else {
                part->Ok_0
            }
        }),
{
    reveal(compose::row_step);
    let (p, started) = layout::row_upto(pen, nodes, i as nat);
    let b = layout::layout_written(p, nodes[i]).1->Ok_0;
    let out = started->Ok_0;
    let x = place_in_row(out.width, nodes, i);
    assert(compose::place_in_row(out.width, nodes, i) == x);
    let row = layout::row_upto(pen, nodes, (i + 1) as nat).1->Ok_0;
    assert(row.marks.take(out.marks.len() as int) =~= out.marks);
    lemma_rows_are_not_large(pen, nodes, i as nat);
    compose::leaned(out, nodes, i, b, x)
}

proof fn lemma_rows_are_not_large<S: Scalar>(pen: Pen<S>, nodes: Seq<Node<S>>, count: nat)
    ensures
        layout::row_upto(pen, nodes, count).1 matches Ok(b) ==> !b.large,
    decreases count,
{
    if 0 < count <= nodes.len() {
        lemma_rows_are_not_large(pen, nodes, (count - 1) as nat);
        reveal(compose::row_step);
    }
}

/// An entry leans back where a lowercase or uppercase L or a one follows a letter, a digit
/// or a mu, and then it does lean.
pub proof fn law_entries_lean_back_to_letters_and_digits<S: Scalar>(
    out: BoxView<S>,
    nodes: Seq<Node<S>>,
    i: int,
    b: BoxView<S>,
    x: S,
)
    requires
        0 <= i < nodes.len(),
    ensures
        ({
            let tall = nodes[i] matches Node::Glyph(k) && (k@ == "L"@ || k@ == "l"@ || k@ == "1"@);
            let joins = i > 0 && (nodes[i - 1] matches Node::Glyph(k) && (k@ == "\\mu"@ || k@.len()
                == 1 && ('0' <= k@[0] <= '9' || 'a' <= k@[0] <= 'z' || 'A' <= k@[0] <= 'Z')));
            let lifted = out.marks.len() > 0 && out.marks.last().points.len() > 0;
            &&& node::leans_back(nodes, i) <==> tall && joins
            &&& compose::leaned(out, nodes, i, b, x) == if tall && joins && lifted {
                entry::entry_adjusted(b, out.marks.last().points.last(), x)
            } else {
                b
            }
        }),
{
}

/// A row without any part is empty, and a row is all its parts.
pub proof fn law_rows_have_all_their_parts<S: Scalar>(pen: Pen<S>, nodes: Vec<Node<S>>)
    ensures
        layout::row_upto(pen, nodes@, 0) == (
            pen,
            Ok::<BoxView<S>, Seq<char>>(strokes::empty_box()),
        ),
        layout::layout_written(pen, Node::Row(nodes)) == layout::row_upto(
            pen,
            nodes@,
            nodes@.len(),
        ),
{
}

/// A space has its width and nothing in it, and writes nothing.
pub proof fn law_spaces_are_empty<S: Scalar>(pen: Pen<S>, w: S)
    ensures
        layout::layout_written(pen, Node::Space(w)).0 == pen,
        ({
            let b = layout::layout_written(pen, Node::Space(w)).1->Ok_0;
            &&& layout::layout_written(pen, Node::Space(w)).1 is Ok
            &&& b.width == w
            &&& b.marks.len() == 0
            &&& b.above == S::mil(0) && b.below == S::mil(0) && b.script_drop == S::mil(0)
            &&& !b.large
        }),
{
}

/// In thousandths, no part of a row overlaps the box of one before it: each starts at or to
/// the right of where the row ended.
pub proof fn law_parts_of_a_row_do_not_overlap(width: Milli, nodes: Seq<Node<Milli>>, i: int)
    requires
        0 <= i < nodes.len(),
        arithmetic::within(width, 1_000_000_000_000),
    ensures
        width.0 <= compose::place_in_row(width, nodes, i).0 <= width.0 + 56_000,
        compose::place_in_row(width, nodes, i) == place_in_row(width, nodes, i),
{
}

} // verus!
