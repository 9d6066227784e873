//! The parsed formula.
use crate::scalar::Scalar;
use crate::words;
use crate::words::{same_text, single_digit};
use vstd::prelude::*;

verus! {

/// A piece of a formula. Keys are the characters or command names under which glyphs
/// are collected.
pub enum Node<S> {
    Glyph(String),
    Text(String),
    Space(S),
    Row(Vec<Node<S>>),
    /// Numerator and denominator.
    Fraction(Box<Node<S>>, Box<Node<S>>),
    /// Index, if any, and body.
    Root(Option<Box<Node<S>>>, Box<Node<S>>),
    Script { base: Box<Node<S>>, sub: Option<Box<Node<S>>>, sup: Option<Box<Node<S>>> },
    Accent(String, Box<Node<S>>),
    /// Left delimiter, body and right delimiter.
    Delimited(String, Box<Node<S>>, String),
    /// An extensible arrow and its label.
    Arrow(String, Box<Node<S>>),
    /// Rows, each with what stands before and after its alignment mark.
    Aligned(Vec<(Node<S>, Option<Node<S>>)>),
}

/// The extra space between two digits, in thousandths of a pixel.
pub const DIGIT_GAP: i32 = 9_000;

/// The extra space on both sides of a decimal point, in thousandths of a pixel.
pub const DECIMAL_POINT_GAP: i32 = 8_000;

/// Keys of relations and arrows.
pub open spec fn is_relation(key: Seq<char>) -> bool {
    ||| key == "="@
    ||| key == "<"@
    ||| key == ">"@
    ||| key == "\\ne"@
    ||| key == "\\equiv"@
    ||| key == "\\approx"@
    ||| key == "\\simeq"@
    ||| key == "\\sim"@
    ||| key == "\\propto"@
    ||| key == "\\le"@
    ||| key == "\\ge"@
    ||| key == "\\ll"@
    ||| key == "\\gg"@
    ||| key == "\\in"@
    ||| key == "\\notin"@
    ||| key == "\\mid"@
    ||| key == "\\parallel"@
    ||| key == "\\to"@
    ||| key == "\\rightarrow"@
    ||| key == "\\longrightarrow"@
    ||| key == "\\leftarrow"@
    ||| key == "\\longleftarrow"@
    ||| key == "\\leftrightarrow"@
    ||| key == "\\Rightarrow"@
    ||| key == "\\Longrightarrow"@
    ||| key == "\\Leftarrow"@
    ||| key == "\\Leftrightarrow"@
    ||| key == "\\mapsto"@
    ||| key == "\\uparrow"@
    ||| key == "\\downarrow"@
    ||| key == "\\rightleftharpoons"@
}

/// Keys of binary operators that are one everywhere.
pub open spec fn is_operator(key: Seq<char>) -> bool {
    ||| key == "+"@
    ||| key == "*"@
    ||| key == "/"@
    ||| key == "\\times"@
    ||| key == "\\cdot"@
    ||| key == "\\div"@
    ||| key == "\\pm"@
    ||| key == "\\mp"@
    ||| key == "\\ast"@
    ||| key == "\\oplus"@
    ||| key == "\\otimes"@
}

/// Keys after which a minus is a sign, not an operator.
pub open spec fn takes_sign(key: Seq<char>) -> bool {
    key == "="@ || key == "+"@ || key == "-"@ || key == "<"@ || key == ">"@
}

/// Whether a minus after `previous` subtracts.
pub open spec fn subtracts<S>(previous: Option<Node<S>>) -> bool {
    match previous {
        None => false,
        Some(Node::Glyph(key)) => !takes_sign(key@),
        Some(_) => true,
    }
}

/// The space on both sides of a node, in thousandths of a pixel.
pub open spec fn padding_of<S>(node: Node<S>, previous: Option<Node<S>>) -> int {
    match node {
        Node::Arrow(..) => 19_000,
        Node::Glyph(key) => if is_relation(key@) {
            16_000
        } else if is_operator(key@) {
            12_000
        } else if key@ == "-"@ && subtracts(previous) {
            12_000
        } else {
            0
        },
        _ => 0,
    }
}

/// The extra space between two groups in delimiters, in thousandths of a pixel.
pub open spec fn gap_between_groups<S>(previous: Option<Node<S>>, next: Node<S>) -> int {
    match (previous, next) {
        (Some(Node::Delimited(..)), Node::Delimited(..)) => 20_000,
        (Some(Node::Glyph(a)), Node::Glyph(b)) => if (a@ == ")"@ || a@ == "]"@ || a@ == "|"@) && (b@
            == "("@ || b@ == "["@ || b@ == "|"@) {
            10_000
        } else {
            0
        },
        _ => 0,
    }
}

/// Whether the node is a single digit.
pub open spec fn is_digit_node<S>(node: Node<S>) -> bool {
    node matches Node::Glyph(key) && words::is_digit_key(key@)
}

/// Whether the node is a full stop.
pub open spec fn is_point_node<S>(node: Node<S>) -> bool {
    node matches Node::Glyph(key) && key@ == "."@
}

/// Whether node `i` is a point between two digits.
pub open spec fn is_decimal_point<S>(nodes: Seq<Node<S>>, i: int) -> bool {
    &&& 0 < i < nodes.len() - 1
    &&& is_point_node(nodes[i])
    &&& is_digit_node(nodes[i - 1])
    &&& is_digit_node(nodes[i + 1])
}

/// The node before node `i`.
pub open spec fn node_before<S>(nodes: Seq<Node<S>>, i: int) -> Option<Node<S>> {
    if 0 < i <= nodes.len() {
        Some(nodes[i - 1])
    } else {
        None
    }
}

/// The extra space before a digit that follows a digit, in thousandths of a pixel.
pub open spec fn digit_gap_at<S>(nodes: Seq<Node<S>>, i: int) -> int {
    if i > 0 && is_digit_node(nodes[i - 1]) && is_digit_node(nodes[i]) {
        DIGIT_GAP as int
    } else {
        0
    }
}

/// The extra space before a decimal point and after it, in thousandths of a pixel.
pub open spec fn decimal_gap_at<S>(nodes: Seq<Node<S>>, i: int) -> int {
    if is_decimal_point(nodes, i) || is_decimal_point(nodes, i - 1) {
        DECIMAL_POINT_GAP as int
    } else {
        0
    }
}

/// Whether node `i` may lean its entry towards the stroke before it.
pub open spec fn leans_back<S>(nodes: Seq<Node<S>>, i: int) -> bool {
    &&& nodes[i] matches Node::Glyph(key) && (key@ == "L"@ || key@ == "l"@ || key@ == "1"@)
    &&& i > 0
    &&& nodes[i - 1] matches Node::Glyph(key) && (words::is_alphanumeric_key(key@) || key@
        == "\\mu"@)
}

/// Literal delimiters.
pub open spec fn is_delimiter_key(key: Seq<char>) -> bool {
    key == "("@ || key == ")"@ || key == "["@ || key == "]"@ || key == "|"@
}

/// Whether a key is a literal delimiter.
pub fn is_delimiter(key: &str) -> (r: bool)
    ensures
        r == is_delimiter_key(key@),
{
    same_text(key, "(") || same_text(key, ")") || same_text(key, "[") || same_text(key, "]")
        || same_text(key, "|")
}

fn relation(key: &str) -> (r: bool)
    ensures
        r == is_relation(key@),
{
    same_text(key, "=") || same_text(key, "<") || same_text(key, ">") || same_text(key, "\\ne")
        || same_text(key, "\\equiv") || same_text(key, "\\approx") || same_text(key, "\\simeq")
        || same_text(key, "\\sim") || same_text(key, "\\propto") || same_text(key, "\\le")
        || same_text(key, "\\ge") || same_text(key, "\\ll") || same_text(key, "\\gg") || same_text(
        key,
        "\\in",
    ) || same_text(key, "\\notin") || same_text(key, "\\mid") || same_text(key, "\\parallel")
        || same_text(key, "\\to") || same_text(key, "\\rightarrow") || same_text(
        key,
        "\\longrightarrow",
    ) || same_text(key, "\\leftarrow") || same_text(key, "\\longleftarrow") || same_text(
        key,
        "\\leftrightarrow",
    ) || same_text(key, "\\Rightarrow") || same_text(key, "\\Longrightarrow") || same_text(
        key,
        "\\Leftarrow",
    ) || same_text(key, "\\Leftrightarrow") || same_text(key, "\\mapsto") || same_text(
        key,
        "\\uparrow",
    ) || same_text(key, "\\downarrow") || same_text(key, "\\rightleftharpoons")
}

fn operator(key: &str) -> (r: bool)
    ensures
        r == is_operator(key@),
{
    same_text(key, "+") || same_text(key, "*") || same_text(key, "/") || same_text(key, "\\times")
        || same_text(key, "\\cdot") || same_text(key, "\\div") || same_text(key, "\\pm")
        || same_text(key, "\\mp") || same_text(key, "\\ast") || same_text(key, "\\oplus")
        || same_text(key, "\\otimes")
}

fn minus_subtracts<S: Scalar>(previous: Option<&Node<S>>) -> (r: bool)
    ensures
        r == subtracts(
            match previous {
                Some(p) => Some(*p),
                None => None,
            },
        ),
{
    match previous {
        None => false,
        Some(Node::Glyph(key)) => {
            let key = key.as_str();
            !(same_text(key, "=") || same_text(key, "+") || same_text(key, "-") || same_text(
                key,
                "<",
            ) || same_text(key, ">"))
        },
        Some(_) => true,
    }
}

/// The node behind an optional reference.
pub open spec fn referred<S>(node: Option<&Node<S>>) -> Option<Node<S>> {
    match node {
        Some(n) => Some(*n),
        None => None,
    }
}

/// The space on both sides of a node.
pub fn operator_padding<S: Scalar>(node: &Node<S>, previous: Option<&Node<S>>) -> (r: S)
    ensures
        r == S::mil(padding_of(*node, referred(previous))),
{
    match node {
        Node::Arrow(..) => S::milli(19_000),
        Node::Glyph(key) => {
            let key = key.as_str();
            if relation(key) {
                S::milli(16_000)
            } else if operator(key) {
                S::milli(12_000)
            } else if same_text(key, "-") && minus_subtracts(previous) {
                S::milli(12_000)
            } else {
                S::milli(0)
            }
        },
        _ => S::milli(0),
    }
}

/// The extra space between two groups in delimiters.
pub fn delimiter_gap<S: Scalar>(previous: Option<&Node<S>>, next: &Node<S>) -> (r: S)
    ensures
        r == S::mil(gap_between_groups(referred(previous), *next)),
{
    match (previous, next) {
        (Some(Node::Delimited(..)), Node::Delimited(..)) => S::milli(20_000),
        (Some(Node::Glyph(a)), Node::Glyph(b)) => {
            let a = a.as_str();
            let b = b.as_str();
            if (same_text(a, ")") || same_text(a, "]") || same_text(a, "|")) && (same_text(b, "(")
                || same_text(b, "[") || same_text(b, "|")) {
                S::milli(10_000)
            } else {
                S::milli(0)
            }
        },
        _ => S::milli(0),
    }
}

/// Whether a node is a single digit.
pub fn digit_glyph<S: Scalar>(node: &Node<S>) -> (r: bool)
    ensures
        r == is_digit_node(*node),
{
    match node {
        Node::Glyph(key) => single_digit(key.as_str()),
        _ => false,
    }
}

/// Whether the node at `index` is a point inside a number.
pub fn decimal_point_at<S: Scalar>(nodes: &Vec<Node<S>>, index: usize) -> (r: bool)
    ensures
        r == is_decimal_point(nodes@, index as int),
{
    if index == 0 || index >= nodes.len() || index == nodes.len() - 1 {
        return false;
    }
    let point = match &nodes[index] {
        Node::Glyph(key) => same_text(key.as_str(), "."),
        _ => false,
    };
    point && digit_glyph(&nodes[index - 1]) && digit_glyph(&nodes[index + 1])
}

/// The extra space before node `i` in a number: between digits, and round a decimal
/// point. Both in the order in which they are added.
pub fn number_gaps<S: Scalar>(nodes: &Vec<Node<S>>, i: usize) -> (r: (S, S))
    requires
        i < nodes.len(),
    ensures
        r.0 == S::mil(digit_gap_at(nodes@, i as int)),
        r.1 == S::mil(decimal_gap_at(nodes@, i as int)),
{
    let digit_gap = if i > 0 && digit_glyph(&nodes[i - 1]) && digit_glyph(&nodes[i]) {
        S::milli(DIGIT_GAP)
    } else {
        S::milli(0)
    };
    let decimal_gap = if decimal_point_at(nodes, i) || (i > 0 && decimal_point_at(nodes, i - 1)) {
        S::milli(DECIMAL_POINT_GAP)
    } else {
        S::milli(0)
    };
    (digit_gap, decimal_gap)
}

/// Whether node `i` may lean its entry towards the stroke before it.
pub fn may_lean_back<S: Scalar>(nodes: &Vec<Node<S>>, i: usize) -> (r: bool)
    requires
        i < nodes.len(),
    ensures
        r == leans_back(nodes@, i as int),
{
    if i == 0 {
        return false;
    }
    let stem = match &nodes[i] {
        Node::Glyph(key) => {
            let key = key.as_str();
            same_text(key, "L") || same_text(key, "l") || same_text(key, "1")
        },
        _ => false,
    };
    let letter = match &nodes[i - 1] {
        Node::Glyph(key) => {
            let key = key.as_str();
            words::single_alphanumeric(key) || same_text(key, "\\mu")
        },
        _ => false,
    };
    stem && letter
}

} // verus!
