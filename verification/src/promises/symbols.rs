//! What is written for a single symbol.
use crate::bits;
use crate::entry;
use crate::glyphs;
use crate::glyphs::Slot;
use crate::layout;
use crate::node::Node;
use crate::pen;
use crate::pen::{Hand, Pen};
use crate::profile;
use crate::profile::{Bounds, Glyph, Point, Variant};
use crate::promises::placing;
use crate::prose;
use crate::scalar::Scalar;
use crate::strokes;
use crate::strokes::{Axis, BoxView, MarkView};
use crate::variation;
use vstd::prelude::*;

verus! {

/// A formula that is a single symbol or a text is written as that.
pub proof fn law_symbols_and_texts_are_written_as_they_are<S: Scalar>(pen: Pen<S>, s: String)
    ensures
        layout::layout_written(pen, Node::Glyph(s)) == glyphs::glyph_written(pen, s@),
        layout::layout_written(pen, Node::Text(s)) == prose::text_written(pen, s@),
{
}

/// Whether a key is a bracket or a bar on its own.
pub open spec fn is_bracket(key: Seq<char>) -> bool {
    key == "("@ || key == ")"@ || key == "["@ || key == "]"@ || key == "|"@
}

/// A bracket on its own for which there is no sample is drawn to measure: forty-nine pixels
/// up and nineteen down in a box twenty-two wide, an opening one thirteen from its left
/// edge, any other five.
pub proof fn law_brackets_on_their_own_are_drawn<S: Scalar>(pen: Pen<S>, key: Seq<char>)
    requires
        is_bracket(key),
        profile::parenthesis_width(pen.glyphs, key) is None,
    ensures
        ({
            let (after, r) = glyphs::glyph_written(pen, key);
            let b = r->Ok_0;
            let opening = key == "("@ || key == "["@;
            &&& after == pen
            &&& r is Ok
            &&& b.width == S::mil(22_000)
            &&& b.above == S::mil(49_000) && b.below == S::mil(19_000)
            &&& b.script_drop == S::mil(0) && !b.large
            &&& b.marks == seq![
                glyphs::procedural_mark(
                    Slot {
                        x: S::mil(
                            if opening {
                                13_000
                            } else {
                                5_000
                            },
                        ),
                        up: S::mil(49_000),
                        down: S::mil(19_000),
                        opening,
                    },
                    key,
                ),
            ]
        }),
{
    reveal(glyphs::glyph_written);
    assert(key != "."@) by {
        reveal_strlit(".");
        reveal_strlit("(");
        reveal_strlit(")");
        reveal_strlit("[");
        reveal_strlit("]");
        reveal_strlit("|");
        assert("."@[0] == '.');
    }
    let b = glyphs::glyph_written(pen, key).1->Ok_0;
    let slot = glyphs::literal_slot::<S>(key);
    assert(b.marks =~= seq![glyphs::procedural_mark(slot, key)]);
}

proof fn lemma_dots_are_no_brackets()
    ensures
        !is_bracket("\\cdots"@) && !is_bracket("\\ldots"@),
        !is_bracket("\\iint"@) && !is_bracket("\\iiint"@),
        "\\cdots"@ != "\\ldots"@,
        "\\iint"@ != "\\cdots"@ && "\\iint"@ != "\\ldots"@,
        "\\iiint"@ != "\\cdots"@ && "\\iiint"@ != "\\ldots"@ && "\\iint"@ != "\\iiint"@,
{
    reveal_strlit("(");
    reveal_strlit(")");
    reveal_strlit("[");
    reveal_strlit("]");
    reveal_strlit("|");
    reveal_strlit("\\cdots");
    reveal_strlit("\\ldots");
    reveal_strlit("\\iint");
    reveal_strlit("\\iiint");
    assert("("@.len() == 1 && ")"@.len() == 1 && "["@.len() == 1 && "]"@.len() == 1);
    assert("|"@.len() == 1 && "\\iint"@.len() == 5 && "\\iiint"@.len() == 6);
    assert("\\cdots"@.len() == 6 && "\\ldots"@.len() == 6);
    assert("\\cdots"@[1] == 'c' && "\\ldots"@[1] == 'l' && "\\iiint"@[1] == 'i');
}

/// Three dots are one full stop drawn three times, seventeen pixels apart, in a box
/// forty-five wide: on the baseline, or thirty-one pixels above it for centred ones.
pub proof fn law_three_dots_are_one_stop_drawn_three_times<S: Scalar>(
    pen: Pen<S>,
    centred: bool,
    k: int,
)
    requires
        0 <= k < 3,
    ensures
        ({
            let key = if centred {
                "\\cdots"@
            } else {
                "\\ldots"@
            };
            let (p, dot) = pen::sample_written(pen, "."@);
            let (after, r) = glyphs::glyph_written(pen, key);
            let y = S::mil(
                if centred {
                    -31_000
                } else {
                    0
                },
            );
            &&& after == p
            &&& dot matches Err(e) ==> r == Err::<BoxView<S>, Seq<char>>(e)
            &&& dot matches Ok(d) ==> {
                let b = r->Ok_0;
                let n = d.marks.len() as int;
                &&& r is Ok
                &&& b.width == S::mil(45_000)
                &&& b.above == if centred {
                    S::mil(31_000)
                } else {
                    d.above
                }
                &&& b.below == d.below
                &&& !b.large
                &&& b.marks.len() == 3 * n
                &&& placing::shows(
                    b.marks,
                    k * n,
                    d.marks,
                    |q: (S, S)| (q.0 + S::counted(k) * S::mil(17_000), q.1 + y),
                )
            }
        }),
{
    reveal(glyphs::glyph_written);
    lemma_dots_are_no_brackets();
    if let Ok(d) = pen::sample_written(pen, "."@).1 {
        lemma_copies(
            d.marks,
            3,
            |i: int| S::counted(i) * S::mil(17_000),
            S::mil(
                if centred {
                    -31_000
                } else {
                    0
                },
            ),
            k,
        );
        assert(3 * d.marks.len() == d.marks.len() * 3) by (nonlinear_arith);
    }
}

proof fn lemma_copies<S: Scalar>(
    marks: Seq<MarkView<S>>,
    n: int,
    step: spec_fn(int) -> S,
    y: S,
    k: int,
)
    requires
        0 <= n,
    ensures
        glyphs::copies(marks, n, step, y).len() == n * marks.len(),
        0 <= k < n ==> placing::shows(
            glyphs::copies(marks, n, step, y),
            k * marks.len(),
            marks,
            |q: (S, S)| (q.0 + step(k), q.1 + y),
        ),
    decreases n,
{
    let all = glyphs::copies(marks, n, step, y);
    let m = marks.len() as int;
    if n == 0 {
        assert(n * m == 0) by (nonlinear_arith)
            requires
                n == 0,
        ;
    } else {
        lemma_copies(marks, n - 1, step, y, k);
        let before = glyphs::copies(marks, n - 1, step, y);
        assert(n * m == (n - 1) * m + m) by (nonlinear_arith);
        assert(0 <= k < n ==> 0 <= k * m && (k < n - 1 ==> k * m + m <= (n - 1) * m))
            by (nonlinear_arith)
            requires
                0 <= m,
        ;
        if 0 <= k < n - 1 {
            assert forall|i: int|
                #![trigger marks[i]]
                0 <= i < marks.len() implies placing::is_placed(
                all[k * m + i],
                marks[i],
                |q: (S, S)| (q.0 + step(k), q.1 + y),
            ) by {
                assert(all[k * m + i] == before[k * m + i]);
            }
        }
    }
}

/// Two or three integral signs are one sign drawn so often, each 0.65 of its width further
/// right; the symbol is large.
pub proof fn law_several_integrals_are_one_sign_drawn_so_often<S: Scalar>(
    pen: Pen<S>,
    triple: bool,
    k: int,
)
    requires
        0 <= k < 2 || k == 2 && triple,
    ensures
        ({
            let key = if triple {
                "\\iiint"@
            } else {
                "\\iint"@
            };
            let count: int = if triple {
                3
            } else {
                2
            };
            let (p, sign) = pen::sample_written(pen, "\\int"@);
            let (after, r) = glyphs::glyph_written(pen, key);
            &&& after == p
            &&& sign matches Err(e) ==> r == Err::<BoxView<S>, Seq<char>>(e)
            &&& sign matches Ok(d) ==> {
                let b = r->Ok_0;
                let n = d.marks.len() as int;
                &&& r is Ok
                &&& b.width == d.width + S::counted(count - 1) * (d.width * S::mil(650))
                &&& b.above == d.above && b.below == d.below
                &&& b.large && b.script_drop == S::mil(0)
                &&& b.marks.len() == count * n
                &&& placing::shows(
                    b.marks,
                    k * n,
                    d.marks,
                    |q: (S, S)| (q.0 + S::counted(k) * d.width * S::mil(650), q.1 + S::mil(0)),
                )
            }
        }),
{
    reveal(glyphs::glyph_written);
    lemma_dots_are_no_brackets();
    if let Ok(d) = pen::sample_written(pen, "\\int"@).1 {
        let n: int = if triple {
            3
        } else {
            2
        };
        lemma_copies(d.marks, n, |i: int| S::counted(i) * d.width * S::mil(650), S::mil(0), k);
    }
}

/// Every other symbol is written from its sample.
pub proof fn law_other_symbols_are_written_from_their_sample<S: Scalar>(pen: Pen<S>, key: Seq<char>)
    requires
        !is_bracket(key) || profile::parenthesis_width(pen.glyphs, key) is Some,
        key != "\\cdots"@ && key != "\\ldots"@ && key != "\\iint"@ && key != "\\iiint"@,
    ensures
        glyphs::glyph_written(pen, key) == pen::sample_written(pen, key),
{
    reveal(glyphs::glyph_written);
}

// Samples.

/// Whether a box can be drawn in: its sides are numbers and in order.
pub open spec fn can_be_drawn_in<S: Scalar>(b: Bounds<S>) -> bool {
    &&& b.min_x.finite() && b.max_x.finite() && b.min_y.finite() && b.max_y.finite()
    &&& !(b.max_x < b.min_x) && !(b.max_y < b.min_y)
}

/// A recorded point on the page: from the left edge of its box and the baseline, at 0.48 of
/// its size and with heights counted downwards.
pub open spec fn on_paper<S: Scalar>(b: Bounds<S>, p: Point<S>) -> (S, S) {
    ((p.x - b.min_x) * S::mil(480), (-p.y) * S::mil(480))
}

/// Which faults keep a sample from being written, and with which message: no box, a
/// baseline of its own or no stroke, and a box that cannot be drawn in. A variant without a
/// box uses that of its glyph.
pub proof fn law_faulty_samples_are_named<S: Scalar>(
    pen: Pen<S>,
    key: Seq<char>,
    glyph: Glyph<S>,
    variant: Option<Variant<S>>,
)
    requires
        profile::collected(pen.glyphs, key) == Ok::<Glyph<S>, Seq<char>>(glyph),
        variant == pen::chosen_variant(glyph, pen.seed, pen::occurrence_of(pen, key)),
    ensures
        ({
            let bounds = match variant {
                Some(v) => if v.bbox is Some {
                    v.bbox
                } else {
                    glyph.bbox
                },
                None => glyph.bbox,
            };
            let recorded = match variant {
                Some(v) => v.strokes@,
                None => glyph.strokes@,
            };
            let (after, r) = pen::sample_written(pen, key);
            let raised = variant matches Some(v) && !v.baseline.same(S::mil(0));
            let counted = pen.occurrences.insert(
                key,
                pen::occurrence_of(pen, key).wrapping_add(1),
            );
            &&& after.occurrences == counted
            &&& bounds is None ==> r == Err::<BoxView<S>, Seq<char>>(
                "missing bounding box for glyph "@ + key,
            ) && after.placed == pen.placed
            &&& bounds is Some && (raised || recorded.len() == 0) ==> r == Err::<
                BoxView<S>,
                Seq<char>,
            >("invalid variant for glyph "@ + key) && after.placed == pen.placed
            &&& bounds is Some && !raised && recorded.len() > 0 && !can_be_drawn_in(bounds->0)
                ==> r == Err::<BoxView<S>, Seq<char>>("invalid bounding box for glyph "@ + key)
                && after.placed == pen.placed
            &&& bounds is Some && !raised && recorded.len() > 0 && can_be_drawn_in(bounds->0) ==> {
                &&& after.placed == pen.placed.wrapping_add(1)
                &&& !pen::points_are_finite(pen::page_points(bounds->0, recorded)) ==> r == Err::<
                    BoxView<S>,
                    Seq<char>,
                >("invalid stroke point in "@ + key)
                &&& pen::points_are_finite(pen::page_points(bounds->0, recorded)) ==> r == Ok::<
                    BoxView<S>,
                    Seq<char>,
                >(pen::drawn_sample(pen, key, bounds->0, recorded))
            }
        }),
{
}

/// The points of all strokes of a sample are the points of each, on the page.
pub proof fn law_all_points_of_a_sample_are_on_the_page<S: Scalar>(
    b: Bounds<S>,
    recorded: Seq<Vec<Point<S>>>,
)
    ensures
        pen::points_are_finite(pen::page_points(b, recorded)) <==> forall|i: int, j: int|
            0 <= i < recorded.len() && 0 <= j < recorded[i]@.len() ==> on_paper(
                b,
                #[trigger] recorded[i]@[j],
            ).0.finite() && on_paper(b, recorded[i]@[j]).1.finite(),
    decreases recorded.len(),
{
    if recorded.len() > 0 {
        let before = recorded.drop_last();
        law_all_points_of_a_sample_are_on_the_page(b, before);
        let all = pen::page_points(b, recorded);
        let earlier = pen::page_points(b, before);
        let last = recorded.len() - 1;
        let stroke = pen::page_stroke(b, recorded[last]@);
        assert(all == earlier + stroke);
        if pen::points_are_finite(all) {
            assert forall|k: int| 0 <= k < earlier.len() implies (
            #[trigger] earlier[k]).0.finite() && earlier[k].1.finite() by {
                assert(all[k] == earlier[k]);
            }
            assert(pen::points_are_finite(earlier));
            assert forall|i: int, j: int|
                0 <= i < recorded.len() && 0 <= j < recorded[i]@.len() implies on_paper(
                b,
                #[trigger] recorded[i]@[j],
            ).0.finite() && on_paper(b, recorded[i]@[j]).1.finite() by {
                if i < last {
                    assert(before[i]@[j] == recorded[i]@[j]);
                } else {
                    assert(all[earlier.len() + j] == stroke[j]);
                }
            }
        }
        if forall|i: int, j: int|
            0 <= i < recorded.len() && 0 <= j < recorded[i]@.len() ==> on_paper(
                b,
                #[trigger] recorded[i]@[j],
            ).0.finite() && on_paper(b, recorded[i]@[j]).1.finite() {
            assert forall|i: int, j: int|
                0 <= i < before.len() && 0 <= j < before[i]@.len() implies on_paper(
                b,
                #[trigger] before[i]@[j],
            ).0.finite() && on_paper(b, before[i]@[j]).1.finite() by {
                assert(recorded[i]@[j] == before[i]@[j]);
            }
            assert forall|k: int| 0 <= k < all.len() implies (#[trigger] all[k]).0.finite()
                && all[k].1.finite() by {
                if k < earlier.len() {
                    assert(all[k] == earlier[k]);
                } else {
                    let j = k - earlier.len();
                    assert(recorded[last]@[j] == recorded[last]@[j]);
                    assert(all[k] == on_paper(b, recorded[last]@[j]));
                }
            }
        }
    }
}

/// Where a point of a sample is written: turned about the point on the baseline below the
/// middle of the ink, scaled, and moved off the baseline; or just where it was recorded.
pub open spec fn written_at<S: Scalar>(hand: Hand<S>, p: (S, S)) -> (S, S) {
    match hand.variation {
        None => p,
        Some(v) => {
            let (sine, cosine) = (v.rotation.sine(), v.rotation.cosine());
            let x = p.0 - hand.anchor_x;
            (
                (x * cosine - p.1 * sine) * v.scale_x + hand.anchor_x,
                (x * sine + p.1 * cosine) * v.scale_y + v.baseline_offset + hand.drift,
            )
        },
    }
}

/// Every recorded stroke is written, in order, point by point, and with its pressures where
/// every point has one. With variation a pressure is scaled and held between zero and one.
pub proof fn law_every_recorded_stroke_is_written<S: Scalar>(
    hand: Hand<S>,
    b: Bounds<S>,
    recorded: Seq<Vec<Point<S>>>,
    i: int,
)
    requires
        forall|k: int| 0 <= k < recorded.len() ==> (#[trigger] recorded[k]).len() > 0,
        0 <= i < recorded.len(),
    ensures
        ({
            let marks = pen::written_strokes(hand, b, recorded);
            let stroke = recorded[i]@;
            let m = marks[i];
            let pressed = forall|j: int|
                0 <= j < stroke.len() ==> (#[trigger] stroke[j]).p is Some;
            &&& marks.len() == recorded.len()
            &&& m.points.len() == stroke.len()
            &&& forall|j: int|
                0 <= j < stroke.len() ==> #[trigger] m.points[j] == written_at(
                    hand,
                    on_paper(b, stroke[j]),
                )
            &&& m.pressures is Some <==> pressed
            &&& pressed ==> m.pressures->0.len() == stroke.len() && forall|j: int|
                0 <= j < stroke.len() ==> #[trigger] m.pressures->0[j] == match hand.variation {
                    None => stroke[j].p->0,
                    Some(v) => (stroke[j].p->0 * v.pressure_scale).held(S::mil(0), S::mil(1_000)),
                }
            &&& !m.parenthesis && m.entry_tail_points == 0
            &&& m.entry_taper_length == S::mil(0)
        }),
    decreases recorded.len(),
{
    let before = recorded.drop_last();
    if i < before.len() {
        law_every_recorded_stroke_is_written(hand, b, before, i);
        lemma_as_many_strokes(hand, b, recorded);
    } else {
        lemma_as_many_strokes(hand, b, recorded);
        lemma_as_many_strokes(hand, b, before);
    }
}

proof fn lemma_as_many_strokes<S: Scalar>(
    hand: Hand<S>,
    b: Bounds<S>,
    recorded: Seq<Vec<Point<S>>>,
)
    requires
        forall|k: int| 0 <= k < recorded.len() ==> (#[trigger] recorded[k]).len() > 0,
    ensures
        pen::written_strokes(hand, b, recorded).len() == recorded.len(),
    decreases recorded.len(),
{
    if recorded.len() > 0 {
        assert forall|k: int| 0 <= k < recorded.len() - 1 implies (
        #[trigger] recorded.drop_last()[k]).len() > 0 by {
            assert(recorded[k].len() > 0);
        }
        lemma_as_many_strokes(hand, b, recorded.drop_last());
        assert(recorded[recorded.len() - 1].len() > 0);
    }
}

/// Strokes are written one after the other: one more stroke with points is one more at the
/// end, and leaves those before it as they were.
pub proof fn law_strokes_are_written_one_after_another<S: Scalar>(
    hand: Hand<S>,
    b: Bounds<S>,
    recorded: Seq<Vec<Point<S>>>,
    stroke: Vec<Point<S>>,
)
    requires
        stroke@.len() > 0,
    ensures
        ({
            let before = pen::written_strokes(hand, b, recorded);
            let all = pen::written_strokes(hand, b, recorded.push(stroke));
            &&& all.len() == before.len() + 1
            &&& all.take(before.len() as int) == before
            &&& all.last().points.len() == stroke@.len()
            &&& forall|j: int|
                0 <= j < stroke@.len() ==> #[trigger] all.last().points[j] == written_at(
                    hand,
                    on_paper(b, stroke@[j]),
                )
        }),
        pen::written_strokes(hand, b, Seq::empty()).len() == 0,
{
    let before = pen::written_strokes(hand, b, recorded);
    let all = pen::written_strokes(hand, b, recorded.push(stroke));
    assert(recorded.push(stroke).drop_last() =~= recorded);
    assert(all.take(before.len() as int) =~= before);
}

/// Strokes without any point are left out and change nothing for the others.
pub proof fn law_empty_strokes_are_left_out<S: Scalar>(
    hand: Hand<S>,
    b: Bounds<S>,
    recorded: Seq<Vec<Point<S>>>,
    empty: Vec<Point<S>>,
)
    requires
        empty@.len() == 0,
    ensures
        pen::written_strokes(hand, b, recorded.push(empty)) == pen::written_strokes(
            hand,
            b,
            recorded,
        ),
{
    assert(recorded.push(empty).drop_last() =~= recorded);
}

/// How a sample is written the next time. Every symbol but a delimiter varies, by the seed,
/// the key and how often it was written; it is turned about the middle of its ink and, with
/// variation, follows the drift of the baseline.
pub proof fn law_instances_vary_by_seed_key_and_count<S: Scalar>(
    pen: Pen<S>,
    key: Seq<char>,
    b: Bounds<S>,
    recorded: Seq<Vec<Point<S>>>,
)
    ensures
        ({
            let points = pen::page_points(b, recorded);
            let (low, high) = (
                strokes::lowest(points, Axis::X),
                strokes::highest(points, Axis::X),
            );
            let hand = Hand {
                variation: if pen.variation && !is_bracket(key) {
                    Some(
                        variation::variation_of::<S>(
                            pen.seed,
                            key,
                            pen::occurrence_of(pen, key),
                        ),
                    )
                } else {
                    None
                },
                anchor_x: if low.finite() && high.finite() {
                    (low + high) * S::mil(500)
                } else {
                    S::mil(0)
                },
                drift: if pen.variation {
                    variation::drift_of::<S>(pen.seed, pen.placed)
                } else {
                    S::mil(0)
                },
            };
            pen::plain_marks(pen, key, b, recorded) == pen::written_strokes(hand, b, recorded)
        }),
{
}

/// The box of a sample: without an entry its strokes stay where they were written; the ink
/// decides how wide and high it is, and where there is none, the recorded box does.
pub proof fn law_samples_are_boxed_by_their_ink<S: Scalar>(
    key: Seq<char>,
    b: Bounds<S>,
    marks: Seq<MarkView<S>>,
)
    ensures
        ({
            let o = pen::sample_box(key, b, marks, None);
            &&& o.marks == marks
            &&& o.width == match strokes::extent(marks, Axis::X) {
                Some((l, r)) => (r - l).larger(S::mil(3_000)) + S::mil(4_500),
                None => ((b.max_x - b.min_x) * S::mil(480)).larger(S::mil(3_000)) + S::mil(4_500),
            }
            &&& o.above == match strokes::extent(marks, Axis::Y) {
                Some((t, _)) => (-t).larger(S::mil(0)),
                None => (b.max_y * S::mil(480)).larger(S::mil(0)),
            }
            &&& o.below == match strokes::extent(marks, Axis::Y) {
                Some((_, t)) => t.larger(S::mil(0)),
                None => ((-b.min_y) * S::mil(480)).larger(S::mil(0)),
            }
            &&& o.script_drop == S::mil(0)
            &&& o.large <==> key == "\\int"@ || key == "\\oint"@ || key == "\\sum"@ || key
                == "\\prod"@
        }),
{
}

/// With an entry that reaches out to the left of the box, the ink is moved to the right
/// until it does not; otherwise it stays.
pub proof fn law_entries_are_pulled_in<S: Scalar>(
    key: Seq<char>,
    b: Bounds<S>,
    plain: Seq<MarkView<S>>,
    marks: Seq<MarkView<S>>,
)
    ensures
        ({
            let o = pen::sample_box(key, b, plain, Some(marks));
            &&& o.marks.len() == marks.len()
            &&& strokes::extent(marks, Axis::X) matches Some((l, r)) ==> {
                &&& o.width == (r - l).larger(S::mil(3_000)) + S::mil(4_500)
                &&& l < S::mil(0) ==> placing::shows(
                    o.marks,
                    0,
                    marks,
                    |p: (S, S)| (p.0 - l, p.1),
                )
                &&& !(l < S::mil(0)) ==> o.marks == marks
            }
        }),
{
}

/// A sample is its strokes as they are written, with an entry where it gets one.
pub proof fn law_samples_are_their_strokes<S: Scalar>(
    pen: Pen<S>,
    key: Seq<char>,
    b: Bounds<S>,
    recorded: Seq<Vec<Point<S>>>,
)
    ensures
        ({
            let plain = pen::plain_marks(pen, key, b, recorded);
            let n = pen::occurrence_of(pen, key);
            pen::drawn_sample(pen, key, b, recorded) == pen::sample_box(
                key,
                b,
                plain,
                pen::entry_drawn(pen, key, n, plain),
            )
        }),
{
}

/// An uppercase L that varies gets an entry six times out of ten: where the draw for its
/// tail is below 0.6, on its first stroke that is a free stem end.
pub proof fn law_an_l_gets_its_entry_by_a_draw<S: Scalar>(
    pen: Pen<S>,
    key: Seq<char>,
    occurrence: usize,
    marks: Seq<MarkView<S>>,
)
    ensures
        ({
            let b = bits::bits_of_instance(pen.seed, "L-tail"@, occurrence);
            let drawn = bits::unit_of::<S>(bits::redrawn(b, 17)) < S::mil(600);
            let r = pen::entry_drawn(pen, key, occurrence, marks);
            &&& r is Some ==> pen.variation && key == "L"@ && drawn
            &&& pen.variation && key == "L"@ && drawn && strokes::extent(marks, Axis::Y) is Some
                ==> r == pen::entry_on_first(
                marks,
                0,
                b,
                (strokes::extent(marks, Axis::Y)->0).0,
                (strokes::extent(marks, Axis::Y)->0).1 - (strokes::extent(marks, Axis::Y)->0).0,
            )
        }),
{
    reveal_strlit("L");
    reveal_strlit("-tail");
    reveal_strlit("L-tail");
    assert("L"@ + "-tail"@ =~= "L-tail"@);
}

/// Whether stroke `k` is the first one from index `from` on that is a free stem end.
pub open spec fn is_first_stem<S: Scalar>(
    marks: Seq<MarkView<S>>,
    from: int,
    top: S,
    height: S,
    k: int,
) -> bool {
    &&& from <= k < marks.len()
    &&& entry::join_of(marks[k].points, top, height) is Some
    &&& forall|i: int|
        from <= i < k ==> entry::join_of((#[trigger] marks[i]).points, top, height) is None
}

/// The entry is put on the first stroke that can have one, and no other stroke changes;
/// where none can have one, there is none.
pub proof fn law_the_first_stem_gets_the_entry<S: Scalar>(
    marks: Seq<MarkView<S>>,
    from: int,
    bits: u64,
    top: S,
    height: S,
) -> (k: int)
    requires
        0 <= from <= marks.len(),
    ensures
        match pen::entry_on_first(marks, from, bits, top, height) {
            None => forall|i: int|
                from <= i < marks.len() ==> entry::join_of(
                    (#[trigger] marks[i]).points,
                    top,
                    height,
                ) is None,
            Some(m) => is_first_stem(marks, from, top, height, k) && m == marks.update(
                k,
                entry::entry_added(marks[k], bits, top, height, false)->0,
            ),
        },
    decreases marks.len() - from,
{
    if from == marks.len() {
        0
    } else if entry::entry_added(marks[from], bits, top, height, false) is Some {
        from
    } else {
        let k = law_the_first_stem_gets_the_entry(marks, from + 1, bits, top, height);
        assert(entry::join_of(marks[from].points, top, height) is None);
        k
    }
}

/// Which variant is written: none where the glyph has none, else the one that the seed and
/// the count select.
pub proof fn law_variants_are_selected_by_seed_and_count<S>(
    glyph: Glyph<S>,
    seed: u64,
    occurrence: usize,
)
    ensures
        glyph.variants@.len() == 0 ==> pen::chosen_variant(glyph, seed, occurrence) is None,
        glyph.variants@.len() > 0 && occurrence + glyph.variants@.len() <= usize::MAX
            ==> pen::chosen_variant(glyph, seed, occurrence) == Some(
            glyph.variants@[(occurrence + (seed as usize) as int % glyph.variants@.len() as int)
                % glyph.variants@.len() as int],
        ),
{
    if glyph.variants@.len() > 0 {
        vstd::arithmetic::div_mod::lemma_mod_bound(
            (seed as usize) as int,
            glyph.variants@.len() as int,
        );
    }
}

} // verus!
