//! How a radical is put round its body.
use crate::bits;
use crate::compose;
use crate::exact::lines;
use crate::layout;
use crate::node::Node;
use crate::pen::Pen;
use crate::promises::placing;
use crate::scalar::Scalar;
use crate::strokes;
use crate::strokes::BoxView;
use crate::variation;
use vstd::prelude::*;

verus! {

/// The height of the overline: nine pixels above the body, and at least sixty-five.
pub open spec fn overline<S: Scalar>(body: BoxView<S>) -> S {
    body.above.larger(S::mil(56_000)) + S::mil(9_000)
}

/// The body of a root stands twenty-six pixels to the right under its overline, and the
/// radical is the stroke after it.
pub proof fn law_roots_cover_their_body<S: Scalar>(
    body: BoxView<S>,
    seed: u64,
    varied: bool,
    placed: usize,
)
    ensures
        ({
            let root = compose::root_box(body, seed, varied, placed);
            let cap = overline(body);
            let n = body.marks.len() as int;
            &&& root.width == body.width + S::mil(30_000)
            &&& root.above == cap + S::mil(4_000)
            &&& root.below == body.below.larger(S::mil(13_000))
            &&& !root.large
            &&& root.marks.len() == n + 1
            &&& placing::shows(
                root.marks,
                0,
                body.marks,
                |p: (S, S)| (p.0 + S::mil(26_000), p.1 + S::mil(0)),
            )
            &&& placing::is_line(
                root.marks[n],
                compose::root_points(seed, varied, placed, cap, root.width),
            )
            &&& compose::root_cap(body) == cap
        }),
{
}

/// Without variation a radical goes from its hook down to the foot, on to the bend below
/// the baseline, up to the overline and along it to three pixels before the end.
pub proof fn law_radicals_have_five_corners<S: Scalar>(
    seed: u64,
    placed: usize,
    cap: S,
    width: S,
)
    ensures
        compose::root_points(seed, false, placed, cap, width) == seq![
            (S::mil(1_000), (-cap) * S::mil(450)),
            (S::mil(9_000), (-cap) * S::mil(250)),
            (S::mil(15_000), S::mil(10_000)),
            (S::mil(27_000), -cap),
            (width - S::mil(3_000), -cap),
        ],
{
}

/// The corners of a radical drawn by hand: the foot and the bend are up to 1.8 and 4 pixels
/// to either side, and the bend up to 1.6 up or down.
pub proof fn law_radicals_vary_at_the_foot_and_the_bend<S: Scalar>(
    seed: u64,
    placed: usize,
    cap: S,
    width: S,
)
    ensures
        ({
            let c = compose::root_corners(seed, true, placed, cap, width);
            let b = bits::bits_of_instance(seed, "\\sqrt-bend"@, placed);
            &&& c.hook == (S::mil(1_000), (-cap) * S::mil(450))
            &&& c.foot == (
                S::mil(9_000) + S::mil(1_800) * bits::signed_unit_of::<S>(b),
                (-cap) * S::mil(250),
            )
            &&& c.bend == (
                S::mil(15_000) + S::mil(4_000) * bits::signed_unit_of::<S>(bits::redrawn(b, 17)),
                S::mil(10_000) + S::mil(1_600) * bits::signed_unit_of::<S>(bits::redrawn(b, 31)),
            )
            &&& c.rise == (S::mil(27_000), -cap)
            &&& c.end == (width - S::mil(3_000), -cap)
            &&& compose::root_points(seed, true, placed, cap, width) == compose::root_stroke(
                seed,
                placed,
                c,
            )
        }),
{
}

/// A radical drawn by hand is one stroke of four lines, from the hook to the foot, on to
/// the bend, up to the overline and along it. Each line begins where the one before it
/// ended. A rounded bend leaves the second line early and meets the third late, with six
/// points in between.
pub proof fn law_radicals_are_drawn_line_by_line<S: Scalar>(
    seed: u64,
    placed: usize,
    c: compose::Corners<S>,
) -> (r: ((S, S), (S, S)))
    ensures
        ({
            let all = compose::root_stroke(seed, placed, c);
            let rounded = bits::unit_of::<S>(
                bits::bits_of_instance(seed, "\\sqrt-round"@, placed),
            ) < S::mil(500);
            let (leave, meet) = r;
            let a = variation::drawn_line(seed, placed, "\\sqrt-entry"@, c.hook, c.foot);
            let d = variation::drawn_line(seed, placed, "\\sqrt-down"@, c.foot, leave);
            let u = variation::drawn_line(seed, placed, "\\sqrt-up"@, meet, c.rise);
            let o = variation::drawn_line(seed, placed, "\\sqrtbar"@, c.rise, c.end);
            let up: int = if rounded {
                23
            } else {
                17
            };
            &&& !rounded ==> leave == c.bend && meet == c.bend
            &&& rounded ==> {
                let b = bits::bits_of_instance(seed, "\\sqrt-bend"@, placed);
                let radius = S::mil(10_000) + S::mil(4_000) * bits::unit_of::<S>(
                    bits::redrawn(b, 43),
                );
                let away = |q: (S, S)|
                    {
                        let (dx, dy) = (q.0 - c.bend.0, q.1 - c.bend.1);
                        let share = radius / dx.hypotenuse(dy);
                        (c.bend.0 + dx * share, c.bend.1 + dy * share)
                    };
                &&& leave == away(c.foot) && meet == away(c.rise)
                &&& forall|i: int|
                    17 <= i < 23 ==> {
                        let t = S::counted(i - 16) / S::mil(6_000);
                        let v = S::mil(1_000) - t;
                        #[trigger] all[i] == (
                            v * v * leave.0 + S::mil(2_000) * v * t * c.bend.0 + t * t * meet.0,
                            v * v * leave.1 + S::mil(2_000) * v * t * c.bend.1 + t * t * meet.1,
                        )
                    }
            }
            &&& all.len() == up + 16
            &&& forall|k: int| 0 <= k < 9 ==> #[trigger] all[k] == a[k]
            &&& forall|k: int| 1 <= k < 9 ==> all[8 + k] == #[trigger] d[k]
            &&& forall|k: int| 1 <= k < 9 ==> all[up - 1 + k] == #[trigger] u[k]
            &&& forall|k: int| 1 <= k < 9 ==> all[up + 7 + k] == #[trigger] o[k]
        }),
{
    let b = bits::bits_of_instance(seed, "\\sqrt-bend"@, placed);
    let rounded = bits::unit_of::<S>(bits::bits_of_instance(seed, "\\sqrt-round"@, placed))
        < S::mil(500);
    let radius = S::mil(10_000) + S::mil(4_000) * bits::unit_of::<S>(bits::redrawn(b, 43));
    let before = compose::towards(c.bend, c.foot, radius);
    let after = compose::towards(c.bend, c.rise, radius);
    let (leave, meet) = if rounded {
        (before, after)
    } else {
        (c.bend, c.bend)
    };
    lines::lemma_line_shape(seed, placed, "\\sqrt-entry"@, c.hook, c.foot, 0);
    lines::lemma_line_shape(seed, placed, "\\sqrt-down"@, c.foot, leave, 0);
    lines::lemma_line_shape(seed, placed, "\\sqrt-up"@, meet, c.rise, 0);
    lines::lemma_line_shape(seed, placed, "\\sqrtbar"@, c.rise, c.end, 0);
    (leave, meet)
}

/// The index of a root is scaled by 0.48 and stands in the crook of the radical, three
/// quarters up and a quarter of its width to the left; the root grows to hold it.
pub proof fn law_indices_stand_in_the_crook<S: Scalar>(root: BoxView<S>, cap: S, index: BoxView<S>)
    ensures
        ({
            let b = compose::with_index(root, cap, index);
            let n = root.marks.len() as int;
            &&& b.marks.len() == n + index.marks.len()
            &&& b.marks.take(n) == root.marks
            &&& placing::shows(
                b.marks,
                n,
                index.marks,
                |p: (S, S)| (p.0 + (-index.width) * S::mil(250), p.1 + (-cap) * S::mil(750)),
            )
            &&& b.above == root.above.larger(cap + index.above + S::mil(4_000))
            &&& b.width == root.width && b.below == root.below && b.large == root.large
        }),
{
    let n = root.marks.len() as int;
    assert(compose::with_index(root, cap, index).marks.take(n) =~= root.marks);
}

/// The body of a root is written first, then the radical takes a place, then comes the
/// index.
pub proof fn law_bodies_are_written_before_indices<S: Scalar>(
    pen: Pen<S>,
    index: Option<Box<Node<S>>>,
    body: Box<Node<S>>,
)
    ensures
        ({
            let (p, b) = layout::layout_written(pen, *body);
            let q = Pen { placed: p.placed.wrapping_add(1), ..p };
            let whole = layout::layout_written(pen, Node::Root(index, body));
            let root = compose::root_box(b->Ok_0, p.seed, p.variation, p.placed);
            &&& b matches Err(e) ==> whole == (p, Err::<BoxView<S>, Seq<char>>(e))
            &&& b is Ok && index is None ==> whole == (q, Ok::<BoxView<S>, Seq<char>>(root))
            &&& b is Ok && index is Some ==> {
                let (r, small) = layout::layout_written(q, *index->0);
                match small {
                    Err(e) => whole == (r, Err::<BoxView<S>, Seq<char>>(e)),
                    Ok(small) => whole == (
                        r,
                        Ok::<BoxView<S>, Seq<char>>(
                            compose::with_index(
                                root,
                                overline(b->Ok_0),
                                strokes::box_scaled(small, S::mil(480)),
                            ),
                        ),
                    ),
                }
            }
        }),
{
}

} // verus!
