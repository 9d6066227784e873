//! What a picture shows.
use crate::canvas;
use crate::ink::InkWeight;
use crate::layout;
use crate::node::Node;
use crate::picture;
use crate::picture::PictureView;
use crate::profile::Glyph;
use crate::scalar::Scalar;
use crate::traces;
use crate::traces::TraceView;
use vstd::prelude::*;

verus! {

/// Whether a trace is another one on a page that is `k` times as large: every coordinate
/// and the width are multiplied.
pub open spec fn is_enlarged<S: Scalar>(large: TraceView<S>, small: TraceView<S>, k: S) -> bool {
    match small {
        TraceView::Dot { at, width } => large == (TraceView::Dot {
            at: (at.0 * k, at.1 * k),
            width: width * k,
        }),
        TraceView::Line { from, to, width } => large == (TraceView::Line {
            from: (from.0 * k, from.1 * k),
            to: (to.0 * k, to.1 * k),
            width: width * k,
        }),
        TraceView::Curve { points: small_points, width: small_width } => match large {
            TraceView::Curve { points, width } => {
                &&& width == small_width * k
                &&& points.len() == small_points.len()
                &&& forall|i: int|
                    0 <= i < points.len() ==> #[trigger] points[i] == (
                        small_points[i].0 * k,
                        small_points[i].1 * k,
                    )
            },
            _ => false,
        },
    }
}

/// A picture shows every stroke of the formula as it is laid out with variation and the
/// given seed, twenty-two pixels from the left and the upper edge, and nothing else; all
/// of it is enlarged by the scale.
pub proof fn law_pictures_show_the_whole_layout<S: Scalar>(
    n: Node<S>,
    glyphs: Map<Seq<char>, Glyph<S>>,
    weight: InkWeight<S>,
    seed: u64,
    scale: u32,
)
    requires
        picture::picture_of(n, glyphs, weight, seed, scale) is Ok,
    ensures
        ({
            let pen = layout::fresh_pen(glyphs, seed, true);
            let laid = layout::layout_written(pen, n).1;
            let shown = picture::picture_of(n, glyphs, weight, seed, scale)->Ok_0.traces;
            let drawn = traces::traces_of(
                laid->Ok_0.marks,
                weight,
                S::mil(22_000) + laid->Ok_0.above,
            );
            &&& laid is Ok
            &&& shown.len() == drawn.len()
            &&& forall|i: int|
                0 <= i < shown.len() ==> is_enlarged(
                    #[trigger] shown[i],
                    drawn[i],
                    S::counted(scale as int),
                )
        }),
{
}

/// A picture is as large as what it shows and a border of twenty-two pixels on every side,
/// enlarged by the scale and rounded up to whole pixels, and at least one pixel.
pub proof fn law_pictures_have_a_border<S: Scalar>(
    n: Node<S>,
    glyphs: Map<Seq<char>, Glyph<S>>,
    weight: InkWeight<S>,
    seed: u64,
    scale: u32,
)
    requires
        picture::picture_of(n, glyphs, weight, seed, scale) is Ok,
    ensures
        ({
            let b = layout::layout_written(layout::fresh_pen(glyphs, seed, true), n).1->Ok_0;
            let p = picture::picture_of(n, glyphs, weight, seed, scale)->Ok_0;
            let k = S::counted(scale as int);
            let border = S::mil(22_000) * S::mil(2_000);
            &&& p.width == ((b.width + border) * k).ceiling().larger(S::mil(1_000)).count()
            &&& p.height == ((b.above + b.below + border) * k).ceiling().larger(
                S::mil(1_000),
            ).count()
        }),
{
}

/// A formula that can be laid out has a picture at every scale from one to sixteen at which
/// no side exceeds sixteen thousand pixels and the area not forty million; at any other the
/// message says so.
pub proof fn law_pictures_of_ordinary_size_are_drawn<S: Scalar>(
    n: Node<S>,
    glyphs: Map<Seq<char>, Glyph<S>>,
    weight: InkWeight<S>,
    seed: u64,
    scale: u32,
)
    requires
        1 <= scale <= 16,
        layout::layout_written(layout::fresh_pen(glyphs, seed, true), n).1 is Ok,
    ensures
        ({
            let b = layout::layout_written(layout::fresh_pen(glyphs, seed, true), n).1->Ok_0;
            let k = S::counted(scale as int);
            let border = S::mil(22_000) * S::mil(2_000);
            let w = ((b.width + border) * k).ceiling().larger(S::mil(1_000));
            let h = ((b.above + b.below + border) * k).ceiling().larger(S::mil(1_000));
            let fits = w.finite() && h.finite() && !(S::counted(16_000) < w) && !(S::counted(16_000)
                < h) && !(S::counted(40_000_000) < w * h) && w.count() <= 16_000 && h.count()
                <= 16_000;
            &&& fits ==> picture::picture_of(n, glyphs, weight, seed, scale) is Ok
            &&& !fits ==> picture::picture_of(n, glyphs, weight, seed, scale) == Err::<
                PictureView<S>,
                Seq<char>,
            >("image dimensions exceed safe limit"@)
        }),
{
}

/// A pen that begins a formula has written nothing yet.
pub proof fn law_fresh_pens_have_written_nothing<S: Scalar>(
    glyphs: Map<Seq<char>, Glyph<S>>,
    seed: u64,
    varied: bool,
)
    ensures
        ({
            let pen = layout::fresh_pen(glyphs, seed, varied);
            &&& pen.glyphs == glyphs && pen.seed == seed && pen.variation == varied
            &&& pen.occurrences == Map::<Seq<char>, usize>::empty()
            &&& pen.placed == 0
        }),
{
}

/// A page that was encoded is handed on as it is; an error is told with what went wrong
/// before it.
pub proof fn law_encoding_errors_are_told(outcome: Result<Seq<u8>, Seq<char>>)
    ensures
        match outcome {
            Ok(bytes) => canvas::reported(outcome) == Ok::<Seq<u8>, Seq<char>>(bytes),
            Err(e) => canvas::reported(outcome) == Err::<Seq<u8>, Seq<char>>(
                "PNG encoding failed: "@ + e,
            ),
        },
{
}

/// A blank page has four bytes of 255 for each pixel.
pub proof fn law_white_is_the_same_in_every_byte(byte: u8, n: nat, i: int)
    requires
        0 <= i < n,
    ensures
        canvas::repeated(byte, n).len() == n,
        canvas::repeated(byte, n)[i] == byte,
{
}

} // verus!
