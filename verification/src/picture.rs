//! A formula as a picture: its size in pixels, and everything that is drawn on it.
use crate::ink::InkWeight;
use crate::layout;
use crate::node::Node;
use crate::pen::Layout;
use crate::profile::{Glyph, Handwriting, RenderError};
use crate::scalar::Scalar;
use crate::strokes::BoxView;
use crate::traces;
use crate::traces::{draw, enlarge, Trace, TraceView, MARGIN};
use vstd::prelude::*;

verus! {

/// The largest factor by which a picture is enlarged.
pub const MAX_SCALE: u32 = 16;

/// The most pixels along one side of a picture.
pub const MAX_SIDE: usize = 16_000;

/// The most pixels of a picture.
pub const MAX_AREA: usize = 40_000_000;

/// A picture: black traces on a white page.
pub struct Picture<S> {
    pub width: u32,
    pub height: u32,
    pub traces: Vec<Trace<S>>,
}

/// What a [`Picture`] holds.
pub struct PictureView<S> {
    pub width: u32,
    pub height: u32,
    pub traces: Seq<TraceView<S>>,
}

impl<S> View for Picture<S> {
    type V = PictureView<S>;

    open spec fn view(&self) -> PictureView<S> {
        PictureView {
            width: self.width,
            height: self.height,
            traces: traces::trace_views(self.traces@),
        }
    }
}

/// The pixels along a side that holds an extent and the border on both ends.
pub open spec fn page_side<S: Scalar>(extent: S, k: S) -> S {
    ((extent + S::mil(MARGIN as int) * S::mil(2_000)) * k).ceiling().larger(S::mil(1_000))
}

/// Whether a page is too large to be drawn.
pub open spec fn exceeds_limits<S: Scalar>(w: S, h: S) -> bool {
    ||| !w.finite()
    ||| !h.finite()
    ||| S::counted(MAX_SIDE as int) < w
    ||| S::counted(MAX_SIDE as int) < h
    ||| S::counted(MAX_AREA as int) < w * h
    ||| w.count() > MAX_SIDE
    ||| h.count() > MAX_SIDE
}

/// What is drawn for a laid-out formula at its ordinary size.
pub open spec fn plan<S: Scalar>(b: BoxView<S>, ink: InkWeight<S>) -> Seq<TraceView<S>> {
    traces::traces_of(b.marks, ink, S::mil(MARGIN as int) + b.above)
}

/// The picture of a formula, or why there is none.
pub open spec fn picture_of<S: Scalar>(
    n: Node<S>,
    glyphs: Map<Seq<char>, Glyph<S>>,
    ink: InkWeight<S>,
    seed: u64,
    scale: u32,
) -> Result<PictureView<S>, Seq<char>> {
    if !(1 <= scale <= MAX_SCALE) {
        Err("output scale must be between 1 and 16"@)
    } else {
        match layout::layout_written(layout::fresh_pen(glyphs, seed, true), n).1 {
            Err(e) => Err(e),
            Ok(b) => {
                let k = S::counted(scale as int);
                let w = page_side(b.width, k);
                let h = page_side(b.above + b.below, k);
                if exceeds_limits(w, h) {
                    Err("image dimensions exceed safe limit"@)
                } else {
                    Ok(
                        PictureView {
                            width: w.count() as u32,
                            height: h.count() as u32,
                            traces: traces::all_enlarged(plan(b, ink), k),
                        },
                    )
                }
            },
        }
    }
}

/// The picture of a formula.
pub fn png<S: Scalar>(node: &Node<S>, handwriting: &Handwriting<S>) -> (r: Result<
    Picture<S>,
    RenderError,
>)
    ensures
        match r {
            Ok(p) => picture_of(*node, handwriting.glyphs@, handwriting.ink, 0, 1) == Ok::<
                PictureView<S>,
                Seq<char>,
            >(p@) && p.width <= MAX_SIDE && p.height <= MAX_SIDE,
            Err(e) => picture_of(*node, handwriting.glyphs@, handwriting.ink, 0, 1) == Err::<
                PictureView<S>,
                Seq<char>,
            >(e.0@),
        },
{
    png_with_seed(node, handwriting, 0)
}

/// The picture of a formula. The seed selects the sample that each glyph starts with, and
/// how every instance varies.
pub fn png_with_seed<S: Scalar>(node: &Node<S>, handwriting: &Handwriting<S>, seed: u64) -> (r:
    Result<Picture<S>, RenderError>)
    ensures
        match r {
            Ok(p) => picture_of(*node, handwriting.glyphs@, handwriting.ink, seed, 1) == Ok::<
                PictureView<S>,
                Seq<char>,
            >(p@) && p.width <= MAX_SIDE && p.height <= MAX_SIDE,
            Err(e) => picture_of(*node, handwriting.glyphs@, handwriting.ink, seed, 1) == Err::<
                PictureView<S>,
                Seq<char>,
            >(e.0@),
        },
{
    png_with_seed_scaled(node, handwriting, seed, 1)
}

/// The picture of a formula, `scale` times as large with the same stroke layout.
pub fn png_with_seed_scaled<S: Scalar>(
    node: &Node<S>,
    handwriting: &Handwriting<S>,
    seed: u64,
    scale: u32,
) -> (r: Result<Picture<S>, RenderError>)
    ensures
        match r {
            Ok(p) => picture_of(*node, handwriting.glyphs@, handwriting.ink, seed, scale) == Ok::<
                PictureView<S>,
                Seq<char>,
            >(p@) && p.width <= MAX_SIDE && p.height <= MAX_SIDE,
            Err(e) => picture_of(*node, handwriting.glyphs@, handwriting.ink, seed, scale)
                == Err::<PictureView<S>, Seq<char>>(e.0@),
        },
{
    if scale < 1 || scale > MAX_SCALE {
        return Err(RenderError("output scale must be between 1 and 16".to_owned()));
    }
    let k = S::whole(scale as usize);
    let mut engine = Layout::new(handwriting, seed, true);
    let b = match engine.layout(node) {
        Ok(b) => b,
        Err(e) => return Err(e),
    };
    let margin = S::milli(MARGIN);
    let border = margin.times(S::milli(2_000));
    let w = b.width.plus(border).times(k).ceil().max(S::milli(1_000));
    let h = b.above.plus(b.below).plus(border).times(k).ceil().max(S::milli(1_000));
    let most = S::whole(MAX_SIDE);
    let (columns, rows) = (w.to_count(), h.to_count());
    if !w.is_finite() || !h.is_finite() || most.lt(w) || most.lt(h) || S::whole(MAX_AREA).lt(
        w.times(h),
    ) || columns > MAX_SIDE || rows > MAX_SIDE {
        return Err(RenderError("image dimensions exceed safe limit".to_owned()));
    }
    let width: u32 = columns as u32;
    let height: u32 = rows as u32;
    let top = margin.plus(b.above);
    let traces = enlarge(draw(b.marks, handwriting.ink, top), k);
    Ok(Picture { width, height, traces })
}

/// At every scale the same strokes are drawn: two pictures of one formula, written with
/// one seed, enlarge the same plan.
pub proof fn law_scale_keeps_the_layout<S: Scalar>(
    n: Node<S>,
    glyphs: Map<Seq<char>, Glyph<S>>,
    ink: InkWeight<S>,
    seed: u64,
    scale: u32,
    other: u32,
)
    requires
        picture_of(n, glyphs, ink, seed, scale) is Ok,
        picture_of(n, glyphs, ink, seed, other) is Ok,
    ensures
        exists|p: Seq<TraceView<S>>|
            picture_of(n, glyphs, ink, seed, scale)->Ok_0.traces == #[trigger] traces::all_enlarged(
                p,
                S::counted(scale as int),
            ) && picture_of(n, glyphs, ink, seed, other)->Ok_0.traces == traces::all_enlarged(
                p,
                S::counted(other as int),
            ),
{
    let b = layout::layout_written(layout::fresh_pen(glyphs, seed, true), n).1->Ok_0;
    let p = plan(b, ink);
    assert(picture_of(n, glyphs, ink, seed, scale)->Ok_0.traces == traces::all_enlarged(
        p,
        S::counted(scale as int),
    ));
}

/// A scale outside of 1 to 16 is refused, whatever the formula is.
pub proof fn law_scale_is_limited<S: Scalar>(
    n: Node<S>,
    glyphs: Map<Seq<char>, Glyph<S>>,
    ink: InkWeight<S>,
    seed: u64,
    scale: u32,
)
    requires
        scale == 0 || scale > 16,
    ensures
        picture_of(n, glyphs, ink, seed, scale) == Err::<PictureView<S>, Seq<char>>(
            "output scale must be between 1 and 16"@,
        ),
{
}

} // verus!
