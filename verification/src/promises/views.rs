//! What the views of a value show is all that it holds.
use crate::compose;
use crate::pen::Layout;
use crate::picture::Picture;
use crate::strokes;
use crate::strokes::{Box2, Mark};
use crate::traces;
use crate::traces::{Trace, TraceView};
use vstd::prelude::*;

verus! {

/// The view of a stroke shows all its points and pressures, and what it is.
pub proof fn law_views_of_strokes_show_all<S>(mark: Mark<S>)
    ensures
        mark@.points == mark.points@,
        mark.pressures matches Some(p) ==> mark@.pressures == Some(p@),
        mark.pressures is None ==> mark@.pressures is None,
        mark@.parenthesis == mark.parenthesis,
        mark@.entry_tail_points == mark.entry_tail_points,
        mark@.entry_taper_length == mark.entry_taper_length,
{
}

/// The view of a box shows all its strokes, in order, and its sides.
pub proof fn law_views_of_boxes_show_all<S>(b: Box2<S>)
    ensures
        b@.marks.len() == b.marks@.len(),
        forall|i: int| 0 <= i < b.marks@.len() ==> #[trigger] b@.marks[i] == b.marks@[i]@,
        b@.marks == strokes::views_of(b.marks@),
        b@.width == b.width && b@.above == b.above && b@.below == b.below,
        b@.script_drop == b.script_drop && b@.large == b.large,
        compose::view_of_option(Some(b)) == Some(b@),
        compose::view_of_option(None::<Box2<S>>) is None,
{
}

/// The view of a row of two cells shows both.
pub proof fn law_views_of_rows_show_all<S>(rows: Seq<(Box2<S>, Option<Box2<S>>)>, i: int)
    requires
        0 <= i < rows.len(),
    ensures
        compose::rows_of(rows).len() == rows.len(),
        compose::rows_of(rows)[i].0 == rows[i].0@,
        rows[i].1 matches Some(b) ==> compose::rows_of(rows)[i].1 == Some(b@),
        rows[i].1 is None ==> compose::rows_of(rows)[i].1 is None,
{
}

/// The view of something drawn shows where it is, through which points it goes and how wide
/// it is.
pub proof fn law_views_of_traces_show_all<S>(trace: Trace<S>)
    ensures
        match trace {
            Trace::Dot { at, width } => trace@ == (TraceView::Dot { at, width }),
            Trace::Line { from, to, width } => trace@ == (TraceView::Line { from, to, width }),
            Trace::Curve { points, width } => trace@ == (TraceView::Curve {
                points: points@,
                width,
            }),
        },
{
}

/// The view of a picture shows its size and everything drawn on it, in order.
pub proof fn law_views_of_pictures_show_all<S>(picture: Picture<S>)
    ensures
        picture@.width == picture.width && picture@.height == picture.height,
        picture@.traces.len() == picture.traces@.len(),
        forall|i: int|
            0 <= i < picture.traces@.len() ==> #[trigger] picture@.traces[i]
                == picture.traces@[i]@,
        picture@.traces == traces::trace_views(picture.traces@),
{
}

/// The view of a pen shows the profile it writes with and all it has counted.
pub proof fn law_views_of_pens_show_all<'a, S>(layout: Layout<'a, S>)
    ensures
        layout@.glyphs == layout.hand.glyphs@,
        layout@.seed == layout.seed,
        layout@.variation == layout.variation,
        layout@.occurrences == layout.occurrences@,
        layout@.placed == layout.placed,
{
}

} // verus!
