//! Where the strokes of a part come to stand in the whole.
use crate::compose;
use crate::scalar::Scalar;
use crate::strokes;
use crate::strokes::{BoxView, MarkView};
use vstd::prelude::*;

verus! {

/// Whether a stroke is another one with every point put where `place` says, and with
/// nothing else changed.
pub open spec fn is_placed<S>(
    mark: MarkView<S>,
    part: MarkView<S>,
    place: spec_fn((S, S)) -> (S, S),
) -> bool {
    &&& mark.points.len() == part.points.len()
    &&& forall|j: int|
        0 <= j < part.points.len() ==> #[trigger] mark.points[j] == place(part.points[j])
    &&& mark.pressures == part.pressures
    &&& mark.parenthesis == part.parenthesis
    &&& mark.entry_tail_points == part.entry_tail_points
    &&& mark.entry_taper_length == part.entry_taper_length
}

/// Whether some strokes are, from the `first` one on, those of a part with every point put
/// where `place` says.
pub open spec fn shows<S>(
    all: Seq<MarkView<S>>,
    first: int,
    part: Seq<MarkView<S>>,
    place: spec_fn((S, S)) -> (S, S),
) -> bool {
    &&& 0 <= first && first + part.len() <= all.len()
    &&& forall|i: int|
        #![trigger part[i]]
        0 <= i < part.len() ==> is_placed(all[first + i], part[i], place)
}

/// Whether a stroke is a plain line through some points: without pressures of its own,
/// without an entry, and no parenthesis.
pub open spec fn is_line<S: Scalar>(mark: MarkView<S>, points: Seq<(S, S)>) -> bool {
    &&& mark.points == points
    &&& mark.pressures is None
    &&& !mark.parenthesis
    &&& mark.entry_tail_points == 0
    &&& mark.entry_taper_length == S::mil(0)
}

/// Moving a box moves every point of it by the same amount and keeps its size.
pub proof fn law_moving_moves_every_point<S: Scalar>(b: BoxView<S>, x: S, y: S)
    ensures
        ({
            let moved = strokes::box_moved(b, x, y);
            &&& moved.marks.len() == b.marks.len()
            &&& shows(moved.marks, 0, b.marks, |p: (S, S)| (p.0 + x, p.1 + y))
            &&& moved.width == b.width && moved.above == b.above && moved.below == b.below
            &&& moved.script_drop == b.script_drop && moved.large == b.large
        }),
{
}

/// Scaling a box multiplies every coordinate and every side of it.
pub proof fn law_scaling_multiplies_every_side<S: Scalar>(b: BoxView<S>, factor: S)
    ensures
        ({
            let scaled = strokes::box_scaled(b, factor);
            &&& scaled.marks.len() == b.marks.len()
            &&& shows(scaled.marks, 0, b.marks, |p: (S, S)| (p.0 * factor, p.1 * factor))
            &&& scaled.width == b.width * factor
            &&& scaled.above == b.above * factor && scaled.below == b.below * factor
            &&& scaled.script_drop == b.script_drop * factor && scaled.large == b.large
        }),
{
}

/// Stretching a box multiplies its heights and leaves its width alone.
pub proof fn law_stretching_multiplies_the_heights<S: Scalar>(b: BoxView<S>, factor: S)
    ensures
        ({
            let tall = strokes::box_stretched(b, factor);
            &&& tall.marks.len() == b.marks.len()
            &&& shows(tall.marks, 0, b.marks, |p: (S, S)| (p.0, p.1 * factor))
            &&& tall.width == b.width
            &&& tall.above == b.above * factor && tall.below == b.below * factor
            &&& tall.script_drop == b.script_drop * factor && tall.large == b.large
        }),
{
}

/// A subscript is written half as large as its base, two fifths as large under an
/// integral sign, and a superscript a tenth larger than that; both are a little flattened.
pub proof fn law_scripts_are_small<S: Scalar>(b: BoxView<S>, integral: bool)
    ensures
        ({
            let f = S::mil(if integral { 400 } else { 500 });
            let sub = compose::sub_sized(b, integral);
            &&& sub.marks.len() == b.marks.len()
            &&& shows(sub.marks, 0, b.marks, |p: (S, S)| (p.0 * f, p.1 * f * S::mil(820)))
            &&& sub.width == b.width * f
            &&& sub.above == b.above * f * S::mil(820)
            &&& sub.below == b.below * f * S::mil(820)
            &&& sub.script_drop == b.script_drop * f * S::mil(820)
        }),
        ({
            let f = S::mil(if integral { 440 } else { 550 });
            let sup = compose::sup_sized(b, integral);
            &&& sup.marks.len() == b.marks.len()
            &&& shows(sup.marks, 0, b.marks, |p: (S, S)| (p.0 * f, p.1 * f * S::mil(850)))
            &&& sup.width == b.width * f
            &&& sup.above == b.above * f * S::mil(850)
            &&& sup.below == b.below * f * S::mil(850)
            &&& sup.script_drop == b.script_drop * f * S::mil(850)
        }),
{
}

} // verus!
