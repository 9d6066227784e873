//! Strokes laid out on the page, and the boxes that hold them.
use crate::scalar::Scalar;
use vstd::prelude::*;

verus! {

/// One pen stroke, in pixels, y growing downwards from the baseline.
pub struct Mark<S> {
    pub points: Vec<(S, S)>,
    pub pressures: Option<Vec<S>>,
    pub parenthesis: bool,
    /// Number of generated entry points before the captured downstroke.
    pub entry_tail_points: usize,
    pub entry_taper_length: S,
}

/// What a [`Mark`] holds.
#[verifier::ext_equal]
pub struct MarkView<S> {
    pub points: Seq<(S, S)>,
    pub pressures: Option<Seq<S>>,
    pub parenthesis: bool,
    pub entry_tail_points: usize,
    pub entry_taper_length: S,
}

/// A laid-out piece of a formula: its extent round the baseline and its strokes.
pub struct Box2<S> {
    pub width: S,
    pub above: S,
    pub below: S,
    /// Depth below this box's own baseline of the deepest subscript baseline,
    /// zero when the box holds no subscripts. Fractions use it to put the bar
    /// under the writing line, so descenders cross the bar while subscripts
    /// rest on it. The lower limit of a large symbol is no subscript.
    pub script_drop: S,
    pub marks: Vec<Mark<S>>,
    pub large: bool,
}

/// What a [`Box2`] holds.
#[verifier::ext_equal]
pub struct BoxView<S> {
    pub width: S,
    pub above: S,
    pub below: S,
    pub script_drop: S,
    pub marks: Seq<MarkView<S>>,
    pub large: bool,
}

/// One of the two directions on the page.
#[derive(Clone, Copy, PartialEq, Eq, Structural)]
pub enum Axis {
    X,
    Y,
}

/// What an optional vector holds.
pub open spec fn seq_of_option<T>(v: Option<Vec<T>>) -> Option<Seq<T>> {
    match v {
        Some(v) => Some(v@),
        None => None,
    }
}

impl<S> View for Mark<S> {
    type V = MarkView<S>;

    open spec fn view(&self) -> MarkView<S> {
        MarkView {
            points: self.points@,
            pressures: seq_of_option(self.pressures),
            parenthesis: self.parenthesis,
            entry_tail_points: self.entry_tail_points,
            entry_taper_length: self.entry_taper_length,
        }
    }
}

/// What a sequence of marks holds.
pub open spec fn views_of<S>(marks: Seq<Mark<S>>) -> Seq<MarkView<S>> {
    Seq::new(marks.len(), |i: int| marks[i]@)
}

impl<S> View for Box2<S> {
    type V = BoxView<S>;

    open spec fn view(&self) -> BoxView<S> {
        BoxView {
            width: self.width,
            above: self.above,
            below: self.below,
            script_drop: self.script_drop,
            marks: views_of(self.marks@),
            large: self.large,
        }
    }
}

/// Every point has its pressure where there are pressures at all, and a generated
/// entry leads into a captured point.
pub open spec fn mark_is_sound<S>(mark: MarkView<S>) -> bool {
    &&& mark.pressures matches Some(p) ==> p.len() == mark.points.len()
    &&& mark.entry_tail_points > 0 ==> mark.entry_tail_points < mark.points.len()
}

/// All marks of the sequence are sound.
pub open spec fn marks_are_sound<S>(marks: Seq<MarkView<S>>) -> bool {
    forall|i: int| 0 <= i < marks.len() ==> mark_is_sound(#[trigger] marks[i])
}

/// A mark through the given points, drawn with ordinary pressure.
pub open spec fn plain_mark<S: Scalar>(points: Seq<(S, S)>) -> MarkView<S> {
    MarkView {
        points,
        pressures: None,
        parenthesis: false,
        entry_tail_points: 0,
        entry_taper_length: S::mil(0),
    }
}

/// The pressure along a procedural parenthesis: light at both ends.
pub open spec fn parenthesis_pressure<S: Scalar>(i: int, count: int) -> S {
    S::mil(150) + S::mil(380) * (S::half_turn() * S::counted(i) / S::counted(count - 1)).sine()
}

/// A procedural parenthesis through the given points.
pub open spec fn parenthesis_mark<S: Scalar>(points: Seq<(S, S)>) -> MarkView<S> {
    MarkView {
        points,
        pressures: Some(
            Seq::new(points.len(), |i: int| parenthesis_pressure::<S>(i, points.len() as int)),
        ),
        parenthesis: true,
        entry_tail_points: 0,
        entry_taper_length: S::mil(0),
    }
}

/// The points moved by `x` and `y`.
pub open spec fn points_moved<S: Scalar>(points: Seq<(S, S)>, x: S, y: S) -> Seq<(S, S)> {
    Seq::new(points.len(), |i: int| (points[i].0 + x, points[i].1 + y))
}

/// The points scaled about the origin.
pub open spec fn points_scaled<S: Scalar>(points: Seq<(S, S)>, factor: S) -> Seq<(S, S)> {
    Seq::new(points.len(), |i: int| (points[i].0 * factor, points[i].1 * factor))
}

/// The points scaled about the baseline, downwards only.
pub open spec fn points_stretched<S: Scalar>(points: Seq<(S, S)>, factor: S) -> Seq<(S, S)> {
    Seq::new(points.len(), |i: int| (points[i].0, points[i].1 * factor))
}

/// The mark with other points.
pub open spec fn with_points<S>(mark: MarkView<S>, points: Seq<(S, S)>) -> MarkView<S> {
    MarkView { points, ..mark }
}

/// The marks moved right and down.
pub open spec fn marks_moved<S: Scalar>(marks: Seq<MarkView<S>>, x: S, y: S) -> Seq<MarkView<S>> {
    Seq::new(marks.len(), |i: int| with_points(marks[i], points_moved(marks[i].points, x, y)))
}

/// The marks scaled about the origin.
pub open spec fn marks_scaled<S: Scalar>(marks: Seq<MarkView<S>>, factor: S) -> Seq<MarkView<S>> {
    Seq::new(marks.len(), |i: int| with_points(marks[i], points_scaled(marks[i].points, factor)))
}

/// The marks stretched vertically.
pub open spec fn marks_stretched<S: Scalar>(
    marks: Seq<MarkView<S>>,
    factor: S,
) -> Seq<MarkView<S>> {
    Seq::new(marks.len(), |i: int| with_points(marks[i], points_stretched(marks[i].points, factor)))
}

/// A box with the given extent and no strokes.
pub open spec fn bare_box<S: Scalar>(width: S, above: S, below: S) -> BoxView<S> {
    BoxView {
        width,
        above,
        below,
        script_drop: S::mil(0),
        marks: Seq::empty(),
        large: false,
    }
}

/// A box that holds nothing.
pub open spec fn empty_box<S: Scalar>() -> BoxView<S> {
    bare_box(S::mil(0), S::mil(0), S::mil(0))
}

/// The box with its marks moved.
pub open spec fn box_moved<S: Scalar>(b: BoxView<S>, x: S, y: S) -> BoxView<S> {
    BoxView { marks: marks_moved(b.marks, x, y), ..b }
}

/// The box scaled as a whole.
pub open spec fn box_scaled<S: Scalar>(b: BoxView<S>, factor: S) -> BoxView<S> {
    BoxView {
        width: b.width * factor,
        above: b.above * factor,
        below: b.below * factor,
        script_drop: b.script_drop * factor,
        marks: marks_scaled(b.marks, factor),
        large: b.large,
    }
}

/// The box stretched vertically.
pub open spec fn box_stretched<S: Scalar>(b: BoxView<S>, factor: S) -> BoxView<S> {
    BoxView {
        width: b.width,
        above: b.above * factor,
        below: b.below * factor,
        script_drop: b.script_drop * factor,
        marks: marks_stretched(b.marks, factor),
        large: b.large,
    }
}

/// All points of all marks, in drawing order.
pub open spec fn all_points<S>(marks: Seq<MarkView<S>>) -> Seq<(S, S)>
    decreases marks.len(),
{
    if marks.len() == 0 {
        Seq::empty()
    } else {
        all_points(marks.drop_last()) + marks.last().points
    }
}

/// Whether stroke `i` has a point `j`.
pub open spec fn has_point<S>(marks: Seq<MarkView<S>>, i: int, j: int) -> bool {
    0 <= i < marks.len() && 0 <= j < marks[i].points.len()
}

/// Every point of a stroke is among all the points.
pub proof fn lemma_points_are_among_all<S>(marks: Seq<MarkView<S>>, i: int, j: int) -> (k: int)
    requires
        has_point(marks, i, j),
    ensures
        0 <= k < all_points(marks).len(),
        all_points(marks)[k] == marks[i].points[j],
    decreases marks.len(),
{
    if i == marks.len() - 1 {
        all_points(marks.drop_last()).len() + j
    } else {
        lemma_points_are_among_all(marks.drop_last(), i, j)
    }
}

/// Each of all the points is a point of a stroke.
pub proof fn lemma_all_points_are_from_marks<S>(marks: Seq<MarkView<S>>, k: int) -> (r: (int, int))
    requires
        0 <= k < all_points(marks).len(),
    ensures
        has_point(marks, r.0, r.1),
        all_points(marks)[k] == marks[r.0].points[r.1],
    decreases marks.len(),
{
    let before = all_points(marks.drop_last());
    if k < before.len() {
        lemma_all_points_are_from_marks(marks.drop_last(), k)
    } else {
        (marks.len() - 1, k - before.len())
    }
}

/// One coordinate of a point.
pub open spec fn along<S>(point: (S, S), axis: Axis) -> S {
    match axis {
        Axis::X => point.0,
        Axis::Y => point.1,
    }
}

/// One coordinate of every point.
pub open spec fn coordinates<S>(points: Seq<(S, S)>, axis: Axis) -> Seq<S> {
    Seq::new(points.len(), |i: int| along(points[i], axis))
}

/// The smallest of the numbers and `start`.
pub open spec fn least_from<S: Scalar>(start: S, xs: Seq<S>) -> S
    decreases xs.len(),
{
    if xs.len() == 0 {
        start
    } else {
        least_from(start, xs.drop_last()).smaller(xs.last())
    }
}

/// The largest of the numbers and `start`.
pub open spec fn greatest_from<S: Scalar>(start: S, xs: Seq<S>) -> S
    decreases xs.len(),
{
    if xs.len() == 0 {
        start
    } else {
        greatest_from(start, xs.drop_last()).larger(xs.last())
    }
}

/// The smallest coordinate, above everything where there is none.
pub open spec fn lowest<S: Scalar>(points: Seq<(S, S)>, axis: Axis) -> S {
    least_from(S::topmost(), coordinates(points, axis))
}

/// The largest coordinate, below everything where there is none.
pub open spec fn highest<S: Scalar>(points: Seq<(S, S)>, axis: Axis) -> S {
    greatest_from(S::bottommost(), coordinates(points, axis))
}

/// The smallest and largest coordinate of the ink.
pub open spec fn extent<S: Scalar>(marks: Seq<MarkView<S>>, axis: Axis) -> Option<(S, S)> {
    let low = lowest(all_points(marks), axis);
    let high = highest(all_points(marks), axis);
    if low <= high {
        Some((low, high))
    } else {
        None
    }
}

/// Whether a height belongs to the body of a letter, between ascenders and descenders.
pub open spec fn in_body<S: Scalar>(y: S) -> bool {
    S::mil(-65_000) <= y && y <= S::mil(-5_000)
}

/// The x coordinates of the points in the body of a letter.
pub open spec fn body_xs<S: Scalar>(points: Seq<(S, S)>) -> Seq<S>
    decreases points.len(),
{
    if points.len() == 0 {
        Seq::empty()
    } else if in_body(points.last().1) {
        body_xs(points.drop_last()).push(points.last().0)
    } else {
        body_xs(points.drop_last())
    }
}

/// The x coordinates that a letter's spacing goes by: those of its body, or all of
/// them where nothing is in the body.
pub open spec fn spacing_xs<S: Scalar>(marks: Seq<MarkView<S>>) -> Seq<S> {
    let points = all_points(marks);
    if body_xs(points).len() == 0 {
        coordinates(points, Axis::X)
    } else {
        body_xs(points)
    }
}

/// The leftmost and rightmost x that a letter's spacing goes by.
pub open spec fn body_extent<S: Scalar>(marks: Seq<MarkView<S>>) -> Option<(S, S)> {
    let xs = spacing_xs(marks);
    if xs.len() == 0 {
        None
    } else {
        Some((least_from(xs[0], xs.drop_first()), greatest_from(xs[0], xs.drop_first())))
    }
}

proof fn lemma_views_push<S>(marks: Seq<Mark<S>>, mark: Mark<S>)
    ensures
        views_of(marks.push(mark)) == views_of(marks).push(mark@),
{
    assert(views_of(marks.push(mark)) =~= views_of(marks).push(mark@));
}

/// Marks that differ in where their points lie only are sound together.
proof fn lemma_same_shape<S>(before: Seq<MarkView<S>>, after: Seq<MarkView<S>>)
    requires
        before.len() == after.len(),
        forall|i: int|
            0 <= i < before.len() ==> (#[trigger] after[i]).points.len() == before[i].points.len()
                && after[i] == with_points(before[i], after[i].points),
    ensures
        marks_are_sound(before) ==> marks_are_sound(after),
{
    if marks_are_sound(before) {
        assert forall|i: int| 0 <= i < after.len() implies mark_is_sound(#[trigger] after[i]) by {
            assert(mark_is_sound(before[i]));
        }
    }
}

/// The same numbers in a vector of their own.
pub fn copied<T: Copy>(v: &[T]) -> (r: Vec<T>)
    ensures
        r@ == v@,
{
    let mut r: Vec<T> = Vec::new();
    let mut i: usize = 0;
    while i < v.len()
        invariant
            i <= v.len(),
            r@ == v@.take(i as int),
        decreases v.len() - i,
    {
        r.push(v[i]);
        proof {
            assert(v@.take(i + 1) =~= v@.take(i as int).push(v@[i as int]));
        }
        i += 1;
    }
    proof {
        assert(v@.take(i as int) =~= v@);
    }
    r
}

impl<S: Scalar> Clone for Mark<S> {
    fn clone(&self) -> (r: Self)
        ensures
            r@ == self@,
    {
        Mark {
            points: copied(self.points.as_slice()),
            pressures: match &self.pressures {
                Some(p) => Some(copied(p.as_slice())),
                None => None,
            },
            parenthesis: self.parenthesis,
            entry_tail_points: self.entry_tail_points,
            entry_taper_length: self.entry_taper_length,
        }
    }
}

impl<S: Scalar> Clone for Box2<S> {
    fn clone(&self) -> (r: Self)
        ensures
            r@ == self@,
    {
        let mut marks: Vec<Mark<S>> = Vec::new();
        let mut i: usize = 0;
        while i < self.marks.len()
            invariant
                i <= self.marks.len(),
                views_of(marks@) == views_of(self.marks@).take(i as int),
            decreases self.marks.len() - i,
        {
            let ghost before = marks@;
            let mark = self.marks[i].clone();
            marks.push(mark);
            proof {
                lemma_views_push(before, mark);
                assert(views_of(self.marks@).take(i + 1) =~= views_of(self.marks@).take(
                    i as int,
                ).push(self.marks@[i as int]@));
            }
            i += 1;
        }
        proof {
            assert(views_of(self.marks@).take(i as int) =~= views_of(self.marks@));
        }
        Box2 {
            width: self.width,
            above: self.above,
            below: self.below,
            script_drop: self.script_drop,
            marks,
            large: self.large,
        }
    }
}

impl<S: Scalar> Box2<S> {
    /// A box with the given extent and no strokes.
    pub fn bare(width: S, above: S, below: S) -> (r: Self)
        ensures
            r@ == bare_box(width, above, below),
    {
        let r = Box2 {
            width,
            above,
            below,
            script_drop: S::milli(0),
            marks: Vec::new(),
            large: false,
        };
        proof {
            assert(views_of(r.marks@) =~= Seq::empty());
        }
        r
    }

    /// A box that holds nothing.
    pub fn empty() -> (r: Self)
        ensures
            r@ == empty_box::<S>(),
    {
        Self::bare(S::milli(0), S::milli(0), S::milli(0))
    }

    /// The box with all its strokes moved.
    pub fn translated(self, x: S, y: S) -> (r: Self)
        ensures
            r@ == box_moved(self@, x, y),
            marks_are_sound(self@.marks) ==> marks_are_sound(r@.marks),
    {
        let mut out = self;
        let mut i: usize = 0;
        while i < out.marks.len()
            invariant
                i <= out.marks.len(),
                out.marks.len() == self.marks.len(),
                out == (Box2 { marks: out.marks, ..self }),
                forall|k: int| i <= k < out.marks.len() ==> out.marks@[k] == self.marks@[k],
                forall|k: int|
                    0 <= k < i ==> (#[trigger] out.marks@[k])@ == marks_moved(
                        views_of(self.marks@),
                        x,
                        y,
                    )[k],
            decreases out.marks.len() - i,
        {
            let points = moved_points(&out.marks[i].points, x, y);
            out.marks[i].points = points;
            i += 1;
        }
        proof {
            assert(views_of(out.marks@) =~= marks_moved(views_of(self.marks@), x, y));
            lemma_same_shape(self@.marks, out@.marks);
        }
        out
    }

    /// The box and its strokes shrunk or enlarged.
    pub fn scaled(self, factor: S) -> (r: Self)
        ensures
            r@ == box_scaled(self@, factor),
            marks_are_sound(self@.marks) ==> marks_are_sound(r@.marks),
    {
        let mut out = self;
        let mut i: usize = 0;
        while i < out.marks.len()
            invariant
                i <= out.marks.len(),
                out.marks.len() == self.marks.len(),
                out == (Box2 { marks: out.marks, ..self }),
                forall|k: int| i <= k < out.marks.len() ==> out.marks@[k] == self.marks@[k],
                forall|k: int|
                    0 <= k < i ==> (#[trigger] out.marks@[k])@ == marks_scaled(
                        views_of(self.marks@),
                        factor,
                    )[k],
            decreases out.marks.len() - i,
        {
            let points = scaled_points(&out.marks[i].points, factor);
            out.marks[i].points = points;
            i += 1;
        }
        out.width = out.width.times(factor);
        out.above = out.above.times(factor);
        out.below = out.below.times(factor);
        out.script_drop = out.script_drop.times(factor);
        proof {
            assert(views_of(out.marks@) =~= marks_scaled(views_of(self.marks@), factor));
            lemma_same_shape(self@.marks, out@.marks);
        }
        out
    }

    /// The box and its strokes made lower or higher, keeping their width.
    pub fn scaled_vertically(self, factor: S) -> (r: Self)
        ensures
            r@ == box_stretched(self@, factor),
            marks_are_sound(self@.marks) ==> marks_are_sound(r@.marks),
    {
        let mut out = self;
        let mut i: usize = 0;
        while i < out.marks.len()
            invariant
                i <= out.marks.len(),
                out.marks.len() == self.marks.len(),
                out == (Box2 { marks: out.marks, ..self }),
                forall|k: int| i <= k < out.marks.len() ==> out.marks@[k] == self.marks@[k],
                forall|k: int|
                    0 <= k < i ==> (#[trigger] out.marks@[k])@ == marks_stretched(
                        views_of(self.marks@),
                        factor,
                    )[k],
            decreases out.marks.len() - i,
        {
            let points = stretched_points(&out.marks[i].points, factor);
            out.marks[i].points = points;
            i += 1;
        }
        out.above = out.above.times(factor);
        out.below = out.below.times(factor);
        out.script_drop = out.script_drop.times(factor);
        proof {
            assert(views_of(out.marks@) =~= marks_stretched(views_of(self.marks@), factor));
            lemma_same_shape(self@.marks, out@.marks);
        }
        out
    }

    /// Takes over the strokes of another box.
    pub fn add(&mut self, other: Self)
        ensures
            final(self)@ == (BoxView { marks: old(self)@.marks + other@.marks, ..old(self)@ }),
            marks_are_sound(old(self)@.marks) && marks_are_sound(other@.marks)
                ==> marks_are_sound(final(self)@.marks),
    {
        let mut marks = other.marks;
        self.marks.append(&mut marks);
        proof {
            assert(views_of(self.marks@) =~= old(self)@.marks + other@.marks);
        }
    }

    /// Draws a stroke of ordinary pressure through the points.
    pub fn line(&mut self, points: Vec<(S, S)>)
        ensures
            final(self)@ == (BoxView {
                marks: old(self)@.marks.push(plain_mark(points@)),
                ..old(self)@
            }),
            marks_are_sound(old(self)@.marks) ==> marks_are_sound(final(self)@.marks),
    {
        let mark = Mark {
            points,
            pressures: None,
            parenthesis: false,
            entry_tail_points: 0,
            entry_taper_length: S::milli(0),
        };
        self.marks.push(mark);
        proof {
            lemma_views_push(old(self).marks@, mark);
        }
    }

    /// Draws a parenthesis through the points, lighter towards its ends.
    pub fn parenthesis(&mut self, points: Vec<(S, S)>)
        requires
            points.len() > 0,
        ensures
            final(self)@ == (BoxView {
                marks: old(self)@.marks.push(parenthesis_mark(points@)),
                ..old(self)@
            }),
            marks_are_sound(old(self)@.marks) ==> marks_are_sound(final(self)@.marks),
    {
        let last = S::whole(points.len() - 1);
        let mut pressures: Vec<S> = Vec::new();
        let mut i: usize = 0;
        while i < points.len()
            invariant
                i <= points.len(),
                last == S::counted(points.len() - 1),
                pressures.len() == i,
                forall|k: int|
                    0 <= k < i ==> pressures@[k] == parenthesis_pressure::<S>(
                        k,
                        points.len() as int,
                    ),
            decreases points.len() - i,
        {
            let angle = S::pi().times(S::whole(i)).over(last);
            pressures.push(S::milli(150).plus(S::milli(380).times(angle.sin())));
            i += 1;
        }
        let mark = Mark {
            points,
            pressures: Some(pressures),
            parenthesis: true,
            entry_tail_points: 0,
            entry_taper_length: S::milli(0),
        };
        proof {
            assert(mark@.pressures->0 =~= parenthesis_mark(points@).pressures->0);
            lemma_views_push(self.marks@, mark);
        }
        self.marks.push(mark);
    }
}

fn moved_points<S: Scalar>(points: &Vec<(S, S)>, x: S, y: S) -> (r: Vec<(S, S)>)
    ensures
        r@ == points_moved(points@, x, y),
{
    let mut r: Vec<(S, S)> = Vec::new();
    let mut i: usize = 0;
    while i < points.len()
        invariant
            i <= points.len(),
            r.len() == i,
            forall|k: int| 0 <= k < i ==> r@[k] == points_moved(points@, x, y)[k],
        decreases points.len() - i,
    {
        r.push((points[i].0.plus(x), points[i].1.plus(y)));
        i += 1;
    }
    proof {
        assert(r@ =~= points_moved(points@, x, y));
    }
    r
}

fn scaled_points<S: Scalar>(points: &Vec<(S, S)>, factor: S) -> (r: Vec<(S, S)>)
    ensures
        r@ == points_scaled(points@, factor),
{
    let mut r: Vec<(S, S)> = Vec::new();
    let mut i: usize = 0;
    while i < points.len()
        invariant
            i <= points.len(),
            r.len() == i,
            forall|k: int| 0 <= k < i ==> r@[k] == points_scaled(points@, factor)[k],
        decreases points.len() - i,
    {
        r.push((points[i].0.times(factor), points[i].1.times(factor)));
        i += 1;
    }
    proof {
        assert(r@ =~= points_scaled(points@, factor));
    }
    r
}

fn stretched_points<S: Scalar>(points: &Vec<(S, S)>, factor: S) -> (r: Vec<(S, S)>)
    ensures
        r@ == points_stretched(points@, factor),
{
    let mut r: Vec<(S, S)> = Vec::new();
    let mut i: usize = 0;
    while i < points.len()
        invariant
            i <= points.len(),
            r.len() == i,
            forall|k: int| 0 <= k < i ==> r@[k] == points_stretched(points@, factor)[k],
        decreases points.len() - i,
    {
        r.push((points[i].0, points[i].1.times(factor)));
        i += 1;
    }
    proof {
        assert(r@ =~= points_stretched(points@, factor));
    }
    r
}

/// All points of the strokes, in drawing order.
pub fn points_of<S: Scalar>(marks: &Vec<Mark<S>>) -> (r: Vec<(S, S)>)
    ensures
        r@ == all_points(views_of(marks@)),
{
    let mut r: Vec<(S, S)> = Vec::new();
    let mut i: usize = 0;
    while i < marks.len()
        invariant
            i <= marks.len(),
            r@ == all_points(views_of(marks@).take(i as int)),
        decreases marks.len() - i,
    {
        let mut points = copied(marks[i].points.as_slice());
        r.append(&mut points);
        proof {
            assert(views_of(marks@).take(i + 1).drop_last() =~= views_of(marks@).take(i as int));
            assert(views_of(marks@).take(i + 1).last() == marks@[i as int]@);
        }
        i += 1;
    }
    proof {
        assert(views_of(marks@).take(i as int) =~= views_of(marks@));
    }
    r
}

fn pick<S: Scalar>(point: (S, S), axis: Axis) -> (r: S)
    ensures
        r == along(point, axis),
{
    match axis {
        Axis::X => point.0,
        Axis::Y => point.1,
    }
}

/// The smallest and the largest coordinate of the points.
pub fn range_along<S: Scalar>(points: &Vec<(S, S)>, axis: Axis) -> (r: (S, S))
    ensures
        r.0 == lowest(points@, axis),
        r.1 == highest(points@, axis),
{
    let mut low = S::infinity();
    let mut high = S::neg_infinity();
    let mut i: usize = 0;
    while i < points.len()
        invariant
            i <= points.len(),
            low == lowest(points@.take(i as int), axis),
            high == highest(points@.take(i as int), axis),
        decreases points.len() - i,
    {
        let value = pick(points[i], axis);
        low = low.min(value);
        high = high.max(value);
        proof {
            assert(coordinates(points@.take(i + 1), axis).drop_last() =~= coordinates(
                points@.take(i as int),
                axis,
            ));
        }
        i += 1;
    }
    proof {
        assert(points@.take(i as int) =~= points@);
    }
    (low, high)
}

/// The smallest and the largest coordinate of the ink, if there is any.
pub fn ink_extent<S: Scalar>(marks: &Vec<Mark<S>>, axis: Axis) -> (r: Option<(S, S)>)
    ensures
        r == extent(views_of(marks@), axis),
{
    let (low, high) = range_along(&points_of(marks), axis);
    if low.le(high) {
        Some((low, high))
    } else {
        None
    }
}

/// The leftmost and rightmost x of a letter's body.
pub fn body_bounds<S: Scalar>(marks: &Vec<Mark<S>>) -> (r: Option<(S, S)>)
    ensures
        r == body_extent(views_of(marks@)),
{
    let points = points_of(marks);
    let mut body: Vec<S> = Vec::new();
    let mut all: Vec<S> = Vec::new();
    let mut i: usize = 0;
    while i < points.len()
        invariant
            i <= points.len(),
            body@ == body_xs(points@.take(i as int)),
            all@ == coordinates(points@.take(i as int), Axis::X),
        decreases points.len() - i,
    {
        let (x, y) = points[i];
        if S::milli(-65_000).le(y) && y.le(S::milli(-5_000)) {
            body.push(x);
        }
        all.push(x);
        proof {
            assert(points@.take(i + 1).drop_last() =~= points@.take(i as int));
            assert(all@ =~= coordinates(points@.take(i + 1), Axis::X));
        }
        i += 1;
    }
    proof {
        assert(points@.take(i as int) =~= points@);
    }
    let xs = if body.len() == 0 {
        all
    } else {
        body
    };
    if xs.len() == 0 {
        return None;
    }
    let mut low = xs[0];
    let mut high = xs[0];
    let mut k: usize = 1;
    while k < xs.len()
        invariant
            1 <= k <= xs.len(),
            low == least_from(xs@[0], xs@.drop_first().take(k - 1)),
            high == greatest_from(xs@[0], xs@.drop_first().take(k - 1)),
        decreases xs.len() - k,
    {
        low = low.min(xs[k]);
        high = high.max(xs[k]);
        proof {
            assert(xs@.drop_first().take(k as int).drop_last() =~= xs@.drop_first().take(k - 1));
        }
        k += 1;
    }
    proof {
        assert(xs@.drop_first().take(k - 1) =~= xs@.drop_first());
    }
    Some((low, high))
}

} // verus!
