//! The pen: which sample is written next, and how it comes out this time.
use crate::bits;
use crate::bits::{instance_bits, redraw, unit_interval};
use crate::entry;
use crate::node;
use crate::node::is_delimiter;
use crate::profile;
use crate::profile::{Bounds, Glyph, Handwriting, Point, RenderError, Variant};
use crate::scalar::Scalar;
use crate::strokes;
use crate::strokes::{Axis, Box2, BoxView, Mark, MarkView};
use crate::variation;
use crate::variation::InstanceVariation;
use crate::words::{joined, same_text};
use vstd::hash_map::StringHashMap;
use vstd::prelude::*;

verus! {

/// The space after a glyph, in thousandths of a pixel.
pub const GAP: i32 = 4_500;

/// Writes one formula: the profile it writes with, and what it has written so far.
#[verifier::reject_recursive_types(S)]
pub struct Layout<'a, S> {
    pub hand: &'a Handwriting<S>,
    pub seed: u64,
    pub occurrences: StringHashMap<usize>,
    pub variation: bool,
    pub placed: usize,
}

/// What a [`Layout`] holds.
#[verifier::ext_equal]
#[verifier::reject_recursive_types(S)]
pub struct Pen<S> {
    pub glyphs: Map<Seq<char>, Glyph<S>>,
    pub seed: u64,
    pub variation: bool,
    /// How often each glyph was written.
    pub occurrences: Map<Seq<char>, usize>,
    /// How many glyphs and lines were placed.
    pub placed: usize,
}

impl<'a, S> View for Layout<'a, S> {
    type V = Pen<S>;

    open spec fn view(&self) -> Pen<S> {
        Pen {
            glyphs: self.hand.glyphs@,
            seed: self.seed,
            variation: self.variation,
            occurrences: self.occurrences@,
            placed: self.placed,
        }
    }
}

/// A piece that was written or why it could not be, and the pen after it.
pub type Written<S> = (Pen<S>, Result<BoxView<S>, Seq<char>>);

/// How often the glyph was written before.
pub open spec fn occurrence_of<S>(pen: Pen<S>, key: Seq<char>) -> usize {
    if pen.occurrences.contains_key(key) {
        pen.occurrences[key]
    } else {
        0
    }
}

/// The pen after the glyph was counted once more.
pub open spec fn after_occurrence<S>(pen: Pen<S>, key: Seq<char>) -> Pen<S> {
    Pen {
        occurrences: pen.occurrences.insert(key, occurrence_of(pen, key).wrapping_add(1)),
        ..pen
    }
}

/// The pen after one more placement.
pub open spec fn after_placement<S>(pen: Pen<S>) -> Pen<S> {
    Pen { placed: pen.placed.wrapping_add(1), ..pen }
}

/// Which of `count` variants an occurrence is written with: the seed selects the first
/// one, and each further occurrence takes the next.
pub open spec fn variant_index(seed: u64, occurrence: usize, count: int) -> int {
    occurrence.wrapping_add(((seed as usize) as int % count) as usize) as int % count
}

/// The variant that an occurrence is written with.
pub open spec fn chosen_variant<S>(glyph: Glyph<S>, seed: u64, occurrence: usize) -> Option<
    Variant<S>,
> {
    if glyph.variants.len() == 0 {
        None
    } else {
        Some(glyph.variants[variant_index(seed, occurrence, glyph.variants.len() as int)])
    }
}

/// The box round the chosen sample: that of the variant, or else that of the glyph.
pub open spec fn chosen_bounds<S>(glyph: Glyph<S>, variant: Option<Variant<S>>) -> Option<
    Bounds<S>,
> {
    match variant {
        Some(v) => match v.bbox {
            Some(b) => Some(b),
            None => glyph.bbox,
        },
        None => glyph.bbox,
    }
}

/// The strokes of the chosen sample.
pub open spec fn chosen_strokes<S>(glyph: Glyph<S>, variant: Option<Variant<S>>) -> Seq<
    Vec<Point<S>>,
> {
    match variant {
        Some(v) => v.strokes@,
        None => glyph.strokes@,
    }
}

/// Whether a box can be drawn in.
pub open spec fn bounds_are_valid<S: Scalar>(b: Bounds<S>) -> bool {
    &&& b.min_x.finite()
    &&& b.max_x.finite()
    &&& b.min_y.finite()
    &&& b.max_y.finite()
    &&& !(b.max_x < b.min_x)
    &&& !(b.max_y < b.min_y)
}

/// A recorded point on the page, before any variation.
pub open spec fn page_point<S: Scalar>(b: Bounds<S>, p: Point<S>) -> (S, S) {
    ((p.x - b.min_x) * S::mil(profile::UNIT as int), (-p.y) * S::mil(profile::UNIT as int))
}

/// The points of one stroke on the page.
pub open spec fn page_stroke<S: Scalar>(b: Bounds<S>, stroke: Seq<Point<S>>) -> Seq<(S, S)> {
    Seq::new(stroke.len(), |i: int| page_point(b, stroke[i]))
}

/// The points of all strokes on the page.
pub open spec fn page_points<S: Scalar>(b: Bounds<S>, strokes: Seq<Vec<Point<S>>>) -> Seq<(S, S)>
    decreases strokes.len(),
{
    if strokes.len() == 0 {
        Seq::empty()
    } else {
        page_points(b, strokes.drop_last()) + page_stroke(b, strokes.last()@)
    }
}

/// Whether every point is a place on the page.
pub open spec fn points_are_finite<S: Scalar>(points: Seq<(S, S)>) -> bool {
    forall|i: int| 0 <= i < points.len() ==> (#[trigger] points[i]).0.finite() && points[i].1.finite()
}

/// The x about which a sample is turned and scaled: the middle of its ink.
pub open spec fn anchor_of<S: Scalar>(points: Seq<(S, S)>) -> S {
    let low = strokes::lowest(points, Axis::X);
    let high = strokes::highest(points, Axis::X);
    if low.finite() && high.finite() {
        (low + high) * S::mil(500)
    } else {
        S::mil(0)
    }
}

/// The pressures of a stroke; none unless every point has one.
pub open spec fn recorded_pressures<S>(stroke: Seq<Point<S>>) -> Option<Seq<S>> {
    if forall|i: int| 0 <= i < stroke.len() ==> (#[trigger] stroke[i]).p is Some {
        Some(Seq::new(stroke.len(), |i: int| stroke[i].p->0))
    } else {
        None
    }
}

/// How an instance is written: with which variation, if any, about which anchor and how
/// far off the baseline.
pub struct Hand<S> {
    pub variation: Option<InstanceVariation<S>>,
    pub anchor_x: S,
    pub drift: S,
}

/// One point as it is written.
pub open spec fn written_point<S: Scalar>(hand: Hand<S>, point: (S, S)) -> (S, S) {
    match hand.variation {
        Some(v) => variation::varied_point(v, point, hand.anchor_x, hand.drift),
        None => point,
    }
}

/// One pressure as it is written.
pub open spec fn written_pressure<S: Scalar>(hand: Hand<S>, pressure: S) -> S {
    match hand.variation {
        Some(v) => (pressure * v.pressure_scale).held(S::mil(0), S::mil(1_000)),
        None => pressure,
    }
}

/// One recorded stroke as it is written.
pub open spec fn written_stroke<S: Scalar>(
    hand: Hand<S>,
    b: Bounds<S>,
    stroke: Seq<Point<S>>,
) -> MarkView<S> {
    MarkView {
        points: Seq::new(stroke.len(), |i: int| written_point(hand, page_point(b, stroke[i]))),
        pressures: match recorded_pressures(stroke) {
            Some(p) => Some(Seq::new(p.len(), |i: int| written_pressure(hand, p[i]))),
            None => None,
        },
        parenthesis: false,
        entry_tail_points: 0,
        entry_taper_length: S::mil(0),
    }
}

/// The recorded strokes as they are written, without those that have no point.
pub open spec fn written_strokes<S: Scalar>(
    hand: Hand<S>,
    b: Bounds<S>,
    strokes: Seq<Vec<Point<S>>>,
) -> Seq<MarkView<S>>
    decreases strokes.len(),
{
    if strokes.len() == 0 {
        Seq::empty()
    } else {
        let before = written_strokes(hand, b, strokes.drop_last());
        if strokes.last().len() == 0 {
            before
        } else {
            before.push(written_stroke(hand, b, strokes.last()@))
        }
    }
}

/// The marks with an entry on the first one from index `from` on that is a free stem
/// end; none where there is no such mark.
pub open spec fn entry_on_first<S: Scalar>(
    marks: Seq<MarkView<S>>,
    from: int,
    bits: u64,
    top: S,
    height: S,
) -> Option<Seq<MarkView<S>>>
    decreases marks.len() - from,
{
    if from >= marks.len() {
        None
    } else {
        match entry::entry_added(marks[from], bits, top, height, false) {
            Some(mark) => Some(marks.update(from, mark)),
            None => entry_on_first(marks, from + 1, bits, top, height),
        }
    }
}

/// The marks with an entry stroke, where this occurrence gets one. Only an uppercase L
/// does: its top is a free stem end.
pub open spec fn entry_drawn<S: Scalar>(
    pen: Pen<S>,
    key: Seq<char>,
    occurrence: usize,
    marks: Seq<MarkView<S>>,
) -> Option<Seq<MarkView<S>>> {
    if !pen.variation || key != "L"@ {
        None
    } else {
        let b = bits::bits_of_instance(pen.seed, key + "-tail"@, occurrence);
        if !(bits::unit_of::<S>(bits::redrawn(b, 17)) < S::mil(600)) {
            None
        } else {
            match strokes::extent(marks, Axis::Y) {
                Some((top, bottom)) => entry_on_first(marks, 0, b, top, bottom - top),
                None => None,
            }
        }
    }
}

/// The marks moved left by `x`.
pub open spec fn pulled_in<S: Scalar>(marks: Seq<MarkView<S>>, x: S) -> Seq<MarkView<S>> {
    Seq::new(
        marks.len(),
        |i: int|
            strokes::with_points(
                marks[i],
                Seq::new(
                    marks[i].points.len(),
                    |j: int| (marks[i].points[j].0 - x, marks[i].points[j].1),
                ),
            ),
    )
}

/// Keys of symbols that take their scripts above and below.
pub open spec fn is_large_key(key: Seq<char>) -> bool {
    key == "\\int"@ || key == "\\oint"@ || key == "\\sum"@ || key == "\\prod"@
}

/// The box that a sample was recorded in.
pub open spec fn recorded_box<S: Scalar>(
    key: Seq<char>,
    b: Bounds<S>,
    marks: Seq<MarkView<S>>,
) -> BoxView<S> {
    let unit = S::mil(profile::UNIT as int);
    BoxView {
        width: ((b.max_x - b.min_x) * unit).larger(S::mil(3_000)) + S::mil(GAP as int),
        above: (b.max_y * unit).larger(S::mil(0)),
        below: ((-b.min_y) * unit).larger(S::mil(0)),
        script_drop: S::mil(0),
        marks,
        large: is_large_key(key),
    }
}

/// The space that ink from `min_x` to `max_x` takes.
pub open spec fn spaced_width<S: Scalar>(min_x: S, max_x: S) -> S {
    (max_x - min_x).larger(S::mil(3_000)) + S::mil(GAP as int)
}

/// A box as wide as its ink. Where an entry stroke reaches out of the box on the left,
/// the ink is pulled in.
pub open spec fn spaced_box<S: Scalar>(b: BoxView<S>, has_entry: bool) -> BoxView<S> {
    match strokes::extent(b.marks, Axis::X) {
        Some((min_x, max_x)) => BoxView {
            width: spaced_width(min_x, max_x),
            marks: if has_entry && min_x < S::mil(0) {
                pulled_in(b.marks, min_x)
            } else {
                b.marks
            },
            ..b
        },
        None => b,
    }
}

/// The box of a sample: its recorded box, corrected to the ink as it is written, so that
/// varied glyphs keep correct spacing and are never clipped.
pub open spec fn sample_box<S: Scalar>(
    key: Seq<char>,
    b: Bounds<S>,
    plain: Seq<MarkView<S>>,
    drawn: Option<Seq<MarkView<S>>>,
) -> BoxView<S> {
    let marks = match drawn {
        Some(m) => m,
        None => plain,
    };
    entry::remeasured(spaced_box(recorded_box(key, b, marks), drawn is Some))
}

/// Why the chosen sample cannot be drawn, if it cannot.
pub open spec fn sample_fault<S: Scalar>(
    key: Seq<char>,
    glyph: Glyph<S>,
    variant: Option<Variant<S>>,
) -> Option<Seq<char>> {
    match chosen_bounds(glyph, variant) {
        None => Some("missing bounding box for glyph "@ + key),
        Some(b) => if (variant matches Some(v) && !v.baseline.same(S::mil(0))) || chosen_strokes(
            glyph,
            variant,
        ).len() == 0 {
            Some("invalid variant for glyph "@ + key)
        } else if !bounds_are_valid(b) {
            Some("invalid bounding box for glyph "@ + key)
        } else {
            None
        },
    }
}

/// How an occurrence is written. Delimiters are stretched to a computed height and their
/// width feeds the space round them, so they stay as they were collected.
pub open spec fn hand_for<S: Scalar>(
    pen: Pen<S>,
    key: Seq<char>,
    occurrence: usize,
    points: Seq<(S, S)>,
) -> Hand<S> {
    Hand {
        variation: if pen.variation && !node::is_delimiter_key(key) {
            Some(variation::variation_of::<S>(pen.seed, key, occurrence))
        } else {
            None
        },
        anchor_x: anchor_of(points),
        drift: if pen.variation {
            variation::drift_of::<S>(pen.seed, pen.placed)
        } else {
            S::mil(0)
        },
    }
}

/// The strokes of a sample as they are written next, before any entry stroke.
pub open spec fn plain_marks<S: Scalar>(
    pen: Pen<S>,
    key: Seq<char>,
    b: Bounds<S>,
    recorded: Seq<Vec<Point<S>>>,
) -> Seq<MarkView<S>> {
    let hand = hand_for(pen, key, occurrence_of(pen, key), page_points(b, recorded));
    written_strokes(hand, b, recorded)
}

/// A sample that can be drawn as it is written next.
pub open spec fn drawn_sample<S: Scalar>(
    pen: Pen<S>,
    key: Seq<char>,
    b: Bounds<S>,
    recorded: Seq<Vec<Point<S>>>,
) -> BoxView<S> {
    let plain = plain_marks(pen, key, b, recorded);
    sample_box(key, b, plain, entry_drawn(pen, key, occurrence_of(pen, key), plain))
}

/// A collected sample as it is written next.
pub open spec fn sample_written<S: Scalar>(pen: Pen<S>, key: Seq<char>) -> Written<S> {
    match profile::collected(pen.glyphs, key) {
        Err(e) => (pen, Err(e)),
        Ok(glyph) => {
            let counted = after_occurrence(pen, key);
            let variant = chosen_variant(glyph, pen.seed, occurrence_of(pen, key));
            match sample_fault(key, glyph, variant) {
                Some(e) => (counted, Err(e)),
                None => {
                    let b = chosen_bounds(glyph, variant)->0;
                    let recorded = chosen_strokes(glyph, variant);
                    let placed = after_placement(counted);
                    if !points_are_finite(page_points(b, recorded)) {
                        (placed, Err("invalid stroke point in "@ + key))
                    } else {
                        (placed, Ok(drawn_sample(pen, key, b, recorded)))
                    }
                },
            }
        },
    }
}

/// A message that ends with a key.
fn fault(text: &str, key: &str) -> (r: RenderError)
    ensures
        r.0@ == text@ + key@,
{
    let mut message = text.to_owned();
    message.append(key);
    RenderError(message)
}

/// All points of the strokes on the page; none where one of them is no place.
fn place_points<S: Scalar>(b: Bounds<S>, strokes: &Vec<Vec<Point<S>>>) -> (r: Option<Vec<(S, S)>>)
    ensures
        match r {
            Some(points) => points@ == page_points(b, strokes@) && points_are_finite(points@),
            None => !points_are_finite(page_points(b, strokes@)),
        },
{
    let unit = S::milli(profile::UNIT);
    let mut points: Vec<(S, S)> = Vec::new();
    let mut finite = true;
    let mut i: usize = 0;
    while i < strokes.len()
        invariant
            unit == S::mil(profile::UNIT as int),
            i <= strokes.len(),
            points@ == page_points(b, strokes@.take(i as int)),
            finite == points_are_finite(points@),
        decreases strokes.len() - i,
    {
        let stroke = &strokes[i];
        let ghost start = points@;
        let mut j: usize = 0;
        proof {
            assert(start + page_stroke(b, stroke@).take(0) =~= start);
        }
        while j < stroke.len()
            invariant
                unit == S::mil(profile::UNIT as int),
                j <= stroke.len(),
                points@ == start + page_stroke(b, stroke@).take(j as int),
                finite == points_are_finite(points@),
            decreases stroke.len() - j,
        {
            let x = stroke[j].x.minus(b.min_x).times(unit);
            let y = stroke[j].y.negated().times(unit);
            let ghost before = points@;
            if !x.is_finite() || !y.is_finite() {
                finite = false;
            }
            points.push((x, y));
            proof {
                assert(points@ =~= start + page_stroke(b, stroke@).take(j + 1));
                assert(points@[before.len() as int] == (x, y));
                if points_are_finite(points@) {
                    assert forall|k: int| 0 <= k < before.len() implies (
                    #[trigger] before[k]).0.finite() && before[k].1.finite() by {
                        assert(points@[k] == before[k]);
                    }
                }
                if points_are_finite(before) && x.finite() && y.finite() {
                    assert forall|k: int| 0 <= k < points.len() implies (
                    #[trigger] points@[k]).0.finite() && points@[k].1.finite() by {
                        if k < before.len() {
                            assert(points@[k] == before[k]);
                        }
                    }
                }
            }
            j += 1;
        }
        proof {
            assert(page_stroke(b, stroke@).take(j as int) =~= page_stroke(b, stroke@));
            assert(strokes@.take(i + 1).drop_last() =~= strokes@.take(i as int));
        }
        i += 1;
    }
    proof {
        assert(strokes@.take(i as int) =~= strokes@);
    }
    if finite {
        Some(points)
    } else {
        None
    }
}

/// The pressures of a stroke, where every point has one.
fn pressures_of<S: Scalar>(stroke: &Vec<Point<S>>) -> (r: Option<Vec<S>>)
    ensures
        strokes::seq_of_option(r) == recorded_pressures(stroke@),
{
    let mut pressures: Vec<S> = Vec::new();
    let mut i: usize = 0;
    while i < stroke.len()
        invariant
            i <= stroke.len(),
            pressures.len() == i,
            forall|k: int|
                0 <= k < i ==> (#[trigger] stroke@[k]).p is Some && pressures@[k] == stroke@[k].p->0,
        decreases stroke.len() - i,
    {
        match stroke[i].p {
            Some(p) => pressures.push(p),
            None => {
                assert(stroke@[i as int].p is None);
                return None;
            },
        }
        i += 1;
    }
    proof {
        assert(pressures@ =~= recorded_pressures(stroke@)->0);
    }
    Some(pressures)
}

/// Writes one recorded stroke.
fn write_stroke<S: Scalar>(
    varied: &Option<InstanceVariation<S>>,
    anchor_x: S,
    drift: S,
    b: Bounds<S>,
    stroke: &Vec<Point<S>>,
) -> (r: Mark<S>)
    ensures
        r@ == written_stroke(Hand { variation: *varied, anchor_x, drift }, b, stroke@),
{
    let ghost hand = Hand { variation: *varied, anchor_x, drift };
    let unit = S::milli(profile::UNIT);
    let mut points: Vec<(S, S)> = Vec::new();
    let mut i: usize = 0;
    while i < stroke.len()
        invariant
            hand == (Hand { variation: *varied, anchor_x, drift }),
            unit == S::mil(profile::UNIT as int),
            i <= stroke.len(),
            points.len() == i,
            forall|k: int|
                0 <= k < i ==> points@[k] == written_point(hand, page_point(b, stroke@[k])),
        decreases stroke.len() - i,
    {
        let point = (
            stroke[i].x.minus(b.min_x).times(unit),
            stroke[i].y.negated().times(unit),
        );
        let written = match varied {
            Some(v) => v.point(point, anchor_x, drift),
            None => point,
        };
        points.push(written);
        i += 1;
    }
    let recorded = pressures_of(stroke);
    let pressures = match recorded {
        None => None,
        Some(recorded) => {
            let mut pressures: Vec<S> = Vec::new();
            let mut j: usize = 0;
            while j < recorded.len()
                invariant
                    hand == (Hand { variation: *varied, anchor_x, drift }),
                    j <= recorded.len(),
                    pressures.len() == j,
                    forall|k: int|
                        0 <= k < j ==> pressures@[k] == written_pressure(hand, recorded@[k]),
                decreases recorded.len() - j,
            {
                let pressure = match varied {
                    Some(v) => recorded[j].times(v.pressure_scale).clamp(
                        S::milli(0),
                        S::milli(1_000),
                    ),
                    None => recorded[j],
                };
                pressures.push(pressure);
                j += 1;
            }
            Some(pressures)
        },
    };
    let mark = Mark {
        points,
        pressures,
        parenthesis: false,
        entry_tail_points: 0,
        entry_taper_length: S::milli(0),
    };
    proof {
        let expected = written_stroke(hand, b, stroke@);
        assert(mark@.points =~= expected.points);
        if mark@.pressures is Some {
            assert(mark@.pressures->0 =~= expected.pressures->0);
        }
        assert(mark@ =~= expected);
    }
    mark
}

/// Writes the recorded strokes.
fn write_strokes<S: Scalar>(
    varied: &Option<InstanceVariation<S>>,
    anchor_x: S,
    drift: S,
    b: Bounds<S>,
    strokes: &Vec<Vec<Point<S>>>,
) -> (r: Vec<Mark<S>>)
    ensures
        strokes::views_of(r@) == written_strokes(
            Hand { variation: *varied, anchor_x, drift },
            b,
            strokes@,
        ),
        strokes::marks_are_sound(strokes::views_of(r@)),
{
    let ghost hand = Hand { variation: *varied, anchor_x, drift };
    let mut marks: Vec<Mark<S>> = Vec::new();
    let mut i: usize = 0;
    proof {
        assert(strokes::views_of(marks@) =~= written_strokes(hand, b, strokes@.take(0)));
    }
    while i < strokes.len()
        invariant
            hand == (Hand { variation: *varied, anchor_x, drift }),
            i <= strokes.len(),
            strokes::views_of(marks@) == written_strokes(hand, b, strokes@.take(i as int)),
            strokes::marks_are_sound(strokes::views_of(marks@)),
        decreases strokes.len() - i,
    {
        let ghost before = strokes::views_of(marks@);
        proof {
            assert(strokes@.take(i + 1).drop_last() =~= strokes@.take(i as int));
        }
        if strokes[i].len() > 0 {
            let mark = write_stroke(varied, anchor_x, drift, b, &strokes[i]);
            marks.push(mark);
            proof {
                assert(strokes::views_of(marks@) =~= before.push(mark@));
                assert(strokes::mark_is_sound(mark@));
                assert forall|k: int|
                    0 <= k < marks.len() implies strokes::mark_is_sound(
                    #[trigger] strokes::views_of(marks@)[k],
                ) by {
                    if k < before.len() {
                        assert(strokes::mark_is_sound(before[k]));
                    }
                }
            }
        }
        i += 1;
    }
    proof {
        assert(strokes@.take(i as int) =~= strokes@);
    }
    marks
}

/// Draws an entry on the first mark that is a free stem end.
fn draw_entry_on_first<S: Scalar>(marks: &mut Vec<Mark<S>>, bits: u64, top: S, height: S) -> (r: bool)
    requires
        strokes::marks_are_sound(strokes::views_of(old(marks)@)),
    ensures
        match entry_on_first(strokes::views_of(old(marks)@), 0, bits, top, height) {
            Some(m) => r && strokes::views_of(final(marks)@) == m,
            None => !r && strokes::views_of(final(marks)@) == strokes::views_of(old(marks)@),
        },
        strokes::marks_are_sound(strokes::views_of(final(marks)@)),
{
    let ghost before = strokes::views_of(marks@);
    let mut i: usize = 0;
    while i < marks.len()
        invariant
            i <= marks.len(),
            strokes::views_of(marks@) == before,
            strokes::marks_are_sound(before),
            before == strokes::views_of(old(marks)@),
            entry_on_first(before, 0, bits, top, height) == entry_on_first(
                before,
                i as int,
                bits,
                top,
                height,
            ),
        decreases marks.len() - i,
    {
        proof {
            assert(before[i as int] == marks@[i as int]@);
            assert(strokes::mark_is_sound(before[i as int]));
        }
        if entry::add_entry_tail(&mut marks[i], bits, top, height, false) {
            proof {
                let after = strokes::views_of(marks@);
                assert(after =~= before.update(i as int, marks@[i as int]@));
                assert forall|k: int| 0 <= k < after.len() implies strokes::mark_is_sound(
                    #[trigger] after[k],
                ) by {
                    assert(strokes::mark_is_sound(before[k]));
                }
            }
            return true;
        }
        proof {
            assert(strokes::views_of(marks@) =~= before);
        }
        i += 1;
    }
    false
}

/// Moves all strokes by `-x`.
fn pull_in<S: Scalar>(marks: &mut Vec<Mark<S>>, x: S)
    ensures
        strokes::views_of(final(marks)@) == pulled_in(strokes::views_of(old(marks)@), x),
        strokes::marks_are_sound(strokes::views_of(old(marks)@)) ==> strokes::marks_are_sound(
            strokes::views_of(final(marks)@),
        ),
{
    let ghost before = strokes::views_of(marks@);
    let mut i: usize = 0;
    while i < marks.len()
        invariant
            i <= marks.len(),
            marks.len() == before.len(),
            forall|k: int| i <= k < marks.len() ==> (#[trigger] marks@[k])@ == before[k],
            forall|k: int| 0 <= k < i ==> (#[trigger] marks@[k])@ == pulled_in(before, x)[k],
        decreases marks.len() - i,
    {
        let mut points: Vec<(S, S)> = Vec::new();
        let mut j: usize = 0;
        while j < marks[i].points.len()
            invariant
                i < marks.len(),
                marks.len() == before.len(),
                marks@[i as int]@ == before[i as int],
                j <= marks@[i as int].points.len(),
                points.len() == j,
                forall|l: int|
                    0 <= l < j ==> points@[l] == pulled_in(before, x)[i as int].points[l],
            decreases marks@[i as int].points.len() - j,
        {
            let point = marks[i].points[j];
            points.push((point.0.minus(x), point.1));
            j += 1;
        }
        proof {
            assert(points@ =~= pulled_in(before, x)[i as int].points);
        }
        marks[i].points = points;
        i += 1;
    }
    proof {
        let after = strokes::views_of(marks@);
        assert(after =~= pulled_in(before, x));
        if strokes::marks_are_sound(before) {
            assert forall|k: int| 0 <= k < after.len() implies strokes::mark_is_sound(
                #[trigger] after[k],
            ) by {
                assert(strokes::mark_is_sound(before[k]));
            }
        }
    }
}

impl<'a, S: Scalar> Layout<'a, S> {
    /// Monotonic count of glyphs placed so far, in layout order.
    pub fn next_placement(&mut self) -> (r: usize)
        ensures
            r == old(self)@.placed,
            final(self)@ == after_placement(old(self)@),
            final(self).hand == old(self).hand,
    {
        let placed = self.placed;
        self.placed = placed.wrapping_add(1);
        placed
    }

    /// Counts one more occurrence of a glyph, and says how many there were before.
    fn next_occurrence(&mut self, key: &str) -> (r: usize)
        ensures
            r == occurrence_of(old(self)@, key@),
            final(self)@ == after_occurrence(old(self)@, key@),
            final(self).hand == old(self).hand,
    {
        let occurrence = match self.occurrences.get(key) {
            Some(count) => *count,
            None => 0,
        };
        self.occurrences.insert(key.to_owned(), occurrence.wrapping_add(1));
        occurrence
    }

    /// Writes the collected sample for `key`.
    pub fn sample(&mut self, key: &str) -> (r: Result<Box2<S>, RenderError>)
        ensures
            final(self)@ == sample_written(old(self)@, key@).0,
            final(self).hand == old(self).hand,
            match r {
                Ok(b) => sample_written(old(self)@, key@).1 == Ok::<BoxView<S>, Seq<char>>(b@)
                    && strokes::marks_are_sound(b@.marks),
                Err(e) => sample_written(old(self)@, key@).1 == Err::<BoxView<S>, Seq<char>>(e.0@),
            },
    {
        let hand = self.hand;
        let glyph = match hand.lookup(key) {
            Ok(glyph) => glyph,
            Err(e) => return Err(e),
        };
        let occurrence = self.next_occurrence(key);
        let mut bbox = glyph.bbox;
        let mut strokes = &glyph.strokes;
        let mut on_baseline = true;
        let count = glyph.variants.len();
        if count > 0 {
            let first = self.seed as usize % count;
            let variant = &glyph.variants[occurrence.wrapping_add(first) % count];
            if variant.bbox.is_some() {
                bbox = variant.bbox;
            }
            strokes = &variant.strokes;
            on_baseline = variant.baseline.is_same(S::milli(0));
        }
        let b = match bbox {
            Some(b) => b,
            None => return Err(fault("missing bounding box for glyph ", key)),
        };
        if !on_baseline || strokes.len() == 0 {
            return Err(fault("invalid variant for glyph ", key));
        }
        if !b.min_x.is_finite() || !b.max_x.is_finite() || !b.min_y.is_finite()
            || !b.max_y.is_finite() || b.max_x.lt(b.min_x) || b.max_y.lt(b.min_y) {
            return Err(fault("invalid bounding box for glyph ", key));
        }
        // Delimiters are stretched to a computed height and their width feeds
        // the surrounding slot math, so they stay unjittered.
        let varied = if self.variation && !is_delimiter(key) {
            Some(InstanceVariation::for_instance(self.seed, key, occurrence))
        } else {
            None
        };
        let placed = self.next_placement();
        let drift = if self.variation {
            variation::baseline_drift(self.seed, placed)
        } else {
            S::milli(0)
        };
        let points = match place_points(b, strokes) {
            Some(points) => points,
            None => return Err(fault("invalid stroke point in ", key)),
        };
        // Rotate and scale about the baseline midpoint of the ink.
        let (ink_min_x, ink_max_x) = strokes::range_along(&points, Axis::X);
        let anchor_x = if ink_min_x.is_finite() && ink_max_x.is_finite() {
            ink_min_x.plus(ink_max_x).times(S::milli(500))
        } else {
            S::milli(0)
        };
        let mut marks = write_strokes(&varied, anchor_x, drift, b, strokes);
        let ghost plain = strokes::views_of(marks@);
        let ghost drawn = entry_drawn(old(self)@, key@, occurrence, plain);
        let mut tail_added = false;
        // Uppercase L: its top is a free stem end, so a short entry hook can be
        // added. Other letters are left alone.
        if self.variation && same_text(key, "L") {
            let tail_key = joined(key, "-tail", "");
            proof {
                assert(tail_key@ =~= key@ + "-tail"@) by {
                    reveal_strlit("");
                }
            }
            let tail_bits = instance_bits(self.seed, tail_key.as_str(), occurrence);
            if unit_interval::<S>(redraw(tail_bits, 17)).lt(S::milli(600)) {
                if let Some((top, bottom)) = strokes::ink_extent(&marks, Axis::Y) {
                    tail_added = draw_entry_on_first(
                        &mut marks,
                        tail_bits,
                        top,
                        bottom.minus(top),
                    );
                }
            }
        }
        let unit = S::milli(profile::UNIT);
        let mut width = b.max_x.minus(b.min_x).times(unit).max(S::milli(3_000)).plus(S::milli(GAP));
        let mut above = b.max_y.times(unit).max(S::milli(0));
        let mut below = b.min_y.negated().times(unit).max(S::milli(0));
        // Measure the drawn ink so jittered glyphs keep correct spacing and are
        // never clipped by the image bounds.
        if let Some((min_x, max_x)) = strokes::ink_extent(&marks, Axis::X) {
            if tail_added && min_x.lt(S::milli(0)) {
                pull_in(&mut marks, min_x);
            }
            width = max_x.minus(min_x).max(S::milli(3_000)).plus(S::milli(GAP));
        }
        if let Some((min_y, max_y)) = strokes::ink_extent(&marks, Axis::Y) {
            above = min_y.negated().max(S::milli(0));
            below = max_y.max(S::milli(0));
        }
        let large = same_text(key, "\\int") || same_text(key, "\\oint") || same_text(key, "\\sum")
            || same_text(key, "\\prod");
        let out = Box2 { width, above, below, script_drop: S::milli(0), marks, large };
        assert(out@ == sample_box(key@, b, plain, drawn));
        Ok(out)
    }
}

} // verus!
