//! From laid-out strokes to the lines that the pen leaves on the page.
use crate::distance;
use crate::distance::vary_parenthesis;
use crate::ink;
use crate::ink::InkWeight;
use crate::scalar::Scalar;
use crate::strokes;
use crate::strokes::{Mark, MarkView};
use vstd::prelude::*;

verus! {

/// The empty border round a formula, in thousandths of a pixel.
pub const MARGIN: i32 = 22_000;

/// The weight of an entry stroke where it meets the captured stroke and at its tip, in
/// thousandths of the weight there.
pub const ENTRY_STROKE_START_WEIGHT: i32 = 470;

pub const ENTRY_STROKE_TIP_WEIGHT: i32 = 150;

/// How far the light entry reaches into the captured stroke at most, in thousandths of a
/// pixel.
pub const ENTRY_STROKE_JOIN_LENGTH: i32 = 1_000;

/// One thing drawn in black on the page, in pixels, with round ends and joins.
pub enum Trace<S> {
    /// A disc of diameter `width`.
    Dot { at: (S, S), width: S },
    /// A straight line.
    Line { from: (S, S), to: (S, S), width: S },
    /// Straight lines through some points, drawn as one.
    Curve { points: Vec<(S, S)>, width: S },
}

/// What a [`Trace`] holds.
pub enum TraceView<S> {
    Dot { at: (S, S), width: S },
    Line { from: (S, S), to: (S, S), width: S },
    Curve { points: Seq<(S, S)>, width: S },
}

impl<S> View for Trace<S> {
    type V = TraceView<S>;

    open spec fn view(&self) -> TraceView<S> {
        match *self {
            Trace::Dot { at, width } => TraceView::Dot { at, width },
            Trace::Line { from, to, width } => TraceView::Line { from, to, width },
            Trace::Curve { points, width } => TraceView::Curve { points: points@, width },
        }
    }
}

/// What some traces hold.
pub open spec fn trace_views<S>(traces: Seq<Trace<S>>) -> Seq<TraceView<S>> {
    traces.map_values(|t: Trace<S>| t@)
}

/// The distance between two points.
pub open spec fn length_between<S: Scalar>(a: (S, S), b: (S, S)) -> S {
    (b.0 - a.0).hypotenuse(b.1 - a.1)
}

/// Where a stroke is split near the join with its entry: the segment, and the share of it
/// that lies before the split. There is none where it would fall on a point.
pub open spec fn split_from<S: Scalar>(points: Seq<(S, S)>, index: int, distance: S) -> Option<
    (int, S),
>
    decreases points.len() - index,
{
    let reach = S::mil(ENTRY_STROKE_JOIN_LENGTH as int);
    if index < 0 || index + 1 >= points.len() {
        None
    } else {
        let length = length_between(points[index], points[index + 1]);
        if reach < distance + length {
            let t = (reach - distance) / length;
            if S::mil(10) <= t && t < S::mil(990) {
                Some((index, t))
            } else {
                None
            }
        } else {
            split_from(points, index + 1, distance + length)
        }
    }
}

/// The value the share `t` of the way from one to another.
pub open spec fn between<S: Scalar>(a: S, b: S, t: S) -> S {
    a + (b - a) * t
}

/// A stroke with a further point near the join with its entry.
pub open spec fn split_near_join<S: Scalar>(mark: MarkView<S>) -> MarkView<S> {
    match split_from(mark.points, mark.entry_tail_points as int, S::mil(0)) {
        Some((i, t)) if mark.entry_tail_points > 0 => {
            let (from, to) = (mark.points[i], mark.points[i + 1]);
            MarkView {
                points: mark.points.insert(
                    i + 1,
                    (between(from.0, to.0, t), between(from.1, to.1, t)),
                ),
                pressures: match mark.pressures {
                    Some(p) => Some(p.insert(i + 1, between(p[i], p[i + 1], t))),
                    None => None,
                },
                ..mark
            }
        },
        _ => mark,
    }
}

/// A stroke with recorded pressures, and what it is drawn with. `top` is where the
/// baseline lies on the page.
pub struct Inked<S> {
    pub mark: MarkView<S>,
    pub pressures: Seq<S>,
    pub ink: InkWeight<S>,
    pub top: S,
}

/// Where a point comes to lie on the page.
pub open spec fn on_page<S: Scalar>(top: S, point: (S, S)) -> (S, S) {
    (S::mil(MARGIN as int) + point.0, top + point.1)
}

/// How far the light entry reaches: its last point, and the captured length before that.
pub open spec fn entry_reach<S: Scalar>(points: Seq<(S, S)>, last: int, captured: S) -> (int, S)
    decreases points.len() - last,
{
    if 0 <= last && last + 1 < points.len() && captured < S::mil(750) {
        entry_reach(
            points,
            last + 1,
            captured + length_between(points[last], points[last + 1]),
        )
    } else {
        (last, captured)
    }
}

/// The weight of segment `index` of an entry: it climbs from the tip to the join.
pub open spec fn entry_factor<S: Scalar>(entry: int, index: int) -> S {
    let start = S::mil(ENTRY_STROKE_START_WEIGHT as int);
    let tip = S::mil(ENTRY_STROKE_TIP_WEIGHT as int);
    if index < entry {
        tip + (start - tip) * ((S::counted(index) + S::mil(1_000)) / S::counted(entry))
    } else {
        start
    }
}

/// The entry and the first of the captured stroke, one line per segment.
pub open spec fn entry_lines<S: Scalar>(inked: Inked<S>, last: int) -> Seq<TraceView<S>> {
    let entry = inked.mark.entry_tail_points as int;
    Seq::new(
        last as nat,
        |i: int|
            TraceView::Line {
                from: on_page(inked.top, inked.mark.points[i]),
                to: on_page(inked.top, inked.mark.points[i + 1]),
                width: ink::width_for(inked.ink, inked.pressures[entry]) * entry_factor(entry, i),
            },
    )
}

/// In how many sections segment `i` is drawn, `captured` into the captured stroke: while
/// the weight still climbs it changes with every section.
pub open spec fn section_count<S: Scalar>(inked: Inked<S>, i: int, captured: S) -> usize {
    let length = length_between(inked.mark.points[i], inked.mark.points[i + 1]);
    if inked.mark.entry_tail_points > 0 && captured < inked.mark.entry_taper_length {
        (length / S::mil(1_500)).ceiling().larger(S::mil(1_000)).count()
    } else {
        1
    }
}

/// The width of the ink at `midpoint` into the captured stroke.
pub open spec fn section_width<S: Scalar>(inked: Inked<S>, pressure: S, midpoint: S) -> S {
    let full = ink::width_for(inked.ink, pressure);
    let entry = inked.mark.entry_tail_points as int;
    if entry == 0 {
        full
    } else {
        let progress = (midpoint / inked.mark.entry_taper_length).held(S::mil(0), S::mil(1_000));
        let gradual = progress * progress * (S::mil(3_000) - S::mil(2_000) * progress);
        let light = ink::width_for(inked.ink, inked.pressures[entry]) * S::mil(
            ENTRY_STROKE_START_WEIGHT as int,
        );
        light + (full - light) * gradual
    }
}

/// Section `k` of `count` of segment `i`.
pub open spec fn section_line<S: Scalar>(
    inked: Inked<S>,
    i: int,
    captured: S,
    k: int,
    count: int,
) -> TraceView<S> {
    let (a, b) = (inked.mark.points[i], inked.mark.points[i + 1]);
    let from_t = S::counted(k) / S::counted(count);
    let to_t = S::counted(k + 1) / S::counted(count);
    let (x, y) = on_page(inked.top, a);
    let (p, q) = (inked.pressures[i], inked.pressures[i + 1]);
    TraceView::Line {
        from: (x + (b.0 - a.0) * from_t, y + (b.1 - a.1) * from_t),
        to: (x + (b.0 - a.0) * to_t, y + (b.1 - a.1) * to_t),
        width: section_width(
            inked,
            p + (q - p) * (from_t + to_t) * S::mil(500),
            captured + length_between(a, b) * (from_t + to_t) * S::mil(500),
        ),
    }
}

/// The sections of segment `i`.
pub open spec fn section_lines<S: Scalar>(inked: Inked<S>, i: int, captured: S) -> Seq<
    TraceView<S>,
> {
    let count = section_count(inked, i, captured);
    Seq::new(count as nat, |k: int| section_line(inked, i, captured, k, count as int))
}

/// The lines of the segments from the `i`-th on.
pub open spec fn lines_from<S: Scalar>(inked: Inked<S>, i: int, captured: S) -> Seq<TraceView<S>>
    decreases inked.mark.points.len() - i,
{
    let points = inked.mark.points;
    if i < 0 || i + 1 >= points.len() {
        Seq::empty()
    } else {
        section_lines(inked, i, captured) + lines_from(
            inked,
            i + 1,
            captured + length_between(points[i], points[i + 1]),
        )
    }
}

/// The lines of a stroke with recorded pressures.
pub open spec fn inked_lines<S: Scalar>(inked: Inked<S>) -> Seq<TraceView<S>> {
    if inked.mark.entry_tail_points > 0 {
        let (last, captured) = entry_reach(
            inked.mark.points,
            inked.mark.entry_tail_points as int,
            S::mil(0),
        );
        entry_lines(inked, last) + lines_from(inked, last, captured)
    } else {
        lines_from(inked, 0, S::mil(0))
    }
}

/// What is drawn for a stroke: a single point is a dot, a stroke with pressures varies in
/// width, and any other one is a curve of the ordinary width.
pub open spec fn traces_of_mark<S: Scalar>(mark: MarkView<S>, ink: InkWeight<S>, top: S) -> Seq<
    TraceView<S>,
> {
    let mark = split_near_join(distance::parenthesis_varied(mark));
    if mark.points.len() == 0 {
        Seq::empty()
    } else if mark.points.len() == 1 {
        seq![
            TraceView::Dot {
                at: on_page(top, mark.points[0]),
                width: match mark.pressures {
                    Some(p) => ink::width_for(ink, p[0]),
                    None => ink.base,
                },
            },
        ]
    } else {
        match mark.pressures {
            Some(pressures) => inked_lines(Inked { mark, pressures, ink, top }),
            None => seq![
                TraceView::Curve {
                    points: mark.points.map_values(|p: (S, S)| on_page(top, p)),
                    width: ink.base,
                },
            ],
        }
    }
}

/// What is drawn for some strokes, in their order.
pub open spec fn traces_of<S: Scalar>(marks: Seq<MarkView<S>>, ink: InkWeight<S>, top: S) -> Seq<
    TraceView<S>,
>
    decreases marks.len(),
{
    if marks.len() == 0 {
        Seq::empty()
    } else {
        traces_of(marks.drop_last(), ink, top) + traces_of_mark(marks.last(), ink, top)
    }
}

/// A trace on a page that is `k` times as large.
pub open spec fn enlarged<S: Scalar>(trace: TraceView<S>, k: S) -> TraceView<S> {
    match trace {
        TraceView::Dot { at, width } => TraceView::Dot {
            at: (at.0 * k, at.1 * k),
            width: width * k,
        },
        TraceView::Line { from, to, width } => TraceView::Line {
            from: (from.0 * k, from.1 * k),
            to: (to.0 * k, to.1 * k),
            width: width * k,
        },
        TraceView::Curve { points, width } => TraceView::Curve {
            points: points.map_values(|p: (S, S)| (p.0 * k, p.1 * k)),
            width: width * k,
        },
    }
}

/// All traces on a page that is `k` times as large.
pub open spec fn all_enlarged<S: Scalar>(traces: Seq<TraceView<S>>, k: S) -> Seq<TraceView<S>> {
    traces.map_values(|t: TraceView<S>| enlarged(t, k))
}

fn distance_between<S: Scalar>(a: (S, S), b: (S, S)) -> (r: S)
    ensures
        r == length_between(a, b),
{
    b.0.minus(a.0).hypot(b.1.minus(a.1))
}

fn part_way<S: Scalar>(a: S, b: S, t: S) -> (r: S)
    ensures
        r == between(a, b, t),
{
    a.plus(b.minus(a).times(t))
}

fn find_split<S: Scalar>(points: &Vec<(S, S)>, start: usize) -> (r: Option<(usize, S)>)
    requires
        start < points.len(),
    ensures
        match r {
            Some((i, t)) => i + 1 < points.len() && split_from(
                points@,
                start as int,
                S::mil(0),
            ) == Some((i as int, t)),
            None => split_from(points@, start as int, S::mil(0)) is None,
        },
{
    let reach = S::milli(ENTRY_STROKE_JOIN_LENGTH);
    let mut distance = S::milli(0);
    let mut index: usize = start;
    while index < points.len() - 1
        invariant
            index < points.len(),
            reach == S::mil(ENTRY_STROKE_JOIN_LENGTH as int),
            split_from(points@, start as int, S::mil(0)) == split_from(
                points@,
                index as int,
                distance,
            ),
        decreases points.len() - index,
    {
        let length = distance_between(points[index], points[index + 1]);
        if reach.lt(distance.plus(length)) {
            let t = reach.minus(distance).over(length);
            if S::milli(10).le(t) && t.lt(S::milli(990)) {
                return Some((index, t));
            }
            return None;
        }
        distance = distance.plus(length);
        index += 1;
    }
    None
}

/// A captured downstroke may begin with one long sampled segment.
/// Split it near the join so the light entry does not stay thin for
/// the whole segment and then jump to the next segment's width.
fn split_entry<S: Scalar>(mark: &mut Mark<S>)
    requires
        strokes::mark_is_sound(old(mark)@),
    ensures
        final(mark)@ == split_near_join(old(mark)@),
        strokes::mark_is_sound(final(mark)@),
{
    if mark.entry_tail_points > 0 {
        if let Some((index, t)) = find_split(&mark.points, mark.entry_tail_points) {
            let (from, to) = (mark.points[index], mark.points[index + 1]);
            mark.points.insert(
                index + 1,
                (part_way(from.0, to.0, t), part_way(from.1, to.1, t)),
            );
            if let Some(pressures) = &mut mark.pressures {
                let pressure = part_way(pressures[index], pressures[index + 1], t);
                pressures.insert(index + 1, pressure);
            }
        }
    }
}

fn place<S: Scalar>(top: S, point: (S, S)) -> (r: (S, S))
    ensures
        r == on_page(top, point),
{
    (S::milli(MARGIN).plus(point.0), top.plus(point.1))
}

fn find_reach<S: Scalar>(points: &Vec<(S, S)>, entry: usize) -> (r: (usize, S))
    requires
        entry < points.len(),
    ensures
        (r.0 as int, r.1) == entry_reach(points@, entry as int, S::mil(0)),
        entry <= r.0 < points.len(),
{
    let mut captured = S::milli(0);
    let mut last: usize = entry;
    while last < points.len() - 1 && captured.lt(S::milli(750))
        invariant
            entry <= last < points.len(),
            entry_reach(points@, entry as int, S::mil(0)) == entry_reach(
                points@,
                last as int,
                captured,
            ),
        decreases points.len() - last,
    {
        captured = captured.plus(distance_between(points[last], points[last + 1]));
        last += 1;
    }
    (last, captured)
}

/// Adds the lines of an entry.
fn draw_entry<S: Scalar>(
    out: &mut Vec<Trace<S>>,
    mark: &Mark<S>,
    pressures: &Vec<S>,
    ink: InkWeight<S>,
    top: S,
    last: usize,
)
    requires
        mark.pressures == Some(*pressures),
        strokes::mark_is_sound(mark@),
        last < mark.points.len(),
    ensures
        trace_views(final(out)@) == trace_views(old(out)@) + entry_lines(
            Inked { mark: mark@, pressures: pressures@, ink, top },
            last as int,
        ),
{
    let ghost inked = Inked { mark: mark@, pressures: pressures@, ink, top };
    let ghost before = trace_views(out@);
    let entry = mark.entry_tail_points;
    let join_width = ink.width(pressures[entry]);
    let start = S::milli(ENTRY_STROKE_START_WEIGHT);
    let tip = S::milli(ENTRY_STROKE_TIP_WEIGHT);
    let mut i: usize = 0;
    // Taper the entry itself: its tip is the thinnest point, and the
    // width climbs to the join weight at the recorded downstroke.
    while i < last
        invariant
            i <= last < mark.points.len(),
            inked == (Inked { mark: mark@, pressures: pressures@, ink, top }),
            entry == mark.entry_tail_points,
            join_width == ink::width_for(ink, pressures@[entry as int]),
            start == S::mil(ENTRY_STROKE_START_WEIGHT as int),
            tip == S::mil(ENTRY_STROKE_TIP_WEIGHT as int),
            trace_views(out@) == before + entry_lines(inked, last as int).take(i as int),
        decreases last - i,
    {
        let factor = if i < entry {
            let progress = S::whole(i).plus(S::milli(1_000)).over(S::whole(entry));
            tip.plus(start.minus(tip).times(progress))
        } else {
            start
        };
        let ghost earlier = out@;
        let trace = Trace::Line {
            from: place(top, mark.points[i]),
            to: place(top, mark.points[i + 1]),
            width: join_width.times(factor),
        };
        out.push(trace);
        proof {
            let lines = entry_lines(inked, last as int);
            assert(trace@ == lines[i as int]);
            assert(trace_views(out@) =~= trace_views(earlier).push(trace@));
            assert(lines.take(i + 1) =~= lines.take(i as int).push(lines[i as int]));
        }
        i += 1;
    }
    proof {
        let lines = entry_lines(inked, last as int);
        assert(lines.take(last as int) =~= lines);
    }
}

/// Adds the sections of one segment.
fn draw_sections<S: Scalar>(
    out: &mut Vec<Trace<S>>,
    mark: &Mark<S>,
    pressures: &Vec<S>,
    ink: InkWeight<S>,
    top: S,
    i: usize,
    captured: S,
)
    requires
        mark.pressures == Some(*pressures),
        strokes::mark_is_sound(mark@),
        i + 1 < mark.points.len(),
    ensures
        trace_views(final(out)@) == trace_views(old(out)@) + section_lines(
            Inked { mark: mark@, pressures: pressures@, ink, top },
            i as int,
            captured,
        ),
{
    let ghost inked = Inked { mark: mark@, pressures: pressures@, ink, top };
    let ghost before = trace_views(out@);
    let entry = mark.entry_tail_points;
    let (a, b) = (mark.points[i], mark.points[i + 1]);
    let (p, q) = (pressures[i], pressures[i + 1]);
    let (x, y) = place(top, a);
    let length = distance_between(a, b);
    let half = S::milli(500);
    let sections: usize = if entry > 0 && captured.lt(mark.entry_taper_length) {
        length.over(S::milli(1_500)).ceil().max(S::milli(1_000)).to_count()
    } else {
        1
    };
    let ghost lines = section_lines(inked, i as int, captured);
    let mut k: usize = 0;
    while k < sections
        invariant
            k <= sections,
            sections == section_count(inked, i as int, captured),
            inked == (Inked { mark: mark@, pressures: pressures@, ink, top }),
            strokes::mark_is_sound(mark@),
            mark.pressures == Some(*pressures),
            entry == mark.entry_tail_points,
            i + 1 < mark.points.len(),
            a == mark.points@[i as int],
            b == mark.points@[i + 1],
            p == pressures@[i as int],
            q == pressures@[i + 1],
            (x, y) == on_page(top, a),
            length == length_between(a, b),
            half == S::mil(500),
            lines == section_lines(inked, i as int, captured),
            trace_views(out@) == before + lines.take(k as int),
        decreases sections - k,
    {
        let from_t = S::whole(k).over(S::whole(sections));
        let to_t = S::whole(k + 1).over(S::whole(sections));
        let midpoint = captured.plus(length.times(from_t.plus(to_t)).times(half));
        let pressure = p.plus(q.minus(p).times(from_t.plus(to_t)).times(half));
        let full = ink.width(pressure);
        let width = if entry == 0 {
            full
        } else {
            let progress = midpoint.over(mark.entry_taper_length).clamp(
                S::milli(0),
                S::milli(1_000),
            );
            let gradual = progress.times(progress).times(
                S::milli(3_000).minus(S::milli(2_000).times(progress)),
            );
            let light = ink.width(pressures[entry]).times(S::milli(ENTRY_STROKE_START_WEIGHT));
            light.plus(full.minus(light).times(gradual))
        };
        let dx = b.0.minus(a.0);
        let dy = b.1.minus(a.1);
        let trace = Trace::Line {
            from: (x.plus(dx.times(from_t)), y.plus(dy.times(from_t))),
            to: (x.plus(dx.times(to_t)), y.plus(dy.times(to_t))),
            width,
        };
        let ghost earlier = out@;
        out.push(trace);
        proof {
            assert(trace@ == lines[k as int]);
            assert(trace_views(out@) =~= trace_views(earlier).push(trace@));
            assert(lines.take(k + 1) =~= lines.take(k as int).push(lines[k as int]));
        }
        k += 1;
    }
    proof {
        assert(lines.take(sections as int) =~= lines);
    }
}

/// Adds the lines of a stroke with recorded pressures.
fn draw_inked<S: Scalar>(
    out: &mut Vec<Trace<S>>,
    mark: &Mark<S>,
    pressures: &Vec<S>,
    ink: InkWeight<S>,
    top: S,
)
    requires
        mark.pressures == Some(*pressures),
        strokes::mark_is_sound(mark@),
        mark.points.len() > 0,
    ensures
        trace_views(final(out)@) == trace_views(old(out)@) + inked_lines(
            Inked { mark: mark@, pressures: pressures@, ink, top },
        ),
{
    let ghost inked = Inked { mark: mark@, pressures: pressures@, ink, top };
    let ghost before = trace_views(out@);
    let mut captured = S::milli(0);
    let mut i: usize = 0;
    if mark.entry_tail_points > 0 {
        let (last, reached) = find_reach(&mark.points, mark.entry_tail_points);
        draw_entry(out, mark, pressures, ink, top, last);
        captured = reached;
        i = last;
    }
    proof {
        assert(before + inked_lines(inked) =~= trace_views(out@) + lines_from(
            inked,
            i as int,
            captured,
        ));
    }
    while i < mark.points.len() - 1
        invariant
            i < mark.points.len(),
            inked == (Inked { mark: mark@, pressures: pressures@, ink, top }),
            mark.pressures == Some(*pressures),
            strokes::mark_is_sound(mark@),
            before + inked_lines(inked) == trace_views(out@) + lines_from(
                inked,
                i as int,
                captured,
            ),
        decreases mark.points.len() - i,
    {
        let ghost earlier = trace_views(out@);
        let ghost so_far = captured;
        draw_sections(out, mark, pressures, ink, top, i, captured);
        captured = captured.plus(distance_between(mark.points[i], mark.points[i + 1]));
        proof {
            assert(earlier + lines_from(inked, i as int, so_far) =~= trace_views(out@)
                + lines_from(inked, i + 1, captured));
        }
        i += 1;
    }
}

/// Adds what is drawn for a stroke.
fn draw_mark<S: Scalar>(out: &mut Vec<Trace<S>>, mark: Mark<S>, ink: InkWeight<S>, top: S)
    requires
        strokes::mark_is_sound(mark@),
    ensures
        trace_views(final(out)@) == trace_views(old(out)@) + traces_of_mark(mark@, ink, top),
{
    let ghost before = out@;
    let mut mark = mark;
    vary_parenthesis(&mut mark);
    split_entry(&mut mark);
    if mark.points.len() == 0 {
        return;
    }
    if mark.points.len() == 1 {
        let width = match &mark.pressures {
            Some(p) => ink.width(p[0]),
            None => ink.base,
        };
        let trace = Trace::Dot { at: place(top, mark.points[0]), width };
        out.push(trace);
        proof {
            assert(trace_views(out@) =~= trace_views(before) + seq![trace@]);
        }
        return;
    }
    match &mark.pressures {
        Some(pressures) => draw_inked(out, &mark, pressures, ink, top),
        None => {
            let mut points: Vec<(S, S)> = Vec::new();
            let ghost all = mark.points@.map_values(|p: (S, S)| on_page(top, p));
            let mut i: usize = 0;
            while i < mark.points.len()
                invariant
                    i <= mark.points.len(),
                    all == mark.points@.map_values(|p: (S, S)| on_page(top, p)),
                    points@ == all.take(i as int),
                decreases mark.points.len() - i,
            {
                points.push(place(top, mark.points[i]));
                proof {
                    assert(all.take(i + 1) =~= all.take(i as int).push(all[i as int]));
                }
                i += 1;
            }
            proof {
                assert(all.take(i as int) =~= all);
            }
            let trace = Trace::Curve { points, width: ink.base };
            out.push(trace);
            proof {
                assert(trace_views(out@) =~= trace_views(before) + seq![trace@]);
            }
        },
    }
}

/// What is drawn for laid-out strokes whose baseline lies at `top` on the page.
pub fn draw<S: Scalar>(marks: Vec<Mark<S>>, ink: InkWeight<S>, top: S) -> (r: Vec<Trace<S>>)
    requires
        strokes::marks_are_sound(strokes::views_of(marks@)),
    ensures
        trace_views(r@) == traces_of(strokes::views_of(marks@), ink, top),
{
    let mut out: Vec<Trace<S>> = Vec::new();
    let ghost all = marks@;
    let ghost views = strokes::views_of(all);
    proof {
        assert(trace_views(out@) =~= Seq::empty());
    }
    for mark in rest: marks
        invariant
            rest.seq() == all,
            views == strokes::views_of(all),
            strokes::marks_are_sound(views),
            trace_views(out@) == traces_of(views.take(rest.index()), ink, top),
    {
        proof {
            let n = rest.index();
            assert(views[n] == mark@);
            assert(views.take(n + 1).drop_last() =~= views.take(n));
        }
        draw_mark(&mut out, mark, ink, top);
    }
    proof {
        assert(views.take(all.len() as int) =~= views);
    }
    out
}

/// Enlarges every trace.
pub fn enlarge<S: Scalar>(traces: Vec<Trace<S>>, k: S) -> (r: Vec<Trace<S>>)
    ensures
        trace_views(r@) == all_enlarged(trace_views(traces@), k),
{
    let mut out: Vec<Trace<S>> = Vec::new();
    let ghost all = traces@;
    let ghost target = all_enlarged(trace_views(all), k);
    for trace in rest: traces
        invariant
            rest.seq() == all,
            target == all_enlarged(trace_views(all), k),
            trace_views(out@) == target.take(rest.index()),
    {
        let ghost earlier = out@;
        let larger = enlarge_one(trace, k);
        out.push(larger);
        proof {
            let n = rest.index();
            assert(target[n] == enlarged(all[n]@, k));
            assert(trace_views(out@) =~= trace_views(earlier).push(larger@));
            assert(target.take(n + 1) =~= target.take(n).push(target[n]));
        }
    }
    proof {
        assert(target.take(all.len() as int) =~= target);
    }
    out
}

fn enlarge_one<S: Scalar>(trace: Trace<S>, k: S) -> (r: Trace<S>)
    ensures
        r@ == enlarged(trace@, k),
{
    match trace {
        Trace::Dot { at, width } => Trace::Dot {
            at: (at.0.times(k), at.1.times(k)),
            width: width.times(k),
        },
        Trace::Line { from, to, width } => Trace::Line {
            from: (from.0.times(k), from.1.times(k)),
            to: (to.0.times(k), to.1.times(k)),
            width: width.times(k),
        },
        Trace::Curve { points, width } => {
            let ghost target = points@.map_values(|p: (S, S)| (p.0 * k, p.1 * k));
            let mut larger: Vec<(S, S)> = Vec::new();
            let mut i: usize = 0;
            while i < points.len()
                invariant
                    i <= points.len(),
                    target == points@.map_values(|p: (S, S)| (p.0 * k, p.1 * k)),
                    larger@ == target.take(i as int),
                decreases points.len() - i,
            {
                let p = points[i];
                larger.push((p.0.times(k), p.1.times(k)));
                proof {
                    assert(target.take(i + 1) =~= target.take(i as int).push(target[i as int]));
                }
                i += 1;
            }
            proof {
                assert(target.take(i as int) =~= target);
            }
            Trace::Curve { points: larger, width: width.times(k) }
        },
    }
}

} // verus!
