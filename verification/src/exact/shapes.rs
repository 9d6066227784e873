//! How strokes are shaped when they are drawn.
use crate::bits;
use crate::distance;
use crate::entries;
use crate::entry;
use crate::exact::arithmetic;
use crate::exact::boxes;
use crate::exact::lines;
use crate::glyphs;
use crate::glyphs::{Fit, Slot};
use crate::milli::Milli;
use crate::pen;
use crate::profile;
use crate::profile::{Bounds, Point};
use crate::scalar::Scalar;
use crate::strokes;
use crate::strokes::{Axis, BoxView, MarkView};
use crate::variation;
use vstd::prelude::*;

verus! {

/// A bent parenthesis ends exactly where it did before.
pub proof fn law_bending_keeps_the_ends(mark: MarkView<Milli>)
    requires
        3 <= mark.points.len() <= 1_000_000_000,
    ensures
        distance::parenthesis_varied(mark).points[0] == mark.points[0],
        distance::parenthesis_varied(mark).points.last() == mark.points.last(),
{
    let last = mark.points.len() - 1;
    let n = last * 1_000;
    assert(n * 1_000 / n == 1_000) by (nonlinear_arith)
        requires
            n > 0,
    ;
    let start = Milli::counted(0) / Milli::counted(last);
    let end = Milli::counted(last) / Milli::counted(last);
    arithmetic::lemma_ratio(0, n);
    arithmetic::lemma_ratio(n, n);
    assert(0int / n == 0);
    assert(start == Milli(0));
    assert(end == Milli(1_000));
    arithmetic::lemma_half_turn_is_level();
    assert(Milli::half_turn() * start == Milli(0));
    assert(Milli::half_turn() * end == Milli(3_142));
    assert((Milli::half_turn() * start).sine() == Milli(0));
    assert((Milli::half_turn() * end).sine() == Milli(0));
    assert forall|a: Milli, b: Milli| #[trigger] (a + Milli(0) * b) == a by {
        assert(0 * b.0 == 0);
    }
}

proof fn lemma_bend_shape<S: Scalar>(mark: MarkView<S>, i: int) -> (r: (S, S, S))
    requires
        mark.parenthesis,
        3 <= mark.points.len(),
        0 <= i < mark.points.len(),
    ensures
        ({
            let t = S::counted(i) / S::counted(mark.points.len() - 1);
            let envelope = (S::half_turn() * t).sine();
            distance::parenthesis_varied(mark).points[i] == (
                mark.points[i].0 + envelope * (S::mil(1_250) * r.0.sine() + S::mil(950)
                    * r.1.cosine() * (S::mil(2_000) * t - S::mil(1_000))),
                mark.points[i].1 + envelope * (S::mil(650) * r.2.sine()),
            )
        }),
{
    let (x, y) = mark.points[0];
    (
        x * S::mil(129) + y * S::mil(217),
        x * S::mil(71) + y * S::mil(170),
        (x + y) * S::mil(90),
    )
}

proof fn lemma_bend_within(envelope: Milli, belly: Milli, skew: Milli, rise: Milli, t: Milli)
    requires
        0 <= envelope.0 <= 1_000,
        arithmetic::within(belly, 1_000),
        arithmetic::within(skew, 1_000),
        arithmetic::within(rise, 1_000),
        0 <= t.0 <= 1_000,
    ensures
        arithmetic::within(
            envelope * (Milli(1_250) * belly + Milli(950) * skew * (Milli(2_000) * t - Milli(
                1_000,
            ))),
            2_200,
        ),
        arithmetic::within(envelope * (Milli(650) * rise), 650),
{
    arithmetic::lemma_product_within(Milli(1_250), belly, 1_250, 1_000);
    arithmetic::lemma_product_within(Milli(950), skew, 950, 1_000);
    arithmetic::lemma_product_within(Milli(650), rise, 650, 1_000);
    arithmetic::lemma_share(t.0 as int, 2_000);
    let lean = Milli(2_000) * t - Milli(1_000);
    assert(arithmetic::within(lean, 1_000));
    arithmetic::lemma_product_within(Milli(950) * skew, lean, 950, 1_000);
    let across = Milli(1_250) * belly + Milli(950) * skew * lean;
    arithmetic::lemma_product_within(envelope, across, 1_000, 2_200);
    arithmetic::lemma_product_within(envelope, Milli(650) * rise, 1_000, 650);
}

/// Bending is subtle: no point of a parenthesis moves by more than 2.2 pixels across and
/// 0.65 pixels up or down.
pub proof fn law_bending_is_subtle(mark: MarkView<Milli>, i: int)
    requires
        0 <= i < mark.points.len() <= 1_000_000_000,
        lines::is_near(mark.points[i], 1_000_000_000),
    ensures
        ({
            let (p, q) = (mark.points[i], distance::parenthesis_varied(mark).points[i]);
            &&& -2_200 <= q.0.0 - p.0.0 <= 2_200
            &&& -650 <= q.1.0 - p.1.0 <= 650
        }),
{
    if mark.parenthesis && mark.points.len() >= 3 {
        let last = mark.points.len() - 1;
        let n = last * 1_000;
        let t = Milli::counted(i) / Milli::counted(last);
        arithmetic::lemma_ratio(i * 1_000, n);
        assert(0 <= i * 1_000 * 1_000 / n <= 1_000) by (nonlinear_arith)
            requires
                0 <= i <= last,
                n == last * 1_000,
                0 < last,
        ;
        assert(0 <= t.0 <= 1_000);
        let (a, b, c) = lemma_bend_shape(mark, i);
        arithmetic::lemma_sines_are_within_one(a);
        arithmetic::lemma_sines_are_within_one(b);
        arithmetic::lemma_sines_are_within_one(c);
        arithmetic::lemma_arcs_are_not_negative(t);
        let envelope = (Milli::half_turn() * t).sine();
        lemma_bend_within(envelope, a.sine(), b.cosine(), c.sine(), t);
    }
}

// Instances.

/// An instance is pressed between 0.78 and 1.28 times as hard as its sample.
pub proof fn law_pressure_varies_within_its_band(seed: u64, key: Seq<char>, index: usize)
    ensures
        780 <= variation::variation_of::<Milli>(seed, key, index).pressure_scale.0 <= 1_280,
{
    let b = bits::bits_of_instance(seed, key, index);
    let draw = bits::redrawn(b, 7);
    arithmetic::lemma_draws_are_within_one(draw);
    arithmetic::lemma_share(bits::unit_of::<Milli>(draw).0 as int, 500);
    assert(Milli::mil(1_280) - Milli::mil(780) == Milli(500));
}

proof fn lemma_scales(x: Milli, y: Milli)
    requires
        arithmetic::within(x, 1_000),
        arithmetic::within(y, 1_000),
    ensures
        955 <= (Milli(1_000) + Milli(45) * x).0 <= 1_045,
        946 <= (Milli(1_000) + Milli(45) * Milli(1_200) * y).0 <= 1_054,
{
    arithmetic::lemma_product_within(Milli(45), x, 45, 1_000);
    arithmetic::lemma_share(1_200, 45);
    assert(Milli(45) * Milli(1_200) == Milli(54));
    arithmetic::lemma_product_within(Milli(54), y, 54, 1_000);
}

proof fn lemma_turns(x: Milli, y: Milli)
    requires
        arithmetic::within(x, 1_000),
        arithmetic::within(y, 1_000),
    ensures
        arithmetic::within(variation::max_rotation::<Milli>() * x, 27),
        arithmetic::within(Milli(3_000) * y, 3_000),
{
    arithmetic::lemma_share(1_600, 3_142);
    assert(Milli(1_600) * Milli(3_142) == Milli(5_027));
    arithmetic::lemma_ratio(5_027, 180_000);
    assert(5_027 * 1_000 / 180_000 == 27int);
    assert(variation::max_rotation::<Milli>() == Milli(27));
    arithmetic::lemma_product_within(Milli(27), x, 27, 1_000);
    arithmetic::lemma_product_within(Milli(3_000), y, 3_000, 1_000);
}

/// The draws that an instance varies by.
pub proof fn lemma_variation_shape<S: Scalar>(seed: u64, key: Seq<char>, index: usize) -> (r: (
    u64,
    u64,
    u64,
    u64,
))
    ensures
        ({
            let v = variation::variation_of::<S>(seed, key, index);
            &&& v.scale_x == S::mil(1_000) + S::mil(45) * bits::signed_unit_of::<S>(r.0)
            &&& v.scale_y == S::mil(1_000) + S::mil(45) * S::mil(1_200) * bits::signed_unit_of::<S>(
                r.1,
            )
            &&& v.rotation == variation::max_rotation::<S>() * bits::signed_unit_of::<S>(r.2)
            &&& v.baseline_offset == S::mil(3_000) * bits::signed_unit_of::<S>(r.3)
        }),
{
    let b = bits::bits_of_instance(seed, key, index);
    (bits::redrawn(b, 17), bits::redrawn(b, 29), bits::redrawn(b, 41), bits::redrawn(b, 53))
}

proof fn lemma_variation_bounds(seed: u64, key: Seq<char>, index: usize) -> (v:
    variation::InstanceVariation<Milli>)
    ensures
        v == variation::variation_of::<Milli>(seed, key, index),
        955 <= v.scale_x.0 <= 1_045,
        946 <= v.scale_y.0 <= 1_054,
        arithmetic::within(v.rotation, 27),
        arithmetic::within(v.baseline_offset, 3_000),
{
    let (x, y, r, o) = lemma_variation_shape::<Milli>(seed, key, index);
    arithmetic::lemma_draws_are_within_one(x);
    arithmetic::lemma_draws_are_within_one(y);
    arithmetic::lemma_draws_are_within_one(r);
    arithmetic::lemma_draws_are_within_one(o);
    lemma_scales(bits::signed_unit_of::<Milli>(x), bits::signed_unit_of::<Milli>(y));
    lemma_turns(bits::signed_unit_of::<Milli>(r), bits::signed_unit_of::<Milli>(o));
    variation::variation_of::<Milli>(seed, key, index)
}

proof fn lemma_drift_shape<S: Scalar>(seed: u64, placed: usize) -> (r: (S, S))
    ensures
        variation::drift_of::<S>(seed, placed) == S::mil(1_800) * r.0.sine() + S::mil(900)
            * r.1.sine(),
{
    let phase = S::counted((seed % 997) as int) * S::mil(17);
    let index = S::counted(placed as int);
    (index * S::mil(230) + phase, index * S::mil(410) + phase * S::mil(1_700))
}

/// The baseline drifts by no more than 2.7 pixels.
pub proof fn law_drift_is_slight(seed: u64, placed: usize)
    ensures
        arithmetic::within(variation::drift_of::<Milli>(seed, placed), 2_700),
{
    let (a, b) = lemma_drift_shape::<Milli>(seed, placed);
    arithmetic::lemma_sines_are_within_one(a);
    arithmetic::lemma_sines_are_within_one(b);
    arithmetic::lemma_product_within(Milli(1_800), a.sine(), 1_800, 1_000);
    arithmetic::lemma_product_within(Milli(900), b.sine(), 900, 1_000);
}

proof fn lemma_turn_is_slight(x: Milli, y: Milli, sine: Milli, cosine: Milli)
    requires
        arithmetic::within(x, 40_000),
        arithmetic::within(y, 50_000),
        arithmetic::within(sine, 30),
        999 <= cosine.0 <= 1_000,
    ensures
        -1_541 <= (x * cosine - y * sine).0 - x.0 <= 1_541,
        -1_251 <= (x * sine + y * cosine).0 - y.0 <= 1_251,
{
    arithmetic::lemma_nearly_once(x, cosine, 40_000, 1);
    arithmetic::lemma_nearly_once(y, cosine, 50_000, 1);
    arithmetic::lemma_product_within(y, sine, 50_000, 30);
    arithmetic::lemma_product_within(x, sine, 40_000, 30);
}

/// Variation is subtle: a point of a sample up to forty pixels to either side of its
/// middle, and up to fifty above or below the baseline, is written within five pixels
/// across, and ten up or down, of where it was recorded.
pub proof fn law_variation_is_subtle(
    seed: u64,
    key: Seq<char>,
    index: usize,
    placed: usize,
    point: (Milli, Milli),
    anchor: Milli,
)
    requires
        arithmetic::within(anchor, 1_000_000_000),
        -40_000 <= point.0.0 - anchor.0 <= 40_000,
        arithmetic::within(point.1, 50_000),
    ensures
        ({
            let v = variation::variation_of::<Milli>(seed, key, index);
            let drift = variation::drift_of::<Milli>(seed, placed);
            let q = variation::varied_point(v, point, anchor, drift);
            &&& -5_000 <= q.0.0 - point.0.0 <= 5_000
            &&& -10_000 <= q.1.0 - point.1.0 <= 10_000
        }),
{
    let v = lemma_variation_bounds(seed, key, index);
    let drift = variation::drift_of::<Milli>(seed, placed);
    law_drift_is_slight(seed, placed);
    arithmetic::lemma_small_angles(v.rotation);
    lemma_varied_point_is_near(v, point, anchor, drift);
}

proof fn lemma_varied_point_is_near(
    v: variation::InstanceVariation<Milli>,
    point: (Milli, Milli),
    anchor: Milli,
    drift: Milli,
)
    requires
        955 <= v.scale_x.0 <= 1_045,
        946 <= v.scale_y.0 <= 1_054,
        arithmetic::within(v.rotation.sine(), 30),
        999 <= v.rotation.cosine().0 <= 1_000,
        arithmetic::within(v.baseline_offset, 3_000),
        arithmetic::within(drift, 2_700),
        arithmetic::within(anchor, 1_000_000_000),
        -40_000 <= point.0.0 - anchor.0 <= 40_000,
        arithmetic::within(point.1, 50_000),
    ensures
        ({
            let q = variation::varied_point(v, point, anchor, drift);
            &&& -5_000 <= q.0.0 - point.0.0 <= 5_000
            &&& -10_000 <= q.1.0 - point.1.0 <= 10_000
        }),
{
    let x = point.0 - anchor;
    let y = point.1;
    let (sine, cosine) = (v.rotation.sine(), v.rotation.cosine());
    lemma_turn_is_slight(x, y, sine, cosine);
    let across = x * cosine - y * sine;
    let down = x * sine + y * cosine;
    arithmetic::lemma_nearly_once(across, v.scale_x, 41_541, 45);
    arithmetic::lemma_nearly_once(down, v.scale_y, 51_251, 54);
}

/// A varied stroke keeps near its sample: it has as many points, and each is written
/// within five pixels across, and ten up or down, of its recorded place.
pub proof fn law_varied_strokes_stay_near_their_sample(
    pen: pen::Pen<Milli>,
    key: Seq<char>,
    occurrence: usize,
    points: Seq<(Milli, Milli)>,
    b: Bounds<Milli>,
    stroke: Seq<Point<Milli>>,
    i: int,
)
    requires
        0 <= i < stroke.len(),
        arithmetic::within(pen::anchor_of(points), 1_000_000_000),
        -40_000 <= pen::page_point(b, stroke[i]).0.0 - pen::anchor_of(points).0 <= 40_000,
        arithmetic::within(pen::page_point(b, stroke[i]).1, 50_000),
    ensures
        ({
            let hand = pen::hand_for(pen, key, occurrence, points);
            let written = pen::written_stroke(hand, b, stroke).points;
            let recorded = pen::page_stroke(b, stroke);
            &&& written.len() == recorded.len()
            &&& -5_000 <= written[i].0.0 - recorded[i].0.0 <= 5_000
            &&& -10_000 <= written[i].1.0 - recorded[i].1.0 <= 10_000
        }),
{
    law_variation_is_subtle(
        pen.seed,
        key,
        occurrence,
        pen.placed,
        pen::page_point(b, stroke[i]),
        pen::anchor_of(points),
    );
}

// Entries.

proof fn lemma_curve_start(a: Milli, b: Milli, c: Milli, d: Milli)
    requires
        arithmetic::within(a, 2_000_000_000),
    ensures
        entry::curve_at(a, b, c, d, Milli(0)) == a,
{
    let one = Milli(1_000);
    arithmetic::lemma_once(one);
    arithmetic::lemma_once(Milli(3_000));
    arithmetic::lemma_once(a);
    assert(one * a == a) by {
        assert(1_000 * a.0 == a.0 * 1_000);
    }
    arithmetic::lemma_nothing_times(Milli(3_000));
    arithmetic::lemma_nothing_times(one);
    arithmetic::lemma_nothing_times(Milli(0));
    arithmetic::lemma_nothing_times(b);
    arithmetic::lemma_nothing_times(c);
    arithmetic::lemma_nothing_times(d);
    assert(Milli::mil(1_000) - Milli(0) == one);
}

/// An entry starts to the left of where it joins its stroke: by 4.2 to 5.5 pixels, or by
/// 2.8 to 3.9 for a one.
pub proof fn law_entries_start_left_of_their_join(
    start: (Milli, Milli),
    downstroke: (Milli, Milli),
    bits: u64,
    digit_one: bool,
)
    requires
        lines::is_near(start, 1_000_000_000),
    ensures
        ({
            let tip = entry::entry_curve(start, downstroke, bits, digit_one)[0];
            let reach = start.0.0 - tip.0.0;
            &&& digit_one ==> 2_800 <= reach <= 3_900
            &&& !digit_one ==> 4_200 <= reach <= 5_500
            &&& -1_000 <= tip.1.0 - start.1.0 <= 3_000
        }),
{
    let (a, b) = entry::entry_controls(start, downstroke, bits, digit_one);
    arithmetic::lemma_ratio(0, 4_000);
    assert(Milli::counted(0) / Milli::mil(4_000) == Milli(0));
    let (u, v) = (
        bits::unit_of::<Milli>(bits::redrawn(bits, 29)),
        bits::unit_of::<Milli>(bits::redrawn(bits, 13)),
    );
    arithmetic::lemma_draws_are_within_one(bits::redrawn(bits, 29));
    arithmetic::lemma_draws_are_within_one(bits::redrawn(bits, 13));
    arithmetic::lemma_share(u.0 as int, 1_100);
    arithmetic::lemma_share(u.0 as int, 1_300);
    arithmetic::lemma_share(v.0 as int, 3_200);
    arithmetic::lemma_share(v.0 as int, 4_000);
    let tip = entry::entry_tip(start, bits, digit_one);
    lemma_curve_start(tip.0, a.0, b.0, start.0);
    lemma_curve_start(tip.1, a.1, b.1, start.1);
}

proof fn lemma_entry_reaches_left(mark: MarkView<Milli>, bits: u64, top: Milli, height: Milli)
    requires
        forall|j: int|
            0 <= j < mark.points.len() ==> lines::is_near(#[trigger] mark.points[j], 100_000_000),
    ensures
        entry::entry_added(mark, bits, top, height, false) matches Some(m) ==> 4_200
            <= m.points[4].0.0 - m.points[0].0.0 <= 5_500,
{
    if let Some(join) = entry::join_of(mark.points, top, height) {
        entry::lemma_join_range(mark.points, top, height);
        let start = mark.points[join];
        let down = entry::first_below(mark.points, join + 1, start.1, Milli::mil(3_000))->0;
        let m = entry::with_entry(mark, join, bits, false);
        let curve = entry::entry_curve(start, mark.points[down], bits, false);
        assert(curve.len() == 4);
        assert(m.points[4] == start && m.points[0] == curve[0]);
        assert(lines::is_near(start, 100_000_000));
        law_entries_start_left_of_their_join(start, mark.points[down], bits, false);
    }
}

proof fn lemma_first_entry_reaches_left(
    marks: Seq<MarkView<Milli>>,
    from: int,
    bits: u64,
    top: Milli,
    height: Milli,
    i: int,
)
    requires
        0 <= from,
        0 <= i < marks.len(),
        boxes::ink_is_modest(marks),
        entries::has_no_entries(marks),
    ensures
        pen::entry_on_first(marks, from, bits, top, height) matches Some(m) ==> m.len()
            == marks.len() && (m[i].entry_tail_points > 0 ==> 4_200 <= m[i].points[4].0.0
            - m[i].points[0].0.0 <= 5_500),
    decreases marks.len() - from,
{
    if from < marks.len() {
        assert forall|j: int| 0 <= j < marks[from].points.len() implies lines::is_near(
            #[trigger] marks[from].points[j],
            100_000_000,
        ) by {
            assert(strokes::has_point(marks, from, j));
        }
        lemma_entry_reaches_left(marks[from], bits, top, height);
        if entry::entry_added(marks[from], bits, top, height, false) is None {
            lemma_first_entry_reaches_left(marks, from + 1, bits, top, height, i);
        }
    }
}

/// The entry of an uppercase L starts 4.2 to 5.5 pixels to the left of its fifth point,
/// where it joins.
pub proof fn law_entries_of_an_l_start_left_of_their_join(
    pen: pen::Pen<Milli>,
    key: Seq<char>,
    occurrence: usize,
    marks: Seq<MarkView<Milli>>,
    i: int,
)
    requires
        boxes::ink_is_modest(marks),
        entries::has_no_entries(marks),
        0 <= i < marks.len(),
    ensures
        pen::entry_drawn(pen, key, occurrence, marks) matches Some(m) ==> m.len() == marks.len()
            && (m[i].entry_tail_points > 0 ==> 4_200 <= m[i].points[4].0.0 - m[i].points[0].0.0
            <= 5_500),
{
    let bits = bits::bits_of_instance(pen.seed, key + "-tail"@, occurrence);
    if let Some((top, bottom)) = strokes::extent(marks, Axis::Y) {
        lemma_first_entry_reaches_left(marks, 0, bits, top, bottom - top, i);
    }
}

// Collected parentheses.

proof fn lemma_fitted_shape<S: Scalar>(fit: Fit<S>, slot: Slot<S>, point: (S, S))
    ensures
        ({
            let t = (point.1 - fit.min_y) / (fit.max_y - fit.min_y);
            let half = fit.width * S::mil(500);
            glyphs::fitted_point(fit, slot, point).0 == fit.start_x + half + (point.0 - half)
                * fit.width_scale + (t - S::mil(500)) * fit.lean + S::mil(
                if slot.opening { -1_000 } else { 1_000 },
            ) * fit.bow * (S::half_turn() * t).sine()
        }),
{
}

proof fn lemma_wobble_across(t: Milli, lean: Milli, bow: Milli, sign: Milli)
    requires
        0 <= t.0 <= 1_000,
        arithmetic::within(lean, 2_000),
        arithmetic::within(bow, 3_500),
        sign == Milli(1_000) || sign.0 == -1_000,
    ensures
        ({
            let (a, b) = (
                (t - Milli(500)) * lean,
                sign * bow * (Milli::half_turn() * t).sine(),
            );
            &&& -3_600 <= a.0 + b.0 <= 3_600
            &&& arithmetic::within(a, 1_000)
            &&& arithmetic::within(b, 3_500)
        }),
{
    let d: int = if t.0 < 500 {
        500 - t.0
    } else {
        t.0 - 500
    };
    let s = (Milli::half_turn() * t).sine();
    arithmetic::lemma_arcs_fall_off(t);
    arithmetic::lemma_arcs_are_not_negative(t);
    arithmetic::lemma_product_within(t - Milli(500), lean, d, 2_000);
    arithmetic::lemma_product_within(sign, bow, 1_000, 3_500);
    arithmetic::lemma_product_within(sign * bow, s, 3_500, s.0 as int);
    assert(d * 2_000 / 1_000 == 2 * d);
    assert(3_500 * s.0 / 1_000 * 1_000 <= 3_500 * s.0);
}

proof fn lemma_part_of_width(width: Milli, x: Milli, scale: Milli)
    requires
        0 <= width.0 <= 1_000_000,
        0 <= x.0 <= width.0,
        820 <= scale.0 <= 1_180,
    ensures
        ({
            let half = width * Milli(500);
            let across = (x - half) * scale;
            &&& 2 * half.0 <= width.0 <= 2 * half.0 + 1
            &&& -(half.0 * 1_180 / 1_000) - 2 <= across.0 <= half.0 * 1_180 / 1_000 + 2
        }),
{
    arithmetic::lemma_share(500, width.0 as int);
    let half = width * Milli(500);
    assert(half.0 == width.0 * 500 / 1_000);
    let h = half.0 + 1;
    arithmetic::lemma_product_within(x - half, scale, h, 1_180);
    assert(h * 1_180 / 1_000 <= half.0 * 1_180 / 1_000 + 2);
}

/// A varied parenthesis keeps off its contents. An opening one whose samples are `width`
/// wide reaches at most 3.6 pixels and nine hundredths of that width beyond its place, and
/// its contents begin six pixels behind it; a closing one mirrors that. So up to a width
/// of twenty-six pixels they do not meet.
pub proof fn law_parentheses_keep_off_their_contents(
    pen: pen::Pen<Milli>,
    token: Seq<char>,
    slot: Slot<Milli>,
    width: Milli,
    marks: Seq<MarkView<Milli>>,
    point: (Milli, Milli),
)
    requires
        0 <= width.0 <= 1_000_000,
        arithmetic::within(slot.x, 900_000_000),
        0 <= point.0.0 <= width.0,
        ({
            let fit = glyphs::fit_of(pen, token, slot, width, marks);
            &&& arithmetic::within(fit.min_y, 400_000_000)
            &&& arithmetic::within(fit.max_y, 400_000_000)
            &&& fit.min_y.0 < fit.max_y.0
            &&& fit.min_y.0 <= point.1.0 <= fit.max_y.0
        }),
    ensures
        ({
            let fit = glyphs::fit_of(pen, token, slot, width, marks);
            let q = glyphs::fitted_point(fit, slot, point).0;
            &&& slot.opening ==> q.0 <= slot.x.0 + 90 * width.0 / 1_000 + 3_604
            &&& !slot.opening ==> q.0 >= slot.x.0 - 90 * width.0 / 1_000 - 3_604
        }),
{
    let fit = glyphs::fit_of(pen, token, slot, width, marks);
    let b = bits::bits_of_instance(pen.seed, token, pen.placed);
    arithmetic::lemma_draws_are_within_one(b);
    arithmetic::lemma_draws_are_within_one(bits::redrawn(b, 29));
    arithmetic::lemma_draws_are_within_one(bits::redrawn(b, 11));
    arithmetic::lemma_product_within(Milli(180), bits::signed_unit_of::<Milli>(b), 180, 1_000);
    arithmetic::lemma_product_within(
        Milli(2_000),
        bits::signed_unit_of::<Milli>(bits::redrawn(b, 29)),
        2_000,
        1_000,
    );
    arithmetic::lemma_product_within(
        Milli(3_500),
        bits::signed_unit_of::<Milli>(bits::redrawn(b, 11)),
        3_500,
        1_000,
    );
    assert(820 <= fit.width_scale.0 <= 1_180);
    assert(arithmetic::within(fit.lean, 2_000));
    assert(arithmetic::within(fit.bow, 3_500));
    lemma_fitted_is_near(fit, slot, point);
}

proof fn lemma_fitted_is_near(fit: Fit<Milli>, slot: Slot<Milli>, point: (Milli, Milli))
    requires
        0 <= fit.width.0 <= 1_000_000,
        arithmetic::within(fit.start_x, 990_000_000),
        820 <= fit.width_scale.0 <= 1_180,
        arithmetic::within(fit.lean, 2_000),
        arithmetic::within(fit.bow, 3_500),
        0 <= point.0.0 <= fit.width.0,
        arithmetic::within(fit.min_y, 400_000_000),
        arithmetic::within(fit.max_y, 400_000_000),
        fit.min_y.0 < fit.max_y.0,
        fit.min_y.0 <= point.1.0 <= fit.max_y.0,
    ensures
        ({
            let q = glyphs::fitted_point(fit, slot, point).0;
            let over = 90 * fit.width.0 / 1_000;
            fit.start_x.0 - over - 3_604 <= q.0 <= fit.start_x.0 + fit.width.0 + over + 3_604
        }),
{
    let rise = point.1 - fit.min_y;
    let height = fit.max_y - fit.min_y;
    let t = rise / height;
    let (n, d) = (rise.0 as int, height.0 as int);
    arithmetic::lemma_ratio(n, d);
    assert(0 <= n * 1_000 / d <= 1_000) by (nonlinear_arith)
        requires
            0 <= n <= d,
            0 < d,
    ;
    assert(0 <= t.0 <= 1_000);
    lemma_fitted_shape(fit, slot, point);
    let sign = Milli::mil(if slot.opening { -1_000 } else { 1_000 });
    lemma_wobble_across(t, fit.lean, fit.bow, sign);
    lemma_part_of_width(fit.width, point.0, fit.width_scale);
    let half = fit.width * Milli(500);
    let across = (point.0 - half) * fit.width_scale;
    let (a, c) = ((t - Milli(500)) * fit.lean, sign * fit.bow * (Milli::half_turn() * t).sine());
    lemma_sum_of_five(fit.start_x, half, across, a, c);
}

proof fn lemma_sum_of_five(a: Milli, b: Milli, c: Milli, d: Milli, e: Milli)
    requires
        arithmetic::within(a, 1_000_000_000),
        arithmetic::within(b, 1_000_000_000),
        arithmetic::within(c, 1_000_000_000),
        arithmetic::within(d, 1_000_000_000),
        arithmetic::within(e, 1_000_000_000),
    ensures
        (a + b + c + d + e).0 == a.0 + b.0 + c.0 + d.0 + e.0,
{
}

proof fn lemma_fitted_height(fit: Fit<Milli>, slot: Slot<Milli>, point: (Milli, Milli))
    requires
        arithmetic::within(fit.min_y, 100_000_000),
        arithmetic::within(fit.max_y, 100_000_000),
        arithmetic::within(slot.up, 1_000_000_000),
        arithmetic::within(slot.down, 1_000_000_000),
        -slot.up.0 <= slot.down.0,
        fit.min_y.0 < fit.max_y.0,
        fit.min_y.0 <= point.1.0 <= fit.max_y.0,
    ensures
        ({
            let y = glyphs::fitted_point(fit, slot, point).1;
            &&& -slot.up.0 <= y.0 <= slot.down.0
            &&& point.1 == fit.min_y ==> y == -slot.up
            &&& point.1 == fit.max_y ==> y == slot.down
        }),
{
    let rise = point.1 - fit.min_y;
    let height = fit.max_y - fit.min_y;
    let t = rise / height;
    let (n, d) = (rise.0 as int, height.0 as int);
    arithmetic::lemma_ratio(n, d);
    assert(0 <= n * 1_000 / d <= 1_000 && (n == 0 ==> n * 1_000 / d == 0) && (n == d ==> n * 1_000
        / d == 1_000)) by (nonlinear_arith)
        requires
            0 <= n <= d,
            0 < d,
    ;
    let span = slot.down - (-slot.up);
    let (a, b) = (t.0 as int, span.0 as int);
    arithmetic::lemma_share(a, b);
    assert(0 <= b * a <= b * 1_000 && (a == 0 ==> b * a == 0)) by (nonlinear_arith)
        requires
            0 <= a <= 1_000,
            0 <= b,
    ;
    assert((t * span).0 == b * a / 1_000);
    assert(a == 1_000 ==> b * a / 1_000 == b);
}

/// A collected parenthesis that is fitted to a slot spans it exactly: all of it lies
/// between the top and the bottom of the slot, and it touches both.
pub proof fn law_fitted_parentheses_span_their_slot(
    pen: pen::Pen<Milli>,
    b: BoxView<Milli>,
    token: Seq<char>,
    slot: Slot<Milli>,
)
    requires
        profile::parenthesis_width(pen.glyphs, token) is Some,
        glyphs::delimiter_written(pen, b, token, slot).1 is Ok,
        boxes::ink_is_modest(pen::sample_written(pen, token).1->Ok_0.marks),
        arithmetic::within(slot.up, 1_000_000_000),
        arithmetic::within(slot.down, 1_000_000_000),
        -slot.up.0 <= slot.down.0,
    ensures
        ({
            let marks = glyphs::delimiter_written(pen, b, token, slot).1->Ok_0.marks;
            let n = b.marks.len() as int;
            &&& n <= marks.len()
            &&& marks.take(n) == b.marks
            &&& boxes::spans(marks.skip(n), -slot.up, slot.down)
        }),
{
    reveal_strlit("(");
    reveal_strlit(")");
    reveal_strlit(".");
    assert("("@[0] == '(' && ")"@[0] == ')' && "."@[0] == '.');
    let width = profile::parenthesis_width(pen.glyphs, token)->0;
    let (after, sample) = pen::sample_written(pen, token);
    let old_marks = sample->Ok_0.marks;
    let fit = glyphs::fit_of(after, token, slot, width, old_marks);
    let fitted = glyphs::fitted_marks(fit, slot, old_marks);
    boxes::lemma_ink_spans_its_extent(old_marks);
    assert forall|i: int, j: int| strokes::has_point(fitted, i, j) implies (-slot.up).0 <= (
    #[trigger] fitted[i].points[j]).1.0 <= slot.down.0 by {
        assert(strokes::has_point(old_marks, i, j));
        lemma_fitted_height(fit, slot, old_marks[i].points[j]);
    }
    let (c, d) = choose|i: int, j: int|
        strokes::has_point(old_marks, i, j) && (#[trigger] old_marks[i].points[j]).1 == fit.min_y;
    lemma_fitted_height(fit, slot, old_marks[c].points[d]);
    assert(strokes::has_point(fitted, c, d) && fitted[c].points[d].1 == -slot.up);
    let (e, f) = choose|i: int, j: int|
        strokes::has_point(old_marks, i, j) && (#[trigger] old_marks[i].points[j]).1 == fit.max_y;
    lemma_fitted_height(fit, slot, old_marks[e].points[f]);
    assert(strokes::has_point(fitted, e, f) && fitted[e].points[f].1 == slot.down);
    let marks = glyphs::delimiter_written(pen, b, token, slot).1->Ok_0.marks;
    let n = b.marks.len() as int;
    assert(marks.take(n) =~= b.marks);
    assert(marks.skip(n) =~= fitted);
}

} // verus!
