//! How near an instance keeps to its sample.
use crate::bits;
use crate::exact::shapes;
use crate::gauge::measure;
use crate::gauge::measure::Gauge;
use crate::pen;
use crate::pen::Pen;
use crate::profile::{Bounds, Point};
use crate::scalar::Scalar;
use crate::variation;
use vstd::prelude::*;

verus! {

proof fn lemma_scales<S: Scalar>(g: Gauge<S>, x: S, y: S)
    requires
        g.is_true(),
        g.is_fine(),
        g.is_within(x, 1_000),
        g.is_within(y, 1_000),
    ensures
        g.is_about(S::mil(1_000) + S::mil(45) * x, 1_000 * g.unit, 48),
        g.is_about(S::mil(1_000) + S::mil(45) * S::mil(1_200) * y, 1_000 * g.unit, 59),
{
    measure::lemma_constant(g, 1_000);
    measure::lemma_constant_within(g, 45);
    measure::lemma_constant_within(g, 1_200);
    let tall = S::mil(45) * S::mil(1_200);
    measure::lemma_product_within(g, S::mil(45), x, 46, 1_000, 47);
    measure::lemma_product_within(g, S::mil(45), S::mil(1_200), 46, 1_201, 57);
    measure::lemma_product_within(g, tall, y, 57, 1_000, 58);
    measure::lemma_shifted(g, S::mil(1_000), S::mil(45) * x, 1_000 * g.unit, 0, 47);
    measure::lemma_shifted(g, S::mil(1_000), tall * y, 1_000 * g.unit, 0, 58);
}

proof fn lemma_turns<S: Scalar>(g: Gauge<S>, r: S, o: S)
    requires
        g.is_true(),
        g.is_fine(),
        g.is_within(r, 1_000),
        g.is_within(o, 1_000),
    ensures
        g.is_within(variation::max_rotation::<S>() * r, 30),
        g.is_within(S::mil(3_000) * o, 3_001),
{
    measure::lemma_constant(g, 3_000);
    measure::lemma_product_within(g, S::mil(3_000), o, 3_000, 1_000, 3_001);
    measure::lemma_constant_within(g, 1_600);
    measure::lemma_half_turn(g);
    let turn = S::mil(1_600) * S::half_turn();
    measure::lemma_product_within(g, S::mil(1_600), S::half_turn(), 1_601, 3_142, 5_032);
    lemma_degree(g, turn);
    measure::lemma_product_within(g, variation::max_rotation::<S>(), r, 29, 1_000, 30);
}

proof fn lemma_degree<S: Scalar>(g: Gauge<S>, turn: S)
    requires
        g.is_true(),
        g.is_fine(),
        g.is_within(turn, 5_032),
    ensures
        g.is_within(turn / S::mil(180_000), 29),
{
    measure::lemma_constant(g, 180_000);
    let (x, d, u) = ((g.at)(turn), (g.at)(S::mil(180_000)), g.unit);
    assert(-g.reach * d <= x * (1_000 * u) <= g.reach * d) by (nonlinear_arith)
        requires
            -5_032 * u <= x <= 5_032 * u,
            d == 180_000 * u,
            0 < u,
            4_000_000 * u <= g.reach,
    ;
    reveal(Gauge::is_fine);
    let z = (g.at)(turn / S::mil(180_000));
    assert(-29 * u <= z <= 29 * u) by (nonlinear_arith)
        requires
            -u * d <= z * d - x * (1_000 * u) <= u * d,
            -5_032 * u <= x <= 5_032 * u,
            d == 180_000 * u,
            0 < u,
    ;
}

/// Whether the angles from which the drift of the baseline is reckoned are numbers.
pub open spec fn drift_is_reckoned<S: Scalar>(g: Gauge<S>, seed: u64, placed: usize) -> bool {
    let phase = S::counted((seed % 997) as int) * S::mil(17);
    let index = S::counted(placed as int);
    (g.numbers)(index * S::mil(230) + phase) && (g.numbers)(
        index * S::mil(410) + phase * S::mil(1_700),
    )
}

/// The baseline drifts by little more than 2.7 pixels.
pub proof fn law_drift_is_slight<S: Scalar>(g: Gauge<S>, seed: u64, placed: usize)
    requires
        g.is_true(),
        g.is_fine(),
        drift_is_reckoned(g, seed, placed),
    ensures
        g.is_within(variation::drift_of::<S>(seed, placed), 2_705),
{
    let phase = S::counted((seed % 997) as int) * S::mil(17);
    let index = S::counted(placed as int);
    let (a, b) = (index * S::mil(230) + phase, index * S::mil(410) + phase * S::mil(1_700));
    measure::lemma_constant_within(g, 1_800);
    measure::lemma_constant_within(g, 900);
    measure::lemma_sine(g, a);
    measure::lemma_sine(g, b);
    measure::lemma_product_within(g, S::mil(1_800), a.sine(), 1_801, 1_000, 1_802);
    measure::lemma_product_within(g, S::mil(900), b.sine(), 901, 1_000, 902);
    measure::lemma_sum_within(g, S::mil(1_800) * a.sine(), S::mil(900) * b.sine(), 1_802, 902);
}

proof fn lemma_turn_is_slight<S: Scalar>(g: Gauge<S>, x: S, y: S, sine: S, cosine: S)
    requires
        g.is_true(),
        g.is_fine(),
        g.is_within(x, 40_000),
        g.is_within(y, 50_000),
        g.is_within(sine, 30),
        (g.numbers)(cosine),
        999 * g.unit <= (g.at)(cosine) <= 1_000 * g.unit,
    ensures
        g.is_about(x * cosine - y * sine, (g.at)(x), 1_543),
        g.is_about(x * sine + y * cosine, (g.at)(y), 1_253),
{
    measure::lemma_constant(g, 0);
    assert(g.is_about(cosine, 1_000 * g.unit, 1));
    measure::lemma_nearly_once(g, x, cosine, 40_000, 1, 41);
    measure::lemma_nearly_once(g, y, cosine, 50_000, 1, 51);
    measure::lemma_product_within(g, y, sine, 50_000, 30, 1_501);
    measure::lemma_product_within(g, x, sine, 40_000, 30, 1_201);
    measure::lemma_difference(g, x * cosine, y * sine);
    measure::lemma_sum(g, x * sine, y * cosine);
}

proof fn lemma_across<S: Scalar>(g: Gauge<S>, px: S, anchor: S, turned: S, scale: S)
    requires
        g.is_true(),
        g.is_fine(),
        g.is_modest(px) && g.is_modest(anchor),
        g.is_within(px - anchor, 40_000),
        g.is_about(turned, (g.at)(px - anchor), 1_543),
        g.is_about(scale, 1_000 * g.unit, 48),
    ensures
        g.is_about(turned * scale + anchor, (g.at)(px), 5_000),
{
    measure::lemma_constant(g, 0);
    measure::lemma_difference(g, px, anchor);
    assert(g.is_within(turned, 41_543));
    measure::lemma_nearly_once(g, turned, scale, 41_543, 48, 1_996);
    let grown = turned * scale;
    let x = (g.at)(px - anchor);
    assert(-3_539 * g.unit <= (g.at)(grown) - x <= 3_539 * g.unit);
    measure::lemma_sum(g, grown, anchor);
}

proof fn lemma_down<S: Scalar>(g: Gauge<S>, y: S, turned: S, scale: S, offset: S, drift: S)
    requires
        g.is_true(),
        g.is_fine(),
        g.is_within(y, 50_000),
        g.is_about(turned, (g.at)(y), 1_253),
        g.is_about(scale, 1_000 * g.unit, 59),
        g.is_within(offset, 3_001),
        g.is_within(drift, 2_705),
    ensures
        g.is_about(turned * scale + offset + drift, (g.at)(y), 10_000),
{
    measure::lemma_constant(g, 0);
    assert(g.is_within(turned, 51_253));
    measure::lemma_nearly_once(g, turned, scale, 51_253, 59, 3_025);
    let grown = turned * scale;
    assert(g.is_about(grown, (g.at)(y), 4_278));
    measure::lemma_shifted(g, grown, offset, (g.at)(y), 4_278, 3_001);
    measure::lemma_shifted(g, grown + offset, drift, (g.at)(y), 7_280, 2_705);
}

/// In every number type that computes nearly exactly variation is subtle: a point of a
/// sample up to forty pixels to either side of its middle, and up to fifty above or below
/// the baseline, is written within five pixels across, and ten up or down, of where it was
/// recorded.
pub proof fn law_variation_is_subtle<S: Scalar>(
    g: Gauge<S>,
    seed: u64,
    key: Seq<char>,
    index: usize,
    placed: usize,
    point: (S, S),
    anchor: S,
)
    requires
        g.is_true(),
        g.is_fine(),
        drift_is_reckoned(g, seed, placed),
        g.is_modest(point.0) && g.is_modest(anchor),
        g.is_within(point.0 - anchor, 40_000),
        g.is_within(point.1, 50_000),
    ensures
        ({
            let v = variation::variation_of::<S>(seed, key, index);
            let drift = variation::drift_of::<S>(seed, placed);
            let q = variation::varied_point(v, point, anchor, drift);
            &&& g.is_about(q.0, (g.at)(point.0), 5_000)
            &&& g.is_about(q.1, (g.at)(point.1), 10_000)
        }),
{
    let v = variation::variation_of::<S>(seed, key, index);
    let drift = variation::drift_of::<S>(seed, placed);
    let (x, y, r, o) = shapes::lemma_variation_shape::<S>(seed, key, index);
    measure::lemma_draws_are_within(g, x);
    measure::lemma_draws_are_within(g, y);
    measure::lemma_draws_are_within(g, r);
    measure::lemma_draws_are_within(g, o);
    lemma_scales(g, bits::signed_unit_of::<S>(x), bits::signed_unit_of::<S>(y));
    lemma_turns(g, bits::signed_unit_of::<S>(r), bits::signed_unit_of::<S>(o));
    law_drift_is_slight(g, seed, placed);
    measure::lemma_small_angles(g, v.rotation);
    let (sine, cosine) = (v.rotation.sine(), v.rotation.cosine());
    let (dx, dy) = (point.0 - anchor, point.1);
    lemma_turn_is_slight(g, dx, dy, sine, cosine);
    lemma_across(g, point.0, anchor, dx * cosine - dy * sine, v.scale_x);
    lemma_down(g, dy, dx * sine + dy * cosine, v.scale_y, v.baseline_offset, drift);
}

/// A varied stroke keeps near its sample: it has as many points, and each is written
/// within five pixels across, and ten up or down, of its recorded place.
pub proof fn law_varied_strokes_stay_near_their_sample<S: Scalar>(
    g: Gauge<S>,
    pen: Pen<S>,
    key: Seq<char>,
    occurrence: usize,
    points: Seq<(S, S)>,
    b: Bounds<S>,
    stroke: Seq<Point<S>>,
    i: int,
)
    requires
        g.is_true(),
        g.is_fine(),
        drift_is_reckoned(g, pen.seed, pen.placed),
        0 <= i < stroke.len(),
        g.is_modest(pen::page_point(b, stroke[i]).0) && g.is_modest(pen::anchor_of(points)),
        g.is_within(pen::page_point(b, stroke[i]).0 - pen::anchor_of(points), 40_000),
        g.is_within(pen::page_point(b, stroke[i]).1, 50_000),
    ensures
        ({
            let hand = pen::hand_for(pen, key, occurrence, points);
            let written = pen::written_stroke(hand, b, stroke).points;
            let recorded = pen::page_stroke(b, stroke);
            &&& written.len() == recorded.len()
            &&& g.is_about(written[i].0, (g.at)(recorded[i].0), 5_000)
            &&& g.is_about(written[i].1, (g.at)(recorded[i].1), 10_000)
        }),
{
    measure::lemma_constant(g, 0);
    law_variation_is_subtle(
        g,
        pen.seed,
        key,
        occurrence,
        pen.placed,
        pen::page_point(b, stroke[i]),
        pen::anchor_of(points),
    );
}

} // verus!
