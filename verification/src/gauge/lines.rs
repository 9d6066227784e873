//! Hand-drawn lines, bars and radicals.
use crate::bits;
use crate::exact::lines;
use crate::gauge::measure;
use crate::gauge::measure::Gauge;
use crate::scalar::Scalar;
use crate::variation;
use crate::words;
use vstd::prelude::*;

verus! {

// How far a line strays.

proof fn lemma_phase_is_a_number<S: Scalar>(g: Gauge<S>, draw: u64, t: S, n: int)
    requires
        g.is_true(),
        g.is_fine(),
        g.is_within(t, 1_000),
        0 <= n <= 10_000,
    ensures
        (g.numbers)(
            t * S::mil(n) + bits::unit_of::<S>(draw) * (S::mil(2_000) * S::half_turn()),
        ),
{
    measure::lemma_constant_within(g, 2_000);
    measure::lemma_constant_within(g, n);
    measure::lemma_draws_are_within(g, draw);
    measure::lemma_half_turn(g);
    let turn = S::mil(2_000) * S::half_turn();
    measure::lemma_product_within(g, S::mil(2_000), S::half_turn(), 2_001, 3_142, 8_005);
    measure::lemma_product_within(g, bits::unit_of::<S>(draw), turn, 1_000, 8_005, 8_006);
    measure::lemma_product_within(g, t, S::mil(n), 1_000, n + 1, n + 2);
    measure::lemma_sum_within(g, t * S::mil(n), bits::unit_of::<S>(draw) * turn, n + 2, 8_006);
}

proof fn lemma_wave_is_within<S: Scalar>(g: Gauge<S>, first: S, second: S)
    requires
        g.is_true(),
        g.is_fine(),
        (g.numbers)(first) && (g.numbers)(second),
    ensures
        g.is_within(
            S::mil(900) * first.sine() + S::mil(500) * S::mil(900) * second.sine(),
            1_357,
        ),
{
    measure::lemma_constant_within(g, 900);
    measure::lemma_constant_within(g, 500);
    measure::lemma_sine(g, first);
    measure::lemma_sine(g, second);
    let small = S::mil(500) * S::mil(900);
    measure::lemma_product_within(g, S::mil(500), S::mil(900), 501, 901, 453);
    measure::lemma_product_within(g, S::mil(900), first.sine(), 901, 1_000, 902);
    measure::lemma_product_within(g, small, second.sine(), 453, 1_000, 454);
    measure::lemma_sum_within(g, S::mil(900) * first.sine(), small * second.sine(), 902, 454);
}

proof fn lemma_slope_is_within<S: Scalar>(g: Gauge<S>, t: S, draw: u64)
    requires
        g.is_true(),
        g.is_fine(),
        (g.numbers)(t),
        0 <= (g.at)(t) <= 1_000 * g.unit,
    ensures
        g.is_within(
            (t - S::mil(500)) * (S::mil(900) * bits::signed_unit_of::<S>(draw)),
            457,
        ),
{
    measure::lemma_constant_within(g, 900);
    measure::lemma_constant(g, 500);
    measure::lemma_draws_are_within(g, draw);
    measure::lemma_product_within(
        g,
        S::mil(900),
        bits::signed_unit_of::<S>(draw),
        901,
        1_000,
        902,
    );
    measure::lemma_difference(g, t, S::mil(500));
    measure::lemma_product_within(
        g,
        t - S::mil(500),
        S::mil(900) * bits::signed_unit_of::<S>(draw),
        502,
        902,
        456,
    );
}

proof fn lemma_faded_is_within<S: Scalar>(
    g: Gauge<S>,
    envelope: S,
    wave: S,
    slope: S,
    scale: S,
    n: int,
)
    requires
        g.is_true(),
        g.is_fine(),
        g.is_within(envelope, 1_000),
        -g.unit <= (g.at)(envelope),
        g.is_within(wave, 1_357),
        g.is_within(slope, 457),
        g.is_within(scale, n),
        0 <= n <= 1_001,
    ensures
        g.is_within(envelope * (wave + slope) * scale, 1_816 * n / 1_000 + 2),
        g.is_within(envelope * wave + slope * (S::mil(4_000) * envelope).smaller(S::mil(1_000)), 1_820),
{
    measure::lemma_sum_within(g, wave, slope, 1_357, 457);
    measure::lemma_product_within(g, envelope, wave + slope, 1_000, 1_815, 1_816);
    let faded = envelope * (wave + slope);
    measure::lemma_product_within(g, faded, scale, 1_816, n, 1_816 * n / 1_000 + 2);
    measure::lemma_product_within(g, envelope, wave, 1_000, 1_357, 1_358);
    measure::lemma_constant(g, 4_000);
    measure::lemma_constant(g, 1_000);
    measure::lemma_product_within(g, S::mil(4_000), envelope, 4_000, 1_000, 4_001);
    let quadruple = S::mil(4_000) * envelope;
    measure::lemma_multiple(g, envelope, 4_000);
    let fade = quadruple.smaller(S::mil(1_000));
    measure::lemma_smaller(g, quadruple, S::mil(1_000));
    assert(g.is_within(fade, 1_000));
    measure::lemma_product_within(g, slope, fade, 457, 1_000, 458);
    measure::lemma_sum_within(g, envelope * wave, slope * fade, 1_358, 458);
}

/// No line strays from the straight one by more than 1.825 pixels, and a piece of a radical
/// strays the less the shorter it is.
pub proof fn law_lines_stray_little<S: Scalar>(
    g: Gauge<S>,
    seed: u64,
    placed: usize,
    key: Seq<char>,
    length: S,
    t: S,
    n: int,
)
    requires
        g.is_true(),
        g.is_fine(),
        (g.numbers)(t),
        0 <= (g.at)(t) <= 1_000 * g.unit,
        (g.numbers)(length),
        0 <= (g.at)(length) <= g.reach,
        150 <= n <= 1_000,
        1_000 * (g.at)(length) <= (n - 1) * 65_000 * g.unit || n == 1_000,
    ensures
        ({
            let deviation = variation::deviation_at(
                variation::sway_of(seed, placed, key, length),
                t,
            );
            &&& g.is_within(deviation, 1_825)
            &&& words::begins_with(key, "\\sqrt"@) ==> g.is_within(
                deviation,
                1_816 * (n + 1) / 1_000 + 2,
            )
        }),
{
    reveal(variation::sway_of);
    reveal(variation::deviation_at);
    let draw = bits::bits_of_instance(seed, key, placed);
    let sway = variation::sway_of(seed, placed, key, length);
    lemma_phase_is_a_number(g, draw, t, 5_300);
    lemma_phase_is_a_number(g, bits::redrawn(draw, 23), t, 9_100);
    let (first, second) = (t * S::mil(5_300) + sway.phase_a, t * S::mil(9_100) + sway.phase_b);
    lemma_wave_is_within(g, first, second);
    lemma_slope_is_within(g, t, bits::redrawn(draw, 37));
    let wave = S::mil(900) * first.sine() + S::mil(500) * S::mil(900) * second.sine();
    let slope = (t - S::mil(500)) * sway.tilt;
    let envelope = (S::half_turn() * t).sine();
    measure::lemma_envelope(g, t);
    let scale = (length / S::mil(65_000)).held(S::mil(150), S::mil(1_000));
    lemma_scale_is_within(g, length, n);
    lemma_faded_is_within(g, envelope, wave, slope, scale, n + 1);
    assert(1_816 * (n + 1) / 1_000 + 2 <= 1_825);
    measure::lemma_wider(
        g,
        envelope * (wave + slope) * scale,
        1_816 * (n + 1) / 1_000 + 2,
        1_825,
    );
}

proof fn lemma_scale_is_within<S: Scalar>(g: Gauge<S>, length: S, n: int)
    requires
        g.is_true(),
        g.is_fine(),
        (g.numbers)(length),
        0 <= (g.at)(length) <= g.reach,
        150 <= n <= 1_000,
        1_000 * (g.at)(length) <= (n - 1) * 65_000 * g.unit || n == 1_000,
    ensures
        g.is_within((length / S::mil(65_000)).held(S::mil(150), S::mil(1_000)), n + 1),
{
    measure::lemma_constant_within(g, 150);
    measure::lemma_constant(g, 1_000);
    measure::lemma_constant(g, 65_000);
    let (x, u) = ((g.at)(length), g.unit);
    let d = 65_000 * u;
    assert(-g.reach * d <= x * (1_000 * u) <= g.reach * d) by (nonlinear_arith)
        requires
            0 <= x <= g.reach,
            0 < u,
            d == 65_000 * u,
    ;
    assert(500 * u <= d);
    reveal(Gauge::is_fine);
    let z = (g.at)(length / S::mil(65_000));
    assert(1_000 * x <= (n - 1) * 65_000 * u ==> z <= n * u) by (nonlinear_arith)
        requires
            -u * d <= z * d - x * (1_000 * u) <= u * d,
            0 < u,
            d == 65_000 * u,
    ;
    assert(151 * u <= (n + 1) * u && n * u <= (n + 1) * u && -(n + 1) * u <= 0) by (nonlinear_arith)
        requires
            150 <= n,
            0 < u,
    ;
    if n == 1_000 {
        assert((n + 1) * u == 1_001 * u);
    }
}

/// Whether a value is a number so small that lines can be reckoned with it.
pub open spec fn is_short<S: Scalar>(g: Gauge<S>, a: S) -> bool {
    (g.numbers)(a) && -g.reach <= 32 * (g.at)(a) <= g.reach
}

/// A length is at least a pixel, and no leg is longer.
pub proof fn lemma_length<S: Scalar>(g: Gauge<S>, dx: S, dy: S)
    requires
        g.is_true(),
        g.is_fine(),
        g.is_modest(dx) && g.is_modest(dy),
    ensures
        ({
            let length = dx.hypotenuse(dy).larger(S::mil(1_000));
            &&& (g.numbers)(length)
            &&& 1_000 * g.unit <= (g.at)(length) <= g.reach
            &&& -(g.at)(length) - g.unit <= (g.at)(dx) <= (g.at)(length) + g.unit
            &&& -(g.at)(length) - g.unit <= (g.at)(dy) <= (g.at)(length) + g.unit
            &&& length == dx.hypotenuse(dy) || length == S::mil(1_000)
        }),
{
    reveal(Gauge::is_fine);
    measure::lemma_constant(g, 1_000);
    measure::lemma_larger(g, dx.hypotenuse(dy), S::mil(1_000));
}

proof fn lemma_keeps_level<S: Scalar>(g: Gauge<S>, y: S, dy: S, t: S, slant: S, deviation: S)
    requires
        g.is_true(),
        g.is_fine(),
        is_short(g, y),
        (g.numbers)(dy),
        -g.unit <= (g.at)(dy) <= g.unit,
        (g.numbers)(t),
        0 <= (g.at)(t) <= 1_000 * g.unit,
        g.is_within(slant, 1_003),
        g.is_within(deviation, 1_825),
    ensures
        g.is_about(y + dy * t + slant * deviation, (g.at)(y), 1_840),
{
    measure::lemma_constant(g, 0);
    measure::lemma_share(g, dy, t);
    assert(g.is_within(dy * t, 2));
    measure::lemma_product_within(g, slant, deviation, 1_003, 1_825, 1_832);
    measure::lemma_shifted(g, y, dy * t, (g.at)(y), 0, 2);
    measure::lemma_shifted(g, y + dy * t, slant * deviation, (g.at)(y), 3, 1_832);
}

proof fn lemma_keeps_its_ends<S: Scalar>(g: Gauge<S>, x0: S, x1: S, t: S, slant: S, deviation: S)
    requires
        g.is_true(),
        g.is_fine(),
        is_short(g, x0) && is_short(g, x1),
        (g.numbers)(t),
        0 <= (g.at)(t) <= 1_000 * g.unit,
        g.is_within(slant, 3),
        g.is_within(deviation, 1_825),
    ensures
        ({
            let x = x0 + (x1 - x0) * t + slant * deviation;
            &&& (g.numbers)(x)
            &&& (g.at)(t) == 0 ==> g.is_about(x, (g.at)(x0), 12)
            &&& (g.at)(t) == 1_000 * g.unit ==> g.is_about(x, (g.at)(x1), 12)
        }),
{
    let dx = x1 - x0;
    measure::lemma_constant(g, 0);
    measure::lemma_difference(g, x1, x0);
    measure::lemma_share(g, dx, t);
    measure::lemma_product_within(g, slant, deviation, 3, 1_825, 7);
    measure::lemma_sum(g, x0, dx * t);
    let place = if (g.at)(t) == 0 {
        (g.at)(x0)
    } else if (g.at)(t) == 1_000 * g.unit {
        (g.at)(x1)
    } else {
        (g.at)(x0 + dx * t)
    };
    let (u, x) = (g.unit, (g.at)(x0 + dx * t));
    assert((g.at)(t) == 0 ==> -2 * u <= x - (g.at)(x0) <= 2 * u);
    assert((g.at)(t) == 1_000 * u ==> -3 * u <= x - (g.at)(x1) <= 3 * u);
    assert(-4 * u <= x - place <= 4 * u);
    measure::lemma_shifted(g, x0 + dx * t, slant * deviation, place, 4, 7);
}

/// A level line that is drawn by hand keeps level but for its wobble, and spans its two
/// points up to twelve thousandths of a pixel.
pub proof fn law_level_lines_stay_level<S: Scalar>(
    g: Gauge<S>,
    seed: u64,
    placed: usize,
    key: Seq<char>,
    x0: S,
    x1: S,
    y: S,
    i: int,
)
    requires
        g.is_true(),
        g.is_fine(),
        is_short(g, x0) && is_short(g, x1) && is_short(g, y),
        0 <= i <= 8,
    ensures
        ({
            let line = variation::drawn_line(seed, placed, key, (x0, y), (x1, y));
            &&& line.len() == 9
            &&& (g.numbers)(line[i].0)
            &&& g.is_about(line[i].1, (g.at)(y), 1_840)
            &&& i == 0 ==> g.is_about(line[i].0, (g.at)(x0), 12)
            &&& i == 8 ==> g.is_about(line[i].0, (g.at)(x1), 12)
        }),
{
    let (dx, dy) = (x1 - x0, y - y);
    let t = S::counted(i) / S::counted(8);
    let (length, deviation) = lines::lemma_line_shape(seed, placed, key, (x0, y), (x1, y), i);
    measure::lemma_constant(g, 0);
    measure::lemma_counts(g, i, 8);
    measure::lemma_difference(g, x1, x0);
    measure::lemma_difference(g, y, y);
    lemma_length(g, dx, dy);
    law_lines_stray_little(g, seed, placed, key, length, t, 1_000);
    measure::lemma_opposite(g, dy);
    measure::lemma_slant(g, dx, length);
    measure::lemma_slant(g, -dy, length);
    lemma_keeps_level(g, y, dy, t, dx / length, deviation);
    lemma_keeps_its_ends(g, x0, x1, t, (-dy) / length, deviation);
}

} // verus!
