//! Hand-drawn lines, bars and radicals.
use crate::bits;
use crate::compose;
use crate::exact::arithmetic;
use crate::milli;
use crate::milli::Milli;
use crate::scalar::Scalar;
use crate::strokes::BoxView;
use crate::variation;
use crate::variation::Sway;
use crate::words;
use vstd::prelude::*;

verus! {

// What a line is made of, whatever the numbers are.

/// A point of a hand-drawn line: how long the line is, and how far it strays there.
pub proof fn lemma_line_shape<S: Scalar>(
    seed: u64,
    placed: usize,
    key: Seq<char>,
    from: (S, S),
    to: (S, S),
    i: int,
) -> (r: (S, S))
    requires
        0 <= i <= 8,
    ensures
        ({
            let t = S::counted(i) / S::counted(8);
            variation::drawn_line(seed, placed, key, from, to)[i] == (
                from.0 + (to.0 - from.0) * t + (-(to.1 - from.1)) / r.0 * r.1,
                from.1 + (to.1 - from.1) * t + (to.0 - from.0) / r.0 * r.1,
            )
        }),
        variation::drawn_line(seed, placed, key, from, to).len() == 9,
        r.0 == (to.0 - from.0).hypotenuse(to.1 - from.1).larger(S::mil(1_000)),
        r.1 == variation::deviation_at(
            variation::sway_of(seed, placed, key, r.0),
            S::counted(i) / S::counted(8),
        ),
{
    reveal(variation::drawn_line);
    let length = variation::line_length(from, to);
    let sway = variation::sway_of(seed, placed, key, length);
    (length, variation::deviation_at(sway, S::counted(i) / S::counted(8)))
}

proof fn lemma_deviation_shape<S: Scalar>(sway: Sway<S>, t: S) -> (r: (S, S))
    ensures
        ({
            let envelope = (S::half_turn() * t).sine();
            let wave = S::mil(900) * r.0.sine() + S::mil(500) * S::mil(900) * r.1.sine();
            let slope = (t - S::mil(500)) * sway.tilt;
            variation::deviation_at(sway, t) == match sway.joined {
                Some(scale) => envelope * (wave + slope) * scale,
                None => envelope * wave + slope * (S::mil(4_000) * envelope).smaller(
                    S::mil(1_000),
                ),
            }
        }),
{
    reveal(variation::deviation_at);
    (t * S::mil(5_300) + sway.phase_a, t * S::mil(9_100) + sway.phase_b)
}

proof fn lemma_sway_shape<S: Scalar>(seed: u64, placed: usize, key: Seq<char>, length: S) -> (r: u64)
    ensures
        variation::sway_of(seed, placed, key, length).tilt == S::mil(900) * bits::signed_unit_of::<
            S,
        >(r),
        variation::sway_of(seed, placed, key, length).joined == if words::begins_with(
            key,
            "\\sqrt"@,
        ) {
            Some((length / S::mil(65_000)).held(S::mil(150), S::mil(1_000)))
        } else {
            None
        },
{
    reveal(variation::sway_of);
    bits::redrawn(bits::bits_of_instance(seed, key, placed), 37)
}

// How far a line strays.

proof fn lemma_wave_is_within(first: Milli, second: Milli, t: Milli, tilt: Milli)
    requires
        arithmetic::within(first, 1_000),
        arithmetic::within(second, 1_000),
        0 <= t.0 <= 1_000,
        arithmetic::within(tilt, 900),
    ensures
        arithmetic::within(Milli(900) * first + Milli(500) * Milli(900) * second, 1_350),
        arithmetic::within((t - Milli(500)) * tilt, 450),
{
    let small = Milli(500) * Milli(900);
    arithmetic::lemma_product_within(Milli(500), Milli(900), 500, 900);
    assert(500 * 900 / 1_000 == 450int);
    assert(arithmetic::within(small, 450));
    arithmetic::lemma_product_within(Milli(900), first, 900, 1_000);
    arithmetic::lemma_product_within(small, second, 450, 1_000);
    arithmetic::lemma_product_within(t - Milli(500), tilt, 500, 900);
    assert(500 * 900 / 1_000 == 450int);
}

proof fn lemma_faded_is_within(envelope: Milli, wave: Milli, slope: Milli, scale: Milli)
    requires
        0 <= envelope.0 <= 1_000,
        arithmetic::within(wave, 1_350),
        arithmetic::within(slope, 450),
        0 <= scale.0 <= 1_000,
    ensures
        arithmetic::within(envelope * (wave + slope) * scale, 1_800 * scale.0 / 1_000),
        arithmetic::within(
            envelope * wave + slope * (Milli(4_000) * envelope).smaller(Milli(1_000)),
            1_800,
        ),
{
    arithmetic::lemma_product_within(envelope, wave + slope, 1_000, 1_800);
    let faded = envelope * (wave + slope);
    assert(1_000 * 1_800 / 1_000 == 1_800int);
    arithmetic::lemma_product_within(faded, scale, 1_800, scale.0 as int);
    arithmetic::lemma_product_within(envelope, wave, 1_000, 1_350);
    arithmetic::lemma_share(envelope.0 as int, 4_000);
    let fade = (Milli(4_000) * envelope).smaller(Milli(1_000));
    assert(0 <= fade.0 <= 1_000);
    arithmetic::lemma_product_within(slope, fade, 450, 1_000);
}

/// No line strays from the straight one by more than the wobble that fractions reckon
/// with, and a piece of a radical strays the less the shorter it is.
pub proof fn law_lines_stray_no_further_than_their_wobble(
    seed: u64,
    placed: usize,
    key: Seq<char>,
    length: Milli,
    t: Milli,
)
    requires
        0 <= t.0 <= 1_000,
    ensures
        arithmetic::within(
            variation::deviation_at(variation::sway_of(seed, placed, key, length), t),
            compose::max_bar_wobble::<Milli>().0 as int,
        ),
        compose::max_bar_wobble::<Milli>() == Milli(1_800),
        words::begins_with(key, "\\sqrt"@) ==> arithmetic::within(
            variation::deviation_at(variation::sway_of(seed, placed, key, length), t),
            1_800 * (length / Milli(65_000)).held(Milli(150), Milli(1_000)).0 / 1_000,
        ),
{
    let sway = variation::sway_of(seed, placed, key, length);
    let draw = lemma_sway_shape(seed, placed, key, length);
    let (first, second) = lemma_deviation_shape(sway, t);
    arithmetic::lemma_sines_are_within_one(first);
    arithmetic::lemma_sines_are_within_one(second);
    arithmetic::lemma_arcs_are_not_negative(t);
    arithmetic::lemma_draws_are_within_one(draw);
    arithmetic::lemma_product_within(Milli(900), bits::signed_unit_of::<Milli>(draw), 900, 1_000);
    lemma_wave_is_within(first.sine(), second.sine(), t, sway.tilt);
    let wave = Milli(900) * first.sine() + Milli(500) * Milli(900) * second.sine();
    let slope = (t - Milli(500)) * sway.tilt;
    let scale = (length / Milli(65_000)).held(Milli(150), Milli(1_000));
    lemma_faded_is_within((Milli::half_turn() * t).sine(), wave, slope, scale);
    lemma_wobble();
}

proof fn lemma_wobble()
    ensures
        compose::max_bar_wobble::<Milli>() == Milli(1_800),
        compose::numerator_gap::<Milli>() == Milli(3_450),
{
    arithmetic::lemma_share(1_500, 900);
    arithmetic::lemma_ratio(900, 2_000);
    assert(900 * 1_000 / 2_000 == 450int);
    arithmetic::lemma_ratio(2_300, 2_000);
    assert(2_300 * 1_000 / 2_000 == 1_150int);
}

/// Whether both coordinates of a point lie within a bound.
pub open spec fn is_near(p: (Milli, Milli), bound: int) -> bool {
    arithmetic::within(p.0, bound) && arithmetic::within(p.1, bound)
}

/// Where a straight line is after `i` of its eight pieces.
pub open spec fn straight_place(from: (Milli, Milli), to: (Milli, Milli), i: int) -> (Milli, Milli) {
    let t = Milli::counted(i) / Milli::counted(8);
    (from.0 + (to.0 - from.0) * t, from.1 + (to.1 - from.1) * t)
}

/// Whether a point lies within a bound of another, along both axes.
pub open spec fn is_close_to(p: (Milli, Milli), q: (Milli, Milli), bound: int) -> bool {
    -bound <= p.0.0 - q.0.0 <= bound && -bound <= p.1.0 - q.1.0 <= bound
}

proof fn lemma_straight_place(from: (Milli, Milli), to: (Milli, Milli), i: int)
    requires
        is_near(from, 1_000_000_000),
        is_near(to, 1_000_000_000),
        0 <= i <= 8,
    ensures
        is_near(straight_place(from, to, i), 5_000_000_000),
        (Milli::counted(i) / Milli::counted(8)).0 == i * 125,
{
    arithmetic::lemma_ratio(i * 1_000, 8_000);
    assert(i * 1_000 * 1_000 / 8_000 == i * 125);
    let t = Milli::counted(i) / Milli::counted(8);
    arithmetic::lemma_part_within(to.0 - from.0, t, 2_000_000_000);
    arithmetic::lemma_part_within(to.1 - from.1, t, 2_000_000_000);
}

/// Every point of a hand-drawn line lies within its wobble of where a straight line would
/// be, whatever the key is.
pub proof fn law_lines_stay_near_the_straight_one(
    seed: u64,
    placed: usize,
    key: Seq<char>,
    from: (Milli, Milli),
    to: (Milli, Milli),
    i: int,
)
    requires
        is_near(from, 1_000_000_000),
        is_near(to, 1_000_000_000),
        0 <= i <= 8,
    ensures
        is_close_to(
            variation::drawn_line(seed, placed, key, from, to)[i],
            straight_place(from, to, i),
            1_800,
        ),
{
    lemma_straight_place(from, to, i);
    let t = Milli::counted(i) / Milli::counted(8);
    let (length, deviation) = lemma_line_shape(seed, placed, key, from, to, i);
    law_lines_stray_no_further_than_their_wobble(seed, placed, key, length, t);
    lemma_displacement(from, to, length, deviation, 1_800);
}

proof fn lemma_displacement(
    from: (Milli, Milli),
    to: (Milli, Milli),
    length: Milli,
    deviation: Milli,
    bound: int,
)
    requires
        is_near(from, 1_000_000_000),
        is_near(to, 1_000_000_000),
        length == (to.0 - from.0).hypotenuse(to.1 - from.1).larger(Milli(1_000)),
        arithmetic::within(deviation, bound),
        0 <= bound <= 1_800,
    ensures
        arithmetic::within((-(to.1 - from.1)) / length * deviation, bound),
        arithmetic::within((to.0 - from.0) / length * deviation, bound),
{
    let (dx, dy) = (to.0 - from.0, to.1 - from.1);
    arithmetic::lemma_legs_are_no_longer(dx, dy);
    arithmetic::lemma_slant(-dy, length);
    arithmetic::lemma_slant(dx, length);
    arithmetic::lemma_product_within((-dy) / length, deviation, 1_000, bound);
    arithmetic::lemma_product_within(dx / length, deviation, 1_000, bound);
    assert(1_000 * bound / 1_000 == bound);
}

/// However it waves and tilts, a hand-drawn line spans exactly the two points that it was
/// asked to.
pub proof fn law_lines_span_their_two_points(
    seed: u64,
    placed: usize,
    key: Seq<char>,
    from: (Milli, Milli),
    to: (Milli, Milli),
)
    requires
        is_near(from, 1_000_000_000),
        is_near(to, 1_000_000_000),
    ensures
        variation::drawn_line(seed, placed, key, from, to)[0] == from,
        variation::drawn_line(seed, placed, key, from, to)[8] == to,
{
    let (dx, dy) = (to.0 - from.0, to.1 - from.1);
    lemma_straight_place(from, to, 0);
    lemma_straight_place(from, to, 8);
    let (length, start) = lemma_line_shape(seed, placed, key, from, to, 0);
    let (same_length, end) = lemma_line_shape(seed, placed, key, from, to, 8);
    let sway = variation::sway_of(seed, placed, key, length);
    lemma_ends_do_not_stray(sway, Milli(0));
    lemma_ends_do_not_stray(sway, Milli(1_000));
    arithmetic::lemma_nothing_times(dx);
    arithmetic::lemma_nothing_times(dy);
    arithmetic::lemma_once(dx);
    arithmetic::lemma_once(dy);
    arithmetic::lemma_nothing_times((-dy) / length);
    arithmetic::lemma_nothing_times(dx / length);
}

proof fn lemma_ends_do_not_stray(sway: Sway<Milli>, t: Milli)
    requires
        t == Milli(0) || t == Milli(1_000),
    ensures
        variation::deviation_at(sway, t) == Milli(0),
{
    let (first, second) = lemma_deviation_shape(sway, t);
    arithmetic::lemma_nothing_times(Milli::half_turn());
    arithmetic::lemma_once(Milli::half_turn());
    arithmetic::lemma_half_turn_is_level();
    let wave = Milli(900) * first.sine() + Milli(500) * Milli(900) * second.sine();
    let slope = (t - Milli(500)) * sway.tilt;
    assert((Milli::half_turn() * t).sine() == Milli(0));
    arithmetic::lemma_nothing_times(wave + slope);
    arithmetic::lemma_nothing_times(wave);
    arithmetic::lemma_nothing_times(slope);
    arithmetic::lemma_nothing_times(Milli(4_000));
    if let Some(scale) = sway.joined {
        arithmetic::lemma_nothing_times(scale);
    }
}

// Bars.

/// The hand-drawn bar of a fraction starts and ends where it was asked to, and keeps
/// within its wobble of the math axis.
pub proof fn law_bars_are_level(seed: u64, placed: usize, width: Milli, axis: Milli, i: int)
    requires
        arithmetic::within(width, 900_000_000),
        arithmetic::within(axis, 900_000_000),
        0 <= i <= 8,
    ensures
        ({
            let bar = compose::fraction_bar(seed, true, placed, width, axis);
            &&& bar.len() == 9
            &&& bar[0] == (Milli(2_000), axis)
            &&& bar[8] == (width - Milli(2_000), axis)
            &&& axis.0 - 1_800 <= bar[i].1.0 <= axis.0 + 1_800
        }),
        compose::numerator_gap::<Milli>() == Milli(3_450),
{
    let from = (Milli(2_000), axis);
    let to = (width - Milli(2_000), axis);
    lemma_wobble();
    law_lines_span_their_two_points(seed, placed, "\\fracbar"@, from, to);
    law_lines_stay_near_the_straight_one(seed, placed, "\\fracbar"@, from, to, i);
    lemma_line_shape(seed, placed, "\\fracbar"@, from, to, i);
    arithmetic::lemma_nothing_times(Milli::counted(i) / Milli::counted(8));
    assert(axis - axis == Milli(0));
}

// Radicals.

/// A radical begins with its entry and ends with its overline.
pub proof fn lemma_stroke_parts<S: Scalar>(seed: u64, placed: usize, c: compose::Corners<S>) -> (r: (
    (S, S),
    (S, S),
))
    ensures
        ({
            let stroke = compose::root_stroke(seed, placed, c);
            let entry = variation::drawn_line(seed, placed, "\\sqrt-entry"@, c.hook, c.foot);
            let bar = variation::drawn_line(seed, placed, "\\sqrtbar"@, c.rise, c.end);
            &&& stroke.len() == 33 || stroke.len() == 39
            &&& stroke.len() == 39 <==> bits::unit_of::<S>(
                bits::bits_of_instance(seed, "\\sqrt-round"@, placed),
            ) < S::mil(500)
            &&& forall|k: int| 0 <= k < 9 ==> #[trigger] stroke[k] == entry[k]
            &&& forall|k: int| 1 <= k < 9 ==> stroke[stroke.len() - 9 + k] == #[trigger] bar[k]
        }),
{
    lemma_line_shape(seed, placed, "\\sqrt-entry"@, c.hook, c.foot, 0);
    lemma_line_shape(seed, placed, "\\sqrtbar"@, c.rise, c.end, 0);
    let b = bits::bits_of_instance(seed, "\\sqrt-bend"@, placed);
    let rounded = bits::unit_of::<S>(bits::bits_of_instance(seed, "\\sqrt-round"@, placed))
        < S::mil(500);
    let radius = S::mil(10_000) + S::mil(4_000) * bits::unit_of::<S>(bits::redrawn(b, 43));
    let before = compose::towards(c.bend, c.foot, radius);
    let after = compose::towards(c.bend, c.rise, radius);
    let down_end = if rounded {
        before
    } else {
        c.bend
    };
    let up_start = if rounded {
        after
    } else {
        c.bend
    };
    lemma_line_shape(seed, placed, "\\sqrt-down"@, c.foot, down_end, 0);
    lemma_line_shape(seed, placed, "\\sqrt-up"@, up_start, c.rise, 0);
    (down_end, up_start)
}

/// A hand-drawn radical is one stroke of thirty-three points, or of thirty-nine where its
/// bend is rounded off.
pub proof fn law_radicals_are_sharp_or_rounded<S: Scalar>(
    seed: u64,
    placed: usize,
    c: compose::Corners<S>,
)
    ensures
        compose::root_stroke(seed, placed, c).len() == if bits::unit_of::<S>(
            bits::bits_of_instance(seed, "\\sqrt-round"@, placed),
        ) < S::mil(500) {
            39nat
        } else {
            33nat
        },
{
    lemma_stroke_parts(seed, placed, c);
}

/// The overline of a hand-drawn radical clears the ink of the body: what lies inside the
/// body's box is more than seven pixels below the last eight points of the radical.
pub proof fn law_overlines_clear_their_body(
    body: BoxView<Milli>,
    seed: u64,
    placed: usize,
    i: int,
    j: int,
    k: int,
)
    requires
        arithmetic::within(body.width, 900_000_000),
        arithmetic::within(body.above, 900_000_000),
        0 <= i < body.marks.len(),
        0 <= j < body.marks[i].points.len(),
        arithmetic::within(body.marks[i].points[j].1, 900_000_000),
        -body.above.0 <= body.marks[i].points[j].1.0,
        1 <= k <= 8,
    ensures
        ({
            let root = compose::root_box(body, seed, true, placed);
            let stroke = root.marks.last().points;
            &&& root.marks.len() == body.marks.len() + 1
            &&& root.marks[i].points.len() == body.marks[i].points.len()
            &&& stroke[stroke.len() - 9 + k].1.0 + 7_200 <= root.marks[i].points[j].1.0
        }),
{
    let root = compose::root_box(body, seed, true, placed);
    let cap = compose::root_cap(body);
    let width = body.width + Milli(30_000);
    let c = compose::root_corners(seed, true, placed, cap, width);
    lemma_stroke_parts(seed, placed, c);
    let stroke = compose::root_stroke(seed, placed, c);
    assert(root.marks.last().points == stroke);
    law_lines_stay_near_the_straight_one(seed, placed, "\\sqrtbar"@, c.rise, c.end, k);
    let bar = variation::drawn_line(seed, placed, "\\sqrtbar"@, c.rise, c.end);
    assert(stroke[stroke.len() - 9 + k] == bar[k]);
    arithmetic::lemma_nothing_times(Milli::counted(k) / Milli::counted(8));
    assert(c.end.1 - c.rise.1 == Milli(0));
    assert(straight_place(c.rise, c.end, k).1 == -cap);
    let y = body.marks[i].points[j].1;
    assert(root.marks[i].points[j].1 == y + Milli(0));
}

/// The entry of a radical round a body of ordinary height is smooth: its points stay
/// within eight tenths of a pixel of the straight line.
pub proof fn law_radical_entries_are_smooth(
    seed: u64,
    placed: usize,
    cap: Milli,
    width: Milli,
    i: int,
)
    requires
        0 <= cap.0 <= 100_000,
        arithmetic::within(width, 900_000_000),
        0 <= i <= 8,
    ensures
        ({
            let c = compose::root_corners(seed, true, placed, cap, width);
            is_close_to(
                compose::root_points(seed, true, placed, cap, width)[i],
                straight_place(c.hook, c.foot, i),
                800,
            )
        }),
{
    let c = compose::root_corners(seed, true, placed, cap, width);
    lemma_stroke_parts(seed, placed, c);
    lemma_hook_is_short(seed, placed, cap, width);
    lemma_straight_place(c.hook, c.foot, i);
    let t = Milli::counted(i) / Milli::counted(8);
    let (length, deviation) = lemma_line_shape(seed, placed, "\\sqrt-entry"@, c.hook, c.foot, i);
    assert(words::begins_with("\\sqrt-entry"@, "\\sqrt"@)) by {
        reveal_strlit("\\sqrt-entry");
        reveal_strlit("\\sqrt");
        assert("\\sqrt-entry"@.subrange(0, 5) =~= "\\sqrt"@);
    }
    law_lines_stray_no_further_than_their_wobble(seed, placed, "\\sqrt-entry"@, length, t);
    arithmetic::lemma_ratio(length.0 as int, 65_000);
    assert(length.0 * 1_000 / 65_000 <= 400);
    let scale = (length / Milli(65_000)).held(Milli(150), Milli(1_000));
    assert(0 <= 1_800 * scale.0 / 1_000 <= 800);
    lemma_displacement(c.hook, c.foot, length, deviation, 800);
}

proof fn lemma_hook_is_short(seed: u64, placed: usize, cap: Milli, width: Milli)
    requires
        0 <= cap.0 <= 100_000,
    ensures
        ({
            let c = compose::root_corners(seed, true, placed, cap, width);
            let length = (c.foot.0 - c.hook.0).hypotenuse(c.foot.1 - c.hook.1);
            &&& is_near(c.hook, 1_000_000)
            &&& is_near(c.foot, 1_000_000)
            &&& 0 <= length.0 <= 26_000
        }),
{
    let c = compose::root_corners(seed, true, placed, cap, width);
    let b = bits::bits_of_instance(seed, "\\sqrt-bend"@, placed);
    arithmetic::lemma_draws_are_within_one(b);
    arithmetic::lemma_product_within(Milli(1_800), bits::signed_unit_of::<Milli>(b), 1_800, 1_000);
    assert(7_200 <= c.foot.0.0 <= 10_800);
    lemma_negative_share(cap.0 as int, 450);
    lemma_negative_share(cap.0 as int, 250);
    assert(c.hook.1.0 == -(cap.0 * 450 / 1_000));
    assert(c.foot.1.0 == -(cap.0 * 250 / 1_000));
    let (dx, dy) = (c.foot.0 - c.hook.0, c.foot.1 - c.hook.1);
    assert(6_200 <= dx.0 <= 9_800);
    assert(0 <= dy.0 <= 20_001);
    let (x, y) = (dx.0 as int, dy.0 as int);
    let n = x * x + y * y;
    assert(0 <= n <= 500_000_000) by (nonlinear_arith)
        requires
            0 <= x <= 9_800,
            0 <= y <= 20_001,
            n == x * x + y * y,
    ;
    milli::lemma_root_exists(n as nat);
    let r = milli::root_of(n);
    assert(r <= 26_000) by (nonlinear_arith)
        requires
            0 <= r,
            r * r <= n,
            n <= 500_000_000,
    ;
}

proof fn lemma_negative_share(a: int, b: int)
    requires
        0 <= a <= 100_000,
        0 <= b <= 1_000,
    ensures
        (-Milli(a as i64) * Milli(b as i64)).0 == -(a * b / 1_000),
{
    assert(0 <= a * b <= 100_000_000) by (nonlinear_arith)
        requires
            0 <= a <= 100_000,
            0 <= b <= 1_000,
    ;
    assert((-a) * b == -(a * b)) by (nonlinear_arith);
    let m = a * b;
    assert(milli::size_of(-m) == m);
    assert(milli::quotient(-m, 1_000) == -(m / 1_000));
}

} // verus!
