//! How a radical is drawn round its body.
use crate::bits;
use crate::compose;
use crate::exact::lines as exact_lines;
use crate::gauge::lines;
use crate::gauge::measure;
use crate::gauge::measure::Gauge;
use crate::scalar::Scalar;
use crate::strokes;
use crate::strokes::BoxView;
use crate::variation;
use crate::words;
use vstd::prelude::*;

verus! {

proof fn lemma_cap<S: Scalar>(g: Gauge<S>, body: BoxView<S>)
    requires
        g.is_true(),
        (g.numbers)(body.above),
        64 * (g.at)(body.above) <= g.reach,
    ensures
        ({
            let cap = compose::root_cap(body);
            &&& lines::is_short(g, cap)
            &&& lines::is_short(g, -cap)
            &&& (g.at)(-cap) == -(g.at)(cap)
            &&& (g.at)(body.above) + 9_000 * g.unit - g.unit <= (g.at)(cap)
        }),
{
    measure::lemma_constant(g, 56_000);
    measure::lemma_constant(g, 9_000);
    let higher = body.above.larger(S::mil(56_000));
    measure::lemma_larger(g, body.above, S::mil(56_000));
    measure::lemma_sum(g, higher, S::mil(9_000));
    measure::lemma_opposite(g, higher + S::mil(9_000));
}

/// In every number type that computes nearly exactly the overline of a hand-drawn radical
/// clears the ink of the body: what lies inside the body's box is more than seven pixels
/// below the last eight points of the radical.
pub proof fn law_overlines_clear_their_body<S: Scalar>(
    g: Gauge<S>,
    body: BoxView<S>,
    seed: u64,
    placed: usize,
    i: int,
    j: int,
    k: int,
)
    requires
        g.is_true(),
        g.is_fine(),
        (g.numbers)(body.width) && 0 <= 64 * (g.at)(body.width) <= g.reach,
        (g.numbers)(body.above) && 64 * (g.at)(body.above) <= g.reach,
        strokes::has_point(body.marks, i, j),
        g.is_modest(body.marks[i].points[j].1),
        -(g.at)(body.above) <= (g.at)(body.marks[i].points[j].1),
        1 <= k <= 8,
    ensures
        ({
            let root = compose::root_box(body, seed, true, placed);
            let stroke = root.marks.last().points;
            &&& root.marks.len() == body.marks.len() + 1
            &&& strokes::has_point(root.marks, i, j)
            &&& (g.at)(stroke[stroke.len() - 9 + k].1) + 7_150 * g.unit <= (g.at)(
                root.marks[i].points[j].1,
            )
        }),
{
    let root = compose::root_box(body, seed, true, placed);
    let cap = compose::root_cap(body);
    let width = body.width + S::mil(30_000);
    let c = compose::root_corners(seed, true, placed, cap, width);
    exact_lines::lemma_stroke_parts(seed, placed, c);
    let stroke = compose::root_stroke(seed, placed, c);
    assert(root.marks.last().points == stroke);
    lemma_cap(g, body);
    lemma_overline(g, seed, placed, cap, body.width, k);
    let bar = variation::drawn_line(seed, placed, "\\sqrtbar"@, c.rise, c.end);
    assert(stroke[stroke.len() - 9 + k] == bar[k]);
    let y = body.marks[i].points[j].1;
    measure::lemma_constant(g, 0);
    measure::lemma_sum(g, y, S::mil(0));
    assert(root.marks[i].points[j].1 == y + S::mil(0));
}

proof fn lemma_overline<S: Scalar>(
    g: Gauge<S>,
    seed: u64,
    placed: usize,
    cap: S,
    body_width: S,
    k: int,
)
    requires
        g.is_true(),
        g.is_fine(),
        lines::is_short(g, -cap),
        (g.numbers)(body_width) && 0 <= 64 * (g.at)(body_width) <= g.reach,
        0 <= k <= 8,
    ensures
        ({
            let c = compose::root_corners(
                seed,
                true,
                placed,
                cap,
                body_width + S::mil(30_000),
            );
            let bar = variation::drawn_line(seed, placed, "\\sqrtbar"@, c.rise, c.end);
            g.is_about(bar[k].1, (g.at)(-cap), 1_840)
        }),
{
    let thirty = S::mil(30_000);
    measure::lemma_constant(g, 30_000);
    measure::lemma_constant(g, 27_000);
    measure::lemma_constant(g, 3_000);
    measure::lemma_sum(g, body_width, thirty);
    measure::lemma_difference(g, body_width + thirty, S::mil(3_000));
    lines::law_level_lines_stay_level(
        g,
        seed,
        placed,
        "\\sqrtbar"@,
        S::mil(27_000),
        body_width + thirty - S::mil(3_000),
        -cap,
        k,
    );
}

// The entry of a radical.

proof fn lemma_portion<S: Scalar>(g: Gauge<S>, a: S, n: int)
    requires
        g.is_true(),
        g.is_fine(),
        g.is_within(a, 100_000),
        0 <= n <= 1_000,
    ensures
        (g.numbers)(a * S::mil(n)),
        -101_000 * g.unit <= 1_000 * (g.at)(a * S::mil(n)) - n * (g.at)(a) <= 101_000 * g.unit,
{
    measure::lemma_constant(g, n);
    let (x, y, u) = ((g.at)(a), (g.at)(S::mil(n)), g.unit);
    let (f, p) = (1_000 * u, n * x);
    let m = n * u;
    assert(-g.reach * f <= x * y <= g.reach * f && -100_000 * u * u <= x * y - p * u <= 100_000 * u
        * u) by (nonlinear_arith)
        requires
            -100_000 * u <= x <= 100_000 * u,
            m - u <= y <= m + u,
            m == n * u,
            p == n * x,
            0 <= n <= 1_000,
            0 < u,
            f == 1_000 * u,
            4_000_000 * u <= g.reach,
    ;
    reveal(Gauge::is_fine);
    let z = (g.at)(a * S::mil(n));
    assert(-101_000 * u <= 1_000 * z - p <= 101_000 * u) by (nonlinear_arith)
        requires
            -u * f <= z * f - x * y <= u * f,
            -100_000 * u * u <= x * y - p * u <= 100_000 * u * u,
            f == 1_000 * u,
            0 < u,
    ;
}

proof fn lemma_hook<S: Scalar>(g: Gauge<S>, seed: u64, placed: usize, cap: S, width: S)
    requires
        g.is_true(),
        g.is_fine(),
        (g.numbers)(cap),
        0 <= (g.at)(cap) <= 100_000 * g.unit,
    ensures
        ({
            let c = compose::root_corners(seed, true, placed, cap, width);
            let (dx, dy) = (c.foot.0 - c.hook.0, c.foot.1 - c.hook.1);
            &&& lines::is_short(g, c.hook.0) && lines::is_short(g, c.hook.1)
            &&& g.is_within(dx, 9_815)
            &&& g.is_within(dy, 20_205)
        }),
{
    let b = bits::bits_of_instance(seed, "\\sqrt-bend"@, placed);
    measure::lemma_draws_are_within(g, b);
    measure::lemma_constant(g, 1_000);
    lemma_hook_across(g, bits::signed_unit_of::<S>(b));
    lemma_hook_down(g, cap);
}

proof fn lemma_hook_across<S: Scalar>(g: Gauge<S>, swing: S)
    requires
        g.is_true(),
        g.is_fine(),
        g.is_within(swing, 1_000),
    ensures
        g.is_within(S::mil(9_000) + S::mil(1_800) * swing - S::mil(1_000), 9_815),
{
    measure::lemma_constant_within(g, 1_800);
    measure::lemma_product_within(g, S::mil(1_800), swing, 1_801, 1_000, 1_808);
    measure::lemma_constant(g, 9_000);
    measure::lemma_constant(g, 1_000);
    let foot = S::mil(9_000) + S::mil(1_800) * swing;
    measure::lemma_sum(g, S::mil(9_000), S::mil(1_800) * swing);
    measure::lemma_difference(g, foot, S::mil(1_000));
}

proof fn lemma_hook_down<S: Scalar>(g: Gauge<S>, cap: S)
    requires
        g.is_true(),
        g.is_fine(),
        (g.numbers)(cap),
        0 <= (g.at)(cap) <= 100_000 * g.unit,
    ensures
        lines::is_short(g, (-cap) * S::mil(450)),
        g.is_within((-cap) * S::mil(250) - (-cap) * S::mil(450), 20_205),
{
    measure::lemma_constant(g, 0);
    measure::lemma_opposite(g, cap);
    lemma_portion(g, -cap, 450);
    lemma_portion(g, -cap, 250);
    let (hook, foot) = ((-cap) * S::mil(450), (-cap) * S::mil(250));
    assert(-450 * (g.at)(cap) - 101_000 * g.unit <= 1_000 * (g.at)(hook) <= 101_000 * g.unit);
    measure::lemma_difference(g, foot, hook);
}

proof fn lemma_hook_is_short<S: Scalar>(g: Gauge<S>, dx: S, dy: S)
    requires
        g.is_true(),
        g.is_fine(),
        g.is_within(dx, 9_815),
        g.is_within(dy, 20_205),
    ensures
        (g.at)(dx.hypotenuse(dy).larger(S::mil(1_000))) <= 22_480 * g.unit,
{
    measure::lemma_constant(g, 1_000);
    lines::lemma_length(g, dx, dy);
    reveal(Gauge::is_fine);
    let (x, y, u) = ((g.at)(dx), (g.at)(dy), g.unit);
    let r = (g.at)(dx.hypotenuse(dy));
    assert(x * x + y * y <= 505_000_000 * u * u) by (nonlinear_arith)
        requires
            -9_815 * u <= x <= 9_815 * u,
            -20_205 * u <= y <= 20_205 * u,
            0 < u,
    ;
    if u <= r {
        let d = r - u;
        assert(d <= 22_473 * u) by (nonlinear_arith)
            requires
                0 <= d,
                d * d <= 505_000_000 * u * u,
                0 < u,
        ;
    }
}

/// The entry of a radical round a body of ordinary height is smooth: its points stay
/// within seven tenths of a pixel of the straight line.
pub proof fn law_radical_entries_are_smooth<S: Scalar>(
    g: Gauge<S>,
    seed: u64,
    placed: usize,
    cap: S,
    width: S,
    i: int,
)
    requires
        g.is_true(),
        g.is_fine(),
        (g.numbers)(cap),
        0 <= (g.at)(cap) <= 100_000 * g.unit,
        0 <= i <= 8,
    ensures
        ({
            let c = compose::root_corners(seed, true, placed, cap, width);
            let t = S::counted(i) / S::counted(8);
            let p = compose::root_points(seed, true, placed, cap, width)[i];
            &&& g.is_about(p.0, (g.at)(c.hook.0 + (c.foot.0 - c.hook.0) * t), 700)
            &&& g.is_about(p.1, (g.at)(c.hook.1 + (c.foot.1 - c.hook.1) * t), 700)
        }),
{
    let c = compose::root_corners(seed, true, placed, cap, width);
    let (dx, dy) = (c.foot.0 - c.hook.0, c.foot.1 - c.hook.1);
    let t = S::counted(i) / S::counted(8);
    let (length, deviation) = lemma_entry_point(seed, placed, cap, width, i);
    lemma_hook(g, seed, placed, cap, width);
    lemma_entry_strays_little(g, seed, placed, dx, dy, t, length, i);
    measure::lemma_opposite(g, dy);
    lemma_displaced(g, c.hook.0, dx, t, -dy, length, deviation);
    lemma_displaced(g, c.hook.1, dy, t, dx, length, deviation);
}

proof fn lemma_entry_point<S: Scalar>(seed: u64, placed: usize, cap: S, width: S, i: int) -> (r: (
    S,
    S,
))
    requires
        0 <= i <= 8,
    ensures
        ({
            let c = compose::root_corners(seed, true, placed, cap, width);
            let (dx, dy) = (c.foot.0 - c.hook.0, c.foot.1 - c.hook.1);
            let t = S::counted(i) / S::counted(8);
            &&& compose::root_points(seed, true, placed, cap, width)[i] == (
                c.hook.0 + dx * t + (-dy) / r.0 * r.1,
                c.hook.1 + dy * t + dx / r.0 * r.1,
            )
            &&& r.0 == dx.hypotenuse(dy).larger(S::mil(1_000))
            &&& r.1 == variation::deviation_at(
                variation::sway_of(seed, placed, "\\sqrt-entry"@, r.0),
                t,
            )
        }),
{
    let c = compose::root_corners(seed, true, placed, cap, width);
    exact_lines::lemma_stroke_parts(seed, placed, c);
    let line = variation::drawn_line(seed, placed, "\\sqrt-entry"@, c.hook, c.foot);
    assert(compose::root_points(seed, true, placed, cap, width)[i] == line[i]);
    exact_lines::lemma_line_shape(seed, placed, "\\sqrt-entry"@, c.hook, c.foot, i)
}

proof fn lemma_entry_strays_little<S: Scalar>(
    g: Gauge<S>,
    seed: u64,
    placed: usize,
    dx: S,
    dy: S,
    t: S,
    length: S,
    i: int,
)
    requires
        g.is_true(),
        g.is_fine(),
        g.is_within(dx, 9_815),
        g.is_within(dy, 20_205),
        t == S::counted(i) / S::counted(8),
        0 <= i <= 8,
        length == dx.hypotenuse(dy).larger(S::mil(1_000)),
    ensures
        (g.numbers)(t),
        0 <= (g.at)(t) <= 1_000 * g.unit,
        (g.numbers)(length),
        999 * g.unit <= (g.at)(length) <= g.reach,
        -(g.at)(length) - g.unit <= (g.at)(dx) <= (g.at)(length) + g.unit,
        -(g.at)(length) - g.unit <= (g.at)(dy) <= (g.at)(length) + g.unit,
        g.is_within(dx, 30_000),
        g.is_within(dy, 30_000),
        g.is_within(
            variation::deviation_at(
                variation::sway_of(seed, placed, "\\sqrt-entry"@, length),
                t,
            ),
            635,
        ),
{
    let key = "\\sqrt-entry"@;
    assert(words::begins_with(key, "\\sqrt"@)) by {
        reveal_strlit("\\sqrt-entry");
        reveal_strlit("\\sqrt");
        assert(key.subrange(0, 5) =~= "\\sqrt"@);
    }
    measure::lemma_constant(g, 0);
    measure::lemma_counts(g, i, 8);
    measure::lemma_wider(g, dx, 9_815, 30_000);
    measure::lemma_wider(g, dy, 20_205, 30_000);
    lemma_hook_is_short(g, dx, dy);
    lines::lemma_length(g, dx, dy);
    assert((348 - 1) * 65_000 * g.unit == 22_555_000 * g.unit) by (nonlinear_arith);
    lines::law_lines_stray_little(g, seed, placed, key, length, t, 348);
    assert(1_816 * (348 + 1) / 1_000 + 2 == 635int);
}

proof fn lemma_displaced<S: Scalar>(
    g: Gauge<S>,
    from: S,
    along: S,
    t: S,
    across: S,
    length: S,
    deviation: S,
)
    requires
        g.is_true(),
        g.is_fine(),
        lines::is_short(g, from),
        g.is_within(along, 30_000),
        (g.numbers)(t),
        0 <= (g.at)(t) <= 1_000 * g.unit,
        (g.numbers)(across) && (g.numbers)(length),
        999 * g.unit <= (g.at)(length) <= g.reach,
        -(g.at)(length) - g.unit <= (g.at)(across) <= (g.at)(length) + g.unit,
        g.is_within(deviation, 635),
    ensures
        g.is_about(
            from + along * t + across / length * deviation,
            (g.at)(from + along * t),
            700,
        ),
{
    measure::lemma_constant(g, 0);
    measure::lemma_share(g, along, t);
    measure::lemma_sum(g, from, along * t);
    measure::lemma_slant(g, across, length);
    measure::lemma_product_within(g, across / length, deviation, 1_003, 635, 638);
    measure::lemma_shifted(
        g,
        from + along * t,
        across / length * deviation,
        (g.at)(from + along * t),
        0,
        638,
    );
}

} // verus!
