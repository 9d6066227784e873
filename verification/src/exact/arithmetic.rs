//! Bounds of sums, products, quotients and sines.
use crate::bits;
use crate::milli;
use crate::milli::Milli;
use crate::scalar::Scalar;
use vstd::prelude::*;

verus! {

/// Whether a number lies within a bound on both sides of zero.
pub open spec fn within(a: Milli, bound: int) -> bool {
    -bound <= a.0 <= bound
}

/// A product of bounded numbers is bounded.
pub proof fn lemma_product_within(a: Milli, b: Milli, m: int, n: int)
    requires
        within(a, m),
        within(b, n),
        0 <= m <= 1_000_000,
        0 <= n <= 1_000_000,
    ensures
        within(a * b, m * n / 1_000),
{
    let (x, y) = (milli::size_of(a.0 as int), milli::size_of(b.0 as int));
    let product = a.0 as int * b.0 as int;
    assert(milli::size_of(product) == x * y) by (nonlinear_arith)
        requires
            product == a.0 as int * b.0 as int,
            x == milli::size_of(a.0 as int),
            y == milli::size_of(b.0 as int),
    ;
    assert(0 <= x * y <= m * n <= 1_000_000_000_000) by (nonlinear_arith)
        requires
            0 <= x <= m,
            0 <= y <= n,
            m <= 1_000_000,
            n <= 1_000_000,
    ;
    vstd::arithmetic::div_mod::lemma_div_is_ordered(x * y, m * n, 1_000);
}

/// The quotient of two numbers that are not negative.
pub proof fn lemma_ratio(a: int, b: int)
    requires
        0 <= a <= 1_000_000_000_000,
        0 < b <= 1_000_000_000_000,
    ensures
        (Milli(a as i64) / Milli(b as i64)).0 == a * 1_000 / b,
        0 <= a * 1_000 / b <= 1_000_000_000_000_000,
{
    let (n, d) = (a * 1_000, b);
    assert(milli::size_of(n) == n && milli::size_of(d) == d);
    assert(0 <= n / d <= n) by (nonlinear_arith)
        requires
            0 <= n,
            0 < d,
    ;
    assert(milli::quotient(n, d) == n / d);
}

/// A share of a number that is not negative.
pub proof fn lemma_share(a: int, b: int)
    requires
        0 <= a <= 2_000,
        0 <= b <= i64::MAX,
    ensures
        milli::quotient(b * a, 1_000) == b * a / 1_000,
        0 <= b * a / 1_000 <= 2 * b,
        milli::quotient(a * b, 1_000) == b * a / 1_000,
{
    assert(0 <= b * a <= b * 2_000) by (nonlinear_arith)
        requires
            0 <= a <= 2_000,
            0 <= b,
    ;
    assert(a * b == b * a) by (nonlinear_arith);
}

/// Zero times a number is zero.
pub proof fn lemma_nothing_times(a: Milli)
    ensures
        Milli(0) * a == Milli(0),
        a * Milli(0) == Milli(0),
{
    assert(0 * a.0 == 0 && a.0 * 0 == 0);
}

/// One times a number is the number.
pub proof fn lemma_once(a: Milli)
    requires
        within(a, 2_000_000_000),
    ensures
        a * Milli(1_000) == a,
{
    let n = milli::size_of(a.0 as int);
    assert(n * 1_000 / 1_000 == n);
    assert(milli::size_of(a.0 * 1_000) == n * 1_000);
}

proof fn lemma_sine_within_one(angle: int)
    ensures
        -1_000 <= milli::sine_of(angle) <= 1_000,
{
    let turn = angle % 6_284;
    assert(milli::HALF_TURN as int * milli::HALF_TURN as int == 9_872_164) by (nonlinear_arith)
        requires
            milli::HALF_TURN == 3_142,
    ;
    let half = if turn <= 3_142 {
        turn
    } else {
        turn - 3_142
    };
    let p = half * (3_142 - half);
    assert(0 <= p <= 2_468_041) by (nonlinear_arith)
        requires
            0 <= half <= 3_142,
            p == half * (3_142 - half),
    ;
    let d = 49_360_820 - 4 * p;
    assert(0 <= 16_000 * p / d <= 1_000) by (nonlinear_arith)
        requires
            0 <= p <= 2_468_041,
            d == 49_360_820 - 4 * p,
    ;
    assert(milli::arch(half) == 16_000 * p / d);
}

/// No sine exceeds one.
pub proof fn lemma_sines_are_within_one(x: Milli)
    ensures
        within(x.sine(), 1_000),
        within(x.cosine(), 1_000),
{
    lemma_sine_within_one(x.0 as int);
    lemma_sine_within_one(x.0 + 1_571);
}

proof fn lemma_arch(x: int)
    requires
        0 <= x <= 3_142,
    ensures
        ({
            let p = x * (3_142 - x);
            let d = 49_360_820 - 4 * p;
            &&& 0 <= p <= 2_468_041
            &&& 39_488_656 <= d <= 49_360_820
            &&& milli::arch(x) == 16_000 * p / d
        }),
{
    assert(milli::HALF_TURN as int * milli::HALF_TURN as int == 9_872_164) by (nonlinear_arith)
        requires
            milli::HALF_TURN == 3_142,
    ;
    let p = x * (3_142 - x);
    assert(0 <= p <= 2_468_041) by (nonlinear_arith)
        requires
            0 <= x <= 3_142,
            p == x * (3_142 - x),
    ;
}

proof fn lemma_small_arch(x: int)
    requires
        0 <= x <= 30,
    ensures
        0 <= milli::arch(x) <= 30,
        0 <= milli::arch(3_142 - x) <= 30,
{
    lemma_arch(x);
    lemma_arch(3_142 - x);
    let p = x * (3_142 - x);
    let d = 49_360_820 - 4 * p;
    assert((3_142 - x) * (3_142 - (3_142 - x)) == p) by (nonlinear_arith)
        requires
            p == x * (3_142 - x),
    ;
    assert(p <= 94_260) by (nonlinear_arith)
        requires
            0 <= x <= 30,
            p == x * (3_142 - x),
    ;
    assert(0 <= 16_000 * p / d <= 30) by (nonlinear_arith)
        requires
            0 <= p <= 94_260,
            d == 49_360_820 - 4 * p,
    ;
}

proof fn lemma_high_arch(x: int)
    requires
        1_541 <= x <= 1_601,
    ensures
        999 <= milli::arch(x) <= 1_000,
{
    lemma_arch(x);
    let p = x * (3_142 - x);
    let d = 49_360_820 - 4 * p;
    assert(2_467_141 <= p) by (nonlinear_arith)
        requires
            1_541 <= x <= 1_601,
            p == x * (3_142 - x),
    ;
    assert(999 <= 16_000 * p / d <= 1_000) by (nonlinear_arith)
        requires
            2_467_141 <= p <= 2_468_041,
            d == 49_360_820 - 4 * p,
    ;
}

/// The sine of a quarter turn is one.
pub proof fn lemma_quarter_turn()
    ensures
        Milli(1_571).sine() == Milli(1_000),
{
    lemma_arch(1_571);
    let p: int = 1_571 * (3_142 - 1_571);
    assert(p == 2_468_041) by (nonlinear_arith)
        requires
            p == 1_571 * (3_142 - 1_571),
    ;
    assert(39_488_656_000int / 39_488_656 == 1_000);
    assert(1_571int % 6_284 == 1_571);
}

/// A small angle has a small sine, and a cosine close to one.
pub proof fn lemma_small_angles(x: Milli)
    requires
        within(x, 30),
    ensures
        within(x.sine(), 30),
        999 <= x.cosine().0 <= 1_000,
{
    let angle = x.0 as int;
    if angle >= 0 {
        assert(angle % 6_284 == angle);
        lemma_small_arch(angle);
    } else {
        assert(angle % 6_284 == 6_284 + angle);
        lemma_small_arch(-angle);
    }
    assert((angle + 1_571) % 6_284 == angle + 1_571);
    lemma_high_arch(angle + 1_571);
}

/// A factor close to one changes a number little.
pub proof fn lemma_nearly_once(a: Milli, f: Milli, bound: int, slack: int)
    requires
        within(a, bound),
        1_000 - slack <= f.0 <= 1_000 + slack,
        0 <= bound <= 1_000_000,
        0 <= slack <= 1_000,
    ensures
        -(bound * slack / 1_000 + 1) <= (a * f).0 - a.0 <= bound * slack / 1_000 + 1,
{
    let (x, g) = (a.0 as int, f.0 - 1_000);
    let product = a.0 as int * f.0 as int;
    let m = bound * slack;
    assert(product == x * 1_000 + x * g) by (nonlinear_arith)
        requires
            product == x * (1_000 + g),
    ;
    assert(-m <= x * g <= m && 0 <= m <= 1_000_000_000) by (nonlinear_arith)
        requires
            -bound <= x <= bound,
            -slack <= g <= slack,
            0 <= bound <= 1_000_000,
            0 <= slack <= 1_000,
            m == bound * slack,
    ;
    let q = milli::quotient(product, 1_000);
    let e = milli::size_of(product);
    assert(milli::size_of(1_000) == 1_000);
    assert(e / 1_000 * 1_000 <= e < e / 1_000 * 1_000 + 1_000);
    assert(-1_000 < 1_000 * q - product < 1_000);
    assert(-1_000 - m < 1_000 * (q - x) < 1_000 + m);
    assert(m / 1_000 * 1_000 <= m < m / 1_000 * 1_000 + 1_000);
}

/// The sine is zero at zero and at half a turn.
pub proof fn lemma_half_turn_is_level()
    ensures
        Milli(0).sine() == Milli(0),
        Milli(3_142).sine() == Milli(0),
{
    assert(milli::HALF_TURN as int * milli::HALF_TURN as int == 9_872_164) by (nonlinear_arith)
        requires
            milli::HALF_TURN == 3_142,
    ;
    assert(milli::arch(0) == 0 && milli::arch(3_142) == 0);
}

/// No draw exceeds one.
pub proof fn lemma_draws_are_within_one(draw: u64)
    ensures
        0 <= bits::unit_of::<Milli>(draw).0 <= 1_000,
        within(bits::signed_unit_of::<Milli>(draw), 1_000),
{
    bits::law_draws_are_below_one(draw);
    let k = (draw >> 40) as int;
    assert(0 <= k * 1_000 * 1_000 / 16_777_216_000 <= 1_000);
    assert(bits::unit_of::<Milli>(draw).0 == k * 1_000 * 1_000 / 16_777_216_000);
    lemma_share(2_000, bits::unit_of::<Milli>(draw).0 as int);
}

/// A part of a number is no larger than the number.
pub proof fn lemma_part_within(a: Milli, t: Milli, bound: int)
    requires
        within(a, bound),
        0 <= t.0 <= 1_000,
        0 <= bound <= 1_000_000_000_000,
    ensures
        within(a * t, bound),
{
    let (x, y) = (milli::size_of(a.0 as int), t.0 as int);
    let product = a.0 as int * y;
    assert(milli::size_of(product) == x * y) by (nonlinear_arith)
        requires
            product == a.0 as int * y,
            x == milli::size_of(a.0 as int),
            0 <= y,
    ;
    assert(0 <= x * y <= bound * 1_000) by (nonlinear_arith)
        requires
            0 <= x <= bound,
            0 <= y <= 1_000,
    ;
    assert((x * y) / 1_000 <= bound);
}

/// The sine of a part of half a turn is not negative.
pub proof fn lemma_arcs_are_not_negative(t: Milli)
    requires
        0 <= t.0 <= 1_000,
    ensures
        0 <= (Milli::half_turn() * t).sine().0 <= 1_000,
{
    lemma_share(t.0 as int, 3_142);
    let arc = Milli::half_turn() * t;
    assert(0 <= arc.0 <= 3_142);
    lemma_sines_are_within_one(arc);
    let x = arc.0 as int;
    assert(milli::HALF_TURN as int * milli::HALF_TURN as int == 9_872_164) by (nonlinear_arith)
        requires
            milli::HALF_TURN == 3_142,
    ;
    assert(x % 6_284 == x);
    let p = x * (3_142 - x);
    assert(0 <= p <= 2_468_041) by (nonlinear_arith)
        requires
            0 <= x <= 3_142,
            p == x * (3_142 - x),
    ;
    let d = 49_360_820 - 4 * p;
    assert(0 <= 16_000 * p / d) by (nonlinear_arith)
        requires
            0 <= p,
            0 < d,
    ;
    assert(milli::arch(x) == 16_000 * p / d);
}

/// No leg of a right triangle is longer than the hypotenuse.
pub proof fn lemma_legs_are_no_longer(dx: Milli, dy: Milli)
    requires
        within(dx, 2_000_000_000),
        within(dy, 2_000_000_000),
    ensures
        ({
            let length = dx.hypotenuse(dy).larger(Milli(1_000));
            &&& 1_000 <= length.0 <= 4_000_000_000
            &&& within(dx, length.0 as int)
            &&& within(dy, length.0 as int)
        }),
{
    let (x, y) = (dx.0 as int, dy.0 as int);
    let n = x * x + y * y;
    assert(0 <= x * x && 0 <= y * y && 0 <= n) by (nonlinear_arith)
        requires
            n == x * x + y * y,
    ;
    milli::lemma_root_exists(n as nat);
    let r = milli::root_of(n);
    assert(-r <= x <= r && -r <= y <= r && r <= 4_000_000_000) by (nonlinear_arith)
        requires
            0 <= r,
            r * r <= n,
            n < (r + 1) * (r + 1),
            n == x * x + y * y,
            -2_000_000_000 <= x <= 2_000_000_000,
            -2_000_000_000 <= y <= 2_000_000_000,
    ;
}

/// A leg as a share of something no shorter is at most one.
pub proof fn lemma_slant(leg: Milli, length: Milli)
    requires
        1_000 <= length.0 <= 4_000_000_000,
        within(leg, length.0 as int),
    ensures
        within(leg / length, 1_000),
{
    let (a, d) = (milli::size_of(leg.0 * 1_000), length.0 as int);
    assert(0 <= a / d <= 1_000) by (nonlinear_arith)
        requires
            0 <= a <= d * 1_000,
            1_000 <= d,
    ;
    assert(milli::size_of(d) == d);
}

/// Away from the middle of half a turn the sine falls off as a parabola does.
pub proof fn lemma_arcs_fall_off(t: Milli)
    requires
        0 <= t.0 <= 1_000,
    ensures
        ({
            let d = if t.0 < 500 {
                500 - t.0
            } else {
                t.0 - 500
            };
            2_000 * d + 3_500 * (Milli::half_turn() * t).sine().0 <= 3_600_000
        }),
{
    lemma_share(t.0 as int, 3_142);
    lemma_arcs_are_not_negative(t);
    let x = 3_142 * t.0 / 1_000;
    let arc = Milli::half_turn() * t;
    assert(arc.0 == x);
    assert(0 <= x <= 3_142);
    assert(x % 6_284 == x);
    lemma_arch(x);
    let p = x * (3_142 - x);
    let q = 49_360_820 - 4 * p;
    let s = milli::arch(x);
    assert(arc.sine().0 == s);
    let d: int = if t.0 < 500 {
        500 - t.0
    } else {
        t.0 - 500
    };
    let e: int = if x < 1_571 {
        1_571 - x
    } else {
        x - 1_571
    };
    assert(s * 39_488_656 <= 16_000 * p) by (nonlinear_arith)
        requires
            s == 16_000 * p / q,
            39_488_656 <= q,
            0 <= p,
            0 <= s,
    ;
    assert(p == 2_468_041 - e * e) by (nonlinear_arith)
        requires
            p == x * (3_142 - x),
            e == 1_571 - x || e == x - 1_571,
    ;
    assert(1_000 * e >= 3_142 * d - 1_000);
    assert(1_000_000 * (e * e) >= 9_872_164 * (d * d) - 6_284_000 * d) by (nonlinear_arith)
        requires
            1_000 * e >= 3_142 * d - 1_000,
            0 <= d <= 500,
            0 <= e,
    ;
    lemma_parabola(d, e * e, s);
}

proof fn lemma_parabola(d: int, square: int, s: int)
    requires
        0 <= d <= 500,
        1_000_000 * square >= 9_872_164 * (d * d) - 6_284_000 * d,
        s * 39_488_656 <= 16_000 * (2_468_041 - square),
    ensures
        2_000 * d + 3_500 * s <= 3_600_000,
{
    let u = d * d;
    assert(u >= 144 * d - 5_184) by (nonlinear_arith)
        requires
            u == d * d,
    ;
}

/// A larger dividend has no smaller quotient.
pub proof fn lemma_quotient_is_monotone(a: int, b: int, d: int)
    requires
        a <= b,
        0 < d,
    ensures
        milli::quotient(a, d) <= milli::quotient(b, d),
{
    let (x, y) = (milli::size_of(a), milli::size_of(b));
    vstd::arithmetic::div_mod::lemma_div_pos_is_pos(x, d);
    vstd::arithmetic::div_mod::lemma_div_pos_is_pos(y, d);
    if 0 <= a {
        vstd::arithmetic::div_mod::lemma_div_is_ordered(x, y, d);
    } else if b < 0 {
        vstd::arithmetic::div_mod::lemma_div_is_ordered(y, x, d);
    }
}

/// A factor from zero to one keeps the order of two numbers on either side of zero.
pub proof fn lemma_factor_keeps_order(low: Milli, y: Milli, high: Milli, f: Milli)
    requires
        -low.0 <= y.0 <= high.0,
        0 <= f.0 <= 1_000,
    ensures
        -(low * f).0 <= (y * f).0 <= (high * f).0,
{
    let (a, b, c, g) = (low.0 as int, y.0 as int, high.0 as int, f.0 as int);
    assert((-a) * g <= b * g <= c * g && (-a) * g == -(a * g)) by (nonlinear_arith)
        requires
            -a <= b <= c,
            0 <= g,
    ;
    lemma_quotient_is_monotone(b * g, c * g, 1_000);
    lemma_quotient_is_monotone(-(a * g), b * g, 1_000);
    lemma_opposite_quotient(a * g);
    lemma_product_fits(low, f);
    lemma_product_fits(y, f);
    lemma_product_fits(high, f);
}

/// A part of a number lies no further from zero.
pub proof fn lemma_factor_shrinks(a: Milli, f: Milli, bound: int)
    requires
        0 <= f.0 <= 1_000,
        within(a, bound),
    ensures
        within(a * f, bound),
{
    let (x, g) = (a.0 as int, f.0 as int);
    let n = milli::size_of(x);
    lemma_product_fits(a, f);
    assert(milli::size_of(x * g) == n * g && 0 <= n * g <= n * 1_000) by (nonlinear_arith)
        requires
            n == milli::size_of(x),
            0 <= g <= 1_000,
    ;
    let m = n * g;
    assert(m / 1_000 <= n);
    assert(milli::size_of(milli::quotient(x * g, 1_000)) == m / 1_000);
}

/// A part of the opposite number is the opposite of the part.
pub proof fn lemma_opposite_factor(a: Milli, f: Milli)
    requires
        i64::MIN < a.0,
        0 <= f.0 <= 1_000,
    ensures
        ((-a) * f).0 == -(a * f).0,
{
    let (x, g) = (a.0 as int, f.0 as int);
    assert((-x) * g == -(x * g)) by (nonlinear_arith);
    lemma_opposite_quotient(x * g);
    lemma_product_fits(a, f);
    lemma_product_fits(-a, f);
}

proof fn lemma_opposite_quotient(n: int)
    ensures
        milli::quotient(-n, 1_000) == -milli::quotient(n, 1_000),
{
}

proof fn lemma_product_fits(a: Milli, f: Milli)
    requires
        0 <= f.0 <= 1_000,
    ensures
        (a * f).0 == milli::quotient(a.0 * f.0, 1_000),
{
    let (x, g) = (a.0 as int, f.0 as int);
    let n = milli::size_of(x);
    assert(milli::size_of(x * g) == n * g && 0 <= n * g <= n * 1_000) by (nonlinear_arith)
        requires
            n == milli::size_of(x),
            0 <= g <= 1_000,
    ;
    let m = n * g;
    assert(m / 1_000 <= n);
}

} // verus!
