//! How nearly exactly a number type computes.
use crate::bits;
use crate::exact::arithmetic;
use crate::milli;
use crate::milli::Milli;
use crate::scalar::Scalar;
use crate::strokes;
use vstd::prelude::*;

verus! {

/// How nearly exactly a number type computes. Its `numbers` have a place, which `at` counts
/// in steps; `unit` steps make a thousandth of a pixel. Within `reach` steps of the origin
/// a sum is off by at most `slack` steps.
///
/// Thousandths are one such type. Single precision is meant to be another: within sixteen
/// thousand pixels it rounds to less than a thousandth of a pixel.
#[verifier::reject_recursive_types(S)]
pub struct Gauge<S> {
    pub numbers: spec_fn(S) -> bool,
    pub at: spec_fn(S) -> int,
    pub unit: int,
    pub slack: int,
    pub reach: int,
}

impl<S: Scalar> Gauge<S> {
    /// Whether a value is a number at most `slack` steps off a place.
    pub open spec fn is_near(self, a: S, place: int) -> bool {
        (self.numbers)(a) && place - self.slack <= (self.at)(a) <= place + self.slack
    }

    /// Whether a value is a number of which several can be summed within reach.
    pub open spec fn is_modest(self, a: S) -> bool {
        (self.numbers)(a) && -self.reach <= 8 * (self.at)(a) <= self.reach
    }

    /// Whether a value is a number at most `n` thousandths from zero.
    pub open spec fn is_within(self, a: S, n: int) -> bool {
        (self.numbers)(a) && -n * self.unit <= (self.at)(a) <= n * self.unit
    }

    /// Whether a value is a number at most `n` thousandths off a place.
    pub open spec fn is_about(self, a: S, place: int, n: int) -> bool {
        (self.numbers)(a) && -n * self.unit <= (self.at)(a) - place <= n * self.unit
    }

    /// Whether sums and differences are nearly exact, constants stand nearly where they
    /// should, whole pixels exactly, and numbers are ordered by their places.
    #[verifier::opaque]
    pub open spec fn is_true(self) -> bool {
        &&& 0 <= self.slack <= self.unit
        &&& 0 < self.unit && 4_000_000 * self.unit <= self.reach
        &&& forall|a: S, b: S|
            (self.numbers)(a) && (self.numbers)(b) && -self.reach <= (self.at)(a) + (self.at)(b)
                <= self.reach ==> self.is_near(#[trigger] (a + b), (self.at)(a) + (self.at)(b))
        &&& forall|a: S, b: S|
            (self.numbers)(a) && (self.numbers)(b) && -self.reach <= (self.at)(a) - (self.at)(b)
                <= self.reach ==> self.is_near(#[trigger] (a - b), (self.at)(a) - (self.at)(b))
        &&& forall|a: S|
            (self.numbers)(a) ==> (self.numbers)(#[trigger] (-a)) && (self.at)(-a) == -(self.at)(a)
        &&& forall|a: S, b: S|
            (self.numbers)(a) && (self.numbers)(b) ==> #[trigger] (a <= b) == ((self.at)(a) <= (
            self.at)(b))
        &&& forall|a: S, b: S|
            (self.numbers)(a) && (self.numbers)(b) ==> #[trigger] (a < b) == ((self.at)(a) < (
            self.at)(b))
        &&& forall|a: S, b: S|
            (self.numbers)(a) && (self.numbers)(b) ==> {
                let c = #[trigger] a.larger(b);
                (c == a || c == b) && (self.at)(a) <= (self.at)(c) && (self.at)(b) <= (self.at)(c)
            }
        &&& forall|a: S, b: S|
            (self.numbers)(a) && (self.numbers)(b) ==> {
                let c = #[trigger] a.smaller(b);
                (c == a || c == b) && (self.at)(c) <= (self.at)(a) && (self.at)(c) <= (self.at)(b)
            }
        &&& forall|a: S| (self.numbers)(a) ==> #[trigger] S::topmost().smaller(a) == a
        &&& forall|a: S| (self.numbers)(a) ==> #[trigger] S::bottommost().larger(a) == a
        &&& forall|n: int|
            -200_000 <= n <= 200_000 ==> self.is_near(#[trigger] S::mil(n), n * self.unit) && (n
                % 1_000 == 0 ==> (self.at)(S::mil(n)) == n * self.unit)
        &&& forall|a: S, n: int|
            (self.numbers)(a) && 0 <= n <= 1_000 ==> (self.numbers)(#[trigger] (a * S::mil(n)))
        &&& forall|a: S, n: int|
            (self.numbers)(a) && 0 <= n <= 1_000 ==> (self.at)(#[trigger] ((-a) * S::mil(n)))
                == -(self.at)(a * S::mil(n))
        &&& forall|a: S, b: S, n: int|
            (self.numbers)(a) && (self.numbers)(b) && (self.at)(a) <= (self.at)(b) && 0 <= n
                <= 1_000 ==> (self.at)(#[trigger] (a * S::mil(n))) <= (self.at)(
                #[trigger] (b * S::mil(n)),
            )
    }

    /// Whether products and quotients are off by at most a thousandth, no part is more than
    /// the whole, and the functions of angles and lengths stay in their ranges.
    #[verifier::opaque]
    pub open spec fn is_fine(self) -> bool {
        &&& forall|a: S, b: S|
            (self.numbers)(a) && (self.numbers)(b) && -self.reach * (1_000 * self.unit) <= (
            self.at)(a) * (self.at)(b) <= self.reach * (1_000 * self.unit) ==> {
                let c = #[trigger] (a * b);
                let off = (self.at)(c) * (1_000 * self.unit) - (self.at)(a) * (self.at)(b);
                (self.numbers)(c) && -self.unit * (1_000 * self.unit) <= off <= self.unit * (1_000
                    * self.unit)
            }
        &&& forall|a: S, b: S|
            (self.numbers)(a) && (self.numbers)(b) && 500 * self.unit <= (self.at)(b)
                && -self.reach * (self.at)(b) <= (self.at)(a) * (1_000 * self.unit) <= self.reach
                * (self.at)(b) ==> {
                let c = #[trigger] (a / b);
                let off = (self.at)(c) * (self.at)(b) - (self.at)(a) * (1_000 * self.unit);
                (self.numbers)(c) && -self.unit * (self.at)(b) <= off <= self.unit * (self.at)(b)
            }
        &&& forall|a: S, b: S|
            (self.numbers)(a) && (self.numbers)(b) && 500 * self.unit <= (self.at)(b) && 0 <= (
            self.at)(a) <= (self.at)(b) ==> {
                let c = #[trigger] (a / b);
                &&& 0 <= (self.at)(c) <= 1_000 * self.unit
                &&& (self.at)(a) == 0 ==> (self.at)(c) == 0
                &&& (self.at)(a) == (self.at)(b) ==> (self.at)(c) == 1_000 * self.unit
            }
        &&& forall|a: S, b: S, c: S|
            (self.numbers)(a) && (self.numbers)(b) && (self.numbers)(c) && (self.at)(a) <= (
            self.at)(b) ==> (self.at)(#[trigger] (a - c)) <= (self.at)(#[trigger] (b - c))
        &&& forall|a: S| (self.numbers)(a) ==> (self.at)(#[trigger] (a - a)) == 0
        &&& forall|a: S| (self.numbers)(a) ==> self.is_within(#[trigger] a.sine(), 1_000)
        &&& forall|t: S|
            (self.numbers)(t) && 0 <= (self.at)(t) <= 1_000 * self.unit ==> -self.unit <= (
            self.at)(#[trigger] (S::half_turn() * t).sine())
        &&& forall|n: int|
            0 <= n <= 1_000 ==> (self.numbers)(#[trigger] S::counted(n)) && (self.at)(S::counted(n))
                == n * (1_000 * self.unit)
        &&& self.is_within(S::half_turn(), 3_142)
        &&& forall|a: S|
            self.is_within(a, 30) ==> self.is_within(#[trigger] a.sine(), 30) && 999 * self.unit
                <= (self.at)(a.cosine()) <= 1_000 * self.unit && (self.numbers)(a.cosine())
        &&& forall|draw: u64| #[trigger]
            self.is_within(bits::signed_unit_of::<S>(draw), 1_000)
        &&& forall|n: int, d: int|
            0 <= n <= d <= 0x100_0000 && 0 < d ==> {
                let c = #[trigger] (S::counted(n) / S::counted(d));
                &&& (self.numbers)(c)
                &&& 0 <= (self.at)(c) <= 1_000 * self.unit
                &&& n == 0 ==> (self.at)(c) == 0
                &&& n == d ==> (self.at)(c) == 1_000 * self.unit
            }
        &&& forall|a: S, b: S|
            self.is_modest(a) && self.is_modest(b) ==> {
                let c = #[trigger] a.hypotenuse(b);
                &&& (self.numbers)(c)
                &&& -(self.at)(c) - self.unit <= (self.at)(a) <= (self.at)(c) + self.unit
                &&& -(self.at)(c) - self.unit <= (self.at)(b) <= (self.at)(c) + self.unit
                &&& 0 <= 2 * (self.at)(c) <= self.reach
                &&& self.unit <= (self.at)(c) ==> ((self.at)(c) - self.unit) * ((self.at)(c)
                    - self.unit) <= (self.at)(a) * (self.at)(a) + (self.at)(b) * (self.at)(b)
            }
        &&& forall|a: S, low: S, high: S|
            (self.numbers)(a) && (self.numbers)(low) && (self.numbers)(high) && (self.at)(low) <= (
            self.at)(high) ==> {
                let c = #[trigger] a.held(low, high);
                &&& (self.numbers)(c)
                &&& (self.at)(low) <= (self.at)(c) <= (self.at)(high)
                &&& (self.at)(c) <= (self.at)(a) || (self.at)(c) == (self.at)(low)
            }
    }
}

/// The gauge of thousandths: within four million pixels nothing is off at all.
pub open spec fn thousandths() -> Gauge<Milli> {
    Gauge {
        numbers: |a: Milli| arithmetic::within(a, 4_000_000_000),
        at: |a: Milli| a.0 as int,
        unit: 1,
        slack: 0,
        reach: 4_000_000_000,
    }
}

/// Thousandths compute exactly.
pub proof fn law_thousandths_are_exact()
    ensures
        thousandths().is_true(),
{
    let g = thousandths();
    reveal(Gauge::is_true);
    assert forall|a: Milli, n: int| (g.numbers)(a) && 0 <= n <= 1_000 implies (g.numbers)(
        #[trigger] (a * Milli::mil(n)),
    ) by {
        arithmetic::lemma_factor_shrinks(a, Milli(n as i64), 4_000_000_000);
    }
    assert forall|a: Milli, n: int| (g.numbers)(a) && 0 <= n <= 1_000 implies (g.at)(
        #[trigger] ((-a) * Milli::mil(n)),
    ) == -(g.at)(a * Milli::mil(n)) by {
        arithmetic::lemma_opposite_factor(a, Milli(n as i64));
    }
    assert forall|a: Milli, b: Milli, n: int|
        (g.numbers)(a) && (g.numbers)(b) && (g.at)(a) <= (g.at)(b) && 0 <= n <= 1_000 implies (
    g.at)(#[trigger] (a * Milli::mil(n))) <= (g.at)(#[trigger] (b * Milli::mil(n))) by {
        arithmetic::lemma_factor_keeps_order(Milli(i64::MAX), a, b, Milli(n as i64));
    }
}

proof fn lemma_thousandths_multiply(a: Milli, b: Milli)
    requires
        -4_000_000_000_000 <= a.0 * b.0 <= 4_000_000_000_000,
    ensures
        arithmetic::within(a * b, 4_000_000_000),
        -1_000 <= (a * b).0 * 1_000 - a.0 * b.0 <= 1_000,
{
    let n = a.0 * b.0;
    let m = milli::size_of(n);
    assert(m / 1_000 * 1_000 <= m < m / 1_000 * 1_000 + 1_000);
}

proof fn lemma_thousandths_divide(a: Milli, b: Milli)
    requires
        500 <= b.0,
        -4_000_000_000 * b.0 <= a.0 * 1_000 <= 4_000_000_000 * b.0,
    ensures
        arithmetic::within(a / b, 4_000_000_000),
        -b.0 <= (a / b).0 * b.0 - a.0 * 1_000 <= b.0,
{
    let n = a.0 * 1_000;
    let (m, d) = (milli::size_of(n), b.0 as int);
    let q = m / d;
    assert(q * d <= m < q * d + d && 0 <= q <= 4_000_000_000) by (nonlinear_arith)
        requires
            q == m / d,
            0 <= m <= 4_000_000_000 * d,
            500 <= d,
    ;
    assert(milli::size_of(d) == d);
    assert((-q) * d == -(q * d)) by (nonlinear_arith);
}

proof fn lemma_thousandths_are_parts(a: Milli, b: Milli)
    requires
        500 <= b.0 <= 4_000_000_000,
        0 <= a.0 <= b.0,
    ensures
        0 <= (a / b).0 <= 1_000,
        a.0 == 0 ==> (a / b).0 == 0,
        a.0 == b.0 ==> (a / b).0 == 1_000,
{
    let (n, d) = (a.0 as int, b.0 as int);
    arithmetic::lemma_ratio(n, d);
    assert(0 <= n * 1_000 / d <= 1_000 && (n == 0 ==> n * 1_000 / d == 0) && (n == d ==> n * 1_000
        / d == 1_000)) by (nonlinear_arith)
        requires
            0 <= n <= d,
            0 < d,
    ;
}

proof fn lemma_thousandths_share(n: int, d: int)
    requires
        0 <= n <= d <= 0x100_0000,
        0 < d,
    ensures
        0 <= (Milli::counted(n) / Milli::counted(d)).0 <= 1_000,
        n == 0 ==> (Milli::counted(n) / Milli::counted(d)).0 == 0,
        n == d ==> (Milli::counted(n) / Milli::counted(d)).0 == 1_000,
{
    let (a, b) = (n * 1_000, d * 1_000);
    arithmetic::lemma_ratio(a, b);
    assert(0 <= a * 1_000 / b <= 1_000 && (a == 0 ==> a * 1_000 / b == 0) && (a == b ==> a * 1_000
        / b == 1_000)) by (nonlinear_arith)
        requires
            0 <= a <= b,
            0 < b,
    ;
}

proof fn lemma_thousandths_span(a: Milli, b: Milli)
    requires
        arithmetic::within(a, 500_000_000),
        arithmetic::within(b, 500_000_000),
    ensures
        ({
            let c = a.hypotenuse(b);
            &&& 0 <= c.0 <= 1_000_000_000
            &&& -c.0 - 1 <= a.0 <= c.0 + 1
            &&& -c.0 - 1 <= b.0 <= c.0 + 1
            &&& 1 <= c.0 ==> (c.0 - 1) * (c.0 - 1) <= a.0 * a.0 + b.0 * b.0
        }),
{
    let (x, y) = (a.0 as int, b.0 as int);
    let n = x * x + y * y;
    assert(0 <= n) by (nonlinear_arith)
        requires
            n == x * x + y * y,
    ;
    milli::lemma_root_exists(n as nat);
    let r = milli::root_of(n);
    assert(-r <= x <= r && -r <= y <= r && r <= 1_000_000_000) by (nonlinear_arith)
        requires
            0 <= r,
            r * r <= n,
            n < (r + 1) * (r + 1),
            n == x * x + y * y,
            -500_000_000 <= x <= 500_000_000,
            -500_000_000 <= y <= 500_000_000,
    ;
    assert(1 <= r ==> (r - 1) * (r - 1) <= r * r) by (nonlinear_arith);
}

/// Thousandths are fine.
pub proof fn law_thousandths_are_fine()
    ensures
        thousandths().is_fine(),
{
    let g = thousandths();
    reveal(Gauge::is_fine);
    assert(g.reach * (1_000 * g.unit) == 4_000_000_000_000 && -g.reach * (1_000 * g.unit)
        == -4_000_000_000_000) by (nonlinear_arith)
        requires
            g.reach == 4_000_000_000,
            g.unit == 1,
    ;
    assert forall|a: Milli, b: Milli|
        (g.numbers)(a) && (g.numbers)(b) && -g.reach * (1_000 * g.unit) <= (g.at)(a) * (g.at)(b)
            <= g.reach * (1_000 * g.unit) implies {
        let c = #[trigger] (a * b);
        let off = (g.at)(c) * (1_000 * g.unit) - (g.at)(a) * (g.at)(b);
        (g.numbers)(c) && -g.unit * (1_000 * g.unit) <= off <= g.unit * (1_000 * g.unit)
    } by {
        lemma_thousandths_multiply(a, b);
    }
    assert forall|a: Milli, b: Milli|
        (g.numbers)(a) && (g.numbers)(b) && 500 * g.unit <= (g.at)(b) && -g.reach * (g.at)(b) <= (
        g.at)(a) * (1_000 * g.unit) <= g.reach * (g.at)(b) implies {
        let c = #[trigger] (a / b);
        let off = (g.at)(c) * (g.at)(b) - (g.at)(a) * (1_000 * g.unit);
        (g.numbers)(c) && -g.unit * (g.at)(b) <= off <= g.unit * (g.at)(b)
    } by {
        lemma_thousandths_divide(a, b);
    }
    assert forall|a: Milli, b: Milli|
        (g.numbers)(a) && (g.numbers)(b) && 500 * g.unit <= (g.at)(b) && 0 <= (g.at)(a) <= (g.at)(
            b,
        ) implies {
        let c = #[trigger] (a / b);
        &&& 0 <= (g.at)(c) <= 1_000 * g.unit
        &&& (g.at)(a) == 0 ==> (g.at)(c) == 0
        &&& (g.at)(a) == (g.at)(b) ==> (g.at)(c) == 1_000 * g.unit
    } by {
        lemma_thousandths_are_parts(a, b);
    }
    assert forall|a: Milli| (g.numbers)(a) implies g.is_within(#[trigger] a.sine(), 1_000) by {
        arithmetic::lemma_sines_are_within_one(a);
    }
    assert forall|t: Milli| (g.numbers)(t) && 0 <= (g.at)(t) <= 1_000 * g.unit implies -g.unit <= (
    g.at)(#[trigger] (Milli::half_turn() * t).sine()) by {
        arithmetic::lemma_arcs_are_not_negative(t);
    }
    assert forall|a: Milli| g.is_within(a, 30) implies g.is_within(#[trigger] a.sine(), 30) && 999
        * g.unit <= (g.at)(a.cosine()) <= 1_000 * g.unit && (g.numbers)(a.cosine()) by {
        arithmetic::lemma_small_angles(a);
    }
    assert forall|draw: u64| #[trigger]
        g.is_within(bits::signed_unit_of::<Milli>(draw), 1_000) by {
        arithmetic::lemma_draws_are_within_one(draw);
    }
    assert forall|n: int, d: int| 0 <= n <= d <= 0x100_0000 && 0 < d implies {
        let c = #[trigger] (Milli::counted(n) / Milli::counted(d));
        &&& (g.numbers)(c)
        &&& 0 <= (g.at)(c) <= 1_000 * g.unit
        &&& n == 0 ==> (g.at)(c) == 0
        &&& n == d ==> (g.at)(c) == 1_000 * g.unit
    } by {
        lemma_thousandths_share(n, d);
    }
    assert forall|a: Milli, b: Milli| g.is_modest(a) && g.is_modest(b) implies {
        let c = #[trigger] a.hypotenuse(b);
        &&& (g.numbers)(c)
        &&& -(g.at)(c) - g.unit <= (g.at)(a) <= (g.at)(c) + g.unit
        &&& -(g.at)(c) - g.unit <= (g.at)(b) <= (g.at)(c) + g.unit
        &&& 0 <= 2 * (g.at)(c) <= g.reach
        &&& g.unit <= (g.at)(c) ==> ((g.at)(c) - g.unit) * ((g.at)(c) - g.unit) <= (g.at)(a) * (
        g.at)(a) + (g.at)(b) * (g.at)(b)
    } by {
        lemma_thousandths_span(a, b);
    }
}

// Single steps.

/// A sum within reach is nearly exact.
pub proof fn lemma_sum<S: Scalar>(g: Gauge<S>, a: S, b: S)
    requires
        g.is_true(),
        (g.numbers)(a) && (g.numbers)(b),
        -g.reach <= (g.at)(a) + (g.at)(b) <= g.reach,
    ensures
        g.is_near(a + b, (g.at)(a) + (g.at)(b)),
{
    reveal(Gauge::is_true);
}

/// A difference within reach is nearly exact.
pub proof fn lemma_difference<S: Scalar>(g: Gauge<S>, a: S, b: S)
    requires
        g.is_true(),
        (g.numbers)(a) && (g.numbers)(b),
        -g.reach <= (g.at)(a) - (g.at)(b) <= g.reach,
    ensures
        g.is_near(a - b, (g.at)(a) - (g.at)(b)),
{
    reveal(Gauge::is_true);
}

/// The opposite number is exact.
pub proof fn lemma_opposite<S: Scalar>(g: Gauge<S>, a: S)
    requires
        g.is_true(),
        (g.numbers)(a),
    ensures
        (g.numbers)(-a),
        (g.at)(-a) == -(g.at)(a),
{
    reveal(Gauge::is_true);
}

/// A constant stands nearly where it should.
pub proof fn lemma_constant<S: Scalar>(g: Gauge<S>, n: int)
    requires
        g.is_true(),
        -200_000 <= n <= 200_000,
    ensures
        g.is_near(S::mil(n), n * g.unit),
        n % 1_000 == 0 ==> (g.at)(S::mil(n)) == n * g.unit,
        0 <= g.slack <= g.unit,
        0 < g.unit,
        4_000_000 * g.unit <= g.reach,
{
    reveal(Gauge::is_true);
}

/// The larger of two numbers is one of them.
pub proof fn lemma_larger<S: Scalar>(g: Gauge<S>, a: S, b: S)
    requires
        g.is_true(),
        (g.numbers)(a) && (g.numbers)(b),
    ensures
        a.larger(b) == a || a.larger(b) == b,
        (g.at)(a) <= (g.at)(a.larger(b)),
        (g.at)(b) <= (g.at)(a.larger(b)),
{
    reveal(Gauge::is_true);
}

/// Numbers are ordered by their places.
pub proof fn lemma_order<S: Scalar>(g: Gauge<S>, a: S, b: S)
    requires
        g.is_true(),
        (g.numbers)(a) && (g.numbers)(b),
    ensures
        (a <= b) == ((g.at)(a) <= (g.at)(b)),
{
    reveal(Gauge::is_true);
}

/// Numbers are strictly ordered by their places.
pub proof fn lemma_strict_order<S: Scalar>(g: Gauge<S>, a: S, b: S)
    requires
        g.is_true(),
        (g.numbers)(a) && (g.numbers)(b),
    ensures
        (a < b) == ((g.at)(a) < (g.at)(b)),
{
    reveal(Gauge::is_true);
}

/// Parts of numbers keep their order.
pub proof fn lemma_part<S: Scalar>(g: Gauge<S>, low: S, y: S, high: S, n: int)
    requires
        g.is_true(),
        (g.numbers)(low) && (g.numbers)(y) && (g.numbers)(high),
        -(g.at)(low) <= (g.at)(y) <= (g.at)(high),
        0 <= n <= 1_000,
    ensures
        (g.numbers)(low * S::mil(n)) && (g.numbers)(y * S::mil(n)) && (g.numbers)(high * S::mil(n)),
        -(g.at)(low * S::mil(n)) <= (g.at)(y * S::mil(n)) <= (g.at)(high * S::mil(n)),
{
    reveal(Gauge::is_true);
    assert((g.numbers)(-low) && (g.at)(-low) == -(g.at)(low));
    assert((g.at)((-low) * S::mil(n)) == -(g.at)(low * S::mil(n)));
}

/// The least of some numbers is one of them.
pub proof fn lemma_least<S: Scalar>(g: Gauge<S>, xs: Seq<S>) -> (k: int)
    requires
        g.is_true(),
        xs.len() > 0,
        forall|i: int| 0 <= i < xs.len() ==> (g.numbers)(#[trigger] xs[i]),
    ensures
        0 <= k < xs.len(),
        strokes::least_from(S::topmost(), xs) == xs[k],
        forall|i: int| 0 <= i < xs.len() ==> (g.at)(xs[k]) <= (g.at)(#[trigger] xs[i]),
    decreases xs.len(),
{
    reveal(Gauge::is_true);
    let last = xs.len() - 1;
    if last == 0 {
        reveal_with_fuel(strokes::least_from, 2);
        assert(S::topmost().smaller(xs[0]) == xs[0]);
        0
    } else {
        let before = xs.drop_last();
        let k = lemma_least(g, before);
        assert forall|i: int| 0 <= i < last implies (g.at)(xs[k]) <= (g.at)(#[trigger] xs[i]) by {
            assert(before[i] == xs[i]);
        }
        let least = xs[k].smaller(xs[last]);
        if least == xs[k] {
            k
        } else {
            last
        }
    }
}

/// The greatest of some numbers is one of them.
pub proof fn lemma_greatest<S: Scalar>(g: Gauge<S>, xs: Seq<S>) -> (k: int)
    requires
        g.is_true(),
        xs.len() > 0,
        forall|i: int| 0 <= i < xs.len() ==> (g.numbers)(#[trigger] xs[i]),
    ensures
        0 <= k < xs.len(),
        strokes::greatest_from(S::bottommost(), xs) == xs[k],
        forall|i: int| 0 <= i < xs.len() ==> (g.at)(#[trigger] xs[i]) <= (g.at)(xs[k]),
    decreases xs.len(),
{
    reveal(Gauge::is_true);
    let last = xs.len() - 1;
    if last == 0 {
        reveal_with_fuel(strokes::greatest_from, 2);
        assert(S::bottommost().larger(xs[0]) == xs[0]);
        0
    } else {
        let before = xs.drop_last();
        let k = lemma_greatest(g, before);
        assert forall|i: int| 0 <= i < last implies (g.at)(#[trigger] xs[i]) <= (g.at)(xs[k]) by {
            assert(before[i] == xs[i]);
        }
        let greatest = xs[k].larger(xs[last]);
        if greatest == xs[k] {
            k
        } else {
            last
        }
    }
}

// Bounds in thousandths.

/// A constant is within its size and a thousandth.
pub proof fn lemma_constant_within<S: Scalar>(g: Gauge<S>, n: int)
    requires
        g.is_true(),
        0 <= n <= 100_000,
    ensures
        g.is_within(S::mil(n), n + 1),
        (g.at)(S::mil(n)) >= (n - 1) * g.unit,
{
    lemma_constant(g, n);
    let u = g.unit;
    assert((n + 1) * u == n * u + u && (n - 1) * u == n * u - u && -(n + 1) * u <= -u && 0 <= n
        * u) by (nonlinear_arith)
        requires
            0 <= n,
            0 < u,
    ;
}

/// A sum is within the sum of the bounds and a thousandth.
pub proof fn lemma_sum_within<S: Scalar>(g: Gauge<S>, a: S, b: S, m: int, n: int)
    requires
        g.is_true(),
        g.is_within(a, m) && g.is_within(b, n),
        0 <= m && 0 <= n && m + n <= 800_000,
    ensures
        g.is_within(a + b, m + n + 1),
{
    lemma_bounds_add_up(g, m, n);
    lemma_sum(g, a, b);
}

/// A number that is shifted a little stands a little further off its place.
pub proof fn lemma_shifted<S: Scalar>(g: Gauge<S>, a: S, b: S, place: int, m: int, n: int)
    requires
        g.is_true(),
        g.is_about(a, place, m) && g.is_within(b, n),
        0 <= m && 0 <= n && m + n <= 100_000,
        -g.reach <= 4 * place <= g.reach,
    ensures
        g.is_about(a + b, place, m + n + 1),
{
    lemma_constant(g, 0);
    lemma_bounds_add_up(g, m, n);
    let u = g.unit;
    assert(m * u + n * u <= 100_000 * u) by (nonlinear_arith)
        requires
            m + n <= 100_000,
            0 < u,
    ;
    lemma_sum(g, a, b);
}

proof fn lemma_bounds_add_up<S: Scalar>(g: Gauge<S>, m: int, n: int)
    requires
        g.is_true(),
        0 <= m && 0 <= n && m + n <= 800_000,
    ensures
        (m + n + 1) * g.unit == m * g.unit + n * g.unit + g.unit,
        -(m + n + 1) * g.unit == -(m * g.unit) - n * g.unit - g.unit,
        -m * g.unit == -(m * g.unit),
        -n * g.unit == -(n * g.unit),
        m * g.unit + n * g.unit <= g.reach,
        0 <= g.slack <= g.unit,
{
    lemma_constant(g, 0);
    let u = g.unit;
    assert((m + n + 1) * u == m * u + n * u + u && -(m + n + 1) * u == -(m * u) - n * u - u && -m
        * u == -(m * u) && -n * u == -(n * u) && m * u + n * u <= 800_000 * u) by (nonlinear_arith)
        requires
            m + n <= 800_000,
            0 < u,
    ;
}

/// A product is within the product of the bounds and a thousandth.
pub proof fn lemma_product_within<S: Scalar>(g: Gauge<S>, a: S, b: S, m: int, n: int, r: int)
    requires
        g.is_true(),
        g.is_fine(),
        g.is_within(a, m) && g.is_within(b, n),
        0 <= m && 0 <= n && m * n <= 800_000_000,
        m * n + 1_000 <= 1_000 * r,
    ensures
        g.is_within(a * b, r),
{
    lemma_constant(g, 0);
    let (x, y, u) = ((g.at)(a), (g.at)(b), g.unit);
    assert(-(m * n * u * u) <= x * y <= m * n * u * u) by (nonlinear_arith)
        requires
            -m * u <= x <= m * u,
            -n * u <= y <= n * u,
            0 <= m,
            0 <= n,
            0 < u,
    ;
    let (p, f) = (m * n, 1_000 * u);
    assert(m * n * u * u == p * u * u) by (nonlinear_arith)
        requires
            p == m * n,
    ;
    assert(p * u * u <= g.reach * f && -g.reach * f <= -(p * u * u)) by (nonlinear_arith)
        requires
            0 <= p <= 800_000_000,
            800_000 * u <= g.reach,
            0 < u,
            f == 1_000 * u,
    ;
    reveal(Gauge::is_fine);
    let z = (g.at)(a * b);
    assert(-r * u <= z <= r * u) by (nonlinear_arith)
        requires
            -u * f <= z * f - x * y <= u * f,
            -(p * u * u) <= x * y <= p * u * u,
            p + 1_000 <= 1_000 * r,
            f == 1_000 * u,
            0 < u,
    ;
}

/// What is nearly a share of `a`: nearly no larger than `a`, nearly `a` where the share is
/// the whole, and nearly nothing where it is nothing.
pub open spec fn is_share<S: Scalar>(g: Gauge<S>, part: S, a: S, t: S) -> bool {
    &&& (g.numbers)(part)
    &&& (g.at)(t) == 0 ==> -g.unit <= (g.at)(part) <= g.unit
    &&& (g.at)(t) == 1_000 * g.unit ==> -g.unit <= (g.at)(part) - (g.at)(a) <= g.unit
    &&& 0 <= (g.at)(a) ==> -g.unit <= (g.at)(part) <= (g.at)(a) + g.unit
    &&& (g.at)(a) <= 0 ==> (g.at)(a) - g.unit <= (g.at)(part) <= g.unit
}

/// Multiplying by a number from zero to one takes a share.
pub proof fn lemma_share<S: Scalar>(g: Gauge<S>, a: S, t: S)
    requires
        g.is_true(),
        g.is_fine(),
        (g.numbers)(a) && (g.numbers)(t),
        -g.reach <= (g.at)(a) <= g.reach,
        0 <= (g.at)(t) <= 1_000 * g.unit,
    ensures
        is_share(g, a * t, a, t),
        is_share(g, t * a, a, t),
{
    lemma_constant(g, 0);
    let (x, y, u, f) = ((g.at)(a), (g.at)(t), g.unit, 1_000 * g.unit);
    assert(-g.reach * f <= x * y <= g.reach * f && (0 <= x ==> 0 <= x * y <= x * f) && (x <= 0 ==> x
        * f <= x * y <= 0) && (y == 0 ==> x * y == 0) && (y == f ==> x * y == x * f) && x * y == y
        * x) by (nonlinear_arith)
        requires
            -g.reach <= x <= g.reach,
            0 <= y <= f,
            0 < u,
            f == 1_000 * u,
    ;
    reveal(Gauge::is_fine);
    lemma_unscaled((g.at)(a * t), x * y, x, u, f);
    lemma_unscaled((g.at)(t * a), x * y, x, u, f);
}

proof fn lemma_unscaled(z: int, product: int, x: int, u: int, f: int)
    requires
        -u * f <= z * f - product <= u * f,
        0 < u < f,
    ensures
        product == 0 ==> -u <= z <= u,
        product == x * f ==> -u <= z - x <= u,
        0 <= product <= x * f ==> -u <= z <= x + u,
        x * f <= product <= 0 ==> x - u <= z <= u,
{
    assert(product == 0 ==> -u <= z <= u) by (nonlinear_arith)
        requires
            -u * f <= z * f - product <= u * f,
            0 < f,
    ;
    assert(product == x * f ==> -u <= z - x <= u) by (nonlinear_arith)
        requires
            -u * f <= z * f - product <= u * f,
            0 < f,
    ;
    assert(0 <= product <= x * f ==> -u <= z <= x + u) by (nonlinear_arith)
        requires
            -u * f <= z * f - product <= u * f,
            0 < f,
    ;
    assert(x * f <= product <= 0 ==> x - u <= z <= u) by (nonlinear_arith)
        requires
            -u * f <= z * f - product <= u * f,
            0 < f,
    ;
}

/// A whole multiple of a number is nearly exact.
pub proof fn lemma_multiple<S: Scalar>(g: Gauge<S>, a: S, n: int)
    requires
        g.is_true(),
        g.is_fine(),
        0 <= n <= 100_000,
        n % 1_000 == 0,
        (g.numbers)(a),
        -g.reach * 1_000 <= n * (g.at)(a) <= g.reach * 1_000,
    ensures
        -1_000 * g.unit <= 1_000 * (g.at)(S::mil(n) * a) - n * (g.at)(a) <= 1_000 * g.unit,
{
    lemma_constant(g, n);
    let (x, u) = ((g.at)(a), g.unit);
    let (m, f, p) = (n * u, 1_000 * u, n * x);
    assert(m * x == p * u && -g.reach * f <= m * x <= g.reach * f) by (nonlinear_arith)
        requires
            -g.reach * 1_000 <= p <= g.reach * 1_000,
            p == n * x,
            m == n * u,
            f == 1_000 * u,
            0 < u,
    ;
    reveal(Gauge::is_fine);
    let z = (g.at)(S::mil(n) * a);
    assert(-1_000 * u <= 1_000 * z - p <= 1_000 * u) by (nonlinear_arith)
        requires
            -u * f <= z * f - m * x <= u * f,
            m * x == p * u,
            f == 1_000 * u,
            0 < u,
    ;
}

/// A wider bound holds too.
pub proof fn lemma_wider<S: Scalar>(g: Gauge<S>, a: S, m: int, n: int)
    requires
        g.is_true(),
        g.is_within(a, m),
        m <= n,
    ensures
        g.is_within(a, n),
{
    lemma_constant(g, 0);
    let u = g.unit;
    assert(m * u <= n * u && -n * u <= -m * u) by (nonlinear_arith)
        requires
            m <= n,
            0 < u,
    ;
}

/// A sine is at most one.
pub proof fn lemma_sine<S: Scalar>(g: Gauge<S>, a: S)
    requires
        g.is_fine(),
        (g.numbers)(a),
    ensures
        g.is_within(a.sine(), 1_000),
{
    reveal(Gauge::is_fine);
}

/// Half a turn is at most 3.142.
pub proof fn lemma_half_turn<S: Scalar>(g: Gauge<S>)
    requires
        g.is_fine(),
    ensures
        g.is_within(S::half_turn(), 3_142),
{
    reveal(Gauge::is_fine);
}

/// Over half a turn the sine is nearly not negative.
pub proof fn lemma_envelope<S: Scalar>(g: Gauge<S>, t: S)
    requires
        g.is_true(),
        g.is_fine(),
        (g.numbers)(t),
        0 <= (g.at)(t) <= 1_000 * g.unit,
    ensures
        g.is_within((S::half_turn() * t).sine(), 1_000),
        -g.unit <= (g.at)((S::half_turn() * t).sine()),
{
    lemma_half_turn(g);
    lemma_constant(g, 0);
    lemma_product_within(g, S::half_turn(), t, 3_142, 1_000, 3_143);
    lemma_sine(g, S::half_turn() * t);
    reveal(Gauge::is_fine);
}

/// The smaller of two numbers is one of them.
pub proof fn lemma_smaller<S: Scalar>(g: Gauge<S>, a: S, b: S)
    requires
        g.is_true(),
        (g.numbers)(a) && (g.numbers)(b),
    ensures
        a.smaller(b) == a || a.smaller(b) == b,
        (g.at)(a.smaller(b)) <= (g.at)(a),
        (g.at)(a.smaller(b)) <= (g.at)(b),
{
    reveal(Gauge::is_true);
}

/// A leg over the hypotenuse is nearly within one, and a tiny leg nearly nothing.
pub proof fn lemma_slant<S: Scalar>(g: Gauge<S>, leg: S, length: S)
    requires
        g.is_true(),
        g.is_fine(),
        (g.numbers)(leg) && (g.numbers)(length),
        999 * g.unit <= (g.at)(length) <= g.reach,
        -(g.at)(length) - g.unit <= (g.at)(leg) <= (g.at)(length) + g.unit,
    ensures
        g.is_within(leg / length, 1_003),
        -g.unit <= (g.at)(leg) <= g.unit ==> g.is_within(leg / length, 3),
{
    lemma_constant(g, 0);
    let (x, d, u) = ((g.at)(leg), (g.at)(length), g.unit);
    assert(-g.reach * d <= x * (1_000 * u) <= g.reach * d) by (nonlinear_arith)
        requires
            -d - u <= x <= d + u,
            999 * u <= d,
            0 < u,
            800_000 * u <= g.reach,
    ;
    reveal(Gauge::is_fine);
    let z = (g.at)(leg / length);
    assert(-1_003 * u <= z <= 1_003 * u) by (nonlinear_arith)
        requires
            -u * d <= z * d - x * (1_000 * u) <= u * d,
            -d - u <= x <= d + u,
            999 * u <= d,
            0 < u,
    ;
    assert(-u <= x <= u ==> -3 * u <= z <= 3 * u) by (nonlinear_arith)
        requires
            -u * d <= z * d - x * (1_000 * u) <= u * d,
            999 * u <= d,
            0 < u,
    ;
}

/// Half of a number.
pub proof fn lemma_half<S: Scalar>(g: Gauge<S>, a: S)
    requires
        g.is_true(),
        g.is_fine(),
        (g.numbers)(a),
        -g.reach <= (g.at)(a) <= g.reach,
    ensures
        (g.numbers)(a / S::mil(2_000)),
        -2 * g.unit <= 2 * (g.at)(a / S::mil(2_000)) - (g.at)(a) <= 2 * g.unit,
{
    lemma_constant(g, 2_000);
    let (x, d, u) = ((g.at)(a), (g.at)(S::mil(2_000)), g.unit);
    assert(-g.reach * d <= x * (1_000 * u) <= g.reach * d) by (nonlinear_arith)
        requires
            -g.reach <= x <= g.reach,
            d == 2_000 * u,
            0 < u,
    ;
    reveal(Gauge::is_fine);
    let z = (g.at)(a / S::mil(2_000));
    assert(-2 * u <= 2 * z - x <= 2 * u) by (nonlinear_arith)
        requires
            -u * d <= z * d - x * (1_000 * u) <= u * d,
            d == 2_000 * u,
            0 < u,
    ;
}

/// How far a number lies between two others: at one end exactly nothing, at the other
/// exactly one.
pub proof fn lemma_between<S: Scalar>(g: Gauge<S>, low: S, y: S, high: S)
    requires
        g.is_true(),
        g.is_fine(),
        (g.numbers)(low) && (g.numbers)(y) && (g.numbers)(high),
        (g.at)(low) <= (g.at)(y) <= (g.at)(high),
        (g.at)(high) - (g.at)(low) <= g.reach,
        500 * g.unit <= (g.at)(high - low),
    ensures
        ({
            let t = (y - low) / (high - low);
            &&& (g.numbers)(t)
            &&& 0 <= (g.at)(t) <= 1_000 * g.unit
            &&& (g.at)(y) == (g.at)(low) ==> (g.at)(t) == 0
            &&& (g.at)(y) == (g.at)(high) ==> (g.at)(t) == 1_000 * g.unit
        }),
{
    lemma_constant(g, 0);
    lemma_difference(g, y, low);
    lemma_difference(g, high, low);
    reveal(Gauge::is_fine);
    assert((g.at)(low - low) == 0);
    let (n, d, u) = ((g.at)(y - low), (g.at)(high - low), g.unit);
    assert(0 <= n <= d);
    assert(-g.reach * d <= n * (1_000 * u) <= g.reach * d) by (nonlinear_arith)
        requires
            0 <= n <= d,
            0 < u,
            4_000_000 * u <= g.reach,
    ;
}

/// How much of some pixels a count is.
pub proof fn lemma_count_of<S: Scalar>(g: Gauge<S>, i: int, n: int)
    requires
        g.is_true(),
        g.is_fine(),
        0 <= i <= n <= 100,
        0 < n,
    ensures
        ({
            let t = S::counted(i) / S::mil(1_000 * n);
            (g.numbers)(t) && 0 <= (g.at)(t) <= 1_000 * g.unit
        }),
{
    lemma_constant(g, 1_000 * n);
    let (a, b) = (S::counted(i), S::mil(1_000 * n));
    let (x, d, u) = (i * (1_000 * g.unit), 1_000 * n * g.unit, g.unit);
    assert(0 <= x <= d && 500 * u <= d && -g.reach * d <= x * (1_000 * u) <= g.reach * d)
        by (nonlinear_arith)
        requires
            x == i * (1_000 * u),
            d == 1_000 * n * u,
            0 <= i <= n,
            0 < n,
            0 < u,
            4_000_000 * u <= g.reach,
    ;
    reveal(Gauge::is_fine);
    assert((g.at)(a) == x && (g.at)(b) == d);
}

/// The share that a count has of another.
pub proof fn lemma_counts<S: Scalar>(g: Gauge<S>, n: int, d: int)
    requires
        g.is_fine(),
        0 <= n <= d <= 0x100_0000,
        0 < d,
    ensures
        ({
            let c = S::counted(n) / S::counted(d);
            &&& (g.numbers)(c)
            &&& 0 <= (g.at)(c) <= 1_000 * g.unit
            &&& n == 0 ==> (g.at)(c) == 0
            &&& n == d ==> (g.at)(c) == 1_000 * g.unit
        }),
{
    reveal(Gauge::is_fine);
}

/// A draw lies between minus one and one.
pub proof fn lemma_draws_are_within<S: Scalar>(g: Gauge<S>, draw: u64)
    requires
        g.is_fine(),
    ensures
        g.is_within(bits::unit_of::<S>(draw), 1_000),
        0 <= (g.at)(bits::unit_of::<S>(draw)),
        g.is_within(bits::signed_unit_of::<S>(draw), 1_000),
{
    bits::law_draws_are_below_one(draw);
    lemma_counts(g, (draw >> 40) as int, 0x100_0000);
    reveal(Gauge::is_fine);
}

/// A small angle has a small sine, and a cosine close to one.
pub proof fn lemma_small_angles<S: Scalar>(g: Gauge<S>, a: S)
    requires
        g.is_fine(),
        g.is_within(a, 30),
    ensures
        g.is_within(a.sine(), 30),
        (g.numbers)(a.cosine()),
        999 * g.unit <= (g.at)(a.cosine()) <= 1_000 * g.unit,
{
    reveal(Gauge::is_fine);
}

/// A factor close to one changes a number little.
pub proof fn lemma_nearly_once<S: Scalar>(g: Gauge<S>, a: S, f: S, bound: int, n: int, r: int)
    requires
        g.is_true(),
        g.is_fine(),
        g.is_within(a, bound),
        g.is_about(f, 1_000 * g.unit, n),
        0 <= bound <= 100_000,
        0 <= n <= 1_000,
        bound * n + 1_000 <= 1_000 * r,
    ensures
        g.is_about(a * f, (g.at)(a), r),
{
    lemma_constant(g, 0);
    let (x, y, u) = ((g.at)(a), (g.at)(f), g.unit);
    let (e, p, m) = (1_000 * u, x * y - x * (1_000 * u), bound * n);
    assert(-(m * u * u) <= p <= m * u * u && -g.reach * e <= x * y <= g.reach * e)
        by (nonlinear_arith)
        requires
            -bound * u <= x <= bound * u,
            -n * u <= y - 1_000 * u <= n * u,
            0 <= bound <= 100_000,
            0 <= n <= 1_000,
            m == bound * n,
            p == x * y - x * (1_000 * u),
            e == 1_000 * u,
            0 < u,
            4_000_000 * u <= g.reach,
    ;
    reveal(Gauge::is_fine);
    let z = (g.at)(a * f);
    assert(-r * u <= z - x <= r * u) by (nonlinear_arith)
        requires
            -u * e <= z * e - x * y <= u * e,
            -(m * u * u) <= p <= m * u * u,
            p == x * y - x * e,
            m + 1_000 <= 1_000 * r,
            e == 1_000 * u,
            0 < u,
    ;
}

} // verus!
