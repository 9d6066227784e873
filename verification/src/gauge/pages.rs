//! The size of a page.
use crate::gauge::measure;
use crate::gauge::measure::Gauge;
use crate::ink::InkWeight;
use crate::layout;
use crate::milli;
use crate::milli::Milli;
use crate::node::Node;
use crate::picture;
use crate::profile::Glyph;
use crate::scalar::Scalar;
use crate::traces;
use vstd::prelude::*;

verus! {

/// The place of a whole number of pixels.
pub open spec fn whole<S>(g: Gauge<S>, m: int) -> int {
    m * (1_000 * g.unit)
}

/// Whether a number type counts pixels exactly: rounding up stops at whole numbers, a count
/// is the whole part, and multiplying by a small count keeps the order to whole numbers.
#[verifier::opaque]
pub open spec fn counts_exactly<S: Scalar>(g: Gauge<S>) -> bool {
    &&& forall|a: S| (g.numbers)(a) ==> (g.numbers)(#[trigger] a.ceiling())
    &&& forall|a: S, m: int|
        #![trigger a.ceiling(), whole(g, m)]
        (g.numbers)(a) ==> if (g.at)(a) <= whole(g, m) {
            (g.at)(a.ceiling()) <= whole(g, m)
        } else {
            whole(g, m) + 1_000 * g.unit <= (g.at)(a.ceiling())
        }
    &&& forall|a: S, m: int|
        #![trigger a.count(), whole(g, m)]
        (g.numbers)(a) && 0 <= m && (g.at)(a) == whole(g, m) ==> a.count() == m
    &&& forall|a: S, k: int|
        (g.numbers)(a) && 1 <= k <= 16 && -g.reach <= 16 * (g.at)(a) <= g.reach ==> (g.numbers)(
            #[trigger] (a * S::counted(k)),
        )
    &&& forall|a: S, k: int, m: int|
        #![trigger a * S::counted(k), whole(g, m)]
        (g.numbers)(a) && 1 <= k <= 16 ==> if (g.at)(a) <= whole(g, m) {
            (g.at)(a * S::counted(k)) <= k * whole(g, m)
        } else {
            k * whole(g, m) < (g.at)(a * S::counted(k))
        }
}

proof fn lemma_thousandths_round_up(a: Milli, m: int)
    requires
        -4_000_000_000 <= a.0 <= 4_000_000_000,
    ensures
        a.0 <= m * 1_000 ==> a.ceiling().0 <= m * 1_000,
        m * 1_000 < a.0 ==> m * 1_000 + 1_000 <= a.ceiling().0,
        -4_000_000_000 <= a.ceiling().0 <= 4_000_000_000,
{
    let up = a.0 + (-a.0) % 1_000;
    assert(up % 1_000 == 0);
    assert(a.ceiling().0 == up);
}

proof fn lemma_thousandths_times(a: Milli, k: int, m: int)
    requires
        -4_000_000_000 <= a.0 <= 4_000_000_000,
        1 <= k <= 16,
    ensures
        (a * Milli::counted(k)).0 == k * a.0,
        a.0 <= m * 1_000 ==> k * a.0 <= k * (m * 1_000),
        m * 1_000 < a.0 ==> k * (m * 1_000) < k * a.0,
{
    let (x, n) = (a.0 as int, k * 1_000);
    let p = k * x;
    assert(x * n == p * 1_000 && -64_000_000_000 <= p <= 64_000_000_000) by (nonlinear_arith)
        requires
            n == k * 1_000,
            p == k * x,
            1 <= k <= 16,
            -4_000_000_000 <= x <= 4_000_000_000,
    ;
    let s = milli::size_of(p);
    assert(milli::size_of(p * 1_000) == s * 1_000);
    assert(s * 1_000 / 1_000 == s);
    let w = m * 1_000;
    assert((x <= w ==> k * x <= k * w) && (w < x ==> k * w < k * x)) by (nonlinear_arith)
        requires
            1 <= k,
    ;
}

/// Thousandths count pixels exactly.
pub proof fn law_thousandths_count_exactly()
    ensures
        counts_exactly(measure::thousandths()),
{
    let g = measure::thousandths();
    reveal(counts_exactly);
    assert forall|a: Milli| (g.numbers)(a) implies (g.numbers)(#[trigger] a.ceiling()) by {
        lemma_thousandths_round_up(a, 0);
    }
    assert forall|a: Milli, m: int|
        #![trigger a.ceiling(), whole(g, m)]
        (g.numbers)(a) implies if (g.at)(a) <= whole(g, m) {
        (g.at)(a.ceiling()) <= whole(g, m)
    } else {
        whole(g, m) + 1_000 * g.unit <= (g.at)(a.ceiling())
    } by {
        lemma_thousandths_round_up(a, m);
    }
    assert forall|a: Milli, m: int|
        #![trigger a.count(), whole(g, m)]
        (g.numbers)(a) && 0 <= m && (g.at)(a) == whole(g, m) implies a.count() == m by {
        assert(m * 1_000 / 1_000 == m);
    }
    assert forall|a: Milli, k: int|
        (g.numbers)(a) && 1 <= k <= 16 && -g.reach <= 16 * (g.at)(a) <= g.reach implies (
    g.numbers)(#[trigger] (a * Milli::counted(k))) by {
        lemma_thousandths_times(a, k, 0);
        assert(-4_000_000_000 <= k * a.0 <= 4_000_000_000) by (nonlinear_arith)
            requires
                1 <= k <= 16,
                -4_000_000_000 <= 16 * a.0 <= 4_000_000_000,
        ;
    }
    assert forall|a: Milli, k: int, m: int|
        #![trigger a * Milli::counted(k), whole(g, m)]
        (g.numbers)(a) && 1 <= k <= 16 implies if (g.at)(a) <= whole(g, m) {
        (g.at)(a * Milli::counted(k)) <= k * whole(g, m)
    } else {
        k * whole(g, m) < (g.at)(a * Milli::counted(k))
    } by {
        lemma_thousandths_times(a, k, m);
    }
}

/// What a side of a page has to hold at its ordinary size.
pub open spec fn padded<S: Scalar>(extent: S) -> S {
    extent + S::mil(traces::MARGIN as int) * S::mil(2_000)
}

/// Whether an extent fits a page at every scale.
pub open spec fn fits<S: Scalar>(g: Gauge<S>, extent: S) -> bool {
    (g.numbers)(padded(extent)) && -g.reach <= 16 * (g.at)(padded(extent)) <= g.reach
}

proof fn lemma_rounded_up<S: Scalar>(g: Gauge<S>, a: S) -> (m: int)
    requires
        g.is_true(),
        counts_exactly(g),
        (g.numbers)(a),
    ensures
        a.ceiling().larger(S::mil(1_000)).count() == m,
        1 <= m,
        (g.at)(a) <= whole(g, m),
        1 < m ==> whole(g, m - 1) < (g.at)(a),
{
    reveal(counts_exactly);
    measure::lemma_constant(g, 1_000);
    measure::lemma_larger(g, a.ceiling(), S::mil(1_000));
    let f = 1_000 * g.unit;
    let x = (g.at)(a);
    assert(whole(g, 0) == 0 && whole(g, 1) == f) by (nonlinear_arith)
        requires
            whole(g, 0) == 0 * f,
            whole(g, 1) == 1 * f,
    ;
    if x <= f {
        assert((g.at)(a.ceiling()) <= whole(g, 1));
        1
    } else {
        let m = (x - 1) / f;
        assert(m * f < x <= (m + 1) * f && 1 <= m && (m + 1) * f == m * f + f) by (nonlinear_arith)
            requires
                m == (x - 1) / f,
                f < x,
                0 < f,
        ;
        assert(whole(g, m) < x <= whole(g, m + 1));
        assert((g.at)(a.ceiling()) == whole(g, m + 1));
        m + 1
    }
}

proof fn lemma_sides_grow<S: Scalar>(g: Gauge<S>, extent: S, k: int)
    requires
        g.is_true(),
        counts_exactly(g),
        fits(g, extent),
        1 <= k <= 16,
    ensures
        ({
            let one = picture::page_side(extent, S::counted(1)).count();
            let many = picture::page_side(extent, S::counted(k)).count();
            k * (one - 1) < many <= k * one
        }),
{
    let a = padded(extent);
    let x = (g.at)(a);
    measure::lemma_constant(g, 0);
    assert((g.numbers)(a * S::counted(1)) && (g.numbers)(a * S::counted(k))) by {
        reveal(counts_exactly);
    }
    let one = lemma_rounded_up(g, a * S::counted(1));
    let many = lemma_rounded_up(g, a * S::counted(k));
    lemma_order_is_kept(g, a, 1, one);
    lemma_order_is_kept(g, a, 1, one - 1);
    lemma_order_is_kept(g, a, k, one);
    lemma_order_is_kept(g, a, k, one - 1);
    lemma_between_wholes(
        g.unit,
        k,
        one,
        many,
        x,
        (g.at)(a * S::counted(1)),
        (g.at)(a * S::counted(k)),
    );
}

proof fn lemma_order_is_kept<S: Scalar>(g: Gauge<S>, a: S, k: int, m: int)
    requires
        counts_exactly(g),
        (g.numbers)(a),
        1 <= k <= 16,
    ensures
        (g.at)(a) <= m * (1_000 * g.unit) ==> (g.at)(a * S::counted(k)) <= k * (m * (1_000
            * g.unit)),
        m * (1_000 * g.unit) < (g.at)(a) ==> k * (m * (1_000 * g.unit)) < (g.at)(
            a * S::counted(k),
        ),
{
    reveal(counts_exactly);
    assert(whole(g, m) == m * (1_000 * g.unit));
}

proof fn lemma_between_wholes(u: int, k: int, one: int, many: int, x: int, y: int, z: int)
    requires
        0 < u,
        1 <= k,
        1 <= one && 1 <= many,
        y <= one * (1_000 * u),
        1 < one ==> (one - 1) * (1_000 * u) < y,
        z <= many * (1_000 * u),
        1 < many ==> (many - 1) * (1_000 * u) < z,
        x <= one * (1_000 * u) ==> z <= k * (one * (1_000 * u)),
        one * (1_000 * u) < x ==> 1 * (one * (1_000 * u)) < y,
        x <= (one - 1) * (1_000 * u) ==> y <= 1 * ((one - 1) * (1_000 * u)),
        (one - 1) * (1_000 * u) < x ==> k * ((one - 1) * (1_000 * u)) < z,
    ensures
        k * (one - 1) < many <= k * one,
{
    let f = 1_000 * u;
    let (a, b) = (one * f, (one - 1) * f);
    assert(x <= a);
    assert(k * a == k * one * f && k * b == k * (one - 1) * f) by (nonlinear_arith)
        requires
            a == one * f,
            b == (one - 1) * f,
    ;
    let (p, q) = (k * one, k * (one - 1));
    assert(1 <= p && 0 <= q) by (nonlinear_arith)
        requires
            1 <= k,
            1 <= one,
            p == k * one,
            q == k * (one - 1),
    ;
    assert(many <= p) by (nonlinear_arith)
        requires
            1 < many ==> (many - 1) * f < z,
            z <= p * f,
            1 <= p,
            0 < f,
    ;
    if one == 1 {
        assert(q == 0) by (nonlinear_arith)
            requires
                q == k * (one - 1),
                one == 1,
        ;
    } else {
        assert(q < many) by (nonlinear_arith)
            requires
                q * f < z,
                z <= many * f,
                0 < f,
        ;
    }
}

/// In every number type that counts pixels exactly a larger scale keeps the layout: at `k`
/// times the size a picture has at most `k` times the pixels along each side, and fewer
/// than `k` less.
pub proof fn law_pictures_grow_with_their_scale<S: Scalar>(
    g: Gauge<S>,
    n: Node<S>,
    glyphs: Map<Seq<char>, Glyph<S>>,
    weight: InkWeight<S>,
    seed: u64,
    k: u32,
)
    requires
        g.is_true(),
        counts_exactly(g),
        picture::picture_of(n, glyphs, weight, seed, 1) is Ok,
        picture::picture_of(n, glyphs, weight, seed, k) is Ok,
        ({
            let b = layout::layout_written(layout::fresh_pen(glyphs, seed, true), n).1->Ok_0;
            fits(g, b.width) && fits(g, b.above + b.below)
        }),
    ensures
        ({
            let one = picture::picture_of(n, glyphs, weight, seed, 1)->Ok_0;
            let many = picture::picture_of(n, glyphs, weight, seed, k)->Ok_0;
            &&& k * (one.width - 1) < many.width <= k * one.width
            &&& k * (one.height - 1) < many.height <= k * one.height
        }),
{
    let b = layout::layout_written(layout::fresh_pen(glyphs, seed, true), n).1->Ok_0;
    lemma_sides_grow(g, b.width, k as int);
    lemma_sides_grow(g, b.above + b.below, k as int);
}

} // verus!
