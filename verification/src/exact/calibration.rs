//! What a profile's calibration promises of the ink.
use crate::exact::arithmetic;
use crate::ink;
use crate::ink::InkWeight;
use crate::milli;
use crate::milli::Milli;
use crate::scalar::Scalar;
use vstd::prelude::*;
use vstd::relations::{sorted_by, total_ordering};

verus! {

/// In thousandths, the width of the ink stays within the band round the ordinary width,
/// whatever the pressure is.
pub proof fn law_ink_stays_in_its_band(weight: InkWeight<Milli>, pressure: Milli)
    requires
        0 <= weight.base.0 <= 1_000_000_000,
    ensures
        weight.base.0 * 600 / 1_000 <= ink::width_for(weight, pressure).0 <= weight.base.0 * 1_400
            / 1_000,
{
    let base = weight.base.0 as int;
    assert(base * 600 / 1_000 <= base <= base * 1_400 / 1_000);
    if !ink::is_flat(weight) {
        let t = ink::band_position(weight, pressure);
        lemma_band(weight, pressure);
        let low = Milli::mil(600);
        let high = Milli::mil(1_400);
        arithmetic::lemma_share(t.0 as int, 800);
        let factor = low + (high - low) * t;
        assert(factor.0 == 600 + 800 * t.0 / 1_000);
        assert(600 <= factor.0 <= 1_400);
        let f = factor.0 as int;
        arithmetic::lemma_share(f, base);
        assert(base * 600 <= base * f <= base * 1_400) by (nonlinear_arith)
            requires
                600 <= f <= 1_400,
                0 <= base,
        ;
        assert(ink::width_for(weight, pressure).0 == base * f / 1_000);
    }
}

proof fn lemma_band(weight: InkWeight<Milli>, pressure: Milli)
    ensures
        0 <= ink::band_position(weight, pressure).0 <= 1_000,
{
    let a = ((pressure - weight.low) / (weight.mid - weight.low)).held(
        Milli::mil(0),
        Milli::mil(1_000),
    );
    let b = ((pressure - weight.mid) / (weight.high - weight.mid)).held(
        Milli::mil(0),
        Milli::mil(1_000),
    );
    arithmetic::lemma_share(500, a.0 as int);
    arithmetic::lemma_share(500, b.0 as int);
}

/// The light, the ordinary and the heavy pressure of a profile get the lower edge, the
/// middle and the upper edge of the width band.
pub proof fn law_calibration_meets_its_anchors(weight: InkWeight<Milli>)
    requires
        0 <= weight.base.0 <= 1_000_000_000,
        -1_000_000_000 <= weight.low.0,
        weight.high.0 <= 1_000_000_000,
        weight.low.0 + 20 <= weight.mid.0,
        weight.mid.0 + 20 <= weight.high.0,
    ensures
        ink::width_for(weight, weight.low).0 == weight.base.0 * 600 / 1_000,
        ink::width_for(weight, weight.mid) == weight.base,
        ink::width_for(weight, weight.high).0 == weight.base.0 * 1_400 / 1_000,
{
    let lower = weight.mid.0 - weight.low.0;
    let upper = weight.high.0 - weight.mid.0;
    assert(0int / lower == 0);
    assert(lower * 1_000 / lower == 1_000) by (nonlinear_arith)
        requires
            lower > 0,
    ;
    assert(upper * 1_000 / upper == 1_000) by (nonlinear_arith)
        requires
            upper > 0,
    ;
    assert(weight.low - weight.low == Milli(0));
    assert(weight.mid - weight.low == Milli(lower as i64));
    assert(weight.high - weight.mid == Milli(upper as i64));
    arithmetic::lemma_ratio(0, lower);
    arithmetic::lemma_ratio(lower, lower);
    arithmetic::lemma_ratio(upper, upper);
    assert(Milli(0) / Milli(lower as i64) == Milli(0));
    assert(Milli(lower as i64) / Milli(lower as i64) == Milli(1_000));
    assert(Milli(upper as i64) / Milli(upper as i64) == Milli(1_000));
    arithmetic::lemma_share(500, 0);
    arithmetic::lemma_share(500, 1_000);
    assert(Milli(500) * Milli(0) == Milli(0));
    assert(Milli(500) * Milli(1_000) == Milli(500));
    assert(ink::band_position(weight, weight.low) == Milli(0));
    assert(ink::band_position(weight, weight.mid) == Milli(500));
    assert(ink::band_position(weight, weight.high) == Milli(1_000));
    let base = weight.base.0 as int;
    arithmetic::lemma_share(600, base);
    arithmetic::lemma_share(1_000, base);
    arithmetic::lemma_share(1_400, base);
}

proof fn lemma_band_is_monotone(weight: InkWeight<Milli>, p: Milli, q: Milli)
    requires
        p.0 <= q.0,
    ensures
        ink::band_position(weight, p).0 <= ink::band_position(weight, q).0,
{
    lemma_band_halves(weight, p);
    lemma_band_halves(weight, q);
    let lower = weight.mid - weight.low;
    let upper = weight.high - weight.mid;
    if q.0 <= weight.mid.0 && 20 <= lower.0 {
        arithmetic::lemma_quotient_is_monotone(
            (p - weight.low).0 * 1_000,
            (q - weight.low).0 * 1_000,
            lower.0 as int,
        );
        let a = ((p - weight.low) / lower).held(Milli::mil(0), Milli::mil(1_000));
        let b = ((q - weight.low) / lower).held(Milli::mil(0), Milli::mil(1_000));
        assert(a.0 <= b.0);
        arithmetic::lemma_share(500, a.0 as int);
        arithmetic::lemma_share(500, b.0 as int);
    }
    if weight.mid.0 < p.0 && 20 <= upper.0 {
        arithmetic::lemma_quotient_is_monotone(
            (p - weight.mid).0 * 1_000,
            (q - weight.mid).0 * 1_000,
            upper.0 as int,
        );
        let a = ((p - weight.mid) / upper).held(Milli::mil(0), Milli::mil(1_000));
        let b = ((q - weight.mid) / upper).held(Milli::mil(0), Milli::mil(1_000));
        assert(a.0 <= b.0);
        arithmetic::lemma_share(500, a.0 as int);
        arithmetic::lemma_share(500, b.0 as int);
    }
}

proof fn lemma_band_halves(weight: InkWeight<Milli>, pressure: Milli)
    ensures
        pressure.0 <= weight.mid.0 ==> ink::band_position(weight, pressure).0 <= 500,
        weight.mid.0 < pressure.0 ==> 500 <= ink::band_position(weight, pressure).0,
{
    let a = ((pressure - weight.low) / (weight.mid - weight.low)).held(
        Milli::mil(0),
        Milli::mil(1_000),
    );
    let b = ((pressure - weight.mid) / (weight.high - weight.mid)).held(
        Milli::mil(0),
        Milli::mil(1_000),
    );
    arithmetic::lemma_share(500, a.0 as int);
    arithmetic::lemma_share(500, b.0 as int);
}

/// A heavier pressure never gives a thinner line.
pub proof fn law_heavier_pressure_is_no_thinner(weight: InkWeight<Milli>, p: Milli, q: Milli)
    requires
        0 <= weight.base.0 <= 1_000_000_000,
        p.0 <= q.0,
    ensures
        ink::width_for(weight, p).0 <= ink::width_for(weight, q).0,
{
    if !ink::is_flat(weight) {
        lemma_band(weight, p);
        lemma_band(weight, q);
        lemma_band_is_monotone(weight, p, q);
        let base = weight.base.0 as int;
        let (t, u) = (
            ink::band_position(weight, p).0 as int,
            ink::band_position(weight, q).0 as int,
        );
        arithmetic::lemma_share(t, 800);
        arithmetic::lemma_share(u, 800);
        let (f, g) = (600 + 800 * t / 1_000, 600 + 800 * u / 1_000);
        assert(f <= g);
        arithmetic::lemma_share(f, base);
        arithmetic::lemma_share(g, base);
        assert(base * f <= base * g) by (nonlinear_arith)
            requires
                f <= g,
                0 <= base,
        ;
        assert(ink::width_for(weight, p).0 == base * f / 1_000);
        assert(ink::width_for(weight, q).0 == base * g / 1_000);
    }
}

/// All numbers of a profile raised by one amount.
pub open spec fn raised(xs: Seq<Milli>, by: int) -> Seq<Milli> {
    xs.map_values(|x: Milli| Milli((x.0 + by) as i64))
}

/// Whether some numbers stay in range when they are raised.
pub open spec fn can_be_raised(xs: Seq<Milli>, by: int) -> bool {
    &&& -1_000_000_000 <= by <= 1_000_000_000
    &&& forall|i: int| 0 <= i < xs.len() ==> -1_000_000_000 <= (#[trigger] xs[i]).0 <= 1_000_000_000
}

proof fn lemma_mapped_multisets<A>(a: Seq<A>, b: Seq<A>, f: spec_fn(A) -> i64)
    requires
        a.to_multiset() == b.to_multiset(),
    ensures
        a.map_values(f).to_multiset() == b.map_values(f).to_multiset(),
    decreases a.len(),
{
    broadcast use vstd::seq_lib::group_to_multiset_ensures;

    assert(a.len() == a.to_multiset().len() && b.len() == b.to_multiset().len());
    if a.len() == 0 {
        assert(a.map_values(f) =~= b.map_values(f));
    } else {
        let v = a.last();
        assert(a.contains(v));
        assert(b.to_multiset().contains(v));
        assert(b.contains(v));
        let j = choose|j: int| 0 <= j < b.len() && b[j] == v;
        let (c, d) = (a.drop_last(), b.remove(j));
        assert(a =~= c.push(v));
        assert(b =~= d.insert(j, v));
        assert(a.to_multiset() == c.to_multiset().insert(v));
        assert(b.to_multiset() == d.to_multiset().insert(v));
        assert(c.to_multiset() =~= a.to_multiset().remove(v));
        assert(d.to_multiset() =~= b.to_multiset().remove(v));
        lemma_mapped_multisets(c, d, f);
        assert(a.map_values(f) =~= c.map_values(f).push(f(v)));
        assert(b.map_values(f) =~= d.map_values(f).insert(j, f(v)));
        assert(a.map_values(f).to_multiset() =~= b.map_values(f).to_multiset());
    }
}

proof fn lemma_order_is_raised(xs: Seq<Milli>, by: int, i: int)
    requires
        can_be_raised(xs, by),
        0 <= i < xs.len(),
    ensures
        ink::in_order(ink::keys_of(raised(xs, by)))[i] == ink::in_order(ink::keys_of(xs))[i] + by,
        -1_000_000_000 <= ink::in_order(ink::keys_of(xs))[i] <= 1_000_000_000,
{
    broadcast use vstd::seq_lib::group_to_multiset_ensures;

    let leq = |a: i64, b: i64| a <= b;
    let up = |k: i64| (k + by) as i64;
    let keys = ink::keys_of(xs);
    let ordered = ink::in_order(keys);
    let target = ink::keys_of(raised(xs, by));
    assert(total_ordering(leq));
    keys.lemma_sort_by_ensures(leq);
    target.lemma_sort_by_ensures(leq);
    assert(ordered.len() == keys.len()) by {
        assert(ordered.to_multiset().len() == keys.to_multiset().len());
    }
    assert(target =~= keys.map_values(up));
    lemma_mapped_multisets(ordered, keys, up);
    assert forall|k: int| 0 <= k < ordered.len() implies -1_000_000_000 <= #[trigger] ordered[k]
        <= 1_000_000_000 by {
        assert(ordered.contains(ordered[k]));
        assert(keys.to_multiset().contains(ordered[k]));
        assert(keys.contains(ordered[k]));
        let j = choose|j: int| 0 <= j < keys.len() && keys[j] == ordered[k];
        assert(keys[j] == xs[j].0);
    }
    let lifted = ordered.map_values(up);
    assert forall|i: int, j: int| 0 <= i < j < lifted.len() implies #[trigger] leq(
        lifted[i],
        lifted[j],
    ) by {
        assert(leq(ordered[i], ordered[j]));
        assert(lifted[i] == ordered[i] + by && lifted[j] == ordered[j] + by);
    }
    assert(sorted_by(lifted, leq));
    vstd::seq_lib::lemma_sorted_unique(lifted, ink::in_order(target), leq);
}

/// One profile's ordinary pressure can sit below another's lightest: a profile whose
/// pressures are all raised by one amount gives every pressure, raised likewise, the
/// width that it had.
pub proof fn law_calibration_follows_the_pen(
    pressures: Seq<Milli>,
    base: Milli,
    by: int,
    pressure: Milli,
)
    requires
        can_be_raised(pressures, by),
        -1_000_000_000 <= pressure.0 <= 1_000_000_000,
    ensures
        ink::width_for(
            ink::calibration(raised(pressures, by), base),
            Milli((pressure.0 + by) as i64),
        ) == ink::width_for(ink::calibration(pressures, base), pressure),
{
    let count = pressures.len() as int;
    if count > 0 {
        lemma_order_is_raised(pressures, by, ink::quantile_index::<Milli>(count, 100));
        lemma_order_is_raised(pressures, by, ink::quantile_index::<Milli>(count, 500));
        lemma_order_is_raised(pressures, by, ink::quantile_index::<Milli>(count, 900));
    }
}

/// The order in which pressures were recorded makes no difference to the calibration.
pub proof fn law_calibration_ignores_the_order<S: Scalar>(xs: Seq<S>, ys: Seq<S>, base: S)
    requires
        xs.to_multiset() == ys.to_multiset(),
    ensures
        ink::calibration(xs, base) == ink::calibration(ys, base),
{
    broadcast use vstd::seq_lib::group_to_multiset_ensures;

    assert(xs.len() == xs.to_multiset().len() && ys.len() == ys.to_multiset().len());
    let leq = |a: i64, b: i64| a <= b;
    let (a, b) = (ink::keys_of(xs), ink::keys_of(ys));
    assert(total_ordering(leq));
    lemma_mapped_multisets(xs, ys, |x: S| x.key());
    a.lemma_sort_by_ensures(leq);
    b.lemma_sort_by_ensures(leq);
    vstd::seq_lib::lemma_sorted_unique(ink::in_order(a), ink::in_order(b), leq);
}

proof fn lemma_index_grows(count: int, low: int, high: int)
    requires
        0 < count <= usize::MAX,
        count <= 1_000_000_000_000,
        0 <= low <= high <= 1_000,
    ensures
        0 <= ink::quantile_index::<Milli>(count, low) <= ink::quantile_index::<Milli>(count, high)
            < count,
{
    let (a, b) = ((count - 1) * low, (count - 1) * high);
    lemma_nearest_count(count, low);
    lemma_nearest_count(count, high);
    assert(0 <= a <= b <= (count - 1) * 1_000) by (nonlinear_arith)
        requires
            0 < count,
            0 <= low <= high <= 1_000,
            a == (count - 1) * low,
            b == (count - 1) * high,
    ;
}

/// Where a quantile stands among so many numbers.
pub proof fn lemma_nearest_count(count: int, quantile: int)
    requires
        0 < count <= usize::MAX,
        count <= 1_000_000_000_000,
        0 <= quantile <= 1_000,
    ensures
        ink::quantile_index::<Milli>(count, quantile) == ((count - 1) * quantile + 500) / 1_000,
        ((count - 1) * quantile + 500) / 1_000 < count,
{
    let n = (count - 1) * quantile;
    let m = (count - 1) * 1_000;
    assert(0 <= n <= m) by (nonlinear_arith)
        requires
            0 < count,
            0 <= quantile <= 1_000,
            n == (count - 1) * quantile,
            m == (count - 1) * 1_000,
    ;
    assert(m * quantile == n * 1_000) by (nonlinear_arith)
        requires
            n == (count - 1) * quantile,
            m == (count - 1) * 1_000,
    ;
    let product = m * quantile;
    assert(milli::size_of(product) == product);
    assert(product / 1_000 == n);
    assert(milli::quotient(product, 1_000) == n);
    let value = Milli::counted(count - 1) * Milli::mil(quantile);
    assert(value == Milli(n as i64));
    assert(value.nearest().0 == (n + 500) / 1_000 * 1_000);
}

/// The light pressure of a profile is at most its ordinary one, and that at most its heavy
/// one.
pub proof fn law_calibration_is_ordered(pressures: Seq<Milli>, base: Milli)
    requires
        pressures.len() <= usize::MAX,
        pressures.len() <= 1_000_000_000_000,
    ensures
        ({
            let weight = ink::calibration(pressures, base);
            weight.low.0 <= weight.mid.0 <= weight.high.0
        }),
{
    let count = pressures.len() as int;
    if count > 0 {
        broadcast use vstd::seq_lib::group_to_multiset_ensures;

        let leq = |a: i64, b: i64| a <= b;
        let keys = ink::keys_of(pressures);
        let ordered = ink::in_order(keys);
        assert(total_ordering(leq));
        keys.lemma_sort_by_ensures(leq);
        assert(ordered.len() == keys.len()) by {
            assert(ordered.to_multiset().len() == keys.to_multiset().len());
        }
        lemma_index_grows(count, 100, 500);
        lemma_index_grows(count, 500, 900);
        let (i, j, k) = (
            ink::quantile_index::<Milli>(count, 100),
            ink::quantile_index::<Milli>(count, 500),
            ink::quantile_index::<Milli>(count, 900),
        );
        assert(i < j ==> leq(ordered[i], ordered[j]));
        assert(j < k ==> leq(ordered[j], ordered[k]));
    }
}

/// The base scales the whole band: with a base `k` times as wide every line is `k` times
/// as wide, but for what the thousandths round off.
pub proof fn law_base_scales_the_band(
    weight: InkWeight<Milli>,
    wider: InkWeight<Milli>,
    k: int,
    pressure: Milli,
)
    requires
        0 <= weight.base.0 <= 1_000_000_000,
        1 <= k <= 1_000,
        wider.base.0 == k * weight.base.0,
        wider.low == weight.low,
        wider.mid == weight.mid,
        wider.high == weight.high,
    ensures
        ({
            let (w, v) = (
                ink::width_for(weight, pressure).0,
                ink::width_for(wider, pressure).0,
            );
            k * w <= v < k * w + k
        }),
{
    let b = weight.base.0 as int;
    let c = wider.base.0 as int;
    assert(0 <= c <= 1_000_000_000_000) by (nonlinear_arith)
        requires
            0 <= b <= 1_000_000_000,
            1 <= k <= 1_000,
            c == k * b,
    ;
    if !ink::is_flat(weight) {
        let t = ink::band_position(weight, pressure);
        assert(t == ink::band_position(wider, pressure));
        lemma_band(weight, pressure);
        arithmetic::lemma_share(t.0 as int, 800);
        let f = 600 + 800 * t.0 / 1_000;
        arithmetic::lemma_share(f, b);
        arithmetic::lemma_share(f, c);
        assert(ink::width_for(weight, pressure).0 == b * f / 1_000);
        assert(ink::width_for(wider, pressure).0 == c * f / 1_000);
        let (m, w, v) = (b * f, b * f / 1_000, c * f / 1_000);
        assert(c * f == k * m) by (nonlinear_arith)
            requires
                c == k * b,
                m == b * f,
        ;
        assert(k * w <= v < k * w + k) by (nonlinear_arith)
            requires
                w * 1_000 <= m < w * 1_000 + 1_000,
                v * 1_000 <= k * m < v * 1_000 + 1_000,
                1 <= k,
        ;
    }
}

} // verus!
