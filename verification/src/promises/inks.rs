//! How pressure becomes width.
use crate::exact::calibration;
use crate::ink;
use crate::ink::InkWeight;
use crate::milli::Milli;
use crate::scalar::Scalar;
use vstd::prelude::*;
use vstd::relations::{sorted_by, total_ordering};

verus! {

/// The light, the ordinary and the heavy pressure of a profile are those that stand a
/// tenth, half and nine tenths of the way through its pressures when these are put in
/// order.
pub proof fn law_pressures_are_read_off_in_order(pressures: Seq<Milli>, base: Milli)
    requires
        0 < pressures.len() <= usize::MAX,
        pressures.len() <= 1_000_000_000_000,
        forall|i: int, j: int|
            0 <= i < j < pressures.len() ==> (#[trigger] pressures[i]).0 <= (
            #[trigger] pressures[j]).0,
    ensures
        ({
            let weight = ink::calibration(pressures, base);
            let last = pressures.len() - 1;
            &&& weight.low == pressures[(last * 100 + 500) / 1_000]
            &&& weight.mid == pressures[(last * 500 + 500) / 1_000]
            &&& weight.high == pressures[(last * 900 + 500) / 1_000]
            &&& weight.base == base
        }),
{
    let count = pressures.len() as int;
    let keys = ink::keys_of(pressures);
    let leq = |a: i64, b: i64| a <= b;
    assert(total_ordering(leq));
    keys.lemma_sort_by_ensures(leq);
    assert forall|i: int, j: int| 0 <= i < j < keys.len() implies #[trigger] leq(
        keys[i],
        keys[j],
    ) by {
        assert(pressures[i].0 <= pressures[j].0);
    }
    assert(sorted_by(keys, leq));
    vstd::seq_lib::lemma_sorted_unique(keys, ink::in_order(keys), leq);
    calibration::lemma_nearest_count(count, 100);
    calibration::lemma_nearest_count(count, 500);
    calibration::lemma_nearest_count(count, 900);
}

/// Between the light and the ordinary pressure of a profile the width rises evenly from 0.6
/// of the base to the base, and from there to the heavy pressure evenly to 1.4 of it; beyond
/// them it stays. A profile with hardly any difference between its light and its heavy
/// pressure is written in its base width, and so is a half with hardly any in its own.
pub proof fn law_widths_rise_evenly<S: Scalar>(weight: InkWeight<S>, p: S)
    ensures
        ({
            let span = S::mil(20);
            let half = S::mil(500);
            let share = |low: S, high: S|
                ((p - low) / (high - low)).held(S::mil(0), S::mil(1_000));
            let at = |t: S|
                weight.base * (S::mil(600) + (S::mil(1_400) - S::mil(600)) * t);
            ink::width_for(weight, p) == if weight.high - weight.low < span {
                weight.base
            } else if p <= weight.mid {
                if weight.mid - weight.low < span {
                    at(half)
                } else {
                    at(half * share(weight.low, weight.mid))
                }
            } else if weight.high - weight.mid < span {
                at(half)
            } else {
                at(half + half * share(weight.mid, weight.high))
            }
        }),
{
}

} // verus!
