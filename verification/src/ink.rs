//! From recorded pen pressure to the width of the ink.
//!
//! Pens and browsers report pressure on different scales, so an absolute
//! pressure-to-width curve is wrong for most stroke files: one profile's usual
//! pressure can sit below another's lightest. Each profile is instead mapped
//! onto one fixed width band, using its own pressure spread, which gives every
//! author the same contrast without making anyone's light strokes invisible.
use crate::scalar::Scalar;
use vstd::multiset::Multiset;
use vstd::prelude::*;
use vstd::relations::{sorted_by, total_ordering};

verus! {

/// The ordinary ink width, in thousandths of a pixel. Geometry may shrink for scripts
/// and fractions, but ink width never does.
pub const INK_WIDTH: i32 = 2_300;

/// The edges of the width band, in thousandths of the ordinary width.
pub const MIN_WEIGHT_FACTOR: i32 = 600;

pub const MAX_WEIGHT_FACTOR: i32 = 1_400;

/// The pressure spread, in thousandths, below which a profile counts as flat.
pub const MIN_PRESSURE_SPAN: i32 = 20;

/// The shares of a profile's pressures, in thousandths, that are lighter than its
/// light, ordinary and heavy pressure.
pub const CALIBRATION_LOW_QUANTILE: i32 = 100;

pub const CALIBRATION_MID_QUANTILE: i32 = 500;

pub const CALIBRATION_HIGH_QUANTILE: i32 = 900;

/// Maps recorded pressure onto an ink width for one stroke file.
pub struct InkWeight<S> {
    pub low: S,
    pub mid: S,
    pub high: S,
    pub base: S,
}

impl<S: Copy> Copy for InkWeight<S> {

}

impl<S: Copy> Clone for InkWeight<S> {
    fn clone(&self) -> (r: Self)
        ensures
            r == *self,
    {
        *self
    }
}

/// The integers by which some numbers are sorted.
pub open spec fn keys_of<S: Scalar>(xs: Seq<S>) -> Seq<i64> {
    xs.map_values(|x: S| x.key())
}

/// The integers from the lowest to the highest.
pub open spec fn in_order(xs: Seq<i64>) -> Seq<i64> {
    xs.sort_by(|a: i64, b: i64| a <= b)
}

/// The position of a quantile among `count` numbers in order.
pub open spec fn quantile_index<S: Scalar>(count: int, quantile: int) -> int {
    let index = (S::counted(count - 1) * S::mil(quantile)).nearest().count();
    if index < count {
        index as int
    } else {
        count - 1
    }
}

/// The number that stands at a quantile.
pub open spec fn quantile_of<S: Scalar>(xs: Seq<S>, quantile: int) -> S {
    S::of_key(in_order(keys_of(xs))[quantile_index::<S>(xs.len() as int, quantile)])
}

/// The calibration of a profile: its own light, ordinary and heavy pressure. One
/// without any pressure is calibrated to zero throughout.
pub open spec fn calibration<S: Scalar>(pressures: Seq<S>, base: S) -> InkWeight<S> {
    if pressures.len() == 0 {
        InkWeight { low: S::mil(0), mid: S::mil(0), high: S::mil(0), base }
    } else {
        InkWeight {
            low: quantile_of(pressures, CALIBRATION_LOW_QUANTILE as int),
            mid: quantile_of(pressures, CALIBRATION_MID_QUANTILE as int),
            high: quantile_of(pressures, CALIBRATION_HIGH_QUANTILE as int),
            base,
        }
    }
}

/// A profile with too small a spread carries no pressure signal.
pub open spec fn is_flat<S: Scalar>(ink: InkWeight<S>) -> bool {
    ink.high - ink.low < S::mil(MIN_PRESSURE_SPAN as int)
}

/// How far across the width band a pressure lies, from zero to one: the profile's
/// light pressure at zero, its ordinary one at a half and its heavy one at one.
pub open spec fn band_position<S: Scalar>(ink: InkWeight<S>, pressure: S) -> S {
    let span = S::mil(MIN_PRESSURE_SPAN as int);
    let half = S::mil(500);
    if pressure <= ink.mid {
        let lower = ink.mid - ink.low;
        if lower < span {
            half
        } else {
            half * ((pressure - ink.low) / lower).held(S::mil(0), S::mil(1_000))
        }
    } else {
        let upper = ink.high - ink.mid;
        if upper < span {
            half
        } else {
            half + half * ((pressure - ink.mid) / upper).held(S::mil(0), S::mil(1_000))
        }
    }
}

/// The ink width for a pressure.
pub open spec fn width_for<S: Scalar>(ink: InkWeight<S>, pressure: S) -> S {
    if is_flat(ink) {
        ink.base
    } else {
        let low = S::mil(MIN_WEIGHT_FACTOR as int);
        let high = S::mil(MAX_WEIGHT_FACTOR as int);
        ink.base * (low + (high - low) * band_position(ink, pressure))
    }
}

impl<S: Scalar> InkWeight<S> {
    /// `pressures` is every pressure in the profile; `base` is the width for
    /// ordinary pressure.
    pub fn new(pressures: &[S], base: S) -> (r: Self)
        ensures
            r == calibration(pressures@, base),
    {
        if pressures.len() == 0 {
            // No pressure anywhere: one uniform width, whatever the base is.
            return InkWeight { low: S::milli(0), mid: S::milli(0), high: S::milli(0), base };
        }
        let sorted = sort(sort_keys(pressures));
        proof {
            lemma_arrangement(sorted@, keys_of(pressures@));
        }
        InkWeight {
            low: at_quantile(&sorted, CALIBRATION_LOW_QUANTILE),
            mid: at_quantile(&sorted, CALIBRATION_MID_QUANTILE),
            high: at_quantile(&sorted, CALIBRATION_HIGH_QUANTILE),
            base,
        }
    }

    /// The ink width for a recorded pressure.
    pub fn width(&self, pressure: S) -> (r: S)
        ensures
            r == width_for(*self, pressure),
    {
        let span = S::milli(MIN_PRESSURE_SPAN);
        if self.high.minus(self.low).lt(span) {
            // A flat profile carries no pressure signal to calibrate against.
            return self.base;
        }
        // Anchor the profile's own light, ordinary, and heavy pressure on the
        // band edges and centre, so every author gets the same weight range and
        // the same weight at ordinary pressure regardless of their pen.
        let half = S::milli(500);
        let t = if pressure.le(self.mid) {
            let lower = self.mid.minus(self.low);
            if lower.lt(span) {
                half
            } else {
                half.times(
                    pressure.minus(self.low).over(lower).clamp(S::milli(0), S::milli(1_000)),
                )
            }
        } else {
            let upper = self.high.minus(self.mid);
            if upper.lt(span) {
                half
            } else {
                half.plus(
                    half.times(
                        pressure.minus(self.mid).over(upper).clamp(S::milli(0), S::milli(1_000)),
                    ),
                )
            }
        };
        let low = S::milli(MIN_WEIGHT_FACTOR);
        let high = S::milli(MAX_WEIGHT_FACTOR);
        self.base.times(low.plus(high.minus(low).times(t)))
    }
}

fn sort_keys<S: Scalar>(xs: &[S]) -> (r: Vec<i64>)
    ensures
        r@ == keys_of(xs@),
{
    let mut keys: Vec<i64> = Vec::new();
    let mut i: usize = 0;
    while i < xs.len()
        invariant
            i <= xs.len(),
            keys.len() == i,
            forall|k: int| 0 <= k < i ==> keys@[k] == keys_of(xs@)[k],
        decreases xs.len() - i,
    {
        keys.push(xs[i].to_key());
        i += 1;
    }
    proof {
        assert(keys@ =~= keys_of(xs@));
    }
    keys
}

fn at_quantile<S: Scalar>(sorted: &Vec<i64>, quantile: i32) -> (r: S)
    requires
        sorted.len() > 0,
    ensures
        r == S::of_key(sorted@[quantile_index::<S>(sorted.len() as int, quantile as int)]),
{
    let last = sorted.len() - 1;
    let index = S::whole(last).times(S::milli(quantile)).round().to_count();
    if index <= last {
        S::from_key(sorted[index])
    } else {
        S::from_key(sorted[last])
    }
}

/// Whether the sequence ascends.
spec fn ascends(xs: Seq<i64>) -> bool {
    forall|i: int, j: int| 0 <= i < j < xs.len() ==> (#[trigger] xs[i]) <= (#[trigger] xs[j])
}

/// A sequence that ascends and holds the same numbers is the ordered one.
proof fn lemma_arrangement(arranged: Seq<i64>, xs: Seq<i64>)
    requires
        ascends(arranged),
        arranged.to_multiset() == xs.to_multiset(),
    ensures
        arranged == in_order(xs),
        arranged.len() == xs.len(),
{
    let leq = |a: i64, b: i64| a <= b;
    assert(total_ordering(leq));
    xs.lemma_sort_by_ensures(leq);
    assert(sorted_by(arranged, leq));
    vstd::seq_lib::lemma_sorted_unique(arranged, xs.sort_by(leq), leq);
    arranged.to_multiset_ensures();
    xs.to_multiset_ensures();
}

/// The integers in order.
fn sort(xs: Vec<i64>) -> (r: Vec<i64>)
    ensures
        ascends(r@),
        r@.to_multiset() == xs@.to_multiset(),
    decreases xs.len(),
{
    if xs.len() <= 1 {
        return xs;
    }
    let mut left = xs;
    let middle = left.len() / 2;
    let right = left.split_off(middle);
    proof {
        assert(xs@ =~= left@ + right@);
        vstd::seq_lib::lemma_multiset_commutative(left@, right@);
    }
    merge(&sort(left), &sort(right))
}

/// Two ordered runs of integers as one.
fn merge(a: &Vec<i64>, b: &Vec<i64>) -> (r: Vec<i64>)
    requires
        ascends(a@),
        ascends(b@),
    ensures
        ascends(r@),
        r@.to_multiset() == a@.to_multiset().add(b@.to_multiset()),
{
    let mut r: Vec<i64> = Vec::new();
    let mut i: usize = 0;
    let mut j: usize = 0;
    proof {
        assert(a@.take(0) =~= Seq::empty());
        assert(b@.take(0) =~= Seq::empty());
        assert(Seq::<i64>::empty().to_multiset() =~= Multiset::empty()) by {
            Seq::<i64>::empty().to_multiset_ensures();
        }
        assert(r@.to_multiset() =~= a@.take(0).to_multiset().add(b@.take(0).to_multiset()));
    }
    while i < a.len() || j < b.len()
        invariant
            ascends(a@),
            ascends(b@),
            i <= a.len(),
            j <= b.len(),
            ascends(r@),
            r@.to_multiset() == a@.take(i as int).to_multiset().add(
                b@.take(j as int).to_multiset(),
            ),
            forall|k: int|
                0 <= k < r.len() && i < a.len() ==> (#[trigger] r@[k]) <= a@[i as int],
            forall|k: int|
                0 <= k < r.len() && j < b.len() ==> (#[trigger] r@[k]) <= b@[j as int],
        decreases a.len() - i + b.len() - j,
    {
        let from_a = j == b.len() || (i < a.len() && a[i] <= b[j]);
        let ghost before = r@;
        proof {
            broadcast use vstd::seq_lib::group_to_multiset_ensures;

            if from_a {
                assert(a@.take(i + 1) =~= a@.take(i as int).push(a@[i as int]));
                assert(before.push(a@[i as int]).to_multiset() =~= a@.take(
                    i + 1,
                ).to_multiset().add(b@.take(j as int).to_multiset()));
            } else {
                assert(b@.take(j + 1) =~= b@.take(j as int).push(b@[j as int]));
                assert(before.push(b@[j as int]).to_multiset() =~= a@.take(
                    i as int,
                ).to_multiset().add(b@.take(j + 1).to_multiset()));
            }
        }
        if from_a {
            r.push(a[i]);
            i += 1;
        } else {
            r.push(b[j]);
            j += 1;
        }
    }
    proof {
        assert(a@.take(i as int) =~= a@);
        assert(b@.take(j as int) =~= b@);
    }
    r
}

} // verus!
