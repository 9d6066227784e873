//! What is read from a stroke file.
use crate::exact::calibration;
use crate::ink;
use crate::milli::Milli;
use crate::profile;
use crate::profile::{Bounds, Glyph, Point, StrokeFile, Variant};
use crate::scalar::Scalar;
use crate::strokes;
use vstd::prelude::*;

verus! {

// Pressures.

/// How many of the first `n` points of a stroke report the pressure `p`.
pub open spec fn times_in_stroke<S>(stroke: Seq<Point<S>>, n: int, p: S) -> nat
    decreases n,
{
    if n <= 0 {
        0
    } else {
        times_in_stroke(stroke, n - 1, p) + if stroke[n - 1].p == Some(p) {
            1nat
        } else {
            0
        }
    }
}

/// How many points of the first `n` strokes report the pressure `p`.
pub open spec fn times_in_strokes<S>(strokes: Seq<Vec<Point<S>>>, n: int, p: S) -> nat
    decreases n,
{
    if n <= 0 {
        0
    } else {
        times_in_strokes(strokes, n - 1, p) + times_in_stroke(
            strokes[n - 1]@,
            strokes[n - 1]@.len() as int,
            p,
        )
    }
}

/// How many points of the first `n` variants report the pressure `p`.
pub open spec fn times_in_variants<S>(variants: Seq<Variant<S>>, n: int, p: S) -> nat
    decreases n,
{
    if n <= 0 {
        0
    } else {
        times_in_variants(variants, n - 1, p) + times_in_strokes(
            variants[n - 1].strokes@,
            variants[n - 1].strokes@.len() as int,
            p,
        )
    }
}

/// How many points of a glyph report the pressure `p`, those of its own strokes and those
/// of its variants alike.
pub open spec fn times_in_glyph<S>(glyph: Glyph<S>, p: S) -> nat {
    times_in_strokes(glyph.strokes@, glyph.strokes@.len() as int, p) + times_in_variants(
        glyph.variants@,
        glyph.variants@.len() as int,
        p,
    )
}

/// How many points of the first `n` glyphs of a file report the pressure `p`.
pub open spec fn times_in_file<S>(glyphs: Seq<Glyph<S>>, n: int, p: S) -> nat
    decreases n,
{
    if n <= 0 {
        0
    } else {
        times_in_file(glyphs, n - 1, p) + times_in_glyph(glyphs[n - 1], p)
    }
}

proof fn lemma_count_of_sum<S>(a: Seq<S>, b: Seq<S>, p: S)
    ensures
        (a + b).to_multiset().count(p) == a.to_multiset().count(p) + b.to_multiset().count(p),
    decreases b.len(),
{
    broadcast use vstd::seq_lib::group_to_multiset_ensures;

    if b.len() == 0 {
        assert(a + b =~= a);
    } else {
        lemma_count_of_sum(a, b.drop_last(), p);
        assert(a + b =~= (a + b.drop_last()).push(b.last()));
        assert(b =~= b.drop_last().push(b.last()));
    }
}

proof fn lemma_stroke_counts<S>(stroke: Seq<Point<S>>, n: int, p: S)
    requires
        0 <= n <= stroke.len(),
    ensures
        profile::stroke_pressures(stroke.take(n)).to_multiset().count(p) == times_in_stroke(
            stroke,
            n,
            p,
        ),
    decreases n,
{
    broadcast use vstd::seq_lib::group_to_multiset_ensures;

    if n > 0 {
        lemma_stroke_counts(stroke, n - 1, p);
        assert(stroke.take(n).drop_last() =~= stroke.take(n - 1));
    }
}

proof fn lemma_strokes_count<S>(strokes: Seq<Vec<Point<S>>>, n: int, p: S)
    requires
        0 <= n <= strokes.len(),
    ensures
        profile::strokes_pressures(strokes.take(n)).to_multiset().count(p) == times_in_strokes(
            strokes,
            n,
            p,
        ),
    decreases n,
{
    broadcast use vstd::seq_lib::group_to_multiset_ensures;

    if n > 0 {
        lemma_strokes_count(strokes, n - 1, p);
        assert(strokes.take(n).drop_last() =~= strokes.take(n - 1));
        let stroke = strokes[n - 1]@;
        assert(stroke.take(stroke.len() as int) =~= stroke);
        lemma_stroke_counts(stroke, stroke.len() as int, p);
        lemma_count_of_sum(
            profile::strokes_pressures(strokes.take(n - 1)),
            profile::stroke_pressures(stroke),
            p,
        );
    }
}

proof fn lemma_variants_count<S>(variants: Seq<Variant<S>>, n: int, p: S)
    requires
        0 <= n <= variants.len(),
    ensures
        profile::variants_pressures(variants.take(n)).to_multiset().count(p) == times_in_variants(
            variants,
            n,
            p,
        ),
    decreases n,
{
    broadcast use vstd::seq_lib::group_to_multiset_ensures;

    if n > 0 {
        lemma_variants_count(variants, n - 1, p);
        assert(variants.take(n).drop_last() =~= variants.take(n - 1));
        let strokes = variants[n - 1].strokes@;
        assert(strokes.take(strokes.len() as int) =~= strokes);
        lemma_strokes_count(strokes, strokes.len() as int, p);
        lemma_count_of_sum(
            profile::variants_pressures(variants.take(n - 1)),
            profile::strokes_pressures(strokes),
            p,
        );
    }
}

proof fn lemma_file_counts<S>(glyphs: Seq<Glyph<S>>, n: int, p: S)
    requires
        0 <= n <= glyphs.len(),
    ensures
        profile::all_pressures(glyphs.take(n)).to_multiset().count(p) == times_in_file(
            glyphs,
            n,
            p,
        ),
    decreases n,
{
    broadcast use vstd::seq_lib::group_to_multiset_ensures;

    if n > 0 {
        lemma_file_counts(glyphs, n - 1, p);
        assert(glyphs.take(n).drop_last() =~= glyphs.take(n - 1));
        let (strokes, variants) = (glyphs[n - 1].strokes@, glyphs[n - 1].variants@);
        assert(strokes.take(strokes.len() as int) =~= strokes);
        assert(variants.take(variants.len() as int) =~= variants);
        lemma_strokes_count(strokes, strokes.len() as int, p);
        lemma_variants_count(variants, variants.len() as int, p);
        let before = profile::all_pressures(glyphs.take(n - 1));
        lemma_count_of_sum(before, profile::strokes_pressures(strokes), p);
        lemma_count_of_sum(
            before + profile::strokes_pressures(strokes),
            profile::variants_pressures(variants),
            p,
        );
    }
}

/// A profile is calibrated with all pressures of all points of its file: each point of a
/// glyph's own strokes, and each point of every variant's strokes, counts once.
pub proof fn law_every_point_counts_for_the_calibration<S>(glyphs: Seq<Glyph<S>>, p: S)
    ensures
        profile::all_pressures(glyphs).to_multiset().count(p) == times_in_file(
            glyphs,
            glyphs.len() as int,
            p,
        ),
{
    assert(glyphs.take(glyphs.len() as int) =~= glyphs);
    lemma_file_counts(glyphs, glyphs.len() as int, p);
}

/// Whether the strokes stand in a glyph itself or in its variants makes no difference to
/// the calibration: two files in which every pressure is reported as often are calibrated
/// alike.
pub proof fn law_variants_are_calibrated_like_glyphs<S: Scalar>(
    a: Seq<Glyph<S>>,
    b: Seq<Glyph<S>>,
    base: S,
)
    requires
        forall|p: S| #[trigger]
            times_in_file(a, a.len() as int, p) == times_in_file(b, b.len() as int, p),
    ensures
        ink::calibration(profile::all_pressures(a), base) == ink::calibration(
            profile::all_pressures(b),
            base,
        ),
{
    let (x, y) = (profile::all_pressures(a), profile::all_pressures(b));
    assert forall|p: S| #[trigger] x.to_multiset().count(p) == y.to_multiset().count(p) by {
        law_every_point_counts_for_the_calibration(a, p);
        law_every_point_counts_for_the_calibration(b, p);
        assert(times_in_file(a, a.len() as int, p) == times_in_file(b, b.len() as int, p));
    }
    assert(x.to_multiset() =~= y.to_multiset());
    calibration::law_calibration_ignores_the_order(x, y, base);
}

proof fn lemma_earlier_glyphs_count_alike<S>(
    before: Seq<Glyph<S>>,
    g: Glyph<S>,
    n: int,
    p: S,
)
    requires
        0 <= n <= before.len(),
    ensures
        times_in_file(before.push(g), n, p) == times_in_file(before, n, p),
    decreases n,
{
    if n > 0 {
        lemma_earlier_glyphs_count_alike(before, g, n - 1, p);
    }
}

/// A glyph whose strokes stand in its only variant is calibrated like one that has the same
/// strokes of its own, whatever other glyphs the file has.
pub proof fn law_strokes_in_a_variant_count_alike<S: Scalar>(
    before: Seq<Glyph<S>>,
    own: Glyph<S>,
    varied: Glyph<S>,
    base: S,
)
    requires
        own.variants@.len() == 0,
        varied.strokes@.len() == 0,
        varied.variants@.len() == 1,
        varied.variants@[0].strokes@ == own.strokes@,
    ensures
        ink::calibration(profile::all_pressures(before.push(own)), base) == ink::calibration(
            profile::all_pressures(before.push(varied)),
            base,
        ),
{
    let n = before.len() as int;
    let (a, b) = (before.push(own), before.push(varied));
    assert forall|p: S| #[trigger]
        times_in_file(a, a.len() as int, p) == times_in_file(b, b.len() as int, p) by {
        lemma_earlier_glyphs_count_alike(before, own, n, p);
        lemma_earlier_glyphs_count_alike(before, varied, n, p);
        reveal_with_fuel(times_in_variants, 2);
        reveal_with_fuel(times_in_strokes, 1);
        assert(a[n] == own && b[n] == varied);
        assert(times_in_glyph(own, p) == times_in_glyph(varied, p));
    }
    law_variants_are_calibrated_like_glyphs(a, b, base);
}

/// A file whose ink width is not given is written with 2.3 pixels at ordinary pressure;
/// one that gives a width is written with that.
pub proof fn law_the_base_width_is_that_of_the_file<S: Scalar>(file: StrokeFile<S>, ps: Seq<S>)
    ensures
        ink::calibration(ps, profile::base_width(file)).base == match file.ink_width {
            Some(w) => w,
            None => S::mil(2_300),
        },
        ps.len() == 0 ==> ({
            let weight = ink::calibration(ps, profile::base_width(file));
            weight.low == S::mil(0) && weight.mid == S::mil(0) && weight.high == S::mil(0)
        }),
{
}

/// Which files are refused, and with which message: another schema or version, a width that
/// is no positive number, and two glyphs with one key; the first of these that applies.
pub proof fn law_bad_files_are_refused<S: Scalar>(file: StrokeFile<S>)
    ensures
        ({
            let fault = profile::file_fault(file);
            let known = file.schema@ == "aspectwrite.handwriting"@ && (file.version == 1
                || file.version == 2);
            let thin = file.ink_width matches Some(w) && (!w.finite() || w <= S::mil(0));
            let twice = exists|i: int, j: int|
                0 <= i < j < file.glyphs@.len() && (#[trigger] file.glyphs@[i]).key@ == (
                #[trigger] file.glyphs@[j]).key@;
            &&& !known ==> fault == Some(
                "expected aspectwrite.handwriting stroke file version 1 or 2"@,
            )
            &&& known && thin ==> fault == Some(
                "inkWidth must be a positive number of pixels, got "@ + (
                file.ink_width->0).written(),
            )
            &&& known && !thin && twice ==> fault == Some("duplicate glyph key"@)
            &&& known && !thin && !twice ==> fault is None
        }),
{
}

// Looking glyphs up.

/// Arrows of all lengths are written with one sample for each direction, and a star and a
/// prime have two names each. Every other key stands for itself.
pub proof fn law_some_symbols_share_a_sample<S>(
    glyphs: Map<Seq<char>, Glyph<S>>,
    key: Seq<char>,
)
    ensures
        ({
            let name = if key == "\\to"@ || key == "\\longrightarrow"@ || key == "\\xrightarrow"@ {
                "\\rightarrow"@
            } else if key == "\\longleftarrow"@ || key == "\\xleftarrow"@ {
                "\\leftarrow"@
            } else if key == "\\xleftrightarrow"@ {
                "\\leftrightarrow"@
            } else if key == "\\Longrightarrow"@ {
                "\\Rightarrow"@
            } else if key == "\\ast"@ {
                "*"@
            } else if key == "\\prime"@ {
                "'"@
            } else {
                key
            };
            let usable = glyphs.contains_key(name) && glyphs[name].status@ == "complete"@ && (
            glyphs[name].variants@.len() > 0 || glyphs[name].bbox is Some
                && glyphs[name].strokes@.len() > 0);
            &&& usable ==> profile::collected(glyphs, key) == Ok::<Glyph<S>, Seq<char>>(
                glyphs[name],
            )
            &&& !glyphs.contains_key(name) ==> profile::collected(glyphs, key) == Err::<
                Glyph<S>,
                Seq<char>,
            >(
                "missing handwriting glyph "@ + name
                    + "; collect it or choose an expression not using it"@,
            )
            &&& glyphs.contains_key(name) && !usable ==> profile::collected(glyphs, key) == Err::<
                Glyph<S>,
                Seq<char>,
            >("handwriting glyph "@ + name + " has no complete stroke sample"@)
        }),
{
}

/// The width of a sample on the page.
pub open spec fn sample_width<S: Scalar>(b: Bounds<S>) -> S {
    (b.max_x - b.min_x) * S::mil(480)
}

proof fn lemma_variant_widths<S: Scalar>(variants: Seq<Variant<S>>, n: int)
    requires
        0 <= n <= variants.len(),
    ensures
        forall|i: int|
            0 <= i < n ==> ((#[trigger] variants[i]).bbox matches Some(b)
                ==> profile::variant_widths(variants.take(n)).contains(sample_width(b))),
        forall|w: S| #[trigger]
            profile::variant_widths(variants.take(n)).contains(w) ==> exists|i: int|
                0 <= i < n && ((#[trigger] variants[i]).bbox matches Some(b) && sample_width(b)
                    == w),
    decreases n,
{
    if n > 0 {
        lemma_variant_widths(variants, n - 1);
        assert(variants.take(n).drop_last() =~= variants.take(n - 1));
        let before = profile::variant_widths(variants.take(n - 1));
        let all = profile::variant_widths(variants.take(n));
        assert forall|i: int| 0 <= i < n implies ((#[trigger] variants[i]).bbox matches Some(b)
            ==> all.contains(sample_width(b))) by {
            if let Some(b) = variants[i].bbox {
                if i < n - 1 {
                    assert(before.contains(sample_width(b)));
                    let k = choose|k: int| 0 <= k < before.len() && before[k] == sample_width(b);
                    assert(all[k] == sample_width(b));
                } else {
                    assert(all[before.len() as int] == sample_width(b));
                }
            }
        }
        assert forall|w: S| #[trigger] all.contains(w) implies exists|i: int|
            0 <= i < n && ((#[trigger] variants[i]).bbox matches Some(b) && sample_width(b)
                == w) by {
            let k = choose|k: int| 0 <= k < all.len() && all[k] == w;
            if k < before.len() {
                assert(before[k] == w);
                assert(before.contains(w));
            } else {
                assert(variants[n - 1].bbox is Some);
            }
        }
    }
}

/// Whether a width is that of a sample of a glyph that has a box.
pub open spec fn is_sample_width<S: Scalar>(glyph: Glyph<S>, w: S) -> bool {
    ||| glyph.bbox matches Some(b) && sample_width(b) == w
    ||| exists|i: int|
        0 <= i < glyph.variants@.len() && ((#[trigger] glyph.variants@[i]).bbox matches Some(b)
            && sample_width(b) == w)
}

proof fn lemma_sample_widths<S: Scalar>(glyph: Glyph<S>, w: S)
    ensures
        profile::sample_widths(glyph).contains(w) <==> is_sample_width(glyph, w),
{
    let variants = glyph.variants@;
    let n = variants.len() as int;
    assert(variants.take(n) =~= variants);
    lemma_variant_widths(variants, n);
    let before = profile::variant_widths(variants);
    let all = profile::sample_widths(glyph);
    if all.contains(w) {
        let k = choose|k: int| 0 <= k < all.len() && all[k] == w;
        if k < before.len() {
            assert(before[k] == w);
            assert(before.contains(w));
        }
    }
    if glyph.bbox is Some {
        assert(all[before.len() as int] == sample_width(glyph.bbox->0));
    }
    if exists|i: int|
        0 <= i < variants.len() && ((#[trigger] variants[i]).bbox matches Some(b) && sample_width(b)
            == w) {
        let i = choose|i: int|
            0 <= i < variants.len() && ((#[trigger] variants[i]).bbox matches Some(b)
                && sample_width(b) == w);
        assert(before.contains(w));
        let k = choose|k: int| 0 <= k < before.len() && before[k] == w;
        assert(all[k] == w);
    }
}

proof fn lemma_greatest(start: Milli, xs: Seq<Milli>)
    ensures
        ({
            let g = strokes::greatest_from(start, xs);
            &&& start.0 <= g.0
            &&& forall|i: int| 0 <= i < xs.len() ==> (#[trigger] xs[i]).0 <= g.0
            &&& g == start || xs.contains(g)
        }),
    decreases xs.len(),
{
    if xs.len() > 0 {
        lemma_greatest(start, xs.drop_last());
        let g = strokes::greatest_from(start, xs.drop_last());
        assert forall|i: int| 0 <= i < xs.len() implies (#[trigger] xs[i]).0
            <= strokes::greatest_from(start, xs).0 by {
            if i < xs.len() - 1 {
                assert(xs.drop_last()[i] == xs[i]);
            }
        }
        if xs.drop_last().contains(g) {
            let k = choose|k: int| 0 <= k < xs.len() - 1 && xs.drop_last()[k] == g;
            assert(xs[k] == g);
        }
        assert(xs[xs.len() - 1] == xs.last());
    }
}

/// Only the round brackets have a collected width. It is that of the widest of their
/// samples that have a box, those of variants and that of the glyph alike; there is none
/// where none was collected.
pub proof fn law_parentheses_are_as_wide_as_their_widest_sample(
    glyphs: Map<Seq<char>, Glyph<Milli>>,
    key: Seq<char>,
)
    ensures
        match profile::parenthesis_width(glyphs, key) {
            None => {
                ||| key != "("@ && key != ")"@
                ||| profile::collected(glyphs, key) is Err
                ||| forall|w: Milli|
                    !#[trigger] is_sample_width(profile::collected(glyphs, key)->Ok_0, w)
            },
            Some(width) => {
                let glyph = profile::collected(glyphs, key)->Ok_0;
                &&& key == "("@ || key == ")"@
                &&& profile::collected(glyphs, key) is Ok
                &&& is_sample_width(glyph, width)
                &&& forall|w: Milli| #[trigger] is_sample_width(glyph, w) ==> w.0 <= width.0
            },
        },
{
    if (key == "("@ || key == ")"@) && profile::collected(glyphs, key) is Ok {
        let glyph = profile::collected(glyphs, key)->Ok_0;
        let all = profile::sample_widths(glyph);
        if all.len() == 0 {
            assert forall|w: Milli| !#[trigger] is_sample_width(glyph, w) by {
                lemma_sample_widths(glyph, w);
            }
        } else {
            let width = strokes::greatest_from(all[0], all.drop_first());
            lemma_greatest(all[0], all.drop_first());
            assert(all.contains(width)) by {
                if all.drop_first().contains(width) {
                    let k = choose|k: int|
                        0 <= k < all.len() - 1 && all.drop_first()[k] == width;
                    assert(all[k + 1] == width);
                }
            }
            lemma_sample_widths(glyph, width);
            assert forall|w: Milli| #[trigger] is_sample_width(glyph, w) implies w.0
                <= width.0 by {
                lemma_sample_widths(glyph, w);
                let k = choose|k: int| 0 <= k < all.len() && all[k] == w;
                if k > 0 {
                    assert(all.drop_first()[k - 1] == w);
                }
            }
        }
    }
}

} // verus!
