//! Handwriting profiles: the recorded glyphs of one author.
use crate::ink;
use crate::ink::InkWeight;
use crate::scalar::Scalar;
use crate::strokes;
use crate::words::{joined, same_text};
use vstd::hash_map::StringHashMap;
use vstd::prelude::*;

verus! {

/// The largest stroke file that is read, in bytes.
pub const MAX_FILE_SIZE: u64 = 50_000_000;

/// Output pixels per source pixel, in thousandths: a capital of 145 source pixels
/// becomes 70 output pixels.
pub const UNIT: i32 = 480;

/// A stroke file as it was written down.
pub struct StrokeFile<S> {
    pub schema: String,
    pub version: u32,
    pub ink_width: Option<S>,
    pub glyphs: Vec<Glyph<S>>,
}

/// One collected glyph: a single sample of its own, or several variants.
pub struct Glyph<S> {
    pub key: String,
    pub status: String,
    pub bbox: Option<Bounds<S>>,
    pub strokes: Vec<Vec<Point<S>>>,
    pub variants: Vec<Variant<S>>,
}

/// One sample of a glyph.
pub struct Variant<S> {
    pub baseline: S,
    pub bbox: Option<Bounds<S>>,
    pub strokes: Vec<Vec<Point<S>>>,
}

/// The box round a sample, in source pixels, y growing upwards from the baseline.
pub struct Bounds<S> {
    pub min_x: S,
    pub min_y: S,
    pub max_x: S,
    pub max_y: S,
}

/// A recorded pen position, with its pressure where the pen reported one.
pub struct Point<S> {
    pub x: S,
    pub y: S,
    pub p: Option<S>,
}

impl<S: Copy> Copy for Bounds<S> {

}

impl<S: Copy> Clone for Bounds<S> {
    fn clone(&self) -> (r: Self)
        ensures
            r == *self,
    {
        *self
    }
}

impl<S: Copy> Copy for Point<S> {

}

impl<S: Copy> Clone for Point<S> {
    fn clone(&self) -> (r: Self)
        ensures
            r == *self,
    {
        *self
    }
}

/// Why a formula could not be drawn.
#[derive(Debug)]
pub struct RenderError(pub String);

/// A profile that is ready to be written with.
#[verifier::reject_recursive_types(S)]
pub struct Handwriting<S> {
    pub glyphs: StringHashMap<Glyph<S>>,
    pub ink: InkWeight<S>,
}

/// The pressures that a stroke reports.
pub open spec fn stroke_pressures<S>(stroke: Seq<Point<S>>) -> Seq<S>
    decreases stroke.len(),
{
    if stroke.len() == 0 {
        Seq::empty()
    } else {
        let before = stroke_pressures(stroke.drop_last());
        match stroke.last().p {
            Some(p) => before.push(p),
            None => before,
        }
    }
}

/// The pressures of one stroke after the other.
pub open spec fn strokes_pressures<S>(strokes: Seq<Vec<Point<S>>>) -> Seq<S>
    decreases strokes.len(),
{
    if strokes.len() == 0 {
        Seq::empty()
    } else {
        strokes_pressures(strokes.drop_last()) + stroke_pressures(strokes.last()@)
    }
}

/// The pressures of one variant after the other.
pub open spec fn variants_pressures<S>(variants: Seq<Variant<S>>) -> Seq<S>
    decreases variants.len(),
{
    if variants.len() == 0 {
        Seq::empty()
    } else {
        variants_pressures(variants.drop_last()) + strokes_pressures(variants.last().strokes@)
    }
}

/// Every pressure of every glyph, that of its own sample before those of its variants.
pub open spec fn all_pressures<S>(glyphs: Seq<Glyph<S>>) -> Seq<S>
    decreases glyphs.len(),
{
    if glyphs.len() == 0 {
        Seq::empty()
    } else {
        all_pressures(glyphs.drop_last()) + strokes_pressures(glyphs.last().strokes@)
            + variants_pressures(glyphs.last().variants@)
    }
}

/// The glyphs by their keys.
pub open spec fn by_key<S>(glyphs: Seq<Glyph<S>>) -> Map<Seq<char>, Glyph<S>>
    decreases glyphs.len(),
{
    if glyphs.len() == 0 {
        Map::empty()
    } else {
        by_key(glyphs.drop_last()).insert(glyphs.last().key@, glyphs.last())
    }
}

/// Whether two glyphs share a key.
pub open spec fn has_duplicates<S>(glyphs: Seq<Glyph<S>>) -> bool {
    exists|i: int, j: int|
        0 <= i < j < glyphs.len() && (#[trigger] glyphs[i]).key@ == (#[trigger] glyphs[j]).key@
}

/// Whether the file says that it is of the kind and version that is understood.
pub open spec fn is_understood<S>(file: StrokeFile<S>) -> bool {
    file.schema@ == "aspectwrite.handwriting"@ && (file.version == 1 || file.version == 2)
}

/// Whether a width can be drawn with.
pub open spec fn is_drawable_width<S: Scalar>(width: S) -> bool {
    width.finite() && !(width <= S::mil(0))
}

/// What is wrong with a stroke file, if anything.
pub open spec fn file_fault<S: Scalar>(file: StrokeFile<S>) -> Option<Seq<char>> {
    if !is_understood(file) {
        Some("expected aspectwrite.handwriting stroke file version 1 or 2"@)
    } else if file.ink_width matches Some(width) && !is_drawable_width(width) {
        Some("inkWidth must be a positive number of pixels, got "@ + (file.ink_width->0).written())
    } else if has_duplicates(file.glyphs@) {
        Some("duplicate glyph key"@)
    } else {
        None
    }
}

/// The ink width that a file asks for at ordinary pressure.
pub open spec fn base_width<S: Scalar>(file: StrokeFile<S>) -> S {
    match file.ink_width {
        Some(width) => width,
        None => S::mil(ink::INK_WIDTH as int),
    }
}

/// The key under which a glyph is collected: arrows of all lengths share one sample,
/// and so do some symbols with two names.
pub open spec fn collected_key(key: Seq<char>) -> Seq<char> {
    if key == "\\to"@ || key == "\\longrightarrow"@ || key == "\\xrightarrow"@ {
        "\\rightarrow"@
    } else if key == "\\longleftarrow"@ || key == "\\xleftarrow"@ {
        "\\leftarrow"@
    } else if key == "\\xleftrightarrow"@ {
        "\\leftrightarrow"@
    } else if key == "\\Longrightarrow"@ {
        "\\Rightarrow"@
    } else if key == "\\ast"@ {
        "*"@
    } else if key == "\\prime"@ {
        "'"@
    } else {
        key
    }
}

/// Whether a glyph has a sample that can be drawn.
pub open spec fn is_complete<S>(glyph: Glyph<S>) -> bool {
    &&& glyph.status@ == "complete"@
    &&& glyph.variants.len() > 0 || (glyph.bbox is Some && glyph.strokes.len() > 0)
}

/// The glyph collected for a key, or why it cannot be used.
pub open spec fn collected<S>(glyphs: Map<Seq<char>, Glyph<S>>, key: Seq<char>) -> Result<
    Glyph<S>,
    Seq<char>,
> {
    let key = collected_key(key);
    if !glyphs.contains_key(key) {
        Err(
            "missing handwriting glyph "@ + key
                + "; collect it or choose an expression not using it"@,
        )
    } else if !is_complete(glyphs[key]) {
        Err("handwriting glyph "@ + key + " has no complete stroke sample"@)
    } else {
        Ok(glyphs[key])
    }
}

/// The width of a sample on the page.
pub open spec fn width_of_bounds<S: Scalar>(bounds: Bounds<S>) -> S {
    (bounds.max_x - bounds.min_x) * S::mil(UNIT as int)
}

/// The widths of those variants that have a box.
pub open spec fn variant_widths<S: Scalar>(variants: Seq<Variant<S>>) -> Seq<S>
    decreases variants.len(),
{
    if variants.len() == 0 {
        Seq::empty()
    } else {
        let before = variant_widths(variants.drop_last());
        match variants.last().bbox {
            Some(bounds) => before.push(width_of_bounds(bounds)),
            None => before,
        }
    }
}

/// The widths of all samples of a glyph.
pub open spec fn sample_widths<S: Scalar>(glyph: Glyph<S>) -> Seq<S> {
    match glyph.bbox {
        Some(bounds) => variant_widths(glyph.variants@).push(width_of_bounds(bounds)),
        None => variant_widths(glyph.variants@),
    }
}

/// The width of the widest collected sample of a parenthesis; none for another key,
/// for a parenthesis that was not collected, and for one without any box.
pub open spec fn parenthesis_width<S: Scalar>(
    glyphs: Map<Seq<char>, Glyph<S>>,
    key: Seq<char>,
) -> Option<S> {
    if key != "("@ && key != ")"@ {
        None
    } else {
        match collected(glyphs, key) {
            Err(_) => None,
            Ok(glyph) => {
                let widths = sample_widths(glyph);
                if widths.len() == 0 {
                    None
                } else {
                    Some(strokes::greatest_from(widths[0], widths.drop_first()))
                }
            },
        }
    }
}

/// Refuses a stroke file that is too large to be read.
pub fn check_file_size(size: u64) -> (r: Result<(), RenderError>)
    ensures
        match r {
            Ok(_) => size <= MAX_FILE_SIZE,
            Err(e) => size > MAX_FILE_SIZE && e.0@ == "stroke file exceeds 50 MB"@,
        },
{
    if size > MAX_FILE_SIZE {
        return Err(RenderError("stroke file exceeds 50 MB".to_owned()));
    }
    Ok(())
}

fn push_pressures<S: Scalar>(strokes: &Vec<Vec<Point<S>>>, pressures: &mut Vec<S>)
    ensures
        final(pressures)@ == old(pressures)@ + strokes_pressures(strokes@),
{
    let ghost start = pressures@;
    let mut i: usize = 0;
    proof {
        assert(start + strokes_pressures(strokes@.take(0)) =~= start);
    }
    while i < strokes.len()
        invariant
            i <= strokes.len(),
            pressures@ == start + strokes_pressures(strokes@.take(i as int)),
        decreases strokes.len() - i,
    {
        let stroke = &strokes[i];
        let ghost here = pressures@;
        let mut j: usize = 0;
        proof {
            assert(here + stroke_pressures(stroke@.take(0)) =~= here);
        }
        while j < stroke.len()
            invariant
                j <= stroke.len(),
                pressures@ == here + stroke_pressures(stroke@.take(j as int)),
            decreases stroke.len() - j,
        {
            proof {
                assert(stroke@.take(j + 1).drop_last() =~= stroke@.take(j as int));
            }
            if let Some(p) = stroke[j].p {
                pressures.push(p);
            }
            proof {
                assert(pressures@ =~= here + stroke_pressures(stroke@.take(j + 1)));
            }
            j += 1;
        }
        proof {
            assert(stroke@.take(j as int) =~= stroke@);
            assert(strokes@.take(i + 1).drop_last() =~= strokes@.take(i as int));
            assert(pressures@ =~= start + strokes_pressures(strokes@.take(i + 1)));
        }
        i += 1;
    }
    proof {
        assert(strokes@.take(i as int) =~= strokes@);
    }
}

fn push_variant_pressures<S: Scalar>(variants: &Vec<Variant<S>>, pressures: &mut Vec<S>)
    ensures
        final(pressures)@ == old(pressures)@ + variants_pressures(variants@),
{
    let ghost start = pressures@;
    let mut i: usize = 0;
    proof {
        assert(start + variants_pressures(variants@.take(0)) =~= start);
    }
    while i < variants.len()
        invariant
            i <= variants.len(),
            pressures@ == start + variants_pressures(variants@.take(i as int)),
        decreases variants.len() - i,
    {
        push_pressures(&variants[i].strokes, pressures);
        proof {
            assert(variants@.take(i + 1).drop_last() =~= variants@.take(i as int));
            assert(pressures@ =~= start + variants_pressures(variants@.take(i + 1)));
        }
        i += 1;
    }
    proof {
        assert(variants@.take(i as int) =~= variants@);
    }
}

fn gather_pressures<S: Scalar>(glyphs: &Vec<Glyph<S>>) -> (r: Vec<S>)
    ensures
        r@ == all_pressures(glyphs@),
{
    let mut pressures: Vec<S> = Vec::new();
    let mut i: usize = 0;
    while i < glyphs.len()
        invariant
            i <= glyphs.len(),
            pressures@ == all_pressures(glyphs@.take(i as int)),
        decreases glyphs.len() - i,
    {
        push_pressures(&glyphs[i].strokes, &mut pressures);
        push_variant_pressures(&glyphs[i].variants, &mut pressures);
        proof {
            assert(glyphs@.take(i + 1).drop_last() =~= glyphs@.take(i as int));
        }
        i += 1;
    }
    proof {
        assert(glyphs@.take(i as int) =~= glyphs@);
    }
    pressures
}

/// A key is in the map exactly where a glyph has it.
proof fn lemma_keys<S>(glyphs: Seq<Glyph<S>>, key: Seq<char>)
    ensures
        by_key(glyphs).contains_key(key) <==> exists|i: int|
            0 <= i < glyphs.len() && (#[trigger] glyphs[i]).key@ == key,
    decreases glyphs.len(),
{
    if glyphs.len() > 0 {
        lemma_keys(glyphs.drop_last(), key);
        if by_key(glyphs).contains_key(key) {
            if glyphs.last().key@ == key {
                assert(glyphs[glyphs.len() - 1].key@ == key);
            } else {
                let i = choose|i: int|
                    0 <= i < glyphs.drop_last().len() && (#[trigger] glyphs.drop_last()[i]).key@
                        == key;
                assert(glyphs[i].key@ == key);
            }
        }
        if exists|i: int| 0 <= i < glyphs.len() && (#[trigger] glyphs[i]).key@ == key {
            let i = choose|i: int| 0 <= i < glyphs.len() && (#[trigger] glyphs[i]).key@ == key;
            if i < glyphs.len() - 1 {
                assert(glyphs.drop_last()[i].key@ == key);
            }
        }
    }
}

impl<S: Scalar> Handwriting<S> {
    /// The profile of a stroke file.
    pub fn load(file: StrokeFile<S>) -> (r: Result<Self, RenderError>)
        ensures
            match r {
                Ok(hand) => {
                    &&& file_fault(file) is None
                    &&& hand.glyphs@ == by_key(file.glyphs@)
                    &&& hand.ink == ink::calibration(all_pressures(file.glyphs@), base_width(file))
                },
                Err(e) => file_fault(file) == Some(e.0@),
            },
    {
        if !same_text(file.schema.as_str(), "aspectwrite.handwriting") || (file.version != 1
            && file.version != 2) {
            return Err(
                RenderError(
                    "expected aspectwrite.handwriting stroke file version 1 or 2".to_owned(),
                ),
            );
        }
        let pressures = gather_pressures(&file.glyphs);
        if let Some(ink_width) = file.ink_width {
            if !ink_width.is_finite() || ink_width.le(S::milli(0)) {
                let mut text = "inkWidth must be a positive number of pixels, got ".to_owned();
                text.append(ink_width.to_text().as_str());
                return Err(RenderError(text));
            }
        }
        let base = match file.ink_width {
            Some(ink_width) => ink_width,
            None => S::milli(ink::INK_WIDTH),
        };
        let ink = InkWeight::new(pressures.as_slice(), base);
        let mut glyphs: StringHashMap<Glyph<S>> = StringHashMap::new();
        let ghost all = file.glyphs@;
        #[verifier::loop_isolation(false)]
        for glyph in rest: file.glyphs
            invariant
                rest.seq() == all,
                glyphs@ == by_key(all.take(rest.index())),
                forall|i: int, j: int|
                    0 <= i < j < rest.index() ==> (#[trigger] all[i]).key@ != (
                    #[trigger] all[j]).key@,
        {
            let ghost n = rest.index();
            proof {
                lemma_keys(all.take(n), glyph.key@);
            }
            if glyphs.contains_key(glyph.key.as_str()) {
                proof {
                    let i = choose|i: int|
                        0 <= i < all.take(n).len() && (#[trigger] all.take(n)[i]).key@
                            == glyph.key@;
                    assert(all[i].key@ == all[n].key@);
                }
                return Err(RenderError("duplicate glyph key".to_owned()));
            }
            proof {
                assert forall|i: int, j: int| 0 <= i < j < n + 1 implies (#[trigger] all[i]).key@
                    != (#[trigger] all[j]).key@ by {
                    if j == n {
                        assert(all.take(n)[i].key@ == all[i].key@);
                    }
                }
                assert(all.take(n + 1).drop_last() =~= all.take(n));
            }
            let key = glyph.key.clone();
            glyphs.insert(key, glyph);
        }
        proof {
            assert(all.take(all.len() as int) =~= all);
        }
        Ok(Handwriting { glyphs, ink })
    }

    /// The glyph that is collected for `key`.
    pub fn lookup(&self, key: &str) -> (r: Result<&Glyph<S>, RenderError>)
        ensures
            match r {
                Ok(glyph) => collected(self.glyphs@, key@) == Ok::<Glyph<S>, Seq<char>>(*glyph),
                Err(e) => collected(self.glyphs@, key@) == Err::<Glyph<S>, Seq<char>>(e.0@),
            },
    {
        let key = if same_text(key, "\\to") || same_text(key, "\\longrightarrow") || same_text(
            key,
            "\\xrightarrow",
        ) {
            "\\rightarrow"
        } else if same_text(key, "\\longleftarrow") || same_text(key, "\\xleftarrow") {
            "\\leftarrow"
        } else if same_text(key, "\\xleftrightarrow") {
            "\\leftrightarrow"
        } else if same_text(key, "\\Longrightarrow") {
            "\\Rightarrow"
        } else if same_text(key, "\\ast") {
            "*"
        } else if same_text(key, "\\prime") {
            "'"
        } else {
            key
        };
        match self.glyphs.get(key) {
            None => Err(
                RenderError(
                    joined(
                        "missing handwriting glyph ",
                        key,
                        "; collect it or choose an expression not using it",
                    ),
                ),
            ),
            Some(glyph) => {
                if !same_text(glyph.status.as_str(), "complete") || (glyph.variants.len() == 0 && (
                glyph.bbox.is_none() || glyph.strokes.len() == 0)) {
                    return Err(
                        RenderError(
                            joined("handwriting glyph ", key, " has no complete stroke sample"),
                        ),
                    );
                }
                Ok(glyph)
            },
        }
    }

    /// The width of the widest collected sample of a parenthesis.
    pub fn recorded_parenthesis_width(&self, key: &str) -> (r: Option<S>)
        ensures
            r == parenthesis_width(self.glyphs@, key@),
    {
        if !same_text(key, "(") && !same_text(key, ")") {
            return None;
        }
        let glyph = match self.lookup(key) {
            Ok(glyph) => glyph,
            Err(_) => return None,
        };
        let mut widths: Vec<S> = Vec::new();
        let mut i: usize = 0;
        while i < glyph.variants.len()
            invariant
                i <= glyph.variants.len(),
                widths@ == variant_widths(glyph.variants@.take(i as int)),
            decreases glyph.variants.len() - i,
        {
            proof {
                assert(glyph.variants@.take(i + 1).drop_last() =~= glyph.variants@.take(i as int));
            }
            if let Some(bounds) = glyph.variants[i].bbox {
                widths.push(bounds.max_x.minus(bounds.min_x).times(S::milli(UNIT)));
            }
            i += 1;
        }
        proof {
            assert(glyph.variants@.take(i as int) =~= glyph.variants@);
        }
        if let Some(bounds) = glyph.bbox {
            widths.push(bounds.max_x.minus(bounds.min_x).times(S::milli(UNIT)));
        }
        if widths.len() == 0 {
            return None;
        }
        let mut widest = widths[0];
        let mut k: usize = 1;
        while k < widths.len()
            invariant
                1 <= k <= widths.len(),
                widest == strokes::greatest_from(widths@[0], widths@.drop_first().take(k - 1)),
            decreases widths.len() - k,
        {
            widest = widest.max(widths[k]);
            proof {
                assert(widths@.drop_first().take(k as int).drop_last()
                    =~= widths@.drop_first().take(k - 1));
            }
            k += 1;
        }
        proof {
            assert(widths@.drop_first().take(k - 1) =~= widths@.drop_first());
        }
        Some(widest)
    }
}

} // verus!
