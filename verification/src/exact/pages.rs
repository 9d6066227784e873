//! The size of a page.
use crate::exact::arithmetic;
use crate::ink::InkWeight;
use crate::layout;
use crate::milli;
use crate::milli::Milli;
use crate::node::Node;
use crate::picture;
use crate::profile::Glyph;
use crate::scalar::Scalar;
use vstd::prelude::*;

verus! {

/// Every picture has pixels, so its page can always be made.
pub proof fn law_pictures_have_pixels(
    n: Node<Milli>,
    glyphs: Map<Seq<char>, Glyph<Milli>>,
    weight: InkWeight<Milli>,
    seed: u64,
    scale: u32,
)
    ensures
        picture::picture_of(n, glyphs, weight, seed, scale) matches Ok(p) ==> 1 <= p.width
            <= picture::MAX_SIDE && 1 <= p.height <= picture::MAX_SIDE,
{
}

proof fn lemma_page_side(extent: Milli, k: int) -> (side: int)
    requires
        1 <= k <= 16,
        picture::page_side(extent, Milli::counted(k)).finite(),
    ensures
        picture::page_side(extent, Milli::counted(k)).count() == side
            || picture::page_side(extent, Milli::counted(k)).count() == usize::MAX,
        side == if extent.0 + 44_000 <= 0 {
            1
        } else {
            ((extent.0 + 44_000) * k + 999) / 1_000
        },
{
    let n = extent.0 + 44_000;
    assert(Milli(22_000) * Milli(2_000) == Milli(44_000)) by {
        arithmetic::lemma_share(2_000, 22_000);
    }
    let padded = extent + Milli(44_000);
    let factor = Milli::counted(k);
    assert(factor == Milli((k * 1_000) as i64));
    let (m, f) = (padded.0 as int, k * 1_000);
    let size = m * k;
    assert(m * f == size * 1_000) by (nonlinear_arith)
        requires
            f == k * 1_000,
            size == m * k,
    ;
    lemma_thousandfold(size);
    assert((padded * factor) == milli::clipped(size));
    if m <= 0 {
        assert(size <= 0) by (nonlinear_arith)
            requires
                m <= 0,
                1 <= k,
                size == m * k,
        ;
        1
    } else {
        assert(size >= m) by (nonlinear_arith)
            requires
                0 < m,
                1 <= k,
                size == m * k,
        ;
        assert(n == m);
        (size + 999) / 1_000
    }
}

proof fn lemma_thousandfold(n: int)
    ensures
        milli::quotient(n * 1_000, 1_000) == n,
{
    let m = milli::size_of(n);
    assert(milli::size_of(n * 1_000) == m * 1_000);
    assert(m * 1_000 / 1_000 == m);
}

proof fn lemma_sides_grow(extent: Milli, k: int)
    requires
        1 <= k <= 16,
        picture::page_side(extent, Milli::counted(1)).finite(),
        picture::page_side(extent, Milli::counted(k)).finite(),
        picture::page_side(extent, Milli::counted(1)).count() <= picture::MAX_SIDE,
        picture::page_side(extent, Milli::counted(k)).count() <= picture::MAX_SIDE,
    ensures
        ({
            let one = picture::page_side(extent, Milli::counted(1)).count();
            let many = picture::page_side(extent, Milli::counted(k)).count();
            k * (one - 1) < many <= k * one
        }),
{
    let one = lemma_page_side(extent, 1);
    let many = lemma_page_side(extent, k);
    let n = extent.0 + 44_000;
    if n > 0 {
        assert(k * (one - 1) < many <= k * one) by (nonlinear_arith)
            requires
                one == (n * 1 + 999) / 1_000,
                many == (n * k + 999) / 1_000,
                1 <= k <= 16,
                0 < n,
        ;
    } else {
        assert(k * (one - 1) == 0 && k * one == k) by (nonlinear_arith)
            requires
                one == 1,
        ;
    }
}

/// A larger scale keeps the layout: at `k` times the size a picture has at most `k` times
/// the pixels along each side, and fewer than `k` less.
pub proof fn law_pictures_grow_with_their_scale(
    n: Node<Milli>,
    glyphs: Map<Seq<char>, Glyph<Milli>>,
    weight: InkWeight<Milli>,
    seed: u64,
    k: u32,
)
    requires
        picture::picture_of(n, glyphs, weight, seed, 1) is Ok,
        picture::picture_of(n, glyphs, weight, seed, k) is Ok,
    ensures
        ({
            let one = picture::picture_of(n, glyphs, weight, seed, 1)->Ok_0;
            let many = picture::picture_of(n, glyphs, weight, seed, k)->Ok_0;
            &&& k * (one.width - 1) < many.width <= k * one.width
            &&& k * (one.height - 1) < many.height <= k * one.height
        }),
{
    let b = layout::layout_written(layout::fresh_pen(glyphs, seed, true), n).1->Ok_0;
    lemma_sides_grow(b.width, k as int);
    lemma_sides_grow(b.above + b.below, k as int);
}

} // verus!
