//! What holds of every profile, every pen and every formula.
use crate::compose;
use crate::distance;
use crate::glyphs;
use crate::ink::InkWeight;
use crate::layout;
use crate::node;
use crate::node::Node;
use crate::pen;
use crate::pen::{Hand, Pen};
use crate::picture;
use crate::picture::PictureView;
use crate::profile;
use crate::profile::{Bounds, Glyph, Point};
use crate::prose;
use crate::prose::Letter;
use crate::scalar::Scalar;
use crate::strokes;
use crate::strokes::{BoxView, MarkView};
use crate::traces;
use crate::variation;
use vstd::prelude::*;

verus! {

// Profiles.

proof fn lemma_by_key<S>(glyphs: Seq<Glyph<S>>, i: int)
    requires
        !profile::has_duplicates(glyphs),
        0 <= i < glyphs.len(),
    ensures
        profile::by_key(glyphs).contains_key(glyphs[i].key@),
        profile::by_key(glyphs)[glyphs[i].key@] == glyphs[i],
    decreases glyphs.len(),
{
    let before = glyphs.drop_last();
    if i < before.len() {
        assert(!profile::has_duplicates(before)) by {
            assert forall|j: int, k: int| 0 <= j < k < before.len() implies (
            #[trigger] before[j]).key@ != (#[trigger] before[k]).key@ by {
                assert(glyphs[j].key@ != glyphs[k].key@);
            }
        }
        lemma_by_key(before, i);
        assert(glyphs[i].key@ != glyphs[glyphs.len() - 1].key@);
    }
}

proof fn lemma_keys_are_from_glyphs<S>(glyphs: Seq<Glyph<S>>, key: Seq<char>)
    requires
        profile::by_key(glyphs).contains_key(key),
    ensures
        exists|i: int|
            0 <= i < glyphs.len() && (#[trigger] glyphs[i]).key@ == key && profile::by_key(
                glyphs,
            )[key] == glyphs[i],
    decreases glyphs.len(),
{
    if glyphs.len() > 0 {
        let last = glyphs.len() - 1;
        if glyphs[last].key@ != key {
            lemma_keys_are_from_glyphs(glyphs.drop_last(), key);
            let i = choose|i: int|
                0 <= i < last && (#[trigger] glyphs.drop_last()[i]).key@ == key
                    && profile::by_key(glyphs.drop_last())[key] == glyphs.drop_last()[i];
            assert(glyphs[i].key@ == key);
        }
    }
}

/// Looking a key up in a loaded profile gives back the glyph that the file has under it.
pub proof fn law_loaded_glyphs_are_found<S>(glyphs: Seq<Glyph<S>>, i: int)
    requires
        !profile::has_duplicates(glyphs),
        0 <= i < glyphs.len(),
        profile::is_complete(glyphs[i]),
        profile::collected_key(glyphs[i].key@) == glyphs[i].key@,
    ensures
        profile::collected(profile::by_key(glyphs), glyphs[i].key@) == Ok::<Glyph<S>, Seq<char>>(
            glyphs[i],
        ),
{
    lemma_by_key(glyphs, i);
}

/// What is found in a loaded profile is a complete glyph of the file.
pub proof fn law_found_glyphs_were_loaded<S>(glyphs: Seq<Glyph<S>>, key: Seq<char>)
    requires
        profile::collected(profile::by_key(glyphs), key) is Ok,
    ensures
        exists|i: int|
            0 <= i < glyphs.len() && (#[trigger] glyphs[i]).key@ == profile::collected_key(key)
                && profile::is_complete(glyphs[i]) && profile::collected(
                profile::by_key(glyphs),
                key,
            ) == Ok::<Glyph<S>, Seq<char>>(glyphs[i]),
{
    lemma_keys_are_from_glyphs(glyphs, profile::collected_key(key));
}

/// Whether two pens write with the same profile, seed and habits.
pub open spec fn same_profile<S>(p: Pen<S>, q: Pen<S>) -> bool {
    p.glyphs == q.glyphs && p.seed == q.seed && p.variation == q.variation
}

// Rotation through the variants.

/// The seed selects the variant that a glyph starts with.
pub proof fn law_seed_selects_the_first_variant(seed: u64, count: int)
    requires
        0 < count <= usize::MAX,
        seed <= usize::MAX,
    ensures
        pen::variant_index(seed, 0, count) == seed as int % count,
{
    let first = seed as int % count;
    vstd::arithmetic::div_mod::lemma_mod_bound(seed as int, count);
    vstd::arithmetic::div_mod::lemma_small_mod(first as nat, count as nat);
}

/// Each further occurrence takes the next variant, and the first one follows the last.
pub proof fn law_occurrences_take_the_next_variant(seed: u64, occurrence: usize, count: int)
    requires
        0 < count,
        occurrence + count <= usize::MAX,
    ensures
        pen::variant_index(seed, (occurrence + 1) as usize, count) == (pen::variant_index(
            seed,
            occurrence,
            count,
        ) + 1) % count,
{
    let first = (seed as usize) as int % count;
    vstd::arithmetic::div_mod::lemma_mod_bound((seed as usize) as int, count);
    vstd::arithmetic::div_mod::lemma_add_mod_noop(occurrence + first, 1, count);
    vstd::arithmetic::div_mod::lemma_add_mod_noop((occurrence + first) % count, 1, count);
    vstd::arithmetic::div_mod::lemma_mod_twice(occurrence + first, count);
}

proof fn lemma_rotation(seed: u64, occurrence: usize, count: int, steps: nat)
    requires
        0 < count,
        occurrence + steps + count <= usize::MAX,
    ensures
        pen::variant_index(seed, (occurrence + steps) as usize, count) == (pen::variant_index(
            seed,
            occurrence,
            count,
        ) + steps) % count,
{
    let first = (seed as usize) as int % count;
    let start = occurrence + first;
    vstd::arithmetic::div_mod::lemma_mod_bound((seed as usize) as int, count);
    vstd::arithmetic::div_mod::lemma_add_mod_noop(start, steps as int, count);
    vstd::arithmetic::div_mod::lemma_add_mod_noop(start % count, steps as int, count);
    vstd::arithmetic::div_mod::lemma_mod_twice(start, count);
}

/// Among as many occurrences in a row as there are variants, every variant comes up.
pub proof fn law_every_variant_comes_up(seed: u64, occurrence: usize, count: int, variant: int)
    requires
        0 <= variant < count,
        occurrence + 2 * count <= usize::MAX,
    ensures
        exists|k: int|
            0 <= k < count && #[trigger] pen::variant_index(
                seed,
                (occurrence + k) as usize,
                count,
            ) == variant,
{
    let now = pen::variant_index(seed, occurrence, count);
    let first = (seed as usize) as int % count;
    vstd::arithmetic::div_mod::lemma_mod_bound((seed as usize) as int, count);
    vstd::arithmetic::div_mod::lemma_mod_bound(occurrence + first, count);
    let k = if now <= variant {
        variant - now
    } else {
        variant - now + count
    };
    lemma_rotation(seed, occurrence, count, k as nat);
    if now <= variant {
        vstd::arithmetic::div_mod::lemma_small_mod(variant as nat, count as nat);
    } else {
        vstd::arithmetic::div_mod::lemma_mod_add_multiples_vanish(variant, count);
        vstd::arithmetic::div_mod::lemma_small_mod(variant as nat, count as nat);
    }
    assert(pen::variant_index(seed, (occurrence + k) as usize, count) == variant);
}

/// Among as many occurrences in a row as there are variants, none comes up twice.
pub proof fn law_no_variant_comes_up_twice(seed: u64, occurrence: usize, count: int, j: int, k: int)
    requires
        0 <= j < k < count,
        occurrence + 2 * count <= usize::MAX,
    ensures
        pen::variant_index(seed, (occurrence + j) as usize, count) != pen::variant_index(
            seed,
            (occurrence + k) as usize,
            count,
        ),
{
    let at = (occurrence + j) as usize;
    let now = pen::variant_index(seed, at, count);
    let first = (seed as usize) as int % count;
    vstd::arithmetic::div_mod::lemma_mod_bound((seed as usize) as int, count);
    vstd::arithmetic::div_mod::lemma_mod_bound(at + first, count);
    lemma_rotation(seed, at, count, (k - j) as nat);
    if now + (k - j) < count {
        vstd::arithmetic::div_mod::lemma_small_mod((now + (k - j)) as nat, count as nat);
    } else {
        let rest = now + (k - j) - count;
        vstd::arithmetic::div_mod::lemma_mod_add_multiples_vanish(rest, count);
        vstd::arithmetic::div_mod::lemma_small_mod(rest as nat, count as nat);
    }
}

/// Writing a collected sample counts one more occurrence of its key and of no other.
pub proof fn law_samples_are_counted<S: Scalar>(pen: Pen<S>, key: Seq<char>)
    requires
        profile::collected(pen.glyphs, key) is Ok,
    ensures
        pen::sample_written(pen, key).0.occurrences == pen.occurrences.insert(
            key,
            pen::occurrence_of(pen, key).wrapping_add(1),
        ),
{
}

/// The pen after some samples were written, one after the other.
pub open spec fn after_samples<S: Scalar>(pen: Pen<S>, keys: Seq<Seq<char>>) -> Pen<S>
    decreases keys.len(),
{
    if keys.len() == 0 {
        pen
    } else {
        pen::sample_written(after_samples(pen, keys.drop_last()), keys.last()).0
    }
}

/// How often a key occurs among some keys.
pub open spec fn times_among(keys: Seq<Seq<char>>, key: Seq<char>) -> nat
    decreases keys.len(),
{
    if keys.len() == 0 {
        0
    } else {
        times_among(keys.drop_last(), key) + if keys.last() == key {
            1nat
        } else {
            0nat
        }
    }
}

/// A pen counts every sample of a key that it writes, whatever it writes between them.
pub proof fn law_keys_are_counted_apart<S: Scalar>(
    pen: Pen<S>,
    keys: Seq<Seq<char>>,
    key: Seq<char>,
)
    requires
        profile::collected(pen.glyphs, key) is Ok,
        pen::occurrence_of(pen, key) + times_among(keys, key) <= usize::MAX,
    ensures
        pen::occurrence_of(after_samples(pen, keys), key) == pen::occurrence_of(pen, key)
            + times_among(keys, key),
        same_profile(pen, after_samples(pen, keys)),
    decreases keys.len(),
{
    if keys.len() > 0 {
        law_keys_are_counted_apart(pen, keys.drop_last(), key);
        let before = after_samples(pen, keys.drop_last());
        if profile::collected(pen.glyphs, keys.last()) is Ok {
            law_samples_are_counted(before, keys.last());
        }
    }
}

/// A key goes through its variants in turn, whatever is written between its samples:
/// after `k` samples of it, the next one is drawn from the variant `k` places after the
/// one that the seed selects, and the first variant follows the last.
pub proof fn law_samples_go_through_the_variants<S: Scalar>(
    pen: Pen<S>,
    keys: Seq<Seq<char>>,
    key: Seq<char>,
)
    requires
        profile::collected(pen.glyphs, key) is Ok,
        profile::collected(pen.glyphs, key)->Ok_0.variants.len() > 0,
        pen.seed <= usize::MAX,
        pen::occurrence_of(pen, key) + times_among(keys, key) + profile::collected(
            pen.glyphs,
            key,
        )->Ok_0.variants.len() <= usize::MAX,
    ensures
        ({
            let after = after_samples(pen, keys);
            let glyph = profile::collected(pen.glyphs, key)->Ok_0;
            let count = glyph.variants.len() as int;
            let k = pen::occurrence_of(pen, key) + times_among(keys, key);
            let variant = glyph.variants[(k + pen.seed as int % count) % count];
            let bounds = pen::chosen_bounds(glyph, Some(variant));
            &&& pen::chosen_variant(glyph, after.seed, pen::occurrence_of(after, key)) == Some(
                variant,
            )
            &&& pen::sample_fault(key, glyph, Some(variant)) is None && pen::points_are_finite(
                pen::page_points(bounds->0, variant.strokes@),
            ) ==> pen::sample_written(after, key).1 == Ok::<BoxView<S>, Seq<char>>(
                pen::drawn_sample(after, key, bounds->0, variant.strokes@),
            )
        }),
{
    law_keys_are_counted_apart(pen, keys, key);
    let count = profile::collected(pen.glyphs, key)->Ok_0.variants.len() as int;
    vstd::arithmetic::div_mod::lemma_mod_bound(pen.seed as int, count);
}

proof fn lemma_unvaried_sample<S: Scalar>(p: Pen<S>, q: Pen<S>, key: Seq<char>)
    requires
        same_profile(p, q),
        !p.variation,
        profile::collected(p.glyphs, key) matches Ok(glyph) ==> pen::chosen_variant(
            glyph,
            p.seed,
            pen::occurrence_of(p, key),
        ) == pen::chosen_variant(glyph, q.seed, pen::occurrence_of(q, key)),
    ensures
        pen::sample_written(p, key).1 == pen::sample_written(q, key).1,
{
}

/// Without variation a glyph looks as it did as soon as it has gone through its variants,
/// once or more often, whatever else was written meanwhile.
pub proof fn law_unvaried_samples_come_back<S: Scalar>(
    pen: Pen<S>,
    keys: Seq<Seq<char>>,
    key: Seq<char>,
)
    requires
        !pen.variation,
        profile::collected(pen.glyphs, key) is Ok,
        profile::collected(pen.glyphs, key)->Ok_0.variants.len() > 0,
        times_among(keys, key) % profile::collected(pen.glyphs, key)->Ok_0.variants@.len() == 0,
        pen::occurrence_of(pen, key) + times_among(keys, key) + profile::collected(
            pen.glyphs,
            key,
        )->Ok_0.variants.len() <= usize::MAX,
    ensures
        pen::sample_written(after_samples(pen, keys), key).1 == pen::sample_written(pen, key).1,
{
    law_keys_are_counted_apart(pen, keys, key);
    let count = profile::collected(pen.glyphs, key)->Ok_0.variants.len() as int;
    let times = times_among(keys, key);
    lemma_rotation(pen.seed, pen::occurrence_of(pen, key), count, times);
    let now = pen::variant_index(pen.seed, pen::occurrence_of(pen, key), count);
    let first = (pen.seed as usize) as int % count;
    vstd::arithmetic::div_mod::lemma_mod_bound(pen.seed as usize as int, count);
    vstd::arithmetic::div_mod::lemma_mod_bound(pen::occurrence_of(pen, key) + first, count);
    vstd::arithmetic::div_mod::lemma_add_mod_noop(now, times as int, count);
    vstd::arithmetic::div_mod::lemma_small_mod(now as nat, count as nat);
    lemma_unvaried_sample(after_samples(pen, keys), pen, key);
}

/// The key of the sample that a symbol is drawn with; none for a delimiter that is drawn
/// to measure.
pub open spec fn sampled_key<S: Scalar>(
    glyphs: Map<Seq<char>, Glyph<S>>,
    symbol: Seq<char>,
) -> Option<Seq<char>> {
    if node::is_delimiter_key(symbol) && profile::parenthesis_width(glyphs, symbol) is None {
        None
    } else if symbol == "\\cdots"@ || symbol == "\\ldots"@ {
        Some("."@)
    } else if symbol == "\\iint"@ || symbol == "\\iiint"@ {
        Some("\\int"@)
    } else {
        Some(symbol)
    }
}

/// Writing a symbol counts one sample, that of the key it is drawn with, and nothing else:
/// three dots count one full stop, and several integral signs count one.
pub proof fn law_symbols_count_one_sample<S: Scalar>(pen: Pen<S>, symbol: Seq<char>)
    ensures
        glyphs::glyph_written(pen, symbol).0 == match sampled_key(pen.glyphs, symbol) {
            Some(key) => after_samples(pen, seq![key]),
            None => pen,
        },
{
    reveal(glyphs::glyph_written);
    reveal_with_fuel(after_samples, 2);
    if let Some(key) = sampled_key(pen.glyphs, symbol) {
        assert(seq![key].drop_last() =~= Seq::<Seq<char>>::empty());
    }
}

// The pen.

proof fn lemma_glyph_keeps_the_profile<S: Scalar>(pen: Pen<S>, key: Seq<char>)
    ensures
        same_profile(pen, glyphs::glyph_written(pen, key).0),
{
    reveal(glyphs::glyph_written);
}

/// Writing a text keeps the profile.
pub proof fn lemma_text_keeps_the_profile<S: Scalar>(pen: Pen<S>, chars: Seq<char>, n: int)
    ensures
        same_profile(pen, prose::text_upto(pen, chars, n).0),
    decreases n,
{
    if n > 0 {
        lemma_text_keeps_the_profile(pen, chars, n - 1);
        let before = prose::text_upto(pen, chars, n - 1).0;
        lemma_glyph_keeps_the_profile(before, "\\%"@);
        lemma_glyph_keeps_the_profile(before, seq![chars[n - 1]]);
    }
}

proof fn lemma_fraction_keeps_the_profile<S: Scalar>(
    pen: Pen<S>,
    top: BoxView<S>,
    bottom: BoxView<S>,
)
    ensures
        same_profile(pen, layout::fraction_written(pen, top, bottom).0),
{
    reveal(layout::fraction_written);
}

proof fn lemma_group_keeps_the_profile<S: Scalar>(
    pen: Pen<S>,
    left: Seq<char>,
    b: BoxView<S>,
    right: Seq<char>,
)
    ensures
        same_profile(pen, layout::delimited_written(pen, left, b, right).0),
{
    reveal(layout::delimited_written);
}

/// Laying out a formula changes what the pen has counted and nothing else of it: the
/// profile, the seed and whether instances vary stay as they were.
pub proof fn law_layout_keeps_the_profile<S: Scalar>(pen: Pen<S>, n: Node<S>)
    ensures
        same_profile(pen, layout::layout_written(pen, n).0),
    decreases n, 0nat,
{
    match n {
        Node::Glyph(key) => lemma_glyph_keeps_the_profile(pen, key@),
        Node::Text(text) => lemma_text_keeps_the_profile(pen, text@, text@.len() as int),
        Node::Space(w) => {},
        Node::Row(nodes) => lemma_row_keeps_the_profile(pen, nodes@, nodes@.len()),
        Node::Fraction(a, b) => {
            law_layout_keeps_the_profile(pen, *a);
            let (p, top) = layout::layout_written(pen, *a);
            law_layout_keeps_the_profile(p, *b);
            let (q, bottom) = layout::layout_written(p, *b);
            if top is Ok && bottom is Ok {
                lemma_fraction_keeps_the_profile(q, top->Ok_0, bottom->Ok_0);
            }
        },
        Node::Root(index, body) => {
            law_layout_keeps_the_profile(pen, *body);
            if let Some(i) = index {
                law_layout_keeps_the_profile(
                    pen::after_placement(layout::layout_written(pen, *body).0),
                    *i,
                );
            }
        },
        Node::Script { base, sub, sup } => {
            law_layout_keeps_the_profile(pen, *base);
            let p = layout::layout_written(pen, *base).0;
            let q = match sub {
                Some(s) => layout::layout_written(p, *s).0,
                None => p,
            };
            if let Some(s) = sub {
                law_layout_keeps_the_profile(p, *s);
            }
            if let Some(s) = sup {
                law_layout_keeps_the_profile(q, *s);
            }
        },
        Node::Accent(name, body) => law_layout_keeps_the_profile(pen, *body),
        Node::Delimited(left, body, right) => {
            law_layout_keeps_the_profile(pen, *body);
            let (p, b) = layout::layout_written(pen, *body);
            if b is Ok {
                lemma_group_keeps_the_profile(p, left@, b->Ok_0, right@);
            }
        },
        Node::Arrow(key, label) => {
            law_layout_keeps_the_profile(pen, *label);
            lemma_glyph_keeps_the_profile(
                layout::layout_written(pen, *label).0,
                compose::arrow_key(key@),
            );
        },
        Node::Aligned(rows) => lemma_cells_keep_the_profile(pen, rows@, rows@.len()),
    }
}

/// Writing the parts of a row keeps the profile.
pub proof fn lemma_row_keeps_the_profile<S: Scalar>(pen: Pen<S>, nodes: Seq<Node<S>>, count: nat)
    ensures
        same_profile(pen, layout::row_upto(pen, nodes, count).0),
    decreases nodes, count,
{
    if 0 < count <= nodes.len() {
        lemma_row_keeps_the_profile(pen, nodes, (count - 1) as nat);
        law_layout_keeps_the_profile(
            layout::row_upto(pen, nodes, (count - 1) as nat).0,
            nodes[count - 1],
        );
    }
}

/// Writing the cells of aligned rows keeps the profile.
pub proof fn lemma_cells_keep_the_profile<S: Scalar>(
    pen: Pen<S>,
    rows: Seq<(Node<S>, Option<Node<S>>)>,
    count: nat,
)
    ensures
        same_profile(pen, layout::cells_upto(pen, rows, count).0),
    decreases rows, count,
{
    if 0 < count <= rows.len() {
        lemma_cells_keep_the_profile(pen, rows, (count - 1) as nat);
        let p = layout::cells_upto(pen, rows, (count - 1) as nat).0;
        law_layout_keeps_the_profile(p, rows[count - 1].0);
        if let Some(n) = rows[count - 1].1 {
            law_layout_keeps_the_profile(layout::layout_written(p, rows[count - 1].0).0, n);
        }
    }
}

// Without variation.

/// Whether a pen writes every glyph the same way each time: nothing varies, and no glyph
/// has more than one variant.
pub open spec fn is_steady<S>(pen: Pen<S>) -> bool {
    !pen.variation && forall|key: Seq<char>| #[trigger]
        pen.glyphs.contains_key(key) ==> pen.glyphs[key].variants.len() <= 1
}

proof fn lemma_steady_sample<S: Scalar>(p: Pen<S>, q: Pen<S>, key: Seq<char>)
    requires
        same_profile(p, q),
        is_steady(p),
    ensures
        pen::sample_written(p, key).1 == pen::sample_written(q, key).1,
{
    if let Ok(glyph) = profile::collected(p.glyphs, key) {
        assert(p.glyphs.contains_key(profile::collected_key(key)));
        assert(pen::chosen_variant(glyph, p.seed, pen::occurrence_of(p, key))
            == pen::chosen_variant(glyph, q.seed, pen::occurrence_of(q, key)));
    }
}

proof fn lemma_steady_delimiter<S: Scalar>(
    p: Pen<S>,
    q: Pen<S>,
    b: BoxView<S>,
    token: Seq<char>,
    slot: glyphs::Slot<S>,
)
    requires
        same_profile(p, q),
        is_steady(p),
    ensures
        glyphs::delimiter_written(p, b, token, slot).1 == glyphs::delimiter_written(
            q,
            b,
            token,
            slot,
        ).1,
{
    lemma_steady_sample(p, q, token);
}

proof fn lemma_steady_glyph<S: Scalar>(p: Pen<S>, q: Pen<S>, key: Seq<char>)
    requires
        same_profile(p, q),
        is_steady(p),
    ensures
        glyphs::glyph_written(p, key).1 == glyphs::glyph_written(q, key).1,
{
    reveal(glyphs::glyph_written);
    lemma_steady_sample(p, q, key);
    lemma_steady_sample(p, q, "."@);
    lemma_steady_sample(p, q, "\\int"@);
}

proof fn lemma_steady_text<S: Scalar>(p: Pen<S>, q: Pen<S>, chars: Seq<char>, n: int)
    requires
        same_profile(p, q),
        is_steady(p),
    ensures
        prose::text_upto(p, chars, n).1 == prose::text_upto(q, chars, n).1,
    decreases n,
{
    if n > 0 {
        lemma_steady_text(p, q, chars, n - 1);
        lemma_text_keeps_the_profile(p, chars, n - 1);
        lemma_text_keeps_the_profile(q, chars, n - 1);
        let (before_p, before_q) = (
            prose::text_upto(p, chars, n - 1).0,
            prose::text_upto(q, chars, n - 1).0,
        );
        lemma_steady_glyph(before_p, before_q, "\\%"@);
        lemma_steady_glyph(before_p, before_q, seq![chars[n - 1]]);
    }
}

proof fn lemma_steady_fraction<S: Scalar>(p: Pen<S>, q: Pen<S>, top: BoxView<S>, bottom: BoxView<S>)
    requires
        same_profile(p, q),
        is_steady(p),
    ensures
        layout::fraction_written(p, top, bottom).1 == layout::fraction_written(q, top, bottom).1,
{
    reveal(layout::fraction_written);
}

proof fn lemma_steady_group<S: Scalar>(
    p: Pen<S>,
    q: Pen<S>,
    left: Seq<char>,
    b: BoxView<S>,
    right: Seq<char>,
)
    requires
        same_profile(p, q),
        is_steady(p),
    ensures
        layout::delimited_written(p, left, b, right).1 == layout::delimited_written(
            q,
            left,
            b,
            right,
        ).1,
{
    reveal(layout::delimited_written);
    let bare = layout::bare_group(p.glyphs, left, b, right);
    let opening = layout::opening_slot(p.glyphs, left, b);
    let closing = layout::closing_slot(p.glyphs, left, b);
    lemma_steady_delimiter(p, q, bare, left, opening);
    let opened_p = glyphs::delimiter_written(p, bare, left, opening);
    let opened_q = glyphs::delimiter_written(q, bare, left, opening);
    if let Ok(with_left) = opened_p.1 {
        lemma_steady_delimiter(opened_p.0, opened_q.0, with_left, right, closing);
    }
}

/// With variation off and no glyph that has several variants, a formula looks the same
/// wherever it is written: the layout does not depend on what the pen wrote before.
pub proof fn law_steady_layout_has_no_history<S: Scalar>(p: Pen<S>, q: Pen<S>, n: Node<S>)
    requires
        same_profile(p, q),
        is_steady(p),
    ensures
        layout::layout_written(p, n).1 == layout::layout_written(q, n).1,
    decreases n, 0nat,
{
    match n {
        Node::Glyph(key) => lemma_steady_glyph(p, q, key@),
        Node::Text(text) => lemma_steady_text(p, q, text@, text@.len() as int),
        Node::Space(w) => {},
        Node::Row(nodes) => lemma_steady_row(p, q, nodes@, nodes@.len()),
        Node::Fraction(a, b) => {
            law_steady_layout_has_no_history(p, q, *a);
            law_layout_keeps_the_profile(p, *a);
            law_layout_keeps_the_profile(q, *a);
            let (r, s) = (layout::layout_written(p, *a), layout::layout_written(q, *a));
            law_steady_layout_has_no_history(r.0, s.0, *b);
            law_layout_keeps_the_profile(r.0, *b);
            law_layout_keeps_the_profile(s.0, *b);
            let (t, u) = (layout::layout_written(r.0, *b), layout::layout_written(s.0, *b));
            if let Ok(top) = r.1 {
                if let Ok(bottom) = t.1 {
                    lemma_steady_fraction(t.0, u.0, top, bottom);
                }
            }
        },
        Node::Root(index, body) => {
            law_steady_layout_has_no_history(p, q, *body);
            law_layout_keeps_the_profile(p, *body);
            law_layout_keeps_the_profile(q, *body);
            let (r, s) = (layout::layout_written(p, *body).0, layout::layout_written(q, *body).0);
            if let Some(i) = index {
                law_steady_layout_has_no_history(
                    pen::after_placement(r),
                    pen::after_placement(s),
                    *i,
                );
            }
        },
        Node::Script { base, sub, sup } => {
            law_steady_layout_has_no_history(p, q, *base);
            law_layout_keeps_the_profile(p, *base);
            law_layout_keeps_the_profile(q, *base);
            let (r, s) = (layout::layout_written(p, *base).0, layout::layout_written(q, *base).0);
            let (t, u) = match sub {
                Some(n) => (layout::layout_written(r, *n).0, layout::layout_written(s, *n).0),
                None => (r, s),
            };
            if let Some(n) = sub {
                law_steady_layout_has_no_history(r, s, *n);
                law_layout_keeps_the_profile(r, *n);
                law_layout_keeps_the_profile(s, *n);
            }
            if let Some(n) = sup {
                law_steady_layout_has_no_history(t, u, *n);
            }
        },
        Node::Accent(name, body) => law_steady_layout_has_no_history(p, q, *body),
        Node::Delimited(left, body, right) => {
            law_steady_layout_has_no_history(p, q, *body);
            law_layout_keeps_the_profile(p, *body);
            law_layout_keeps_the_profile(q, *body);
            let (r, s) = (layout::layout_written(p, *body), layout::layout_written(q, *body));
            if let Ok(b) = r.1 {
                lemma_steady_group(r.0, s.0, left@, b, right@);
            }
        },
        Node::Arrow(key, label) => {
            law_steady_layout_has_no_history(p, q, *label);
            law_layout_keeps_the_profile(p, *label);
            law_layout_keeps_the_profile(q, *label);
            lemma_steady_glyph(
                layout::layout_written(p, *label).0,
                layout::layout_written(q, *label).0,
                compose::arrow_key(key@),
            );
        },
        Node::Aligned(rows) => lemma_steady_cells(p, q, rows@, rows@.len()),
    }
}

proof fn lemma_steady_row<S: Scalar>(p: Pen<S>, q: Pen<S>, nodes: Seq<Node<S>>, count: nat)
    requires
        same_profile(p, q),
        is_steady(p),
    ensures
        layout::row_upto(p, nodes, count).1 == layout::row_upto(q, nodes, count).1,
    decreases nodes, count,
{
    if 0 < count <= nodes.len() {
        let before = (count - 1) as nat;
        lemma_steady_row(p, q, nodes, before);
        lemma_row_keeps_the_profile(p, nodes, before);
        lemma_row_keeps_the_profile(q, nodes, before);
        law_steady_layout_has_no_history(
            layout::row_upto(p, nodes, before).0,
            layout::row_upto(q, nodes, before).0,
            nodes[count - 1],
        );
    }
}

proof fn lemma_steady_cells<S: Scalar>(
    p: Pen<S>,
    q: Pen<S>,
    rows: Seq<(Node<S>, Option<Node<S>>)>,
    count: nat,
)
    requires
        same_profile(p, q),
        is_steady(p),
    ensures
        layout::cells_upto(p, rows, count).1 == layout::cells_upto(q, rows, count).1,
    decreases rows, count,
{
    if 0 < count <= rows.len() {
        let before = (count - 1) as nat;
        lemma_steady_cells(p, q, rows, before);
        lemma_cells_keep_the_profile(p, rows, before);
        lemma_cells_keep_the_profile(q, rows, before);
        let (r, s) = (
            layout::cells_upto(p, rows, before).0,
            layout::cells_upto(q, rows, before).0,
        );
        let left = rows[count - 1].0;
        law_steady_layout_has_no_history(r, s, left);
        law_layout_keeps_the_profile(r, left);
        law_layout_keeps_the_profile(s, left);
        if let Some(right) = rows[count - 1].1 {
            law_steady_layout_has_no_history(
                layout::layout_written(r, left).0,
                layout::layout_written(s, left).0,
                right,
            );
        }
    }
}

// Delimiters.

proof fn lemma_unvaried_strokes<S: Scalar>(
    h: Hand<S>,
    k: Hand<S>,
    b: Bounds<S>,
    recorded: Seq<Vec<Point<S>>>,
)
    requires
        h.variation is None,
        k.variation is None,
    ensures
        pen::written_strokes(h, b, recorded) == pen::written_strokes(k, b, recorded),
    decreases recorded.len(),
{
    if recorded.len() > 0 {
        lemma_unvaried_strokes(h, k, b, recorded.drop_last());
        let last = recorded.last()@;
        let (x, y) = (pen::written_stroke(h, b, last), pen::written_stroke(k, b, last));
        assert(x.points =~= y.points);
        if let Some(p) = pen::recorded_pressures(last) {
            assert(x.pressures->0 =~= y.pressures->0);
        }
        assert(x == y);
    }
}

proof fn lemma_stroke_is_as_recorded<S: Scalar>(hand: Hand<S>, b: Bounds<S>, stroke: Seq<Point<S>>)
    requires
        hand.variation is None,
    ensures
        pen::written_stroke(hand, b, stroke).points == pen::page_stroke(b, stroke),
        pen::written_stroke(hand, b, stroke).pressures == pen::recorded_pressures(stroke),
{
    let mark = pen::written_stroke(hand, b, stroke);
    assert(mark.points =~= pen::page_stroke(b, stroke));
    if let Some(p) = pen::recorded_pressures(stroke) {
        assert(mark.pressures->0 =~= p);
    }
}

/// Without variation every stroke is written as it was recorded: each point in its place,
/// and each pressure as it is, where every point of the stroke has one.
pub proof fn law_unvaried_strokes_are_as_recorded<S: Scalar>(
    hand: Hand<S>,
    b: Bounds<S>,
    recorded: Seq<Vec<Point<S>>>,
    i: int,
)
    requires
        hand.variation is None,
        forall|k: int| 0 <= k < recorded.len() ==> (#[trigger] recorded[k]).len() > 0,
        0 <= i < recorded.len(),
    ensures
        pen::written_strokes(hand, b, recorded).len() == recorded.len(),
        pen::written_strokes(hand, b, recorded)[i].points == pen::page_stroke(b, recorded[i]@),
        pen::written_strokes(hand, b, recorded)[i].pressures == pen::recorded_pressures(
            recorded[i]@,
        ),
    decreases recorded.len(),
{
    let before = recorded.drop_last();
    lemma_stroke_is_as_recorded(hand, b, recorded.last()@);
    if before.len() > 0 {
        let earlier = if i < before.len() {
            i
        } else {
            0
        };
        law_unvaried_strokes_are_as_recorded(hand, b, before, earlier);
    }
}

/// A collected delimiter is written as it was collected: whether instances vary makes no
/// difference to it.
pub proof fn law_delimiters_do_not_vary<S: Scalar>(pen: Pen<S>, key: Seq<char>)
    requires
        node::is_delimiter_key(key),
    ensures
        pen::sample_written(pen, key).1 == pen::sample_written(
            Pen { variation: !pen.variation, ..pen },
            key,
        ).1,
{
    let other = Pen { variation: !pen.variation, ..pen };
    assert(key != "L"@) by {
        reveal_strlit("L");
        reveal_strlit("(");
        reveal_strlit(")");
        reveal_strlit("[");
        reveal_strlit("]");
        reveal_strlit("|");
        assert("L"@[0] == 'L');
    }
    if let Ok(glyph) = profile::collected(pen.glyphs, key) {
        let occurrence = pen::occurrence_of(pen, key);
        let variant = pen::chosen_variant(glyph, pen.seed, occurrence);
        if pen::sample_fault(key, glyph, variant) is None {
            let b = pen::chosen_bounds(glyph, variant)->0;
            let recorded = pen::chosen_strokes(glyph, variant);
            let points = pen::page_points(b, recorded);
            lemma_unvaried_strokes(
                pen::hand_for(pen, key, occurrence, points),
                pen::hand_for(other, key, occurrence, points),
                b,
                recorded,
            );
        }
    }
}

// Faults.

/// A symbol that was not collected cannot be written, the message names it, and the pen
/// has counted nothing.
pub proof fn law_missing_glyphs_are_named<S: Scalar>(pen: Pen<S>, key: String)
    requires
        !pen.glyphs.contains_key(profile::collected_key(key@)),
        !node::is_delimiter_key(key@),
        key@ != "\\cdots"@,
        key@ != "\\ldots"@,
        key@ != "\\iint"@,
        key@ != "\\iiint"@,
    ensures
        layout::layout_written(pen, Node::Glyph(key)) == (
            pen,
            Err::<BoxView<S>, Seq<char>>(
                "missing handwriting glyph "@ + profile::collected_key(key@)
                    + "; collect it or choose an expression not using it"@,
            ),
        ),
{
    reveal(glyphs::glyph_written);
}

/// A row is written whole or not at all: once a part of it cannot be written, the row
/// ends with that part's error, and nothing after it is counted.
pub proof fn law_rows_end_with_the_first_error<S: Scalar>(
    pen: Pen<S>,
    nodes: Seq<Node<S>>,
    i: int,
)
    requires
        0 <= i < nodes.len(),
        layout::row_upto(pen, nodes, i as nat).1 is Ok,
        layout::layout_written(layout::row_upto(pen, nodes, i as nat).0, nodes[i]).1 is Err,
    ensures
        layout::row_upto(pen, nodes, nodes.len()).0 == layout::layout_written(
            layout::row_upto(pen, nodes, i as nat).0,
            nodes[i],
        ).0,
        layout::row_upto(pen, nodes, nodes.len()).1 is Err,
        layout::row_upto(pen, nodes, nodes.len()).1->Err_0 == layout::layout_written(
            layout::row_upto(pen, nodes, i as nat).0,
            nodes[i],
        ).1->Err_0,
{
    layout::lemma_row_stops(pen, nodes, (i + 1) as nat, nodes.len());
}

/// A formula that cannot be written has no picture at any scale: the picture's error is
/// the layout's.
pub proof fn law_layout_errors_reach_the_picture<S: Scalar>(
    n: Node<S>,
    glyphs: Map<Seq<char>, Glyph<S>>,
    ink: InkWeight<S>,
    seed: u64,
    scale: u32,
)
    requires
        1 <= scale <= 16,
        layout::layout_written(layout::fresh_pen(glyphs, seed, true), n).1 is Err,
    ensures
        picture::picture_of(n, glyphs, ink, seed, scale) == Err::<PictureView<S>, Seq<char>>(
            layout::layout_written(layout::fresh_pen(glyphs, seed, true), n).1->Err_0,
        ),
{
}

// Strokes.

/// Moving, scaling and stretching a box touches where its points are and nothing else:
/// strokes keep their number, their points' number, their pressures and their entries.
/// So the ink of a small script is as heavy as that of its base.
pub proof fn law_resizing_keeps_the_ink<S: Scalar>(b: BoxView<S>, x: S, y: S, factor: S, i: int)
    requires
        0 <= i < b.marks.len(),
    ensures
        is_same_ink(b, strokes::box_moved(b, x, y), i),
        is_same_ink(b, strokes::box_scaled(b, factor), i),
        is_same_ink(b, strokes::box_stretched(b, factor), i),
{
}

/// Whether two boxes have as many strokes, and stroke `i` is drawn with the same ink.
pub open spec fn is_same_ink<S>(b: BoxView<S>, c: BoxView<S>, i: int) -> bool {
    &&& b.marks.len() == c.marks.len()
    &&& b.marks[i].points.len() == c.marks[i].points.len()
    &&& b.marks[i].pressures == c.marks[i].pressures
    &&& b.marks[i].parenthesis == c.marks[i].parenthesis
    &&& b.marks[i].entry_tail_points == c.marks[i].entry_tail_points
    &&& b.marks[i].entry_taper_length == c.marks[i].entry_taper_length
}

/// Only parentheses are bent when they are drawn, and a bent one keeps the number of its
/// points and its pressures.
pub proof fn law_only_parentheses_bend<S: Scalar>(mark: MarkView<S>)
    ensures
        !mark.parenthesis ==> distance::parenthesis_varied(mark) == mark,
        distance::parenthesis_varied(mark).points.len() == mark.points.len(),
        distance::parenthesis_varied(mark).pressures == mark.pressures,
{
}

proof fn lemma_split_is_inside<S: Scalar>(points: Seq<(S, S)>, index: int, distance: S)
    requires
        0 <= index,
        traces::split_from(points, index, distance) is Some,
    ensures
        traces::split_from(points, index, distance) matches Some((at, _)) && index <= at
            < points.len() - 1,
    decreases points.len() - index,
{
    if index + 1 < points.len() {
        let length = traces::length_between(points[index], points[index + 1]);
        if !(S::mil(traces::ENTRY_STROKE_JOIN_LENGTH as int) < distance + length) {
            lemma_split_is_inside(points, index + 1, distance + length);
        }
    }
}

/// Splitting a stroke leaves its entry and the join alone.
pub proof fn lemma_split_is_behind_the_entry<S: Scalar>(mark: MarkView<S>)
    requires
        strokes::mark_is_sound(mark),
        mark.entry_tail_points > 0,
    ensures
        ({
            let split = traces::split_near_join(mark);
            let n = mark.entry_tail_points as int;
            &&& split.entry_tail_points == n
            &&& n < split.points.len()
            &&& mark.points.len() <= split.points.len()
            &&& forall|i: int| 0 <= i <= n ==> #[trigger] split.points[i] == mark.points[i]
            &&& split.pressures is Some == mark.pressures is Some
            &&& mark.pressures is Some ==> split.pressures->0[n] == mark.pressures->0[n]
        }),
{
    let n = mark.entry_tail_points as int;
    if traces::split_from(mark.points, n, S::mil(0)) is Some {
        lemma_split_is_inside(mark.points, n, S::mil(0));
    }
}

/// Splitting a stroke near its entry loses nothing: it leaves the stroke alone, or puts
/// one point behind the entry between two that stay.
pub proof fn law_splitting_keeps_every_point<S: Scalar>(mark: MarkView<S>)
    requires
        strokes::mark_is_sound(mark),
    ensures
        traces::split_near_join(mark) == mark || exists|i: int|
            mark.entry_tail_points < i < mark.points.len()
                && #[trigger] traces::split_near_join(mark).points.remove(i) == mark.points
                && traces::split_near_join(mark).points.len() == mark.points.len() + 1,
        strokes::mark_is_sound(traces::split_near_join(mark)),
{
    let split = traces::split_from(mark.points, mark.entry_tail_points as int, S::mil(0));
    if mark.entry_tail_points > 0 && split is Some {
        lemma_split_is_inside(mark.points, mark.entry_tail_points as int, S::mil(0));
        let (at, _) = split->0;
        let i = at + 1;
        assert(traces::split_near_join(mark).points.remove(i) =~= mark.points);
    }
}

/// A hand-drawn line has eight segments.
pub proof fn law_hand_drawn_lines_have_eight_segments<S: Scalar>(
    seed: u64,
    placed: usize,
    key: Seq<char>,
    from: (S, S),
    to: (S, S),
)
    ensures
        variation::drawn_line(seed, placed, key, from, to).len() == 9,
{
    reveal(variation::drawn_line);
}

// Running text.

/// The place `k` half-pixel steps to the right of `x`.
pub open spec fn stepped<S: Scalar>(x: S, k: nat) -> S
    decreases k,
{
    if k == 0 {
        x
    } else {
        stepped(x + S::mil(500), (k - 1) as nat)
    }
}

/// A letter of a word is set as near as its ink allows: of the places that are tried, the
/// first clear one is taken.
pub proof fn law_letters_stand_clear<S: Scalar>(
    word: Seq<Letter<S>>,
    b: BoxView<S>,
    x: S,
    steps: nat,
    k: nat,
)
    requires
        k <= steps,
        !prose::crowds(word, b, stepped(x, k)),
        forall|j: nat| j < k ==> prose::crowds(word, b, #[trigger] stepped(x, j)),
    ensures
        prose::clear_place(word, b, x, steps) == stepped(x, k),
        !prose::crowds(word, b, prose::clear_place(word, b, x, steps)),
    decreases k,
{
    if k > 0 {
        assert(prose::crowds(word, b, stepped(x, 0)));
        let y = x + S::mil(500);
        assert(!prose::crowds(word, b, stepped(y, (k - 1) as nat)));
        assert forall|j: nat| j < k - 1 implies prose::crowds(
            word,
            b,
            #[trigger] stepped(y, j),
        ) by {
            assert(stepped(x, (j + 1) as nat) == stepped(y, j));
        }
        law_letters_stand_clear(word, b, y, (steps - 1) as nat, (k - 1) as nat);
    }
}

} // verus!
