//! The letters of a word stand clear of each other.
use crate::exact::arithmetic;
use crate::laws;
use crate::milli::Milli;
use crate::pen::Pen;
use crate::prose;
use crate::prose::Letter;
use crate::scalar::Scalar;
use crate::strokes;
use crate::strokes::BoxView;
use crate::words;
use vstd::prelude::*;

verus! {

/// Whether a letter stands, and ends, within a million pixels of the origin.
pub open spec fn is_placed(letter: Letter<Milli>) -> bool {
    arithmetic::within(letter.1, 1_000_000_000) && arithmetic::within(
        letter.0.width,
        1_000_000_000,
    )
}

/// Whether every letter of a word is placed.
pub open spec fn word_is_placed(word: Seq<Letter<Milli>>) -> bool {
    forall|i: int| 0 <= i < word.len() ==> is_placed(#[trigger] word[i])
}

proof fn lemma_stepped(x: Milli, k: nat)
    requires
        arithmetic::within(x, 5_000_000_000),
        k <= 1_000_000_000,
    ensures
        laws::stepped(x, k).0 == x.0 + 500 * k,
{
    lemma_stepped_from(x, 0, k);
}

proof fn lemma_stepped_from(x: Milli, done: nat, k: nat)
    requires
        arithmetic::within(x, 1_000_000_000_000),
        done + k <= 1_000_000_000,
        x.0 <= 5_000_000_000 + 500 * done,
        -5_000_000_000 <= x.0,
    ensures
        laws::stepped(x, k).0 == x.0 + 500 * k,
    decreases k,
{
    if k > 0 {
        lemma_stepped_from(x + Milli(500), done + 1, (k - 1) as nat);
    }
}

/// Behind every letter there is room: far enough to the right no letter touches the word.
proof fn lemma_far_right_is_clear(word: Seq<Letter<Milli>>, b: BoxView<Milli>, x: Milli)
    requires
        word_is_placed(word),
        2_000_010_000 <= x.0,
    ensures
        !prose::crowds(word, b, x),
{
    assert forall|k: int| 0 <= k < word.len() implies !prose::touches(#[trigger] word[k], b, x) by {
        assert(is_placed(word[k]));
    }
}

/// The first clear place, and that there is none before it.
proof fn lemma_first_clear_place(
    word: Seq<Letter<Milli>>,
    b: BoxView<Milli>,
    x: Milli,
    k: nat,
) -> (first: nat)
    requires
        !prose::crowds(word, b, laws::stepped(x, k)),
    ensures
        first <= k,
        !prose::crowds(word, b, laws::stepped(x, first)),
        forall|j: nat| j < first ==> prose::crowds(word, b, #[trigger] laws::stepped(x, j)),
    decreases k,
{
    if forall|j: nat| j < k ==> prose::crowds(word, b, #[trigger] laws::stepped(x, j)) {
        k
    } else {
        let j = choose|j: nat| j < k && !prose::crowds(word, b, #[trigger] laws::stepped(x, j));
        lemma_first_clear_place(word, b, x, j)
    }
}

/// There is always a clear place for the next letter of a word, and it is found.
pub proof fn law_there_is_a_clear_place(word: Seq<Letter<Milli>>, b: BoxView<Milli>, x: Milli)
    requires
        word_is_placed(word),
        arithmetic::within(x, 3_000_000_000),
    ensures
        !prose::crowds(word, b, prose::clear_place(word, b, x, usize::MAX as nat)),
{
    let k: nat = 10_100_000;
    lemma_stepped(x, k);
    lemma_far_right_is_clear(word, b, laws::stepped(x, k));
    let first = lemma_first_clear_place(word, b, x, k);
    laws::law_letters_stand_clear(word, b, x, usize::MAX as nat, first);
}

/// Whether the ink of a letter has a left and a right edge, within reason.
pub open spec fn has_edges(b: BoxView<Milli>) -> bool {
    strokes::body_extent(b.marks) matches Some((l, r)) && arithmetic::within(l, 900_000_000)
        && arithmetic::within(r, 900_000_000)
}

/// Whether no letter of a word touches one that stands before it.
pub open spec fn is_clear(word: Seq<Letter<Milli>>) -> bool {
    forall|i: int, j: int|
        0 <= i < j < word.len() ==> !prose::touches(
            #[trigger] word[i],
            (#[trigger] word[j]).0,
            word[j].1,
        )
}

/// Whether every letter of a word is placed and has edges.
pub open spec fn word_is_inked(word: Seq<Letter<Milli>>) -> bool {
    forall|i: int|
        0 <= i < word.len() ==> is_placed(#[trigger] word[i]) && has_edges(word[i].0)
}

/// Whatever text is written, no letter of a word touches one that stands before it.
pub proof fn law_letters_of_a_word_do_not_touch(pen: Pen<Milli>, chars: Seq<char>, n: int)
    requires
        0 <= n <= chars.len(),
        prose::text_upto(pen, chars, n).1 matches Ok((_, word)) && word_is_inked(word),
    ensures
        prose::text_upto(pen, chars, n).1 matches Ok((_, word)) && is_clear(word),
    decreases n,
{
    if n > 0 {
        let (before, r) = prose::text_upto(pen, chars, n - 1);
        let (out, earlier) = r->Ok_0;
        let c = chars[n - 1];
        let (_, word) = prose::text_upto(pen, chars, n).1->Ok_0;
        if words::is_letter_char(c) {
            let b = prose::char_written(before, c).1->Ok_0;
            let x = prose::place_of(out.width, chars, n - 1, earlier, b);
            assert(word == earlier.push((b, x)));
            assert forall|i: int| 0 <= i < earlier.len() implies is_placed(#[trigger] earlier[i])
                && has_edges(earlier[i].0) by {
                assert(word[i] == earlier[i]);
            }
            law_letters_of_a_word_do_not_touch(pen, chars, n - 1);
            let last = word.len() - 1;
            assert(word[last] == (b, x));
            if earlier.len() > 0 {
                lemma_next_letter_is_clear(out.width, chars, n - 1, earlier, b);
            }
            assert forall|i: int, j: int| 0 <= i < j < word.len() implies !prose::touches(
                #[trigger] word[i],
                (#[trigger] word[j]).0,
                word[j].1,
            ) by {
                assert(word[i] == earlier[i]);
                if j < last {
                    assert(word[j] == earlier[j]);
                }
            }
        }
    }
}

proof fn lemma_next_letter_is_clear(
    width: Milli,
    chars: Seq<char>,
    i: int,
    earlier: Seq<Letter<Milli>>,
    b: BoxView<Milli>,
)
    requires
        words::is_letter_char(chars[i]),
        earlier.len() > 0,
        word_is_inked(earlier),
        has_edges(b),
    ensures
        !prose::crowds(earlier, b, prose::place_of(width, chars, i, earlier, b)),
{
    let prior = earlier.last();
    assert(is_placed(prior) && has_edges(prior.0));
    assert forall|k: int| 0 <= k < earlier.len() implies is_placed(#[trigger] earlier[k]) by {}
    let (_, right) = strokes::body_extent(prior.0.marks)->0;
    let (left, _) = strokes::body_extent(b.marks)->0;
    law_there_is_a_clear_place(
        earlier,
        b,
        prior.1 + right + Milli::mil(prose::TEXT_GAP as int) - left,
    );
}

} // verus!
