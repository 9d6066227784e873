//! Running text: one character after the other, and one word after the other.
use crate::distance;
use crate::exact::arithmetic;
use crate::glyphs;
use crate::milli::Milli;
use crate::pen::Pen;
use crate::promises::placing;
use crate::prose;
use crate::prose::Letter;
use crate::scalar::Scalar;
use crate::strokes;
use crate::strokes::BoxView;
use vstd::prelude::*;

verus! {

/// The box of a character that a pen writes next: a space is twenty-four pixels of nothing,
/// a per cent sign has a name, and any other character is the symbol of that key.
pub open spec fn is_written<S: Scalar>(pen: Pen<S>, c: char, after: Pen<S>, b: BoxView<S>) -> bool {
    if c == ' ' {
        &&& after == pen
        &&& b.width == S::mil(24_000)
        &&& b.marks.len() == 0
        &&& b.above == S::mil(0) && b.below == S::mil(0)
    } else {
        let key = if c == '%' {
            "\\%"@
        } else {
            seq![c]
        };
        glyphs::glyph_written(pen, key) == (after, Ok::<BoxView<S>, Seq<char>>(b))
    }
}

/// The extra space before character `i` of a text: nine pixels between two digits, and
/// eight on either side of a decimal point.
pub open spec fn space_before(chars: Seq<char>, i: int) -> (bool, bool) {
    let digit = |k: int| 0 <= k < chars.len() && '0' <= chars[k] <= '9';
    (
        digit(i) && digit(i - 1),
        chars[i] == '.' && digit(i - 1) && digit(i + 1) || digit(i) && i >= 2 && chars[i - 1] == '.'
            && digit(i - 2),
    )
}

/// Whether a character is a letter of the Latin alphabet.
pub open spec fn is_latin(c: char) -> bool {
    'a' <= c <= 'z' || 'A' <= c <= 'Z'
}

/// Where a character stands that does not continue a word: right behind all that was
/// written before it, with extra space in numbers.
pub open spec fn behind<S: Scalar>(width: S, chars: Seq<char>, i: int) -> S {
    let (digits, point) = space_before(chars, i);
    let x = if digits {
        width + S::mil(9_000)
    } else {
        width
    };
    if point {
        x + S::mil(8_000)
    } else {
        x
    }
}

/// A text is written character by character. The next one is added to the strokes of those
/// before it at a place of its own, on the same baseline, and the text grows to hold it.
/// Unless it continues a word, that place is right behind all that was written before.
pub proof fn law_text_grows_by_one_character<S: Scalar>(pen: Pen<S>, chars: Seq<char>, i: int) -> (
r: (BoxView<S>, S))
    requires
        0 <= i < chars.len(),
        prose::text_upto(pen, chars, i + 1).1 is Ok,
    ensures
        prose::text_upto(pen, chars, i).1 is Ok,
        is_written(
            prose::text_upto(pen, chars, i).0,
            chars[i],
            prose::text_upto(pen, chars, i + 1).0,
            r.0,
        ),
        ({
            let (out, word) = prose::text_upto(pen, chars, i).1->Ok_0;
            let (next, _) = prose::text_upto(pen, chars, i + 1).1->Ok_0;
            let (b, x) = r;
            let n = out.marks.len() as int;
            &&& next.marks.len() == n + b.marks.len()
            &&& next.marks.take(n) == out.marks
            &&& placing::shows(next.marks, n, b.marks, |p: (S, S)| (p.0 + x, p.1 + S::mil(0)))
            &&& next.width == out.width.larger(x + b.width)
            &&& next.above == out.above.larger(b.above)
            &&& next.below == out.below.larger(b.below)
            &&& !is_latin(chars[i]) || i == 0 || !is_latin(chars[i - 1]) ==> x == behind(
                out.width,
                chars,
                i,
            )
        }),
        ({
            let (_, word) = prose::text_upto(pen, chars, i).1->Ok_0;
            let (_, longer) = prose::text_upto(pen, chars, i + 1).1->Ok_0;
            &&& is_latin(chars[i]) ==> longer == word.push(r)
            &&& !is_latin(chars[i]) ==> longer.len() == 0
            &&& word.len() > 0 <==> i > 0 && is_latin(chars[i - 1])
        }),
{
    let (before, started) = prose::text_upto(pen, chars, i);
    let (out, word) = started->Ok_0;
    let b = prose::char_written(before, chars[i]).1->Ok_0;
    let x = prose::place_of(out.width, chars, i, word, b);
    let next = prose::text_upto(pen, chars, i + 1).1->Ok_0.0;
    assert(next.marks.take(out.marks.len() as int) =~= out.marks);
    lemma_words_end(pen, chars, i);
    (b, x)
}

proof fn lemma_words_end<S: Scalar>(pen: Pen<S>, chars: Seq<char>, i: int)
    requires
        0 <= i <= chars.len(),
        prose::text_upto(pen, chars, i).1 is Ok,
    ensures
        prose::text_upto(pen, chars, i).1->Ok_0.1.len() > 0 <==> i > 0 && is_latin(chars[i - 1]),
{
}

/// A text ends with the first character that cannot be written: its error is that of the
/// text, and nothing after it is written.
pub proof fn law_texts_end_with_the_first_error<S: Scalar>(pen: Pen<S>, chars: Seq<char>, i: int)
    requires
        0 <= i < chars.len(),
    ensures
        ({
            let (p, started) = prose::text_upto(pen, chars, i);
            let next = prose::text_upto(pen, chars, i + 1);
            let key = if chars[i] == '%' {
                "\\%"@
            } else {
                seq![chars[i]]
            };
            let (q, b) = glyphs::glyph_written(p, key);
            &&& started matches Err(e) ==> next.0 == p && (next.1 matches Err(f) && f == e)
            &&& started is Ok && chars[i] != ' ' && b is Err ==> next.0 == q && (
            next.1 matches Err(f) && f == b->Err_0)
            &&& started is Ok && (chars[i] == ' ' || b is Ok) ==> next.1 is Ok
        }),
{
}

/// A text without any character is empty.
pub proof fn law_texts_begin_empty<S: Scalar>(pen: Pen<S>, chars: Seq<char>)
    ensures
        prose::text_upto(pen, chars, 0) == (
            pen,
            Ok::<(BoxView<S>, Seq<Letter<S>>), Seq<char>>((strokes::empty_box(), Seq::empty())),
        ),
        ({
            let b = strokes::empty_box::<S>();
            &&& b.marks.len() == 0 && !b.large
            &&& b.width == S::mil(0) && b.above == S::mil(0) && b.below == S::mil(0)
            &&& b.script_drop == S::mil(0)
        }),
{
}

/// A text ends with its last character, or with the error of the first one that cannot be
/// written.
pub proof fn law_texts_are_written_to_their_end<S: Scalar>(pen: Pen<S>, chars: Seq<char>)
    ensures
        prose::text_written(pen, chars).0 == prose::text_upto(pen, chars, chars.len() as int).0,
        match prose::text_upto(pen, chars, chars.len() as int).1 {
            Ok((b, _)) => prose::text_written(pen, chars).1 == Ok::<BoxView<S>, Seq<char>>(b),
            Err(e) => prose::text_written(pen, chars).1 == Err::<BoxView<S>, Seq<char>>(e),
        },
{
}

/// A letter that continues a word goes by the bodies of the letters: from where its body
/// would stand six and a half pixels behind that of the letter before it, it moves to the
/// right until it touches no letter of the word. Where either has no ink, it stands behind
/// all that was written before.
pub proof fn law_words_continue_with_their_next_letter<S: Scalar>(
    pen: Pen<S>,
    chars: Seq<char>,
    i: int,
)
    requires
        0 < i < chars.len(),
        is_latin(chars[i - 1]) && is_latin(chars[i]),
        prose::text_upto(pen, chars, i + 1).1 is Ok,
    ensures
        ({
            let (out, word) = prose::text_upto(pen, chars, i).1->Ok_0;
            let (b, x) = prose::text_upto(pen, chars, i + 1).1->Ok_0.1.last();
            let prior = word.last();
            &&& word.len() > 0
            &&& match (strokes::body_extent(prior.0.marks), strokes::body_extent(b.marks)) {
                (Some((_, right)), Some((left, _))) => x == prose::clear_place(
                    word,
                    b,
                    prior.1 + right + S::mil(6_500) - left,
                    usize::MAX as nat,
                ),
                _ => x == out.width,
            }
        }),
{
    law_text_grows_by_one_character(pen, chars, i);
}

/// A letter at `x` crowds a word exactly where it starts no more than six and a half pixels
/// behind the box of one of its letters and some ink of the two comes nearer than that.
pub proof fn law_letters_crowd_where_ink_comes_near<S: Scalar>(
    word: Seq<Letter<S>>,
    b: BoxView<S>,
    x: S,
)
    ensures
        prose::crowds(word, b, x) <==> exists|k: int|
            #![trigger word[k]]
            0 <= k < word.len() && x <= word[k].1 + word[k].0.width + S::mil(6_500)
                && distance::ink_is_close(
                word[k].0.marks,
                b.marks,
                x - word[k].1,
                S::mil(6_500),
            ),
{
    if prose::crowds(word, b, x) {
        let k = choose|k: int| 0 <= k < word.len() && prose::touches(#[trigger] word[k], b, x);
        assert(x <= word[k].1 + word[k].0.width + S::mil(6_500));
    }
    if exists|k: int|
        #![trigger word[k]]
        0 <= k < word.len() && x <= word[k].1 + word[k].0.width + S::mil(6_500)
            && distance::ink_is_close(word[k].0.marks, b.marks, x - word[k].1, S::mil(6_500)) {
        let k = choose|k: int|
            #![trigger word[k]]
            0 <= k < word.len() && x <= word[k].1 + word[k].0.width + S::mil(6_500)
                && distance::ink_is_close(word[k].0.marks, b.marks, x - word[k].1, S::mil(6_500));
        assert(prose::touches(word[k], b, x));
    }
}

/// A crowded place is left for the next one half a pixel to the right; a clear one is kept.
pub proof fn law_crowded_places_are_left<S: Scalar>(
    word: Seq<Letter<S>>,
    b: BoxView<S>,
    x: S,
    steps: nat,
)
    requires
        0 < steps,
    ensures
        prose::clear_place(word, b, x, steps) == if prose::crowds(word, b, x) {
            prose::clear_place(word, b, x + S::mil(500), (steps - 1) as nat)
        } else {
            x
        },
{
}

// Words in thousandths.

/// Character `i` of a text, and where it stands.
pub open spec fn character(pen: Pen<Milli>, chars: Seq<char>, i: int) -> Letter<Milli> {
    let (before, started) = prose::text_upto(pen, chars, i);
    let (out, word) = started->Ok_0;
    let b = prose::char_written(before, chars[i]).1->Ok_0;
    (b, prose::place_of(out.width, chars, i, word, b))
}

proof fn lemma_text_holds_its_characters(pen: Pen<Milli>, chars: Seq<char>, i: int, n: int)
    requires
        0 <= i < n <= chars.len(),
        prose::text_upto(pen, chars, n).1 is Ok,
    ensures
        prose::text_upto(pen, chars, i).1 is Ok,
        prose::text_upto(pen, chars, i + 1).1 is Ok,
        ({
            let (b, x) = character(pen, chars, i);
            (x + b.width).0 <= prose::text_upto(pen, chars, n).1->Ok_0.0.width.0
        }),
    decreases n,
{
    if i < n - 1 {
        lemma_text_holds_its_characters(pen, chars, i, n - 1);
    }
}

/// One word stands behind the other: a character that does not continue a word starts at or
/// to the right of where every character before it ends, and with a space between them at
/// least twenty-four pixels behind it.
pub proof fn law_words_stand_one_behind_the_other(
    pen: Pen<Milli>,
    chars: Seq<char>,
    i: int,
    j: int,
    n: int,
)
    requires
        0 <= i < j < n <= chars.len(),
        !is_latin(chars[j]) || !is_latin(chars[j - 1]),
        prose::text_upto(pen, chars, n).1 is Ok,
        arithmetic::within(character(pen, chars, i).1, 1_000_000_000_000),
        arithmetic::within(character(pen, chars, i).0.width, 1_000_000_000_000),
    ensures
        ({
            let (b, x) = character(pen, chars, i);
            let (_, y) = character(pen, chars, j);
            &&& x.0 + b.width.0 <= y.0
            &&& (exists|k: int| i < k < j && #[trigger] chars[k] == ' ') ==> x.0 + b.width.0
                + 24_000 <= y.0
        }),
{
    lemma_text_holds_its_characters(pen, chars, j, n);
    lemma_text_holds_its_characters(pen, chars, i, j);
    lemma_break(pen, chars, j);
    let width = prose::text_upto(pen, chars, j).1->Ok_0.0.width;
    if exists|k: int| i < k < j && #[trigger] chars[k] == ' ' {
        let k = choose|k: int| i < k < j && #[trigger] chars[k] == ' ';
        lemma_text_holds_its_characters(pen, chars, k, j);
        lemma_text_holds_its_characters(pen, chars, i, k);
        lemma_break(pen, chars, k);
    }
}

proof fn lemma_break(pen: Pen<Milli>, chars: Seq<char>, j: int)
    requires
        0 < j < chars.len(),
        !is_latin(chars[j]) || !is_latin(chars[j - 1]),
        prose::text_upto(pen, chars, j + 1).1 is Ok,
    ensures
        prose::text_upto(pen, chars, j).1->Ok_0.0.width.0 <= character(pen, chars, j).1.0,
        chars[j] == ' ' ==> character(pen, chars, j).0.width.0 == 24_000,
{
    lemma_words_end(pen, chars, j);
}

/// The strokes of every character are among those of the whole text, where it stands.
pub proof fn law_no_character_is_left_out(pen: Pen<Milli>, chars: Seq<char>, i: int, n: int) -> (
first: int)
    requires
        0 <= i < n <= chars.len(),
        prose::text_upto(pen, chars, n).1 is Ok,
    ensures
        ({
            let (b, x) = character(pen, chars, i);
            placing::shows(
                prose::text_upto(pen, chars, n).1->Ok_0.0.marks,
                first,
                b.marks,
                |p: (Milli, Milli)| (p.0 + x, p.1 + Milli::mil(0)),
            )
        }),
    decreases n,
{
    let all = prose::text_upto(pen, chars, n).1->Ok_0.0.marks;
    let before = prose::text_upto(pen, chars, n - 1).1->Ok_0.0.marks;
    let (b, x) = character(pen, chars, i);
    if i == n - 1 {
        before.len() as int
    } else {
        let first = law_no_character_is_left_out(pen, chars, i, n - 1);
        assert forall|k: int|
            #![trigger b.marks[k]]
            0 <= k < b.marks.len() implies placing::is_placed(
            all[first + k],
            b.marks[k],
            |p: (Milli, Milli)| (p.0 + x, p.1 + Milli::mil(0)),
        ) by {
            assert(all[first + k] == before[first + k]);
        }
        first
    }
}

proof fn lemma_clear_place_is_further(
    word: Seq<Letter<Milli>>,
    b: BoxView<Milli>,
    x: Milli,
    steps: nat,
)
    ensures
        x.0 <= prose::clear_place(word, b, x, steps).0,
    decreases steps,
{
    if steps > 0 && prose::crowds(word, b, x) {
        lemma_clear_place_is_further(word, b, x + Milli::mil(500), (steps - 1) as nat);
    }
}

/// The bodies of two neighbouring letters of a word stand at least six and a half pixels
/// apart, and in their order.
pub proof fn law_bodies_of_letters_keep_apart(pen: Pen<Milli>, chars: Seq<char>, i: int)
    requires
        0 < i < chars.len(),
        is_latin(chars[i - 1]) && is_latin(chars[i]),
        prose::text_upto(pen, chars, i + 1).1 is Ok,
        ({
            let (a, x) = character(pen, chars, i - 1);
            let b = character(pen, chars, i).0;
            &&& strokes::body_extent(a.marks) matches Some((_, r)) && arithmetic::within(
                r,
                1_000_000_000,
            )
            &&& strokes::body_extent(b.marks) matches Some((l, _)) && arithmetic::within(
                l,
                1_000_000_000,
            )
            &&& arithmetic::within(x, 1_000_000_000)
        }),
    ensures
        ({
            let (a, x) = character(pen, chars, i - 1);
            let (b, y) = character(pen, chars, i);
            x.0 + (strokes::body_extent(a.marks)->0).1.0 + 6_500 <= y.0 + (strokes::body_extent(
                b.marks,
            )->0).0.0
        }),
{
    law_words_continue_with_their_next_letter(pen, chars, i);
    law_text_grows_by_one_character(pen, chars, i);
    law_text_grows_by_one_character(pen, chars, i - 1);
    let (a, x) = character(pen, chars, i - 1);
    let (b, y) = character(pen, chars, i);
    let word = prose::text_upto(pen, chars, i).1->Ok_0.1;
    assert(word.last() == (a, x));
    assert(prose::text_upto(pen, chars, i + 1).1->Ok_0.1.last() == (b, y));
    let (_, right) = strokes::body_extent(a.marks)->0;
    let (left, _) = strokes::body_extent(b.marks)->0;
    lemma_clear_place_is_further(word, b, x + right + Milli(6_500) - left, usize::MAX as nat);
}

} // verus!
