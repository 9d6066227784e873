//! Running text inside a formula.
use crate::distance;
use crate::glyphs;
use crate::node;
use crate::pen::{Layout, Pen, Written};
use crate::profile::RenderError;
use crate::scalar::Scalar;
use crate::strokes;
use crate::strokes::{Box2, BoxView};
use crate::words;
use crate::words::{is_digit, is_letter};
use vstd::prelude::*;

verus! {

/// The space between the bodies of two letters, in thousandths of a pixel.
pub const TEXT_GAP: i32 = 6_500;

/// The width of a space, in thousandths of a pixel.
pub const WORD_GAP: i32 = 24_000;

/// A letter and where it stands.
pub type Letter<S> = (BoxView<S>, S);

/// One character as it is written next.
pub open spec fn char_written<S: Scalar>(pen: Pen<S>, c: char) -> Written<S> {
    if c == ' ' {
        (pen, Ok(strokes::bare_box(S::mil(WORD_GAP as int), S::mil(0), S::mil(0))))
    } else if c == '%' {
        glyphs::glyph_written(pen, "\\%"@)
    } else {
        glyphs::glyph_written(pen, seq![c])
    }
}

/// Whether a letter at `x` would touch one that stands before it.
pub open spec fn touches<S: Scalar>(earlier: Letter<S>, b: BoxView<S>, x: S) -> bool {
    let gap = S::mil(TEXT_GAP as int);
    &&& x <= earlier.1 + earlier.0.width + gap
    &&& distance::ink_is_close(earlier.0.marks, b.marks, x - earlier.1, gap)
}

/// Whether a letter at `x` would touch any letter of the word.
pub open spec fn crowds<S: Scalar>(word: Seq<Letter<S>>, b: BoxView<S>, x: S) -> bool {
    exists|k: int| 0 <= k < word.len() && touches(#[trigger] word[k], b, x)
}

/// The first place from `x` on, in steps of half a pixel, where the letter touches
/// nothing. No more than `steps` are tried.
pub open spec fn clear_place<S: Scalar>(
    word: Seq<Letter<S>>,
    b: BoxView<S>,
    x: S,
    steps: nat,
) -> S
    decreases steps,
{
    if steps == 0 || !crowds(word, b, x) {
        x
    } else {
        clear_place(word, b, x + S::mil(500), (steps - 1) as nat)
    }
}

/// Whether character `i` is a point between two digits, or the digit after one.
pub open spec fn is_at_decimal_point(chars: Seq<char>, i: int) -> bool {
    ||| {
        &&& chars[i] == '.'
        &&& 0 < i < chars.len() - 1
        &&& words::is_digit_char(chars[i - 1])
        &&& words::is_digit_char(chars[i + 1])
    }
    ||| {
        &&& words::is_digit_char(chars[i])
        &&& i >= 2
        &&& chars[i - 1] == '.'
        &&& words::is_digit_char(chars[i - 2])
    }
}

/// Where character `i` would stand by the widths alone: after the text before it, with
/// extra space in numbers.
pub open spec fn place_by_width<S: Scalar>(width: S, chars: Seq<char>, i: int) -> S {
    let after_digit = if words::is_digit_char(chars[i]) && i > 0 && words::is_digit_char(
        chars[i - 1],
    ) {
        width + S::mil(node::DIGIT_GAP as int)
    } else {
        width
    };
    if is_at_decimal_point(chars, i) {
        after_digit + S::mil(node::DECIMAL_POINT_GAP as int)
    } else {
        after_digit
    }
}

/// Where character `i` stands. A letter within a word goes by the bodies of the letters
/// and then clear of all ink.
pub open spec fn place_of<S: Scalar>(
    width: S,
    chars: Seq<char>,
    i: int,
    word: Seq<Letter<S>>,
    b: BoxView<S>,
) -> S {
    let plain = place_by_width(width, chars, i);
    if !words::is_letter_char(chars[i]) || word.len() == 0 {
        plain
    } else {
        let prior = word.last();
        match (strokes::body_extent(prior.0.marks), strokes::body_extent(b.marks)) {
            (Some((_, prior_right)), Some((current_left, _))) => clear_place(
                word,
                b,
                prior.1 + prior_right + S::mil(TEXT_GAP as int) - current_left,
                usize::MAX as nat,
            ),
            _ => plain,
        }
    }
}

/// The text up to character `i` with that character added at `x`.
pub open spec fn text_extended<S: Scalar>(out: BoxView<S>, b: BoxView<S>, x: S) -> BoxView<S> {
    BoxView {
        width: out.width.larger(x + b.width),
        above: out.above.larger(b.above),
        below: out.below.larger(b.below),
        marks: out.marks + strokes::marks_moved(b.marks, x, S::mil(0)),
        ..out
    }
}

/// The first `n` characters as they are written, and the letters of the word that they
/// end with.
pub open spec fn text_upto<S: Scalar>(pen: Pen<S>, chars: Seq<char>, n: int) -> (
    Pen<S>,
    Result<(BoxView<S>, Seq<Letter<S>>), Seq<char>>,
)
    decreases n,
{
    if n <= 0 {
        (pen, Ok((strokes::empty_box(), Seq::empty())))
    } else {
        let (before, r) = text_upto(pen, chars, n - 1);
        match r {
            Err(e) => (before, Err(e)),
            Ok((out, word)) => {
                let c = chars[n - 1];
                let (after, r) = char_written(before, c);
                match r {
                    Err(e) => (after, Err(e)),
                    Ok(b) => {
                        let x = place_of(out.width, chars, n - 1, word, b);
                        (
                            after,
                            Ok(
                                (
                                    text_extended(out, b, x),
                                    if words::is_letter_char(c) {
                                        word.push((b, x))
                                    } else {
                                        Seq::empty()
                                    },
                                ),
                            ),
                        )
                    },
                }
            },
        }
    }
}

/// Running text as it is written next.
pub open spec fn text_written<S: Scalar>(pen: Pen<S>, chars: Seq<char>) -> Written<S> {
    let (after, r) = text_upto(pen, chars, chars.len() as int);
    (
        after,
        match r {
            Ok((out, _)) => Ok(out),
            Err(e) => Err(e),
        },
    )
}

/// What a word holds.
spec fn letters_of<S>(word: Seq<(Box2<S>, S)>) -> Seq<Letter<S>> {
    Seq::new(word.len(), |i: int| (word[i].0@, word[i].1))
}

/// A text that fails early fails.
proof fn lemma_early_fault<S: Scalar>(pen: Pen<S>, chars: Seq<char>, n: int, m: int)
    requires
        0 <= n <= m,
        text_upto(pen, chars, n).1 is Err,
    ensures
        text_upto(pen, chars, m).0 == text_upto(pen, chars, n).0,
        text_upto(pen, chars, m).1 == text_upto(pen, chars, n).1,
    decreases m - n,
{
    if n < m {
        lemma_early_fault(pen, chars, n, m - 1);
    }
}

fn chars_of(text: &str) -> (r: Vec<char>)
    ensures
        r@ == text@,
{
    let mut chars: Vec<char> = Vec::new();
    for c in rest: text.chars()
        invariant
            rest.seq() == text@,
            chars@ == text@.take(rest.index()),
    {
        chars.push(c);
        proof {
            assert(text@.take(rest.index() + 1) =~= text@.take(rest.index()).push(c));
        }
    }
    proof {
        assert(text@.take(text@.len() as int) =~= text@);
    }
    chars
}

fn is_crowded<S: Scalar>(word: &Vec<(Box2<S>, S)>, b: &Box2<S>, x: S) -> (r: bool)
    ensures
        r == crowds(letters_of(word@), b@, x),
{
    let gap = S::milli(TEXT_GAP);
    let ghost letters = letters_of(word@);
    let mut k: usize = 0;
    while k < word.len()
        invariant
            k <= word.len(),
            gap == S::mil(TEXT_GAP as int),
            letters == letters_of(word@),
            forall|j: int| 0 <= j < k ==> !touches(#[trigger] letters[j], b@, x),
        decreases word.len() - k,
    {
        let earlier = &word[k].0;
        let earlier_x = word[k].1;
        if x.le(earlier_x.plus(earlier.width).plus(gap)) && distance::ink_is_too_close(
            &earlier.marks,
            &b.marks,
            x.minus(earlier_x),
            gap,
        ) {
            assert(touches(letters[k as int], b@, x));
            return true;
        }
        assert(!touches(letters[k as int], b@, x));
        k += 1;
    }
    false
}

/// Moves a letter right until it is clear of the word.
fn find_clear_place<S: Scalar>(word: &Vec<(Box2<S>, S)>, b: &Box2<S>, start: S) -> (r: S)
    ensures
        r == clear_place(letters_of(word@), b@, start, usize::MAX as nat),
{
    let mut x = start;
    let mut steps: usize = usize::MAX;
    while steps > 0 && is_crowded(word, b, x)
        invariant
            clear_place(letters_of(word@), b@, start, usize::MAX as nat) == clear_place(
                letters_of(word@),
                b@,
                x,
                steps as nat,
            ),
        decreases steps,
    {
        x = x.plus(S::milli(500));
        steps -= 1;
    }
    x
}

fn at_decimal_point(chars: &Vec<char>, i: usize) -> (r: bool)
    requires
        i < chars.len(),
    ensures
        r == is_at_decimal_point(chars@, i as int),
{
    (chars[i] == '.' && i > 0 && i < chars.len() - 1 && is_digit(chars[i - 1]) && is_digit(
        chars[i + 1],
    )) || (is_digit(chars[i]) && i >= 2 && chars[i - 1] == '.' && is_digit(chars[i - 2]))
}

fn find_place<S: Scalar>(
    width: S,
    chars: &Vec<char>,
    i: usize,
    word: &Vec<(Box2<S>, S)>,
    b: &Box2<S>,
) -> (r: S)
    requires
        i < chars.len(),
    ensures
        r == place_of(width, chars@, i as int, letters_of(word@), b@),
{
    let mut x = width;
    if is_digit(chars[i]) && i > 0 && is_digit(chars[i - 1]) {
        x = x.plus(S::milli(node::DIGIT_GAP));
    }
    if at_decimal_point(chars, i) {
        x = x.plus(S::milli(node::DECIMAL_POINT_GAP));
    }
    if is_letter(chars[i]) && word.len() > 0 {
        let prior = &word[word.len() - 1];
        proof {
            assert(letters_of(word@).last() == (prior.0@, prior.1));
        }
        if let (Some((_, prior_right)), Some((current_left, _))) = (
            strokes::body_bounds(&prior.0.marks),
            strokes::body_bounds(&b.marks),
        ) {
            // Check the full strokes as well as the letter bodies: an
            // overhanging stroke can otherwise touch any earlier letter.
            x = find_clear_place(
                word,
                b,
                prior.1.plus(prior_right).plus(S::milli(TEXT_GAP)).minus(current_left),
            );
        }
    }
    x
}

impl<'a, S: Scalar> Layout<'a, S> {
    /// Writes one character of running text.
    fn character(&mut self, text: &str, i: usize) -> (r: Result<Box2<S>, RenderError>)
        requires
            i < text@.len() <= usize::MAX,
        ensures
            final(self)@ == char_written(old(self)@, text@[i as int]).0,
            final(self).hand == old(self).hand,
            match r {
                Ok(b) => char_written(old(self)@, text@[i as int]).1 == Ok::<BoxView<S>, Seq<char>>(
                    b@,
                ) && strokes::marks_are_sound(b@.marks),
                Err(e) => char_written(old(self)@, text@[i as int]).1 == Err::<
                    BoxView<S>,
                    Seq<char>,
                >(e.0@),
            },
    {
        let c = text.get_char(i);
        if c == ' ' {
            return Ok(Box2::bare(S::milli(WORD_GAP), S::milli(0), S::milli(0)));
        }
        if c == '%' {
            return self.glyph("\\%");
        }
        let key = text.substring_char(i, i + 1);
        proof {
            assert(key@ =~= seq![c]);
        }
        self.glyph(key)
    }

    /// Writes running text.
    pub fn text(&mut self, text: &str) -> (r: Result<Box2<S>, RenderError>)
        ensures
            final(self)@ == text_written(old(self)@, text@).0,
            final(self).hand == old(self).hand,
            match r {
                Ok(b) => text_written(old(self)@, text@).1 == Ok::<BoxView<S>, Seq<char>>(b@)
                    && strokes::marks_are_sound(b@.marks),
                Err(e) => text_written(old(self)@, text@).1 == Err::<BoxView<S>, Seq<char>>(e.0@),
            },
    {
        let chars = chars_of(text);
        let mut out: Box2<S> = Box2::empty();
        let mut word: Vec<(Box2<S>, S)> = Vec::new();
        let mut i: usize = 0;
        proof {
            assert(letters_of(word@) =~= Seq::empty());
        }
        while i < chars.len()
            invariant
                i <= chars.len(),
                chars@ == text@,
                self.hand == old(self).hand,
                text_upto(old(self)@, text@, i as int) == (
                    self@,
                    Ok::<(BoxView<S>, Seq<Letter<S>>), Seq<char>>((out@, letters_of(word@))),
                ),
                strokes::marks_are_sound(out@.marks),
            decreases chars.len() - i,
        {
            let b = match self.character(text, i) {
                Ok(b) => b,
                Err(e) => {
                    proof {
                        lemma_early_fault(old(self)@, text@, i + 1, text@.len() as int);
                    }
                    return Err(e);
                },
            };
            out.above = out.above.max(b.above);
            out.below = out.below.max(b.below);
            let x = find_place(out.width, &chars, i, &word, &b);
            out.width = out.width.max(x.plus(b.width));
            let ghost before = letters_of(word@);
            if is_letter(chars[i]) {
                word.push((b.clone(), x));
                proof {
                    assert(letters_of(word@) =~= before.push((b@, x)));
                }
            } else {
                word.clear();
                proof {
                    assert(letters_of(word@) =~= Seq::empty());
                }
            }
            out.add(b.translated(x, S::milli(0)));
            i += 1;
        }
        Ok(out)
    }
}

} // verus!
