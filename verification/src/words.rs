//! Comparing keys and classifying characters.
use vstd::prelude::*;
use vstd::string::StringSliceAdditionalSpecFns;

verus! {

/// Whether `c` is one of the ten decimal digits.
pub open spec fn is_digit_char(c: char) -> bool {
    '0' <= c && c <= '9'
}

/// Whether `c` is one of the unaccented Latin letters.
pub open spec fn is_letter_char(c: char) -> bool {
    ('a' <= c && c <= 'z') || ('A' <= c && c <= 'Z')
}

/// Whether `key` is a single digit.
pub open spec fn is_digit_key(key: Seq<char>) -> bool {
    key.len() == 1 && is_digit_char(key[0])
}

/// Whether `key` is a single digit or unaccented Latin letter.
pub open spec fn is_alphanumeric_key(key: Seq<char>) -> bool {
    key.len() == 1 && (is_digit_char(key[0]) || is_letter_char(key[0]))
}

/// Whether a character is a decimal digit.
pub fn is_digit(c: char) -> (r: bool)
    ensures
        r == is_digit_char(c),
{
    '0' <= c && c <= '9'
}

/// Whether a character is an unaccented Latin letter.
pub fn is_letter(c: char) -> (r: bool)
    ensures
        r == is_letter_char(c),
{
    ('a' <= c && c <= 'z') || ('A' <= c && c <= 'Z')
}

/// Whether the two texts are equal.
pub fn same_text(a: &str, b: &str) -> (r: bool)
    ensures
        r == (a@ == b@),
{
    let x = a.as_bytes();
    let y = b.as_bytes();
    if x.len() != y.len() {
        return false;
    }
    let mut i: usize = 0;
    while i < x.len()
        invariant
            x@ == a.spec_bytes(),
            y@ == b.spec_bytes(),
            x.len() == y.len(),
            i <= x.len(),
            forall|j: int| 0 <= j < i ==> x@[j] == y@[j],
        decreases x.len() - i,
    {
        if x[i] != y[i] {
            return false;
        }
        i += 1;
    }
    proof {
        assert(x@ =~= y@);
        vstd::utf8::encode_utf8_decode_utf8(a@);
        vstd::utf8::encode_utf8_decode_utf8(b@);
    }
    true
}

/// Whether a key is a single digit.
pub fn single_digit(key: &str) -> (r: bool)
    ensures
        r == is_digit_key(key@),
{
    key.unicode_len() == 1 && is_digit(key.get_char(0))
}

/// Whether a key is a single digit or unaccented Latin letter.
pub fn single_alphanumeric(key: &str) -> (r: bool)
    ensures
        r == is_alphanumeric_key(key@),
{
    key.unicode_len() == 1 && (is_digit(key.get_char(0)) || is_letter(key.get_char(0)))
}

/// Whether `key` begins with `prefix`.
pub open spec fn begins_with(key: Seq<char>, prefix: Seq<char>) -> bool {
    prefix.len() <= key.len() && key.subrange(0, prefix.len() as int) == prefix
}

/// Whether a key begins with a prefix.
pub fn starts_with(key: &str, prefix: &str) -> (r: bool)
    ensures
        r == begins_with(key@, prefix@),
{
    let length = prefix.unicode_len();
    length <= key.unicode_len() && same_text(key.substring_char(0, length), prefix)
}

/// The three texts one after the other.
pub fn joined(before: &str, middle: &str, after: &str) -> (r: String)
    ensures
        r@ == before@ + middle@ + after@,
{
    let mut text: String = before.to_owned();
    text.append(middle);
    text.append(after);
    text
}

} // verus!
