//! Reproducible variation: from a seed, a key and a count to bits that look random.
use crate::scalar::Scalar;
use vstd::prelude::*;

verus! {

pub const MIX_FIRST: u64 = 0xbf58_476d_1ce4_e5b9;

pub const MIX_SECOND: u64 = 0x94d0_49bb_1331_11eb;

pub const KEY_START: u64 = 0xcbf2_9ce4_8422_2325;

pub const KEY_STEP: u64 = 0x0000_0100_0000_01b3;

pub const SEED_STEP: u64 = 0x9e37_79b9_7f4a_7c15;

pub const INDEX_STEP: u64 = 0x2545_f491_4f6c_dd1d;

/// Two multiplications, each between two shifts that are folded back in.
pub open spec fn mixed(bits: u64) -> u64 {
    let a = (bits ^ (bits >> 30)).wrapping_mul(MIX_FIRST);
    let b = (a ^ (a >> 27)).wrapping_mul(MIX_SECOND);
    b ^ (b >> 31)
}

/// The digest of the bytes of a key: each byte is folded in and then multiplied through.
pub open spec fn key_digest(bytes: Seq<u8>) -> u64
    decreases bytes.len(),
{
    if bytes.len() == 0 {
        KEY_START
    } else {
        (key_digest(bytes.drop_last()) ^ (bytes.last() as u64)).wrapping_mul(KEY_STEP)
    }
}

/// The bits of one instance of a key.
pub open spec fn bits_of_instance(seed: u64, key: Seq<char>, index: usize) -> u64 {
    mixed(
        key_digest(vstd::utf8::encode_utf8(key)) ^ seed.wrapping_mul(SEED_STEP) ^ (
        index as u64).wrapping_add(1).wrapping_mul(INDEX_STEP),
    )
}

/// The bits turned left, those that leave at the top coming back at the bottom.
pub open spec fn turned(bits: u64, amount: u64) -> u64 {
    (bits << amount) | (bits >> ((64 - amount) as u64))
}

/// The bits turned and mixed once more: an independent draw from the same bits.
pub open spec fn redrawn(bits: u64, amount: u64) -> u64 {
    mixed(turned(bits, amount))
}

/// The top twenty-four bits as a number from zero up to, not including, one.
pub open spec fn unit_of<S: Scalar>(bits: u64) -> S {
    S::counted((bits >> 40) as int) / S::counted(0x100_0000)
}

/// The same draw from minus one up to, not including, one.
pub open spec fn signed_unit_of<S: Scalar>(bits: u64) -> S {
    unit_of::<S>(bits) * S::mil(2_000) - S::mil(1_000)
}

/// Mixes bits so that every bit of the result depends on all of them.
pub fn mix64(bits: u64) -> (r: u64)
    ensures
        r == mixed(bits),
{
    let mut bits: u64 = bits;
    bits = bits ^ (bits >> 30);
    bits = bits.wrapping_mul(MIX_FIRST);
    bits = bits ^ (bits >> 27);
    bits = bits.wrapping_mul(MIX_SECOND);
    bits = bits ^ (bits >> 31);
    bits
}

/// The bits from which one instance of a key takes its draws.
pub fn instance_bits(seed: u64, key: &str, index: usize) -> (r: u64)
    ensures
        r == bits_of_instance(seed, key@, index),
{
    let bytes = key.as_bytes();
    let mut bits: u64 = KEY_START;
    let mut i: usize = 0;
    while i < bytes.len()
        invariant
            i <= bytes.len(),
            bits == key_digest(bytes@.take(i as int)),
        decreases bytes.len() - i,
    {
        bits = bits ^ (bytes[i] as u64);
        bits = bits.wrapping_mul(KEY_STEP);
        proof {
            assert(bytes@.take(i + 1).drop_last() =~= bytes@.take(i as int));
        }
        i += 1;
    }
    proof {
        assert(bytes@.take(i as int) =~= bytes@);
    }
    bits = bits ^ seed.wrapping_mul(SEED_STEP);
    bits = bits ^ (index as u64).wrapping_add(1).wrapping_mul(INDEX_STEP);
    mix64(bits)
}

/// One more draw from the same bits.
pub fn redraw(bits: u64, amount: u64) -> (r: u64)
    requires
        0 < amount < 64,
    ensures
        r == redrawn(bits, amount),
{
    mix64((bits << amount) | (bits >> (64 - amount)))
}

/// A draw from zero up to, not including, one.
pub fn unit_interval<S: Scalar>(bits: u64) -> (r: S)
    ensures
        r == unit_of::<S>(bits),
{
    proof {
        law_draws_are_below_one(bits);
    }
    S::whole((bits >> 40) as usize).over(S::whole(0x100_0000))
}

/// A draw from minus one up to, not including, one.
pub fn unit_signed<S: Scalar>(bits: u64) -> (r: S)
    ensures
        r == signed_unit_of::<S>(bits),
{
    unit_interval::<S>(bits).times(S::milli(2_000)).minus(S::milli(1_000))
}

/// A multiplication that has an inverse loses nothing.
proof fn lemma_multiplication_is_injective(a: u64, b: u64, factor: u64, inverse: u64)
    requires
        (factor as int * inverse as int) % 0x1_0000_0000_0000_0000 == 1,
        a.wrapping_mul(factor) == b.wrapping_mul(factor),
    ensures
        a == b,
{
    lemma_undone_multiplication(a, factor, inverse);
    lemma_undone_multiplication(b, factor, inverse);
}

proof fn lemma_undone_multiplication(a: u64, factor: u64, inverse: u64)
    requires
        (factor as int * inverse as int) % 0x1_0000_0000_0000_0000 == 1,
    ensures
        a.wrapping_mul(factor).wrapping_mul(inverse) == a,
{
    let m: int = 0x1_0000_0000_0000_0000;
    let (x, f, g) = (a as int, factor as int, inverse as int);
    vstd::arithmetic::div_mod::lemma_mul_mod_noop_left(x * f, g, m);
    vstd::arithmetic::mul::lemma_mul_is_associative(x, f, g);
    vstd::arithmetic::div_mod::lemma_mul_mod_noop_right(x, f * g, m);
    vstd::arithmetic::div_mod::lemma_small_mod(a as nat, m as nat);
    assert(x * ((f * g) % m) == x) by (nonlinear_arith)
        requires
            (f * g) % m == 1,
    ;
}

/// Mixing loses nothing: different bits stay different.
pub proof fn law_mixing_is_injective(a: u64, b: u64)
    requires
        mixed(a) == mixed(b),
    ensures
        a == b,
{
    let (a1, b1) = (a ^ (a >> 30), b ^ (b >> 30));
    let (a2, b2) = (a1.wrapping_mul(MIX_FIRST), b1.wrapping_mul(MIX_FIRST));
    let (a3, b3) = (a2 ^ (a2 >> 27), b2 ^ (b2 >> 27));
    let (a4, b4) = (a3.wrapping_mul(MIX_SECOND), b3.wrapping_mul(MIX_SECOND));
    assert(a4 ^ (a4 >> 31) == b4 ^ (b4 >> 31) ==> a4 == b4) by (bit_vector);
    lemma_multiplication_is_injective(a3, b3, MIX_SECOND, 0x3196_42b2_d24d_8ec3);
    assert(a2 ^ (a2 >> 27) == b2 ^ (b2 >> 27) ==> a2 == b2) by (bit_vector);
    lemma_multiplication_is_injective(a1, b1, MIX_FIRST, 0x96de_1b17_3f11_9089);
    assert(a ^ (a >> 30) == b ^ (b >> 30) ==> a == b) by (bit_vector);
}

/// Two seeds never give one instance the same bits.
pub proof fn law_seeds_give_different_bits(seed: u64, other: u64, key: Seq<char>, index: usize)
    requires
        seed != other,
    ensures
        bits_of_instance(seed, key, index) != bits_of_instance(other, key, index),
{
    let k = key_digest(vstd::utf8::encode_utf8(key));
    let i = (index as u64).wrapping_add(1).wrapping_mul(INDEX_STEP);
    let (s, o) = (seed.wrapping_mul(SEED_STEP), other.wrapping_mul(SEED_STEP));
    if bits_of_instance(seed, key, index) == bits_of_instance(other, key, index) {
        law_mixing_is_injective(k ^ s ^ i, k ^ o ^ i);
        assert(k ^ s ^ i == k ^ o ^ i ==> s == o) by (bit_vector);
        lemma_multiplication_is_injective(seed, other, SEED_STEP, 0xf1de_83e1_9937_733d);
    }
}

/// Two occurrences of a key never get the same bits.
pub proof fn law_occurrences_get_different_bits(seed: u64, key: Seq<char>, index: usize, other: usize)
    requires
        index != other,
    ensures
        bits_of_instance(seed, key, index) != bits_of_instance(seed, key, other),
{
    let k = key_digest(vstd::utf8::encode_utf8(key));
    let s = seed.wrapping_mul(SEED_STEP);
    let (i1, o1) = ((index as u64).wrapping_add(1), (other as u64).wrapping_add(1));
    let (i, o) = (i1.wrapping_mul(INDEX_STEP), o1.wrapping_mul(INDEX_STEP));
    if bits_of_instance(seed, key, index) == bits_of_instance(seed, key, other) {
        law_mixing_is_injective(k ^ s ^ i, k ^ s ^ o);
        assert(k ^ s ^ i == k ^ s ^ o ==> i == o) by (bit_vector);
        lemma_multiplication_is_injective(i1, o1, INDEX_STEP, 0x5907_1d96_d81e_cd35);
    }
}

/// A draw stays within the unit interval: its numerator is below its denominator.
pub proof fn law_draws_are_below_one(bits: u64)
    ensures
        (bits >> 40) < 0x100_0000,
{
    assert((bits >> 40) < 0x100_0000) by (bit_vector);
}

} // verus!
