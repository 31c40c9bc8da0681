//! The deterministic stream of 64-bit words that matrices are drawn from.
//!
//! The stream is xoshiro256++ as implemented by `kaspa_pow`; this module
//! states what that generator holds and what each draw returns.

use kaspa_pow::xoshiro::XoShiRo256PlusPlus;
use vstd::prelude::*;

verus! {

#[verifier::external_type_specification]
#[verifier::external_body]
pub struct ExXoShiRo256PlusPlus(XoShiRo256PlusPlus);

/// The four state words `s0, s1, s2, s3` that a generator holds, in that
/// order.
pub uninterp spec fn generator_words(generator: XoShiRo256PlusPlus) -> Seq<u64>;

/// The little-endian value of the eight bytes of `bytes` that start at `at`.
pub open spec fn le_word(bytes: Seq<u8>, at: int) -> u64 {
    (bytes[at] as int + bytes[at + 1] as int * 0x100 + bytes[at + 2] as int * 0x1_0000
        + bytes[at + 3] as int * 0x100_0000 + bytes[at + 4] as int * 0x1_0000_0000
        + bytes[at + 5] as int * 0x100_0000_0000 + bytes[at + 6] as int * 0x1_0000_0000_0000
        + bytes[at + 7] as int * 0x100_0000_0000_0000) as u64
}

/// The state that a 32-byte seed stands for: its four little-endian words.
pub open spec fn seed_words(seed: Seq<u8>) -> Seq<u64> {
    seq![le_word(seed, 0), le_word(seed, 8), le_word(seed, 16), le_word(seed, 24)]
}

/// `x` rotated left by `k` bits, for `0 < k < 64`.
pub open spec fn rotl(x: u64, k: u64) -> u64 {
    (x << k) | (x >> ((64 - k) as u64))
}

/// The sum of `a` and `b` modulo 2^64.
pub open spec fn add64(a: u64, b: u64) -> u64 {
    ((a as int + b as int) % 0x1_0000_0000_0000_0000) as u64
}

/// The word that a generator in state `s` returns next.
pub open spec fn output(s: Seq<u64>) -> u64 {
    add64(s[0], rotl(add64(s[0], s[3]), 23))
}

/// The state that follows `s` after one draw.
pub open spec fn advance(s: Seq<u64>) -> Seq<u64> {
    let t = s[1] << 17u64;
    let s2 = s[2] ^ s[0];
    let s3 = s[3] ^ s[1];
    let s1 = s[1] ^ s2;
    let s0 = s[0] ^ s3;
    seq![s0, s1, s2 ^ t, rotl(s3, 45)]
}

/// The state reached from `s` after `n` draws.
pub open spec fn state_after(s: Seq<u64>, n: nat) -> Seq<u64>
    decreases n,
{
    if n == 0 {
        s
    } else {
        advance(state_after(s, (n - 1) as nat))
    }
}

/// The word returned by draw number `n` (counting from zero) of a generator
/// that starts in state `s`.
pub open spec fn word_at(s: Seq<u64>, n: nat) -> u64 {
    output(state_after(s, n))
}

/// `XoShiRo256PlusPlus::new` on the digest made of `seed`'s bytes: the
/// generator starts with the seed's four little-endian words as its state.
#[verifier::external_body]
pub(crate) fn seeded(seed: &[u8; 32]) -> (generator: XoShiRo256PlusPlus)
    ensures
        generator_words(generator) == seed_words(seed@),
{
    XoShiRo256PlusPlus::new(kaspa_hashes::Hash::from_bytes(*seed))
}

/// `XoShiRo256PlusPlus::u64`: returns the output word of the current state
/// and moves the generator to the next state.
#[verifier::external_body]
pub(crate) fn next_word(generator: &mut XoShiRo256PlusPlus) -> (word: u64)
    ensures
        word == output(generator_words(*old(generator))),
        generator_words(*final(generator)) == advance(generator_words(*old(generator))),
{
    generator.u64()
}

} // verus!
