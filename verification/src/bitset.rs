//! Facts about single bits of 64-bit words, used by the dense "touched" and "received" maps.
use vstd::prelude::*;

verus! {

/// Whether bit `bit` of `word` is set.
pub open spec fn word_has(word: u64, bit: u64) -> bool {
    word & (1u64 << bit) != 0
}

/// Whether bit `s` of the word sequence `words` is set.
pub open spec fn marked_in(words: Seq<u64>, s: nat) -> bool {
    &&& s / 64 < words.len()
    &&& word_has(words[(s / 64) as int], (s % 64) as u64)
}

/// Setting bit `b` sets exactly that bit.
pub proof fn lemma_set_bit(word: u64, b: u64, c: u64)
    requires
        b < 64,
        c < 64,
    ensures
        word_has(word | (1u64 << b), c) == (c == b || word_has(word, c)),
{
    assert((word | (1u64 << b)) & (1u64 << c) != 0 <==> (c == b || word & (1u64 << c) != 0))
        by (bit_vector)
        requires
            b < 64,
            c < 64,
    ;
}

/// Clearing bit `b` clears exactly that bit.
pub proof fn lemma_clear_bit(word: u64, b: u64, c: u64)
    requires
        b < 64,
        c < 64,
    ensures
        word_has(word & !(1u64 << b), c) == (c != b && word_has(word, c)),
{
    assert((word & !(1u64 << b)) & (1u64 << c) != 0 <==> (c != b && word & (1u64 << c) != 0))
        by (bit_vector)
        requires
            b < 64,
            c < 64,
    ;
}

/// No bit of the zero word is set.
pub proof fn lemma_zero_word(c: u64)
    requires
        c < 64,
    ensures
        !word_has(0u64, c),
{
    assert(0u64 & (1u64 << c) == 0) by (bit_vector);
}

/// Sets bit `s` of the word sequence `words`.
pub fn mark_bit(words: &mut Vec<u64>, s: usize)
    requires
        s / 64 < old(words)@.len(),
    ensures
        final(words)@.len() == old(words)@.len(),
        forall|t: nat| #[trigger] marked_in(final(words)@, t) == (t == s || marked_in(old(words)@, t)),
{
    let word_index = s / 64;
    let bit = (s % 64) as u64;
    let word = words[word_index];
    words.set(word_index, word | (1u64 << bit));
    proof {
        assert forall|t: nat| #[trigger] marked_in(words@, t) == (t == s || marked_in(old(words)@, t)) by {
            if t / 64 == word_index as nat {
                lemma_set_bit(word, bit, (t % 64) as u64);
            }
        }
    }
}

} // verus!
