use vstd::prelude::*;
use crate::counting::{count_true, lemma_count_true_split, lemma_count_true_ext};

verus! {

/// Whether bit `b` of `word` is set, counting from the least significant.
pub open spec fn bit_at(word: u64, b: u64) -> bool {
    (word >> b) & 1u64 == 1u64
}

/// The number of ones in the binary representation of `word`.
pub open spec fn ones_in(word: u64) -> nat {
    count_true(64, |b: int| bit_at(word, b as u64))
}

/// `u64::count_ones`, which its documentation describes as the number of ones
/// in the binary representation of the word.
#[verifier::external_body]
pub(crate) fn ones_in_word(word: u64) -> (n: u32)
    ensures
        n == ones_in(word),
{
    word.count_ones()
}

/// A word whose bits are exactly `f` at positions `64 * k` to `64 * k + 63`
/// adds its population to the count there.
pub proof fn lemma_count_word(k: nat, word: u64, f: spec_fn(int) -> bool)
    requires
        forall|b: u64| #![trigger bit_at(word, b)] b < 64 ==> bit_at(word, b) == f(k * 64 + b),
    ensures
        count_true(k * 64 + 64, f) == count_true(k * 64, f) + ones_in(word),
{
    lemma_count_true_split(k * 64, 64, f);
    let g = |j: int| f(k * 64 + j);
    let h = |b: int| bit_at(word, b as u64);
    assert forall|i: int| 0 <= i < 64 implies #[trigger] g(i) == h(i) by {
        assert(bit_at(word, i as u64) == f(k * 64 + (i as u64)));
    }
    lemma_count_true_ext(64, g, h);
}

pub proof fn lemma_zero_bits(b: u64)
    by (bit_vector)
    ensures
        !bit_at(0u64, b),
{
}

pub proof fn lemma_bit_set(word: u64, k: u64, b: u64)
    by (bit_vector)
    requires
        k < 64,
        b < 64,
    ensures
        bit_at(word | (1u64 << k), b) == (b == k || bit_at(word, b)),
{
}

pub proof fn lemma_bit_clear(word: u64, k: u64, b: u64)
    by (bit_vector)
    requires
        k < 64,
        b < 64,
    ensures
        bit_at(word & !(1u64 << k), b) == (b != k && bit_at(word, b)),
{
}

/// Or-ing a zero or a one in at position `k` touches no other bit.
pub proof fn lemma_bit_or_shifted(word: u64, c: u64, k: u64, b: u64)
    by (bit_vector)
    requires
        k < 64,
        b < 64,
        c <= 1,
    ensures
        bit_at(word | (c << k), b) == (bit_at(word, b) || (b == k && c == 1)),
{
}

/// A word funnelled from two neighbours: the top of `low` then the bottom of `high`.
pub proof fn lemma_bit_funnel(low: u64, high: u64, s: u64, b: u64)
    by (bit_vector)
    requires
        0 < s < 64,
        b < 64,
    ensures
        bit_at((low >> s) | (high << ((64 - s) as u64)), b) == if b < 64 - s {
            bit_at(low, (b + s) as u64)
        } else {
            bit_at(high, (b + s - 64) as u64)
        },
{
}

pub proof fn lemma_bit_masked_xor(a: u64, t: u64, e: u64, f: u64, b: u64)
    by (bit_vector)
    requires
        b < 64,
    ensures
        bit_at((a ^ t) & e & f, b) == ((bit_at(a, b) != bit_at(t, b)) && bit_at(e, b) && bit_at(
            f,
            b,
        )),
{
}

} // verus!
