//! Words of bits, most significant first.
use vstd::prelude::*;

verus! {

/// How many values a word of as many bits has.
pub open spec fn word_limit(size: nat) -> nat
    decreases size,
{
    if size == 0 {
        1
    } else {
        2 * word_limit((size - 1) as nat)
    }
}

/// The number that bits spell, most significant first.
pub open spec fn bits_value(bits: Seq<bool>) -> nat
    decreases bits.len(),
{
    if bits.len() == 0 {
        0
    } else {
        2 * bits_value(bits.drop_last()) + if bits.last() {
            1nat
        } else {
            0
        }
    }
}

/// A number of as many bits as are given is below the limit of that size.
pub proof fn lemma_bits_value(bits: Seq<bool>)
    ensures
        bits_value(bits) < word_limit(bits.len()),
    decreases bits.len(),
{
    if bits.len() > 0 {
        lemma_bits_value(bits.drop_last());
    }
}

/// The bit in a place of a word.
pub open spec fn word_bit(word: nat, size: nat, i: int) -> bool
    decreases size,
{
    if size == 0 {
        false
    } else if i == size - 1 {
        word % 2 == 1
    } else {
        word_bit(word / 2, (size - 1) as nat, i)
    }
}

/// Each bit of a number that bits spell is the bit in its place.
pub proof fn lemma_word_bit(bits: Seq<bool>, i: int)
    requires
        0 <= i < bits.len(),
    ensures
        word_bit(bits_value(bits), bits.len(), i) == bits[i],
    decreases bits.len(),
{
    let rest = bits.drop_last();
    let v = bits_value(rest);
    assert(bits_value(bits) / 2 == v);
    if i < bits.len() - 1 {
        lemma_word_bit(rest, i);
    }
}

/// The bits of a number spell it.
pub proof fn lemma_spelled_word(bits: Seq<bool>, word: nat)
    requires
        word < word_limit(bits.len()),
        forall|i: int| 0 <= i < bits.len() ==> #[trigger] bits[i] == word_bit(word, bits.len(), i),
    ensures
        bits_value(bits) == word,
    decreases bits.len(),
{
    if bits.len() > 0 {
        let rest = bits.drop_last();
        assert forall|i: int| 0 <= i < rest.len() implies #[trigger] rest[i] == word_bit(
            word / 2,
            rest.len(),
            i,
        ) by {
            assert(bits[i] == word_bit(word, bits.len(), i));
        }
        lemma_spelled_word(rest, word / 2);
        assert(bits.last() == word_bit(word, bits.len(), bits.len() - 1));
    }
}

/// Twelve bits have at most 4096 values.
pub proof fn lemma_word_limits()
    ensures
        word_limit(6) == 64,
        word_limit(8) == 256,
        word_limit(10) == 1024,
        word_limit(12) == 4096,
{
    reveal_with_fuel(word_limit, 13);
}

/// Words of more bits have more values.
pub proof fn lemma_word_limit_grows(a: nat, b: nat)
    requires
        a <= b,
    ensures
        word_limit(a) <= word_limit(b),
        1 <= word_limit(a),
    decreases b,
{
    if a < b {
        lemma_word_limit_grows(a, (b - 1) as nat);
    } else if b > 0 {
        lemma_word_limit_grows((a - 1) as nat, (b - 1) as nat);
    }
}

/// The bit in a place of a word.
pub fn bit_of_word(word: u32, size: usize, i: usize) -> (r: bool)
    requires
        i < size,
    ensures
        r == word_bit(word as nat, size as nat, i as int),
{
    let mut rest: u32 = word;
    let mut left: usize = size;
    while left > i + 1
        invariant
            i < left <= size,
            word_bit(word as nat, size as nat, i as int) == word_bit(
                rest as nat,
                left as nat,
                i as int,
            ),
        decreases left,
    {
        rest = rest / 2;
        left = left - 1;
    }
    rest % 2 == 1
}

/// Words of `size` bits have two to the power of `size` values.
pub proof fn law_word_limits_are_powers_of_two(size: nat)
    ensures
        word_limit(size) == vstd::arithmetic::power2::pow2(size),
    decreases size,
{
    if size == 0 {
        vstd::arithmetic::power2::lemma2_to64();
    } else {
        law_word_limits_are_powers_of_two((size - 1) as nat);
        vstd::arithmetic::power2::lemma_pow2_unfold(size);
    }
}

/// The first bit of a word is its most significant, the last its least.
pub proof fn law_bits_come_most_significant_first(word: nat, size: nat, i: int)
    requires
        0 <= i < size,
    ensures
        word_bit(word, size, i) <==> word as int / vstd::arithmetic::power2::pow2(
            (size - 1 - i) as nat,
        ) as int % 2 == 1,
    decreases size,
{
    if i == size - 1 {
        vstd::arithmetic::power2::lemma2_to64();
    } else {
        let n = (size - 1 - i) as nat;
        law_bits_come_most_significant_first(word / 2, (size - 1) as nat, i);
        vstd::arithmetic::power2::lemma_pow2_unfold(n);
        vstd::arithmetic::power2::lemma_pow2_pos((n - 1) as nat);
        vstd::arithmetic::div_mod::lemma_div_denominator(
            word as int,
            2,
            vstd::arithmetic::power2::pow2((n - 1) as nat) as int,
        );
    }
}

} // verus!
