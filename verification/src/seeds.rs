//! Seeds that are derived from one another.
use vstd::prelude::*;

verus! {

/// The product of two words, without what overflows.
pub open spec fn wrapped_product(one: u64, other: u64) -> u64 {
    (one * other % 0x1_0000_0000_0000_0000) as u64
}

/// The sum of two words, without what overflows.
pub open spec fn wrapped_sum(one: u64, other: u64) -> u64 {
    ((one + other) % 0x1_0000_0000_0000_0000) as u64
}

/// The SplitMix64 step: an increment and three rounds of mixing.
pub open spec fn splitmix(value: u64) -> u64 {
    let sum = wrapped_sum(value, 0x9e37_79b9_7f4a_7c15);
    let first = wrapped_product(sum ^ (sum >> 30), 0xbf58_476d_1ce4_e5b9);
    let second = wrapped_product(first ^ (first >> 27), 0x94d0_49bb_1331_11eb);
    second ^ (second >> 31)
}

/// The seed for one use of a source.
pub open spec fn derived_seed(seed: u64, source_index: usize, sequence: usize) -> u64 {
    splitmix(
        seed ^ splitmix(source_index as u64) ^ splitmix(sequence as u64 ^ 0x9e37_79b9_7f4a_7c15),
    )
}

/// The SplitMix64 step.
pub fn splitmix64(value: u64) -> (mixed: u64)
    ensures
        mixed == splitmix(value),
{
    let sum: u64 = value.wrapping_add(0x9e37_79b9_7f4a_7c15);
    let first: u64 = (sum ^ (sum >> 30)).wrapping_mul(0xbf58_476d_1ce4_e5b9);
    let second: u64 = (first ^ (first >> 27)).wrapping_mul(0x94d0_49bb_1331_11eb);
    second ^ (second >> 31)
}

/// The seed for the use of a source with the given number.
pub fn derive_seed(seed: u64, source_index: usize, sequence: usize) -> (derived: u64)
    ensures
        derived == derived_seed(seed, source_index, sequence),
{
    splitmix64(
        seed ^ splitmix64(source_index as u64) ^ splitmix64(
            sequence as u64 ^ 0x9e37_79b9_7f4a_7c15,
        ),
    )
}

/// Multiplying by a number and then by its inverse changes nothing.
proof fn lemma_product_inverse(value: u64, factor: u64, inverse: u64, overflow: int)
    requires
        factor * inverse == 1 + overflow * 0x1_0000_0000_0000_0000,
    ensures
        wrapped_product(wrapped_product(value, factor), inverse) == value,
{
    let modulus = 0x1_0000_0000_0000_0000int;
    let product = value * factor;
    vstd::arithmetic::div_mod::lemma_mul_mod_noop_left(product, inverse as int, modulus);
    assert(product * inverse == value + (value * overflow) * modulus) by (nonlinear_arith)
        requires
            product == value * factor,
            factor * inverse == 1 + overflow * modulus,
    ;
    vstd::arithmetic::div_mod::lemma_mod_multiples_vanish(
        value * overflow,
        value as int,
        modulus,
    );
    assert(modulus * (value * overflow) + value == value + (value * overflow) * modulus)
        by (nonlinear_arith);
    vstd::arithmetic::div_mod::lemma_small_mod(value as nat, modulus as nat);
}

/// Mixing loses nothing: two words that mix to the same were the same.
pub proof fn law_splitmix_is_injective(one: u64, other: u64)
    requires
        splitmix(one) == splitmix(other),
    ensures
        one == other,
{
    let sum = wrapped_sum(one, 0x9e37_79b9_7f4a_7c15);
    let other_sum = wrapped_sum(other, 0x9e37_79b9_7f4a_7c15);
    let left = sum ^ (sum >> 30);
    let other_left = other_sum ^ (other_sum >> 30);
    let first = wrapped_product(left, 0xbf58_476d_1ce4_e5b9);
    let other_first = wrapped_product(other_left, 0xbf58_476d_1ce4_e5b9);
    let right = first ^ (first >> 27);
    let other_right = other_first ^ (other_first >> 27);
    let second = wrapped_product(right, 0x94d0_49bb_1331_11eb);
    let other_second = wrapped_product(other_right, 0x94d0_49bb_1331_11eb);
    assert(second ^ (second >> 31) == other_second ^ (other_second >> 31) ==> second
        == other_second) by (bit_vector);
    lemma_product_inverse(right, 0x94d0_49bb_1331_11eb, 0x3196_42b2_d24d_8ec3, 0x1cd3_36ed_a85f_1453);
    lemma_product_inverse(other_right, 0x94d0_49bb_1331_11eb, 0x3196_42b2_d24d_8ec3, 0x1cd3_36ed_a85f_1453);
    assert(first ^ (first >> 27) == other_first ^ (other_first >> 27) ==> first == other_first)
        by (bit_vector);
    lemma_product_inverse(left, 0xbf58_476d_1ce4_e5b9, 0x96de_1b17_3f11_9089, 0x70c3_bca7_8f27_f46c);
    lemma_product_inverse(other_left, 0xbf58_476d_1ce4_e5b9, 0x96de_1b17_3f11_9089, 0x70c3_bca7_8f27_f46c);
    assert(sum ^ (sum >> 30) == other_sum ^ (other_sum >> 30) ==> sum == other_sum)
        by (bit_vector);
}

/// Different uses of a source have different seeds, and so have the same uses of
/// different sources and of one source under different seeds.
pub proof fn law_derived_seeds_differ(
    seed: u64,
    source_index: usize,
    sequence: usize,
    other_seed: u64,
    other_source_index: usize,
    other_sequence: usize,
)
    ensures
        sequence != other_sequence ==> derived_seed(seed, source_index, sequence) != derived_seed(
            seed,
            source_index,
            other_sequence,
        ),
        source_index != other_source_index ==> derived_seed(seed, source_index, sequence)
            != derived_seed(seed, other_source_index, sequence),
        seed != other_seed ==> derived_seed(seed, source_index, sequence) != derived_seed(
            other_seed,
            source_index,
            sequence,
        ),
{
    let source = splitmix(source_index as u64);
    let other_source = splitmix(other_source_index as u64);
    let mask = 0x9e37_79b9_7f4a_7c15u64;
    let number = sequence as u64;
    let other_number = other_sequence as u64;
    let use_part = splitmix(number ^ mask);
    let other_use_part = splitmix(other_number ^ mask);
    if derived_seed(seed, source_index, sequence) == derived_seed(
        seed,
        source_index,
        other_sequence,
    ) {
        law_splitmix_is_injective(seed ^ source ^ use_part, seed ^ source ^ other_use_part);
        assert(seed ^ source ^ use_part == seed ^ source ^ other_use_part ==> use_part
            == other_use_part) by (bit_vector);
        law_splitmix_is_injective(number ^ mask, other_number ^ mask);
        assert(number ^ mask == other_number ^ mask ==> number == other_number) by (bit_vector);
    }
    if derived_seed(seed, source_index, sequence) == derived_seed(
        seed,
        other_source_index,
        sequence,
    ) {
        law_splitmix_is_injective(seed ^ source ^ use_part, seed ^ other_source ^ use_part);
        assert(seed ^ source ^ use_part == seed ^ other_source ^ use_part ==> source
            == other_source) by (bit_vector);
        law_splitmix_is_injective(source_index as u64, other_source_index as u64);
    }
    if derived_seed(seed, source_index, sequence) == derived_seed(
        other_seed,
        source_index,
        sequence,
    ) {
        law_splitmix_is_injective(seed ^ source ^ use_part, other_seed ^ source ^ use_part);
        assert(seed ^ source ^ use_part == other_seed ^ source ^ use_part ==> seed == other_seed)
            by (bit_vector);
    }
}

/// Mixing can be undone step by step: the last shift is taken back first, then the two
/// factors by their inverses with the shift between them, then the first shift, and what is
/// left is the word and the increment.
pub proof fn law_splitmix_can_be_undone(value: u64)
    ensures
        ({
            let mixed = splitmix(value);
            let second = mixed ^ (mixed >> 31) ^ (mixed >> 62);
            let right = (second * 0x3196_42b2_d24d_8ec3 % 0x1_0000_0000_0000_0000) as u64;
            let first = right ^ (right >> 27) ^ (right >> 54);
            let left = (first * 0x96de_1b17_3f11_9089 % 0x1_0000_0000_0000_0000) as u64;
            let sum = left ^ (left >> 30) ^ (left >> 60);
            sum == (value + 0x9e37_79b9_7f4a_7c15) % 0x1_0000_0000_0000_0000
        }),
{
    let sum = wrapped_sum(value, 0x9e37_79b9_7f4a_7c15);
    let left = sum ^ (sum >> 30);
    let first = wrapped_product(left, 0xbf58_476d_1ce4_e5b9);
    let right = first ^ (first >> 27);
    let second = wrapped_product(right, 0x94d0_49bb_1331_11eb);
    let mixed = second ^ (second >> 31);
    assert(mixed ^ (mixed >> 31) ^ (mixed >> 62) == second) by (bit_vector)
        requires
            mixed == second ^ (second >> 31),
    ;
    lemma_product_inverse(right, 0x94d0_49bb_1331_11eb, 0x3196_42b2_d24d_8ec3, 0x1cd3_36ed_a85f_1453);
    assert(right ^ (right >> 27) ^ (right >> 54) == first) by (bit_vector)
        requires
            right == first ^ (first >> 27),
    ;
    lemma_product_inverse(left, 0xbf58_476d_1ce4_e5b9, 0x96de_1b17_3f11_9089, 0x70c3_bca7_8f27_f46c);
    assert(left ^ (left >> 30) ^ (left >> 60) == sum) by (bit_vector)
        requires
            left == sum ^ (sum >> 30),
    ;
}

/// A derived seed mixes the seed, the mixed source and the mixed use in equal shares: under
/// a seed that already holds the latter two they cancel out.
pub proof fn law_shares_of_a_seed_cancel_out(seed: u64, source_index: usize, sequence: usize)
    ensures
        derived_seed(
            seed ^ splitmix(source_index as u64) ^ splitmix(
                sequence as u64 ^ 0x9e37_79b9_7f4a_7c15,
            ),
            source_index,
            sequence,
        ) == splitmix(seed),
{
    let source = splitmix(source_index as u64);
    let number = splitmix(sequence as u64 ^ 0x9e37_79b9_7f4a_7c15);
    assert(seed ^ source ^ number ^ source ^ number == seed) by (bit_vector);
}

} // verus!
