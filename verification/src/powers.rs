//! Powers of two.
use vstd::arithmetic::power2::pow2;
use vstd::prelude::*;

verus! {

/// `value` is a power of two.
pub open spec fn is_power_of_two(value: nat) -> bool {
    exists|exponent: nat| value == #[trigger] pow2(exponent)
}

/// Tests whether `value` is a power of two.
pub(crate) fn power_of_two(value: usize) -> (result: bool)
    ensures
        result == is_power_of_two(value as nat),
{
    if value == 0 {
        proof {
            assert forall|exponent: nat| 0 != #[trigger] pow2(exponent) by {
                vstd::arithmetic::power2::lemma_pow2_pos(exponent);
            }
        }
        return false;
    }
    let mut rest: usize = value;
    while rest % 2 == 0
        invariant
            rest > 0,
            is_power_of_two(value as nat) == is_power_of_two(rest as nat),
        decreases rest,
    {
        proof {
            lemma_half_is_power((rest / 2) as nat);
        }
        rest = rest / 2;
    }
    proof {
        vstd::arithmetic::power2::lemma2_to64();
        if rest == 1 {
            assert(rest as nat == pow2(0));
        } else {
            assert forall|exponent: nat| rest as nat != #[trigger] pow2(exponent) by {
                if exponent > 0 {
                    vstd::arithmetic::power2::lemma_pow2_unfold(exponent);
                }
            }
        }
    }
    rest == 1
}

proof fn lemma_half_is_power(half: nat)
    requires
        half > 0,
    ensures
        is_power_of_two(2 * half) == is_power_of_two(half),
{
    if is_power_of_two(half) {
        let exponent = choose|exponent: nat| half == #[trigger] pow2(exponent);
        vstd::arithmetic::power2::lemma_pow2_unfold(exponent + 1);
        assert(2 * half == pow2(exponent + 1));
    }
    if is_power_of_two(2 * half) {
        let exponent = choose|exponent: nat| 2 * half == #[trigger] pow2(exponent);
        vstd::arithmetic::power2::lemma2_to64();
        assert(exponent > 0);
        vstd::arithmetic::power2::lemma_pow2_unfold(exponent);
        assert(half == pow2((exponent - 1) as nat));
    }
}

/// `value * 2^shift`, where that is representable.
pub(crate) fn scaled_by_power(value: usize, shift: usize) -> (scaled: Option<usize>)
    requires
        value > 0,
    ensures
        match scaled {
            Some(result) => result == value as nat * pow2(shift as nat),
            None => value as nat * pow2(shift as nat) > usize::MAX,
        },
{
    let mut result: usize = value;
    let mut done: usize = 0;
    proof {
        vstd::arithmetic::power2::lemma2_to64();
    }
    while done < shift
        invariant
            done <= shift,
            value > 0,
            result == value as nat * pow2(done as nat),
        decreases shift - done,
    {
        proof {
            vstd::arithmetic::power2::lemma_pow2_unfold((done + 1) as nat);
            assert(value as nat * (2 * pow2(done as nat)) == 2 * (value as nat * pow2(
                done as nat,
            ))) by (nonlinear_arith);
        }
        if result > usize::MAX / 2 {
            proof {
                lemma_pow2_monotone((done + 1) as nat, shift as nat);
                let low = pow2((done + 1) as nat);
                let high = pow2(shift as nat);
                assert(value as nat * low <= value as nat * high) by (nonlinear_arith)
                    requires
                        low <= high,
                ;
            }
            return None;
        }
        result = result * 2;
        done = done + 1;
    }
    Some(result)
}

proof fn lemma_pow2_monotone(a: nat, b: nat)
    requires
        a <= b,
    ensures
        pow2(a) <= pow2(b),
{
    if a < b {
        vstd::arithmetic::power2::lemma_pow2_strictly_increases(a, b);
    }
}

} // verus!
