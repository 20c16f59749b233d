//! Little-endian decomposition of a clear scalar into per-block digits.
use vstd::arithmetic::power::pow;
use vstd::prelude::*;

verus! {

/// Digit `i` of `value` in base `m`.
pub open spec fn scalar_digit(value: u128, m: int, i: int) -> int {
    (value as int / pow(m, i as nat)) % m
}

/// The first `n` digits of `value` in base `m`, least significant first.
pub open spec fn digits_of(value: u128, m: int, n: int) -> Seq<int> {
    Seq::new(n as nat, |i: int| scalar_digit(value, m, i))
}

/// The first `n_blocks` base-`message_modulus` digits of `value`; digits past
/// the value's width are zero.
pub fn decompose_scalar(value: u128, message_modulus: u64, n_blocks: usize) -> (r: Vec<u64>)
    requires
        2 <= message_modulus,
    ensures
        r@.len() == n_blocks,
        forall|i: int| 0 <= i < n_blocks ==> #[trigger] r[i] == scalar_digit(value, message_modulus as int, i),
        forall|i: int| 0 <= i < n_blocks ==> #[trigger] r[i] < message_modulus,
{
    let m = message_modulus;
    let mut digits: Vec<u64> = Vec::new();
    let mut rest: u128 = value;
    let mut i: usize = 0;
    proof {
        vstd::arithmetic::power::lemma_pow0(m as int);
    }
    while i < n_blocks
        invariant
            2 <= m,
            m == message_modulus,
            i <= n_blocks,
            digits.len() == i,
            rest as int == value as int / pow(m as int, i as nat),
            forall|k: int| 0 <= k < i ==> #[trigger] digits[k] == scalar_digit(value, m as int, k),
            forall|k: int| 0 <= k < i ==> #[trigger] digits[k] < m,
        decreases n_blocks - i,
    {
        digits.push((rest % (m as u128)) as u64);
        proof {
            vstd::arithmetic::power::lemma_pow_positive(m as int, i as nat);
            vstd::arithmetic::div_mod::lemma_div_denominator(
                value as int,
                pow(m as int, i as nat),
                m as int,
            );
            reveal_with_fuel(pow, 2);
            assert(pow(m as int, (i + 1) as nat) == m * pow(m as int, i as nat));
            assert(pow(m as int, i as nat) * m == m * pow(m as int, i as nat)) by (nonlinear_arith);
        }
        rest = rest / (m as u128);
        i = i + 1;
    }
    digits
}

} // verus!
