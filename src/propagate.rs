//! Full carry propagation of a radix ciphertext: every block is brought back
//! to a message with an empty carry, its carry moved into the next block.
use crate::block::{lemma_total_at_least_message, Block};
use crate::ciphertext::{carries_empty, IntegerRadixCiphertext};
use crate::cmux::radix_fits;
use crate::decompose::{digits_of, scalar_digit};
use crate::lut::payloads;
use crate::server_key::ServerKey;
use vstd::arithmetic::power::pow;
use vstd::prelude::*;

verus! {

/// The carry that flows into block `i` when propagating from the least
/// significant block.
pub open spec fn carry_in(s: Seq<Block>, m: int, i: int) -> int
    decreases i,
{
    if i <= 0 {
        0
    } else {
        (s[i - 1].payload + carry_in(s, m, i - 1)) / m
    }
}

/// Block `i` after propagation: its digit, with a fresh degree.
pub open spec fn propagated_block(s: Seq<Block>, m: int, i: int) -> Block {
    Block {
        payload: ((s[i].payload + carry_in(s, m, i)) % m) as u64,
        degree: (m - 1) as u64,
        ..s[i]
    }
}

/// The blocks after a full propagation; the carry out of the last block is
/// dropped.
pub open spec fn propagated(s: Seq<Block>, m: int) -> Seq<Block> {
    Seq::new(s.len(), |i: int| propagated_block(s, m, i))
}

/// The blocks that a selection reads: unchanged when the carries are already
/// empty, propagated otherwise.
pub open spec fn normalized(s: Seq<Block>, m: int) -> Seq<Block> {
    if carries_empty(s) {
        s
    } else {
        propagated(s, m)
    }
}

/// The integer that the first `k` blocks encode, least significant first,
/// carries included.
pub open spec fn prefix_value(s: Seq<Block>, m: int, k: int) -> int
    decreases k,
{
    if k <= 0 {
        0
    } else {
        prefix_value(s, m, k - 1) + s[k - 1].payload * pow(m, (k - 1) as nat)
    }
}

/// The integer a radix block sequence encodes.
pub open spec fn radix_value(s: Seq<Block>, m: int) -> int {
    prefix_value(s, m, s.len() as int)
}

proof fn lemma_prefix_step(s: Seq<Block>, m: int, k: int)
    requires
        2 <= m <= u64::MAX,
        0 <= k < s.len(),
    ensures
        prefix_value(propagated(s, m), m, k + 1) + carry_in(s, m, k + 1) * pow(m, (k + 1) as nat)
            == prefix_value(propagated(s, m), m, k) + carry_in(s, m, k) * pow(m, k as nat)
            + s[k].payload * pow(m, k as nat),
        prefix_value(propagated(s, m), m, k + 1) == prefix_value(propagated(s, m), m, k)
            + propagated(s, m)[k].payload * pow(m, k as nat),
        propagated(s, m)[k].payload < m,
{
    let v = s[k].payload + carry_in(s, m, k);
    let d = v % m;
    let c = v / m;
    let p = pow(m, k as nat);
    vstd::arithmetic::power::lemma_pow_positive(m, k as nat);
    reveal_with_fuel(pow, 2);
    assert(pow(m, (k + 1) as nat) == m * p);
    vstd::arithmetic::div_mod::lemma_fundamental_div_mod(v, m);
    assert(0 <= carry_in(s, m, k)) by {
        lemma_carry_nonnegative(s, m, k);
    }
    assert(d < m);
    assert(propagated(s, m)[k].payload == d);
    assert(d * p + c * (m * p) == v * p) by (nonlinear_arith)
        requires
            v == m * c + d,
    ;
    assert(v * p == carry_in(s, m, k) * p + s[k].payload * p) by (nonlinear_arith)
        requires
            v == s[k].payload + carry_in(s, m, k),
    ;
}

proof fn lemma_carry_nonnegative(s: Seq<Block>, m: int, k: int)
    requires
        2 <= m,
        k <= s.len(),
    ensures
        0 <= carry_in(s, m, k),
    decreases k,
{
    if k > 0 {
        lemma_carry_nonnegative(s, m, k - 1);
        vstd::arithmetic::div_mod::lemma_div_pos_is_pos(
            s[k - 1].payload + carry_in(s, m, k - 1),
            m,
        );
    }
}

proof fn lemma_propagation_prefix(s: Seq<Block>, m: int, k: int)
    requires
        2 <= m <= u64::MAX,
        0 <= k <= s.len(),
    ensures
        prefix_value(propagated(s, m), m, k) + carry_in(s, m, k) * pow(m, k as nat) == prefix_value(
            s,
            m,
            k,
        ),
        0 <= prefix_value(propagated(s, m), m, k) < pow(m, k as nat),
    decreases k,
{
    if k == 0 {
        reveal_with_fuel(pow, 1);
    } else {
        lemma_propagation_prefix(s, m, k - 1);
        lemma_prefix_step(s, m, k - 1);
        let p = pow(m, (k - 1) as nat);
        let d = propagated(s, m)[k - 1].payload as int;
        let below = prefix_value(propagated(s, m), m, k - 1);
        reveal_with_fuel(pow, 2);
        assert(pow(m, k as nat) == m * p);
        assert(below + d * p < m * p) by (nonlinear_arith)
            requires
                0 <= below < p,
                0 <= d < m,
        ;
        assert(0 <= d * p) by (nonlinear_arith)
            requires
                0 <= d,
                0 <= p,
        ;
    }
}

/// Carry propagation keeps the encoded integer modulo `m` to the number of
/// blocks: the propagated digits are exactly that remainder.
pub proof fn lemma_propagation_preserves_value(s: Seq<Block>, m: int)
    requires
        2 <= m <= u64::MAX,
    ensures
        radix_value(propagated(s, m), m) == radix_value(s, m) % pow(m, s.len()),
{
    let n = s.len() as int;
    lemma_propagation_prefix(s, m, n);
    lemma_carry_nonnegative(s, m, n);
    vstd::arithmetic::power::lemma_pow_positive(m, n as nat);
    vstd::arithmetic::div_mod::lemma_fundamental_div_mod_converse(
        radix_value(s, m),
        pow(m, n as nat),
        carry_in(s, m, n),
        radix_value(propagated(s, m), m),
    );
}

/// What a radix block sequence decrypts to: its integer modulo `m` to the
/// number of blocks.
pub open spec fn decrypted(s: Seq<Block>, m: int) -> int {
    radix_value(s, m) % pow(m, s.len())
}

proof fn lemma_prefix_same_payloads(s: Seq<Block>, t: Seq<Block>, m: int, k: int)
    requires
        payloads(s) == payloads(t),
        0 <= k <= s.len(),
    ensures
        prefix_value(s, m, k) == prefix_value(t, m, k),
    decreases k,
{
    if k > 0 {
        lemma_prefix_same_payloads(s, t, m, k - 1);
        assert(payloads(s).len() == s.len());
        assert(payloads(t).len() == t.len());
        assert(s.len() == t.len());
        assert(payloads(s)[k - 1] == s[k - 1].payload as int);
        assert(payloads(t)[k - 1] == t[k - 1].payload as int);
        assert(payloads(s)[k - 1] == payloads(t)[k - 1]);
        assert(s[k - 1].payload == t[k - 1].payload);
    }
}

proof fn lemma_prefix_of_digits(s: Seq<Block>, m: int, k: int)
    requires
        2 <= m,
        0 <= k <= s.len(),
        forall|i: int| 0 <= i < s.len() ==> (#[trigger] s[i]).payload < m,
    ensures
        0 <= prefix_value(s, m, k) < pow(m, k as nat),
    decreases k,
{
    if k == 0 {
        reveal_with_fuel(pow, 1);
    } else {
        lemma_prefix_of_digits(s, m, k - 1);
        let p = pow(m, (k - 1) as nat);
        let d = s[k - 1].payload as int;
        let below = prefix_value(s, m, k - 1);
        reveal_with_fuel(pow, 2);
        assert(pow(m, k as nat) == m * p);
        assert(0 <= below + d * p < m * p) by (nonlinear_arith)
            requires
                0 <= below < p,
                0 <= d < m,
        ;
    }
}

/// Selection reads operands through `normalized`; whichever way an operand
/// was normalized, and whatever blocks carry its payloads, it decrypts the
/// same.
pub proof fn lemma_normalized_decrypts_same(s: Seq<Block>, r: Seq<Block>, m: int)
    requires
        2 <= m <= u64::MAX,
        forall|i: int| 0 <= i < s.len() ==> (#[trigger] s[i]).message_modulus == m,
        forall|i: int| 0 <= i < s.len() ==> (#[trigger] s[i]).wf(),
        payloads(r) == payloads(normalized(s, m)),
    ensures
        decrypted(r, m) == decrypted(s, m),
{
    let n = s.len() as int;
    let ns = normalized(s, m);
    assert(ns.len() == n);
    assert(r.len() == n) by {
        assert(payloads(r).len() == payloads(ns).len());
    }
    lemma_prefix_same_payloads(r, ns, m, n);
    vstd::arithmetic::power::lemma_pow_positive(m, n as nat);
    if carries_empty(s) {
        assert forall|i: int| 0 <= i < s.len() implies (#[trigger] s[i]).payload < m by {
            assert(s[i].wf());
        }
        lemma_prefix_of_digits(s, m, n);
        vstd::arithmetic::div_mod::lemma_small_mod(radix_value(s, m) as nat, pow(m, n as nat) as nat);
    } else {
        lemma_propagation_preserves_value(s, m);
        lemma_propagation_prefix(s, m, n);
        vstd::arithmetic::div_mod::lemma_small_mod(
            radix_value(ns, m) as nat,
            pow(m, n as nat) as nat,
        );
    }
}

proof fn lemma_digit_prefix(r: Seq<Block>, value: u128, m: int, k: int)
    requires
        2 <= m,
        payloads(r) == digits_of(value, m, r.len() as int),
        0 <= k <= r.len(),
    ensures
        prefix_value(r, m, k) == value as int % pow(m, k as nat),
    decreases k,
{
    reveal_with_fuel(pow, 2);
    if k == 0 {
        assert(value as int % 1 == 0);
    } else {
        lemma_digit_prefix(r, value, m, k - 1);
        let p = pow(m, (k - 1) as nat);
        vstd::arithmetic::power::lemma_pow_positive(m, (k - 1) as nat);
        assert(payloads(r)[k - 1] == r[k - 1].payload as int);
        assert(r[k - 1].payload == scalar_digit(value, m, k - 1));
        vstd::arithmetic::div_mod::lemma_mod_breakdown(value as int, p, m);
        assert(pow(m, k as nat) == m * p);
        assert(p * m == m * p) by (nonlinear_arith);
        assert(p * ((value as int / p) % m) == r[k - 1].payload * p) by (nonlinear_arith)
            requires
                r[k - 1].payload == (value as int / p) % m,
        ;
    }
}

/// Blocks that hold the base-`m` digits of `value` decrypt to `value`
/// modulo `m` to the number of blocks.
pub proof fn lemma_digits_decrypt(r: Seq<Block>, value: u128, m: int)
    requires
        2 <= m,
        payloads(r) == digits_of(value, m, r.len() as int),
    ensures
        decrypted(r, m) == value as int % pow(m, r.len()),
{
    let n = r.len() as int;
    lemma_digit_prefix(r, value, m, n);
    vstd::arithmetic::power::lemma_pow_positive(m, n as nat);
    vstd::arithmetic::div_mod::lemma_mod_bound(value as int, pow(m, n as nat));
    vstd::arithmetic::div_mod::lemma_small_mod(
        (value as int % pow(m, n as nat)) as nat,
        pow(m, n as nat) as nat,
    );
}

/// Propagated blocks are valid message blocks.
pub proof fn lemma_propagated_fits(key: ServerKey, s: Seq<Block>)
    requires
        key.wf(),
        radix_fits(key, s),
    ensures
        radix_fits(key, propagated(s, key.message_modulus as int)),
        carries_empty(propagated(s, key.message_modulus as int)),
{
    let m = key.message_modulus as int;
    lemma_total_at_least_message(m, key.carry_modulus as int);
    assert forall|i: int| 0 <= i < s.len() implies key.fits(#[trigger] propagated(s, m)[i])
        && propagated(s, m)[i].degree < propagated(s, m)[i].message_modulus by {
        assert(key.fits(s[i]));
        lemma_carry_nonnegative(s, m, i);
    }
}

impl ServerKey {
    /// Propagates all carries of `ct`, leaving every block with an empty carry.
    pub fn full_propagate_parallelized<T: IntegerRadixCiphertext>(&self, ct: &mut T)
        requires
            self.wf(),
            radix_fits(*self, old(ct).spec_blocks()),
        ensures
            final(ct).spec_blocks() == propagated(old(ct).spec_blocks(), self.message_modulus as int),
            radix_fits(*self, final(ct).spec_blocks()),
            carries_empty(final(ct).spec_blocks()),
            radix_value(final(ct).spec_blocks(), self.message_modulus as int) == decrypted(
                old(ct).spec_blocks(),
                self.message_modulus as int,
            ),
    {
        let m = self.message_modulus;
        let total = self.total_modulus();
        let blocks = ct.blocks();
        let ghost s = blocks@;
        let mut out: Vec<Block> = Vec::new();
        let mut carry: u64 = 0;
        let mut i: usize = 0;
        while i < blocks.len()
            invariant
                self.wf(),
                m == self.message_modulus,
                total == self.total(),
                m <= total,
                s == blocks@,
                radix_fits(*self, s),
                i <= blocks.len(),
                out.len() == i,
                carry == carry_in(s, m as int, i as int),
                carry < total,
                forall|k: int| 0 <= k < i ==> #[trigger] out[k] == propagated_block(s, m as int, k),
            decreases blocks.len() - i,
        {
            let b = blocks[i];
            assert(self.fits(s[i as int]));
            let v = b.payload + carry;
            assert(v / m < total) by (nonlinear_arith)
                requires
                    v < 2 * total,
                    2 <= m,
            ;
            out.push(Block { payload: v % m, degree: m - 1, ..b });
            carry = v / m;
            i = i + 1;
        }
        proof {
            assert(out@ =~= propagated(s, m as int));
            lemma_propagation_preserves_value(s, m as int);
            assert forall|k: int| 0 <= k < out.len() implies self.fits(#[trigger] out@[k])
                && out@[k].degree < out@[k].message_modulus by {
                assert(self.fits(s[k]));
            }
        }
        ct.set_blocks(out);
    }
}

} // verus!
