//! Selections where one side, or both, is a clear scalar, and selection
//! between two encrypted booleans.
use crate::block::{lemma_total_at_least_message, Block, BooleanBlock};
use crate::ciphertext::{carries_empty, IntegerRadixCiphertext};
use crate::cmux::{radix_fits, selected};
use crate::decompose::{decompose_scalar, digits_of};
use crate::lut::{
    evaluate_all, function_views, is_output_of, lemma_batching_equivalence, payloads, LookupTable,
};
use crate::parallel::{join, par_map};
use crate::propagate::{decrypted, lemma_digits_decrypt, lemma_normalized_decrypts_same, normalized};
use vstd::arithmetic::power::pow;
use crate::server_key::ServerKey;
use vstd::prelude::*;

verus! {

/// The message part of each block.
pub open spec fn messages(blocks: Seq<Block>, m: int) -> Seq<int> {
    Seq::new(blocks.len(), |i: int| blocks[i].payload as int % m)
}

/// The table that reads a packed `2 * block + condition` and returns the
/// block's message when the condition is 1 and `digit` when it is 0.
pub open spec fn scalar_select_value(x: u64, m: u64, digit: u64) -> u64 {
    if x % 2 == 1 {
        (x / 2) % m
    } else {
        digit
    }
}

/// The table that reads a packed `2 * selector + value` and keeps the value
/// bit only when the selector bit is set.
pub open spec fn masked_bit(x: u64) -> u64 {
    if (x / 2) % 2 == 1 {
        x % 2
    } else {
        0
    }
}

/// The payloads of selecting the ciphertext `true_blocks` (normalized)
/// against the digits of `false_value`, under a condition that encrypts `c`.
pub open spec fn ct_scalar_selection(key: ServerKey, c: u64, true_blocks: Seq<Block>, false_value: u128) -> Seq<
    int,
> {
    selected(
        c == 1,
        payloads(normalized(true_blocks, key.message_modulus as int)),
        digits_of(false_value, key.message_modulus as int, true_blocks.len() as int),
    )
}

/// The payloads of selecting the digits of `true_value` against the
/// ciphertext `false_blocks` (normalized), under a condition that encrypts `c`.
pub open spec fn scalar_ct_selection(key: ServerKey, c: u64, true_value: u128, false_blocks: Seq<Block>) -> Seq<
    int,
> {
    selected(
        c == 1,
        digits_of(true_value, key.message_modulus as int, false_blocks.len() as int),
        payloads(normalized(false_blocks, key.message_modulus as int)),
    )
}

/// Selecting a scalar against a ciphertext under a boolean condition gives
/// what selecting the ciphertext against the scalar gives under the negated
/// condition.
pub proof fn lemma_scalar_select_symmetry(key: ServerKey, c: u64, scalar: u128, blocks: Seq<Block>)
    requires
        c <= 1,
    ensures
        scalar_ct_selection(key, c, scalar, blocks) == ct_scalar_selection(
            key,
            (1 - c) as u64,
            blocks,
            scalar,
        ),
{
}

impl ServerKey {
    /// The negation of an encrypted boolean, by one table lookup.
    pub fn boolean_bitnot(&self, condition: &BooleanBlock) -> (r: BooleanBlock)
        requires
            self.wf(),
            condition.wf(),
            self.fits(condition.0),
        ensures
            r.wf(),
            self.fits(r.0),
            r.0.payload == 1 - condition.0.payload,
    {
        let total = self.total_modulus();
        let not = |x: u64| -> (y: u64)
            ensures
                y == (if x == 0 {
                    1u64
                } else {
                    0u64
                }),
            {
                if x == 0 {
                    1
                } else {
                    0
                }
            };
        let lut = self.generate_lookup_table(not, Ghost(|x: u64| if x == 0 { 1u64 } else { 0u64 }));
        proof {
            assert forall|i: int| 0 <= i < total implies #[trigger] lut.entries[i] <= 1 by {
                vstd::arithmetic::div_mod::lemma_small_mod(
                    (if i == 0 {
                        1nat
                    } else {
                        0nat
                    }),
                    total as nat,
                );
            }
            let w = choose|i: int| 0 <= i < total && #[trigger] lut.entries[i] == lut.degree;
            assert(lut.entries[w] <= 1);
            vstd::arithmetic::div_mod::lemma_small_mod(1, total as nat);
            vstd::arithmetic::div_mod::lemma_small_mod(0, total as nat);
        }
        let mut block = condition.0;
        self.apply_lookup_table_assign(&mut block, &lut);
        BooleanBlock::new_unchecked(block)
    }

    /// Selects between `true_ct` and the digits of `false_value` with one
    /// table per block, applied to `2 * block + condition`.
    fn unchecked_scalar_if_then_else_parallelized<T: IntegerRadixCiphertext>(
        &self,
        condition: &BooleanBlock,
        true_ct: &T,
        false_value: u128,
    ) -> (r: T)
        requires
            self.wf(),
            condition.wf(),
            self.fits(condition.0),
            radix_fits(*self, true_ct.spec_blocks()),
            forall|i: int|
                0 <= i < true_ct.spec_blocks().len() ==> 2 * (#[trigger] true_ct.spec_blocks()[i]).degree
                    + 1 < self.total(),
        ensures
            r.spec_blocks().len() == true_ct.spec_blocks().len(),
            radix_fits(*self, r.spec_blocks()),
            carries_empty(r.spec_blocks()),
            payloads(r.spec_blocks()) == selected(
                condition.0.payload == 1,
                messages(true_ct.spec_blocks(), self.message_modulus as int),
                digits_of(false_value, self.message_modulus as int, true_ct.spec_blocks().len() as int),
            ),
    {
        let m = self.message_modulus;
        let total = self.total_modulus();
        let blocks = true_ct.blocks();
        let n = blocks.len();
        let digits = decompose_scalar(false_value, m, n);
        let mut luts: Vec<LookupTable> = Vec::new();
        let mut i: usize = 0;
        while i < n
            invariant
                self.wf(),
                m == self.message_modulus,
                total == self.total(),
                m <= total,
                i <= n,
                n == digits.len(),
                forall|k: int| 0 <= k < n ==> #[trigger] digits[k] < m,
                luts.len() == i,
                forall|k: int| 0 <= k < i ==> (#[trigger] luts[k]).wf_for(total as int),
                forall|k: int| 0 <= k < i ==> (#[trigger] luts[k]).degree < m,
                forall|k: int, x: int|
                    0 <= k < i && 0 <= x < total ==> #[trigger] luts[k].entries[x] == scalar_select_value(
                        x as u64,
                        m,
                        digits[k],
                    ),
            decreases n - i,
        {
            let digit = digits[i];
            let f = move |x: u64| -> (y: u64)
                ensures
                    y == scalar_select_value(x, m, digit),
                {
                    if x % 2 == 1 {
                        (x / 2) % m
                    } else {
                        digit
                    }
                };
            let lut = self.generate_lookup_table(f, Ghost(|x: u64| scalar_select_value(x, m, digit)));
            proof {
                assert forall|x: int| 0 <= x < total implies #[trigger] lut.entries[x]
                    == scalar_select_value(x as u64, m, digit) && lut.entries[x] < m by {
                    vstd::arithmetic::div_mod::lemma_small_mod(
                        scalar_select_value(x as u64, m, digit) as nat,
                        total as nat,
                    );
                }
                let w = choose|x: int| 0 <= x < total && #[trigger] lut.entries[x] == lut.degree;
                assert(lut.entries[w] < m);
            }
            luts.push(lut);
            i = i + 1;
        }
        let mut indices: Vec<usize> = Vec::new();
        let mut i: usize = 0;
        while i < n
            invariant
                i <= n,
                indices.len() == i,
                forall|k: int| 0 <= k < i ==> #[trigger] indices[k] == k,
            decreases n - i,
        {
            indices.push(i);
            i = i + 1;
        }
        let select_block = |index: &usize| -> (r: Block)
            requires
                self.wf(),
                condition.wf(),
                self.fits(condition.0),
                m == self.message_modulus,
                total == self.total(),
                *index < n,
                n == blocks.len(),
                n == luts.len(),
                n == digits.len(),
                self.fits(blocks[*index as int]),
                2 * blocks[*index as int].degree + 1 < total,
                luts[*index as int].wf_for(total as int),
                luts[*index as int].degree < m,
                forall|x: int|
                    0 <= x < total ==> #[trigger] luts[*index as int].entries[x] == scalar_select_value(
                        x as u64,
                        m,
                        digits[*index as int],
                    ),
            ensures
                self.fits(r),
                r.degree < m,
                r.payload == (if condition.0.payload == 1 {
                    blocks[*index as int].payload % m
                } else {
                    digits[*index as int]
                }),
            {
                let block = &blocks[*index];
                let mut packed = self.unchecked_scalar_mul(block, 2);
                self.unchecked_add_assign(&mut packed, &condition.0);
                self.apply_lookup_table_assign(&mut packed, &luts[*index]);
                proof {
                    let x = (2 * block.payload + condition.0.payload) as u64;
                    assert(x % 2 == condition.0.payload);
                    assert(x / 2 == block.payload);
                }
                packed
            };
        proof {
            assert forall|k: int| 0 <= k < n implies select_block.requires((&indices[k],)) by {
                assert(self.fits(blocks[k]));
                assert(2 * true_ct.spec_blocks()[k].degree + 1 < self.total());
            }
        }
        let result_blocks = par_map(&indices, select_block);
        proof {
            let c = condition.0.payload == 1;
            let expected = selected(
                c,
                messages(true_ct.spec_blocks(), m as int),
                digits_of(false_value, m as int, n as int),
            );
            assert forall|k: int| 0 <= k < n implies self.fits(#[trigger] result_blocks@[k])
                && result_blocks@[k].degree < result_blocks@[k].message_modulus
                && result_blocks@[k].payload == expected[k] by {
                assert(indices[k] == k);
            }
            assert(payloads(result_blocks@) =~= expected);
        }
        T::from_blocks(result_blocks)
    }

    /// Encrypted selection between a ciphertext and a clear value: the result
    /// encrypts `true_ct` (its carries propagated first, on a private copy)
    /// where `condition` encrypts 1, and the digits of `false_value` where it
    /// encrypts 0.
    pub fn if_then_else_ct_scalar_parallelized<T: IntegerRadixCiphertext>(
        &self,
        condition: &BooleanBlock,
        true_ct: &T,
        false_value: u128,
    ) -> (r: T)
        requires
            self.wf(),
            2 * self.message_modulus <= self.total(),
            condition.wf(),
            self.fits(condition.0),
            radix_fits(*self, true_ct.spec_blocks()),
        ensures
            r.spec_blocks().len() == true_ct.spec_blocks().len(),
            radix_fits(*self, r.spec_blocks()),
            carries_empty(r.spec_blocks()),
            payloads(r.spec_blocks()) == ct_scalar_selection(
                *self,
                condition.0.payload,
                true_ct.spec_blocks(),
                false_value,
            ),
            condition.0.payload == 1 ==> decrypted(r.spec_blocks(), self.message_modulus as int)
                == decrypted(true_ct.spec_blocks(), self.message_modulus as int),
            condition.0.payload == 0 ==> decrypted(r.spec_blocks(), self.message_modulus as int)
                == false_value as int % pow(self.message_modulus as int, true_ct.spec_blocks().len()),
    {
        let m = self.message_modulus;
        let normalized_true = self.normalized_copy(true_ct);
        let ghost nb = normalized_true.spec_blocks();
        proof {
            assert forall|i: int| 0 <= i < nb.len() implies 2 * (#[trigger] nb[i]).degree + 1
                < self.total() by {
                assert(self.fits(nb[i]));
            }
        }
        let r = self.unchecked_scalar_if_then_else_parallelized(condition, &normalized_true, false_value);
        proof {
            assert forall|i: int| 0 <= i < nb.len() implies #[trigger] messages(nb, m as int)[i]
                == payloads(nb)[i] by {
                assert(self.fits(nb[i]));
                vstd::arithmetic::div_mod::lemma_small_mod(nb[i].payload as nat, m as nat);
            }
            assert(messages(nb, m as int) =~= payloads(nb));
            lemma_total_at_least_message(m as int, self.carry_modulus as int);
            let tb = true_ct.spec_blocks();
            assert forall|i: int| 0 <= i < tb.len() implies (#[trigger] tb[i]).message_modulus == m
                && tb[i].wf() by {
                assert(self.fits(tb[i]));
            }
            if condition.0.payload == 1 {
                lemma_normalized_decrypts_same(tb, r.spec_blocks(), m as int);
            } else {
                lemma_digits_decrypt(r.spec_blocks(), false_value, m as int);
            }
        }
        r
    }

    /// Encrypted selection between a clear value and a ciphertext: the
    /// condition is negated and the operands swapped.
    pub fn if_then_else_scalar_ct_parallelized<T: IntegerRadixCiphertext>(
        &self,
        condition: &BooleanBlock,
        true_value: u128,
        false_ct: &T,
    ) -> (r: T)
        requires
            self.wf(),
            2 * self.message_modulus <= self.total(),
            condition.wf(),
            self.fits(condition.0),
            radix_fits(*self, false_ct.spec_blocks()),
        ensures
            r.spec_blocks().len() == false_ct.spec_blocks().len(),
            radix_fits(*self, r.spec_blocks()),
            carries_empty(r.spec_blocks()),
            payloads(r.spec_blocks()) == scalar_ct_selection(
                *self,
                condition.0.payload,
                true_value,
                false_ct.spec_blocks(),
            ),
            condition.0.payload == 1 ==> decrypted(r.spec_blocks(), self.message_modulus as int)
                == true_value as int % pow(self.message_modulus as int, false_ct.spec_blocks().len()),
            condition.0.payload == 0 ==> decrypted(r.spec_blocks(), self.message_modulus as int)
                == decrypted(false_ct.spec_blocks(), self.message_modulus as int),
    {
        let inverted_condition = self.boolean_bitnot(condition);
        self.if_then_else_ct_scalar_parallelized(&inverted_condition, false_ct, true_value)
    }

    /// `value` where the boolean `selector` encrypts 1, zero elsewhere.
    fn boolean_masked_branch(&self, selector: &Block, value: &Block, zero_lut: &LookupTable) -> (r:
        Block)
        requires
            self.wf(),
            4 <= self.total(),
            self.fits(*selector),
            self.fits(*value),
            selector.degree <= 1,
            value.degree <= 1,
            zero_lut.wf_for(self.total()),
            zero_lut.degree <= 1,
            forall|x: int| 0 <= x < self.total() ==> #[trigger] zero_lut.entries[x] == masked_bit(x as u64),
        ensures
            self.fits(r),
            r.degree <= 1,
            r.payload == (if selector.payload == 1 {
                value.payload
            } else {
                0
            }),
    {
        let mut block = self.unchecked_scalar_mul(selector, 2);
        self.unchecked_add_assign(&mut block, value);
        self.apply_lookup_table_assign(&mut block, zero_lut);
        block
    }

    /// Encrypted selection between two encrypted booleans:
    /// `(condition AND true_ct) OR (NOT condition AND false_ct)`, as two
    /// masking tables evaluated in parallel, a sum, and a parity table.
    pub fn boolean_if_then_else_parallelized(
        &self,
        condition: &BooleanBlock,
        true_ct: &BooleanBlock,
        false_ct: &BooleanBlock,
    ) -> (r: BooleanBlock)
        requires
            self.wf(),
            4 <= self.total(),
            condition.wf(),
            true_ct.wf(),
            false_ct.wf(),
            self.fits(condition.0),
            self.fits(true_ct.0),
            self.fits(false_ct.0),
        ensures
            r.wf(),
            self.fits(r.0),
            r.0.payload == (if condition.0.payload == 1 {
                true_ct.0.payload
            } else {
                false_ct.0.payload
            }),
    {
        let total = self.total_modulus();
        let mask = |x: u64| -> (y: u64)
            ensures
                y == masked_bit(x),
            {
                if (x / 2) % 2 == 1 {
                    x % 2
                } else {
                    0
                }
            };
        let zero_lut = self.generate_lookup_table(mask, Ghost(|x: u64| masked_bit(x)));
        proof {
            assert forall|x: int| 0 <= x < total implies #[trigger] zero_lut.entries[x] == masked_bit(
                x as u64,
            ) && zero_lut.entries[x] <= 1 by {
                vstd::arithmetic::div_mod::lemma_small_mod(masked_bit(x as u64) as nat, total as nat);
            }
            let w = choose|x: int| 0 <= x < total && #[trigger] zero_lut.entries[x] == zero_lut.degree;
            assert(zero_lut.entries[w] <= 1);
        }
        let negated_cond = self.boolean_bitnot(condition);
        let lut_ref = &zero_lut;
        let keep_true = move || -> (b: Block)
            requires
                self.wf(),
                4 <= self.total(),
                self.fits(condition.0),
                self.fits(true_ct.0),
                condition.0.degree <= 1,
                true_ct.0.degree <= 1,
                lut_ref.wf_for(self.total()),
                lut_ref.degree <= 1,
                forall|x: int| 0 <= x < self.total() ==> #[trigger] lut_ref.entries[x] == masked_bit(x as u64),
            ensures
                self.fits(b),
                b.degree <= 1,
                b.payload == (if condition.0.payload == 1 {
                    true_ct.0.payload
                } else {
                    0
                }),
            { self.boolean_masked_branch(&condition.0, &true_ct.0, lut_ref) };
        let keep_false = move || -> (b: Block)
            requires
                self.wf(),
                4 <= self.total(),
                self.fits(negated_cond.0),
                self.fits(false_ct.0),
                negated_cond.0.degree <= 1,
                false_ct.0.degree <= 1,
                lut_ref.wf_for(self.total()),
                lut_ref.degree <= 1,
                forall|x: int| 0 <= x < self.total() ==> #[trigger] lut_ref.entries[x] == masked_bit(x as u64),
            ensures
                self.fits(b),
                b.degree <= 1,
                b.payload == (if negated_cond.0.payload == 1 {
                    false_ct.0.payload
                } else {
                    0
                }),
            { self.boolean_masked_branch(&negated_cond.0, &false_ct.0, lut_ref) };
        let (mut lhs, rhs) = join(keep_true, keep_false);
        self.unchecked_add_assign(&mut lhs, &rhs);
        let parity = |x: u64| -> (y: u64)
            ensures
                y == x % 2,
            { x % 2 };
        let clean_lut = self.generate_lookup_table(parity, Ghost(|x: u64| x % 2));
        proof {
            assert forall|x: int| 0 <= x < total implies #[trigger] clean_lut.entries[x] <= 1 by {
                vstd::arithmetic::div_mod::lemma_small_mod(((x as u64) % 2) as nat, total as nat);
            }
            let w = choose|x: int| 0 <= x < total && #[trigger] clean_lut.entries[x] == clean_lut.degree;
            assert(clean_lut.entries[w] <= 1);
            vstd::arithmetic::div_mod::lemma_small_mod((lhs.payload % 2) as nat, total as nat);
        }
        let before = lhs;
        self.apply_lookup_table_assign(&mut lhs, &clean_lut);
        proof {
            assert(clean_lut.entries[before.payload as int] == (before.payload % 2) % total);
        }
        BooleanBlock::new_unchecked(lhs)
    }

    /// Encrypts, over `n_blocks` blocks, the digits of `true_value` when
    /// `condition` encrypts 1 and those of `false_value` when it encrypts 0.
    /// Only the condition is bootstrapped: one function per block, packed
    /// into as few many-output tables as the plaintext space allows.
    pub fn scalar_if_then_else_parallelized<T: IntegerRadixCiphertext>(
        &self,
        condition: &BooleanBlock,
        true_value: u128,
        false_value: u128,
        n_blocks: usize,
    ) -> (r: T)
        requires
            self.wf(),
            condition.wf(),
            self.fits(condition.0),
        ensures
            r.spec_blocks().len() == n_blocks,
            radix_fits(*self, r.spec_blocks()),
            carries_empty(r.spec_blocks()),
            payloads(r.spec_blocks()) == selected(
                condition.0.payload == 1,
                digits_of(true_value, self.message_modulus as int, n_blocks as int),
                digits_of(false_value, self.message_modulus as int, n_blocks as int),
            ),
            decrypted(r.spec_blocks(), self.message_modulus as int) == (if condition.0.payload == 1 {
                true_value
            } else {
                false_value
            }) as int % pow(self.message_modulus as int, n_blocks as nat),
    {
        let m = self.message_modulus;
        let total = self.total_modulus();
        let true_digits = decompose_scalar(true_value, m, n_blocks);
        let false_digits = decompose_scalar(false_value, m, n_blocks);
        // How many functions one table can hold, the condition being a boolean.
        let max_num_many_luts = (total / 2) as usize;
        let mut functions: Vec<Vec<u64>> = Vec::new();
        let mut j: usize = 0;
        while j < n_blocks
            invariant
                j <= n_blocks,
                true_digits.len() == n_blocks,
                false_digits.len() == n_blocks,
                functions.len() == j,
                forall|k: int| 0 <= k < j ==> (#[trigger] functions[k])@ == seq![false_digits[k], true_digits[k]],
            decreases n_blocks - j,
        {
            let outputs = vec![false_digits[j], true_digits[j]];
            functions.push(outputs);
            j = j + 1;
        }
        proof {
            assert(max_num_many_luts * 2 <= total);
            assert(1 <= max_num_many_luts);
        }
        let result_blocks = self.evaluate_many_batched(&condition.0, &functions, 2, max_num_many_luts);
        proof {
            let x = condition.0.payload as int;
            let fv = function_views(functions@);
            lemma_batching_equivalence(fv, max_num_many_luts as nat, x, total as int);
            let expected = selected(
                condition.0.payload == 1,
                digits_of(true_value, m as int, n_blocks as int),
                digits_of(false_value, m as int, n_blocks as int),
            );
            assert forall|k: int| 0 <= k < n_blocks implies #[trigger] payloads(result_blocks@)[k] == expected[k]
                && result_blocks@[k].degree < m && result_blocks@[k].degree
                < result_blocks@[k].message_modulus by {
                assert(self.fits(result_blocks@[k]));
                assert(payloads(result_blocks@)[k] == evaluate_all(fv, x, total as int)[k]);
                assert(fv[k] == functions[k]@);
                assert(is_output_of(functions[k]@, result_blocks@[k].degree, total as int));
                let w = choose|x: int| 0 <= x < functions[k]@.len() && result_blocks@[k].degree as int
                    == (#[trigger] functions[k]@[x]) as int % total as int;
                assert(functions[k]@[w] < m);
                vstd::arithmetic::div_mod::lemma_small_mod(functions[k]@[w] as nat, total as nat);
                lemma_total_at_least_message(m as int, self.carry_modulus as int);
                vstd::arithmetic::div_mod::lemma_small_mod(true_digits[k] as nat, total as nat);
                vstd::arithmetic::div_mod::lemma_small_mod(false_digits[k] as nat, total as nat);
            }
            assert(payloads(result_blocks@) =~= expected);
            assert forall|k: int| 0 <= k < n_blocks implies (#[trigger] result_blocks@[k]).degree
                < result_blocks@[k].message_modulus by {
                assert(payloads(result_blocks@)[k] == expected[k]);
            }
            if condition.0.payload == 1 {
                lemma_digits_decrypt(result_blocks@, true_value, m as int);
            } else {
                lemma_digits_decrypt(result_blocks@, false_value, m as int);
            }
        }
        T::from_blocks(result_blocks)
    }

    /// Another name for [`Self::scalar_if_then_else_parallelized`].
    pub fn scalar_cmux_parallelized<T: IntegerRadixCiphertext>(
        &self,
        condition: &BooleanBlock,
        true_value: u128,
        false_value: u128,
        n_blocks: usize,
    ) -> (r: T)
        requires
            self.wf(),
            condition.wf(),
            self.fits(condition.0),
        ensures
            r.spec_blocks().len() == n_blocks,
            radix_fits(*self, r.spec_blocks()),
            carries_empty(r.spec_blocks()),
            payloads(r.spec_blocks()) == selected(
                condition.0.payload == 1,
                digits_of(true_value, self.message_modulus as int, n_blocks as int),
                digits_of(false_value, self.message_modulus as int, n_blocks as int),
            ),
            decrypted(r.spec_blocks(), self.message_modulus as int) == (if condition.0.payload == 1 {
                true_value
            } else {
                false_value
            }) as int % pow(self.message_modulus as int, n_blocks as nat),
    {
        self.scalar_if_then_else_parallelized(condition, true_value, false_value, n_blocks)
    }

    /// Another name for [`Self::scalar_if_then_else_parallelized`].
    pub fn scalar_select_parallelized<T: IntegerRadixCiphertext>(
        &self,
        condition: &BooleanBlock,
        true_value: u128,
        false_value: u128,
        n_blocks: usize,
    ) -> (r: T)
        requires
            self.wf(),
            condition.wf(),
            self.fits(condition.0),
        ensures
            r.spec_blocks().len() == n_blocks,
            radix_fits(*self, r.spec_blocks()),
            carries_empty(r.spec_blocks()),
            payloads(r.spec_blocks()) == selected(
                condition.0.payload == 1,
                digits_of(true_value, self.message_modulus as int, n_blocks as int),
                digits_of(false_value, self.message_modulus as int, n_blocks as int),
            ),
            decrypted(r.spec_blocks(), self.message_modulus as int) == (if condition.0.payload == 1 {
                true_value
            } else {
                false_value
            }) as int % pow(self.message_modulus as int, n_blocks as nat),
    {
        self.scalar_if_then_else_parallelized(condition, true_value, false_value, n_blocks)
    }
}

} // verus!
