//! Conditional selection over encrypted integers, built on masking a whole
//! integer to zero under an encrypted predicate.
use crate::block::{lemma_total_at_least_message, Block, BooleanBlock};
use crate::ciphertext::{
    block_carries_are_empty, carries_empty, duplicate_radix, IntegerRadixCiphertext,
};
use crate::lut::payloads;
use crate::parallel::{join, par_map};
use crate::propagate::{
    decrypted, lemma_normalized_decrypts_same, lemma_propagated_fits, normalized, propagated,
};
use crate::server_key::ServerKey;
use vstd::prelude::*;

verus! {

/// Every block is valid under `key`.
pub open spec fn radix_fits(key: ServerKey, blocks: Seq<Block>) -> bool {
    forall|i: int| 0 <= i < blocks.len() ==> key.fits(#[trigger] blocks[i])
}

/// `values` zeroed when `zero` holds, kept otherwise.
pub open spec fn masked(values: Seq<int>, zero: bool) -> Seq<int> {
    if zero {
        Seq::new(values.len(), |i: int| 0)
    } else {
        values
    }
}

/// The two plaintexts packed as `a * m + b` read back from the packed value.
proof fn lemma_unpack(a: int, b: int, m: int)
    requires
        0 <= a < m,
        0 <= b < m,
    ensures
        ((a * m + b) / m) % m == a,
        (a * m + b) % m == b,
{
    vstd::arithmetic::div_mod::lemma_fundamental_div_mod_converse(a * m + b, m, a, b);
    vstd::arithmetic::div_mod::lemma_small_mod(a as nat, m as nat);
}

/// The zero-out table keeps the block where the predicate is false.
pub open spec fn zero_out_value(block: u64, condition: u64, pred: spec_fn(u64) -> bool) -> u64 {
    if pred(condition) {
        0
    } else {
        block
    }
}

/// `pred` holds of every value up to `bound`.
pub open spec fn holds_up_to(pred: spec_fn(u64) -> bool, bound: u64) -> bool {
    forall|x: u64| x <= bound ==> #[trigger] pred(x)
}

/// `pred` fails on every value up to `bound`.
pub open spec fn fails_up_to(pred: spec_fn(u64) -> bool, bound: u64) -> bool {
    forall|x: u64| #![trigger pred(x)] x <= bound ==> !pred(x)
}

/// The negation of `pred`.
pub open spec fn negated(pred: spec_fn(u64) -> bool) -> spec_fn(u64) -> bool {
    |x: u64| !pred(x)
}

/// The predicate "equals `value`".
pub open spec fn equals_value(value: u64) -> spec_fn(u64) -> bool {
    |x: u64| x == value
}

/// Block `b` after masking under `condition` and `pred`. The predicate is
/// first decided in the clear over every value the condition may hold (up to
/// its degree): if it never holds the block is untouched, if it always holds
/// the block becomes a trivial zero. Otherwise a block of degree zero is
/// skipped, and any other goes through the bivariate table, whose outputs
/// reach `message_modulus - 1`.
pub open spec fn zero_out_block(key: ServerKey, b: Block, condition: Block, pred: spec_fn(u64) -> bool) -> Block {
    if fails_up_to(pred, condition.degree) {
        b
    } else if holds_up_to(pred, condition.degree) {
        key.create_trivial_zero_block_spec()
    } else if b.degree == 0 {
        b
    } else {
        Block {
            payload: zero_out_value(b.payload, condition.payload, pred),
            degree: (key.message_modulus - 1) as u64,
            ..b
        }
    }
}

/// `blocks` after masking, block by block.
pub open spec fn zero_out_blocks(
    key: ServerKey,
    blocks: Seq<Block>,
    condition: Block,
    pred: spec_fn(u64) -> bool,
) -> Seq<Block> {
    blocks.map_values(|b: Block| zero_out_block(key, b, condition, pred))
}

/// What follows from the exact masking result: valid message blocks, the
/// masked payloads, and blocks of degree zero left as they were.
proof fn lemma_zero_out_blocks_facts(
    key: ServerKey,
    blocks: Seq<Block>,
    condition: Block,
    pred: spec_fn(u64) -> bool,
)
    requires
        key.wf(),
        radix_fits(key, blocks),
        carries_empty(blocks),
        key.fits(condition),
        condition.degree < key.message_modulus,
    ensures
        zero_out_blocks(key, blocks, condition, pred).len() == blocks.len(),
        radix_fits(key, zero_out_blocks(key, blocks, condition, pred)),
        carries_empty(zero_out_blocks(key, blocks, condition, pred)),
        payloads(zero_out_blocks(key, blocks, condition, pred)) == masked(
            payloads(blocks),
            pred(condition.payload),
        ),
        forall|i: int|
            0 <= i < blocks.len() && (#[trigger] blocks[i]).degree == 0 ==> zero_out_blocks(
                key,
                blocks,
                condition,
                pred,
            )[i] == blocks[i],
{
    let r = zero_out_blocks(key, blocks, condition, pred);
    lemma_total_at_least_message(key.message_modulus as int, key.carry_modulus as int);
    assert forall|i: int| 0 <= i < blocks.len() implies key.fits(#[trigger] r[i]) && r[i].degree
        < r[i].message_modulus && r[i].payload == masked(payloads(blocks), pred(condition.payload))[i]
        && (blocks[i].degree == 0 ==> r[i] == blocks[i]) by {
        let b = blocks[i];
        assert(key.fits(b));
        assert(b.degree < b.message_modulus);
        if fails_up_to(pred, condition.degree) {
            assert(!pred(condition.payload));
        } else if holds_up_to(pred, condition.degree) {
            assert(pred(condition.payload));
        }
    }
    assert(payloads(r) =~= masked(payloads(blocks), pred(condition.payload)));
}

/// Masking twice gives what masking once gives; a predicate that never holds
/// leaves the blocks as they are, and one that always holds leaves trivial
/// zeros.
pub proof fn lemma_zero_out_idempotent(
    key: ServerKey,
    blocks: Seq<Block>,
    condition: Block,
    pred: spec_fn(u64) -> bool,
)
    requires
        key.wf(),
    ensures
        zero_out_blocks(key, zero_out_blocks(key, blocks, condition, pred), condition, pred)
            == zero_out_blocks(key, blocks, condition, pred),
        fails_up_to(pred, condition.degree) ==> zero_out_blocks(key, blocks, condition, pred)
            == blocks,
        holds_up_to(pred, condition.degree) ==> forall|i: int|
            0 <= i < blocks.len() ==> (#[trigger] zero_out_blocks(key, blocks, condition, pred)[i]).payload
                == 0 && zero_out_blocks(key, blocks, condition, pred)[i].degree == 0,
{
    let once = zero_out_blocks(key, blocks, condition, pred);
    assert(zero_out_blocks(key, once, condition, pred) =~= once);
    if fails_up_to(pred, condition.degree) {
        assert(once =~= blocks);
    }
    if holds_up_to(pred, condition.degree) {
        assert(pred(0));
        assert(!fails_up_to(pred, condition.degree));
    }
}

impl ServerKey {
    /// Replaces every block of `ct` with a trivial zero.
    pub fn create_trivial_zero_assign_radix<T: IntegerRadixCiphertext>(&self, ct: &mut T)
        requires
            self.wf(),
        ensures
            final(ct).spec_blocks().len() == old(ct).spec_blocks().len(),
            forall|i: int|
                0 <= i < final(ct).spec_blocks().len() ==> #[trigger] final(ct).spec_blocks()[i]
                    == self.create_trivial_zero_block_spec(),
    {
        let n = ct.blocks().len();
        let mut blocks: Vec<Block> = Vec::new();
        let mut i: usize = 0;
        while i < n
            invariant
                self.wf(),
                i <= n,
                blocks.len() == i,
                forall|k: int| 0 <= k < i ==> #[trigger] blocks[k] == self.create_trivial_zero_block_spec(),
            decreases n - i,
        {
            blocks.push(self.create_trivial_zero_block());
            i = i + 1;
        }
        ct.set_blocks(blocks);
    }

    /// Zeroes every block of `ct` when `predicate` holds of what
    /// `condition_block` encrypts, and leaves the values alone otherwise.
    /// The predicate is first decided in the clear over every value the
    /// condition may hold (up to its degree): when that settles it, no table
    /// is applied. Otherwise every block of non-zero degree goes through one
    /// bivariate table with the condition; blocks of degree zero are skipped.
    pub fn zero_out_if<T: IntegerRadixCiphertext, F: Fn(u64) -> bool + Sync + Send>(
        &self,
        ct: &mut T,
        condition_block: &Block,
        predicate: F,
        pred: Ghost<spec_fn(u64) -> bool>,
    )
        requires
            self.wf(),
            radix_fits(*self, old(ct).spec_blocks()),
            carries_empty(old(ct).spec_blocks()),
            self.fits(*condition_block),
            condition_block.degree < self.message_modulus,
            condition_block.degree != 0 ==> self.supports_bivariate(),
            forall|x: u64| predicate.requires((x,)),
            forall|x: u64, b: bool| predicate.ensures((x,), b) ==> b == pred@(x),
        ensures
            final(ct).spec_blocks() == zero_out_blocks(
                *self,
                old(ct).spec_blocks(),
                *condition_block,
                pred@,
            ),
            final(ct).spec_blocks().len() == old(ct).spec_blocks().len(),
            radix_fits(*self, final(ct).spec_blocks()),
            carries_empty(final(ct).spec_blocks()),
            payloads(final(ct).spec_blocks()) == masked(
                payloads(old(ct).spec_blocks()),
                pred@(condition_block.payload),
            ),
            forall|i: int|
                0 <= i < old(ct).spec_blocks().len() && (#[trigger] old(ct).spec_blocks()[i]).degree
                    == 0 ==> final(ct).spec_blocks()[i] == old(ct).spec_blocks()[i],
            fails_up_to(pred@, condition_block.degree) ==> final(ct).spec_blocks() == old(
                ct,
            ).spec_blocks(),
            holds_up_to(pred@, condition_block.degree) ==> forall|i: int|
                0 <= i < final(ct).spec_blocks().len() ==> #[trigger] final(ct).spec_blocks()[i]
                    == self.create_trivial_zero_block_spec(),
    {
        let ghost old_blocks = ct.spec_blocks();
        proof {
            lemma_zero_out_blocks_facts(*self, old_blocks, *condition_block, pred@);
        }
        let m = self.message_modulus;
        let d = condition_block.degree;
        let mut always = true;
        let mut never = true;
        let mut x: u64 = 0;
        while x <= d
            invariant
                d == condition_block.degree,
                d < m,
                m == self.message_modulus,
                self.wf(),
                x <= d + 1,
                forall|x: u64| predicate.requires((x,)),
                forall|x: u64, b: bool| predicate.ensures((x,), b) ==> b == pred@(x),
                always == (forall|y: u64| y < x ==> #[trigger] pred@(y)),
                never == (forall|y: u64| #![trigger pred@(y)] y < x ==> !pred@(y)),
            decreases d + 1 - x,
        {
            proof {
                lemma_total_at_least_message(m as int, self.carry_modulus as int);
            }
            if predicate(x) {
                never = false;
            } else {
                always = false;
            }
            x = x + 1;
        }
        if never {
            proof {
                assert(fails_up_to(pred@, d));
                assert(zero_out_blocks(*self, old_blocks, *condition_block, pred@) =~= old_blocks);
            }
            return;
        }
        if always {
            self.create_trivial_zero_assign_radix(ct);
            proof {
                assert(holds_up_to(pred@, d));
                assert(ct.spec_blocks() =~= zero_out_blocks(*self, old_blocks, *condition_block, pred@));
            }
            return;
        }
        proof {
            assert(!fails_up_to(pred@, d));
            assert(!holds_up_to(pred@, d));
            assert(d == 0 ==> (pred@(0) ==> holds_up_to(pred@, d)) && (!pred@(0) ==> fails_up_to(
                pred@,
                d,
            )));
        }
        let f = |block: u64, condition: u64| -> (y: u64)
            ensures
                y == zero_out_value(block, condition, pred@),
            {
                if predicate(condition) {
                    0
                } else {
                    block
                }
            };
        let lut = self.generate_lookup_table_bivariate(f, Ghost(|a: u64, b: u64| zero_out_value(a, b, pred@)));
        let ghost total = self.total();
        proof {
            lemma_total_at_least_message(m as int, self.carry_modulus as int);
            assert forall|i: int| 0 <= i < total implies #[trigger] lut.entries[i] < m by {
                let a = ((i as u64) / m) % m;
                vstd::arithmetic::div_mod::lemma_small_mod(
                    zero_out_value(a, (i as u64) % m, pred@) as nat,
                    total as nat,
                );
            }
            let w = choose|i: int| 0 <= i < total && #[trigger] lut.entries[i] == lut.degree;
            assert(lut.entries[w] < m);
            // some condition value keeps the block, so the largest output is m - 1
            let c0 = choose|y: u64| #![trigger pred@(y)] y <= d && !pred@(y);
            let x0: int = (m - 1) * m + c0;
            lemma_unpack(m - 1, c0 as int, m as int);
            assert((m - 1) * m + m == m * m) by (nonlinear_arith);
            assert(0 <= x0 < total);
            assert(((x0 as u64) / m) % m == m - 1);
            assert((x0 as u64) % m == c0);
            vstd::arithmetic::div_mod::lemma_small_mod((m - 1) as nat, total as nat);
            assert(lut.entries[x0] == m - 1);
            assert(lut.degree == m - 1);
        }
        let blocks = ct.blocks();
        let apply = |block: &Block| -> (r: Block)
            requires
                self.fits(*block),
                block.degree < m,
                self.wf(),
                self.supports_bivariate(),
                m == self.message_modulus,
                total == self.total(),
                self.fits(*condition_block),
                condition_block.degree < m,
                lut.wf_for(total),
                lut.degree < m,
                forall|i: int|
                    0 <= i < total ==> #[trigger] lut.entries[i] == zero_out_value(
                        ((i as u64) / m) % m,
                        (i as u64) % m,
                        pred@,
                    ) % (total as u64),
            ensures
                self.fits(r),
                r.degree < m,
                block.degree == 0 ==> r == *block,
                block.degree != 0 ==> r == (Block {
                    payload: zero_out_value(block.payload, condition_block.payload, pred@),
                    degree: lut.degree,
                    ..*block
                }),
            {
                let mut b = *block;
                if b.degree != 0 {
                    self.unchecked_apply_lookup_table_bivariate_assign(&mut b, condition_block, &lut);
                    proof {
                        lemma_unpack(block.payload as int, condition_block.payload as int, m as int);
                        let x: int = block.payload * m + condition_block.payload;
                        assert(block.payload * m <= (m - 1) * m) by (nonlinear_arith)
                            requires
                                block.payload <= m - 1,
                        ;
                        assert((m - 1) * m + m == m * m) by (nonlinear_arith);
                        assert(0 <= x < total);
                        assert(((x as u64) / m) % m == block.payload);
                        assert((x as u64) % m == condition_block.payload);
                        assert(lut.entries[x] == zero_out_value(block.payload, condition_block.payload, pred@) % (total as u64));
                        vstd::arithmetic::div_mod::lemma_small_mod(
                            zero_out_value(block.payload, condition_block.payload, pred@) as nat,
                            total as nat,
                        );
                    }
                }
                b
            };
        let new_blocks = par_map(blocks, apply);
        proof {
            assert forall|i: int| 0 <= i < new_blocks.len() implies #[trigger] new_blocks[i]
                == zero_out_block(*self, old_blocks[i], *condition_block, pred@) by {
                assert(self.fits(old_blocks[i]));
                assert(old_blocks[i].degree < m);
            }
            assert(new_blocks@ =~= zero_out_blocks(*self, old_blocks, *condition_block, pred@));
        }
        ct.set_blocks(new_blocks);
    }

    /// Zeroes `ct` when `condition_block` encrypts `value`.
    pub fn zero_out_if_condition_equals<T: IntegerRadixCiphertext>(
        &self,
        ct: &mut T,
        condition_block: &Block,
        value: u64,
    )
        requires
            self.wf(),
            radix_fits(*self, old(ct).spec_blocks()),
            carries_empty(old(ct).spec_blocks()),
            self.fits(*condition_block),
            condition_block.degree < self.message_modulus,
            value < self.message_modulus,
            condition_block.degree != 0 ==> self.supports_bivariate(),
        ensures
            final(ct).spec_blocks().len() == old(ct).spec_blocks().len(),
            radix_fits(*self, final(ct).spec_blocks()),
            carries_empty(final(ct).spec_blocks()),
            payloads(final(ct).spec_blocks()) == masked(
                payloads(old(ct).spec_blocks()),
                condition_block.payload == value,
            ),
            condition_block.degree == 0 && value != 0 ==> final(ct).spec_blocks() == old(
                ct,
            ).spec_blocks(),
            final(ct).spec_blocks() == zero_out_blocks(
                *self,
                old(ct).spec_blocks(),
                *condition_block,
                equals_value(value),
            ),
    {
        let equals = move |x: u64| -> (b: bool)
            ensures
                b == (x == value),
            { x == value };
        self.zero_out_if(ct, condition_block, equals, Ghost(equals_value(value)));
    }

    /// Zeroes `ct` when the boolean `condition_block` encrypts zero.
    pub fn zero_out_if_condition_is_false<T: IntegerRadixCiphertext>(
        &self,
        ct: &mut T,
        condition_block: &Block,
    )
        requires
            self.wf(),
            radix_fits(*self, old(ct).spec_blocks()),
            carries_empty(old(ct).spec_blocks()),
            self.fits(*condition_block),
            condition_block.degree <= 1,
            condition_block.degree != 0 ==> self.supports_bivariate(),
        ensures
            final(ct).spec_blocks().len() == old(ct).spec_blocks().len(),
            radix_fits(*self, final(ct).spec_blocks()),
            carries_empty(final(ct).spec_blocks()),
            payloads(final(ct).spec_blocks()) == masked(
                payloads(old(ct).spec_blocks()),
                condition_block.payload == 0,
            ),
    {
        self.zero_out_if_condition_equals(ct, condition_block, 0);
    }

    /// Selects, block by block, `true_ct` where `predicate` holds of what
    /// `condition_block` encrypts and `false_ct` elsewhere: both are masked in
    /// parallel, then added. With `do_clean_message` every sum is bootstrapped
    /// back to an empty carry; without it the caller is to apply a table soon.
    pub fn unchecked_programmable_if_then_else_parallelized<
        T: IntegerRadixCiphertext + Send + Sync,
        F: Fn(u64) -> bool + Send + Sync + Copy,
    >(
        &self,
        condition_block: &Block,
        true_ct: &T,
        false_ct: &T,
        predicate: F,
        pred: Ghost<spec_fn(u64) -> bool>,
        do_clean_message: bool,
    ) -> (r: T)
        requires
            self.wf(),
            self.supports_bivariate(),
            radix_fits(*self, true_ct.spec_blocks()),
            radix_fits(*self, false_ct.spec_blocks()),
            carries_empty(true_ct.spec_blocks()),
            carries_empty(false_ct.spec_blocks()),
            true_ct.spec_blocks().len() == false_ct.spec_blocks().len(),
            self.fits(*condition_block),
            condition_block.degree < self.message_modulus,
            forall|x: u64| predicate.requires((x,)),
            forall|x: u64, b: bool| predicate.ensures((x,), b) ==> b == pred@(x),
        ensures
            r.spec_blocks().len() == true_ct.spec_blocks().len(),
            radix_fits(*self, r.spec_blocks()),
            do_clean_message ==> carries_empty(r.spec_blocks()),
            payloads(r.spec_blocks()) == selected(
                pred@(condition_block.payload),
                payloads(true_ct.spec_blocks()),
                payloads(false_ct.spec_blocks()),
            ),
            do_clean_message ==> forall|i: int|
                0 <= i < r.spec_blocks().len() ==> (#[trigger] r.spec_blocks()[i]).degree
                    == self.message_modulus - 1,
            !do_clean_message ==> forall|i: int|
                0 <= i < r.spec_blocks().len() ==> (#[trigger] r.spec_blocks()[i]).degree
                    == zero_out_blocks(
                    *self,
                    true_ct.spec_blocks(),
                    *condition_block,
                    negated(pred@),
                )[i].degree + zero_out_blocks(
                    *self,
                    false_ct.spec_blocks(),
                    *condition_block,
                    pred@,
                )[i].degree,
    {
        let inverted_predicate = move |x: u64| -> (b: bool)
            requires
                forall|x: u64| predicate.requires((x,)),
                forall|x: u64, b: bool| predicate.ensures((x,), b) ==> b == pred@(x),
            ensures
                b == !pred@(x),
            { !predicate(x) };
        let keep_true = move || -> (t: T)
            requires
                self.wf(),
                self.supports_bivariate(),
                radix_fits(*self, true_ct.spec_blocks()),
                carries_empty(true_ct.spec_blocks()),
                self.fits(*condition_block),
                condition_block.degree < self.message_modulus,
                forall|x: u64| predicate.requires((x,)),
                forall|x: u64, b: bool| predicate.ensures((x,), b) ==> b == pred@(x),
            ensures
                t.spec_blocks() == zero_out_blocks(
                    *self,
                    true_ct.spec_blocks(),
                    *condition_block,
                    negated(pred@),
                ),
                t.spec_blocks().len() == true_ct.spec_blocks().len(),
                radix_fits(*self, t.spec_blocks()),
                carries_empty(t.spec_blocks()),
                payloads(t.spec_blocks()) == masked(
                    payloads(true_ct.spec_blocks()),
                    !pred@(condition_block.payload),
                ),
            {
                let mut t = duplicate_radix(true_ct);
                self.zero_out_if(&mut t, condition_block, inverted_predicate, Ghost(negated(pred@)));
                t
            };
        let keep_false = move || -> (f: T)
            requires
                self.wf(),
                self.supports_bivariate(),
                radix_fits(*self, false_ct.spec_blocks()),
                carries_empty(false_ct.spec_blocks()),
                self.fits(*condition_block),
                condition_block.degree < self.message_modulus,
                forall|x: u64| predicate.requires((x,)),
                forall|x: u64, b: bool| predicate.ensures((x,), b) ==> b == pred@(x),
            ensures
                f.spec_blocks() == zero_out_blocks(*self, false_ct.spec_blocks(), *condition_block, pred@),
                f.spec_blocks().len() == false_ct.spec_blocks().len(),
                radix_fits(*self, f.spec_blocks()),
                carries_empty(f.spec_blocks()),
                payloads(f.spec_blocks()) == masked(
                    payloads(false_ct.spec_blocks()),
                    pred@(condition_block.payload),
                ),
            {
                let mut f = duplicate_radix(false_ct);
                self.zero_out_if(&mut f, condition_block, predicate, pred);
                f
            };
        let (kept_true, kept_false) = join(keep_true, keep_false);
        let ghost c = pred@(condition_block.payload);
        let ghost tp = payloads(true_ct.spec_blocks());
        let ghost fp = payloads(false_ct.spec_blocks());
        proof {
            lemma_bivariate_leaves_carry_room(*self);
        }
        let lhs = kept_true.blocks();
        let rhs = kept_false.blocks();
        let n = lhs.len();
        let mut pairs: Vec<(Block, Block)> = Vec::new();
        let mut i: usize = 0;
        while i < n
            invariant
                i <= n,
                n == lhs.len(),
                n == rhs.len(),
                pairs.len() == i,
                forall|k: int| 0 <= k < i ==> (#[trigger] pairs[k]) == (lhs[k], rhs[k]),
            decreases n - i,
        {
            pairs.push((lhs[i], rhs[i]));
            i = i + 1;
        }
        let ghost lhs_view = lhs@;
        let ghost rhs_view = rhs@;
        proof {
            assert forall|k: int| 0 <= k < n implies #[trigger] sum_fits(*self, pairs[k]) by {
                assert(self.fits(lhs_view[k]));
                assert(self.fits(rhs_view[k]));
                assert(payloads(lhs_view)[k] == masked(tp, !c)[k]);
                assert(payloads(rhs_view)[k] == masked(fp, c)[k]);
            }
        }
        let summed = if do_clean_message {
            let add_and_clean = |pair: &(Block, Block)| -> (r: Block)
                requires
                    self.wf(),
                    sum_fits(*self, *pair),
                ensures
                    r == (Block { payload: (pair.0.payload + pair.1.payload) as u64, degree: (self.message_modulus - 1) as u64, ..pair.0 }),
                    self.fits(r),
                {
                    let mut b = pair.0;
                    self.unchecked_add_assign(&mut b, &pair.1);
                    self.message_extract_assign(&mut b);
                    proof {
                        vstd::arithmetic::div_mod::lemma_small_mod(
                            (pair.0.payload + pair.1.payload) as nat,
                            self.message_modulus as nat,
                        );
                    }
                    b
                };
            par_map(&pairs, add_and_clean)
        } else {
            let mut out: Vec<Block> = Vec::new();
            let mut i: usize = 0;
            while i < n
                invariant
                    self.wf(),
                    i <= n,
                    n == pairs.len(),
                    out.len() == i,
                    forall|k: int| 0 <= k < n ==> #[trigger] sum_fits(*self, pairs[k]),
                    forall|k: int|
                        0 <= k < i ==> #[trigger] out[k] == (Block {
                            payload: (pairs[k].0.payload + pairs[k].1.payload) as u64,
                            degree: (pairs[k].0.degree + pairs[k].1.degree) as u64,
                            ..pairs[k].0
                        }),
                    forall|k: int| 0 <= k < i ==> self.fits(#[trigger] out[k]),
                decreases n - i,
            {
                let pair = &pairs[i];
                assert(sum_fits(*self, pairs[i as int]));
                let mut b = pair.0;
                self.unchecked_add_assign(&mut b, &pair.1);
                out.push(b);
                i = i + 1;
            }
            out
        };
        proof {
            assert forall|k: int| 0 <= k < n implies self.fits(#[trigger] summed[k]) && summed[k].payload
                == selected(c, tp, fp)[k] && (do_clean_message ==> summed[k].degree
                < summed[k].message_modulus && summed[k].degree == self.message_modulus - 1) && (
            !do_clean_message ==> summed[k].degree == lhs_view[k].degree + rhs_view[k].degree) by {
                assert(sum_fits(*self, pairs[k]));
                assert(pairs[k] == (lhs_view[k], rhs_view[k]));
                assert(payloads(lhs_view)[k] == masked(tp, !c)[k]);
                assert(payloads(rhs_view)[k] == masked(fp, c)[k]);
            }
            assert(payloads(summed@) =~= selected(c, tp, fp));
        }
        T::from_blocks(summed)
    }
}

/// What a ciphertext/ciphertext selection may assume of its operands.
pub open spec fn select_operands_ok<T: IntegerRadixCiphertext>(
    key: ServerKey,
    condition: BooleanBlock,
    true_ct: T,
    false_ct: T,
) -> bool {
    &&& key.wf()
    &&& key.supports_bivariate()
    &&& radix_fits(key, true_ct.spec_blocks())
    &&& radix_fits(key, false_ct.spec_blocks())
    &&& true_ct.spec_blocks().len() == false_ct.spec_blocks().len()
    &&& condition.wf()
    &&& key.fits(condition.0)
}

impl ServerKey {
    /// Encrypted selection of operands whose carries are already empty: the
    /// result encrypts `true_ct` where `condition` encrypts 1 and `false_ct`
    /// where it encrypts 0, with every carry empty.
    pub fn unchecked_if_then_else_parallelized<T: IntegerRadixCiphertext + Send + Sync>(
        &self,
        condition: &BooleanBlock,
        true_ct: &T,
        false_ct: &T,
    ) -> (r: T)
        requires
            select_operands_ok(*self, *condition, *true_ct, *false_ct),
            carries_empty(true_ct.spec_blocks()),
            carries_empty(false_ct.spec_blocks()),
        ensures
            r.spec_blocks().len() == true_ct.spec_blocks().len(),
            radix_fits(*self, r.spec_blocks()),
            carries_empty(r.spec_blocks()),
            payloads(r.spec_blocks()) == selected(
                condition.0.payload == 1,
                payloads(true_ct.spec_blocks()),
                payloads(false_ct.spec_blocks()),
            ),
            forall|i: int|
                0 <= i < r.spec_blocks().len() ==> (#[trigger] r.spec_blocks()[i]).degree
                    == self.message_modulus - 1,
    {
        let condition_block = &condition.0;
        let do_clean_message = true;
        let is_one = |x: u64| -> (b: bool)
            ensures
                b == (x == 1),
            { x == 1 };
        self.unchecked_programmable_if_then_else_parallelized(
            condition_block,
            true_ct,
            false_ct,
            is_one,
            Ghost(equals_value(1)),
            do_clean_message,
        )
    }

    /// Another name for [`Self::unchecked_if_then_else_parallelized`].
    pub fn unchecked_cmux<T: IntegerRadixCiphertext + Send + Sync>(
        &self,
        condition: &BooleanBlock,
        true_ct: &T,
        false_ct: &T,
    ) -> (r: T)
        requires
            select_operands_ok(*self, *condition, *true_ct, *false_ct),
            carries_empty(true_ct.spec_blocks()),
            carries_empty(false_ct.spec_blocks()),
        ensures
            r.spec_blocks().len() == true_ct.spec_blocks().len(),
            radix_fits(*self, r.spec_blocks()),
            carries_empty(r.spec_blocks()),
            payloads(r.spec_blocks()) == selected(
                condition.0.payload == 1,
                payloads(true_ct.spec_blocks()),
                payloads(false_ct.spec_blocks()),
            ),
            forall|i: int|
                0 <= i < r.spec_blocks().len() ==> (#[trigger] r.spec_blocks()[i]).degree
                    == self.message_modulus - 1,
    {
        self.unchecked_if_then_else_parallelized(condition, true_ct, false_ct)
    }

    /// A copy of `ct` with empty carries: propagated when some carry is
    /// pending.
    pub(crate) fn normalized_copy<T: IntegerRadixCiphertext>(&self, ct: &T) -> (r: T)
        requires
            self.wf(),
            radix_fits(*self, ct.spec_blocks()),
        ensures
            r.spec_blocks() == normalized(ct.spec_blocks(), self.message_modulus as int),
            radix_fits(*self, r.spec_blocks()),
            carries_empty(r.spec_blocks()),
    {
        let mut copy = duplicate_radix(ct);
        if !block_carries_are_empty(ct) {
            self.full_propagate_parallelized(&mut copy);
        }
        copy
    }

    /// A propagated copy of `ct`, or `None` when no carry is pending.
    fn propagated_if_needed<T: IntegerRadixCiphertext>(&self, ct: &T) -> (r: Option<T>)
        requires
            self.wf(),
            radix_fits(*self, ct.spec_blocks()),
        ensures
            r.is_none() <==> carries_empty(ct.spec_blocks()),
            r matches Some(t) ==> t.spec_blocks() == propagated(
                ct.spec_blocks(),
                self.message_modulus as int,
            ),
    {
        if block_carries_are_empty(ct) {
            None
        } else {
            let mut copy = duplicate_radix(ct);
            self.full_propagate_parallelized(&mut copy);
            Some(copy)
        }
    }

    /// Encrypted selection: the result encrypts `true_ct` where `condition`
    /// encrypts 1 and `false_ct` where it encrypts 0. Operands with pending
    /// carries are propagated first, on private copies.
    pub fn if_then_else_parallelized<T: IntegerRadixCiphertext + Send + Sync>(
        &self,
        condition: &BooleanBlock,
        true_ct: &T,
        false_ct: &T,
    ) -> (r: T)
        requires
            select_operands_ok(*self, *condition, *true_ct, *false_ct),
        ensures
            r.spec_blocks().len() == true_ct.spec_blocks().len(),
            radix_fits(*self, r.spec_blocks()),
            carries_empty(r.spec_blocks()),
            payloads(r.spec_blocks()) == selected(
                condition.0.payload == 1,
                payloads(normalized(true_ct.spec_blocks(), self.message_modulus as int)),
                payloads(normalized(false_ct.spec_blocks(), self.message_modulus as int)),
            ),
            condition.0.payload == 1 ==> decrypted(r.spec_blocks(), self.message_modulus as int)
                == decrypted(true_ct.spec_blocks(), self.message_modulus as int),
            condition.0.payload == 0 ==> decrypted(r.spec_blocks(), self.message_modulus as int)
                == decrypted(false_ct.spec_blocks(), self.message_modulus as int),
            forall|i: int|
                0 <= i < r.spec_blocks().len() ==> (#[trigger] r.spec_blocks()[i]).degree
                    == self.message_modulus - 1,
    {
        let copy_true = move || -> (t: T)
            requires
                self.wf(),
                radix_fits(*self, true_ct.spec_blocks()),
            ensures
                t.spec_blocks() == normalized(true_ct.spec_blocks(), self.message_modulus as int),
                radix_fits(*self, t.spec_blocks()),
                carries_empty(t.spec_blocks()),
            { self.normalized_copy(true_ct) };
        let copy_false = move || -> (f: T)
            requires
                self.wf(),
                radix_fits(*self, false_ct.spec_blocks()),
            ensures
                f.spec_blocks() == normalized(false_ct.spec_blocks(), self.message_modulus as int),
                radix_fits(*self, f.spec_blocks()),
                carries_empty(f.spec_blocks()),
            { self.normalized_copy(false_ct) };
        let (true_copy, false_copy) = join(copy_true, copy_false);
        let r = self.unchecked_if_then_else_parallelized(condition, &true_copy, &false_copy);
        proof {
            let m = self.message_modulus as int;
            lemma_total_at_least_message(m, self.carry_modulus as int);
            assert forall|i: int| 0 <= i < true_ct.spec_blocks().len() implies (
            #[trigger] true_ct.spec_blocks()[i]).message_modulus == m && true_ct.spec_blocks()[i].wf() by {
                assert(self.fits(true_ct.spec_blocks()[i]));
            }
            assert forall|i: int| 0 <= i < false_ct.spec_blocks().len() implies (
            #[trigger] false_ct.spec_blocks()[i]).message_modulus == m && false_ct.spec_blocks()[i].wf() by {
                assert(self.fits(false_ct.spec_blocks()[i]));
            }
            if condition.0.payload == 1 {
                lemma_normalized_decrypts_same(true_ct.spec_blocks(), r.spec_blocks(), m);
            } else if condition.0.payload == 0 {
                lemma_normalized_decrypts_same(false_ct.spec_blocks(), r.spec_blocks(), m);
            }
        }
        r
    }

    /// Another name for [`Self::if_then_else_parallelized`].
    pub fn cmux_parallelized<T: IntegerRadixCiphertext + Send + Sync>(
        &self,
        condition: &BooleanBlock,
        true_ct: &T,
        false_ct: &T,
    ) -> (r: T)
        requires
            select_operands_ok(*self, *condition, *true_ct, *false_ct),
        ensures
            r.spec_blocks().len() == true_ct.spec_blocks().len(),
            radix_fits(*self, r.spec_blocks()),
            carries_empty(r.spec_blocks()),
            payloads(r.spec_blocks()) == selected(
                condition.0.payload == 1,
                payloads(normalized(true_ct.spec_blocks(), self.message_modulus as int)),
                payloads(normalized(false_ct.spec_blocks(), self.message_modulus as int)),
            ),
            condition.0.payload == 1 ==> decrypted(r.spec_blocks(), self.message_modulus as int)
                == decrypted(true_ct.spec_blocks(), self.message_modulus as int),
            condition.0.payload == 0 ==> decrypted(r.spec_blocks(), self.message_modulus as int)
                == decrypted(false_ct.spec_blocks(), self.message_modulus as int),
            forall|i: int|
                0 <= i < r.spec_blocks().len() ==> (#[trigger] r.spec_blocks()[i]).degree
                    == self.message_modulus - 1,
    {
        self.if_then_else_parallelized(condition, true_ct, false_ct)
    }

    /// Another name for [`Self::if_then_else_parallelized`].
    pub fn select_parallelized<T: IntegerRadixCiphertext + Send + Sync>(
        &self,
        condition: &BooleanBlock,
        ct_when_true: &T,
        ct_when_false: &T,
    ) -> (r: T)
        requires
            select_operands_ok(*self, *condition, *ct_when_true, *ct_when_false),
        ensures
            r.spec_blocks().len() == ct_when_true.spec_blocks().len(),
            radix_fits(*self, r.spec_blocks()),
            carries_empty(r.spec_blocks()),
            payloads(r.spec_blocks()) == selected(
                condition.0.payload == 1,
                payloads(normalized(ct_when_true.spec_blocks(), self.message_modulus as int)),
                payloads(normalized(ct_when_false.spec_blocks(), self.message_modulus as int)),
            ),
            condition.0.payload == 1 ==> decrypted(r.spec_blocks(), self.message_modulus as int)
                == decrypted(ct_when_true.spec_blocks(), self.message_modulus as int),
            condition.0.payload == 0 ==> decrypted(r.spec_blocks(), self.message_modulus as int)
                == decrypted(ct_when_false.spec_blocks(), self.message_modulus as int),
            forall|i: int|
                0 <= i < r.spec_blocks().len() ==> (#[trigger] r.spec_blocks()[i]).degree
                    == self.message_modulus - 1,
    {
        self.if_then_else_parallelized(condition, ct_when_true, ct_when_false)
    }

    /// Encrypted selection that normalizes its operands in place: pending
    /// carries of `true_ct` and `false_ct` are propagated into them, and the
    /// condition is left as it is (a boolean block never holds a carry).
    pub fn smart_if_then_else_parallelized<T: IntegerRadixCiphertext + Send + Sync>(
        &self,
        condition: &mut BooleanBlock,
        true_ct: &mut T,
        false_ct: &mut T,
    ) -> (r: T)
        requires
            select_operands_ok(*self, *old(condition), *old(true_ct), *old(false_ct)),
        ensures
            *final(condition) == *old(condition),
            final(true_ct).spec_blocks() == normalized(
                old(true_ct).spec_blocks(),
                self.message_modulus as int,
            ),
            final(false_ct).spec_blocks() == normalized(
                old(false_ct).spec_blocks(),
                self.message_modulus as int,
            ),
            r.spec_blocks().len() == old(true_ct).spec_blocks().len(),
            radix_fits(*self, r.spec_blocks()),
            carries_empty(r.spec_blocks()),
            payloads(r.spec_blocks()) == selected(
                old(condition).0.payload == 1,
                payloads(final(true_ct).spec_blocks()),
                payloads(final(false_ct).spec_blocks()),
            ),
            old(condition).0.payload == 1 ==> decrypted(r.spec_blocks(), self.message_modulus as int)
                == decrypted(old(true_ct).spec_blocks(), self.message_modulus as int),
            old(condition).0.payload == 0 ==> decrypted(r.spec_blocks(), self.message_modulus as int)
                == decrypted(old(false_ct).spec_blocks(), self.message_modulus as int),
            forall|i: int|
                0 <= i < r.spec_blocks().len() ==> (#[trigger] r.spec_blocks()[i]).degree
                    == self.message_modulus - 1,
    {
        if !condition.0.carry_is_empty() {
            self.message_extract_assign(&mut condition.0);
        }
        let true_ref: &T = &*true_ct;
        let false_ref: &T = &*false_ct;
        let propagate_true = move || -> (o: Option<T>)
            requires
                self.wf(),
                radix_fits(*self, true_ref.spec_blocks()),
            ensures
                o.is_none() <==> carries_empty(true_ref.spec_blocks()),
                o matches Some(t) ==> t.spec_blocks() == propagated(
                    true_ref.spec_blocks(),
                    self.message_modulus as int,
                ),
            { self.propagated_if_needed(true_ref) };
        let propagate_false = move || -> (o: Option<T>)
            requires
                self.wf(),
                radix_fits(*self, false_ref.spec_blocks()),
            ensures
                o.is_none() <==> carries_empty(false_ref.spec_blocks()),
                o matches Some(f) ==> f.spec_blocks() == propagated(
                    false_ref.spec_blocks(),
                    self.message_modulus as int,
                ),
            { self.propagated_if_needed(false_ref) };
        let (new_true, new_false) = join(propagate_true, propagate_false);
        if let Some(t) = new_true {
            *true_ct = t;
        }
        if let Some(f) = new_false {
            *false_ct = f;
        }
        proof {
            lemma_propagated_fits(*self, old(true_ct).spec_blocks());
            lemma_propagated_fits(*self, old(false_ct).spec_blocks());
        }
        let r = self.unchecked_if_then_else_parallelized(condition, true_ct, false_ct);
        proof {
            let m = self.message_modulus as int;
            lemma_total_at_least_message(m, self.carry_modulus as int);
            let t0 = old(true_ct).spec_blocks();
            let f0 = old(false_ct).spec_blocks();
            assert forall|i: int| 0 <= i < t0.len() implies (#[trigger] t0[i]).message_modulus == m
                && t0[i].wf() by {
                assert(self.fits(t0[i]));
            }
            assert forall|i: int| 0 <= i < f0.len() implies (#[trigger] f0[i]).message_modulus == m
                && f0[i].wf() by {
                assert(self.fits(f0[i]));
            }
            if condition.0.payload == 1 {
                lemma_normalized_decrypts_same(t0, r.spec_blocks(), m);
            } else if condition.0.payload == 0 {
                lemma_normalized_decrypts_same(f0, r.spec_blocks(), m);
            }
        }
        r
    }

    /// Another name for [`Self::smart_if_then_else_parallelized`].
    pub fn smart_cmux_parallelized<T: IntegerRadixCiphertext + Send + Sync>(
        &self,
        condition: &mut BooleanBlock,
        true_ct: &mut T,
        false_ct: &mut T,
    ) -> (r: T)
        requires
            select_operands_ok(*self, *old(condition), *old(true_ct), *old(false_ct)),
        ensures
            *final(condition) == *old(condition),
            final(true_ct).spec_blocks() == normalized(
                old(true_ct).spec_blocks(),
                self.message_modulus as int,
            ),
            final(false_ct).spec_blocks() == normalized(
                old(false_ct).spec_blocks(),
                self.message_modulus as int,
            ),
            r.spec_blocks().len() == old(true_ct).spec_blocks().len(),
            radix_fits(*self, r.spec_blocks()),
            carries_empty(r.spec_blocks()),
            payloads(r.spec_blocks()) == selected(
                old(condition).0.payload == 1,
                payloads(final(true_ct).spec_blocks()),
                payloads(final(false_ct).spec_blocks()),
            ),
            old(condition).0.payload == 1 ==> decrypted(r.spec_blocks(), self.message_modulus as int)
                == decrypted(old(true_ct).spec_blocks(), self.message_modulus as int),
            old(condition).0.payload == 0 ==> decrypted(r.spec_blocks(), self.message_modulus as int)
                == decrypted(old(false_ct).spec_blocks(), self.message_modulus as int),
            forall|i: int|
                0 <= i < r.spec_blocks().len() ==> (#[trigger] r.spec_blocks()[i]).degree
                    == self.message_modulus - 1,
    {
        self.smart_if_then_else_parallelized(condition, true_ct, false_ct)
    }
}

/// `t` where `c` holds, `f` elsewhere, position by position.
pub open spec fn selected(c: bool, t: Seq<int>, f: Seq<int>) -> Seq<int> {
    if c {
        t
    } else {
        f
    }
}

/// Both blocks are valid message blocks under `key` and one of them is zero.
pub open spec fn sum_fits(key: ServerKey, pair: (Block, Block)) -> bool {
    &&& key.fits(pair.0)
    &&& key.fits(pair.1)
    &&& pair.0.degree < key.message_modulus
    &&& pair.1.degree < key.message_modulus
    &&& 2 * key.message_modulus <= key.total()
    &&& (pair.0.payload == 0 || pair.1.payload == 0)
}

/// A key that packs two messages into one plaintext can also add two.
proof fn lemma_bivariate_leaves_carry_room(key: ServerKey)
    requires
        key.wf(),
        key.supports_bivariate(),
    ensures
        2 * key.message_modulus <= key.total(),
{
    let m = key.message_modulus as int;
    let c = key.carry_modulus as int;
    assert(2 * m <= m * c) by (nonlinear_arith)
        requires
            2 <= m,
            m * m <= m * c,
    ;
}

} // verus!
