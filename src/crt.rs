//! Scalar addition on CRT ciphertexts: one independent block addition per
//! residue channel, under the three safety tiers.
use crate::block::{Block, CheckError};
use crate::ciphertext::CrtCiphertext;
use crate::server_key::ServerKey;
use vstd::prelude::*;

verus! {

/// The part of `scalar` that channel `i` receives.
pub open spec fn channel_scalar(ct: CrtCiphertext, scalar: u64, i: int) -> int {
    scalar as int % ct.moduli[i] as int
}

/// Channel `i` can take its part of `scalar` without leaving its plaintext
/// space.
pub open spec fn channel_fits(ct: CrtCiphertext, scalar: u64, i: int) -> bool {
    ct.blocks[i].degree + channel_scalar(ct, scalar, i) < ct.blocks[i].total()
}

/// Every channel can take its part of `scalar`.
pub open spec fn crt_scalar_add_fits(ct: CrtCiphertext, scalar: u64) -> bool {
    forall|i: int| 0 <= i < ct.blocks.len() ==> #[trigger] channel_fits(ct, scalar, i)
}

/// `e` reports the first channel that cannot take its part of `scalar`.
pub open spec fn is_first_overflow(ct: CrtCiphertext, scalar: u64, e: CheckError) -> bool {
    match e {
        CheckError::CarryFull { block_index, degree, max_degree } => {
            &&& block_index < ct.blocks.len()
            &&& forall|i: int| 0 <= i < block_index ==> #[trigger] channel_fits(ct, scalar, i)
            &&& !channel_fits(ct, scalar, block_index as int)
            &&& degree == ct.blocks[block_index as int].degree + channel_scalar(
                ct,
                scalar,
                block_index as int,
            )
            &&& max_degree == ct.blocks[block_index as int].total() - 1
        },
    }
}

/// Block `b` after its channel received `s`.
pub open spec fn block_plus(b: Block, s: int) -> Block {
    Block { payload: (b.payload + s) as u64, degree: (b.degree + s) as u64, ..b }
}

/// `blocks` after each channel received `scalar` modulo its modulus.
pub open spec fn added_blocks(blocks: Seq<Block>, moduli: Seq<u64>, scalar: u64) -> Seq<Block> {
    Seq::new(blocks.len(), |i: int| block_plus(blocks[i], scalar as int % moduli[i] as int))
}

/// The blocks of `ct` after each channel received its part of `scalar`.
pub open spec fn crt_scalar_added(ct: CrtCiphertext, scalar: u64) -> Seq<Block> {
    added_blocks(ct.blocks@, ct.moduli@, scalar)
}

/// Every channel has a carry space of at least one extra message.
pub open spec fn has_carry_room(ct: CrtCiphertext) -> bool {
    forall|i: int| 0 <= i < ct.blocks.len() ==> 2 <= (#[trigger] ct.blocks[i]).carry_modulus
}

/// Block `b` after a message extraction.
pub open spec fn block_extracted(b: Block) -> Block {
    Block { payload: b.payload % b.message_modulus, degree: (b.message_modulus - 1) as u64, ..b }
}

/// The blocks of `ct` after a message extraction of every channel.
pub open spec fn crt_extracted(ct: CrtCiphertext) -> Seq<Block> {
    ct.blocks@.map_values(|b: Block| block_extracted(b))
}

/// Scalar addition acts on the represented integer: if `x` has the residues
/// of `ct`, then `x + scalar` has the residues of the sum.
pub proof fn lemma_crt_scalar_add_residues(ct: CrtCiphertext, scalar: u64, x: int)
    requires
        ct.wf(),
        crt_scalar_add_fits(ct, scalar),
        forall|i: int| 0 <= i < ct.blocks.len() ==> x % ct.moduli[i] as int == #[trigger] ct.residue(i),
    ensures
        forall|i: int|
            0 <= i < ct.blocks.len() ==> (x + scalar) % ct.moduli[i] as int == (
            #[trigger] crt_scalar_added(ct, scalar)[i]).payload as int % ct.moduli[i] as int,
{
    assert forall|i: int| 0 <= i < ct.blocks.len() implies (x + scalar) % ct.moduli[i] as int == (
    #[trigger] crt_scalar_added(ct, scalar)[i]).payload as int % ct.moduli[i] as int by {
        let m = ct.moduli[i] as int;
        let p = ct.blocks[i].payload as int;
        let s = scalar as int;
        assert(ct.blocks[i].wf());
        assert(x % m == ct.residue(i));
        assert(channel_fits(ct, scalar, i));
        assert(crt_scalar_added(ct, scalar)[i].payload == p + s % m);
        vstd::arithmetic::div_mod::lemma_add_mod_noop(x, s, m);
        vstd::arithmetic::div_mod::lemma_add_mod_noop(p, s % m, m);
        vstd::arithmetic::div_mod::lemma_small_mod((s % m) as nat, m as nat);
        vstd::arithmetic::div_mod::lemma_add_mod_noop(p, s, m);
    }
}

impl ServerKey {
    /// Adds `scalar` to `ct` without checking capacity; the sum is returned.
    pub fn unchecked_crt_scalar_add(&self, ct: &CrtCiphertext, scalar: u64) -> (r: CrtCiphertext)
        requires
            ct.wf(),
            crt_scalar_add_fits(*ct, scalar),
        ensures
            r.wf(),
            r.blocks@ == crt_scalar_added(*ct, scalar),
            r.moduli@ == ct.moduli@,
    {
        let mut result = ct.duplicate();
        proof {
            assert forall|i: int| 0 <= i < result.blocks.len() implies #[trigger] channel_fits(
                result,
                scalar,
                i,
            ) by {
                assert(channel_fits(*ct, scalar, i));
            }
            assert(crt_scalar_added(result, scalar) =~= crt_scalar_added(*ct, scalar));
        }
        self.unchecked_crt_scalar_add_assign(&mut result, scalar);
        result
    }

    /// Adds `scalar` to `ct` in place without checking capacity.
    pub fn unchecked_crt_scalar_add_assign(&self, ct: &mut CrtCiphertext, scalar: u64)
        requires
            old(ct).wf(),
            crt_scalar_add_fits(*old(ct), scalar),
        ensures
            final(ct).wf(),
            final(ct).blocks@ == crt_scalar_added(*old(ct), scalar),
            final(ct).moduli@ == old(ct).moduli@,
    {
        let ghost start = *ct;
        let mut i: usize = 0;
        while i < ct.blocks.len()
            invariant
                start.wf(),
                crt_scalar_add_fits(start, scalar),
                ct.moduli@ == start.moduli@,
                ct.blocks.len() == start.blocks.len(),
                i <= ct.blocks.len(),
                forall|k: int|
                    0 <= k < i ==> #[trigger] ct.blocks[k] == crt_scalar_added(start, scalar)[k],
                forall|k: int| i <= k < ct.blocks.len() ==> #[trigger] ct.blocks[k] == start.blocks[k],
            decreases ct.blocks.len() - i,
        {
            assert(channel_fits(start, scalar, i as int));
            assert(start.blocks[i as int].wf());
            let scalar_i = scalar % ct.moduli[i];
            let mut b = ct.blocks[i];
            self.unchecked_scalar_add_assign(&mut b, scalar_i);
            ct.blocks.set(i, b);
            i = i + 1;
        }
        proof {
            assert(ct.blocks@ =~= crt_scalar_added(start, scalar));
            assert forall|k: int| 0 <= k < ct.blocks.len() implies (#[trigger] ct.blocks[k]).wf()
                && ct.blocks[k].message_modulus == ct.moduli[k] by {
                assert(channel_fits(start, scalar, k));
                assert(start.blocks[k].wf());
            }
        }
    }

    /// Checks that every channel can take its part of `scalar`; the error
    /// names the first one that cannot.
    pub fn is_crt_scalar_add_possible(&self, ct: &CrtCiphertext, scalar: u64) -> (r: Result<
        (),
        CheckError,
    >)
        requires
            ct.wf(),
        ensures
            r.is_ok() <==> crt_scalar_add_fits(*ct, scalar),
            r matches Err(e) ==> is_first_overflow(*ct, scalar, e),
    {
        let mut i: usize = 0;
        while i < ct.blocks.len()
            invariant
                ct.wf(),
                i <= ct.blocks.len(),
                forall|k: int| 0 <= k < i ==> #[trigger] channel_fits(*ct, scalar, k),
            decreases ct.blocks.len() - i,
        {
            let b = ct.blocks[i];
            assert(ct.blocks[i as int].wf());
            let scalar_i = scalar % ct.moduli[i];
            let total = b.total_modulus();
            assert(b.wf());
            proof {
                crate::block::lemma_total_at_least_message(b.message_modulus as int, b.carry_modulus as int);
            }
            if b.degree + scalar_i >= total {
                assert(!channel_fits(*ct, scalar, i as int));
                return Err(
                    CheckError::CarryFull {
                        block_index: i,
                        degree: b.degree + scalar_i,
                        max_degree: total - 1,
                    },
                );
            }
            i = i + 1;
        }
        Ok(())
    }

    /// Adds `scalar` to `ct` if every channel has room; the sum is returned
    /// and `ct` is left as it was.
    pub fn checked_crt_scalar_add(&self, ct: &CrtCiphertext, scalar: u64) -> (r: Result<
        CrtCiphertext,
        CheckError,
    >)
        requires
            ct.wf(),
        ensures
            r.is_ok() <==> crt_scalar_add_fits(*ct, scalar),
            r matches Ok(sum) ==> sum.wf() && sum.blocks@ == crt_scalar_added(*ct, scalar)
                && sum.moduli@ == ct.moduli@,
            r matches Err(e) ==> is_first_overflow(*ct, scalar, e),
    {
        match self.is_crt_scalar_add_possible(ct, scalar) {
            Ok(()) => Ok(self.unchecked_crt_scalar_add(ct, scalar)),
            Err(e) => Err(e),
        }
    }

    /// Adds `scalar` to `ct` in place if every channel has room; otherwise
    /// `ct` is left untouched.
    pub fn checked_crt_scalar_add_assign(&self, ct: &mut CrtCiphertext, scalar: u64) -> (r: Result<
        (),
        CheckError,
    >)
        requires
            old(ct).wf(),
        ensures
            r.is_ok() <==> crt_scalar_add_fits(*old(ct), scalar),
            r.is_ok() ==> final(ct).wf() && final(ct).blocks@ == crt_scalar_added(*old(ct), scalar)
                && final(ct).moduli@ == old(ct).moduli@,
            r matches Err(e) ==> is_first_overflow(*old(ct), scalar, e) && *final(ct) == *old(ct),
    {
        match self.is_crt_scalar_add_possible(ct, scalar) {
            Ok(()) => {
                self.unchecked_crt_scalar_add_assign(ct, scalar);
                Ok(())
            },
            Err(e) => Err(e),
        }
    }

    /// Drops the carries of every channel.
    pub fn full_extract_message_assign(&self, ct: &mut CrtCiphertext)
        requires
            old(ct).wf(),
        ensures
            final(ct).wf(),
            final(ct).blocks@ == crt_extracted(*old(ct)),
            final(ct).moduli@ == old(ct).moduli@,
    {
        let ghost start = *ct;
        let mut i: usize = 0;
        while i < ct.blocks.len()
            invariant
                start.wf(),
                ct.moduli@ == start.moduli@,
                ct.blocks.len() == start.blocks.len(),
                i <= ct.blocks.len(),
                forall|k: int| 0 <= k < i ==> #[trigger] ct.blocks[k] == crt_extracted(start)[k],
                forall|k: int| i <= k < ct.blocks.len() ==> #[trigger] ct.blocks[k] == start.blocks[k],
            decreases ct.blocks.len() - i,
        {
            let mut b = ct.blocks[i];
            assert(start.blocks[i as int].wf());
            self.message_extract_assign(&mut b);
            assert(b == crt_extracted(start)[i as int]);
            ct.blocks.set(i, b);
            i = i + 1;
        }
        proof {
            assert(ct.blocks@ =~= crt_extracted(start));
            assert forall|k: int| 0 <= k < ct.blocks.len() implies (#[trigger] ct.blocks[k]).wf()
                && ct.blocks[k].message_modulus == ct.moduli[k] by {
                assert(start.blocks[k].wf());
                crate::block::lemma_total_at_least_message(
                    start.blocks[k].message_modulus as int,
                    start.blocks[k].carry_modulus as int,
                );
            }
        }
    }

    /// Adds `scalar` to `ct`, first dropping the carries of `ct` in place when
    /// some channel has no room; the sum is returned.
    pub fn smart_crt_scalar_add(&self, ct: &mut CrtCiphertext, scalar: u64) -> (r: CrtCiphertext)
        requires
            old(ct).wf(),
            crt_scalar_add_fits(*old(ct), scalar) || has_carry_room(*old(ct)),
        ensures
            crt_scalar_add_fits(*old(ct), scalar) ==> *final(ct) == *old(ct),
            !crt_scalar_add_fits(*old(ct), scalar) ==> final(ct).blocks@ == crt_extracted(*old(ct)),
            final(ct).wf(),
            final(ct).moduli@ == old(ct).moduli@,
            r.wf(),
            r.blocks@ == crt_scalar_added(*final(ct), scalar),
            r.moduli@ == old(ct).moduli@,
    {
        if self.is_crt_scalar_add_possible(ct, scalar).is_err() {
            self.full_extract_message_assign(ct);
            proof {
                lemma_extracted_fits(*old(ct), *ct, scalar);
            }
        }
        let mut result = ct.duplicate();
        proof {
            assert forall|i: int| 0 <= i < result.blocks.len() implies #[trigger] channel_fits(
                result,
                scalar,
                i,
            ) by {
                assert(channel_fits(*ct, scalar, i));
            }
            assert(crt_scalar_added(result, scalar) =~= crt_scalar_added(*ct, scalar));
        }
        self.unchecked_crt_scalar_add_assign(&mut result, scalar);
        result
    }

    /// Adds `scalar` to `ct` in place, first dropping its carries when some
    /// channel has no room.
    pub fn smart_crt_scalar_add_assign(&self, ct: &mut CrtCiphertext, scalar: u64)
        requires
            old(ct).wf(),
            crt_scalar_add_fits(*old(ct), scalar) || has_carry_room(*old(ct)),
        ensures
            final(ct).wf(),
            final(ct).moduli@ == old(ct).moduli@,
            crt_scalar_add_fits(*old(ct), scalar) ==> final(ct).blocks@ == crt_scalar_added(
                *old(ct),
                scalar,
            ),
            !crt_scalar_add_fits(*old(ct), scalar) ==> final(ct).blocks@ == added_blocks(
                crt_extracted(*old(ct)),
                old(ct).moduli@,
                scalar,
            ),
    {
        if self.is_crt_scalar_add_possible(ct, scalar).is_err() {
            self.full_extract_message_assign(ct);
            proof {
                lemma_extracted_fits(*old(ct), *ct, scalar);
            }
        }
        self.unchecked_crt_scalar_add_assign(ct, scalar);
    }
}

/// After a message extraction every channel with carry room can take any
/// scalar.
proof fn lemma_extracted_fits(before: CrtCiphertext, after: CrtCiphertext, scalar: u64)
    requires
        before.wf(),
        has_carry_room(before),
        after.wf(),
        after.moduli@ == before.moduli@,
        after.blocks@ == crt_extracted(before),
    ensures
        crt_scalar_add_fits(after, scalar),
{
    assert forall|i: int| 0 <= i < after.blocks.len() implies #[trigger] channel_fits(
        after,
        scalar,
        i,
    ) by {
        let b = before.blocks[i];
        assert(b.wf());
        assert(2 <= b.carry_modulus);
        let m = b.message_modulus as int;
        let c = b.carry_modulus as int;
        assert(after.blocks[i] == block_extracted(b));
        assert(2 * m <= m * c) by (nonlinear_arith)
            requires
                2 <= c,
                0 <= m,
        ;
        assert(channel_scalar(after, scalar, i) < m);
    }
}

} // verus!
