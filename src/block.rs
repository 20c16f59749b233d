//! Encrypted digits and the degree bookkeeping attached to them.
//!
//! A block stands for one ciphertext of the lower cryptographic layer. That
//! layer lives outside this library, so a block carries, as its payload, the
//! plaintext that its encryption holds; everything the engine decides is read
//! from the metadata (`degree` and the two moduli), never from the payload.
use vstd::prelude::*;

verus! {

/// Largest plaintext space (`message_modulus * carry_modulus`) that a block
/// may use: a lookup table holds one entry per plaintext value.
pub const MAX_TOTAL_MODULUS: u64 = 65536;

/// One encrypted digit with its degree and moduli.
#[derive(Clone, Copy, Debug, PartialEq, Eq, Structural)]
pub struct Block {
    /// The plaintext the ciphertext encrypts.
    pub payload: u64,
    /// Upper bound on the plaintext the block may hold.
    pub degree: u64,
    /// Size of the message alphabet.
    pub message_modulus: u64,
    /// Extra headroom before a refresh is mandatory.
    pub carry_modulus: u64,
}

impl Block {
    pub open spec fn total(&self) -> int {
        self.message_modulus * self.carry_modulus
    }

    pub open spec fn params_ok(&self) -> bool {
        &&& 2 <= self.message_modulus
        &&& 1 <= self.carry_modulus
        &&& self.message_modulus * self.carry_modulus <= MAX_TOTAL_MODULUS
    }

    /// The block's invariant: its degree stays inside the plaintext space and
    /// bounds the payload.
    pub open spec fn wf(&self) -> bool {
        &&& self.params_ok()
        &&& self.degree < self.total()
        &&& self.payload <= self.degree
    }

    pub open spec fn same_params(&self, other: Block) -> bool {
        self.message_modulus == other.message_modulus && self.carry_modulus == other.carry_modulus
    }

    /// The message the block decrypts to once its carries are dropped.
    pub open spec fn message(&self) -> int {
        (self.payload % self.message_modulus) as int
    }

    /// Builds a block, or `None` when the values break the invariant.
    pub fn new(payload: u64, degree: u64, message_modulus: u64, carry_modulus: u64) -> (r: Option<
        Block,
    >)
        ensures
            r.is_some() <==> (Block { payload, degree, message_modulus, carry_modulus }).wf(),
            r.is_some() ==> r.unwrap() == (Block { payload, degree, message_modulus, carry_modulus }),
    {
        if message_modulus < 2 || carry_modulus < 1 {
            return None;
        }
        if message_modulus > MAX_TOTAL_MODULUS || carry_modulus > MAX_TOTAL_MODULUS {
            assert(message_modulus * carry_modulus > MAX_TOTAL_MODULUS) by (nonlinear_arith)
                requires
                    message_modulus >= 1,
                    carry_modulus >= 1,
                    message_modulus > MAX_TOTAL_MODULUS || carry_modulus > MAX_TOTAL_MODULUS,
            ;
            return None;
        }
        assert(message_modulus * carry_modulus <= 65536 * 65536) by (nonlinear_arith)
            requires
                message_modulus <= 65536,
                carry_modulus <= 65536,
        ;
        let total = message_modulus as u128 * carry_modulus as u128;
        if total > MAX_TOTAL_MODULUS as u128 || degree as u128 >= total || payload > degree {
            return None;
        }
        Some(Block { payload, degree, message_modulus, carry_modulus })
    }

    /// The plaintext space `message_modulus * carry_modulus`.
    pub fn total_modulus(&self) -> (r: u64)
        requires
            self.params_ok(),
        ensures
            r == self.total(),
    {
        self.message_modulus * self.carry_modulus
    }

    /// True iff the block holds no pending carry.
    pub fn carry_is_empty(&self) -> (r: bool)
        ensures
            r == (self.degree < self.message_modulus),
    {
        self.degree < self.message_modulus
    }
}

/// The plaintext space is at least as large as the message alphabet.
pub proof fn lemma_total_at_least_message(message_modulus: int, carry_modulus: int)
    requires
        0 <= message_modulus,
        1 <= carry_modulus,
    ensures
        message_modulus <= message_modulus * carry_modulus,
{
    assert(message_modulus <= message_modulus * carry_modulus) by (nonlinear_arith)
        requires
            0 <= message_modulus,
            1 <= carry_modulus,
    ;
}

/// A block that encrypts 0 or 1.
#[derive(Clone, Copy, Debug, PartialEq, Eq, Structural)]
pub struct BooleanBlock(pub Block);

impl BooleanBlock {
    pub open spec fn wf(&self) -> bool {
        self.0.wf() && self.0.degree <= 1
    }

    /// The boolean the block encrypts.
    pub open spec fn value(&self) -> bool {
        self.0.payload == 1
    }

    /// Wraps a block whose degree is known to be at most one.
    pub fn new_unchecked(block: Block) -> (r: BooleanBlock)
        ensures
            r.0 == block,
    {
        BooleanBlock(block)
    }

    /// Wraps a block, or `None` when it may hold more than one bit.
    pub fn try_new(block: Block) -> (r: Option<BooleanBlock>)
        ensures
            r.is_some() <==> block.degree <= 1,
            r.is_some() ==> r.unwrap().0 == block,
    {
        if block.degree <= 1 {
            Some(BooleanBlock(block))
        } else {
            None
        }
    }
}

/// A failed capacity check.
#[derive(Clone, Copy, Debug, PartialEq, Eq, Structural)]
pub enum CheckError {
    /// Block `block_index` would reach `degree`, past `max_degree`.
    CarryFull { block_index: usize, degree: u64, max_degree: u64 },
}

} // verus!
