//! The server key: the shared modulus configuration and the block-level
//! operations that every composite algorithm is built from.
use crate::block::{lemma_total_at_least_message, Block, MAX_TOTAL_MODULUS};
use vstd::prelude::*;

verus! {

/// Immutable configuration shared by every operation.
#[derive(Clone, Copy, Debug, PartialEq, Eq, Structural)]
pub struct ServerKey {
    pub message_modulus: u64,
    pub carry_modulus: u64,
}

impl ServerKey {
    pub open spec fn total(&self) -> int {
        self.message_modulus * self.carry_modulus
    }

    pub open spec fn wf(&self) -> bool {
        &&& 2 <= self.message_modulus
        &&& 1 <= self.carry_modulus
        &&& self.message_modulus * self.carry_modulus <= MAX_TOTAL_MODULUS
    }

    /// `b` is a valid block built under this key's moduli.
    pub open spec fn fits(&self, b: Block) -> bool {
        &&& b.wf()
        &&& b.message_modulus == self.message_modulus
        &&& b.carry_modulus == self.carry_modulus
    }

    /// Two message-sized operands can be packed into one plaintext.
    pub open spec fn supports_bivariate(&self) -> bool {
        self.message_modulus * self.message_modulus <= self.total()
    }

    /// Builds a key, or `None` when the moduli break the key's invariant.
    pub fn new(message_modulus: u64, carry_modulus: u64) -> (r: Option<ServerKey>)
        ensures
            r.is_some() <==> (ServerKey { message_modulus, carry_modulus }).wf(),
            r.is_some() ==> r.unwrap() == (ServerKey { message_modulus, carry_modulus }),
    {
        if message_modulus >= 2 && carry_modulus >= 1 {
            proof {
                lemma_total_at_least_message(message_modulus as int, carry_modulus as int);
            }
        }
        match Block::new(0, 0, message_modulus, carry_modulus) {
            Some(_) => Some(ServerKey { message_modulus, carry_modulus }),
            None => None,
        }
    }

    pub fn message_modulus(&self) -> (r: u64)
        ensures
            r == self.message_modulus,
    {
        self.message_modulus
    }

    pub fn carry_modulus(&self) -> (r: u64)
        ensures
            r == self.carry_modulus,
    {
        self.carry_modulus
    }

    pub fn total_modulus(&self) -> (r: u64)
        requires
            self.wf(),
        ensures
            r == self.total(),
            self.message_modulus <= r,
    {
        proof {
            lemma_total_at_least_message(self.message_modulus as int, self.carry_modulus as int);
        }
        self.message_modulus * self.carry_modulus
    }

    pub open spec fn create_trivial_zero_block_spec(&self) -> Block {
        Block {
            payload: 0,
            degree: 0,
            message_modulus: self.message_modulus,
            carry_modulus: self.carry_modulus,
        }
    }

    /// A block that provably encrypts zero.
    pub fn create_trivial_zero_block(&self) -> (r: Block)
        requires
            self.wf(),
        ensures
            self.fits(r),
            r == self.create_trivial_zero_block_spec(),
    {
        proof {
            lemma_total_at_least_message(self.message_modulus as int, self.carry_modulus as int);
        }
        Block {
            payload: 0,
            degree: 0,
            message_modulus: self.message_modulus,
            carry_modulus: self.carry_modulus,
        }
    }

    /// Adds `rhs` into `lhs` without refreshing.
    pub fn unchecked_add_assign(&self, lhs: &mut Block, rhs: &Block)
        requires
            old(lhs).wf(),
            rhs.wf(),
            old(lhs).same_params(*rhs),
            old(lhs).degree + rhs.degree < old(lhs).total(),
        ensures
            *final(lhs) == (Block {
                payload: (old(lhs).payload + rhs.payload) as u64,
                degree: (old(lhs).degree + rhs.degree) as u64,
                ..*old(lhs)
            }),
            final(lhs).wf(),
    {
        lhs.payload = lhs.payload + rhs.payload;
        lhs.degree = lhs.degree + rhs.degree;
    }

    /// Adds a clear value to a block without refreshing.
    pub fn unchecked_scalar_add_assign(&self, b: &mut Block, scalar: u64)
        requires
            old(b).wf(),
            old(b).degree + scalar < old(b).total(),
        ensures
            *final(b) == (Block {
                payload: (old(b).payload + scalar) as u64,
                degree: (old(b).degree + scalar) as u64,
                ..*old(b)
            }),
            final(b).wf(),
    {
        b.payload = b.payload + scalar;
        b.degree = b.degree + scalar;
    }

    /// Multiplies a block by a clear value without refreshing.
    pub fn unchecked_scalar_mul(&self, b: &Block, scalar: u64) -> (r: Block)
        requires
            b.wf(),
            b.degree * scalar < b.total(),
        ensures
            r == (Block {
                payload: (b.payload * scalar) as u64,
                degree: (b.degree * scalar) as u64,
                ..*b
            }),
            r.wf(),
    {
        proof {
            assert(b.payload * scalar <= b.degree * scalar) by (nonlinear_arith)
                requires
                    b.payload <= b.degree,
            ;
        }
        Block { payload: b.payload * scalar, degree: b.degree * scalar, ..*b }
    }
}

} // verus!
