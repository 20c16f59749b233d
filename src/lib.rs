//! Server-side homomorphic execution engine for encrypted multi-block
//! integers: degree bookkeeping per block, table-driven block evaluation,
//! masking under an encrypted predicate, conditional selection (CMUX) over
//! radix integers, scalars and booleans, and CRT scalar addition under the
//! unchecked, checked and smart tiers.
use vstd::prelude::*;

pub mod block;
pub mod ciphertext;
pub mod cmux;
pub mod crt;
pub mod decompose;
pub mod lut;
pub mod parallel;
pub mod propagate;
pub mod scalar_cmux;
pub mod server_key;

pub use block::{Block, BooleanBlock, CheckError, MAX_TOTAL_MODULUS};
pub use ciphertext::{CrtCiphertext, IntegerRadixCiphertext, RadixCiphertext, SignedRadixCiphertext};
pub use lut::{LookupTable, ManyLookupTable};
pub use server_key::ServerKey;

verus! {

} // verus!
