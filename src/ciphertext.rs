//! Multi-block integers: radix (unsigned and signed) and CRT.
use crate::block::Block;
use vstd::prelude::*;

verus! {

/// An integer held as residues, one block per modulus of a coprime basis.
#[derive(Clone, Debug)]
pub struct CrtCiphertext {
    pub blocks: Vec<Block>,
    pub moduli: Vec<u64>,
}

impl CrtCiphertext {
    /// One valid block per modulus, each with that modulus as its message
    /// modulus.
    pub open spec fn wf(&self) -> bool {
        &&& self.blocks.len() == self.moduli.len()
        &&& forall|i: int| 0 <= i < self.blocks.len() ==> (#[trigger] self.blocks[i]).wf()
        &&& forall|i: int|
            0 <= i < self.blocks.len() ==> (#[trigger] self.blocks[i]).message_modulus
                == self.moduli[i]
    }

    /// The residue that block `i` holds modulo its channel's modulus.
    pub open spec fn residue(&self, i: int) -> int {
        self.blocks[i].payload as int % self.moduli[i] as int
    }

    /// Pairs blocks with the basis, or `None` when they do not match.
    pub fn new(blocks: Vec<Block>, moduli: Vec<u64>) -> (r: Option<CrtCiphertext>)
        ensures
            r.is_some() <==> (CrtCiphertext { blocks, moduli }).wf(),
            r.is_some() ==> r.unwrap() == (CrtCiphertext { blocks, moduli }),
    {
        if blocks.len() != moduli.len() {
            return None;
        }
        let mut i: usize = 0;
        while i < blocks.len()
            invariant
                blocks.len() == moduli.len(),
                i <= blocks.len(),
                forall|k: int| 0 <= k < i ==> (#[trigger] blocks[k]).wf(),
                forall|k: int| 0 <= k < i ==> (#[trigger] blocks[k]).message_modulus == moduli[k],
            decreases blocks.len() - i,
        {
            let b = blocks[i];
            if Block::new(b.payload, b.degree, b.message_modulus, b.carry_modulus).is_none()
                || b.message_modulus != moduli[i] {
                return None;
            }
            i = i + 1;
        }
        Some(CrtCiphertext { blocks, moduli })
    }
}

/// An element-wise copy of a block sequence.
pub fn copy_blocks(v: &Vec<Block>) -> (r: Vec<Block>)
    ensures
        r@ == v@,
{
    let mut r: Vec<Block> = Vec::new();
    let mut i: usize = 0;
    while i < v.len()
        invariant
            i <= v.len(),
            r@ == v@.take(i as int),
        decreases v.len() - i,
    {
        r.push(v[i]);
        i = i + 1;
        assert(r@ =~= v@.take(i as int));
    }
    assert(v@.take(v.len() as int) =~= v@);
    r
}

/// An element-wise copy of a sequence of integers.
pub fn copy_values(v: &Vec<u64>) -> (r: Vec<u64>)
    ensures
        r@ == v@,
{
    let mut r: Vec<u64> = Vec::new();
    let mut i: usize = 0;
    while i < v.len()
        invariant
            i <= v.len(),
            r@ == v@.take(i as int),
        decreases v.len() - i,
    {
        r.push(v[i]);
        i = i + 1;
        assert(r@ =~= v@.take(i as int));
    }
    assert(v@.take(v.len() as int) =~= v@);
    r
}

impl CrtCiphertext {
    /// A deep copy.
    pub fn duplicate(&self) -> (r: CrtCiphertext)
        ensures
            r.blocks@ == self.blocks@,
            r.moduli@ == self.moduli@,
    {
        CrtCiphertext { blocks: copy_blocks(&self.blocks), moduli: copy_values(&self.moduli) }
    }
}

/// The shape shared by radix ciphertexts: an ordered run of blocks, least
/// significant first.
pub trait IntegerRadixCiphertext: Sized {
    spec fn spec_blocks(&self) -> Seq<Block>;

    fn blocks(&self) -> (r: &Vec<Block>)
        ensures
            r@ == self.spec_blocks(),
    ;

    fn from_blocks(blocks: Vec<Block>) -> (r: Self)
        ensures
            r.spec_blocks() == blocks@,
    ;

    fn set_blocks(&mut self, blocks: Vec<Block>)
        ensures
            final(self).spec_blocks() == blocks@,
    ;
}

/// An unsigned radix integer.
#[derive(Clone, Debug)]
pub struct RadixCiphertext {
    pub blocks: Vec<Block>,
}

/// A signed radix integer, in two's complement over its blocks.
#[derive(Clone, Debug)]
pub struct SignedRadixCiphertext {
    pub blocks: Vec<Block>,
}

impl IntegerRadixCiphertext for RadixCiphertext {
    open spec fn spec_blocks(&self) -> Seq<Block> {
        self.blocks@
    }

    fn blocks(&self) -> (r: &Vec<Block>) {
        &self.blocks
    }

    fn from_blocks(blocks: Vec<Block>) -> (r: Self) {
        RadixCiphertext { blocks }
    }

    fn set_blocks(&mut self, blocks: Vec<Block>) {
        self.blocks = blocks;
    }
}

impl IntegerRadixCiphertext for SignedRadixCiphertext {
    open spec fn spec_blocks(&self) -> Seq<Block> {
        self.blocks@
    }

    fn blocks(&self) -> (r: &Vec<Block>) {
        &self.blocks
    }

    fn from_blocks(blocks: Vec<Block>) -> (r: Self) {
        SignedRadixCiphertext { blocks }
    }

    fn set_blocks(&mut self, blocks: Vec<Block>) {
        self.blocks = blocks;
    }
}

/// Every block has an empty carry.
pub open spec fn carries_empty(blocks: Seq<Block>) -> bool {
    forall|i: int| 0 <= i < blocks.len() ==> (#[trigger] blocks[i]).degree < blocks[i].message_modulus
}

/// True iff no block of `ct` holds a pending carry.
pub fn block_carries_are_empty<T: IntegerRadixCiphertext>(ct: &T) -> (r: bool)
    ensures
        r == carries_empty(ct.spec_blocks()),
{
    let blocks = ct.blocks();
    let mut i: usize = 0;
    while i < blocks.len()
        invariant
            i <= blocks.len(),
            blocks@ == ct.spec_blocks(),
            forall|k: int| 0 <= k < i ==> (#[trigger] blocks[k]).degree < blocks[k].message_modulus,
        decreases blocks.len() - i,
    {
        if !blocks[i].carry_is_empty() {
            return false;
        }
        i = i + 1;
    }
    true
}

/// A deep copy of a radix ciphertext.
pub fn duplicate_radix<T: IntegerRadixCiphertext>(ct: &T) -> (r: T)
    ensures
        r.spec_blocks() == ct.spec_blocks(),
{
    T::from_blocks(copy_blocks(ct.blocks()))
}

} // verus!
