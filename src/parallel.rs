//! Fork-join helpers over rayon's worker pool.
use rayon::iter::{IntoParallelRefIterator, ParallelIterator};
use vstd::prelude::*;

verus! {

/// Relies on `rayon::join`: both closures run to completion (possibly on two
/// workers) and their results come back as a pair, first closure first.
#[verifier::external_body]
pub fn join<A, B, RA, RB>(oper_a: A, oper_b: B) -> (r: (RA, RB)) where
    A: FnOnce() -> RA + Send,
    B: FnOnce() -> RB + Send,
    RA: Send,
    RB: Send,

    requires
        oper_a.requires(()),
        oper_b.requires(()),
    ensures
        oper_a.ensures((), r.0),
        oper_b.ensures((), r.1),
{
    rayon::join(oper_a, oper_b)
}

/// Relies on rayon's `par_iter().map(f).collect::<Vec<_>>()`: an indexed
/// parallel iterator collected into a `Vec` keeps the order of its source.
#[verifier::external_body]
pub fn par_map<T, U, F>(v: &Vec<T>, f: F) -> (r: Vec<U>) where
    T: Sync,
    U: Send,
    F: Fn(&T) -> U + Sync + Send,

    requires
        forall|i: int| 0 <= i < v.len() ==> f.requires((&v[i],)),
    ensures
        r.len() == v.len(),
        forall|i: int| 0 <= i < v.len() ==> f.ensures((&v[i],), #[trigger] r[i]),
{
    v.par_iter().map(f).collect()
}

} // verus!
