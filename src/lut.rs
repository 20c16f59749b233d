//! Lookup tables: the form in which a function of the plaintext is handed to
//! the bootstrap, and their application to blocks.
use crate::block::{lemma_total_at_least_message, Block};
use crate::ciphertext::copy_values;
use crate::parallel::par_map;
use crate::server_key::ServerKey;
use vstd::prelude::*;

verus! {

/// One output per plaintext value, and the largest of them.
#[derive(Debug)]
pub struct LookupTable {
    pub entries: Vec<u64>,
    pub degree: u64,
}

impl LookupTable {
    /// A table of `len` entries below `modulus` whose degree is its largest
    /// entry.
    pub open spec fn wf_shape(&self, len: int, modulus: int) -> bool {
        &&& self.entries.len() == len
        &&& self.degree < modulus
        &&& forall|i: int| 0 <= i < len ==> #[trigger] self.entries[i] <= self.degree
        &&& exists|i: int| 0 <= i < len && #[trigger] self.entries[i] == self.degree
    }

    /// A table over a whole plaintext space of size `total`.
    pub open spec fn wf_for(&self, total: int) -> bool {
        self.wf_shape(total, total)
    }

    /// Tabulates `f` over `0..len`, each output reduced modulo `modulus`.
    pub fn from_fn<F: Fn(u64) -> u64>(
        len: u64,
        modulus: u64,
        f: F,
        Ghost(spec_f): Ghost<spec_fn(u64) -> u64>,
    ) -> (r: LookupTable)
        requires
            1 <= len,
            1 <= modulus,
            forall|x: u64| f.requires((x,)),
            forall|x: u64, y: u64| f.ensures((x,), y) ==> y == spec_f(x),
        ensures
            r.wf_shape(len as int, modulus as int),
            forall|i: int| 0 <= i < len ==> #[trigger] r.entries[i] == spec_f(i as u64) % modulus,
    {
        let mut entries: Vec<u64> = Vec::new();
        let mut degree: u64 = 0;
        let mut x: u64 = 0;
        while x < len
            invariant
                x <= len,
                entries.len() == x,
                forall|x: u64| f.requires((x,)),
                forall|x: u64, y: u64| f.ensures((x,), y) ==> y == spec_f(x),
                forall|i: int| 0 <= i < x ==> #[trigger] entries[i] == spec_f(i as u64) % modulus,
                degree < modulus,
                forall|i: int| 0 <= i < x ==> #[trigger] entries[i] <= degree,
                x == 0 ==> degree == 0,
                x > 0 ==> exists|i: int| 0 <= i < x && #[trigger] entries[i] == degree,
            decreases len - x,
        {
            let y = f(x) % modulus;
            let ghost before = entries@;
            if y > degree || x == 0 {
                degree = y;
            }
            entries.push(y);
            proof {
                assert(entries[x as int] == y);
                assert(forall|i: int| 0 <= i < x ==> entries[i] == before[i]);
                if degree != y {
                    let w = choose|i: int| 0 <= i < x && #[trigger] before[i] == degree;
                    assert(entries[w] == degree);
                }
            }
            x = x + 1;
        }
        LookupTable { entries, degree }
    }
}

/// Several tables over one small input domain, evaluated by one bootstrap.
#[derive(Debug)]
pub struct ManyLookupTable {
    pub tables: Vec<LookupTable>,
    pub domain: u64,
}

impl ManyLookupTable {
    /// Each table covers `domain` inputs, and all of them share the plaintext
    /// space of size `total`.
    pub open spec fn wf_for(&self, total: int) -> bool {
        &&& 1 <= self.domain
        &&& 1 <= self.tables.len()
        &&& self.tables.len() * self.domain <= total
        &&& forall|j: int|
            0 <= j < self.tables.len() ==> (#[trigger] self.tables[j]).wf_shape(
                self.domain as int,
                total,
            )
    }
}

/// The table output at `x`, or zero outside the table.
pub open spec fn output_or_zero(outputs: Seq<u64>, x: u64) -> u64 {
    if x < outputs.len() {
        outputs[x as int]
    } else {
        0
    }
}

fn output_at(outputs: &Vec<u64>, x: u64) -> (y: u64)
    ensures
        y == output_or_zero(outputs@, x),
{
    if x < outputs.len() as u64 {
        outputs[x as usize]
    } else {
        0
    }
}

/// The outputs of `functions` on `x`, one per function, reduced modulo `total`.
pub open spec fn evaluate_all(functions: Seq<Seq<u64>>, x: int, total: int) -> Seq<int> {
    Seq::new(functions.len(), |j: int| (functions[j][x] as int) % total)
}

/// The outputs of `functions` on `x`, evaluated `chunk` functions at a time and
/// concatenated in order.
pub open spec fn evaluate_chunked(functions: Seq<Seq<u64>>, chunk: nat, x: int, total: int) -> Seq<
    int,
>
    decreases functions.len(),
{
    if functions.len() == 0 || chunk == 0 {
        Seq::empty()
    } else if functions.len() <= chunk {
        evaluate_all(functions, x, total)
    } else {
        evaluate_all(functions.take(chunk as int), x, total) + evaluate_chunked(
            functions.skip(chunk as int),
            chunk,
            x,
            total,
        )
    }
}

/// The outputs of each function, as sequences.
pub open spec fn function_views(functions: Seq<Vec<u64>>) -> Seq<Seq<u64>> {
    functions.map_values(|f: Vec<u64>| f@)
}

/// `d` is one of the outputs of `outputs`, reduced modulo `total`.
pub open spec fn is_output_of(outputs: Seq<u64>, d: u64, total: int) -> bool {
    exists|x: int| 0 <= x < outputs.len() && d as int == (#[trigger] outputs[x]) as int % total
}

/// `out` is what one bootstrap of `input` through `lut` gives.
pub open spec fn evaluated_group(out: Vec<Block>, lut: ManyLookupTable, input: Block, key: ServerKey) -> bool {
    &&& out.len() == lut.tables.len()
    &&& forall|j: int|
        0 <= j < out.len() ==> #[trigger] out[j] == (Block {
            payload: lut.tables[j].entries[input.payload as int],
            degree: lut.tables[j].degree,
            ..input
        })
    &&& forall|j: int| 0 <= j < out.len() ==> key.fits(#[trigger] out[j])
}

/// The payloads of a sequence of blocks.
pub open spec fn payloads(blocks: Seq<Block>) -> Seq<int> {
    Seq::new(blocks.len(), |i: int| blocks[i].payload as int)
}

/// Batching functions into groups of any positive size yields the same
/// outputs, in the same order, as evaluating each function on its own.
pub proof fn lemma_batching_equivalence(functions: Seq<Seq<u64>>, chunk: nat, x: int, total: int)
    requires
        1 <= chunk,
    ensures
        evaluate_chunked(functions, chunk, x, total) == evaluate_all(functions, x, total),
    decreases functions.len(),
{
    if functions.len() == 0 {
        assert(evaluate_all(functions, x, total) =~= Seq::empty());
    } else if functions.len() > chunk {
        let head = functions.take(chunk as int);
        let tail = functions.skip(chunk as int);
        lemma_batching_equivalence(tail, chunk, x, total);
        assert(evaluate_all(head, x, total) + evaluate_all(tail, x, total) =~= evaluate_all(
            functions,
            x,
            total,
        ));
    }
}

impl ServerKey {
    /// A table for `f` over this key's plaintext space.
    pub fn generate_lookup_table<F: Fn(u64) -> u64>(
        &self,
        f: F,
        Ghost(spec_f): Ghost<spec_fn(u64) -> u64>,
    ) -> (r: LookupTable)
        requires
            self.wf(),
            forall|x: u64| f.requires((x,)),
            forall|x: u64, y: u64| f.ensures((x,), y) ==> y == spec_f(x),
        ensures
            r.wf_for(self.total()),
            forall|i: int| 0 <= i < self.total() ==> #[trigger] r.entries[i] == spec_f(i as u64) % (
            self.total() as u64),
    {
        let total = self.total_modulus();
        LookupTable::from_fn(total, total, f, Ghost(spec_f))
    }

    /// A table for the two-input `f`: the plaintext `x` stands for the pair
    /// `((x / message_modulus) % message_modulus, x % message_modulus)`.
    pub fn generate_lookup_table_bivariate<F: Fn(u64, u64) -> u64>(
        &self,
        f: F,
        Ghost(spec_f): Ghost<spec_fn(u64, u64) -> u64>,
    ) -> (r: LookupTable)
        requires
            self.wf(),
            forall|a: u64, b: u64| f.requires((a, b)),
            forall|a: u64, b: u64, y: u64| f.ensures((a, b), y) ==> y == spec_f(a, b),
        ensures
            r.wf_for(self.total()),
            forall|i: int|
                0 <= i < self.total() ==> #[trigger] r.entries[i] == spec_f(
                    ((i as u64) / self.message_modulus) % self.message_modulus,
                    (i as u64) % self.message_modulus,
                ) % (self.total() as u64),
    {
        let m = self.message_modulus;
        let g = |x: u64| -> (y: u64)
            ensures
                y == spec_f((x / m) % m, x % m),
            { f((x / m) % m, x % m) };
        let total = self.total_modulus();
        LookupTable::from_fn(
            total,
            total,
            g,
            Ghost(|x: u64| spec_f((x / m) % m, x % m)),
        )
    }

    /// The bootstrap: the block now encrypts the table's entry at its payload
    /// and its degree is the table's.
    pub fn apply_lookup_table_assign(&self, b: &mut Block, lut: &LookupTable)
        requires
            old(b).wf(),
            lut.wf_for(old(b).total()),
        ensures
            *final(b) == (Block {
                payload: lut.entries[old(b).payload as int],
                degree: lut.degree,
                ..*old(b)
            }),
            final(b).wf(),
    {
        let y = lut.entries[b.payload as usize];
        b.payload = y;
        b.degree = lut.degree;
    }

    /// Packs `lhs` and `rhs` into one plaintext (`lhs * message_modulus + rhs`)
    /// and bootstraps it through a bivariate table.
    pub fn unchecked_apply_lookup_table_bivariate_assign(
        &self,
        lhs: &mut Block,
        rhs: &Block,
        lut: &LookupTable,
    )
        requires
            self.wf(),
            self.fits(*old(lhs)),
            self.fits(*rhs),
            old(lhs).degree < self.message_modulus,
            rhs.degree < self.message_modulus,
            self.supports_bivariate(),
            lut.wf_for(self.total()),
        ensures
            *final(lhs) == (Block {
                payload: lut.entries[old(lhs).payload * self.message_modulus + rhs.payload],
                degree: lut.degree,
                ..*old(lhs)
            }),
            self.fits(*final(lhs)),
    {
        let m = self.message_modulus;
        proof {
            assert(lhs.degree * m + rhs.degree < m * m) by (nonlinear_arith)
                requires
                    lhs.degree < m,
                    rhs.degree < m,
            ;
            assert(lhs.payload * m <= lhs.degree * m) by (nonlinear_arith)
                requires
                    lhs.payload <= lhs.degree,
            ;
        }
        let mut packed = self.unchecked_scalar_mul(lhs, m);
        self.unchecked_add_assign(&mut packed, rhs);
        self.apply_lookup_table_assign(&mut packed, lut);
        *lhs = packed;
    }

    /// One table per function of `functions`, each given by its outputs on
    /// `0..domain`, packed into one many-output table.
    pub fn generate_many_lookup_table(&self, functions: &Vec<Vec<u64>>, domain: u64) -> (r:
        ManyLookupTable)
        requires
            self.wf(),
            1 <= domain,
            1 <= functions.len(),
            functions.len() * domain <= self.total(),
            forall|j: int| 0 <= j < functions.len() ==> (#[trigger] functions[j]).len() == domain,
        ensures
            r.wf_for(self.total()),
            r.domain == domain,
            r.tables.len() == functions.len(),
            forall|j: int, x: int|
                0 <= j < functions.len() && 0 <= x < domain ==> #[trigger] r.tables[j].entries[x]
                    == functions[j][x] % (self.total() as u64),
    {
        let total = self.total_modulus();
        let mut tables: Vec<LookupTable> = Vec::new();
        let mut j: usize = 0;
        while j < functions.len()
            invariant
                j <= functions.len(),
                tables.len() == j,
                1 <= domain,
                total == self.total(),
                2 <= total,
                forall|j: int| 0 <= j < functions.len() ==> (#[trigger] functions[j]).len() == domain,
                forall|k: int| 0 <= k < j ==> (#[trigger] tables[k]).wf_shape(domain as int, total as int),
                forall|k: int, x: int|
                    0 <= k < j && 0 <= x < domain ==> #[trigger] tables[k].entries[x]
                        == functions[k][x] % total,
            decreases functions.len() - j,
        {
            let outputs = &functions[j];
            let g = |x: u64| -> (y: u64)
                ensures
                    y == output_or_zero(outputs@, x),
                { output_at(outputs, x) };
            let lut = LookupTable::from_fn(domain, total, g, Ghost(|x: u64| output_or_zero(outputs@, x)));
            tables.push(lut);
            j = j + 1;
        }
        ManyLookupTable { tables, domain }
    }

    /// Bootstraps a block through `x -> x % message_modulus`: the carries are
    /// dropped and the degree becomes `message_modulus - 1`.
    pub fn message_extract_assign(&self, b: &mut Block)
        requires
            old(b).wf(),
        ensures
            *final(b) == (Block {
                payload: old(b).payload % old(b).message_modulus,
                degree: (old(b).message_modulus - 1) as u64,
                ..*old(b)
            }),
            final(b).wf(),
    {
        let m = b.message_modulus;
        let total = b.total_modulus();
        proof {
            lemma_total_at_least_message(m as int, b.carry_modulus as int);
        }
        let extract = |x: u64| -> (y: u64)
            ensures
                y == x % m,
            { x % m };
        let lut = LookupTable::from_fn(total, total, extract, Ghost(|x: u64| x % m));
        proof {
            assert forall|i: int| 0 <= i < total implies #[trigger] lut.entries[i] < m by {
                assert(lut.entries[i] == ((i as u64) % m) % total);
                vstd::arithmetic::div_mod::lemma_small_mod(((i as u64) % m) as nat, total as nat);
            }
            assert(lut.entries[m - 1] == ((m - 1) as u64 % m) % total);
            vstd::arithmetic::div_mod::lemma_small_mod((m - 1) as nat, m as nat);
            vstd::arithmetic::div_mod::lemma_small_mod((m - 1) as nat, total as nat);
            let w = choose|i: int| 0 <= i < total && #[trigger] lut.entries[i] == lut.degree;
            assert(lut.entries[w] < m);
        }
        self.apply_lookup_table_assign(b, &lut);
        proof {
            assert(lut.entries[old(b).payload as int] == (old(b).payload % m) % total);
            vstd::arithmetic::div_mod::lemma_small_mod((old(b).payload % m) as nat, total as nat);
        }
    }

    /// One bootstrap of `input` through a many-output table: one block per
    /// table, in order.
    pub fn apply_many_lookup_table(&self, input: &Block, lut: &ManyLookupTable) -> (r: Vec<Block>)
        requires
            self.wf(),
            self.fits(*input),
            lut.wf_for(self.total()),
            input.degree < lut.domain,
        ensures
            r.len() == lut.tables.len(),
            forall|j: int|
                0 <= j < r.len() ==> #[trigger] r[j] == (Block {
                    payload: lut.tables[j].entries[input.payload as int],
                    degree: lut.tables[j].degree,
                    ..*input
                }),
            forall|j: int| 0 <= j < r.len() ==> self.fits(#[trigger] r[j]),
    {
        let mut out: Vec<Block> = Vec::new();
        let mut j: usize = 0;
        while j < lut.tables.len()
            invariant
                self.wf(),
                self.fits(*input),
                lut.wf_for(self.total()),
                input.degree < lut.domain,
                j <= lut.tables.len(),
                out.len() == j,
                forall|k: int|
                    0 <= k < j ==> #[trigger] out[k] == (Block {
                        payload: lut.tables[k].entries[input.payload as int],
                        degree: lut.tables[k].degree,
                        ..*input
                    }),
                forall|k: int| 0 <= k < j ==> self.fits(#[trigger] out[k]),
            decreases lut.tables.len() - j,
        {
            let table = &lut.tables[j];
            assert(table.wf_shape(lut.domain as int, self.total()));
            let y = table.entries[input.payload as usize];
            assert(y <= table.degree);
            out.push(Block { payload: y, degree: table.degree, ..*input });
            j = j + 1;
        }
        out
    }

    /// Evaluates every function of `functions` (each given by its outputs on
    /// `0..domain`) on what `input` encrypts, packing up to `chunk` functions
    /// into each many-output table; the outputs come back in order.
    pub fn evaluate_many_batched(
        &self,
        input: &Block,
        functions: &Vec<Vec<u64>>,
        domain: u64,
        chunk: usize,
    ) -> (r: Vec<Block>)
        requires
            self.wf(),
            self.fits(*input),
            input.degree < domain,
            1 <= chunk,
            chunk * domain <= self.total(),
            forall|j: int| 0 <= j < functions.len() ==> (#[trigger] functions[j]).len() == domain,
        ensures
            r.len() == functions.len(),
            forall|j: int| 0 <= j < r.len() ==> self.fits(#[trigger] r[j]),
            forall|j: int|
                0 <= j < r.len() ==> is_output_of(functions[j]@, (#[trigger] r[j]).degree, self.total()),
            payloads(r@) == evaluate_chunked(
                function_views(functions@),
                chunk as nat,
                input.payload as int,
                self.total(),
            ),
    {
        let n = functions.len();
        let total = self.total_modulus();
        let mut luts: Vec<ManyLookupTable> = Vec::new();
        let mut starts: Vec<usize> = Vec::new();
        let mut start: usize = 0;
        while start < n
            invariant
                self.wf(),
                total == self.total(),
                1 <= chunk,
                1 <= domain,
                chunk * domain <= total,
                n == functions.len(),
                forall|j: int| 0 <= j < n ==> (#[trigger] functions[j]).len() == domain,
                start <= n,
                luts.len() == starts.len(),
                luts.len() == 0 ==> start == 0,
                luts.len() > 0 ==> starts[0] == 0,
                luts.len() > 0 ==> starts[luts.len() - 1] + luts[luts.len() - 1].tables.len() == start,
                forall|q: int|
                    0 <= q < luts.len() - 1 ==> #[trigger] starts[q + 1] == starts[q]
                        + luts[q].tables.len(),
                forall|q: int| 0 <= q < luts.len() ==> starts[q] < n,
                forall|q: int| 0 <= q < luts.len() ==> (#[trigger] luts[q]).wf_for(total as int),
                forall|q: int| 0 <= q < luts.len() ==> (#[trigger] luts[q]).domain == domain,
                forall|q: int| 0 <= q < luts.len() ==> starts[q] + (#[trigger] luts[q]).tables.len() <= n,
                forall|q: int, j: int, x: int|
                    0 <= q < luts.len() && 0 <= j < luts[q].tables.len() && 0 <= x < domain
                        ==> #[trigger] luts[q].tables[j].entries[x] == functions[starts[q] + j][x]
                        % total,
            decreases n - start,
        {
            let end = if n - start < chunk {
                n
            } else {
                start + chunk
            };
            let mut group: Vec<Vec<u64>> = Vec::new();
            let mut k: usize = start;
            while k < end
                invariant
                    start <= k <= end,
                    end <= n,
                    n == functions.len(),
                    group.len() == k - start,
                    forall|j: int| 0 <= j < k - start ==> (#[trigger] group[j])@ == functions[start + j]@,
                decreases end - k,
            {
                let copy = copy_values(&functions[k]);
                group.push(copy);
                k = k + 1;
            }
            assert(group.len() * domain <= chunk * domain) by (nonlinear_arith)
                requires
                    group.len() <= chunk,
            ;
            let lut = self.generate_many_lookup_table(&group, domain);
            luts.push(lut);
            starts.push(start);
            start = end;
        }
        let apply = |lut: &ManyLookupTable| -> (r: Vec<Block>)
            requires
                self.wf(),
                self.fits(*input),
                lut.wf_for(self.total()),
                input.degree < lut.domain,
            ensures
                r.len() == lut.tables.len(),
                forall|j: int|
                    0 <= j < r.len() ==> #[trigger] r[j] == (Block {
                        payload: lut.tables[j].entries[input.payload as int],
                        degree: lut.tables[j].degree,
                        ..*input
                    }),
                forall|j: int| 0 <= j < r.len() ==> self.fits(#[trigger] r[j]),
            { self.apply_many_lookup_table(input, lut) };
        let results = par_map(&luts, apply);
        let ghost x = input.payload as int;
        let ghost fv = function_views(functions@);
        proof {
            assert forall|q: int| 0 <= q < luts.len() implies evaluated_group(
                #[trigger] results[q],
                luts[q],
                *input,
                *self,
            ) by {
                assert(apply.ensures((&luts[q],), results[q]));
            }
        }
        let mut out: Vec<Block> = Vec::new();
        let mut q: usize = 0;
        while q < results.len()
            invariant
                self.wf(),
                total == self.total(),
                n == functions.len(),
                n == start,
                0 <= x < domain,
                x == input.payload,
                results.len() == luts.len(),
                luts.len() == starts.len(),
                luts.len() == 0 ==> start == 0,
                luts.len() > 0 ==> starts[0] == 0,
                luts.len() > 0 ==> starts[luts.len() - 1] + luts[luts.len() - 1].tables.len() == start,
                forall|q: int|
                    0 <= q < luts.len() - 1 ==> #[trigger] starts[q + 1] == starts[q]
                        + luts[q].tables.len(),
                forall|q: int| 0 <= q < luts.len() ==> starts[q] + (#[trigger] luts[q]).tables.len() <= n,
                forall|q: int| 0 <= q < luts.len() ==> (#[trigger] luts[q]).domain == domain,
                forall|q: int| 0 <= q < luts.len() ==> (#[trigger] luts[q]).wf_for(total as int),
                forall|j: int| 0 <= j < n ==> (#[trigger] functions[j]).len() == domain,
                forall|q: int, j: int, x: int|
                    0 <= q < luts.len() && 0 <= j < luts[q].tables.len() && 0 <= x < domain
                        ==> #[trigger] luts[q].tables[j].entries[x] == functions[starts[q] + j][x]
                        % total,
                forall|k: int| 0 <= k < out.len() ==> is_output_of(functions[k]@, (#[trigger] out[k]).degree, total as int),
                forall|q: int| 0 <= q < luts.len() ==> evaluated_group(#[trigger] results[q], luts[q], *input, *self),
                q <= results.len(),
                q < luts.len() ==> out.len() == starts[q as int],
                q == luts.len() ==> out.len() == start,
                forall|k: int| 0 <= k < out.len() ==> self.fits(#[trigger] out[k]),
                forall|k: int| 0 <= k < out.len() ==> (#[trigger] out[k]).payload == functions[k][x] % total,
            decreases results.len() - q,
        {
            let group = &results[q];
            assert(evaluated_group(results[q as int], luts[q as int], *input, *self));
            let mut j: usize = 0;
            while j < group.len()
                invariant
                    self.wf(),
                    total == self.total(),
                    0 <= x < domain,
                    x == input.payload,
                    q < luts.len(),
                    luts.len() == starts.len(),
                    n == functions.len(),
                    starts[q as int] + luts[q as int].tables.len() <= n,
                    group.len() == luts[q as int].tables.len(),
                    forall|j: int|
                        0 <= j < group.len() ==> #[trigger] group[j] == (Block {
                            payload: luts[q as int].tables[j].entries[input.payload as int],
                            degree: luts[q as int].tables[j].degree,
                            ..*input
                        }),
                    forall|j: int| 0 <= j < group.len() ==> self.fits(#[trigger] group[j]),
                    forall|j: int, x: int|
                        0 <= j < luts[q as int].tables.len() && 0 <= x < domain
                            ==> #[trigger] luts[q as int].tables[j].entries[x]
                            == functions[starts[q as int] + j][x] % total,
                    j <= group.len(),
                    luts[q as int].wf_for(total as int),
                    luts[q as int].domain == domain,
                    forall|j: int| 0 <= j < n ==> (#[trigger] functions[j]).len() == domain,
                    forall|k: int| 0 <= k < out.len() ==> is_output_of(functions[k]@, (#[trigger] out[k]).degree, total as int),
                    out.len() == starts[q as int] + j,
                    forall|k: int| 0 <= k < out.len() ==> self.fits(#[trigger] out[k]),
                    forall|k: int|
                        0 <= k < out.len() ==> (#[trigger] out[k]).payload == functions[k][x] % total,
                decreases group.len() - j,
            {
                proof {
                    let table = luts[q as int].tables[j as int];
                    assert(table.wf_shape(domain as int, total as int));
                    let w = choose|i: int| 0 <= i < domain && #[trigger] table.entries[i] == table.degree;
                    let k = starts[q as int] + j;
                    assert(functions[k]@[w] as int % total as int == group[j as int].degree as int);
                }
                out.push(group[j]);
                j = j + 1;
            }
            q = q + 1;
        }
        proof {
            assert(payloads(out@) =~= evaluate_all(fv, x, total as int));
            lemma_batching_equivalence(fv, chunk as nat, x, total as int);
        }
        out
    }
}

} // verus!
