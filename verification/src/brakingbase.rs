//! The commitment scheme: parameters and commitments.
use vstd::prelude::*;
use crate::algebra::{lemma_mod_small, lemma_two_to_monotone, lemma_two_to_positive, two_to};
use crate::basefold::{
    BasefoldExtParams, BasefoldParams, BasefoldProverParams, BasefoldVerifierParams,
    Type1Polynomial, bit_reversed, encode, get_table_aes, is_weight, sizes_fit, table_entry,
    table_fits, table_of_seed,
};
use crate::basefold_batch::{
    BasefoldBatchCommitment, all_points, all_weights, basefold_batch_commit, poly_values,
};
use crate::bits::{
    ceil_log2, is_power_of_two, lemma_ceil_log2, lemma_log2_two_to, lemma_reversed_bound, log2,
    log2_of, next_power_of_two, reversed,
};
use crate::code::{Brakedown, Matrix, ParityCheckMatrix, codeword_of, index_values, triangular};
use crate::error::{Error, outcome};
use crate::field::{PrimeField, copy_elements, vals, vals2};
use crate::hash::{HashFunction, Output, digest_elements, hash_elements};
use crate::layout::{join_levels, join_rows, lemma_level_start, levels_in, rows_in};
use crate::merkle::{
    column, column_tree, hash_level, lemma_tree_level_len, tree_level, tree_over, tree_view,
};
use crate::poly::MultilinearPolynomial;
use crate::timestamps::{addresses, final_times, get_timestamps, read_times};
use crate::transcript::{
    TranscriptRead, TranscriptWrite, checking, lemma_read_commitments_len, read_commitments,
};

verus! {

/// What a user of the scheme fixes.
pub trait BrakingbaseSpec: BasefoldExtParams {

}

/// A specification with a rate of an eighth and queries for security of one hundred bits.
#[derive(Debug)]
pub struct Five {}

impl BasefoldExtParams for Five {
    open spec fn reps() -> nat {
        656
    }

    open spec fn rate() -> nat {
        3
    }

    open spec fn basecode_rounds() -> nat {
        0
    }

    open spec fn rs_basecode() -> bool {
        false
    }

    fn get_reps() -> (r: usize) {
        656
    }

    fn get_rate() -> (r: usize) {
        3
    }

    fn get_basecode_rounds() -> (r: usize) {
        0
    }

    fn get_rs_basecode() -> (r: bool) {
        false
    }
}

impl BrakingbaseSpec for Five {

}

/// The commitment scheme over the field `F`, the hash function `H` and the specification `S`.
#[derive(Debug)]
pub struct Brakingbase<F: PrimeField, H: HashFunction, S: BrakingbaseSpec> {
    pub marker: core::marker::PhantomData<(F, H, S)>,
}

impl<F: PrimeField, H: HashFunction, S: BrakingbaseSpec> Clone for Brakingbase<F, H, S> {
    fn clone(&self) -> (r: Self)
        ensures
            r == *self,
    {
        Brakingbase { marker: self.marker }
    }
}

/// The parameters of the scheme.
#[derive(Clone, Debug)]
pub struct BrakingbaseParams<F: PrimeField> {
    pub num_vars: usize,
    pub brakedown: Brakedown<F>,
    pub brakedown_num_rows: usize,
    pub num_brakedown_queries: usize,
    pub brakedown_row_len: usize,
    pub brakedown_codeword_len: usize,
    pub parity_check_matrix: ParityCheckMatrix<F>,
    pub basefold_poly_size: usize,
    pub basefold: BasefoldParams<F>,
    pub basefold_prover_params: BasefoldProverParams<F>,
    pub basefold_verifier_params: BasefoldVerifierParams<F>,
    pub trusted_commit: BasefoldBatchCommitment<F>,
}

/// What a prover needs of the parameters.
#[derive(Clone, Debug)]
pub struct BrakingbaseProverParams<F: PrimeField> {
    pub num_vars: usize,
    pub brakedown: Brakedown<F>,
    pub brakedown_num_rows: usize,
    pub num_brakedown_queries: usize,
    pub parity_check_matrix: ParityCheckMatrix<F>,
    pub basefold_poly_size: usize,
    pub basefold: BasefoldProverParams<F>,
    pub trusted_commit: BasefoldBatchCommitment<F>,
}

/// What a verifier needs of the parameters.
#[derive(Clone, Debug)]
pub struct BrakingbaseVerifierParams<F: PrimeField> {
    pub num_vars: usize,
    pub brakedown_num_rows: usize,
    pub num_brakedown_queries: usize,
    pub brakedown_row_len: usize,
    pub brakedown_codeword_len: usize,
    pub basefold_poly_size: usize,
    pub basefold: BasefoldVerifierParams<F>,
    pub trusted_commit: Output,
}

/// A commitment: the encoded rows, one after the other, the levels of the Merkle tree over their
/// columns below the root, one after the other, and the root.
#[derive(Clone, Debug)]
pub struct BrakingbaseCommitment<F: PrimeField> {
    pub rows: Vec<F>,
    pub intermediate_hashes: Vec<Output>,
    pub root: Output,
}

impl<F: PrimeField> BrakingbaseProverParams<F> {
    /// The number of variables of the polynomials that can be committed to.
    pub fn num_vars(&self) -> (r: usize)
        ensures
            r == self.num_vars,
    {
        self.num_vars
    }
}

impl<F: PrimeField> BrakingbaseCommitment<F> {
    /// A commitment of which only the root is known.
    pub fn from_root(root: Output) -> (r: Self)
        ensures
            r.rows@.len() == 0,
            r.intermediate_hashes@.len() == 0,
            r.root == root,
    {
        BrakingbaseCommitment { rows: Vec::new(), intermediate_hashes: Vec::new(), root }
    }

    /// The rows, `n` of them, of `len` entries each.
    pub open spec fn row_table(&self, n: nat, len: nat) -> Seq<Seq<int>> {
        rows_in(vals(self.rows@), n, len)
    }

    /// The levels of the tree below the root.
    pub open spec fn levels(&self, depth: nat) -> Seq<Seq<Output>> {
        levels_in(self.intermediate_hashes@, depth)
    }

    /// The root.
    pub fn as_ref(&self) -> (r: &Output)
        ensures
            *r == self.root,
    {
        &self.root
    }

    /// The root, as a slice of one digest.
    pub fn as_slice(&self) -> (r: &[Output])
        ensures
            r@ == seq![self.root],
    {
        std::slice::from_ref(&self.root)
    }
}

/// `std::slice::from_ref` turns a reference to a value into a slice of length one, which holds
/// that value.
pub assume_specification<T>[ std::slice::from_ref::<T> ](s: &T) -> (r: &[T])
    ensures
        r@ == seq![*s],
;

impl<F: PrimeField> AsRef<[Output]> for BrakingbaseCommitment<F> {
    /// What `as_slice` gives. The contract stands there: beside the other `as_ref` of this type, the
    /// result cannot be named in a clause here.
    fn as_ref(&self) -> (r: &[Output]) {
        self.as_slice()
    }
}

impl<F: PrimeField> AsRef<Output> for BrakingbaseCommitment<F> {
    /// The root.
    fn as_ref(&self) -> (r: &Output)
        ensures
            *r == self.root,
    {
        &self.root
    }
}

/// The digest of zeros.
pub open spec fn zero_output() -> Output {
    choose|d: Output| is_zero(d)
}

/// All bytes are zero.
pub open spec fn is_zero(d: Output) -> bool {
    forall|i: int| 0 <= i < 32 ==> d[i] == 0
}

/// The digest of zeros.
pub fn default_output() -> (r: Output)
    ensures
        r == zero_output(),
{
    let r: Output = [0u8; 32];
    proof {
        assert(is_zero(r));
        assert(is_zero(zero_output()));
        assert(r =~= zero_output());
    }
    r
}

impl<F: PrimeField> Default for BrakingbaseCommitment<F> {
    fn default() -> (r: Self)
        ensures
            r.rows@.len() == 0,
            r.intermediate_hashes@ == seq![zero_output()],
            r.root == zero_output(),
    {
        let mut hashes: Vec<Output> = Vec::new();
        hashes.push(default_output());
        assert(hashes@ =~= seq![zero_output()]);
        BrakingbaseCommitment { rows: Vec::new(), intermediate_hashes: hashes, root: default_output() }
    }
}

/// The public parameters of the scheme, as integers.
pub struct Scheme {
    pub num_vars: nat,
    pub num_rows: nat,
    pub row_len: nat,
    pub codeword_len: nat,
    pub num_queries: nat,
    pub matrix: Matrix,
    pub bf_vars: nat,
    pub log_rate: nat,
    pub bf_queries: nat,
    pub seed: Seq<u8>,
    pub table: Seq<Seq<int>>,
    pub xs: Seq<Seq<int>>,
    pub ws: Seq<Seq<int>>,
}

/// The sizes fit together: the rows of a polynomial are messages of the code, a codeword is at
/// most twice as long as a message, and the polynomials of the matrix can hold two memories of
/// that size.
pub open spec fn scheme_fits(s: Scheme) -> bool {
    &&& is_power_of_two(s.num_rows)
    &&& s.num_rows >= 2
    &&& is_power_of_two(s.row_len)
    &&& s.row_len >= 1
    &&& s.num_rows * s.row_len == two_to(s.num_vars)
    &&& two_to(s.num_vars) <= usize::MAX
    &&& 1 <= s.codeword_len <= 2 * s.row_len
    &&& 2 * s.row_len <= 0x1_0000_0000
    &&& triangular(s.matrix, s.row_len, s.codeword_len)
    &&& 1 <= s.matrix.row.len() <= two_to(s.bf_vars)
    &&& 4 * s.row_len <= two_to(s.bf_vars)
    &&& sizes_fit(s.bf_vars, s.log_rate)
    &&& s.num_rows <= usize::MAX / 2
}

/// Indices that are padded with the first to the length `n`.
pub open spec fn padded_indices(s: Seq<int>, n: nat) -> Seq<int> {
    Seq::new(n, |i: int| s[if i < s.len() { i } else { 0 }])
}

/// Values that are padded with zeros to the length `n`.
pub open spec fn padded_values(s: Seq<int>, n: nat) -> Seq<int> {
    Seq::new(n, |i: int| if i < s.len() { s[i] } else { 0 })
}

/// A table over and over, up to `n` entries.
pub open spec fn repeated(t: Seq<int>, n: nat) -> Seq<int> {
    Seq::new(n, |i: int| t[i % (t.len() as int)])
}

/// The polynomials of the matrix: values, rows, columns, the times of the reads of rows and of
/// columns, and the times that they leave.
pub open spec fn matrix_polys(p: int, m: Matrix, row_len: nat, n: nat) -> Seq<Seq<int>> {
    let rows = padded_indices(m.row, n);
    let cols = padded_indices(m.col, n);
    seq![
        padded_values(m.val, n),
        rows,
        cols,
        read_times(p, rows),
        read_times(p, cols),
        repeated(final_times(p, rows, 2 * row_len) + final_times(p, cols, 2 * row_len), n),
    ]
}

/// A batch commitment holds these polynomials.
pub open spec fn commits_to<F: PrimeField, H: HashFunction>(
    c: BasefoldBatchCommitment<F>,
    table: Seq<Seq<int>>,
    log_rate: nat,
    polys: Seq<Seq<int>>,
) -> bool {
    &&& c.codewords@.len() == polys.len()
    &&& c.bh_evals@.len() == polys.len()
    &&& poly_values(c.bh_evals@) == polys
    &&& forall|i: int|
        0 <= i < polys.len() ==> vals((#[trigger] c.codewords@[i]).poly@) == encode(
            F::modulus(),
            table,
            log_rate,
            bit_reversed(polys[i]),
        )
    &&& tree_view(c.codeword_tree@) == column_tree::<F, H>(poly_values(c.codewords@))
}

impl<F: PrimeField> BrakingbaseProverParams<F> {
    /// The numbers and tables that the parameters hold.
    pub open spec fn scheme(&self) -> Scheme {
        Scheme {
            num_vars: self.num_vars as nat,
            num_rows: self.brakedown_num_rows as nat,
            row_len: self.brakedown.row_len as nat,
            codeword_len: self.brakedown.codeword_len as nat,
            num_queries: self.num_brakedown_queries as nat,
            matrix: self.parity_check_matrix.matrix(),
            bf_vars: self.basefold.num_vars as nat,
            log_rate: self.basefold.log_rate as nat,
            bf_queries: self.basefold.num_verifier_queries as nat,
            seed: self.basefold.seed@,
            table: vals2(self.basefold.table@),
            xs: all_points(self.basefold.table_w_weights@),
            ws: all_weights(self.basefold.table_w_weights@),
        }
    }

    pub open spec fn wf<H: HashFunction>(&self) -> bool {
        &&& scheme_fits(self.scheme())
        &&& self.brakedown.wf()
        &&& self.brakedown.matrix.matrix() == self.parity_check_matrix.matrix()
        &&& self.basefold.wf()
        &&& self.basefold_poly_size == two_to(self.basefold.num_vars as nat)
        &&& commits_to::<F, H>(
            self.trusted_commit,
            vals2(self.basefold.table@),
            self.basefold.log_rate as nat,
            matrix_polys(
                F::modulus(),
                self.parity_check_matrix.matrix(),
                self.brakedown.row_len as nat,
                self.basefold_poly_size as nat,
            ),
        )
    }
}

impl<F: PrimeField> BrakingbaseVerifierParams<F> {
    pub open spec fn wf(&self) -> bool {
        &&& is_power_of_two(self.brakedown_num_rows as nat)
        &&& 1 <= self.brakedown_num_rows
        &&& is_power_of_two(self.brakedown_row_len as nat)
        &&& self.brakedown_row_len >= 1
        &&& self.brakedown_num_rows * self.brakedown_row_len == two_to(self.num_vars as nat)
        &&& two_to(self.num_vars as nat) <= usize::MAX
        &&& 1 <= self.brakedown_codeword_len <= 2 * self.brakedown_row_len
        &&& 2 * self.brakedown_row_len <= 0x1_0000_0000
        &&& self.basefold.wf()
        &&& self.basefold_poly_size == two_to(self.basefold.num_vars as nat)
        &&& 4 * self.brakedown_row_len <= self.basefold_poly_size
    }
}

impl<F: PrimeField> BrakingbaseParams<F> {
    pub open spec fn wf<H: HashFunction>(&self) -> bool {
        &&& self.prover_view().wf::<H>()
        &&& self.brakedown_row_len == self.brakedown.row_len
        &&& self.brakedown_codeword_len == self.brakedown.codeword_len
        &&& self.basefold.wf()
        &&& self.basefold_verifier_params.wf()
        &&& self.basefold_verifier_params.num_vars == self.basefold_prover_params.num_vars
        &&& self.basefold_verifier_params.log_rate == self.basefold_prover_params.log_rate
        &&& self.basefold_verifier_params.num_verifier_queries
            == self.basefold_prover_params.num_verifier_queries
        &&& self.basefold_verifier_params.seed == self.basefold_prover_params.seed
    }

    /// The part of the parameters that a prover gets.
    pub open spec fn prover_view(&self) -> BrakingbaseProverParams<F> {
        BrakingbaseProverParams {
            num_vars: self.num_vars,
            brakedown: self.brakedown,
            brakedown_num_rows: self.brakedown_num_rows,
            num_brakedown_queries: self.num_brakedown_queries,
            parity_check_matrix: self.parity_check_matrix,
            basefold_poly_size: self.basefold_poly_size,
            basefold: self.basefold_prover_params,
            trusted_commit: self.trusted_commit,
        }
    }
}

/// Indices as field elements, padded with the first to the length `n`.
pub fn padded_elements<F: PrimeField>(s: &Vec<usize>, n: usize) -> (r: Vec<F>)
    requires
        1 <= s@.len() <= n,
        forall|i: int| 0 <= i < s@.len() ==> #[trigger] s@[i] < 0x1_0000_0000,
    ensures
        vals(r@) == padded_indices(index_values(s@), n as nat),
        r@.len() == n,
{
    let ghost t = padded_indices(index_values(s@), n as nat);
    let mut r: Vec<F> = Vec::new();
    let len = s.len();
    let mut i: usize = 0;
    while i < n
        invariant
            i <= n,
            len == s@.len(),
            1 <= len <= n,
            t == padded_indices(index_values(s@), n as nat),
            forall|i: int| 0 <= i < s@.len() ==> #[trigger] s@[i] < 0x1_0000_0000,
            r@.len() == i,
            forall|j: int| 0 <= j < i ==> (#[trigger] r@[j]).value() == t[j],
        decreases n - i,
    {
        let k: usize = if i < len { i } else { 0 };
        let e = F::from_u64(s[k] as u64);
        proof {
            F::lemma_modulus();
            lemma_mod_small(F::modulus(), s@[k as int] as int);
        }
        r.push(e);
        i += 1;
    }
    assert(vals(r@) =~= t);
    r
}

/// Values, padded with zeros to the length `n`.
pub fn padded_with_zeros<F: PrimeField>(s: &Vec<F>, n: usize) -> (r: Vec<F>)
    requires
        s@.len() <= n,
    ensures
        vals(r@) == padded_values(vals(s@), n as nat),
        r@.len() == n,
{
    let ghost t = padded_values(vals(s@), n as nat);
    let mut r: Vec<F> = Vec::new();
    let len = s.len();
    let mut i: usize = 0;
    while i < n
        invariant
            i <= n,
            len == s@.len(),
            len <= n,
            t == padded_values(vals(s@), n as nat),
            r@.len() == i,
            forall|j: int| 0 <= j < i ==> (#[trigger] r@[j]).value() == t[j],
        decreases n - i,
    {
        if i < len {
            r.push(s[i]);
        } else {
            r.push(F::zero());
        }
        i += 1;
    }
    assert(vals(r@) =~= t);
    r
}

/// A table over and over, up to `n` entries.
pub fn repeat_table<F: PrimeField>(t: &Vec<F>, n: usize) -> (r: Vec<F>)
    requires
        t@.len() >= 1,
    ensures
        vals(r@) == repeated(vals(t@), n as nat),
        r@.len() == n,
{
    let ghost want = repeated(vals(t@), n as nat);
    let mut r: Vec<F> = Vec::new();
    let len = t.len();
    let mut i: usize = 0;
    while i < n
        invariant
            i <= n,
            len == t@.len(),
            len >= 1,
            want == repeated(vals(t@), n as nat),
            r@.len() == i,
            forall|j: int| 0 <= j < i ==> (#[trigger] r@[j]).value() == want[j],
        decreases n - i,
    {
        r.push(t[i % len]);
        i += 1;
    }
    assert(vals(r@) =~= want);
    r
}

/// Two vectors, one after the other.
pub fn joined<F: PrimeField>(a: &Vec<F>, b: &Vec<F>) -> (r: Vec<F>)
    ensures
        r@ == a@ + b@,
        vals(r@) == vals(a@) + vals(b@),
{
    let mut r = copy_elements(a);
    let mut i: usize = 0;
    while i < b.len()
        invariant
            i <= b@.len(),
            r@ == a@ + b@.take(i as int),
        decreases b@.len() - i,
    {
        r.push(b[i]);
        assert(b@.take(i as int + 1) =~= b@.take(i as int).push(b@[i as int]));
        i += 1;
    }
    assert(b@.take(b@.len() as int) =~= b@);
    assert(vals(r@) =~= vals(a@) + vals(b@));
    r
}

/// The addresses of padded indices are the indices.
pub proof fn lemma_padded_addresses(s: Seq<int>, n: nat)
    requires
        1 <= s.len() <= n,
        forall|i: int| 0 <= i < s.len() ==> 0 <= #[trigger] s[i] < 0x1_0000_0000,
    ensures
        addresses(padded_indices(s, n), n, s.len()) == padded_indices(s, n),
{
    let t = padded_indices(s, n);
    let a = addresses(t, n, s.len());
    assert forall|i: int| 0 <= i < n implies a[i] == t[i] by {
        let k: int = if i < s.len() { i } else { 0 };
        assert(t[i] == s[k]);
        assert(t[k] == s[k]);
    }
    assert(a =~= t);
}

/// The parameters of the foldable code.
pub fn basefold_setup<F: PrimeField, S: BasefoldExtParams>(num_vars: usize, seed: [u8; 32]) -> (r:
    BasefoldParams<F>)
    requires
        sizes_fit(num_vars as nat, S::rate()),
        num_vars + S::rate() <= usize::MAX,
        !S::rs_basecode(),
    ensures
        r.wf(),
        r.from_seed(),
        r.num_vars == num_vars,
        r.log_rate == S::rate(),
        r.num_verifier_queries == S::reps(),
        r.seed == seed,
{
    let log_rate = S::get_rate();
    let (table_w_weights, table) = get_table_aes(num_vars, log_rate, seed);
    BasefoldParams {
        num_vars,
        log_rate,
        num_verifier_queries: S::get_reps(),
        seed,
        table,
        table_w_weights,
    }
}

/// A copy of a table with weights.
fn copy_weights<F: PrimeField>(t: &Vec<Vec<(F, F)>>) -> (r: Vec<Vec<(F, F)>>)
    ensures
        r@.len() == t@.len(),
        forall|l: int| 0 <= l < t@.len() ==> (#[trigger] r@[l])@ == t@[l]@,
{
    let mut r: Vec<Vec<(F, F)>> = Vec::new();
    let mut l: usize = 0;
    while l < t.len()
        invariant
            l <= t@.len(),
            r@.len() == l,
            forall|k: int| 0 <= k < l ==> (#[trigger] r@[k])@ == t@[k]@,
        decreases t@.len() - l,
    {
        let mut level: Vec<(F, F)> = Vec::new();
        let mut i: usize = 0;
        while i < t[l].len()
            invariant
                l < t@.len(),
                i <= t@[l as int]@.len(),
                level@ == t@[l as int]@.take(i as int),
            decreases t@[l as int]@.len() - i,
        {
            let pair = t[l][i];
            level.push(pair);
            assert(t@[l as int]@.take(i as int + 1) =~= t@[l as int]@.take(i as int).push(
                t@[l as int]@[i as int],
            ));
            i += 1;
        }
        assert(t@[l as int]@.take(t@[l as int]@.len() as int) =~= t@[l as int]@);
        r.push(level);
        l += 1;
    }
    r
}

/// A copy of vectors.
pub fn copy_vectors<F: PrimeField>(t: &Vec<Vec<F>>) -> (r: Vec<Vec<F>>)
    ensures
        r@.len() == t@.len(),
        forall|l: int| 0 <= l < t@.len() ==> (#[trigger] r@[l])@ == t@[l]@,
        vals2(r@) == vals2(t@),
{
    let mut r: Vec<Vec<F>> = Vec::new();
    let mut l: usize = 0;
    while l < t.len()
        invariant
            l <= t@.len(),
            r@.len() == l,
            forall|k: int| 0 <= k < l ==> (#[trigger] r@[k])@ == t@[k]@,
        decreases t@.len() - l,
    {
        r.push(copy_elements(&t[l]));
        l += 1;
    }
    assert(vals2(r@) =~= vals2(t@)) by {
        assert forall|k: int| 0 <= k < t@.len() implies vals2(r@)[k] == vals2(t@)[k] by {
            assert(r@[k]@ == t@[k]@);
        }
    }
    r
}

/// What a prover and what a verifier gets of the parameters of the foldable code.
pub fn basefold_trim<F: PrimeField>(param: &BasefoldParams<F>) -> (r: (
    BasefoldProverParams<F>,
    BasefoldVerifierParams<F>,
))
    requires
        param.wf(),
    ensures
        r.0.wf(),
        r.1.wf(),
        r.0.num_vars == param.num_vars,
        r.0.log_rate == param.log_rate,
        r.0.num_verifier_queries == param.num_verifier_queries,
        r.0.seed == param.seed,
        vals2(r.0.table@) == vals2(param.table@),
        all_points(r.0.table_w_weights@) == all_points(param.table_w_weights@),
        all_weights(r.0.table_w_weights@) == all_weights(param.table_w_weights@),
        param.from_seed() ==> r.0.from_seed(),
        r.1.num_vars == param.num_vars,
        r.1.log_rate == param.log_rate,
        r.1.num_verifier_queries == param.num_verifier_queries,
        r.1.seed == param.seed,
{
    let pp = copy_prover_params(
        param.num_vars,
        param.log_rate,
        param.num_verifier_queries,
        param.seed,
        &param.table,
        &param.table_w_weights,
    );
    let vp = BasefoldVerifierParams {
        num_vars: param.num_vars,
        log_rate: param.log_rate,
        num_verifier_queries: param.num_verifier_queries,
        seed: param.seed,
        field: core::marker::PhantomData,
    };
    (pp, vp)
}

/// Prover parameters with copies of the given tables.
fn copy_prover_params<F: PrimeField>(
    num_vars: usize,
    log_rate: usize,
    num_verifier_queries: usize,
    seed: [u8; 32],
    table: &Vec<Vec<F>>,
    table_w_weights: &Vec<Vec<(F, F)>>,
) -> (r: BasefoldProverParams<F>)
    requires
        sizes_fit(num_vars as nat, log_rate as nat),
        table_fits(table@, table_w_weights@, (num_vars + log_rate) as nat),
    ensures
        r.wf(),
        table_of_seed(table@, table_w_weights@, seed@, (num_vars + log_rate) as nat)
            ==> r.from_seed(),
        r.num_vars == num_vars,
        r.log_rate == log_rate,
        r.num_verifier_queries == num_verifier_queries,
        r.seed == seed,
        vals2(r.table@) == vals2(table@),
        all_points(r.table_w_weights@) == all_points(table_w_weights@),
        all_weights(r.table_w_weights@) == all_weights(table_w_weights@),
{
    let t = copy_vectors(table);
    let w = copy_weights(table_w_weights);
    proof {
        let levels = (num_vars + log_rate) as nat;
        assert forall|l: int| 0 <= l < levels implies (#[trigger] w@[l])@ == table_w_weights@[l]@ by {}
        if table_of_seed(table@, table_w_weights@, seed@, levels) {
            assert forall|l: int| 0 <= l < levels implies (#[trigger] t@[l])@.len() == two_to(l as nat) && forall|i: int|
                0 <= i < t@[l]@.len() ==> (#[trigger] t@[l]@[i]).value() == table_entry(
                    F::modulus(),
                    seed@,
                    l as nat,
                    i,
                ) by {
                assert(t@[l]@ == table@[l]@);
            }
            assert forall|l: int| 0 <= l < levels implies (#[trigger] w@[l])@.len() == two_to(l as nat) && forall|i: int|
                0 <= i < w@[l]@.len() ==> (#[trigger] w@[l]@[i]).0.value() == table_entry(
                    F::modulus(),
                    seed@,
                    l as nat,
                    reversed(i as nat, l as nat) as int,
                ) && is_weight(F::modulus(), w@[l]@[i].0.value(), w@[l]@[i].1.value()) by {
                assert(w@[l]@ == table_w_weights@[l]@);
            }
            assert(table_of_seed(t@, w@, seed@, levels));
        }
        assert(all_points(w@) =~= all_points(table_w_weights@)) by {
            assert forall|l: int| 0 <= l < w@.len() implies all_points(w@)[l] == all_points(table_w_weights@)[l] by {
                assert(w@[l]@ == table_w_weights@[l]@);
            }
        }
        assert(all_weights(w@) =~= all_weights(table_w_weights@)) by {
            assert forall|l: int| 0 <= l < w@.len() implies all_weights(w@)[l] == all_weights(table_w_weights@)[l] by {
                assert(w@[l]@ == table_w_weights@[l]@);
            }
        }
    }
    BasefoldProverParams {
        num_vars,
        log_rate,
        num_verifier_queries,
        seed,
        table: t,
        table_w_weights: w,
    }
}

/// A copy of committed polynomials.
fn copy_polys<F: PrimeField>(v: &Vec<Type1Polynomial<F>>) -> (r: Vec<Type1Polynomial<F>>)
    ensures
        r@.len() == v@.len(),
        forall|i: int| 0 <= i < v@.len() ==> (#[trigger] r@[i]).poly@ == v@[i].poly@,
        poly_values(r@) == poly_values(v@),
{
    let mut r: Vec<Type1Polynomial<F>> = Vec::new();
    let mut i: usize = 0;
    while i < v.len()
        invariant
            i <= v@.len(),
            r@.len() == i,
            forall|j: int| 0 <= j < i ==> (#[trigger] r@[j]).poly@ == v@[j].poly@,
        decreases v@.len() - i,
    {
        r.push(Type1Polynomial { poly: copy_elements(&v[i].poly) });
        i += 1;
    }
    assert(poly_values(r@) =~= poly_values(v@)) by {
        assert forall|j: int| 0 <= j < v@.len() implies poly_values(r@)[j] == poly_values(v@)[j] by {
            assert(r@[j].poly@ == v@[j].poly@);
        }
    }
    r
}

/// A copy of the levels of a tree.
fn copy_tree(t: &Vec<Vec<Output>>) -> (r: Vec<Vec<Output>>)
    ensures
        tree_view(r@) == tree_view(t@),
{
    let mut r: Vec<Vec<Output>> = Vec::new();
    let mut l: usize = 0;
    while l < t.len()
        invariant
            l <= t@.len(),
            r@.len() == l,
            forall|k: int| 0 <= k < l ==> (#[trigger] r@[k])@ == t@[k]@,
        decreases t@.len() - l,
    {
        let mut level: Vec<Output> = Vec::new();
        let mut i: usize = 0;
        while i < t[l].len()
            invariant
                l < t@.len(),
                i <= t@[l as int]@.len(),
                level@ == t@[l as int]@.take(i as int),
            decreases t@[l as int]@.len() - i,
        {
            level.push(t[l][i]);
            assert(t@[l as int]@.take(i as int + 1) =~= t@[l as int]@.take(i as int).push(
                t@[l as int]@[i as int],
            ));
            i += 1;
        }
        assert(t@[l as int]@.take(t@[l as int]@.len() as int) =~= t@[l as int]@);
        r.push(level);
        l += 1;
    }
    assert(tree_view(r@) =~= tree_view(t@)) by {
        assert forall|k: int| 0 <= k < t@.len() implies tree_view(r@)[k] == tree_view(t@)[k] by {
            assert(r@[k]@ == t@[k]@);
        }
    }
    r
}

/// A copy of a batch commitment.
fn copy_batch<F: PrimeField>(c: &BasefoldBatchCommitment<F>) -> (r: BasefoldBatchCommitment<F>)
    ensures
        poly_values(r.codewords@) == poly_values(c.codewords@),
        poly_values(r.bh_evals@) == poly_values(c.bh_evals@),
        r.codewords@.len() == c.codewords@.len(),
        r.bh_evals@.len() == c.bh_evals@.len(),
        forall|i: int|
            0 <= i < c.codewords@.len() ==> (#[trigger] r.codewords@[i]).poly@ == c.codewords@[i].poly@,
        tree_view(r.codeword_tree@) == tree_view(c.codeword_tree@),
{
    BasefoldBatchCommitment {
        codewords: copy_polys(&c.codewords),
        codeword_tree: copy_tree(&c.codeword_tree),
        bh_evals: copy_polys(&c.bh_evals),
    }
}

/// The values of the reversed elements are the reversed values.
pub proof fn lemma_vals_bit_reversed<F: PrimeField>(s: Seq<F>)
    requires
        s.len() >= 1,
        is_power_of_two(s.len()),
    ensures
        vals(bit_reversed(s)) == bit_reversed(vals(s)),
{
    let k = log2_of(s.len());
    assert forall|i: int| 0 <= i < s.len() implies vals(bit_reversed(s))[i] == bit_reversed(vals(s))[i] by {
        lemma_reversed_bound(i as nat, k);
    }
    assert(vals(bit_reversed(s)) =~= bit_reversed(vals(s)));
}

/// The number of rows into which a polynomial is cut.
pub open spec fn rows_of(num_vars: nat) -> nat {
    2 * two_to(ceil_log2(num_vars))
}

/// A code that goes with polynomials of the given size.
pub open spec fn code_fits<F: PrimeField>(code: Brakedown<F>, poly_size: nat, rate: nat) -> bool {
    let nnz = code.matrix.row@.len();
    &&& code.wf()
    &&& code.row_len >= 1
    &&& is_power_of_two(code.row_len as nat)
    &&& code.row_len * rows_of(log2_of(poly_size)) == poly_size
    &&& code.codeword_len <= 2 * code.row_len <= 0x1_0000_0000
    &&& nnz >= 1
    &&& 4 * code.row_len <= two_to(ceil_log2(nnz))
    &&& sizes_fit(ceil_log2(nnz), rate)
}

/// The message that is the row `i` of a polynomial, with zeros past its last value.
pub open spec fn message_row(evals: Seq<int>, row_len: nat, i: int) -> Seq<int> {
    Seq::new(
        row_len,
        |j: int|
            if i * row_len + j < evals.len() {
                evals[i * row_len + j]
            } else {
                0
            },
    )
}

/// The encoded rows of a polynomial.
pub open spec fn committed_rows(p: int, s: Scheme, evals: Seq<int>) -> Seq<Seq<int>> {
    Seq::new(
        s.num_rows,
        |i: int| codeword_of(p, s.matrix, s.row_len, s.codeword_len, message_row(evals, s.row_len, i)),
    )
}

/// The digests of the columns, with zeros up to a power of two.
pub open spec fn column_leaves<F: PrimeField, H: HashFunction>(
    rows: Seq<Seq<int>>,
    codeword_len: nat,
) -> Seq<Output> {
    Seq::new(
        two_to(ceil_log2(codeword_len)),
        |j: int|
            if j < codeword_len {
                digest_elements::<F, H>(column(rows, j))
            } else {
                zero_output()
            },
    )
}

/// The root of the commitment to a polynomial.
pub open spec fn root_of<F: PrimeField, H: HashFunction>(p: int, s: Scheme, evals: Seq<int>) -> Output {
    let leaves = column_leaves::<F, H>(committed_rows(p, s, evals), s.codeword_len);
    tree_level::<H>(leaves, ceil_log2(s.codeword_len))[0]
}

/// A commitment to these rows.
pub open spec fn is_commitment<F: PrimeField, H: HashFunction>(
    c: BrakingbaseCommitment<F>,
    rows: Seq<Seq<int>>,
    codeword_len: nat,
) -> bool {
    let leaves = column_leaves::<F, H>(rows, codeword_len);
    let depth = ceil_log2(codeword_len);
    &&& c.rows@.len() == rows.len() * codeword_len
    &&& c.row_table(rows.len(), codeword_len) == rows
    &&& c.intermediate_hashes@.len() == 2 * two_to(depth) - 2
    &&& c.levels(depth) == tree_over::<H>(leaves, depth)
    &&& c.root == tree_level::<H>(leaves, depth)[0]
}

/// The row `i` of a polynomial as a message.
fn take_message<F: PrimeField>(evals: &Vec<F>, row_len: usize, i: usize) -> (r: Vec<F>)
    requires
        (i + 1) * row_len <= usize::MAX,
    ensures
        vals(r@) == message_row(vals(evals@), row_len as nat, i as int),
        r@.len() == row_len,
{
    let ghost t = message_row(vals(evals@), row_len as nat, i as int);
    assert((i + 1) * row_len == i * row_len + row_len) by (nonlinear_arith);
    let base: usize = i * row_len;
    let n = evals.len();
    let mut r: Vec<F> = Vec::new();
    let mut j: usize = 0;
    while j < row_len
        invariant
            j <= row_len,
            base == i * row_len,
            base + row_len <= usize::MAX,
            n == evals@.len(),
            t == message_row(vals(evals@), row_len as nat, i as int),
            r@.len() == j,
            forall|k: int| 0 <= k < j ==> (#[trigger] r@[k]).value() == t[k],
        decreases row_len - j,
    {
        if base + j < n {
            r.push(evals[base + j]);
        } else {
            r.push(F::zero());
        }
        j += 1;
    }
    assert(vals(r@) =~= t);
    r
}

/// The column `j` of the rows.
pub fn take_column<F: PrimeField>(rows: &Vec<Vec<F>>, j: usize) -> (r: Vec<F>)
    requires
        forall|i: int| 0 <= i < rows@.len() ==> j < (#[trigger] rows@[i])@.len(),
    ensures
        vals(r@) == column(vals2(rows@), j as int),
        r@.len() == rows@.len(),
{
    let mut r: Vec<F> = Vec::new();
    let mut i: usize = 0;
    while i < rows.len()
        invariant
            i <= rows@.len(),
            r@.len() == i,
            forall|k: int| 0 <= k < rows@.len() ==> j < (#[trigger] rows@[k])@.len(),
            forall|k: int| 0 <= k < i ==> #[trigger] r@[k] == rows@[k]@[j as int],
        decreases rows@.len() - i,
    {
        r.push(rows[i][j]);
        i += 1;
    }
    assert(vals(r@) =~= column(vals2(rows@), j as int)) by {
        assert forall|k: int| 0 <= k < rows@.len() implies vals(r@)[k] == column(vals2(rows@), j as int)[k] by {
            assert(r@[k] == rows@[k]@[j as int]);
            assert(vals2(rows@)[k] == vals(rows@[k]@));
        }
    }
    r
}

impl<F: PrimeField, H: HashFunction, S: BrakingbaseSpec> Brakingbase<F, H, S> {
    /// The parameters for polynomials with `poly_size` values, for a code and a seed that were
    /// drawn before.
    #[verifier::rlimit(60)]
    pub fn setup(poly_size: usize, batch_size: usize, code: Brakedown<F>, seed: [u8; 32]) -> (res:
        Result<BrakingbaseParams<F>, Error>)
        requires
            poly_size >= 1,
            is_power_of_two(poly_size as nat),
            code_fits(code, poly_size as nat, S::rate()),
            !S::rs_basecode(),
        ensures
            res matches Ok(r) && {
                &&& r.wf::<H>()
                &&& r.num_vars == log2_of(poly_size as nat)
                &&& r.brakedown == code
                &&& r.brakedown_num_rows == rows_of(log2_of(poly_size as nat))
                &&& r.num_brakedown_queries == code.num_column_opening
                &&& r.parity_check_matrix.matrix() == code.matrix.matrix()
                &&& r.basefold_poly_size == two_to(ceil_log2(code.matrix.row@.len()))
                &&& r.basefold.num_vars == ceil_log2(code.matrix.row@.len())
                &&& r.basefold.log_rate == S::rate()
                &&& r.basefold.num_verifier_queries == S::reps()
                &&& r.basefold.seed == seed
                &&& r.basefold.from_seed()
                &&& r.basefold_prover_params.from_seed()
            },
    {
        let num_vars = log2(poly_size);
        let ghost m = code.matrix.matrix();
        let nnz = code.matrix.row.len();
        proof {
            F::lemma_modulus();
            lemma_rows(poly_size as nat, code.row_len as nat);
            lemma_two_to_monotone(
                ceil_log2(nnz as nat),
                (ceil_log2(nnz as nat) + S::rate()) as nat,
            );
            lemma_log2_two_to(ceil_log2(nnz as nat));
            lemma_fits_word(ceil_log2(nnz as nat) + S::rate());
        }
        let brakedown_num_rows = 2 * next_power_of_two(num_vars);
        let row_len = code.row_len();
        let codeword_len = code.codeword_len();
        let num_brakedown_queries = code.num_column_opening();
        let parity_check_matrix = code.parity_check_matrix();
        let basefold_poly_size = next_power_of_two(nnz);
        let ghost n = basefold_poly_size as nat;
        let basefold_vars = log2(basefold_poly_size);
        let basefold = basefold_setup::<F, S>(basefold_vars, seed);
        let (basefold_prover_params, basefold_verifier_params) = basefold_trim(&basefold);
        let val = padded_with_zeros(&parity_check_matrix.val, basefold_poly_size);
        proof {
            assert forall|i: int| 0 <= i < nnz implies #[trigger] code.matrix.row@[i] < codeword_len
                && code.matrix.col@[i] < codeword_len - row_len by {
                assert(m.row[i] == code.matrix.row@[i]);
                assert(m.col[i] == code.matrix.col@[i]);
            }
            assert forall|i: int| 0 <= i < nnz implies #[trigger] code.matrix.col@[i] < codeword_len
                - row_len by {
                assert(code.matrix.row@[i] < codeword_len);
            }
            assert(m.row.len() == nnz);
            assert(m.col.len() == nnz);
            assert(m.val.len() == nnz);
        }
        let row: Vec<F> = padded_elements(&parity_check_matrix.row, basefold_poly_size);
        let col: Vec<F> = padded_elements(&parity_check_matrix.col, basefold_poly_size);
        proof {
            lemma_padded_addresses(m.row, n);
            lemma_padded_addresses(m.col, n);
            assert(index_values(parity_check_matrix.row@) == m.row);
            assert(index_values(parity_check_matrix.col@) == m.col);
            let a = addresses(vals(row@), n, nnz as nat);
            let b = addresses(vals(col@), n, nnz as nat);
            assert forall|i: int| 0 <= i < n implies #[trigger] a[i] < 2 * row_len by {
                let k: int = if i < nnz { i } else { 0 };
                assert(a[i] == m.row[k]);
                assert(code.matrix.row@[k] < codeword_len);
            }
            assert forall|i: int| 0 <= i < n implies #[trigger] b[i] < 2 * row_len by {
                let k: int = if i < nnz { i } else { 0 };
                assert(b[i] == m.col[k]);
                assert(code.matrix.col@[k] < codeword_len - row_len);
            }
        }
        let (read_ts_row, final_ts_row, read_ts_col, final_ts_col) = get_timestamps(
            &row,
            &col,
            2 * row_len,
            nnz,
        );
        proof {
            assert(vals(final_ts_row@).len() == 2 * row_len);
            assert(vals(final_ts_col@).len() == 2 * row_len);
            assert(vals(read_ts_row@).len() == n);
            assert(vals(read_ts_col@).len() == n);
        }
        let final_ts_row_col = repeat_table(
            &joined(&final_ts_row, &final_ts_col),
            basefold_poly_size,
        );
        let ghost mp = matrix_polys(F::modulus(), m, row_len as nat, n);
        let mut polys: Vec<Vec<F>> = Vec::new();
        polys.push(val);
        polys.push(row);
        polys.push(col);
        polys.push(read_ts_row);
        polys.push(read_ts_col);
        polys.push(final_ts_row_col);
        let ghost before = polys@;
        proof {
            assert(vals2(before) =~= mp) by {
                assert(vals(before[0]@) == mp[0]);
                assert(vals(before[1]@) == mp[1]);
                assert(vals(before[2]@) == mp[2]);
                assert(vals(before[3]@) == mp[3]);
                assert(vals(before[4]@) == mp[4]);
                assert(vals(before[5]@) == mp[5]);
            }
            assert forall|i: int| 0 <= i < before.len() implies (#[trigger] before[i])@.len() == n by {}
        }
        let trusted_commit = basefold_batch_commit::<F, H>(&basefold_prover_params, &mut polys);
        proof {
            assert(poly_values(trusted_commit.bh_evals@) =~= mp) by {
                assert forall|i: int| 0 <= i < 6 implies poly_values(trusted_commit.bh_evals@)[i] == mp[i] by {
                    assert(trusted_commit.bh_evals@[i].poly@ == before[i]@);
                    assert(vals2(before)[i] == vals(before[i]@));
                }
            }
            assert forall|i: int| 0 <= i < 6 implies vals((#[trigger] trusted_commit.codewords@[i]).poly@)
                == encode(
                F::modulus(),
                vals2(basefold_prover_params.table@),
                basefold_prover_params.log_rate as nat,
                bit_reversed(mp[i]),
            ) by {
                assert(before[i]@.len() == n);
                lemma_vals_bit_reversed(before[i]@);
                assert(vals2(before)[i] == vals(before[i]@));
            }
        }
        Ok(
            BrakingbaseParams {
                num_vars,
                brakedown: code,
                brakedown_num_rows,
                num_brakedown_queries,
                brakedown_row_len: row_len,
                brakedown_codeword_len: codeword_len,
                parity_check_matrix,
                basefold_poly_size,
                basefold,
                basefold_prover_params,
                basefold_verifier_params,
                trusted_commit,
            },
        )
    }

    /// What a prover and what a verifier needs of the parameters.
    pub fn trim(param: &BrakingbaseParams<F>, poly_size: usize, batch_size: usize) -> (res: Result<
        (BrakingbaseProverParams<F>, BrakingbaseVerifierParams<F>),
        Error,
    >)
        requires
            param.wf::<H>(),
        ensures
            res matches Ok(r) && {
                &&& r.0.wf::<H>()
                &&& r.0.scheme() == param.prover_view().scheme()
                &&& r.0.brakedown.num_column_opening == param.brakedown.num_column_opening
                &&& r.0.basefold_poly_size == param.basefold_poly_size
                &&& param.basefold_prover_params.from_seed() ==> r.0.basefold.from_seed()
                &&& r.1.wf()
                &&& r.1.num_vars == param.num_vars
                &&& r.1.brakedown_num_rows == param.brakedown_num_rows
                &&& r.1.num_brakedown_queries == param.num_brakedown_queries
                &&& r.1.brakedown_row_len == param.brakedown_row_len
                &&& r.1.brakedown_codeword_len == param.brakedown_codeword_len
                &&& r.1.basefold_poly_size == param.basefold_poly_size
                &&& r.1.basefold.num_vars == param.basefold_prover_params.num_vars
                &&& r.1.basefold.log_rate == param.basefold_prover_params.log_rate
                &&& r.1.basefold.num_verifier_queries
                    == param.basefold_prover_params.num_verifier_queries
                &&& r.1.basefold.seed == param.basefold_prover_params.seed
                &&& r.1.trusted_commit == tree_view(param.trusted_commit.codeword_tree@).last()[0]
            },
    {
        let b = &param.basefold_prover_params;
        let basefold = copy_prover_params(
            b.num_vars,
            b.log_rate,
            b.num_verifier_queries,
            b.seed,
            &b.table,
            &b.table_w_weights,
        );
        let trusted_commit = copy_batch(&param.trusted_commit);
        proof {
            let levels = (b.num_vars + b.log_rate) as nat;
            let cws = poly_values(param.trusted_commit.codewords@);
            let mp = matrix_polys(
                F::modulus(),
                param.parity_check_matrix.matrix(),
                param.brakedown.row_len as nat,
                param.basefold_poly_size as nat,
            );
            assert(mp[0].len() == two_to(b.num_vars as nat));
            assert(bit_reversed(mp[0]).len() == two_to(b.num_vars as nat));
            crate::basefold::lemma_encode_len(
                F::modulus(),
                vals2(b.table@),
                b.log_rate as nat,
                bit_reversed(mp[0]),
                b.num_vars as nat,
            );
            assert(cws[0] == vals(param.trusted_commit.codewords@[0].poly@));
            assert(b.log_rate + b.num_vars == levels);
            crate::basefold_batch::lemma_column_tree_shape::<F, H>(cws, levels);
            assert forall|i: int| 0 <= i < mp.len() implies vals((#[trigger] trusted_commit.codewords@[i]).poly@)
                == encode(
                F::modulus(),
                vals2(basefold.table@),
                basefold.log_rate as nat,
                bit_reversed(mp[i]),
            ) by {
                assert(trusted_commit.codewords@[i].poly@ == param.trusted_commit.codewords@[i].poly@);
            }
        }
        let tree = &param.trusted_commit.codeword_tree;
        let last = tree.len() - 1;
        assert(tree_view(tree@).last() == tree@[last as int]@);
        assert(two_to(0) == 1);
        let root = tree[last][0];
        let brakedown = param.brakedown.copy();
        let parity_check_matrix = param.parity_check_matrix.copy();
        proof {
            assert(brakedown.matrix.matrix() == param.brakedown.matrix.matrix());
            assert(parity_check_matrix.matrix() == param.parity_check_matrix.matrix());
        }
        let pp = BrakingbaseProverParams {
            num_vars: param.num_vars,
            brakedown,
            brakedown_num_rows: param.brakedown_num_rows,
            num_brakedown_queries: param.num_brakedown_queries,
            parity_check_matrix,
            basefold_poly_size: param.basefold_poly_size,
            basefold,
            trusted_commit,
        };
        let vp = BrakingbaseVerifierParams {
            num_vars: param.num_vars,
            brakedown_num_rows: param.brakedown_num_rows,
            num_brakedown_queries: param.num_brakedown_queries,
            brakedown_row_len: param.brakedown_row_len,
            brakedown_codeword_len: param.brakedown_codeword_len,
            basefold_poly_size: param.basefold_poly_size,
            basefold: BasefoldVerifierParams {
                num_vars: param.basefold_verifier_params.num_vars,
                log_rate: param.basefold_verifier_params.log_rate,
                num_verifier_queries: param.basefold_verifier_params.num_verifier_queries,
                seed: param.basefold_verifier_params.seed,
                field: core::marker::PhantomData,
            },
            trusted_commit: root,
        };
        Ok((pp, vp))
    }

    /// Commits to a polynomial: encodes its rows, and builds the Merkle tree over the columns.
    pub fn commit(pp: &BrakingbaseProverParams<F>, poly: &MultilinearPolynomial<F>) -> (res: Result<
        BrakingbaseCommitment<F>,
        Error,
    >)
        requires
            pp.wf::<H>(),
            poly.wf(),
        ensures
            poly.num_vars > pp.num_vars <==> res == Err::<BrakingbaseCommitment<F>, Error>(
                Error::TooManyVariates,
            ),
            poly.num_vars <= pp.num_vars ==> (res matches Ok(c) && is_commitment::<F, H>(
                c,
                committed_rows(F::modulus(), pp.scheme(), vals(poly.evals@)),
                pp.brakedown.codeword_len as nat,
            )),
    {
        if poly.num_vars() > pp.num_vars() {
            return Err(Error::TooManyVariates);
        }
        let ghost sc = pp.scheme();
        let row_len = pp.brakedown.row_len();
        let codeword_len = pp.brakedown.codeword_len();
        let num_rows = pp.brakedown_num_rows;
        let ghost want = committed_rows(F::modulus(), sc, vals(poly.evals@));
        let mut rows: Vec<Vec<F>> = Vec::new();
        let mut i: usize = 0;
        while i < num_rows
            invariant
                i <= num_rows,
                pp.wf::<H>(),
                sc == pp.scheme(),
                row_len == sc.row_len,
                codeword_len == sc.codeword_len,
                num_rows == sc.num_rows,
                want == committed_rows(F::modulus(), sc, vals(poly.evals@)),
                rows@.len() == i,
                forall|k: int| 0 <= k < i ==> vals((#[trigger] rows@[k])@) == want[k],
                forall|k: int| 0 <= k < i ==> (#[trigger] rows@[k])@.len() == codeword_len,
            decreases num_rows - i,
        {
            proof {
                assert((i + 1) * row_len <= num_rows * row_len) by (nonlinear_arith)
                    requires
                        i + 1 <= num_rows,
                ;
            }
            let msg = take_message(poly.evals(), row_len, i);
            let row = pp.brakedown.encode(&msg);
            assert(vals(row@).len() == codeword_len);
            rows.push(row);
            i += 1;
        }
        assert(vals2(rows@) =~= want);
        let ghost depth_of = ceil_log2(codeword_len as nat);
        let ghost leaves = column_leaves::<F, H>(want, codeword_len as nat);
        proof {
            lemma_width_fits(codeword_len as nat, row_len as nat);
        }
        let width = next_power_of_two(codeword_len);
        proof {
            lemma_log2_two_to(depth_of);
        }
        let depth = log2(width);
        let mut level: Vec<Output> = Vec::new();
        let mut j: usize = 0;
        while j < width
            invariant
                j <= width,
                width == two_to(depth_of),
                depth_of == ceil_log2(codeword_len as nat),
                codeword_len <= width,
                vals2(rows@) == want,
                leaves == column_leaves::<F, H>(want, codeword_len as nat),
                forall|k: int| 0 <= k < rows@.len() ==> (#[trigger] rows@[k])@.len() == codeword_len,
                level@.len() == j,
                forall|k: int| 0 <= k < j ==> #[trigger] level@[k] == leaves[k],
            decreases width - j,
        {
            if j < codeword_len {
                let column = take_column(&rows, j);
                level.push(hash_elements::<F, H>(&column));
            } else {
                level.push(default_output());
            }
            j += 1;
        }
        assert(level@ =~= leaves);
        let mut levels: Vec<Vec<Output>> = Vec::new();
        let mut k: usize = 0;
        while k < depth
            invariant
                k <= depth,
                level@ == tree_level::<H>(leaves, k as nat),
                levels@.len() == k,
                forall|l: int| 0 <= l < k ==> (#[trigger] levels@[l])@ == tree_level::<H>(leaves, l as nat),
            decreases depth - k,
        {
            let next = hash_level::<H>(&level);
            levels.push(level);
            level = next;
            k += 1;
        }
        assert(tree_view(levels@) =~= tree_over::<H>(leaves, depth as nat));
        proof {
            lemma_tree_level_len::<H>(leaves, depth_of, depth_of);
            assert(two_to(0) == 1);
        }
        let root = level[0];
        proof {
            assert forall|l: int| 0 <= l < depth implies (#[trigger] levels@[l])@.len() == two_to(
                (depth - l) as nat,
            ) by {
                lemma_tree_level_len::<H>(leaves, depth_of, l as nat);
            }
            lemma_level_start(depth_of, depth_of);
        }
        let flat_rows = join_rows(&rows, codeword_len);
        let hashes = join_levels(&levels);
        Ok(BrakingbaseCommitment { rows: flat_rows, intermediate_hashes: hashes, root })
    }

    /// Commits to each of the polynomials.
    pub fn batch_commit(
        pp: &BrakingbaseProverParams<F>,
        polys: &Vec<MultilinearPolynomial<F>>,
    ) -> (res: Result<Vec<BrakingbaseCommitment<F>>, Error>)
        requires
            pp.wf::<H>(),
            forall|i: int| 0 <= i < polys@.len() ==> (#[trigger] polys@[i]).wf(),
        ensures
            (exists|i: int| 0 <= i < polys@.len() && (#[trigger] polys@[i]).num_vars > pp.num_vars)
                <==> res == Err::<Vec<BrakingbaseCommitment<F>>, Error>(Error::TooManyVariates),
            (forall|i: int| 0 <= i < polys@.len() ==> (#[trigger] polys@[i]).num_vars <= pp.num_vars)
                ==> (res matches Ok(c) && c@.len() == polys@.len() && forall|i: int|
                0 <= i < polys@.len() ==> is_commitment::<F, H>(
                    #[trigger] c@[i],
                    committed_rows(F::modulus(), pp.scheme(), vals(polys@[i].evals@)),
                    pp.brakedown.codeword_len as nat,
                )),
    {
        let mut comms: Vec<BrakingbaseCommitment<F>> = Vec::new();
        let mut i: usize = 0;
        while i < polys.len()
            invariant
                i <= polys@.len(),
                pp.wf::<H>(),
                forall|k: int| 0 <= k < polys@.len() ==> (#[trigger] polys@[k]).wf(),
                comms@.len() == i,
                forall|k: int| 0 <= k < i ==> (#[trigger] polys@[k]).num_vars <= pp.num_vars,
                forall|k: int|
                    0 <= k < i ==> is_commitment::<F, H>(
                        #[trigger] comms@[k],
                        committed_rows(F::modulus(), pp.scheme(), vals(polys@[k].evals@)),
                        pp.brakedown.codeword_len as nat,
                    ),
            decreases polys@.len() - i,
        {
            assert(polys@[i as int].wf());
            match Self::commit(pp, &polys[i]) {
                Ok(c) => {
                    comms.push(c);
                },
                Err(e) => {
                    return Err(e);
                },
            }
            i += 1;
        }
        Ok(comms)
    }

    /// Commits to a polynomial, and sends the root.
    pub fn commit_and_write<T: TranscriptWrite<F>>(
        pp: &BrakingbaseProverParams<F>,
        poly: &MultilinearPolynomial<F>,
        transcript: &mut T,
    ) -> (res: Result<BrakingbaseCommitment<F>, Error>)
        requires
            pp.wf::<H>(),
            poly.wf(),
        ensures
            poly.num_vars > pp.num_vars ==> res == Err::<BrakingbaseCommitment<F>, Error>(
                Error::TooManyVariates,
            ) && final(transcript).tx() == old(transcript).tx(),
            poly.num_vars <= pp.num_vars ==> {
                &&& res matches Ok(c) && is_commitment::<F, H>(
                    c,
                    committed_rows(F::modulus(), pp.scheme(), vals(poly.evals@)),
                    pp.brakedown.codeword_len as nat,
                ) && c.root == root_of::<F, H>(F::modulus(), pp.scheme(), vals(poly.evals@))
                &&& final(transcript).tx() == old(transcript).tx().commit(
                    root_of::<F, H>(F::modulus(), pp.scheme(), vals(poly.evals@)),
                )
            },
    {
        let comm = match Self::commit(pp, poly) {
            Ok(c) => c,
            Err(e) => {
                return Err(e);
            },
        };
        transcript.write_commitment(comm.as_ref());
        Ok(comm)
    }

    /// Reads the roots of commitments.
    pub fn read_commitments<T: TranscriptRead<F>>(
        vp: &BrakingbaseVerifierParams<F>,
        num_polys: usize,
        transcript: &mut T,
    ) -> (res: Result<Vec<BrakingbaseCommitment<F>>, Error>)
        ensures
            ({
                let (c, roots) = checking(old(transcript).rx()).read_commitments(num_polys as nat);
                &&& final(transcript).rx() == c.rx
                &&& outcome(res, c.err)
                &&& res matches Ok(v) ==> v@.len() == num_polys && forall|i: int|
                    0 <= i < num_polys ==> (#[trigger] v@[i]).root == roots[i] && v@[i].rows@.len()
                        == 0 && v@[i].intermediate_hashes@.len() == 0
            }),
    {
        let roots = match read_commitments::<F, T>(transcript, num_polys) {
            Ok(v) => v,
            Err(e) => {
                return Err(e);
            },
        };
        proof {
            lemma_read_commitments_len(checking(old(transcript).rx()), num_polys as nat);
        }
        let mut r: Vec<BrakingbaseCommitment<F>> = Vec::new();
        let mut i: usize = 0;
        while i < num_polys
            invariant
                i <= num_polys,
                roots@.len() == num_polys,
                r@.len() == i,
                forall|k: int|
                    0 <= k < i ==> (#[trigger] r@[k]).root == roots@[k] && r@[k].rows@.len() == 0
                        && r@[k].intermediate_hashes@.len() == 0,
            decreases num_polys - i,
        {
            r.push(BrakingbaseCommitment::from_root(roots[i]));
            i += 1;
        }
        Ok(r)
    }
}

/// The number of rows is a power of two, and twice itself and the row length fit into a word.
proof fn lemma_rows(poly_size: nat, row_len: nat)
    requires
        1 <= poly_size <= usize::MAX,
        is_power_of_two(poly_size),
        row_len >= 1,
        is_power_of_two(row_len),
        row_len * rows_of(log2_of(poly_size)) == poly_size,
    ensures
        two_to(ceil_log2(log2_of(poly_size))) <= usize::MAX / 2,
        is_power_of_two(rows_of(log2_of(poly_size))),
        rows_of(log2_of(poly_size)) <= usize::MAX / 2,
        rows_of(log2_of(poly_size)) >= 2,
        rows_of(log2_of(poly_size)) * row_len == poly_size,
{
    let k = ceil_log2(log2_of(poly_size));
    let rows = rows_of(log2_of(poly_size));
    assert(rows == two_to(k + 1));
    lemma_two_to_positive(k + 1);
    lemma_log2_two_to(k + 1);
    assert(rows * row_len == poly_size) by (nonlinear_arith)
        requires
            row_len * rows == poly_size,
    ;
    assert(rows <= poly_size) by (nonlinear_arith)
        requires
            rows * row_len == poly_size,
            row_len >= 1,
            rows >= 0,
    ;
    lemma_fits_word(log2_of(poly_size));
    let v = log2_of(poly_size);
    crate::bits::lemma_two_to_word();
    lemma_small_rows(v);
    if v >= 1 {
        lemma_ceil_log2(v);
    }
}

/// The number of rows is small beside the number of values.
proof fn lemma_small_rows(v: nat)
    requires
        v < usize::BITS,
    ensures
        rows_of(v) <= 256,
{
    lemma_ceil_log2(v);
    let k = ceil_log2(v);
    if k > 7 {
        assert(two_to(1) == 2 * two_to(0));
        assert(two_to(2) == 2 * two_to(1));
        assert(two_to(3) == 2 * two_to(2));
        assert(two_to(4) == 2 * two_to(3));
        assert(two_to(5) == 2 * two_to(4));
        assert(two_to(6) == 2 * two_to(5));
        lemma_two_to_monotone(6, (k - 1) as nat);
        assert(false);
    }
    lemma_two_to_monotone(k, 7);
    assert(two_to(7) <= 128) by {
        assert(two_to(1) == 2 * two_to(0));
        assert(two_to(2) == 2 * two_to(1));
        assert(two_to(3) == 2 * two_to(2));
        assert(two_to(4) == 2 * two_to(3));
        assert(two_to(5) == 2 * two_to(4));
        assert(two_to(6) == 2 * two_to(5));
        assert(two_to(7) == 2 * two_to(6));
    }
}

/// A power of two that fits into a word has a small exponent.
proof fn lemma_fits_word(n: nat)
    requires
        two_to(n) <= usize::MAX,
    ensures
        n < usize::BITS,
{
    if n >= usize::BITS {
        lemma_two_to_monotone(usize::BITS as nat, n);
        crate::bits::lemma_two_to_word();
    }
}

/// The tree over the columns is no wider than two messages.
pub proof fn lemma_width_fits(codeword_len: nat, row_len: nat)
    requires
        1 <= codeword_len <= 2 * row_len,
        row_len >= 1,
        is_power_of_two(row_len),
    ensures
        two_to(ceil_log2(codeword_len)) <= 2 * row_len,
{
    let k = log2_of(row_len);
    assert(two_to(k + 1) == 2 * row_len);
    lemma_ceil_log2(codeword_len);
    let c = ceil_log2(codeword_len);
    if c > k + 1 {
        lemma_two_to_monotone(k + 1, (c - 1) as nat);
    }
    lemma_two_to_monotone(c, k + 1);
}

} // verus!
