//! Sparse matrices, and what is committed of them.
use std::collections::HashMap;
use vstd::prelude::*;
use crate::algebra::{lemma_cong_mod, lemma_mod_small, two_to};
use crate::bits::{
    ceil_log2, is_power_of_two, lemma_ceil_log2, lemma_log2_two_to, next_power_of_two,
};
use crate::brakingbase::{
    Brakingbase, BrakingbaseCommitment, BrakingbaseProverParams, BrakingbaseSpec, committed_rows,
    is_commitment, root_of,
};
use crate::brakingbase_verify::lemma_accumulate;
use crate::field::{PrimeField, repeat_element, vals};
use crate::hash::{HashFunction, Output};
use crate::poly::MultilinearPolynomial;
use crate::sums::{lemma_sum_step, sum_of};
use crate::timestamps::{addresses, final_times, read_times, stamp};
use crate::transcript::{TranscriptWrite, Tx};

verus! {

/// An entry of a row of a sparse matrix.
#[derive(Clone, Copy, Debug)]
pub struct ColumnData<F: PrimeField> {
    pub column: usize,
    pub value: F,
}

impl<F: PrimeField> ColumnData<F> {
    /// The entry `value` in the column `column`.
    pub fn new(column: usize, value: F) -> (r: Self)
        ensures
            r.column == column,
            r.value == value,
    {
        ColumnData { column, value }
    }
}

/// The entries of a row, as pairs of a column and a value.
pub open spec fn cells<F: PrimeField>(v: Seq<ColumnData<F>>) -> Seq<(int, int)> {
    Seq::new(v.len(), |k: int| (v[k].column as int, v[k].value.value()))
}

/// The entries of the first `n` rows, one after the other, with their rows.
pub open spec fn entries(rows: Seq<Seq<(int, int)>>, n: nat) -> Seq<(int, int, int)>
    decreases n,
{
    if n == 0 {
        Seq::empty()
    } else {
        entries(rows, (n - 1) as nat) + Seq::new(
            rows[n - 1].len(),
            |k: int| (n - 1, rows[n - 1][k].0, rows[n - 1][k].1),
        )
    }
}

/// All entries of a matrix.
pub open spec fn all_entries(rows: Seq<Seq<(int, int)>>) -> Seq<(int, int, int)> {
    entries(rows, rows.len())
}

/// The larger of the numbers of rows and columns.
pub open spec fn larger(a: nat, b: nat) -> nat {
    if a > b {
        a
    } else {
        b
    }
}

/// The smallest power of two that holds all rows and columns.
pub open spec fn dim_of(rows: nat, n_cols: nat) -> nat {
    two_to(ceil_log2(larger(rows, n_cols)))
}

/// A sparse matrix: a list of entries for every row that is present.
#[derive(Debug)]
pub struct SparseRep<F: PrimeField> {
    pub fourcoeffs: HashMap<usize, Vec<ColumnData<F>>>,
}

/// The rows of a map have the numbers from zero up to their count.
pub open spec fn rows_present<F: PrimeField>(m: Map<usize, Vec<ColumnData<F>>>) -> bool {
    &&& m.dom().finite()
    &&& m.len() <= usize::MAX
    &&& forall|i: usize| #[trigger] m.contains_key(i) <==> i < m.len()
}

impl<F: PrimeField> SparseRep<F> {
    /// The rows are numbered from zero without gaps.
    pub open spec fn wf(&self) -> bool {
        rows_present(self.fourcoeffs@)
    }

    /// The rows below `n`, of which those that are not present are empty.
    pub open spec fn rows_below(&self, n: nat) -> Seq<Seq<(int, int)>> {
        Seq::new(
            n,
            |i: int|
                if i <= usize::MAX && self.fourcoeffs@.contains_key(i as usize) {
                    cells(self.fourcoeffs@[i as usize]@)
                } else {
                    Seq::empty()
                },
        )
    }

    /// The rows, as integers.
    pub open spec fn rows(&self) -> Seq<Seq<(int, int)>> {
        Seq::new(self.fourcoeffs@.len(), |i: int| cells(self.fourcoeffs@[i as usize]@))
    }

    /// The matrix with the given rows.
    pub fn new(fourcoeffs: HashMap<usize, Vec<ColumnData<F>>>) -> (r: Self)
        ensures
            r.fourcoeffs == fourcoeffs,
            rows_present(fourcoeffs@) ==> r.wf(),
    {
        SparseRep { fourcoeffs }
    }

    /// The number of rows.
    fn num_rows(&self) -> (r: usize)
        ensures
            r == self.rows().len(),
    {
        broadcast use vstd::std_specs::hash::group_hash_axioms;

        self.fourcoeffs.len()
    }

    /// The entries of a row.
    fn row(&self, i: usize) -> (r: &Vec<ColumnData<F>>)
        requires
            self.wf(),
            i < self.rows().len(),
        ensures
            cells(r@) == self.rows()[i as int],
    {
        broadcast use vstd::std_specs::hash::group_hash_axioms;

        assert(self.fourcoeffs@.contains_key(i));
        self.fourcoeffs.get(&i).unwrap()
    }

    /// The entries of a row, if it is present.
    fn row_if_present(&self, i: usize) -> (r: Option<&Vec<ColumnData<F>>>)
        ensures
            r is Some <==> self.fourcoeffs@.contains_key(i),
            r matches Some(d) ==> *d == self.fourcoeffs@[i],
    {
        broadcast use vstd::std_specs::hash::group_hash_axioms;

        self.fourcoeffs.get(&i)
    }

    /// The smallest power of two that holds all rows and columns.
    pub fn dim(&self, n_cols: usize) -> (r: usize)
        requires
            dim_of(self.rows().len(), n_cols as nat) <= usize::MAX,
        ensures
            r == dim_of(self.rows().len(), n_cols as nat),
            r >= 1,
    {
        let rows = self.num_rows();
        let row_col_max = if rows > n_cols { rows } else { n_cols };
        next_power_of_two(row_col_max)
    }

    /// The number of entries.
    pub fn sparsity(&self) -> (r: usize)
        requires
            self.wf(),
            all_entries(self.rows()).len() <= usize::MAX,
        ensures
            r == all_entries(self.rows()).len(),
    {
        let n = self.num_rows();
        let mut nonzero_entries: usize = 0;
        let mut i: usize = 0;
        while i < n
            invariant
                i <= n,
                n == self.rows().len(),
                self.wf(),
                nonzero_entries == entries(self.rows(), i as nat).len(),
                all_entries(self.rows()).len() <= usize::MAX,
            decreases n - i,
        {
            proof {
                lemma_entries_grow(self.rows(), (i + 1) as nat, n as nat);
            }
            let row = self.row(i);
            assert(cells(row@).len() == row@.len());
            nonzero_entries = nonzero_entries + row.len();
            i += 1;
        }
        nonzero_entries
    }
}

/// More rows have no fewer entries.
pub proof fn lemma_entries_grow(rows: Seq<Seq<(int, int)>>, n: nat, m: nat)
    requires
        n <= m,
    ensures
        entries(rows, n).len() <= entries(rows, m).len(),
        entries(rows, n) == entries(rows, m).take(entries(rows, n).len() as int),
    decreases m,
{
    if n < m {
        lemma_entries_grow(rows, n, (m - 1) as nat);
        let a = entries(rows, n);
        let b = entries(rows, (m - 1) as nat);
        let c = entries(rows, m);
        assert(c.take(a.len() as int) =~= b.take(a.len() as int));
    } else {
        assert(entries(rows, m).take(entries(rows, n).len() as int) =~= entries(rows, m));
    }
}

/// The entries of the first rows depend on these alone.
proof fn lemma_entries_same(a: Seq<Seq<(int, int)>>, b: Seq<Seq<(int, int)>>, n: nat)
    requires
        forall|i: int| 0 <= i < n ==> #[trigger] a[i] == b[i],
    ensures
        entries(a, n) == entries(b, n),
    decreases n,
{
    if n > 0 {
        lemma_entries_same(a, b, (n - 1) as nat);
    }
}

/// Empty rows add nothing.
proof fn lemma_entries_empty(a: Seq<Seq<(int, int)>>, n: nat, m: nat)
    requires
        n <= m,
        forall|i: int| n <= i < m ==> (#[trigger] a[i]).len() == 0,
    ensures
        entries(a, m) == entries(a, n),
    decreases m,
{
    if n < m {
        lemma_entries_empty(a, n, (m - 1) as nat);
        assert(entries(a, m) =~= entries(a, (m - 1) as nat));
    }
}

/// Where the rows are numbered without gaps, those that are present are all of them.
pub proof fn lemma_rows_below<F: PrimeField>(m: SparseRep<F>, n: nat)
    requires
        m.wf(),
        m.rows().len() <= n,
    ensures
        all_entries(m.rows_below(n)) == all_entries(m.rows()),
{
    let (a, b) = (m.rows_below(n), m.rows());
    assert forall|i: int| 0 <= i < b.len() implies #[trigger] a[i] == b[i] by {
        assert(m.fourcoeffs@.contains_key(i as usize));
    }
    assert forall|i: int| b.len() <= i < n implies (#[trigger] a[i]).len() == 0 by {
    }
    lemma_entries_same(a, b, b.len());
    lemma_entries_empty(a, b.len(), n);
}

/// The row of an entry is one of the rows, and the entry one of its entries.
pub proof fn lemma_entry_row(rows: Seq<Seq<(int, int)>>, n: nat, k: int)
    requires
        n <= rows.len(),
        0 <= k < entries(rows, n).len(),
    ensures
        ({
            let e = entries(rows, n)[k];
            &&& 0 <= e.0 < n
            &&& exists|j: int|
                0 <= j < rows[e.0].len() && #[trigger] rows[e.0][j] == (e.1, e.2)
        }),
    decreases n,
{
    let b = entries(rows, (n - 1) as nat);
    if k < b.len() {
        lemma_entry_row(rows, (n - 1) as nat, k);
    } else {
        let j = k - b.len();
        assert(rows[n - 1][j] == (entries(rows, n)[k].1, entries(rows, n)[k].2));
    }
}

/// Every entry lies in a column before `n`.
pub open spec fn columns_below(rows: Seq<Seq<(int, int)>>, n: int) -> bool {
    forall|i: int, k: int|
        #![trigger rows[i][k]]
        0 <= i < rows.len() && 0 <= k < rows[i].len() ==> 0 <= rows[i][k].0 < n
}

/// The values at the entries' positions, padded to `size`.
pub open spec fn padded_entries(e: Seq<(int, int, int)>, size: nat, pad: int) -> Seq<(int, int, int)> {
    Seq::new(
        size,
        |i: int|
            if i < e.len() {
                e[i]
            } else {
                (pad, 0, 0)
            },
    )
}

/// The entries of a matrix, padded to a power of two by zeros in the first column of the row behind
/// all others.
pub open spec fn tuples_of(rows: Seq<Seq<(int, int)>>, n_cols: nat) -> Seq<(int, int, int)> {
    let e = all_entries(rows);
    padded_entries(e, two_to(ceil_log2(e.len())), larger(rows.len(), n_cols) as int)
}

/// The rows, columns and values of the entries of a matrix, padded to a power of two.
pub fn get_tuples<F: PrimeField>(sparse_representation: &SparseRep<F>, n_cols: usize) -> (r: (
    Vec<F>,
    Vec<F>,
    Vec<F>,
))
    requires
        sparse_representation.wf(),
        two_to(ceil_log2(all_entries(sparse_representation.rows()).len())) <= usize::MAX,
    ensures
        ({
            let t = tuples_of(sparse_representation.rows(), n_cols as nat);
            let p = F::modulus();
            &&& vals(r.0@) == Seq::new(t.len(), |i: int| t[i].0 % p)
            &&& vals(r.1@) == Seq::new(t.len(), |i: int| t[i].1 % p)
            &&& vals(r.2@) == Seq::new(t.len(), |i: int| t[i].2)
            &&& r.0@.len() == t.len()
            &&& r.1@.len() == t.len()
            &&& r.2@.len() == t.len()
        }),
{
    let ghost rs = sparse_representation.rows();
    let ghost p = F::modulus();
    let ghost t = tuples_of(rs, n_cols as nat);
    let ghost all = all_entries(rs);
    proof {
        F::lemma_modulus();
        lemma_mod_small(p, 0);
        lemma_ceil_log2(all.len());
    }
    let count = sparse_representation.sparsity();
    let sparsity = next_power_of_two(count);
    let rows = sparse_representation.num_rows();
    let mut row: Vec<F> = Vec::new();
    let mut col: Vec<F> = Vec::new();
    let mut val: Vec<F> = Vec::new();
    let mut i: usize = 0;
    while i < rows
        invariant
            i <= rows,
            rows == rs.len(),
            sparse_representation.wf(),
            rs == sparse_representation.rows(),
            p == F::modulus(),
            all == all_entries(rs),
            row@.len() == entries(rs, i as nat).len(),
            col@.len() == row@.len(),
            val@.len() == row@.len(),
            row@.len() <= all.len(),
            forall|k: int| 0 <= k < row@.len() ==> (#[trigger] row@[k]).value() == all[k].0 % p,
            forall|k: int| 0 <= k < row@.len() ==> (#[trigger] col@[k]).value() == all[k].1 % p,
            forall|k: int| 0 <= k < row@.len() ==> (#[trigger] val@[k]).value() == all[k].2,
        decreases rows - i,
    {
        let data = sparse_representation.row(i);
        let ghost base = entries(rs, i as nat);
        let ghost next = entries(rs, (i + 1) as nat);
        proof {
            lemma_entries_grow(rs, (i + 1) as nat, rows as nat);
            assert(cells(data@).len() == data@.len());
            assert(next.len() == base.len() + data@.len());
        }
        let mut k: usize = 0;
        while k < data.len()
            invariant
                k <= data@.len(),
                i < rows,
                p == F::modulus(),
                cells(data@) == rs[i as int],
                base == entries(rs, i as nat),
                next == entries(rs, (i + 1) as nat),
                next.len() == base.len() + data@.len(),
                next.len() <= all.len(),
                next == all.take(next.len() as int),
                row@.len() == base.len() + k,
                col@.len() == row@.len(),
                val@.len() == row@.len(),
                forall|j: int| 0 <= j < row@.len() ==> (#[trigger] row@[j]).value() == all[j].0 % p,
                forall|j: int| 0 <= j < row@.len() ==> (#[trigger] col@[j]).value() == all[j].1 % p,
                forall|j: int| 0 <= j < row@.len() ==> (#[trigger] val@[j]).value() == all[j].2,
            decreases data@.len() - k,
        {
            proof {
                let j = base.len() + k;
                assert(next[j as int] == all[j as int]);
                assert(next[j as int] == (i as int, rs[i as int][k as int].0, rs[i as int][k as int].1));
                assert(cells(data@)[k as int] == (
                    data@[k as int].column as int,
                    data@[k as int].value.value(),
                ));
            }
            row.push(F::from_u64(i as u64));
            col.push(F::from_u64(data[k].column as u64));
            val.push(data[k].value);
            k += 1;
        }
        i += 1;
    }
    let row_col_max = if rows > n_cols { rows } else { n_cols };
    let pad = F::from_u64(row_col_max as u64);
    while row.len() < sparsity
        invariant
            count == all.len(),
            count <= row@.len() <= sparsity,
            col@.len() == row@.len(),
            val@.len() == row@.len(),
            sparsity == t.len(),
            t == padded_entries(all, sparsity as nat, row_col_max as int),
            pad.value() == row_col_max as int % p,
            p == F::modulus(),
            p > 0,
            0int % p == 0,
            forall|k: int| 0 <= k < row@.len() ==> (#[trigger] row@[k]).value() == t[k].0 % p,
            forall|k: int| 0 <= k < row@.len() ==> (#[trigger] col@[k]).value() == t[k].1 % p,
            forall|k: int| 0 <= k < row@.len() ==> (#[trigger] val@[k]).value() == t[k].2,
        decreases sparsity - row@.len(),
    {
        row.push(pad);
        col.push(F::zero());
        val.push(F::zero());
    }
    proof {
        assert(vals(row@) =~= Seq::new(t.len(), |i: int| t[i].0 % p));
        assert(vals(col@) =~= Seq::new(t.len(), |i: int| t[i].1 % p));
        assert(vals(val@) =~= Seq::new(t.len(), |i: int| t[i].2));
    }
    (row, col, val)
}

/// The times of reads, and the times that they leave.
#[derive(Clone)]
pub struct TimeStamps<F: PrimeField> {
    pub read_ts_row: MultilinearPolynomial<F>,
    pub read_ts_col: MultilinearPolynomial<F>,
    pub final_ts_row: MultilinearPolynomial<F>,
    pub final_ts_col: MultilinearPolynomial<F>,
}

impl<F: PrimeField> TimeStamps<F> {
    /// The given times.
    pub fn new(
        read_ts_row: MultilinearPolynomial<F>,
        read_ts_col: MultilinearPolynomial<F>,
        final_ts_row: MultilinearPolynomial<F>,
        final_ts_col: MultilinearPolynomial<F>,
    ) -> (r: Self)
        ensures
            r == (TimeStamps { read_ts_row, read_ts_col, final_ts_row, final_ts_col }),
    {
        TimeStamps { read_ts_row, read_ts_col, final_ts_row, final_ts_col }
    }
}

/// The times of the first `length` reads of `dim` cells at the addresses `row` and `col`.
pub fn get_timestamps<F: PrimeField>(
    row: &Vec<F>,
    col: &Vec<F>,
    length: usize,
    dim: usize,
) -> (r: TimeStamps<F>)
    requires
        length >= 1,
        is_power_of_two(length as nat),
        dim >= 1,
        is_power_of_two(dim as nat),
        length <= row@.len(),
        length <= col@.len(),
        forall|i: int|
            0 <= i < length ==> #[trigger] addresses(vals(row@), length as nat, length as nat)[i] < dim,
        forall|i: int|
            0 <= i < length ==> #[trigger] addresses(vals(col@), length as nat, length as nat)[i] < dim,
    ensures
        ({
            let p = F::modulus();
            let a = addresses(vals(row@), length as nat, length as nat);
            let b = addresses(vals(col@), length as nat, length as nat);
            &&& r.read_ts_row.wf() && r.read_ts_col.wf() && r.final_ts_row.wf() && r.final_ts_col.wf()
            &&& vals(r.read_ts_row.evals@) == read_times(p, a)
            &&& vals(r.read_ts_col.evals@) == read_times(p, b)
            &&& vals(r.final_ts_row.evals@) == final_times(p, a, dim as nat)
            &&& vals(r.final_ts_col.evals@) == final_times(p, b, dim as nat)
        }),
{
    let (read_ts_row, final_ts_row) = stamp(row, length, dim, length);
    let (read_ts_col, final_ts_col) = stamp(col, length, dim, length);
    proof {
        assert(vals(read_ts_row@).len() == length);
        assert(vals(read_ts_col@).len() == length);
        assert(vals(final_ts_row@).len() == dim);
        assert(vals(final_ts_col@).len() == dim);
    }
    TimeStamps::new(
        MultilinearPolynomial::new(read_ts_row),
        MultilinearPolynomial::new(read_ts_col),
        MultilinearPolynomial::new(final_ts_row),
        MultilinearPolynomial::new(final_ts_col),
    )
}

/// What is committed of a matrix, as integers.
pub struct Meta {
    pub row: Seq<int>,
    pub col: Seq<int>,
    pub val: Seq<int>,
    pub read_row: Seq<int>,
    pub read_col: Seq<int>,
    pub final_row: Seq<int>,
    pub final_col: Seq<int>,
}

/// What is committed of a matrix.
#[derive(Clone)]
pub struct SparseMetaData<F: PrimeField> {
    pub row: MultilinearPolynomial<F>,
    pub col: MultilinearPolynomial<F>,
    pub val: MultilinearPolynomial<F>,
    pub timestamps: TimeStamps<F>,
}

/// What is to be committed of a matrix.
pub open spec fn meta_of(p: int, rows: Seq<Seq<(int, int)>>, n_cols: nat) -> Meta {
    let t = tuples_of(rows, n_cols);
    let row = Seq::new(t.len(), |i: int| t[i].0 % p);
    let col = Seq::new(t.len(), |i: int| t[i].1 % p);
    let a = addresses(row, t.len(), t.len());
    let b = addresses(col, t.len(), t.len());
    let dim = dim_of(rows.len(), n_cols);
    Meta {
        row,
        col,
        val: Seq::new(t.len(), |i: int| t[i].2),
        read_row: read_times(p, a),
        read_col: read_times(p, b),
        final_row: final_times(p, a, dim),
        final_col: final_times(p, b, dim),
    }
}

/// The padded entries of a matrix lie in a square of a side that fits into a word of 32 bits.
pub open spec fn entries_fit(rows: Seq<Seq<(int, int)>>, n_cols: nat) -> bool {
    let dim = dim_of(rows.len(), n_cols);
    let t = tuples_of(rows, n_cols);
    &&& dim <= 0x1_0000_0000
    &&& dim <= usize::MAX
    &&& t.len() <= usize::MAX
    &&& forall|i: int| 0 <= i < t.len() ==> 0 <= (#[trigger] t[i]).0 < dim && 0 <= t[i].1 < dim
}

impl<F: PrimeField> SparseMetaData<F> {
    pub open spec fn wf(&self) -> bool {
        &&& self.row.wf()
        &&& self.col.wf()
        &&& self.val.wf()
        &&& self.timestamps.read_ts_row.wf()
        &&& self.timestamps.read_ts_col.wf()
        &&& self.timestamps.final_ts_row.wf()
        &&& self.timestamps.final_ts_col.wf()
    }

    /// The values of the polynomials.
    pub open spec fn meta(&self) -> Meta {
        Meta {
            row: vals(self.row.evals@),
            col: vals(self.col.evals@),
            val: vals(self.val.evals@),
            read_row: vals(self.timestamps.read_ts_row.evals@),
            read_col: vals(self.timestamps.read_ts_col.evals@),
            final_row: vals(self.timestamps.final_ts_row.evals@),
            final_col: vals(self.timestamps.final_ts_col.evals@),
        }
    }

    /// What is to be committed of a matrix.
    pub fn generate(sparse_representation: &SparseRep<F>, n_cols: usize) -> (r: Self)
        requires
            sparse_representation.wf(),
            entries_fit(sparse_representation.rows(), n_cols as nat),
        ensures
            r.wf(),
            r.meta() == meta_of(F::modulus(), sparse_representation.rows(), n_cols as nat),
    {
        let ghost rs = sparse_representation.rows();
        let ghost t = tuples_of(rs, n_cols as nat);
        let ghost p = F::modulus();
        let (row, col, val) = get_tuples(sparse_representation, n_cols);
        let dim = sparse_representation.dim(n_cols);
        proof {
            F::lemma_modulus();
            lemma_log2_two_to(ceil_log2(all_entries(rs).len()));
            crate::algebra::lemma_two_to_positive(ceil_log2(all_entries(rs).len()));
            lemma_log2_two_to(ceil_log2(larger(rs.len(), n_cols as nat)));
            let a = addresses(vals(row@), t.len(), t.len());
            let b = addresses(vals(col@), t.len(), t.len());
            assert forall|i: int| 0 <= i < t.len() implies #[trigger] a[i] < dim by {
                assert(0 <= t[i].0 < dim);
                lemma_mod_small(p, t[i].0);
                lemma_mod_small(0x1_0000_0000, t[i].0);
            }
            assert forall|i: int| 0 <= i < t.len() implies #[trigger] b[i] < dim by {
                assert(0 <= t[i].0 < dim && 0 <= t[i].1 < dim);
                lemma_mod_small(p, t[i].1);
                lemma_mod_small(0x1_0000_0000, t[i].1);
            }
        }
        let timestamps = get_timestamps(&row, &col, val.len(), dim);
        SparseMetaData {
            row: MultilinearPolynomial::new(row),
            col: MultilinearPolynomial::new(col),
            val: MultilinearPolynomial::new(val),
            timestamps,
        }
    }
}

/// The roots of the commitments to the parts of a matrix, in the order in which they are sent.
pub open spec fn meta_roots<F: PrimeField, H: HashFunction>(
    p: int,
    s: crate::brakingbase::Scheme,
    m: Meta,
) -> Seq<Output> {
    seq![
        root_of::<F, H>(p, s, m.row),
        root_of::<F, H>(p, s, m.col),
        root_of::<F, H>(p, s, m.val),
        root_of::<F, H>(p, s, m.read_row),
        root_of::<F, H>(p, s, m.read_col),
        root_of::<F, H>(p, s, m.final_row),
        root_of::<F, H>(p, s, m.final_col),
    ]
}

/// The parts of a matrix, in the order in which they are committed to.
pub open spec fn meta_parts(m: Meta) -> Seq<Seq<int>> {
    seq![m.row, m.col, m.val, m.read_row, m.read_col, m.final_row, m.final_col]
}

/// Commitments to these tables.
pub open spec fn are_commitments<F: PrimeField, H: HashFunction>(
    c: Seq<BrakingbaseCommitment<F>>,
    pp: BrakingbaseProverParams<F>,
    ts: Seq<Seq<int>>,
) -> bool {
    &&& c.len() == ts.len()
    &&& forall|i: int|
        0 <= i < ts.len() ==> is_commitment::<F, H>(
            #[trigger] c[i],
            committed_rows(F::modulus(), pp.scheme(), ts[i]),
            pp.brakedown.codeword_len as nat,
        )
}

/// Commits to a polynomial that has few enough variables, and sends the root.
pub fn send_commitment<F: PrimeField, H: HashFunction, S: BrakingbaseSpec, T: TranscriptWrite<F>>(
    pp: &BrakingbaseProverParams<F>,
    poly: &MultilinearPolynomial<F>,
    transcript: &mut T,
) -> (r: BrakingbaseCommitment<F>)
    requires
        pp.wf::<H>(),
        poly.wf(),
        poly.num_vars <= pp.num_vars,
    ensures
        is_commitment::<F, H>(
            r,
            committed_rows(F::modulus(), pp.scheme(), vals(poly.evals@)),
            pp.brakedown.codeword_len as nat,
        ),
        final(transcript).tx() == old(transcript).tx().commit(
            root_of::<F, H>(F::modulus(), pp.scheme(), vals(poly.evals@)),
        ),
{
    Brakingbase::<F, H, S>::commit_and_write(pp, poly, transcript).unwrap()
}

impl<F: PrimeField> SparseMetaData<F> {
    /// All parts have few enough variables to be committed to.
    pub open spec fn fits(&self, num_vars: nat) -> bool {
        &&& self.row.num_vars <= num_vars
        &&& self.col.num_vars <= num_vars
        &&& self.val.num_vars <= num_vars
        &&& self.timestamps.read_ts_row.num_vars <= num_vars
        &&& self.timestamps.read_ts_col.num_vars <= num_vars
        &&& self.timestamps.final_ts_row.num_vars <= num_vars
        &&& self.timestamps.final_ts_col.num_vars <= num_vars
    }

    /// Commits to all parts, and sends the roots.
    pub fn commit<H: HashFunction, S: BrakingbaseSpec, T: TranscriptWrite<F>>(
        &self,
        pp: &BrakingbaseProverParams<F>,
        transcript: &mut T,
    ) -> (r: Vec<BrakingbaseCommitment<F>>)
        requires
            pp.wf::<H>(),
            self.wf(),
            self.fits(pp.num_vars as nat),
        ensures
            are_commitments::<F, H>(r@, *pp, meta_parts(self.meta())),
            final(transcript).tx() == old(transcript).tx().commit_all(
                meta_roots::<F, H>(F::modulus(), pp.scheme(), self.meta()),
            ),
    {
        let ghost p = F::modulus();
        let ghost s = pp.scheme();
        let ghost roots = meta_roots::<F, H>(p, s, self.meta());
        let ghost t0 = transcript.tx();
        let mut r: Vec<BrakingbaseCommitment<F>> = Vec::new();
        r.push(send_commitment::<F, H, S, T>(pp, &self.row, transcript));
        r.push(send_commitment::<F, H, S, T>(pp, &self.col, transcript));
        r.push(send_commitment::<F, H, S, T>(pp, &self.val, transcript));
        r.push(send_commitment::<F, H, S, T>(pp, &self.timestamps.read_ts_row, transcript));
        r.push(send_commitment::<F, H, S, T>(pp, &self.timestamps.read_ts_col, transcript));
        r.push(send_commitment::<F, H, S, T>(pp, &self.timestamps.final_ts_row, transcript));
        r.push(send_commitment::<F, H, S, T>(pp, &self.timestamps.final_ts_col, transcript));
        proof {
            lemma_commit_seven(t0, roots);
        }
        r
    }
}

/// Seven commitments, one after the other.
proof fn lemma_commit_seven(tx: Tx, d: Seq<Output>)
    requires
        d.len() == 7,
    ensures
        tx.commit_all(d) == tx.commit(d[0]).commit(d[1]).commit(d[2]).commit(d[3]).commit(d[4]).commit(
            d[5],
        ).commit(d[6]),
{
    lemma_commit_step(tx, d, 1);
    lemma_commit_step(tx, d, 2);
    lemma_commit_step(tx, d, 3);
    lemma_commit_step(tx, d, 4);
    lemma_commit_step(tx, d, 5);
    lemma_commit_step(tx, d, 6);
    lemma_commit_step(tx, d, 7);
    assert(d.take(0) =~= Seq::empty());
    assert(d.take(7) =~= d);
}

/// One more commitment.
pub proof fn lemma_commit_step(tx: Tx, d: Seq<Output>, n: int)
    requires
        1 <= n <= d.len(),
    ensures
        tx.commit_all(d.take(n)) == tx.commit_all(d.take(n - 1)).commit(d[n - 1]),
{
    assert(d.take(n).drop_last() =~= d.take(n - 1));
}

/// What is committed of the three matrices of a system.
#[derive(Clone)]
#[allow(non_camel_case_types)]
#[allow(non_snake_case)]
pub struct eR1CSmetadata<F: PrimeField> {
    pub A: SparseMetaData<F>,
    pub B: SparseMetaData<F>,
    pub C: SparseMetaData<F>,
}

impl<F: PrimeField> eR1CSmetadata<F> {
    /// The data of three matrices.
    #[allow(non_snake_case)]
    pub fn new(A: SparseMetaData<F>, B: SparseMetaData<F>, C: SparseMetaData<F>) -> (r: Self)
        ensures
            r.A == A,
            r.B == B,
            r.C == C,
    {
        eR1CSmetadata { A, B, C }
    }
}

/// The contribution of the entry `k`, when the entries of a row and of a column are weighed by
/// `f`.
pub open spec fn entry_sum(e: Seq<(int, int, int)>, f: spec_fn(int, int) -> int) -> int {
    sum_of(e.len(), |k: int| f(e[k].0, e[k].1) * e[k].2)
}

/// The entries of one more row.
pub proof fn lemma_entry_sum_row(
    rows: Seq<Seq<(int, int)>>,
    n: nat,
    k: nat,
    f: spec_fn(int, int) -> int,
)
    requires
        n < rows.len(),
        k <= rows[n as int].len(),
    ensures
        ({
            let e = all_entries(rows);
            let base = entries(rows, n).len();
            &&& base + rows[n as int].len() <= e.len()
            &&& sum_of(base + k, |j: int| f(e[j].0, e[j].1) * e[j].2) == sum_of(
                base,
                |j: int| f(e[j].0, e[j].1) * e[j].2,
            ) + sum_of(
                k,
                |j: int| f(n as int, rows[n as int][j].0) * rows[n as int][j].1,
            )
            &&& forall|j: int|
                0 <= j < rows[n as int].len() ==> e[base + j] == (
                    n as int,
                    (#[trigger] rows[n as int][j]).0,
                    rows[n as int][j].1,
                )
        }),
{
    let e = all_entries(rows);
    let base = entries(rows, n).len();
    let next = entries(rows, n + 1);
    lemma_entries_grow(rows, n + 1, rows.len());
    assert(next.len() == base + rows[n as int].len());
    assert forall|j: int| 0 <= j < rows[n as int].len() implies e[base + j] == (
        n as int,
        (#[trigger] rows[n as int][j]).0,
        rows[n as int][j].1,
    ) by {
        assert(next[base + j] == e[base + j]);
    }
    let g = |j: int| f(e[j].0, e[j].1) * e[j].2;
    crate::brakingbase_complete::lemma_sum_split(base, k, g);
    let a = |j: int| g(base + j);
    let b = |j: int| f(n as int, rows[n as int][j].0) * rows[n as int][j].1;
    assert forall|j: int| 0 <= j < k implies #[trigger] a(j) == b(j) by {
        assert(e[base + j] == (n as int, rows[n as int][j].0, rows[n as int][j].1));
    }
    crate::sums::lemma_sum_ext(k, a, b);
}

impl<F: PrimeField> SparseRep<F> {
    /// What is committed of the matrix.
    pub fn get_metadata(&self, n_cols: usize) -> (r: SparseMetaData<F>)
        requires
            self.wf(),
            entries_fit(self.rows(), n_cols as nat),
        ensures
            r.wf(),
            r.meta() == meta_of(F::modulus(), self.rows(), n_cols as nat),
    {
        SparseMetaData::generate(self, n_cols)
    }

    /// The value of the matrix, given the values of the basis polynomials: an index is that of
    /// the row, times two to the power of `dim`, and that of the column.
    pub fn evaluate(self, basis_evals: &Vec<F>, dim: usize) -> (r: F)
        requires
            dim < usize::BITS,
            forall|i: usize, k: int|
                #![trigger self.fourcoeffs@[i]@[k]]
                self.fourcoeffs@.contains_key(i) && 0 <= k < self.fourcoeffs@[i]@.len() ==> i * two_to(
                    dim as nat,
                ) + self.fourcoeffs@[i]@[k].column < basis_evals@.len(),
        ensures
            r.value() == entry_sum(
                all_entries(self.rows_below(basis_evals@.len())),
                |i: int, j: int| vals(basis_evals@)[i * two_to(dim as nat) + j],
            ) % F::modulus(),
    {
        let ghost p = F::modulus();
        let ghost rs = self.rows_below(basis_evals@.len());
        let ghost e = all_entries(rs);
        let ghost f = |i: int, j: int| vals(basis_evals@)[i * two_to(dim as nat) + j];
        let ghost term = |k: int| f(e[k].0, e[k].1) * e[k].2;
        proof {
            F::lemma_modulus();
            lemma_sum_step(0, term);
            lemma_mod_small(p, 0);
            lemma_power_fits(dim as nat);
        }
        let side = crate::bits::pow_two(dim);
        let len = basis_evals.len();
        proof {
            assert forall|i: int, k: int|
                #![trigger rs[i][k]]
                0 <= i < rs.len() && 0 <= k < rs[i].len() implies i * two_to(dim as nat) + rs[i][k].0
                < basis_evals@.len() by {
                let q = i as usize;
                assert(rs[i][k].0 == self.fourcoeffs@[q]@[k].column);
            }
        }
        let mut acc = F::zero();
        let mut i: usize = 0;
        while i < len
            invariant
                i <= len,
                len == rs.len(),
                rs == self.rows_below(basis_evals@.len()),
                side == two_to(dim as nat),
                len == basis_evals@.len(),
                p == F::modulus(),
                p > 0,
                e == all_entries(rs),
                f == (|i: int, j: int| vals(basis_evals@)[i * two_to(dim as nat) + j]),
                term == (|k: int| f(e[k].0, e[k].1) * e[k].2),
                forall|i: int, k: int|
                    #![trigger rs[i][k]]
                    0 <= i < rs.len() && 0 <= k < rs[i].len() ==> i * two_to(dim as nat) + rs[i][k].0
                        < basis_evals@.len(),
                acc.value() == sum_of(entries(rs, i as nat).len(), term) % p,
            decreases len - i,
        {
            let data = match self.row_if_present(i) {
                Some(d) => d,
                None => {
                    assert(rs[i as int].len() == 0);
                    assert(entries(rs, (i + 1) as nat) =~= entries(rs, i as nat));
                    i += 1;
                    continue;
                },
            };
            let ghost base = entries(rs, i as nat).len();
            assert(cells(data@) == rs[i as int]);
            assert(cells(data@).len() == data@.len());
            let mut k: usize = 0;
            while k < data.len()
                invariant
                    k <= data@.len(),
                    i < len,
                    len == rs.len(),
                    data@.len() == rs[i as int].len(),
                    cells(data@) == rs[i as int],
                    side == two_to(dim as nat),
                    len == basis_evals@.len(),
                    p == F::modulus(),
                    p > 0,
                    e == all_entries(rs),
                    base == entries(rs, i as nat).len(),
                    f == (|i: int, j: int| vals(basis_evals@)[i * two_to(dim as nat) + j]),
                    term == (|k: int| f(e[k].0, e[k].1) * e[k].2),
                    forall|i: int, k: int|
                        #![trigger rs[i][k]]
                        0 <= i < rs.len() && 0 <= k < rs[i].len() ==> i * two_to(dim as nat)
                            + rs[i][k].0 < basis_evals@.len(),
                    acc.value() == sum_of((base + k) as nat, term) % p,
                decreases data@.len() - k,
            {
                proof {
                    assert(cells(data@)[k as int] == (
                        data@[k as int].column as int,
                        data@[k as int].value.value(),
                    ));
                    assert(rs[i as int][k as int].0 == data@[k as int].column);
                    assert(i * side + data@[k as int].column < basis_evals@.len());
                    assert(i * side >= 0) by (nonlinear_arith);
                }
                let index: usize = i * side + data[k].column;
                let x = basis_evals[index].mul(data[k].value);
                proof {
                    lemma_entry_sum_row(rs, i as nat, k as nat, f);
                    let j = (base + k) as nat;
                    assert(rs[i as int][k as int] == (
                        data@[k as int].column as int,
                        data@[k as int].value.value(),
                    ));
                    assert(e[j as int] == (
                        i as int,
                        data@[k as int].column as int,
                        data@[k as int].value.value(),
                    ));
                    lemma_cong_mod(p, basis_evals@[index as int].value() * data@[k as int].value.value());
                    assert(f(i as int, data@[k as int].column as int) == basis_evals@[index as int].value());
                    lemma_accumulate(p, j, term, acc.value(), x.value());
                }
                acc = acc.add(x);
                k += 1;
            }
            assert(entries(rs, (i + 1) as nat).len() == base + data@.len());
            i += 1;
        }
        acc
    }
}

/// Two to a power below the number of bits of a word fits into the word.
proof fn lemma_power_fits(n: nat)
    requires
        n < usize::BITS,
    ensures
        two_to(n) <= usize::MAX,
{
    crate::bits::lemma_two_to_word();
    crate::algebra::lemma_two_to_monotone(n + 1, usize::BITS as nat);
    crate::algebra::lemma_two_to_positive(n);
    assert(two_to(n + 1) == 2 * two_to(n));
}

/// The rows of a matrix, weighed and added up.
pub open spec fn bound_rows(p: int, rows: Seq<Seq<(int, int)>>, w: Seq<int>, size: nat) -> Seq<int> {
    let e = all_entries(rows);
    Seq::new(
        size,
        |c: int|
            entry_sum(
                e,
                |i: int, j: int|
                    if j == c {
                        w[i]
                    } else {
                        0
                    },
            ) % p,
    )
}

/// A row of a matrix times a vector.
pub open spec fn row_product(row: Seq<(int, int)>, z: Seq<int>) -> int {
    sum_of(row.len(), |k: int| z[row[k].0] * row[k].1)
}

/// A matrix times a vector.
pub open spec fn matrix_product(p: int, rows: Seq<Seq<(int, int)>>, z: Seq<int>) -> Seq<int> {
    Seq::new(
        z.len(),
        |i: int|
            if i < rows.len() {
                row_product(rows[i], z) % p
            } else {
                0
            },
    )
}

impl<F: PrimeField> SparseRep<F> {
    /// The rows of the matrix, weighed and added up.
    #[verifier::rlimit(60)]
    pub fn bind_row_variable(&self, basis_evals: &Vec<F>, n_cols: usize) -> (r: Vec<F>)
        requires
            dim_of(self.rows().len(), n_cols as nat) <= usize::MAX,
            forall|i: usize, k: int|
                #![trigger self.fourcoeffs@[i]@[k]]
                self.fourcoeffs@.contains_key(i) && 0 <= k < self.fourcoeffs@[i]@.len() ==> {
                    &&& i < basis_evals@.len()
                    &&& self.fourcoeffs@[i]@[k].column < dim_of(self.rows().len(), n_cols as nat)
                },
        ensures
            vals(r@) == bound_rows(
                F::modulus(),
                self.rows_below(basis_evals@.len()),
                vals(basis_evals@),
                dim_of(self.rows().len(), n_cols as nat),
            ),
    {
        let ghost p = F::modulus();
        let ghost rs = self.rows_below(basis_evals@.len());
        let ghost e = all_entries(rs);
        let ghost w = vals(basis_evals@);
        let ghost f = |c: int|
            |i: int, j: int|
                if j == c {
                    w[i]
                } else {
                    0int
                };
        let ghost term = |c: int| |k: int| f(c)(e[k].0, e[k].1) * e[k].2;
        proof {
            F::lemma_modulus();
        }
        let size = self.dim(n_cols);
        let mut result: Vec<F> = repeat_element(F::zero(), size);
        let len = basis_evals.len();
        proof {
            assert forall|i: int, k: int|
                #![trigger rs[i][k]]
                0 <= i < rs.len() && 0 <= k < rs[i].len() implies 0 <= rs[i][k].0 < size by {
                let q = i as usize;
                assert(rs[i][k].0 == self.fourcoeffs@[q]@[k].column);
            }
            assert forall|c: int| 0 <= c < size implies (#[trigger] result@[c]).value() == sum_of(0, term(c)) % p by {
                lemma_sum_step(0, term(c));
                lemma_mod_small(p, 0);
            }
        }
        let mut i: usize = 0;
        while i < len
            invariant
                i <= len,
                len == rs.len(),
                rs == self.rows_below(basis_evals@.len()),
                w == vals(basis_evals@),
                p == F::modulus(),
                p > 0,
                e == all_entries(rs),
                columns_below(rs, size as int),
                result@.len() == size,
                forall|c: int, i: int, j: int|
                    #[trigger] f(c)(i, j) == (if j == c {
                        w[i]
                    } else {
                        0int
                    }),
                forall|c: int, k: int| #[trigger] term(c)(k) == f(c)(e[k].0, e[k].1) * e[k].2,
                forall|c: int|
                    0 <= c < size ==> (#[trigger] result@[c]).value() == sum_of(
                        entries(rs, i as nat).len(),
                        term(c),
                    ) % p,
            decreases len - i,
        {
            let data = match self.row_if_present(i) {
                Some(d) => d,
                None => {
                    assert(rs[i as int].len() == 0);
                    assert(entries(rs, (i + 1) as nat) =~= entries(rs, i as nat));
                    i += 1;
                    continue;
                },
            };
            let ghost base = entries(rs, i as nat).len();
            assert(cells(data@) == rs[i as int]);
            assert(cells(data@).len() == data@.len());
            let mut k: usize = 0;
            while k < data.len()
                invariant
                    k <= data@.len(),
                    i < len,
                    len == rs.len(),
                    rs.len() == basis_evals@.len(),
                    data@.len() == rs[i as int].len(),
                    cells(data@) == rs[i as int],
                    w == vals(basis_evals@),
                    p == F::modulus(),
                    p > 0,
                    e == all_entries(rs),
                    columns_below(rs, size as int),
                    base == entries(rs, i as nat).len(),
                    result@.len() == size,
                    forall|c: int, i: int, j: int|
                        #[trigger] f(c)(i, j) == (if j == c {
                            w[i]
                        } else {
                            0int
                        }),
                    forall|c: int, k: int| #[trigger] term(c)(k) == f(c)(e[k].0, e[k].1) * e[k].2,
                    forall|c: int|
                        0 <= c < size ==> (#[trigger] result@[c]).value() == sum_of((base + k) as nat, term(c))
                            % p,
                decreases data@.len() - k,
            {
                proof {
                    assert(cells(data@)[k as int] == (
                        data@[k as int].column as int,
                        data@[k as int].value.value(),
                    ));
                    assert(rs[i as int][k as int].0 == data@[k as int].column);
                }
                let col = data[k].column;
                let x = basis_evals[i].mul(data[k].value);
                let ghost before = result@;
                let updated = result[col].add(x);
                result.set(col, updated);
                proof {
                    let j = (base + k) as nat;
                    lemma_entry_sum_row(rs, i as nat, k as nat, f(0));
                    assert(rs[i as int][k as int] == (col as int, data@[k as int].value.value()));
                    assert(e[j as int] == (i as int, col as int, data@[k as int].value.value()));
                    assert forall|c: int| 0 <= c < size implies (#[trigger] result@[c]).value() == sum_of(
                        (base + k + 1) as nat,
                        term(c),
                    ) % p by {
                        let v = data@[k as int].value.value();
                        assert(before[c].value() == sum_of(j, term(c)) % p);
                        assert(term(c)(j as int) == f(c)(i as int, col as int) * v);
                        if c == col {
                            lemma_cong_mod(p, w[i as int] * v);
                            lemma_accumulate(p, j, term(c), before[c].value(), x.value());
                        } else {
                            assert(0 * v == 0) by (nonlinear_arith);
                            lemma_sum_step(j, term(c));
                        }
                    }
                }
                k += 1;
            }
            assert(entries(rs, (i + 1) as nat).len() == base + data@.len());
            i += 1;
        }
        proof {
            let want = bound_rows(p, rs, w, size as nat);
            assert forall|c: int| 0 <= c < size implies vals(result@)[c] == want[c] by {
                let g = |i: int, j: int|
                    if j == c {
                        w[i]
                    } else {
                        0
                    };
                crate::sums::lemma_sum_ext(
                    e.len(),
                    term(c),
                    |k: int| g(e[k].0, e[k].1) * e[k].2,
                );
                assert(result@[c].value() == sum_of(e.len(), term(c)) % p);
            }
            assert(vals(result@) =~= want);
        }
        result
    }
}

/// A matrix times a vector, which has at least as many entries as the matrix has rows.
pub fn sparse_matrix_multiply<F: PrimeField>(mat: &SparseRep<F>, z: &Vec<F>) -> (r: Vec<F>)
    requires
        mat.wf(),
        mat.rows().len() <= z@.len(),
        columns_below(mat.rows(), z@.len() as int),
    ensures
        vals(r@) == matrix_product(F::modulus(), mat.rows(), vals(z@)),
        r@.len() == z@.len(),
{
    let ghost p = F::modulus();
    let ghost rs = mat.rows();
    let ghost zv = vals(z@);
    let ghost want = matrix_product(p, rs, zv);
    proof {
        F::lemma_modulus();
    }
    let number_of_rows = mat.num_rows();
    let mut a_z_vec: Vec<F> = Vec::new();
    let mut i: usize = 0;
    while i < number_of_rows
        invariant
            i <= number_of_rows,
            number_of_rows == rs.len(),
            rs.len() <= z@.len(),
            mat.wf(),
            rs == mat.rows(),
            zv == vals(z@),
            p == F::modulus(),
            p > 0,
            columns_below(rs, z@.len() as int),
            want == matrix_product(p, rs, zv),
            a_z_vec@.len() == i,
            forall|k: int| 0 <= k < i ==> (#[trigger] a_z_vec@[k]).value() == want[k],
        decreases number_of_rows - i,
    {
        let data = mat.row(i);
        let ghost term = |k: int| zv[rs[i as int][k].0] * rs[i as int][k].1;
        assert(cells(data@).len() == data@.len());
        let mut a_z = F::zero();
        proof {
            lemma_sum_step(0, term);
            lemma_mod_small(p, 0);
        }
        let mut k: usize = 0;
        while k < data.len()
            invariant
                k <= data@.len(),
                i < rs.len(),
                data@.len() == rs[i as int].len(),
                cells(data@) == rs[i as int],
                zv == vals(z@),
                p == F::modulus(),
                p > 0,
                columns_below(rs, z@.len() as int),
                term == (|k: int| zv[rs[i as int][k].0] * rs[i as int][k].1),
                a_z.value() == sum_of(k as nat, term) % p,
            decreases data@.len() - k,
        {
            proof {
                assert(cells(data@)[k as int] == (
                    data@[k as int].column as int,
                    data@[k as int].value.value(),
                ));
                assert(rs[i as int][k as int].0 == data@[k as int].column);
            }
            let x = z[data[k].column].mul(data[k].value);
            proof {
                let v = data@[k as int].value.value();
                lemma_cong_mod(p, z@[data@[k as int].column as int].value() * v);
                lemma_accumulate(p, k as nat, term, a_z.value(), x.value());
            }
            a_z = a_z.add(x);
            k += 1;
        }
        a_z_vec.push(a_z);
        i += 1;
    }
    while a_z_vec.len() < z.len()
        invariant
            rs.len() <= a_z_vec@.len() <= z@.len(),
            zv == vals(z@),
            want == matrix_product(p, rs, zv),
            forall|k: int| 0 <= k < a_z_vec@.len() ==> (#[trigger] a_z_vec@[k]).value() == want[k],
        decreases z@.len() - a_z_vec@.len(),
    {
        a_z_vec.push(F::zero());
    }
    assert(vals(a_z_vec@) =~= want);
    a_z_vec
}

} // verus!
