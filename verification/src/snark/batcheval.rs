//! Proving the values that the matrices and the committed vectors take.
use vstd::prelude::*;
use crate::algebra::{
    canonical, lemma_canonical_unique, lemma_mod_canonical, lemma_two_to_monotone, lemma_two_to_positive, two_to,
};
use crate::basefold_batch::combine;
use crate::bits::{is_power_of_two, lemma_log2_two_to, log2, log2_of};
use crate::brakingbase::{
    BrakingbaseProverParams, BrakingbaseSpec, Scheme, copy_vectors, joined, repeat_table, repeated,
    root_of,
};
use crate::brakingbase_helper::{evaluate_poly, sub_vector};
use crate::brakingbase_open::{basis_table, weighed};
use crate::combiners::pair_comb;
use crate::evaluations::{lemma_repeated_front, mles};
use crate::field::{PrimeField, copy_elements, vals, vals2};
use crate::gkr::gkr::{circuits_multiply, gkr_prove, gkr_prover, lemma_gkr_extends};
use crate::gkr::gpc::{
    access_balanced, access_fits, circuits_over, circuit_of, final_leaves, grand_product_circuits,
    init_leaves, is_circuits_of, law_accesses_balance, lemma_circuits_multiply, read_leaves,
    write_leaves,
};
use crate::hash::{HashFunction, Output};
use crate::indices::low_word;
use crate::multilinear::{basis, lemma_mle_cong, mle};
use crate::poly::MultilinearPolynomial;
use crate::rounds::{prove_rounds, uniform};
use crate::snark::helper::{Meta, SparseMetaData, lemma_commit_step, send_commitment};
use crate::snark::sum_check::{
    Layer, extend_point, extended, extended_points, matrix_eval, matrix_eval_sum_check,
};
use crate::sum_checks::{batch_shape, batch_sum_check_prover};
use crate::sums::dot;
use crate::timestamps::{final_times, read_times};
use crate::transcript::{
    Oracle, TranscriptWrite, Tx, challenges, lemma_challenges_len, squeeze_challenges,
    write_field_elements,
};

verus! {

/// What a table holds at the given addresses.
pub open spec fn looked_up(t: Seq<int>, a: Seq<int>) -> Seq<int> {
    Seq::new(a.len(), |i: int| t[a[i]])
}

/// The tables that stand for the three matrices: where their entries are, the entries, the times of
/// the reads, and what was read.
pub struct Tables {
    pub row: Seq<Seq<int>>,
    pub col: Seq<Seq<int>>,
    pub val: Seq<Seq<int>>,
    pub read_row: Seq<Seq<int>>,
    pub read_col: Seq<Seq<int>>,
    pub final_row: Seq<Seq<int>>,
    pub final_col: Seq<Seq<int>>,
    pub e_rx: Seq<Seq<int>>,
    pub e_ry: Seq<Seq<int>>,
}

/// The tables of matrices whose rows are read from `w` and whose columns are read from `v`.
pub open spec fn tables_of(m: Seq<Meta>, w: Seq<int>, v: Seq<int>) -> Tables {
    Tables {
        row: Seq::new(m.len(), |c: int| m[c].row),
        col: Seq::new(m.len(), |c: int| m[c].col),
        val: Seq::new(m.len(), |c: int| m[c].val),
        read_row: Seq::new(m.len(), |c: int| m[c].read_row),
        read_col: Seq::new(m.len(), |c: int| m[c].read_col),
        final_row: Seq::new(m.len(), |c: int| m[c].final_row),
        final_col: Seq::new(m.len(), |c: int| m[c].final_col),
        e_rx: Seq::new(m.len(), |c: int| looked_up(w, m[c].row)),
        e_ry: Seq::new(m.len(), |c: int| looked_up(v, m[c].col)),
    }
}

impl Tables {
    /// The tables that have an entry for each entry of a matrix.
    pub open spec fn accesses(self) -> Seq<Seq<int>> {
        self.row + self.col + self.read_row + self.read_col + self.e_rx + self.e_ry
    }

    /// The tables that have an entry for each row or column.
    pub open spec fn lasts(self) -> Seq<Seq<int>> {
        self.final_row + self.final_col
    }
}

/// The sizes in the description of one matrix, the addresses of which are below `n`.
pub open spec fn meta_sized(m: Meta, n: nat, size: nat) -> bool {
    &&& m.row.len() == size
    &&& m.col.len() == size
    &&& m.val.len() == size
    &&& m.read_row.len() == size
    &&& m.read_col.len() == size
    &&& m.final_row.len() == n
    &&& m.final_col.len() == n
    &&& forall|i: int| 0 <= i < size ==> 0 <= #[trigger] m.row[i] < n
    &&& forall|i: int| 0 <= i < size ==> 0 <= #[trigger] m.col[i] < n
}

/// The description of one matrix: its addresses are below `n`, and the times are those of its reads.
pub open spec fn meta_fits(p: int, m: Meta, n: nat, size: nat) -> bool {
    &&& meta_sized(m, n, size)
    &&& m.read_row == read_times(p, m.row)
    &&& m.read_col == read_times(p, m.col)
    &&& m.final_row == final_times(p, m.row, n)
    &&& m.final_col == final_times(p, m.col, n)
}

/// The sizes in the descriptions of the three matrices, with `2^k` rows and columns, and `2^l`
/// entries each.
pub open spec fn metas_sized(m: Seq<Meta>, k: nat, l: nat) -> bool {
    &&& m.len() == 3
    &&& 1 <= k <= l <= 2 * k
    &&& two_to(k) <= 0x1_0000_0000
    &&& forall|c: int| 0 <= c < 3 ==> meta_sized(#[trigger] m[c], two_to(k), two_to(l))
}

/// The descriptions of the three matrices, with `2^k` rows and columns, and `2^l` entries each.
pub open spec fn metas_fit(p: int, m: Seq<Meta>, k: nat, l: nat) -> bool {
    &&& metas_sized(m, k, l)
    &&& forall|c: int| 0 <= c < 3 ==> meta_fits(p, #[trigger] m[c], two_to(k), two_to(l))
}

/// Sends the commitments to what was read.
pub open spec fn commit_reads<F: PrimeField, H: HashFunction>(
    p: int,
    s: Scheme,
    tx: Tx,
    t: Tables,
) -> Tx {
    let reads = t.e_rx + t.e_ry;
    tx.commit_all(Seq::new(reads.len(), |i: int| root_of::<F, H>(p, s, reads[i])))
}

/// The leaves for the tables that are read.
pub open spec fn memory_leaves(
    p: int,
    t: Tables,
    w: Seq<int>,
    v: Seq<int>,
    gt: Seq<int>,
    n: nat,
) -> Seq<Seq<int>> {
    seq![init_leaves(p, gt[0], gt[1], w, n)] + Seq::new(
        t.row.len(),
        |c: int| final_leaves(p, gt[0], gt[1], w, t.final_row[c], n),
    ) + seq![init_leaves(p, gt[0], gt[1], v, n)] + Seq::new(
        t.row.len(),
        |c: int| final_leaves(p, gt[0], gt[1], v, t.final_col[c], n),
    )
}

/// The leaves for the reads.
pub open spec fn lookup_leaves(p: int, t: Tables, gt: Seq<int>, size: nat) -> Seq<Seq<int>> {
    Seq::new(
        t.row.len(),
        |c: int| write_leaves(p, gt[0], gt[1], t.row[c], t.e_rx[c], t.read_row[c], size),
    ) + Seq::new(
        t.row.len(),
        |c: int| read_leaves(p, gt[0], gt[1], t.row[c], t.e_rx[c], t.read_row[c], size),
    ) + Seq::new(
        t.row.len(),
        |c: int| write_leaves(p, gt[0], gt[1], t.col[c], t.e_ry[c], t.read_col[c], size),
    ) + Seq::new(
        t.row.len(),
        |c: int| read_leaves(p, gt[0], gt[1], t.col[c], t.e_ry[c], t.read_col[c], size),
    )
}

/// The times of the reads balance for the challenges `gt`: for each matrix, what was there at first
/// and what was written make up what is left and what was read, for its rows and for its columns.
pub open spec fn reads_balance(
    p: int,
    t: Tables,
    w: Seq<int>,
    v: Seq<int>,
    gt: Seq<int>,
    k: nat,
    l: nat,
) -> bool {
    let (n, size) = (two_to(k), two_to(l));
    &&& forall|c: int|
        0 <= c < 3 ==> access_balanced(
            p,
            gt[0],
            gt[1],
            w,
            #[trigger] t.row[c],
            t.e_rx[c],
            t.read_row[c],
            t.final_row[c],
            n,
            size,
        )
    &&& forall|c: int|
        0 <= c < 3 ==> access_balanced(
            p,
            gt[0],
            gt[1],
            v,
            #[trigger] t.col[c],
            t.e_ry[c],
            t.read_col[c],
            t.final_col[c],
            n,
            size,
        )
}

/// The times of the reads balance, whatever the tables that are read and the challenges.
pub proof fn law_times_balance(
    p: int,
    m: Seq<Meta>,
    w: Seq<int>,
    v: Seq<int>,
    gt: Seq<int>,
    k: nat,
    l: nat,
)
    requires
        p > 0,
        metas_fit(p, m, k, l),
        w.len() == two_to(k),
        v.len() == two_to(k),
    ensures
        reads_balance(p, tables_of(m, w, v), w, v, gt, k, l),
{
    let t = tables_of(m, w, v);
    assert forall|c: int| 0 <= c < 3 implies access_balanced(
        p,
        gt[0],
        gt[1],
        w,
        #[trigger] t.row[c],
        t.e_rx[c],
        t.read_row[c],
        t.final_row[c],
        two_to(k),
        two_to(l),
    ) by {
        assert(meta_fits(p, m[c], two_to(k), two_to(l)));
        law_accesses_balance(p, gt[0], gt[1], w, m[c].row, looked_up(w, m[c].row), two_to(k));
    }
    assert forall|c: int| 0 <= c < 3 implies access_balanced(
        p,
        gt[0],
        gt[1],
        v,
        #[trigger] t.col[c],
        t.e_ry[c],
        t.read_col[c],
        t.final_col[c],
        two_to(k),
        two_to(l),
    ) by {
        assert(meta_fits(p, m[c], two_to(k), two_to(l)));
        law_accesses_balance(p, gt[0], gt[1], v, m[c].col, looked_up(v, m[c].col), two_to(k));
    }
}

/// What proving the reads leaves.
pub struct Reads {
    pub tx: Tx,
    pub point1: Seq<int>,
    pub point2: Seq<int>,
}

/// Proves the reads.
pub open spec fn prove_reads(
    p: int,
    ch: Oracle,
    tx: Tx,
    t: Tables,
    w: Seq<int>,
    v: Seq<int>,
    k: nat,
    l: nat,
) -> Reads {
    let gt = challenges(ch, tx.hist, 2);
    let a = gkr_prove(
        p,
        ch,
        tx.squeeze_many(2),
        circuits_over(p, memory_leaves(p, t, w, v, gt, two_to(k)), k),
    );
    let b = gkr_prove(p, ch, a.tx, circuits_over(p, lookup_leaves(p, t, gt, two_to(l)), l));
    Reads {
        tx: b.tx.write_all(mles(p, t.accesses(), b.point) + mles(p, t.lasts(), a.point)),
        point1: a.point,
        point2: b.point,
    }
}

/// The tables of the sum-check that turns all claims into claims at one point.
pub open spec fn batched_tables(
    p: int,
    t: Tables,
    e: Seq<int>,
    wit: Seq<int>,
    y: Seq<Seq<int>>,
    c: Seq<int>,
    n: nat,
    size: nat,
) -> Seq<Seq<int>> {
    let z = extended_points(y);
    seq![
        repeated(combine(p, c.subrange(0, 1), seq![e], n), size),
        repeated(combine(p, c.subrange(1, 2), seq![wit], n), size),
        combine(p, c.subrange(2, 11), t.e_rx + t.e_ry + t.val, size),
        combine(
            p,
            c.subrange(11, 29),
            t.e_rx + t.e_ry + t.row + t.col + t.read_row + t.read_col,
            size,
        ),
        repeated(combine(p, c.subrange(29, 35), t.lasts(), n), size),
    ] + seq![basis(p, z[0]), basis(p, z[1]), basis(p, z[2]), basis(p, z[3]), basis(p, z[4])]
}

/// The values that are sent in the end.
pub open spec fn last_values(
    p: int,
    t: Tables,
    e: Seq<int>,
    wit: Seq<int>,
    y: Seq<int>,
    k: nat,
) -> Seq<int> {
    let tail = y.skip(y.len() - k);
    mles(p, t.accesses(), y) + mles(p, t.lasts(), tail) + mles(p, t.val, y) + mles(
        p,
        seq![e, wit],
        tail,
    )
}

/// Turns all claims into claims at one point.
pub open spec fn prove_batched(
    p: int,
    ch: Oracle,
    tx: Tx,
    t: Tables,
    e: Seq<int>,
    wit: Seq<int>,
    y: Seq<Seq<int>>,
    k: nat,
    l: nat,
) -> Layer {
    let c = challenges(ch, tx.hist, 35);
    let r = prove_rounds(
        batch_shape(p, ch),
        pair_comb(5),
        tx.squeeze_many(35),
        batched_tables(p, t, e, wit, y, c, two_to(k), two_to(l)),
        l,
    );
    Layer {
        tx: r.tx.write(r.tables[5][0]).write_all(last_values(p, t, e, wit, r.point, k)),
        point: r.point,
    }
}

/// The challenges for the reads, which are drawn when what was read is committed to and the values of
/// the matrices are proved.
pub open spec fn reads_drawn<F: PrimeField, H: HashFunction>(
    p: int,
    ch: Oracle,
    s: Scheme,
    tx: Tx,
    t: Tables,
) -> Seq<int> {
    let a = matrix_eval(p, ch, commit_reads::<F, H>(p, s, tx, t), t.val, t.e_rx, t.e_ry);
    challenges(ch, a.tx.hist, 2)
}

/// Proves the values of the matrices and of the committed vectors, where the rows of the matrices are
/// read from `w`.
pub open spec fn batch_eval<F: PrimeField, H: HashFunction>(
    p: int,
    ch: Oracle,
    s: Scheme,
    tx: Tx,
    m: Seq<Meta>,
    rx: Seq<int>,
    ry: Seq<int>,
    w: Seq<int>,
    e: Seq<int>,
    wit: Seq<int>,
    l: nat,
) -> Tx {
    let k = rx.len();
    let v = basis(p, ry);
    let t = tables_of(m, w, v);
    let a = matrix_eval(p, ch, commit_reads::<F, H>(p, s, tx, t), t.val, t.e_rx, t.e_ry);
    let b = prove_reads(p, ch, a.tx, t, w, v, k, l);
    prove_batched(p, ch, b.tx, t, e, wit, seq![rx, ry, a.point, b.point2, b.point1], k, l).tx
}

/// The tables, as the prover holds them.
pub struct TableData<F: PrimeField> {
    pub row: Vec<Vec<F>>,
    pub col: Vec<Vec<F>>,
    pub val: Vec<Vec<F>>,
    pub read_row: Vec<Vec<F>>,
    pub read_col: Vec<Vec<F>>,
    pub final_row: Vec<Vec<F>>,
    pub final_col: Vec<Vec<F>>,
    pub e_rx: Vec<Vec<F>>,
    pub e_ry: Vec<Vec<F>>,
}

impl<F: PrimeField> TableData<F> {
    /// The tables as values.
    pub open spec fn tables(&self) -> Tables {
        Tables {
            row: vals2(self.row@),
            col: vals2(self.col@),
            val: vals2(self.val@),
            read_row: vals2(self.read_row@),
            read_col: vals2(self.read_col@),
            final_row: vals2(self.final_row@),
            final_col: vals2(self.final_col@),
            e_rx: vals2(self.e_rx@),
            e_ry: vals2(self.e_ry@),
        }
    }
}

/// Three tables of each kind, of the given sizes.
pub open spec fn tables_fit(t: Tables, n: nat, size: nat) -> bool {
    &&& t.row.len() == 3
    &&& t.col.len() == 3
    &&& t.val.len() == 3
    &&& t.read_row.len() == 3
    &&& t.read_col.len() == 3
    &&& t.final_row.len() == 3
    &&& t.final_col.len() == 3
    &&& t.e_rx.len() == 3
    &&& t.e_ry.len() == 3
    &&& uniform(t.row, size)
    &&& uniform(t.col, size)
    &&& uniform(t.val, size)
    &&& uniform(t.read_row, size)
    &&& uniform(t.read_col, size)
    &&& uniform(t.e_rx, size)
    &&& uniform(t.e_ry, size)
    &&& uniform(t.final_row, n)
    &&& uniform(t.final_col, n)
}

/// The tables of matrices have the sizes of the matrices.
pub proof fn lemma_tables_fit(m: Seq<Meta>, w: Seq<int>, v: Seq<int>, k: nat, l: nat)
    requires
        metas_sized(m, k, l),
    ensures
        tables_fit(tables_of(m, w, v), two_to(k), two_to(l)),
        uniform(tables_of(m, w, v).accesses(), two_to(l)),
        uniform(tables_of(m, w, v).lasts(), two_to(k)),
        tables_of(m, w, v).accesses().len() == 18,
        tables_of(m, w, v).lasts().len() == 6,
{
    let t = tables_of(m, w, v);
    assert forall|c: int| 0 <= c < 3 implies {
        &&& (#[trigger] t.row[c]).len() == two_to(l)
        &&& (#[trigger] t.col[c]).len() == two_to(l)
        &&& (#[trigger] t.val[c]).len() == two_to(l)
        &&& (#[trigger] t.read_row[c]).len() == two_to(l)
        &&& (#[trigger] t.read_col[c]).len() == two_to(l)
        &&& (#[trigger] t.e_rx[c]).len() == two_to(l)
        &&& (#[trigger] t.e_ry[c]).len() == two_to(l)
        &&& (#[trigger] t.final_row[c]).len() == two_to(k)
        &&& (#[trigger] t.final_col[c]).len() == two_to(k)
    } by {
        assert(meta_sized(m[c], two_to(k), two_to(l)));
    }
    lemma_uniform_three(t.row, two_to(l));
    lemma_uniform_three(t.col, two_to(l));
    lemma_uniform_three(t.val, two_to(l));
    lemma_uniform_three(t.read_row, two_to(l));
    lemma_uniform_three(t.read_col, two_to(l));
    lemma_uniform_three(t.e_rx, two_to(l));
    lemma_uniform_three(t.e_ry, two_to(l));
    lemma_uniform_three(t.final_row, two_to(k));
    lemma_uniform_three(t.final_col, two_to(k));
}

/// Three tables of one size.
proof fn lemma_uniform_three(t: Seq<Seq<int>>, n: nat)
    requires
        t.len() == 3,
        t[0].len() == n,
        t[1].len() == n,
        t[2].len() == n,
    ensures
        uniform(t, n),
{
}

/// The descriptions as values.
pub open spec fn metas<F: PrimeField>(s: Seq<SparseMetaData<F>>) -> Seq<Meta> {
    Seq::new(s.len(), |c: int| s[c].meta())
}

/// What a table holds at the given addresses.
fn look_up<F: PrimeField>(t: &Vec<F>, a: &Vec<F>) -> (r: Vec<F>)
    requires
        t@.len() <= 0x1_0000_0000,
        forall|i: int| 0 <= i < a@.len() ==> 0 <= #[trigger] vals(a@)[i] < t@.len(),
    ensures
        vals(r@) == looked_up(vals(t@), vals(a@)),
        r@.len() == a@.len(),
{
    let mut r: Vec<F> = Vec::new();
    let mut i: usize = 0;
    while i < a.len()
        invariant
            i <= a@.len(),
            t@.len() <= 0x1_0000_0000,
            forall|j: int| 0 <= j < a@.len() ==> 0 <= #[trigger] vals(a@)[j] < t@.len(),
            r@.len() == i,
            forall|j: int| 0 <= j < i ==> (#[trigger] r@[j]).value() == vals(t@)[vals(a@)[j]],
        decreases a@.len() - i,
    {
        let word = low_word(a[i]);
        proof {
            assert(0 <= vals(a@)[i as int] < t@.len());
            assert(a@[i as int].value() % 0x1_0000_0000 == a@[i as int].value());
            assert(word == vals(a@)[i as int]);
        }
        r.push(t[word as usize]);
        i += 1;
    }
    assert(vals(r@) =~= looked_up(vals(t@), vals(a@)));
    r
}

/// Puts tables behind others.
fn append_tables<F: PrimeField>(to: &mut Vec<Vec<F>>, from: &Vec<Vec<F>>)
    ensures
        vals2(final(to)@) == vals2(old(to)@) + vals2(from@),
        final(to)@.len() == old(to)@.len() + from@.len(),
{
    let ghost before = vals2(to@);
    let mut i: usize = 0;
    while i < from.len()
        invariant
            i <= from@.len(),
            vals2(to@) == before + vals2(from@).take(i as int),
        decreases from@.len() - i,
    {
        let ghost now = to@;
        to.push(copy_elements(&from[i]));
        proof {
            assert(vals2(to@) =~= vals2(now).push(vals(from@[i as int]@)));
            assert(vals2(from@).take(i + 1) =~= vals2(from@).take(i as int).push(vals2(from@)[i as int]));
            assert(vals2(to@) =~= before + vals2(from@).take(i + 1));
        }
        i += 1;
    }
    proof {
        assert(vals2(from@).take(from@.len() as int) =~= vals2(from@));
        assert(vals2(to@).len() == to@.len());
        assert(before.len() + vals2(from@).len() == vals2(to@).len());
    }
}

/// The tables of the matrices.
fn gather_tables<F: PrimeField>(
    metadata: &Vec<SparseMetaData<F>>,
    w: &Vec<F>,
    v: &Vec<F>,
    Ghost(k): Ghost<nat>,
    Ghost(l): Ghost<nat>,
) -> (r: TableData<F>)
    requires
        metas_sized(metas(metadata@), k, l),
        w@.len() == two_to(k),
        v@.len() == two_to(k),
    ensures
        r.tables() == tables_of(metas(metadata@), vals(w@), vals(v@)),
{
    let ghost m = metas(metadata@);
    let mut row: Vec<Vec<F>> = Vec::new();
    let mut col: Vec<Vec<F>> = Vec::new();
    let mut val: Vec<Vec<F>> = Vec::new();
    let mut read_row: Vec<Vec<F>> = Vec::new();
    let mut read_col: Vec<Vec<F>> = Vec::new();
    let mut final_row: Vec<Vec<F>> = Vec::new();
    let mut final_col: Vec<Vec<F>> = Vec::new();
    let mut e_rx: Vec<Vec<F>> = Vec::new();
    let mut e_ry: Vec<Vec<F>> = Vec::new();
    let mut c: usize = 0;
    while c < metadata.len()
        invariant
            c <= metadata@.len(),
            m == metas(metadata@),
            metas_sized(m, k, l),
            w@.len() == two_to(k),
            v@.len() == two_to(k),
            row@.len() == c,
            col@.len() == c,
            val@.len() == c,
            read_row@.len() == c,
            read_col@.len() == c,
            final_row@.len() == c,
            final_col@.len() == c,
            e_rx@.len() == c,
            e_ry@.len() == c,
            forall|i: int| 0 <= i < c ==> vals((#[trigger] row@[i])@) == m[i].row,
            forall|i: int| 0 <= i < c ==> vals((#[trigger] col@[i])@) == m[i].col,
            forall|i: int| 0 <= i < c ==> vals((#[trigger] val@[i])@) == m[i].val,
            forall|i: int| 0 <= i < c ==> vals((#[trigger] read_row@[i])@) == m[i].read_row,
            forall|i: int| 0 <= i < c ==> vals((#[trigger] read_col@[i])@) == m[i].read_col,
            forall|i: int| 0 <= i < c ==> vals((#[trigger] final_row@[i])@) == m[i].final_row,
            forall|i: int| 0 <= i < c ==> vals((#[trigger] final_col@[i])@) == m[i].final_col,
            forall|i: int|
                0 <= i < c ==> vals((#[trigger] e_rx@[i])@) == looked_up(vals(w@), m[i].row),
            forall|i: int|
                0 <= i < c ==> vals((#[trigger] e_ry@[i])@) == looked_up(vals(v@), m[i].col),
        decreases metadata@.len() - c,
    {
        let d = &metadata[c];
        proof {
            assert(meta_sized(m[c as int], two_to(k), two_to(l)));
            assert(m[c as int] == d.meta());
            assert(vals(d.row.evals@).len() == d.row.evals@.len());
            assert(vals(d.col.evals@).len() == d.col.evals@.len());
        }
        e_rx.push(look_up(w, d.row.evals()));
        e_ry.push(look_up(v, d.col.evals()));
        row.push(copy_elements(d.row.evals()));
        col.push(copy_elements(d.col.evals()));
        val.push(copy_elements(d.val.evals()));
        read_row.push(copy_elements(d.timestamps.read_ts_row.evals()));
        read_col.push(copy_elements(d.timestamps.read_ts_col.evals()));
        final_row.push(copy_elements(d.timestamps.final_ts_row.evals()));
        final_col.push(copy_elements(d.timestamps.final_ts_col.evals()));
        c += 1;
    }
    let r = TableData { row, col, val, read_row, read_col, final_row, final_col, e_rx, e_ry };
    proof {
        let t = tables_of(m, vals(w@), vals(v@));
        assert(vals2(r.row@) =~= t.row);
        assert(vals2(r.col@) =~= t.col);
        assert(vals2(r.val@) =~= t.val);
        assert(vals2(r.read_row@) =~= t.read_row);
        assert(vals2(r.read_col@) =~= t.read_col);
        assert(vals2(r.final_row@) =~= t.final_row);
        assert(vals2(r.final_col@) =~= t.final_col);
        assert(vals2(r.e_rx@) =~= t.e_rx);
        assert(vals2(r.e_ry@) =~= t.e_ry);
    }
    r
}

/// Sends the commitments to what was read.
fn send_reads<F: PrimeField, H: HashFunction, S: BrakingbaseSpec, T: TranscriptWrite<F>>(
    pp: &BrakingbaseProverParams<F>,
    t: &TableData<F>,
    transcript: &mut T,
    Ghost(l): Ghost<nat>,
)
    requires
        pp.wf::<H>(),
        l <= pp.num_vars,
        t.tables().e_rx.len() == 3,
        t.tables().e_ry.len() == 3,
        uniform(t.tables().e_rx, two_to(l)),
        uniform(t.tables().e_ry, two_to(l)),
    ensures
        final(transcript).tx() == commit_reads::<F, H>(
            F::modulus(),
            pp.scheme(),
            old(transcript).tx(),
            t.tables(),
        ),
{
    let ghost p = F::modulus();
    let mut reads: Vec<Vec<F>> = copy_vectors(&t.e_rx);
    append_tables(&mut reads, &t.e_ry);
    let ghost all = t.tables().e_rx + t.tables().e_ry;
    let ghost d = Seq::new(all.len(), |i: int| root_of::<F, H>(p, pp.scheme(), all[i]));
    let ghost tx = transcript.tx();
    assert(vals2(reads@) == all);
    assert(uniform(all, two_to(l)));
    let mut i: usize = 0;
    assert(d.take(0) =~= Seq::<Output>::empty());
    while i < reads.len()
        invariant
            i <= reads@.len(),
            pp.wf::<H>(),
            l <= pp.num_vars,
            vals2(reads@) == all,
            uniform(all, two_to(l)),
            d == Seq::new(all.len(), |j: int| root_of::<F, H>(p, pp.scheme(), all[j])),
            p == F::modulus(),
            transcript.tx() == tx.commit_all(d.take(i as int)),
        decreases reads@.len() - i,
    {
        proof {
            assert(all[i as int].len() == two_to(l));
            assert(vals(reads@[i as int]@) == all[i as int]);
            assert(reads@[i as int]@.len() == two_to(l));
            lemma_two_to_positive(l);
            lemma_log2_two_to(l);
        }
        let poly = MultilinearPolynomial::new(copy_elements(&reads[i]));
        let _sent = send_commitment::<F, H, S, T>(pp, &poly, transcript);
        proof {
            lemma_commit_step(tx, d, i as int + 1);
        }
        i += 1;
    }
    assert(d.take(d.len() as int) =~= d);
}

/// The values of tables at a point.
fn evaluate_all<F: PrimeField>(ts: &Vec<Vec<F>>, y: &Vec<F>) -> (r: Vec<F>)
    requires
        y@.len() >= 1,
        uniform(vals2(ts@), two_to(y@.len())),
    ensures
        vals(r@) == mles(F::modulus(), vals2(ts@), vals(y@)),
        r@.len() == ts@.len(),
{
    let mut r: Vec<F> = Vec::new();
    let mut i: usize = 0;
    while i < ts.len()
        invariant
            i <= ts@.len(),
            y@.len() >= 1,
            uniform(vals2(ts@), two_to(y@.len())),
            r@.len() == i,
            forall|j: int|
                0 <= j < i ==> (#[trigger] r@[j]).value() == mle(
                    F::modulus(),
                    vals(ts@[j]@),
                    vals(y@),
                ),
        decreases ts@.len() - i,
    {
        proof {
            assert(vals2(ts@)[i as int].len() == two_to(y@.len()));
            assert(vals2(ts@)[i as int] == vals(ts@[i as int]@));
        }
        r.push(evaluate_poly(&ts[i], y));
        i += 1;
    }
    assert(vals(r@) =~= mles(F::modulus(), vals2(ts@), vals(y@)));
    r
}

/// The leaves are those of circuits.
pub proof fn lemma_leaves_multiply(
    p: int,
    m: Seq<Meta>,
    w: Seq<int>,
    v: Seq<int>,
    gt: Seq<int>,
    k: nat,
    l: nat,
)
    requires
        p > 0,
        metas_sized(m, k, l),
    ensures
        ({
            let t = tables_of(m, w, v);
            let a = memory_leaves(p, t, w, v, gt, two_to(k));
            let b = lookup_leaves(p, t, gt, two_to(l));
            &&& a.len() == 8
            &&& b.len() == 12
            &&& uniform(a, two_to(k))
            &&& uniform(b, two_to(l))
            &&& circuits_multiply(p, circuits_over(p, a, k), k)
            &&& circuits_multiply(p, circuits_over(p, b, l), l)
        }),
{
    let t = tables_of(m, w, v);
    let a = memory_leaves(p, t, w, v, gt, two_to(k));
    let b = lookup_leaves(p, t, gt, two_to(l));
    assert forall|c: int| 0 <= c < a.len() implies (#[trigger] a[c]).len() == two_to(k) && canonical(
        p,
        a[c],
    ) by {
        assert(c == 0 || c == 1 || c == 2 || c == 3 || c == 4 || c == 5 || c == 6 || c == 7);
        lemma_reduced(p);
    }
    assert forall|c: int| 0 <= c < b.len() implies (#[trigger] b[c]).len() == two_to(l) && canonical(
        p,
        b[c],
    ) by {
        assert(c == 0 || c == 1 || c == 2 || c == 3 || c == 4 || c == 5 || c == 6 || c == 7 || c == 8
            || c == 9 || c == 10 || c == 11);
        lemma_reduced(p);
    }
    lemma_circuits_multiply(p, a, k);
    lemma_circuits_multiply(p, b, l);
}

/// What remains of a division is reduced.
proof fn lemma_reduced(p: int)
    requires
        p > 0,
    ensures
        forall|x: int| 0 <= #[trigger] (x % p) < p,
{
    assert forall|x: int| 0 <= #[trigger] (x % p) < p by {
        lemma_mod_canonical(p, x);
    }
}

/// The circuits for what is read from one table.
fn side_circuits<F: PrimeField>(
    h: &Vec<Vec<F>>,
    values: &Vec<Vec<F>>,
    read_ts: &Vec<Vec<F>>,
    final_ts: &Vec<Vec<F>>,
    table: &Vec<F>,
    gamma_tau: &Vec<F>,
    len2: usize,
    Ghost(k): Ghost<nat>,
    Ghost(l): Ghost<nat>,
) -> (r: (Vec<Vec<Vec<F>>>, Vec<Vec<Vec<F>>>, Vec<Vec<Vec<F>>>, Vec<Vec<Vec<F>>>))
    requires
        gamma_tau@.len() == 2,
        table@.len() == two_to(k),
        len2 == two_to(l),
        h@.len() == 3,
        values@.len() == 3,
        read_ts@.len() == 3,
        final_ts@.len() == 3,
        uniform(vals2(h@), two_to(l)),
        uniform(vals2(values@), two_to(l)),
        uniform(vals2(read_ts@), two_to(l)),
        uniform(vals2(final_ts@), two_to(k)),
        forall|c: int|
            0 <= c < 3 ==> access_balanced(
                F::modulus(),
                gamma_tau@[0].value(),
                gamma_tau@[1].value(),
                vals(table@),
                #[trigger] vals2(h@)[c],
                vals2(values@)[c],
                vals2(read_ts@)[c],
                vals2(final_ts@)[c],
                two_to(k),
                two_to(l),
            ),
    ensures
        ({
            let p = F::modulus();
            let g = gamma_tau@[0].value();
            let d = gamma_tau@[1].value();
            let eq = vals(table@);
            &&& r.0@.len() == 3
            &&& r.1@.len() == 3
            &&& r.2@.len() == 3
            &&& r.3@.len() == 3
            &&& forall|c: int|
                0 <= c < 3 ==> vals2((#[trigger] r.0@[c])@) == circuit_of(
                    p,
                    init_leaves(p, g, d, eq, two_to(k)),
                    k,
                )
            &&& forall|c: int|
                0 <= c < 3 ==> vals2((#[trigger] r.1@[c])@) == circuit_of(
                    p,
                    write_leaves(
                        p,
                        g,
                        d,
                        vals2(h@)[c],
                        vals2(values@)[c],
                        vals2(read_ts@)[c],
                        two_to(l),
                    ),
                    l,
                )
            &&& forall|c: int|
                0 <= c < 3 ==> vals2((#[trigger] r.2@[c])@) == circuit_of(
                    p,
                    final_leaves(p, g, d, eq, vals2(final_ts@)[c], two_to(k)),
                    k,
                )
            &&& forall|c: int|
                0 <= c < 3 ==> vals2((#[trigger] r.3@[c])@) == circuit_of(
                    p,
                    read_leaves(
                        p,
                        g,
                        d,
                        vals2(h@)[c],
                        vals2(values@)[c],
                        vals2(read_ts@)[c],
                        two_to(l),
                    ),
                    l,
                )
        }),
{
    let ghost p = F::modulus();
    let ghost g = gamma_tau@[0].value();
    let ghost d = gamma_tau@[1].value();
    let ghost eq = vals(table@);
    let len1 = table.len();
    proof {
        F::lemma_modulus();
        lemma_log2_two_to(k);
        lemma_log2_two_to(l);
        lemma_two_to_positive(k);
        lemma_two_to_positive(l);
        assert forall|c: int| 0 <= c < 3 implies #[trigger] access_fits(
            h@,
            values@,
            read_ts@,
            final_ts@,
            len1 as nat,
            len2 as nat,
            c,
        ) by {
            assert(vals2(h@)[c].len() == two_to(l));
            assert(vals2(values@)[c].len() == two_to(l));
            assert(vals2(read_ts@)[c].len() == two_to(l));
            assert(vals2(final_ts@)[c].len() == two_to(k));
            assert(vals2(h@)[c] == vals(h@[c]@));
            assert(vals2(values@)[c] == vals(values@[c]@));
            assert(vals2(read_ts@)[c] == vals(read_ts@[c]@));
            assert(vals2(final_ts@)[c] == vals(final_ts@[c]@));
        }
        assert forall|c: int| 0 <= c < 3 implies access_balanced(
            p,
            g,
            d,
            eq,
            vals((#[trigger] h@[c])@),
            vals(values@[c]@),
            vals(read_ts@[c]@),
            vals(final_ts@[c]@),
            len1 as nat,
            len2 as nat,
        ) by {
            assert(vals2(h@)[c] == vals(h@[c]@));
            assert(vals2(values@)[c] == vals(values@[c]@));
            assert(vals2(read_ts@)[c] == vals(read_ts@[c]@));
            assert(vals2(final_ts@)[c] == vals(final_ts@[c]@));
        }
    }
    let r = grand_product_circuits(len1, len2, h, values, read_ts, final_ts, table, gamma_tau);
    proof {
        assert forall|c: int| 0 <= c < 3 implies is_circuits_of(
            p,
            g,
            d,
            eq,
            #[trigger] vals2(h@)[c],
            vals2(values@)[c],
            vals2(read_ts@)[c],
            vals2(final_ts@)[c],
            two_to(k),
            two_to(l),
            vals2(r.0@[c]@),
            vals2(r.1@[c]@),
            vals2(r.2@[c]@),
            vals2(r.3@[c]@),
        ) by {
            assert(vals2(h@)[c] == vals(h@[c]@));
        }
        assert forall|c: int| 0 <= c < 3 implies vals2((#[trigger] r.0@[c])@) == circuit_of(
            p,
            init_leaves(p, g, d, eq, two_to(k)),
            k,
        ) by {
            assert(vals2(h@)[c].len() == two_to(l));
        }
        assert forall|c: int| 0 <= c < 3 implies vals2((#[trigger] r.2@[c])@) == circuit_of(
            p,
            final_leaves(p, g, d, eq, vals2(final_ts@)[c], two_to(k)),
            k,
        ) by {
            assert(vals2(h@)[c].len() == two_to(l));
        }
    }
    r
}

/// Proves the products of circuits.
fn prove_circuits<F: PrimeField, T: TranscriptWrite<F>>(
    circuits: &Vec<&Vec<Vec<F>>>,
    transcript: &mut T,
    Ghost(cs): Ghost<Seq<Seq<Seq<int>>>>,
    Ghost(depth): Ghost<nat>,
) -> (r: Vec<F>)
    requires
        1 <= circuits@.len() <= 12,
        cs == Seq::new(circuits@.len(), |c: int| vals2(circuits@[c]@)),
        circuits_multiply(F::modulus(), cs, depth),
    ensures
        ({
            let g = gkr_prove(F::modulus(), T::oracle(), old(transcript).tx(), cs);
            &&& final(transcript).tx() == g.tx
            &&& vals(r@) == g.point
            &&& r@.len() == depth
        }),
{
    proof {
        F::lemma_modulus();
        T::lemma_oracle();
        assert(cs[0].len() == depth + 1);
        assert(cs[0] == vals2(circuits@[0]@));
        assert(circuits@[0]@.len() == vals2(circuits@[0]@).len());
    }
    let r = gkr_prover::<F, T>(circuits, transcript);
    proof {
        lemma_gkr_extends(
            F::modulus(),
            T::oracle(),
            old(transcript).tx(),
            cs,
            depth,
            (depth - 1) as nat,
        );
        assert(vals(r@).len() == r@.len());
    }
    r
}

/// Proves the reads.
#[verifier::rlimit(60)]
fn reads_prove<F: PrimeField, T: TranscriptWrite<F>>(
    t: &TableData<F>,
    w: &Vec<F>,
    v: &Vec<F>,
    transcript: &mut T,
    Ghost(m): Ghost<Seq<Meta>>,
    Ghost(k): Ghost<nat>,
    Ghost(l): Ghost<nat>,
) -> (r: (Vec<F>, Vec<F>))
    requires
        metas_sized(m, k, l),
        t.tables() == tables_of(m, vals(w@), vals(v@)),
        w@.len() == two_to(k),
        v@.len() == two_to(k),
        reads_balance(
            F::modulus(),
            t.tables(),
            vals(w@),
            vals(v@),
            challenges(T::oracle(), old(transcript).tx().hist, 2),
            k,
            l,
        ),
    ensures
        prove_reads(
            F::modulus(),
            T::oracle(),
            old(transcript).tx(),
            t.tables(),
            vals(w@),
            vals(v@),
            k,
            l,
        ) == (Reads { tx: final(transcript).tx(), point1: vals(r.0@), point2: vals(r.1@) }),
        r.0@.len() == k,
        r.1@.len() == l,
{
    let ghost p = F::modulus();
    let ghost tx = transcript.tx();
    let ghost ts = t.tables();
    let gamma_tau = squeeze_challenges::<F, T>(transcript, 2);
    let ghost gt = vals(gamma_tau@);
    proof {
        F::lemma_modulus();
        lemma_challenges_len(T::oracle(), tx.hist, 2);
        assert(gt.len() == gamma_tau@.len());
        lemma_tables_fit(m, vals(w@), vals(v@), k, l);
        assert(t.row@.len() == ts.row.len());
        assert(t.col@.len() == ts.col.len());
        assert(t.e_rx@.len() == ts.e_rx.len());
        assert(t.e_ry@.len() == ts.e_ry.len());
        assert(t.read_row@.len() == ts.read_row.len());
        assert(t.read_col@.len() == ts.read_col.len());
        assert(t.final_row@.len() == ts.final_row.len());
        assert(t.final_col@.len() == ts.final_col.len());
        assert(ts.row[0].len() == two_to(l));
        assert(ts.row[0] == vals(t.row@[0]@));
    }
    let len2 = t.row[0].len();
    let (init_row, write_row, final_row, read_row) = side_circuits(
        &t.row,
        &t.e_rx,
        &t.read_row,
        &t.final_row,
        w,
        &gamma_tau,
        len2,
        Ghost(k),
        Ghost(l),
    );
    let (init_col, write_col, final_col, read_col) = side_circuits(
        &t.col,
        &t.e_ry,
        &t.read_col,
        &t.final_col,
        v,
        &gamma_tau,
        len2,
        Ghost(k),
        Ghost(l),
    );
    let ghost a = memory_leaves(p, ts, vals(w@), vals(v@), gt, two_to(k));
    let ghost b = lookup_leaves(p, ts, gt, two_to(l));
    proof {
        lemma_leaves_multiply(p, m, vals(w@), vals(v@), gt, k, l);
    }
    let mut first: Vec<&Vec<Vec<F>>> = Vec::new();
    first.push(&init_row[0]);
    first.push(&final_row[0]);
    first.push(&final_row[1]);
    first.push(&final_row[2]);
    first.push(&init_col[0]);
    first.push(&final_col[0]);
    first.push(&final_col[1]);
    first.push(&final_col[2]);
    proof {
        let cs = Seq::new(first@.len(), |c: int| vals2(first@[c]@));
        assert forall|c: int| 0 <= c < 8 implies #[trigger] cs[c] == circuits_over(p, a, k)[c] by {
            assert(c == 0 || c == 1 || c == 2 || c == 3 || c == 4 || c == 5 || c == 6 || c == 7);
        }
        assert(cs =~= circuits_over(p, a, k));
    }
    let point1 = prove_circuits::<F, T>(
        &first,
        transcript,
        Ghost(circuits_over(p, a, k)),
        Ghost(k),
    );
    let mut second: Vec<&Vec<Vec<F>>> = Vec::new();
    second.push(&write_row[0]);
    second.push(&write_row[1]);
    second.push(&write_row[2]);
    second.push(&read_row[0]);
    second.push(&read_row[1]);
    second.push(&read_row[2]);
    second.push(&write_col[0]);
    second.push(&write_col[1]);
    second.push(&write_col[2]);
    second.push(&read_col[0]);
    second.push(&read_col[1]);
    second.push(&read_col[2]);
    proof {
        let cs = Seq::new(second@.len(), |c: int| vals2(second@[c]@));
        assert forall|c: int| 0 <= c < 12 implies #[trigger] cs[c] == circuits_over(p, b, l)[c] by {
            assert(c == 0 || c == 1 || c == 2 || c == 3 || c == 4 || c == 5 || c == 6 || c == 7 || c
                == 8 || c == 9 || c == 10 || c == 11);
        }
        assert(cs =~= circuits_over(p, b, l));
    }
    let point2 = prove_circuits::<F, T>(
        &second,
        transcript,
        Ghost(circuits_over(p, b, l)),
        Ghost(l),
    );
    let accesses = access_tables(t);
    let lasts = last_tables(t);
    let at2 = evaluate_all(&accesses, &point2);
    let at1 = evaluate_all(&lasts, &point1);
    let evals = joined(&at2, &at1);
    write_field_elements(transcript, &evals);
    (point1, point2)
}

/// The tables that have an entry for each entry of a matrix.
fn access_tables<F: PrimeField>(t: &TableData<F>) -> (r: Vec<Vec<F>>)
    ensures
        vals2(r@) == t.tables().accesses(),
{
    let mut r: Vec<Vec<F>> = copy_vectors(&t.row);
    append_tables(&mut r, &t.col);
    append_tables(&mut r, &t.read_row);
    append_tables(&mut r, &t.read_col);
    append_tables(&mut r, &t.e_rx);
    append_tables(&mut r, &t.e_ry);
    r
}

/// The tables that have an entry for each row or column.
fn last_tables<F: PrimeField>(t: &TableData<F>) -> (r: Vec<Vec<F>>)
    ensures
        vals2(r@) == t.tables().lasts(),
{
    let mut r: Vec<Vec<F>> = copy_vectors(&t.final_row);
    append_tables(&mut r, &t.final_col);
    r
}

/// A table that is repeated has the value of the table at its point, where that is lengthened.
pub proof fn law_extended_value(p: int, t: Seq<int>, y: Seq<int>, n: nat)
    requires
        p > 0,
        t.len() == two_to(y.len()),
        n <= y.len(),
    ensures
        repeated(t, two_to(y.len() + n)).len() == two_to(y.len() + n),
        extended(y, n).len() == y.len() + n,
        mle(p, repeated(t, two_to(y.len() + n)), extended(y, n)) == mle(p, t, y),
{
    let f = y.take(n as int).reverse();
    let q = repeated(t, two_to(y.len() + n));
    assert(extended(y, n) == f + y);
    assert(f.len() + y.len() == y.len() + n);
    lemma_repeated_front(t, f, y);
    lemma_mle_cong(p, q, f + y);
    lemma_mle_cong(p, t, y);
    lemma_mod_canonical(p, dot(q, basis(p, f + y)));
    lemma_mod_canonical(p, dot(t, basis(p, y)));
    lemma_canonical_unique(p, mle(p, q, f + y), mle(p, t, y));
}

/// Repeats the short tables to the length of the others, and lengthens their points.
pub fn extend_if_required<F: PrimeField>(
    max_len: usize,
    poly1: &mut Vec<F>,
    poly2: &mut Vec<F>,
    poly5: &mut Vec<F>,
    random_points1: &mut Vec<F>,
    rx: &mut Vec<F>,
    ry: &mut Vec<F>,
)
    requires
        old(poly1)@.len() >= 1,
        is_power_of_two(old(poly1)@.len()),
        old(poly2)@.len() == old(poly1)@.len(),
        old(poly5)@.len() == old(poly1)@.len(),
        is_power_of_two(max_len as nat),
        old(poly1)@.len() <= max_len,
        log2_of(max_len as nat) - log2_of(old(poly1)@.len()) <= old(random_points1)@.len(),
        log2_of(max_len as nat) - log2_of(old(poly1)@.len()) <= old(rx)@.len(),
        log2_of(max_len as nat) - log2_of(old(poly1)@.len()) <= old(ry)@.len(),
    ensures
        ({
            let n = (log2_of(max_len as nat) - log2_of(old(poly1)@.len())) as nat;
            &&& vals(final(poly1)@) == repeated(vals(old(poly1)@), max_len as nat)
            &&& vals(final(poly2)@) == repeated(vals(old(poly2)@), max_len as nat)
            &&& vals(final(poly5)@) == repeated(vals(old(poly5)@), max_len as nat)
            &&& vals(final(random_points1)@) == extended(vals(old(random_points1)@), n)
            &&& vals(final(rx)@) == extended(vals(old(rx)@), n)
            &&& vals(final(ry)@) == extended(vals(old(ry)@), n)
        }),
{
    let n = poly1.len();
    proof {
        let a = log2_of(n as nat);
        let b = log2_of(max_len as nat);
        if b < a {
            lemma_two_to_monotone(b + 1, a);
            assert(two_to(b + 1) == 2 * two_to(b));
            lemma_two_to_positive(b);
        }
    }
    let count = log2(max_len) - log2(n);
    if n != max_len {
        let q1 = repeat_table(poly1, max_len);
        let q2 = repeat_table(poly2, max_len);
        let q5 = repeat_table(poly5, max_len);
        *poly1 = q1;
        *poly2 = q2;
        *poly5 = q5;
        let y1 = extend_point(random_points1, count);
        let y2 = extend_point(rx, count);
        let y3 = extend_point(ry, count);
        *random_points1 = y1;
        *rx = y2;
        *ry = y3;
    } else {
        proof {
            lemma_repeated_once(vals(poly1@));
            lemma_repeated_once(vals(poly2@));
            lemma_repeated_once(vals(poly5@));
            assert(extended(vals(random_points1@), 0) =~= vals(random_points1@));
            assert(extended(vals(rx@), 0) =~= vals(rx@));
            assert(extended(vals(ry@), 0) =~= vals(ry@));
        }
    }
}

/// A table that is repeated once.
proof fn lemma_repeated_once(t: Seq<int>)
    ensures
        repeated(t, t.len()) == t,
{
    assert forall|i: int| 0 <= i < t.len() implies repeated(t, t.len())[i] == t[i] by {
        crate::algebra::lemma_mod_small(t.len() as int, i);
    }
    assert(repeated(t, t.len()) =~= t);
}

/// Turns all claims into claims at one point.
#[verifier::rlimit(60)]
fn batched_prove<F: PrimeField, T: TranscriptWrite<F>>(
    t: &TableData<F>,
    e: &Vec<F>,
    wit: &Vec<F>,
    mut rx: Vec<F>,
    mut ry: Vec<F>,
    be_sc_rp: &Vec<F>,
    random_points2: &Vec<F>,
    mut random_points1: Vec<F>,
    transcript: &mut T,
    Ghost(k): Ghost<nat>,
    Ghost(l): Ghost<nat>,
) -> (r: Vec<F>)
    requires
        tables_fit(t.tables(), two_to(k), two_to(l)),
        uniform(t.tables().accesses(), two_to(l)),
        uniform(t.tables().lasts(), two_to(k)),
        1 <= k <= l <= 2 * k,
        e@.len() == two_to(k),
        wit@.len() == two_to(k),
        rx@.len() == k,
        ry@.len() == k,
        random_points1@.len() == k,
        be_sc_rp@.len() == l,
        random_points2@.len() == l,
    ensures
        prove_batched(
            F::modulus(),
            T::oracle(),
            old(transcript).tx(),
            t.tables(),
            vals(e@),
            vals(wit@),
            seq![
                vals(rx@),
                vals(ry@),
                vals(be_sc_rp@),
                vals(random_points2@),
                vals(random_points1@),
            ],
            k,
            l,
        ) == (Layer { tx: final(transcript).tx(), point: vals(r@) }),
        r@.len() == l,
{
    let ghost p = F::modulus();
    let ghost tx = transcript.tx();
    let ghost ts = t.tables();
    let ghost y = seq![
        vals(rx@),
        vals(ry@),
        vals(be_sc_rp@),
        vals(random_points2@),
        vals(random_points1@),
    ];
    let ghost z = extended_points(y);
    let batch_sc_rc = squeeze_challenges::<F, T>(transcript, 35);
    let ghost c = vals(batch_sc_rc@);
    let n = e.len();
    proof {
        F::lemma_modulus();
        lemma_challenges_len(T::oracle(), tx.hist, 35);
        assert(c.len() == batch_sc_rc@.len());
        assert(ts.val[0] == vals(t.val@[0]@));
        assert(ts.val[0].len() == two_to(l));
        lemma_log2_two_to(k);
        lemma_log2_two_to(l);
        lemma_two_to_positive(k);
        lemma_two_to_positive(l);
        lemma_two_to_monotone(k, l);
    }
    let size = t.val[0].len();
    let mut group: Vec<Vec<F>> = Vec::new();
    group.push(copy_elements(e));
    assert(vals2(group@) =~= seq![vals(e@)]);
    let mut poly1 = weighed(&batch_sc_rc, 0, 1, &group, n);
    let mut group: Vec<Vec<F>> = Vec::new();
    group.push(copy_elements(wit));
    assert(vals2(group@) =~= seq![vals(wit@)]);
    let mut poly2 = weighed(&batch_sc_rc, 1, 2, &group, n);
    let mut group: Vec<Vec<F>> = copy_vectors(&t.e_rx);
    append_tables(&mut group, &t.e_ry);
    append_tables(&mut group, &t.val);
    proof {
        assert(vals2(group@) =~= ts.e_rx + ts.e_ry + ts.val);
        lemma_vec_lens(group@, two_to(l));
    }
    let poly3 = weighed(&batch_sc_rc, 2, 11, &group, size);
    let mut group: Vec<Vec<F>> = copy_vectors(&t.e_rx);
    append_tables(&mut group, &t.e_ry);
    append_tables(&mut group, &t.row);
    append_tables(&mut group, &t.col);
    append_tables(&mut group, &t.read_row);
    append_tables(&mut group, &t.read_col);
    proof {
        assert(vals2(group@) =~= ts.e_rx + ts.e_ry + ts.row + ts.col + ts.read_row + ts.read_col);
        lemma_vec_lens(group@, two_to(l));
    }
    let poly4 = weighed(&batch_sc_rc, 11, 29, &group, size);
    let group = last_tables(t);
    proof {
        lemma_vec_lens(group@, two_to(k));
        assert(vals2(group@).len() == group@.len());
    }
    let mut poly5 = weighed(&batch_sc_rc, 29, 35, &group, n);
    let num_var_witness = rx.len();
    extend_if_required(
        size,
        &mut poly1,
        &mut poly2,
        &mut poly5,
        &mut random_points1,
        &mut rx,
        &mut ry,
    );
    proof {
        assert(vals(poly1@).len() == poly1@.len());
        assert(vals(poly2@).len() == poly2@.len());
        assert(vals(poly5@).len() == poly5@.len());
        assert(vals(rx@).len() == rx@.len());
        assert(vals(ry@).len() == ry@.len());
        assert(vals(random_points1@).len() == random_points1@.len());
    }
    let mut polys: Vec<Vec<F>> = Vec::new();
    polys.push(poly1);
    polys.push(poly2);
    polys.push(poly3);
    polys.push(poly4);
    polys.push(poly5);
    let mut eqs: Vec<Vec<F>> = Vec::new();
    eqs.push(basis_table(&rx));
    eqs.push(basis_table(&ry));
    eqs.push(basis_table(be_sc_rp));
    eqs.push(basis_table(random_points2));
    eqs.push(basis_table(&random_points1));
    proof {
        assert(vals2(polys@) + vals2(eqs@) =~= batched_tables(
            p,
            ts,
            vals(e@),
            vals(wit@),
            y,
            c,
            two_to(k),
            two_to(l),
        ));
        assert(uniform(vals2(polys@), size as nat));
        assert(uniform(vals2(eqs@), size as nat));
    }
    let (_eq_eval, rp) = batch_sum_check_prover(&mut polys, eqs, transcript);
    let tail = sub_vector(&rp, rp.len() - num_var_witness, rp.len());
    assert(vals(tail@) =~= vals(rp@).skip(l - k));
    let accesses = access_tables(t);
    let lasts = last_tables(t);
    let mut both: Vec<Vec<F>> = Vec::new();
    both.push(copy_elements(e));
    both.push(copy_elements(wit));
    assert(vals2(both@) =~= seq![vals(e@), vals(wit@)]);
    let evals = joined(&evaluate_all(&accesses, &rp), &evaluate_all(&lasts, &tail));
    let evals = joined(&evals, &evaluate_all(&t.val, &rp));
    let evals = joined(&evals, &evaluate_all(&both, &tail));
    write_field_elements(transcript, &evals);
    rp
}

/// The lengths of tables, from those of their values.
proof fn lemma_vec_lens<F: PrimeField>(s: Seq<Vec<F>>, n: nat)
    requires
        uniform(vals2(s), n),
    ensures
        forall|i: int| 0 <= i < s.len() ==> (#[trigger] s[i])@.len() == n,
{
    assert forall|i: int| 0 <= i < s.len() implies (#[trigger] s[i])@.len() == n by {
        assert(vals2(s)[i].len() == n);
        assert(vals2(s)[i] == vals(s[i]@));
    }
}

/// Proves the values of the matrices and of the committed vectors.
#[verifier::rlimit(60)]
pub fn batch_eval_proof<F: PrimeField, H: HashFunction, S: BrakingbaseSpec, T: TranscriptWrite<F>>(
    sparse_metadata: Vec<SparseMetaData<F>>,
    rx: Vec<F>,
    ry: Vec<F>,
    rx_basis_evals: Vec<F>,
    E: &MultilinearPolynomial<F>,
    W: &MultilinearPolynomial<F>,
    pp: &BrakingbaseProverParams<F>,
    transcript: &mut T,
)
    requires
        pp.wf::<H>(),
        sparse_metadata@.len() == 3,
        metas_sized(
            metas(sparse_metadata@),
            rx@.len(),
            log2_of(sparse_metadata@[0].row.evals@.len()),
        ),
        log2_of(sparse_metadata@[0].row.evals@.len()) <= pp.num_vars,
        ry@.len() == rx@.len(),
        rx_basis_evals@.len() == two_to(rx@.len()),
        E.evals@.len() == two_to(rx@.len()),
        W.evals@.len() == two_to(rx@.len()),
        ({
            let p = F::modulus();
            let w = vals(rx_basis_evals@);
            let v = basis(p, vals(ry@));
            let t = tables_of(metas(sparse_metadata@), w, v);
            reads_balance(
                p,
                t,
                w,
                v,
                reads_drawn::<F, H>(p, T::oracle(), pp.scheme(), old(transcript).tx(), t),
                rx@.len(),
                log2_of(sparse_metadata@[0].row.evals@.len()),
            )
        }),
    ensures
        final(transcript).tx() == batch_eval::<F, H>(
            F::modulus(),
            T::oracle(),
            pp.scheme(),
            old(transcript).tx(),
            metas(sparse_metadata@),
            vals(rx@),
            vals(ry@),
            vals(rx_basis_evals@),
            vals(E.evals@),
            vals(W.evals@),
            log2_of(sparse_metadata@[0].row.evals@.len()),
        ),
{
    let ghost p = F::modulus();
    let ghost k = rx@.len();
    let ghost l = log2_of(sparse_metadata@[0].row.evals@.len());
    let ghost m = metas(sparse_metadata@);
    let size = rx_basis_evals.len();
    proof {
        F::lemma_modulus();
        assert(vals(rx_basis_evals@).len() == rx_basis_evals@.len());
        assert(size == two_to(k));
    }
    let ry_basis_evals = basis_table(&ry);
    let t = gather_tables(&sparse_metadata, &rx_basis_evals, &ry_basis_evals, Ghost(k), Ghost(l));
    let ghost ts = t.tables();
    proof {
        lemma_tables_fit(m, vals(rx_basis_evals@), vals(ry_basis_evals@), k, l);
        lemma_log2_two_to(l);
        lemma_two_to_positive(l);
    }
    send_reads::<F, H, S, T>(pp, &t, transcript, Ghost(l));
    let val = copy_vectors(&t.val);
    let e_rx = copy_vectors(&t.e_rx);
    let e_ry = copy_vectors(&t.e_ry);
    proof {
        assert(vals2(val@)[0] == vals(val@[0]@));
        assert(ts.val[0].len() == two_to(l));
    }
    let be_sc_rp = matrix_eval_sum_check(val, e_rx, e_ry, transcript);
    let (random_points1, random_points2) = reads_prove::<F, T>(
        &t,
        &rx_basis_evals,
        &ry_basis_evals,
        transcript,
        Ghost(m),
        Ghost(k),
        Ghost(l),
    );
    let _point = batched_prove::<F, T>(
        &t,
        E.evals(),
        W.evals(),
        rx,
        ry,
        &be_sc_rp,
        &random_points2,
        random_points1,
        transcript,
        Ghost(k),
        Ghost(l),
    );
}

} // verus!
