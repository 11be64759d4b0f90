//! Opening a commitment at a point.
use vstd::prelude::*;
use crate::algebra::{
    canonical, lemma_mod_canonical, lemma_mod_small, lemma_two_to_add, lemma_two_to_monotone,
    lemma_two_to_positive, two_to,
};
use crate::basefold::{
    BasefoldCommitment, basefold_commit, bit_reversed, encode, lemma_encode_len,
    reverse_index_bits_in_place,
};
use crate::basefold_batch::{
    BasefoldBatchCommitment, Opened, basefold_batch_commit, basefold_batch_open, codeword_root,
    combine, combine_vectors, lemma_column_tree_shape, lemma_element_tree_shape, open_batch,
    opened_fits, opened_view, poly_values,
};
use crate::bits::{
    ceil_log2, is_power_of_two, lemma_ceil_log2, lemma_log2_two_to, log2, log2_of, next_power_of_two,
};
use crate::brakingbase::{
    Brakingbase, BrakingbaseCommitment, BrakingbaseProverParams, BrakingbaseSpec, Scheme,
    commits_to, copy_vectors, joined, lemma_vals_bit_reversed, lemma_width_fits, matrix_polys,
    padded_elements,
    padded_indices, padded_values, padded_with_zeros, repeat_table, repeated, scheme_fits,
    take_column,
};
use crate::brakingbase_helper::{
    eq, evaluate_poly, partial_evaluate_poly, point_to_tensor, point_to_tensor_for_commit,
    sub_vector,
};
use crate::code::{Matrix, ParityCheckMatrix, index_values};
use crate::error::Error;
use crate::field::{PrimeField, copy_elements, repeat_element, vals, vals2};
use crate::gkr::gkr::{circuits_multiply, gkr_prove, gkr_prover, lemma_gkr_extends};
use crate::gkr::gpc::{
    access_fits, circuits_over, final_leaves, grand_product_circuits, init_leaves, is_circuits_of,
    law_accesses_balance, lemma_circuits_multiply, read_leaves, write_leaves,
};
use crate::gkr::helper::reverse_elements;
use crate::hash::{HashFunction, Output};
use crate::indices::{index_of, squeeze_challenge_idx};
use crate::layout::{lemma_level_start, split_levels, split_rows};
use crate::merkle::{
    ancestor, column, column_tree, element_tree, lemma_ancestor_bound, lemma_sibling_bound,
    sibling, tree_view,
};
use crate::multilinear::{basis, eq_prod, mle, tensor};
use crate::poly::MultilinearPolynomial;
use crate::rounds::{prove_rounds, uniform};
use crate::sum_checks::{
    batch_shape, batch_sum_check_prover, cubic_shape, first_sum_check_prover, mask_comb,
    quadratic_shape, second_sum_check_prover, triple_comb,
};
use crate::combiners::pair_comb;
use crate::sums::{dot, lemma_sum_step, sum_of};
use crate::timestamps::{final_times, read_times};
use crate::transcript::{
    Oracle, TranscriptWrite, Tx, challenges, squeeze_challenges, write_field_elements,
};

verus! {

/// The combination of the rows by the point's first coordinates, with zeros up to twice the
/// length of a message.
pub open spec fn small_table(p: int, s: Scheme, rows: Seq<Seq<int>>, point: Seq<int>) -> Seq<int> {
    padded_values(
        combine(
            p,
            tensor(p, point.take(log2_of(s.num_rows) as int)),
            rows,
            s.codeword_len,
        ),
        2 * s.row_len,
    )
}

/// The codeword of the foldable code that stands for a table.
pub open spec fn folded_code(p: int, s: Scheme, t: Seq<int>) -> Seq<int> {
    encode(p, s.table, s.log_rate, bit_reversed(t))
}

/// The siblings on the way from the leaf `q` to the root.
pub open spec fn siblings(tree: Seq<Seq<Output>>, q: int) -> Seq<Output> {
    Seq::new(tree.len(), |k: int| tree[k][sibling(ancestor(q, k as nat))])
}

/// The transcript after columns were sent, and their indices.
pub struct Columns {
    pub tx: Tx,
    pub indices: Seq<int>,
}

/// Draws `n` indices, and sends for each the column and its path.
pub open spec fn send_columns(
    ch: Oracle,
    tx: Tx,
    rows: Seq<Seq<int>>,
    tree: Seq<Seq<Output>>,
    codeword_len: nat,
    n: nat,
) -> Columns
    decreases n,
{
    if n == 0 {
        Columns { tx, indices: Seq::empty() }
    } else {
        let c = send_columns(ch, tx, rows, tree, codeword_len, (n - 1) as nat);
        let q = index_of(ch(c.tx.hist), codeword_len as int);
        Columns {
            tx: c.tx.squeeze().write_all(column(rows, q)).commit_all(siblings(tree, q)),
            indices: c.indices.push(q),
        }
    }
}

/// The sum of the weights of each index.
pub open spec fn mask_of(p: int, size: nat, indices: Seq<int>, c: Seq<int>) -> Seq<int> {
    Seq::new(
        size,
        |k: int|
            sum_of(
                indices.len(),
                |i: int|
                    if indices[i] == k {
                        c[i]
                    } else {
                        0
                    },
            ) % p,
    )
}

/// What the entry `i` of the matrix adds to the row `k` when the columns are weighed.
pub open spec fn weighed_entry(m: Matrix, t: Seq<int>, k: int, i: int) -> int {
    if m.row[i] == k {
        m.val[i] * t[m.col[i]]
    } else {
        0
    }
}

/// The matrix times the weights of its columns.
pub open spec fn matrix_at(p: int, m: Matrix, t: Seq<int>, size: nat) -> Seq<int> {
    Seq::new(size, |k: int| sum_of(m.row.len(), |i: int| weighed_entry(m, t, k, i)) % p)
}

/// The state after the first sum-check.
pub struct First {
    pub tx: Tx,
    pub u: Seq<int>,
    pub point: Seq<int>,
}

/// Sends the columns, and runs the sum-check for the columns and the parity checks.
pub open spec fn first_phase(
    p: int,
    ch: Oracle,
    s: Scheme,
    tx: Tx,
    rows: Seq<Seq<int>>,
    tree: Seq<Seq<Output>>,
    small: Seq<int>,
) -> First {
    let lr = log2_of(s.row_len);
    let half = s.row_len as int;
    let c = send_columns(ch, tx, rows, tree, s.codeword_len, s.num_queries);
    let u = challenges(ch, c.tx.hist, lr);
    let t1 = c.tx.squeeze_many(lr).write(dot(small.skip(half), tensor(p, u)) % p);
    let weights = challenges(ch, t1.hist, s.num_queries);
    let t2 = t1.squeeze_many(s.num_queries);
    let rc = challenges(ch, t2.hist, 2);
    let r = prove_rounds(
        quadratic_shape(p, ch),
        mask_comb(rc[0], rc[1]),
        t2.squeeze_many(2),
        seq![
            mask_of(p, 2 * s.row_len, c.indices, weights),
            small,
            matrix_at(p, s.matrix, tensor(p, u), 2 * s.row_len),
        ],
        lr + 1,
    );
    let rest = tensor(p, r.point.skip(1));
    First {
        tx: r.tx.write(r.tables[2][0]).write_all(
            seq![dot(small.take(half), rest) % p, dot(small.skip(half), rest) % p],
        ),
        u,
        point: r.point,
    }
}

/// The values of the basis polynomials of some indices.
pub open spec fn eq_values(p: int, indices: Seq<int>, y: Seq<int>) -> Seq<int> {
    Seq::new(indices.len(), |i: int| eq_prod(indices[i], y) % p)
}

/// The root of the tree over the columns of some codewords.
pub open spec fn batch_root<F: PrimeField, H: HashFunction>(codes: Seq<Seq<int>>) -> Output {
    column_tree::<F, H>(codes).last()[0]
}

/// The state after the second sum-check.
pub struct Second {
    pub tx: Tx,
    pub erow: Seq<int>,
    pub ecol: Seq<int>,
    pub point: Seq<int>,
}

/// Commits to the values that the matrix reads, and runs the sum-check for its value.
pub open spec fn second_phase<F: PrimeField, H: HashFunction>(
    p: int,
    ch: Oracle,
    s: Scheme,
    f: First,
) -> Second {
    let n = two_to(s.bf_vars);
    let erow = eq_values(p, padded_indices(s.matrix.row, n), f.point);
    let ecol = eq_values(p, padded_indices(s.matrix.col, n), seq![0] + f.u);
    let t = f.tx.commit(
        batch_root::<F, H>(seq![folded_code(p, s, erow), folded_code(p, s, ecol)]),
    );
    let r = prove_rounds(
        cubic_shape(p, ch),
        triple_comb(),
        t,
        seq![erow, ecol, padded_values(s.matrix.val, n)],
        s.bf_vars,
    );
    Second {
        tx: r.tx.write(r.tables[2][0]).write(r.tables[0][0]).write(r.tables[1][0]),
        erow,
        ecol,
        point: r.point,
    }
}

/// The times that the reads of the rows, or of the columns, leave.
pub open spec fn times_left(p: int, s: Scheme, indices: Seq<int>) -> Seq<int> {
    final_times(p, padded_indices(indices, two_to(s.bf_vars)), 2 * s.row_len)
}

/// The leaves of the circuits over the two tables that are read.
pub open spec fn table_leaves_of(p: int, s: Scheme, f: First, gt: Seq<int>) -> Seq<Seq<int>> {
    let n = 2 * s.row_len;
    let er = basis(p, f.point);
    let ec = basis(p, seq![0] + f.u);
    seq![
        init_leaves(p, gt[0], gt[1], er, n),
        final_leaves(p, gt[0], gt[1], er, times_left(p, s, s.matrix.row), n),
        init_leaves(p, gt[0], gt[1], ec, n),
        final_leaves(p, gt[0], gt[1], ec, times_left(p, s, s.matrix.col), n),
    ]
}

/// The leaves of the circuits over the reads.
pub open spec fn access_leaves_of(p: int, s: Scheme, g: Second, gt: Seq<int>) -> Seq<Seq<int>> {
    let n = two_to(s.bf_vars);
    let rows = padded_indices(s.matrix.row, n);
    let cols = padded_indices(s.matrix.col, n);
    seq![
        write_leaves(p, gt[0], gt[1], rows, g.erow, read_times(p, rows), n),
        read_leaves(p, gt[0], gt[1], rows, g.erow, read_times(p, rows), n),
        write_leaves(p, gt[0], gt[1], cols, g.ecol, read_times(p, cols), n),
        read_leaves(p, gt[0], gt[1], cols, g.ecol, read_times(p, cols), n),
    ]
}

/// The state after the memory checks.
pub struct Third {
    pub tx: Tx,
    pub point1: Seq<int>,
    pub point2: Seq<int>,
}

/// Proves that the values were read from the tables of the basis polynomials.
pub open spec fn third_phase(p: int, ch: Oracle, s: Scheme, f: First, g: Second) -> Third {
    let gt = challenges(ch, g.tx.hist, 2);
    let m = matrix_polys(p, s.matrix, s.row_len, two_to(s.bf_vars));
    let a = gkr_prove(
        p,
        ch,
        g.tx.squeeze_many(2),
        circuits_over(p, table_leaves_of(p, s, f, gt), log2_of(s.row_len) + 1),
    );
    let t = a.tx.write_all(
        seq![
            mle(p, times_left(p, s, s.matrix.row), a.point),
            mle(p, times_left(p, s, s.matrix.col), a.point),
        ],
    );
    let b = gkr_prove(p, ch, t, circuits_over(p, access_leaves_of(p, s, g, gt), s.bf_vars));
    Third {
        tx: b.tx.write_all(
            seq![
                mle(p, m[1], b.point),
                mle(p, m[2], b.point),
                mle(p, m[3], b.point),
                mle(p, m[4], b.point),
                mle(p, g.erow, b.point),
                mle(p, g.ecol, b.point),
            ],
        ),
        point1: a.point,
        point2: b.point,
    }
}

/// A point with zeros in front, up to `n` coordinates.
pub open spec fn leading(n: nat, y: Seq<int>) -> Seq<int> {
    Seq::new((n - y.len()) as nat, |i: int| 0int) + y
}

/// The points at which the tables are claimed: three for the combined row, then those of the
/// second sum-check, of the reads and of the times that are left.
pub open spec fn claim_points(
    s: Scheme,
    point: Seq<int>,
    f: First,
    g: Second,
    h: Third,
    r: int,
) -> Seq<Seq<int>> {
    let n = s.bf_vars;
    seq![
        leading(n, f.point),
        leading(n, seq![1] + f.u),
        leading(n, point.skip(log2_of(s.num_rows) as int)),
        g.point,
        h.point2,
        leading(n, seq![r] + h.point1),
    ]
}

/// The tables of the last sum-check.
pub open spec fn claim_tables(
    p: int,
    s: Scheme,
    wide: Seq<int>,
    g: Second,
    y: Seq<Seq<int>>,
    c: Seq<int>,
) -> Seq<Seq<int>> {
    let n = two_to(s.bf_vars);
    let m = matrix_polys(p, s.matrix, s.row_len, n);
    seq![
        combine(p, c.take(3), seq![basis(p, y[0]), basis(p, y[1]), basis(p, y[2])], n),
        combine(p, c.subrange(3, 6), seq![m[0], g.erow, g.ecol], n),
        combine(p, c.subrange(6, 12), seq![g.erow, g.ecol, m[1], m[2], m[3], m[4]], n),
        combine(p, c.skip(12), seq![m[5]], n),
    ] + seq![wide, basis(p, y[3]), basis(p, y[4]), basis(p, y[5])]
}

/// The state after the last sum-check.
pub struct Fourth {
    pub tx: Tx,
    pub point: Seq<int>,
}

/// Turns all claims into claims at one point.
pub open spec fn fourth_phase(
    p: int,
    ch: Oracle,
    s: Scheme,
    point: Seq<int>,
    wide: Seq<int>,
    f: First,
    g: Second,
    h: Third,
) -> Fourth {
    let m = matrix_polys(p, s.matrix, s.row_len, two_to(s.bf_vars));
    let y0 = claim_points(s, point, f, g, h, 0);
    let t1 = h.tx.write_all(seq![mle(p, wide, y0[1]), mle(p, wide, y0[2])]);
    let y = claim_points(s, point, f, g, h, ch(t1.hist));
    let t2 = t1.squeeze();
    let c = challenges(ch, t2.hist, 13);
    let r = prove_rounds(
        batch_shape(p, ch),
        pair_comb(4),
        t2.squeeze_many(13),
        claim_tables(p, s, wide, g, y, c),
        s.bf_vars,
    );
    Fourth {
        tx: r.tx.write(r.tables[4][0]).write_all(
            seq![
                mle(p, m[0], r.point),
                mle(p, g.erow, r.point),
                mle(p, g.ecol, r.point),
                mle(p, m[1], r.point),
                mle(p, m[2], r.point),
                mle(p, m[3], r.point),
                mle(p, m[4], r.point),
                mle(p, m[5], r.point),
            ],
        ),
        point: r.point,
    }
}

/// The tables that are opened, in the order of their commitments.
pub open spec fn opened_tables(p: int, s: Scheme, wide: Seq<int>, g: Second) -> Seq<Seq<int>> {
    let m = matrix_polys(p, s.matrix, s.row_len, two_to(s.bf_vars));
    seq![wide, g.erow, g.ecol, m[0], m[1], m[2], m[3], m[4], m[5]]
}

/// Tables with their indices reversed.
pub open spec fn all_reversed(ts: Seq<Seq<int>>) -> Seq<Seq<int>> {
    Seq::new(ts.len(), |i: int| bit_reversed(ts[i]))
}

/// The codewords that are opened, with their trees.
pub open spec fn opened_of<F: PrimeField, H: HashFunction>(
    p: int,
    s: Scheme,
    wide: Seq<int>,
    g: Second,
) -> Opened {
    let m = matrix_polys(p, s.matrix, s.row_len, two_to(s.bf_vars));
    let first = folded_code(p, s, wide);
    let second = seq![folded_code(p, s, g.erow), folded_code(p, s, g.ecol)];
    let third = Seq::new(6, |i: int| folded_code(p, s, m[i]));
    Opened {
        first,
        first_tree: element_tree::<F, H>(first),
        second,
        second_tree: column_tree::<F, H>(second),
        third,
        third_tree: column_tree::<F, H>(third),
    }
}

/// All phases of an opening.
pub struct Opening {
    pub wide: Seq<int>,
    pub first: First,
    pub second: Second,
    pub third: Third,
    pub fourth: Fourth,
}

/// The phases up to the point at which everything is opened.
pub open spec fn opening<F: PrimeField, H: HashFunction>(
    p: int,
    ch: Oracle,
    s: Scheme,
    tx: Tx,
    rows: Seq<Seq<int>>,
    tree: Seq<Seq<Output>>,
    point: Seq<int>,
) -> Opening {
    let small = small_table(p, s, rows, point);
    let wide = repeated(small, two_to(s.bf_vars));
    let t = tx.commit(codeword_root::<F, H>(folded_code(p, s, wide)));
    let f = first_phase(p, ch, s, t, rows, tree, small);
    let g = second_phase::<F, H>(p, ch, s, f);
    let h = third_phase(p, ch, s, f, g);
    let k = fourth_phase(p, ch, s, point, wide, f, g, h);
    Opening { wide, first: f, second: g, third: h, fourth: k }
}

/// The transcript after an opening.
pub open spec fn open_tx<F: PrimeField, H: HashFunction>(
    p: int,
    ch: Oracle,
    s: Scheme,
    tx: Tx,
    rows: Seq<Seq<int>>,
    tree: Seq<Seq<Output>>,
    point: Seq<int>,
) -> Tx {
    let o = opening::<F, H>(p, ch, s, tx, rows, tree, point);
    let t = o.fourth.tx;
    open_batch::<F, H>(
        p,
        ch,
        s.xs,
        s.ws,
        t.squeeze_many(9),
        all_reversed(opened_tables(p, s, o.wide, o.second)),
        challenges(ch, t.hist, 9),
        o.fourth.point.reverse(),
        opened_of::<F, H>(p, s, o.wide, o.second),
        s.bf_queries,
    )
}

/// The matrix times the weights of its columns.
#[allow(non_snake_case)]
pub fn evaluate_H<F: PrimeField>(h: &ParityCheckMatrix<F>, u: &Vec<F>, size: usize) -> (r: Vec<F>)
    requires
        two_to(u@.len()) <= usize::MAX,
        h.col@.len() == h.row@.len(),
        h.val@.len() == h.row@.len(),
        forall|i: int| 0 <= i < h.row@.len() ==> #[trigger] h.row@[i] < size,
        forall|i: int| 0 <= i < h.row@.len() ==> #[trigger] h.col@[i] < two_to(u@.len()),
    ensures
        vals(r@) == matrix_at(F::modulus(), h.matrix(), tensor(F::modulus(), vals(u@)), size as nat),
        r@.len() == size,
{
    let ghost p = F::modulus();
    let ghost m = h.matrix();
    let ghost t = tensor(p, vals(u@));
    proof {
        F::lemma_modulus();
        assert(two_to(0) == 1);
        lemma_log2_two_to(0);
        assert(log2_of(1) == 0);
        assert(vals(u@).take(u@.len() as int) =~= vals(u@));
    }
    let weights = point_to_tensor(1, u).1;
    assert(vals(weights@).len() == two_to(u@.len()));
    let mut r: Vec<F> = repeat_element(F::zero(), size);
    let len = h.row.len();
    let mut i: usize = 0;
    proof {
        assert forall|k: int| 0 <= k < size implies #[trigger] r@[k].value() == sum_of(
            0,
            |j: int| weighed_entry(m, t, k, j),
        ) % p by {
            lemma_sum_step(0, |j: int| weighed_entry(m, t, k, j));
            lemma_mod_small(p, 0);
        }
    }
    while i < len
        invariant
            i <= len,
            len == h.row@.len(),
            h.col@.len() == len,
            h.val@.len() == len,
            p == F::modulus(),
            p > 0,
            m == h.matrix(),
            vals(weights@) == t,
            weights@.len() == two_to(u@.len()),
            r@.len() == size,
            forall|i: int| 0 <= i < h.row@.len() ==> #[trigger] h.row@[i] < size,
            forall|i: int| 0 <= i < h.row@.len() ==> #[trigger] h.col@[i] < two_to(u@.len()),
            forall|k: int|
                0 <= k < size ==> #[trigger] r@[k].value() == sum_of(
                    i as nat,
                    |j: int| weighed_entry(m, t, k, j),
                ) % p,
        decreases len - i,
    {
        let row = h.row[i];
        let col = h.col[i];
        let old_value = r[row];
        let x = old_value.add(h.val[i].mul(weights[col]));
        let ghost before = r@;
        r.set(row, x);
        proof {
            assert forall|k: int| 0 <= k < size implies #[trigger] r@[k].value() == sum_of(
                (i + 1) as nat,
                |j: int| weighed_entry(m, t, k, j),
            ) % p by {
                lemma_sum_step(i as nat, |j: int| weighed_entry(m, t, k, j));
                let s = sum_of(i as nat, |j: int| weighed_entry(m, t, k, j));
                assert(before[k].value() == s % p);
                assert(m.row[i as int] == row);
                assert(m.col[i as int] == col);
                assert(m.val[i as int] == h.val@[i as int].value());
                assert(t[col as int] == weights@[col as int].value());
                if k == row {
                    let e = m.val[i as int] * t[col as int];
                    crate::algebra::lemma_cong_mod(p, s);
                    crate::algebra::lemma_cong_mod(p, e);
                    crate::algebra::lemma_cong_add(p, s % p, s, e % p, e);
                }
            }
        }
        i += 1;
    }
    assert(vals(r@) =~= matrix_at(p, m, t, size as nat));
    r
}

/// The values of the basis polynomials of some indices.
pub fn compute_oracle_poly<F: PrimeField>(coeffs: &Vec<usize>, point: &Vec<F>) -> (r: Vec<F>)
    ensures
        vals(r@) == eq_values(F::modulus(), index_values(coeffs@), vals(point@)),
        r@.len() == coeffs@.len(),
{
    let ghost want = eq_values(F::modulus(), index_values(coeffs@), vals(point@));
    let mut r: Vec<F> = Vec::new();
    let mut i: usize = 0;
    while i < coeffs.len()
        invariant
            i <= coeffs@.len(),
            want == eq_values(F::modulus(), index_values(coeffs@), vals(point@)),
            r@.len() == i,
            forall|j: int| 0 <= j < i ==> (#[trigger] r@[j]).value() == want[j],
        decreases coeffs@.len() - i,
    {
        r.push(eq(coeffs[i], point));
        i += 1;
    }
    assert(vals(r@) =~= want);
    r
}

/// A vector, padded with its first entry to the length `n`.
fn padded_with_first<F: PrimeField>(v: &Vec<F>, n: usize) -> (r: Vec<F>)
    requires
        1 <= v@.len() <= n,
    ensures
        vals(r@) == padded_indices(vals(v@), n as nat),
        r@.len() == n,
{
    let ghost want = padded_indices(vals(v@), n as nat);
    let len = v.len();
    let mut r: Vec<F> = Vec::new();
    let mut i: usize = 0;
    while i < n
        invariant
            i <= n,
            len == v@.len(),
            1 <= len <= n,
            want == padded_indices(vals(v@), n as nat),
            r@.len() == i,
            forall|j: int| 0 <= j < i ==> (#[trigger] r@[j]).value() == want[j],
        decreases n - i,
    {
        let k: usize = if i < len { i } else { 0 };
        r.push(v[k]);
        i += 1;
    }
    assert(vals(r@) =~= want);
    r
}

/// The values of the basis polynomials of padded indices.
fn oracle_table<F: PrimeField>(coeffs: &Vec<usize>, point: &Vec<F>, n: usize) -> (r: Vec<F>)
    requires
        1 <= coeffs@.len() <= n,
    ensures
        vals(r@) == eq_values(
            F::modulus(),
            padded_indices(index_values(coeffs@), n as nat),
            vals(point@),
        ),
        r@.len() == n,
{
    let e = compute_oracle_poly(coeffs, point);
    let r = padded_with_first(&e, n);
    proof {
        let p = F::modulus();
        let idx = index_values(coeffs@);
        assert(padded_indices(eq_values(p, idx, vals(point@)), n as nat) =~= eq_values(
            p,
            padded_indices(idx, n as nat),
            vals(point@),
        ));
    }
    r
}

/// The levels of a tree below the root, over `two_to(depth)` leaves.
pub open spec fn levels_fit(tree: Seq<Seq<Output>>, depth: nat) -> bool {
    &&& tree.len() == depth
    &&& forall|k: int| 0 <= k < depth ==> (#[trigger] tree[k]).len() == two_to((depth - k) as nat)
}

/// Sends the siblings on the way from the leaf `q` to the root.
fn write_siblings<F: PrimeField, T: TranscriptWrite<F>>(
    tree: &Vec<Vec<Output>>,
    q: usize,
    transcript: &mut T,
)
    requires
        levels_fit(tree_view(tree@), tree@.len()),
        q < two_to(tree@.len()),
    ensures
        final(transcript).tx() == old(transcript).tx().commit_all(
            siblings(tree_view(tree@), q as int),
        ),
{
    let ghost path = siblings(tree_view(tree@), q as int);
    let ghost depth = tree@.len();
    let mut cur = q;
    let mut k: usize = 0;
    assert(path.take(0) =~= Seq::empty());
    while k < tree.len()
        invariant
            k <= tree@.len(),
            depth == tree@.len(),
            levels_fit(tree_view(tree@), depth),
            q < two_to(depth),
            path == siblings(tree_view(tree@), q as int),
            cur == ancestor(q as int, k as nat),
            transcript.tx() == old(transcript).tx().commit_all(path.take(k as int)),
        decreases tree@.len() - k,
    {
        proof {
            lemma_ancestor_bound(q as int, depth, k as nat);
            lemma_sibling_bound(cur as int, (depth - k) as nat);
            assert(tree_view(tree@)[k as int] == tree@[k as int]@);
            assert(tree_view(tree@)[k as int].len() == two_to((depth - k) as nat));
        }
        let level_len = tree[k].len();
        let other: usize = if cur % 2 == 0 { cur + 1 } else { cur - 1 };
        transcript.write_commitment(&tree[k][other]);
        proof {
            let next = path.take(k as int + 1);
            assert(next.drop_last() =~= path.take(k as int));
            assert(next.last() == path[k as int]);
        }
        cur = cur / 2;
        k += 1;
    }
    assert(path.take(depth as int) =~= path);
}

/// Draws indices, and sends for each the column and its path.
fn query_columns<F: PrimeField, T: TranscriptWrite<F>>(
    rows: &Vec<Vec<F>>,
    tree: &Vec<Vec<Output>>,
    codeword_len: usize,
    n: usize,
    transcript: &mut T,
) -> (r: Vec<usize>)
    requires
        codeword_len >= 1,
        codeword_len <= two_to(tree@.len()),
        levels_fit(tree_view(tree@), tree@.len()),
        forall|i: int| 0 <= i < rows@.len() ==> (#[trigger] rows@[i])@.len() == codeword_len,
    ensures
        send_columns(
            T::oracle(),
            old(transcript).tx(),
            vals2(rows@),
            tree_view(tree@),
            codeword_len as nat,
            n as nat,
        ) == (Columns { tx: final(transcript).tx(), indices: index_values(r@) }),
        r@.len() == n,
        forall|i: int| 0 <= i < n ==> #[trigger] r@[i] < codeword_len,
{
    let ghost ch = T::oracle();
    let ghost rs = vals2(rows@);
    let ghost tv = tree_view(tree@);
    let ghost start = transcript.tx();
    let mut r: Vec<usize> = Vec::new();
    let mut i: usize = 0;
    assert(index_values(r@) =~= Seq::empty());
    while i < n
        invariant
            i <= n,
            codeword_len >= 1,
            codeword_len <= two_to(tree@.len()),
            levels_fit(tree_view(tree@), tree@.len()),
            forall|i: int| 0 <= i < rows@.len() ==> (#[trigger] rows@[i])@.len() == codeword_len,
            ch == T::oracle(),
            rs == vals2(rows@),
            tv == tree_view(tree@),
            r@.len() == i,
            forall|k: int| 0 <= k < i ==> #[trigger] r@[k] < codeword_len,
            send_columns(ch, start, rs, tv, codeword_len as nat, i as nat) == (Columns {
                tx: transcript.tx(),
                indices: index_values(r@),
            }),
        decreases n - i,
    {
        let ghost before = index_values(r@);
        let q = squeeze_challenge_idx::<F, T>(transcript, codeword_len);
        let c = take_column(rows, q);
        write_field_elements(transcript, &c);
        write_siblings::<F, T>(tree, q, transcript);
        r.push(q);
        assert(index_values(r@) =~= before.push(q as int));
        i += 1;
    }
    r
}

/// The sum of the weights of each index.
fn build_mask<F: PrimeField>(size: usize, indices: &Vec<usize>, c: &Vec<F>) -> (r: Vec<F>)
    requires
        c@.len() == indices@.len(),
        forall|i: int| 0 <= i < indices@.len() ==> #[trigger] indices@[i] < size,
    ensures
        vals(r@) == mask_of(F::modulus(), size as nat, index_values(indices@), vals(c@)),
        r@.len() == size,
{
    let ghost p = F::modulus();
    let ghost idx = index_values(indices@);
    let ghost cs = vals(c@);
    let ghost term = |k: int, i: int|
        if idx[i] == k {
            cs[i]
        } else {
            0int
        };
    proof {
        F::lemma_modulus();
    }
    let mut r: Vec<F> = repeat_element(F::zero(), size);
    proof {
        assert forall|k: int| 0 <= k < size implies #[trigger] r@[k].value() == sum_of(
            0,
            |j: int| term(k, j),
        ) % p by {
            lemma_sum_step(0, |j: int| term(k, j));
            lemma_mod_small(p, 0);
        }
    }
    let n = indices.len();
    let mut i: usize = 0;
    while i < n
        invariant
            i <= n,
            n == indices@.len(),
            n == c@.len(),
            p == F::modulus(),
            p > 0,
            idx == index_values(indices@),
            cs == vals(c@),
            forall|k: int, i: int| #[trigger] term(k, i) == (if idx[i] == k { cs[i] } else { 0int }),
            r@.len() == size,
            forall|i: int| 0 <= i < indices@.len() ==> #[trigger] indices@[i] < size,
            forall|k: int|
                0 <= k < size ==> #[trigger] r@[k].value() == sum_of(
                    i as nat,
                    |j: int| term(k, j),
                ) % p,
        decreases n - i,
    {
        let q = indices[i];
        let x = r[q].add(c[i]);
        let ghost before = r@;
        r.set(q, x);
        proof {
            assert forall|k: int| 0 <= k < size implies #[trigger] r@[k].value() == sum_of(
                (i + 1) as nat,
                |j: int| term(k, j),
            ) % p by {
                lemma_sum_step(i as nat, |j: int| term(k, j));
                let s = sum_of(i as nat, |j: int| term(k, j));
                assert(before[k].value() == s % p);
                assert(idx[i as int] == q);
                if k == q {
                    crate::algebra::lemma_cong_mod(p, s);
                    crate::algebra::lemma_cong_add(p, s % p, s, cs[i as int], cs[i as int]);
                }
            }
        }
        i += 1;
    }
    proof {
        let want = mask_of(p, size as nat, idx, cs);
        assert forall|k: int| 0 <= k < size implies vals(r@)[k] == want[k] by {
            crate::sums::lemma_sum_ext(
                n as nat,
                |j: int| term(k, j),
                |j: int|
                    if idx[j] == k {
                        cs[j]
                    } else {
                        0
                    },
            );
            assert(r@[k].value() == sum_of(n as nat, |j: int| term(k, j)) % p);
        }
        assert(vals(r@) =~= want);
    }
    r
}

/// How the sizes of a scheme hang together.
pub proof fn lemma_scheme_sizes(s: Scheme)
    requires
        scheme_fits(s),
    ensures
        ({
            let lr = log2_of(s.row_len);
            &&& two_to(lr) == s.row_len
            &&& two_to(lr + 1) == 2 * s.row_len
            &&& log2_of(2 * s.row_len) == lr + 1
            &&& is_power_of_two(2 * s.row_len)
            &&& 4 * s.row_len <= usize::MAX
            &&& two_to(s.bf_vars) <= usize::MAX
            &&& two_to(s.bf_vars + s.log_rate) <= usize::MAX
            &&& log2_of(two_to(s.bf_vars)) == s.bf_vars
            &&& is_power_of_two(two_to(s.bf_vars))
            &&& s.bf_vars >= lr + 2
            &&& s.num_vars == log2_of(s.num_rows) + lr
            &&& log2_of(s.num_rows) >= 1
            &&& two_to(log2_of(s.num_rows)) == s.num_rows
            &&& s.codeword_len <= two_to(ceil_log2(s.codeword_len))
        }),
{
    let lr = log2_of(s.row_len);
    let nr = log2_of(s.num_rows);
    assert(two_to(lr + 1) == 2 * two_to(lr));
    assert(two_to(lr + 2) == 2 * two_to(lr + 1));
    lemma_log2_two_to(lr + 1);
    lemma_log2_two_to(s.bf_vars);
    lemma_two_to_monotone(s.bf_vars, s.bf_vars + s.log_rate);
    if s.bf_vars < lr + 2 {
        lemma_two_to_monotone(s.bf_vars + 1, lr + 2);
        assert(two_to(s.bf_vars + 1) == 2 * two_to(s.bf_vars));
        lemma_two_to_positive(s.bf_vars);
    }
    lemma_two_to_add(nr, lr);
    lemma_log2_two_to(nr + lr);
    lemma_log2_two_to(s.num_vars);
    lemma_ceil_log2(s.codeword_len);
    assert(two_to(0) == 1);
}

/// Sends the columns, and runs the sum-check for the columns and the parity checks.
#[verifier::rlimit(60)]
fn first_phase_prove<F: PrimeField, H: HashFunction, T: TranscriptWrite<F>>(
    pp: &BrakingbaseProverParams<F>,
    rows: &Vec<Vec<F>>,
    levels: &Vec<Vec<Output>>,
    small: &Vec<F>,
    transcript: &mut T,
) -> (r: (Vec<F>, Vec<F>))
    requires
        pp.wf::<H>(),
        rows@.len() == pp.brakedown_num_rows,
        forall|i: int|
            0 <= i < rows@.len() ==> (#[trigger] rows@[i])@.len() == pp.brakedown.codeword_len,
        levels_fit(
            tree_view(levels@),
            ceil_log2(pp.brakedown.codeword_len as nat),
        ),
        small@.len() == 2 * pp.brakedown.row_len,
    ensures
        first_phase(
            F::modulus(),
            T::oracle(),
            pp.scheme(),
            old(transcript).tx(),
            vals2(rows@),
            tree_view(levels@),
            vals(small@),
        ) == (First { tx: final(transcript).tx(), u: vals(r.0@), point: vals(r.1@) }),
        r.0@.len() == log2_of(pp.brakedown.row_len as nat),
        r.1@.len() == log2_of(pp.brakedown.row_len as nat) + 1,
{
    let ghost p = F::modulus();
    let ghost s = pp.scheme();
    let ghost m = s.matrix;
    let ghost lr = log2_of(s.row_len);
    proof {
        lemma_scheme_sizes(s);
    }
    let row_len = pp.brakedown.row_len();
    let codeword_len = pp.brakedown.codeword_len();
    let queries = pp.num_brakedown_queries;
    let col_idx = query_columns::<F, T>(
        rows,
        levels,
        codeword_len,
        queries,
        transcript,
    );
    let log_row = log2(row_len);
    let ghost t0 = transcript.tx();
    let u = squeeze_challenges::<F, T>(transcript, log_row);
    proof {
        crate::transcript::lemma_challenges_len(T::oracle(), t0.hist, lr);
        assert(vals(u@).len() == u@.len());
        assert forall|i: int| 0 <= i < pp.parity_check_matrix.row@.len() implies #[trigger] pp.parity_check_matrix.row@[i]
            < 2 * row_len by {
            assert(m.row[i] == pp.parity_check_matrix.row@[i]);
        }
        assert forall|i: int| 0 <= i < pp.parity_check_matrix.row@.len() implies #[trigger] pp.parity_check_matrix.col@[i]
            < row_len by {
            assert(m.row[i] == pp.parity_check_matrix.row@[i]);
            assert(m.col[i] == pp.parity_check_matrix.col@[i]);
        }
        assert(m.row.len() == pp.parity_check_matrix.row@.len());
        assert(m.col.len() == pp.parity_check_matrix.col@.len());
        assert(m.val.len() == pp.parity_check_matrix.val@.len());
    }
    let h = evaluate_H(&pp.parity_check_matrix, &u, 2 * row_len);
    let low = sub_vector(small, 0, row_len);
    let high = sub_vector(small, row_len, 2 * row_len);
    proof {
        assert(vals(low@) =~= vals(small@).take(row_len as int));
        assert(vals(high@) =~= vals(small@).skip(row_len as int));
    }
    let p_prime_at_u = evaluate_poly(&high, &u);
    transcript.write_field_element(&p_prime_at_u);
    let ghost t1 = transcript.tx();
    let weights = squeeze_challenges::<F, T>(transcript, queries);
    proof {
        crate::transcript::lemma_challenges_len(T::oracle(), t1.hist, queries as nat);
        assert(vals(weights@).len() == weights@.len());
    }
    let mask = build_mask(2 * row_len, &col_idx, &weights);
    let ghost t2 = transcript.tx();
    let random_combiners = squeeze_challenges::<F, T>(transcript, 2);
    proof {
        crate::transcript::lemma_challenges_len(T::oracle(), t2.hist, 2);
        assert(vals(random_combiners@).len() == random_combiners@.len());
        assert(vals(random_combiners@)[0] == random_combiners@[0].value());
        assert(vals(random_combiners@)[1] == random_combiners@[1].value());
    }
    let rounds = log_row + 1;
    let mut point = repeat_element(F::zero(), rounds);
    first_sum_check_prover(
        rounds,
        copy_elements(small),
        mask,
        h,
        random_combiners,
        &mut point,
        transcript,
    );
    proof {
        assert(vals(point@).take(rounds as int) =~= vals(point@));
        assert(two_to(1) == 2 * two_to(0));
        assert(two_to(0) == 1);
    }
    let p_eval = partial_evaluate_poly(&low, &point, 1);
    let p_prime_eval = partial_evaluate_poly(&high, &point, 1);
    let mut evals: Vec<F> = Vec::new();
    evals.push(p_eval);
    evals.push(p_prime_eval);
    write_field_elements(transcript, &evals);
    proof {
        assert(vals(evals@) =~= seq![p_eval.value(), p_prime_eval.value()]);
    }
    (u, point)
}

/// What the prover keeps of the second phase.
struct SecondData<F: PrimeField> {
    erow: Vec<F>,
    ecol: Vec<F>,
    val: Vec<F>,
    point: Vec<F>,
    commit: BasefoldBatchCommitment<F>,
}

/// Commits to the values that the matrix reads, and runs the sum-check for its value.
fn second_phase_prove<F: PrimeField, H: HashFunction, T: TranscriptWrite<F>>(
    pp: &BrakingbaseProverParams<F>,
    point: &Vec<F>,
    padded_u: &Vec<F>,
    transcript: &mut T,
    Ghost(f): Ghost<First>,
) -> (r: SecondData<F>)
    requires
        pp.wf::<H>(),
        f.tx == old(transcript).tx(),
        f.point == vals(point@),
        seq![0] + f.u == vals(padded_u@),
    ensures
        second_phase::<F, H>(F::modulus(), T::oracle(), pp.scheme(), f) == (Second {
            tx: final(transcript).tx(),
            erow: vals(r.erow@),
            ecol: vals(r.ecol@),
            point: vals(r.point@),
        }),
        r.erow@.len() == pp.basefold_poly_size,
        r.ecol@.len() == pp.basefold_poly_size,
        r.val@.len() == pp.basefold_poly_size,
        vals(r.val@) == padded_values(pp.scheme().matrix.val, pp.basefold_poly_size as nat),
        r.point@.len() == pp.basefold.num_vars,
        commits_to::<F, H>(
            r.commit,
            pp.scheme().table,
            pp.scheme().log_rate,
            seq![vals(r.erow@), vals(r.ecol@)],
        ),
{
    let ghost p = F::modulus();
    let ghost s = pp.scheme();
    let ghost m = s.matrix;
    let n = pp.basefold_poly_size;
    proof {
        lemma_scheme_sizes(s);
        assert(m.row.len() == pp.parity_check_matrix.row@.len());
        assert(m.col.len() == pp.parity_check_matrix.col@.len());
        assert(m.val.len() == pp.parity_check_matrix.val@.len());
    }
    let erow = oracle_table(&pp.parity_check_matrix.row, point, n);
    let ecol = oracle_table(&pp.parity_check_matrix.col, padded_u, n);
    let val = padded_with_zeros(&pp.parity_check_matrix.val, n);
    let mut polys: Vec<Vec<F>> = Vec::new();
    polys.push(copy_elements(&erow));
    polys.push(copy_elements(&ecol));
    let ghost before = polys@;
    let commit = basefold_batch_commit::<F, H>(&pp.basefold, &mut polys);
    let ghost want = seq![vals(erow@), vals(ecol@)];
    let ghost levels = s.bf_vars + s.log_rate;
    proof {
        assert(before[0]@ == erow@ && before[1]@ == ecol@);
        lemma_vals_bit_reversed(erow@);
        lemma_vals_bit_reversed(ecol@);
        assert forall|i: int| 0 <= i < 2 implies vals((#[trigger] commit.codewords@[i]).poly@)
            == folded_code(p, s, want[i]) by {
            assert(i == 0 || i == 1);
        }
        assert(poly_values(commit.bh_evals@) =~= want) by {
            assert(commit.bh_evals@[0].poly@ == before[0]@);
            assert(commit.bh_evals@[1].poly@ == before[1]@);
        }
        assert(poly_values(commit.codewords@) =~= seq![
            folded_code(p, s, want[0]),
            folded_code(p, s, want[1]),
        ]) by {
            assert(vals(commit.codewords@[0].poly@) == folded_code(p, s, want[0]));
            assert(vals(commit.codewords@[1].poly@) == folded_code(p, s, want[1]));
        }
        lemma_encode_len(p, s.table, s.log_rate, bit_reversed(want[0]), s.bf_vars);
        assert(s.log_rate + s.bf_vars == levels);
        lemma_column_tree_shape::<F, H>(poly_values(commit.codewords@), levels);
        assert(two_to(0) == 1);
        assert(tree_view(commit.codeword_tree@).last()
            == commit.codeword_tree@[commit.codeword_tree@.len() - 1]@);
    }
    let last = commit.codeword_tree.len() - 1;
    transcript.write_commitment(&commit.codeword_tree[last][0]);
    let rounds = log2(n);
    let mut second_point = repeat_element(F::zero(), rounds);
    second_sum_check_prover(
        rounds,
        copy_elements(&erow),
        copy_elements(&ecol),
        copy_elements(&val),
        &mut second_point,
        transcript,
    );
    proof {
        assert(vals(second_point@).take(rounds as int) =~= vals(second_point@));
    }
    SecondData { erow, ecol, val, point: second_point, commit }
}

/// What the prover keeps of the third phase.
struct ThirdData<F: PrimeField> {
    row: Vec<F>,
    col: Vec<F>,
    read_row: Vec<F>,
    read_col: Vec<F>,
    times: Vec<F>,
    point1: Vec<F>,
    point2: Vec<F>,
}

/// The indices of the matrix lie in the tables that they read.
pub proof fn lemma_indices_fit(s: Scheme)
    requires
        scheme_fits(s),
    ensures
        ({
            let n = two_to(s.bf_vars);
            &&& forall|i: int|
                0 <= i < n ==> 0 <= #[trigger] padded_indices(s.matrix.row, n)[i] < 2 * s.row_len
            &&& forall|i: int|
                0 <= i < n ==> 0 <= #[trigger] padded_indices(s.matrix.col, n)[i] < 2 * s.row_len
        }),
{
    let n = two_to(s.bf_vars);
    let m = s.matrix;
    assert forall|i: int| 0 <= i < n implies 0 <= #[trigger] padded_indices(m.row, n)[i] < 2 * s.row_len by {
        let k: int = if i < m.row.len() { i } else { 0 };
        assert(padded_indices(m.row, n)[i] == m.row[k]);
    }
    assert forall|i: int| 0 <= i < n implies 0 <= #[trigger] padded_indices(m.col, n)[i] < 2 * s.row_len by {
        let k: int = if i < m.row.len() { i } else { 0 };
        assert(padded_indices(m.col, n)[i] == m.col[k]);
        assert(0 <= m.row[k]);
    }
}

/// The leaves of the memory checks are reduced, and fill their circuits.
pub proof fn lemma_leaves_fit(p: int, s: Scheme, f: First, g: Second, gt: Seq<int>)
    requires
        p > 0,
        scheme_fits(s),
    ensures
        circuits_multiply(
            p,
            circuits_over(p, table_leaves_of(p, s, f, gt), log2_of(s.row_len) + 1),
            log2_of(s.row_len) + 1,
        ),
        circuits_multiply(p, circuits_over(p, access_leaves_of(p, s, g, gt), s.bf_vars), s.bf_vars),
{
    lemma_scheme_sizes(s);
    let a = table_leaves_of(p, s, f, gt);
    let b = access_leaves_of(p, s, g, gt);
    assert forall|c: int| 0 <= c < a.len() implies (#[trigger] a[c]).len() == 2 * s.row_len && canonical(
        p,
        a[c],
    ) by {
        assert(c == 0 || c == 1 || c == 2 || c == 3);
        assert forall|i: int| 0 <= i < a[c].len() implies 0 <= #[trigger] a[c][i] < p by {
            let er = basis(p, f.point);
            let ec = basis(p, seq![0] + f.u);
            let e = if c < 2 { er } else { ec };
            let ts = if c < 2 { times_left(p, s, s.matrix.row) } else { times_left(p, s, s.matrix.col) };
            lemma_mod_canonical(p, i + gt[0] * e[i] - gt[1]);
            lemma_mod_canonical(p, crate::memory::fingerprint(gt[0], gt[1], i, e[i], ts[i]));
        }
    }
    lemma_circuits_multiply(p, a, log2_of(s.row_len) + 1);
    let n = two_to(s.bf_vars);
    let rows = padded_indices(s.matrix.row, n);
    let cols = padded_indices(s.matrix.col, n);
    assert forall|c: int| 0 <= c < b.len() implies (#[trigger] b[c]).len() == n && canonical(p, b[c]) by {
        assert(c == 0 || c == 1 || c == 2 || c == 3);
        assert forall|i: int| 0 <= i < b[c].len() implies 0 <= #[trigger] b[c][i] < p by {
            let x = if c < 2 {
                crate::memory::fingerprint(gt[0], gt[1], rows[i], g.erow[i], read_times(p, rows)[i])
            } else {
                crate::memory::fingerprint(gt[0], gt[1], cols[i], g.ecol[i], read_times(p, cols)[i])
            };
            lemma_mod_canonical(p, x);
            lemma_mod_canonical(p, x + gt[0] * gt[0]);
        }
    }
    lemma_circuits_multiply(p, b, s.bf_vars);
}

/// A vector of one vector.
fn single<F: PrimeField>(v: &Vec<F>) -> (r: Vec<Vec<F>>)
    ensures
        r@.len() == 1,
        r@[0]@ == v@,
{
    let mut r: Vec<Vec<F>> = Vec::new();
    r.push(copy_elements(v));
    r
}

/// The only item of a vector.
fn take_only<F: PrimeField>(v: Vec<Vec<Vec<F>>>) -> (r: Vec<Vec<F>>)
    requires
        v@.len() == 1,
    ensures
        vals2(r@) == vals2(v@[0]@),
        r@.len() == v@[0]@.len(),
{
    copy_vectors(&v[0])
}

/// The four circuits of the reads of one table.
struct TableCircuits<F: PrimeField> {
    init: Vec<Vec<F>>,
    writes: Vec<Vec<F>>,
    finals: Vec<Vec<F>>,
    reads: Vec<Vec<F>>,
}

/// Builds the circuits for the reads of the table of basis polynomials at `point`.
fn table_circuits<F: PrimeField>(
    len1: usize,
    len2: usize,
    indices: &Vec<F>,
    values: &Vec<F>,
    read_ts: &Vec<F>,
    final_ts: &Vec<F>,
    point: &Vec<F>,
    gamma_tau: &Vec<F>,
) -> (r: TableCircuits<F>)
    requires
        point@.len() >= 1,
        len1 == two_to(point@.len()),
        len2 >= 1,
        is_power_of_two(len2 as nat),
        gamma_tau@.len() == 2,
        indices@.len() == len2,
        values@.len() == len2,
        read_ts@.len() == len2,
        final_ts@.len() == len1,
        forall|i: int| 0 <= i < len2 ==> 0 <= #[trigger] vals(indices@)[i] < len1,
        vals(values@) == eq_values(F::modulus(), vals(indices@), vals(point@)),
        vals(read_ts@) == read_times(F::modulus(), vals(indices@)),
        vals(final_ts@) == final_times(F::modulus(), vals(indices@), len1 as nat),
    ensures
        is_circuits_of(
            F::modulus(),
            gamma_tau@[0].value(),
            gamma_tau@[1].value(),
            basis(F::modulus(), vals(point@)),
            vals(indices@),
            vals(values@),
            vals(read_ts@),
            vals(final_ts@),
            len1 as nat,
            len2 as nat,
            vals2(r.init@),
            vals2(r.writes@),
            vals2(r.finals@),
            vals2(r.reads@),
        ),
{
    let ghost p = F::modulus();
    proof {
        F::lemma_modulus();
        lemma_log2_two_to(point@.len());
        assert(two_to(0) == 1);
        assert(log2_of(1) == 0);
        assert(vals(point@).take(point@.len() as int) =~= vals(point@));
    }
    let eq_data = point_to_tensor(1, point).1;
    let h = single(indices);
    let e = single(values);
    let rt = single(read_ts);
    let ft = single(final_ts);
    proof {
        assert(vals(eq_data@) == basis(p, vals(point@)));
        assert(vals(eq_data@).len() == eq_data@.len());
        let table = vals(eq_data@);
        assert forall|i: int| 0 <= i < len2 implies 0 <= #[trigger] vals(indices@)[i] < len1 && vals(
            values@,
        )[i] == table[vals(indices@)[i]] by {}
        law_accesses_balance(
            p,
            gamma_tau@[0].value(),
            gamma_tau@[1].value(),
            table,
            vals(indices@),
            vals(values@),
            len1 as nat,
        );
        assert(access_fits(h@, e@, rt@, ft@, len1 as nat, len2 as nat, 0));
    }
    let (init, writes, finals, reads) = grand_product_circuits(
        len1,
        len2,
        &h,
        &e,
        &rt,
        &ft,
        &eq_data,
        gamma_tau,
    );
    assert(h@[0]@ == indices@);
    let c0 = take_only(init);
    let c1 = take_only(writes);
    let c2 = take_only(finals);
    let c3 = take_only(reads);
    TableCircuits { init: c0, writes: c1, finals: c2, reads: c3 }
}

/// The trusted polynomials, as the prover holds them.
proof fn lemma_trusted<F: PrimeField, H: HashFunction>(pp: BrakingbaseProverParams<F>)
    requires
        pp.wf::<H>(),
    ensures
        ({
            let s = pp.scheme();
            let m = matrix_polys(F::modulus(), s.matrix, s.row_len, two_to(s.bf_vars));
            &&& pp.trusted_commit.bh_evals@.len() == 6
            &&& forall|i: int| 0 <= i < 6 ==> vals((#[trigger] pp.trusted_commit.bh_evals@[i]).poly@) == m[i]
            &&& forall|i: int| 0 <= i < 6 ==> (#[trigger] m[i]).len() == two_to(s.bf_vars)
            &&& m[5].take(2 * s.row_len as int) == times_left(F::modulus(), s, s.matrix.row)
            &&& m[5].subrange(2 * s.row_len as int, 4 * s.row_len as int) == times_left(
                F::modulus(),
                s,
                s.matrix.col,
            )
        }),
{
    let s = pp.scheme();
    let p = F::modulus();
    let n = two_to(s.bf_vars);
    let m = matrix_polys(p, s.matrix, s.row_len, n);
    let b = pp.trusted_commit.bh_evals@;
    assert forall|i: int| 0 <= i < 6 implies vals((#[trigger] b[i]).poly@) == m[i] by {
        assert(poly_values(b)[i] == m[i]);
    }
    assert forall|i: int| 0 <= i < 6 implies (#[trigger] m[i]).len() == n by {
        assert(i == 0 || i == 1 || i == 2 || i == 3 || i == 4 || i == 5);
    }
    let fr = times_left(p, s, s.matrix.row);
    let fc = times_left(p, s, s.matrix.col);
    let both = fr + fc;
    assert(both.len() == 4 * s.row_len);
    assert forall|i: int| 0 <= i < 4 * s.row_len implies #[trigger] m[5][i] == both[i] by {
        lemma_mod_small(both.len() as int, i);
    }
    assert(m[5].take(2 * s.row_len as int) =~= fr);
    assert(m[5].subrange(2 * s.row_len as int, 4 * s.row_len as int) =~= fc);
}

/// Two values as a vector.
fn pair_of<F: PrimeField>(a: F, b: F) -> (r: Vec<F>)
    ensures
        vals(r@) == seq![a.value(), b.value()],
{
    let mut r: Vec<F> = Vec::new();
    r.push(a);
    r.push(b);
    assert(vals(r@) =~= seq![a.value(), b.value()]);
    r
}

/// Four circuits as the prover of the grand products takes them.
fn prove_four<F: PrimeField, T: TranscriptWrite<F>>(
    a: &Vec<Vec<F>>,
    b: &Vec<Vec<F>>,
    c: &Vec<Vec<F>>,
    d: &Vec<Vec<F>>,
    transcript: &mut T,
    Ghost(cs): Ghost<Seq<Seq<Seq<int>>>>,
    Ghost(depth): Ghost<nat>,
) -> (r: Vec<F>)
    requires
        cs == seq![vals2(a@), vals2(b@), vals2(c@), vals2(d@)],
        circuits_multiply(F::modulus(), cs, depth),
    ensures
        ({
            let g = gkr_prove(F::modulus(), T::oracle(), old(transcript).tx(), cs);
            &&& final(transcript).tx() == g.tx
            &&& vals(r@) == g.point
            &&& r@.len() == depth
        }),
{
    let mut v: Vec<&Vec<Vec<F>>> = Vec::new();
    v.push(a);
    v.push(b);
    v.push(c);
    v.push(d);
    proof {
        F::lemma_modulus();
        T::lemma_oracle();
        assert(Seq::new(v@.len(), |i: int| vals2(v@[i]@)) =~= cs);
        assert(cs[0].len() == depth + 1);
        assert(v@[0]@.len() == vals2(a@).len());
    }
    let r = gkr_prover::<F, T>(&v, transcript);
    proof {
        lemma_gkr_extends(
            F::modulus(),
            T::oracle(),
            old(transcript).tx(),
            cs,
            depth,
            (depth - 1) as nat,
        );
        assert(vals(r@).len() == r@.len());
    }
    r
}

/// What is read, as the prover holds it: where, when, and how often in the end.
struct AccessData<F: PrimeField> {
    row: Vec<F>,
    col: Vec<F>,
    read_row: Vec<F>,
    read_col: Vec<F>,
    times: Vec<F>,
    final_row: Vec<F>,
    final_col: Vec<F>,
}

/// The tables that describe the reads.
fn access_data<F: PrimeField, H: HashFunction>(pp: &BrakingbaseProverParams<F>) -> (r: AccessData<F>)
    requires
        pp.wf::<H>(),
    ensures
        ({
            let p = F::modulus();
            let s = pp.scheme();
            let m = matrix_polys(p, s.matrix, s.row_len, two_to(s.bf_vars));
            &&& vals(r.row@) == m[1]
            &&& vals(r.col@) == m[2]
            &&& vals(r.read_row@) == m[3]
            &&& vals(r.read_col@) == m[4]
            &&& vals(r.times@) == m[5]
            &&& vals(r.final_row@) == times_left(p, s, s.matrix.row)
            &&& vals(r.final_col@) == times_left(p, s, s.matrix.col)
        }),
        r.row@.len() == pp.basefold_poly_size,
        r.col@.len() == pp.basefold_poly_size,
        r.read_row@.len() == pp.basefold_poly_size,
        r.read_col@.len() == pp.basefold_poly_size,
        r.times@.len() == pp.basefold_poly_size,
        r.final_row@.len() == 2 * pp.brakedown.row_len,
        r.final_col@.len() == 2 * pp.brakedown.row_len,
{
    let ghost p = F::modulus();
    let ghost s = pp.scheme();
    let ghost m = matrix_polys(p, s.matrix, s.row_len, two_to(s.bf_vars));
    let n = pp.basefold_poly_size;
    proof {
        F::lemma_modulus();
        lemma_scheme_sizes(s);
        lemma_trusted::<F, H>(*pp);
        lemma_indices_fit(s);
        assert(s.matrix.row.len() == pp.parity_check_matrix.row@.len());
        assert(s.matrix.col.len() == pp.parity_check_matrix.col@.len());
        assert forall|i: int| 0 <= i < pp.parity_check_matrix.row@.len() implies #[trigger] pp.parity_check_matrix.row@[i]
            < 0x1_0000_0000 by {
            assert(s.matrix.row[i] == pp.parity_check_matrix.row@[i]);
        }
        assert forall|i: int| 0 <= i < pp.parity_check_matrix.col@.len() implies #[trigger] pp.parity_check_matrix.col@[i]
            < 0x1_0000_0000 by {
            assert(s.matrix.row[i] == pp.parity_check_matrix.row@[i]);
            assert(s.matrix.col[i] == pp.parity_check_matrix.col@[i]);
        }
    }
    let width = 2 * pp.brakedown.row_len();
    let row: Vec<F> = padded_elements(&pp.parity_check_matrix.row, n);
    let col: Vec<F> = padded_elements(&pp.parity_check_matrix.col, n);
    let read_row = copy_elements(&pp.trusted_commit.bh_evals[3].poly);
    let read_col = copy_elements(&pp.trusted_commit.bh_evals[4].poly);
    let times = copy_elements(&pp.trusted_commit.bh_evals[5].poly);
    proof {
        assert(vals(read_row@) == m[3]);
        assert(vals(read_col@) == m[4]);
        assert(vals(times@) == m[5]);
        assert(vals(read_row@).len() == read_row@.len());
        assert(vals(read_col@).len() == read_col@.len());
        assert(vals(times@).len() == times@.len());
    }
    let final_row = sub_vector(&times, 0, width);
    let final_col = sub_vector(&times, width, 2 * width);
    proof {
        assert(vals(final_row@) =~= m[5].take(width as int));
        assert(vals(final_col@) =~= m[5].subrange(width as int, 2 * width as int));
    }
    AccessData { row, col, read_row, read_col, times, final_row, final_col }
}


/// Proves that the values were read from the tables of the basis polynomials.
#[verifier::rlimit(60)]
fn third_phase_prove<F: PrimeField, H: HashFunction, T: TranscriptWrite<F>>(
    pp: &BrakingbaseProverParams<F>,
    point: &Vec<F>,
    padded_u: &Vec<F>,
    erow: &Vec<F>,
    ecol: &Vec<F>,
    transcript: &mut T,
    Ghost(f): Ghost<First>,
    Ghost(g): Ghost<Second>,
) -> (r: ThirdData<F>)
    requires
        pp.wf::<H>(),
        f.point == vals(point@),
        seq![0] + f.u == vals(padded_u@),
        point@.len() == log2_of(pp.brakedown.row_len as nat) + 1,
        padded_u@.len() == log2_of(pp.brakedown.row_len as nat) + 1,
        g.tx == old(transcript).tx(),
        g.erow == vals(erow@),
        g.ecol == vals(ecol@),
        g.erow == eq_values(
            F::modulus(),
            padded_indices(pp.scheme().matrix.row, pp.basefold_poly_size as nat),
            f.point,
        ),
        g.ecol == eq_values(
            F::modulus(),
            padded_indices(pp.scheme().matrix.col, pp.basefold_poly_size as nat),
            seq![0] + f.u,
        ),
    ensures
        third_phase(F::modulus(), T::oracle(), pp.scheme(), f, g) == (Third {
            tx: final(transcript).tx(),
            point1: vals(r.point1@),
            point2: vals(r.point2@),
        }),
        r.point1@.len() == log2_of(pp.brakedown.row_len as nat) + 1,
        r.point2@.len() == pp.basefold.num_vars,
        ({
            let m = matrix_polys(
                F::modulus(),
                pp.scheme().matrix,
                pp.scheme().row_len,
                pp.basefold_poly_size as nat,
            );
            &&& vals(r.row@) == m[1]
            &&& vals(r.col@) == m[2]
            &&& vals(r.read_row@) == m[3]
            &&& vals(r.read_col@) == m[4]
            &&& vals(r.times@) == m[5]
        }),
        r.row@.len() == pp.basefold_poly_size,
        r.col@.len() == pp.basefold_poly_size,
        r.read_row@.len() == pp.basefold_poly_size,
        r.read_col@.len() == pp.basefold_poly_size,
        r.times@.len() == pp.basefold_poly_size,
{
    let ghost p = F::modulus();
    let ghost s = pp.scheme();
    let n = pp.basefold_poly_size;
    let width = 2 * pp.brakedown.row_len();
    let d = access_data::<F, H>(pp);
    let ghost t0 = transcript.tx();
    let gamma_tau = squeeze_challenges::<F, T>(transcript, 2);
    let ghost gt = vals(gamma_tau@);
    proof {
        F::lemma_modulus();
        lemma_scheme_sizes(s);
        lemma_indices_fit(s);
        crate::transcript::lemma_challenges_len(T::oracle(), t0.hist, 2);
        assert(gt.len() == gamma_tau@.len());
        assert(vals(erow@).len() == erow@.len());
        assert(vals(ecol@).len() == ecol@.len());
    }
    let rc = table_circuits(width, n, &d.row, erow, &d.read_row, &d.final_row, point, &gamma_tau);
    let cc = table_circuits(width, n, &d.col, ecol, &d.read_col, &d.final_col, padded_u, &gamma_tau);
    let ghost depth = log2_of(s.row_len) + 1;
    let ghost cs1 = circuits_over(p, table_leaves_of(p, s, f, gt), depth);
    let ghost cs2 = circuits_over(p, access_leaves_of(p, s, g, gt), s.bf_vars);
    proof {
        lemma_leaves_fit(p, s, f, g, gt);
        assert(cs1 =~= seq![vals2(rc.init@), vals2(rc.finals@), vals2(cc.init@), vals2(cc.finals@)]);
        assert(cs2 =~= seq![vals2(rc.writes@), vals2(rc.reads@), vals2(cc.writes@), vals2(cc.reads@)]);
    }
    let point1 = prove_four::<F, T>(
        &rc.init,
        &rc.finals,
        &cc.init,
        &cc.finals,
        transcript,
        Ghost(cs1),
        Ghost(depth),
    );
    let fr = evaluate_poly(&d.final_row, &point1);
    let fc = evaluate_poly(&d.final_col, &point1);
    write_field_elements(transcript, &pair_of(fr, fc));
    let point2 = prove_four::<F, T>(
        &rc.writes,
        &rc.reads,
        &cc.writes,
        &cc.reads,
        transcript,
        Ghost(cs2),
        Ghost(s.bf_vars),
    );
    let mut evals: Vec<F> = Vec::new();
    evals.push(evaluate_poly(&d.row, &point2));
    evals.push(evaluate_poly(&d.col, &point2));
    evals.push(evaluate_poly(&d.read_row, &point2));
    evals.push(evaluate_poly(&d.read_col, &point2));
    evals.push(evaluate_poly(erow, &point2));
    evals.push(evaluate_poly(ecol, &point2));
    proof {
        let b = vals(point2@);
        let m = matrix_polys(p, s.matrix, s.row_len, two_to(s.bf_vars));
        assert(vals(evals@) =~= seq![
            mle(p, m[1], b),
            mle(p, m[2], b),
            mle(p, m[3], b),
            mle(p, m[4], b),
            mle(p, g.erow, b),
            mle(p, g.ecol, b),
        ]);
    }
    write_field_elements(transcript, &evals);
    ThirdData {
        row: d.row,
        col: d.col,
        read_row: d.read_row,
        read_col: d.read_col,
        times: d.times,
        point1,
        point2,
    }
}

/// A point with zeros in front, up to `n` coordinates.
pub fn leading_zeros<F: PrimeField>(n: usize, y: &Vec<F>) -> (r: Vec<F>)
    requires
        y@.len() <= n,
    ensures
        vals(r@) == leading(n as nat, vals(y@)),
        r@.len() == n,
{
    let zeros = repeat_element(F::zero(), n - y.len());
    let r = joined(&zeros, y);
    assert(vals(r@) =~= leading(n as nat, vals(y@)));
    r
}

/// A vector with one more element in front.
pub fn with_front<F: PrimeField>(x: F, y: &Vec<F>) -> (r: Vec<F>)
    ensures
        vals(r@) == seq![x.value()] + vals(y@),
        r@.len() == y@.len() + 1,
{
    let mut front: Vec<F> = Vec::new();
    front.push(x);
    let r = joined(&front, y);
    assert(vals(r@) =~= seq![x.value()] + vals(y@));
    r
}

/// The table of the basis polynomials at a point.
pub(crate) fn basis_table<F: PrimeField>(point: &Vec<F>) -> (r: Vec<F>)
    requires
        point@.len() >= 1,
        two_to(point@.len()) <= usize::MAX,
    ensures
        vals(r@) == basis(F::modulus(), vals(point@)),
        r@.len() == two_to(point@.len()),
{
    proof {
        assert(two_to(0) == 1);
        assert(log2_of(1) == 0);
        assert(vals(point@).take(point@.len() as int) =~= vals(point@));
    }
    let r = point_to_tensor(1, point).1;
    assert(vals(r@).len() == r@.len());
    r
}

/// The weighed sum of some tables.
pub(crate) fn weighed<F: PrimeField>(c: &Vec<F>, from: usize, to: usize, vs: &Vec<Vec<F>>, n: usize) -> (r: Vec<F>)
    requires
        from <= to <= c@.len(),
        vs@.len() == to - from,
        forall|i: int| 0 <= i < vs@.len() ==> (#[trigger] vs@[i])@.len() == n,
    ensures
        vals(r@) == combine(
            F::modulus(),
            vals(c@).subrange(from as int, to as int),
            vals2(vs@),
            n as nat,
        ),
        r@.len() == n,
{
    let rc = sub_vector(c, from, to);
    assert(vals(rc@) =~= vals(c@).subrange(from as int, to as int));
    let r = combine_vectors(&rc, vs, n);
    assert(vals(r@).len() == r@.len());
    r
}

/// Turns all claims into claims at one point.
#[verifier::rlimit(60)]
fn fourth_phase_prove<F: PrimeField, H: HashFunction, T: TranscriptWrite<F>>(
    pp: &BrakingbaseProverParams<F>,
    point: &Vec<F>,
    wide: &Vec<F>,
    u: &Vec<F>,
    first_point: &Vec<F>,
    second: &SecondData<F>,
    third: &ThirdData<F>,
    transcript: &mut T,
    Ghost(f): Ghost<First>,
    Ghost(g): Ghost<Second>,
    Ghost(h): Ghost<Third>,
) -> (r: Vec<F>)
    requires
        pp.wf::<H>(),
        point@.len() == pp.num_vars,
        wide@.len() == pp.basefold_poly_size,
        f.u == vals(u@),
        f.point == vals(first_point@),
        u@.len() == log2_of(pp.brakedown.row_len as nat),
        first_point@.len() == u@.len() + 1,
        g.erow == vals(second.erow@),
        g.ecol == vals(second.ecol@),
        g.point == vals(second.point@),
        second.erow@.len() == pp.basefold_poly_size,
        second.ecol@.len() == pp.basefold_poly_size,
        second.val@.len() == pp.basefold_poly_size,
        vals(second.val@) == padded_values(pp.scheme().matrix.val, pp.basefold_poly_size as nat),
        second.point@.len() == pp.basefold.num_vars,
        h.tx == old(transcript).tx(),
        h.point1 == vals(third.point1@),
        h.point2 == vals(third.point2@),
        third.point1@.len() == u@.len() + 1,
        third.point2@.len() == pp.basefold.num_vars,
        ({
            let m = matrix_polys(
                F::modulus(),
                pp.scheme().matrix,
                pp.scheme().row_len,
                pp.basefold_poly_size as nat,
            );
            &&& vals(third.row@) == m[1]
            &&& vals(third.col@) == m[2]
            &&& vals(third.read_row@) == m[3]
            &&& vals(third.read_col@) == m[4]
            &&& vals(third.times@) == m[5]
        }),
        third.row@.len() == pp.basefold_poly_size,
        third.col@.len() == pp.basefold_poly_size,
        third.read_row@.len() == pp.basefold_poly_size,
        third.read_col@.len() == pp.basefold_poly_size,
        third.times@.len() == pp.basefold_poly_size,
    ensures
        fourth_phase(
            F::modulus(),
            T::oracle(),
            pp.scheme(),
            vals(point@),
            vals(wide@),
            f,
            g,
            h,
        ) == (Fourth { tx: final(transcript).tx(), point: vals(r@) }),
        r@.len() == pp.basefold.num_vars,
{
    let ghost p = F::modulus();
    let ghost s = pp.scheme();
    let ghost m = matrix_polys(p, s.matrix, s.row_len, two_to(s.bf_vars));
    let n = pp.basefold_poly_size;
    let vars = pp.basefold.num_vars;
    proof {
        F::lemma_modulus();
        lemma_scheme_sizes(s);
    }
    let skip = log2(pp.brakedown_num_rows);
    let tail = sub_vector(point, skip, point.len());
    assert(vals(tail@) =~= vals(point@).skip(skip as int));
    let point_f = leading_zeros(vars, first_point);
    let point_u = leading_zeros(vars, &with_front(F::one(), u));
    let point_x = leading_zeros(vars, &tail);
    let at_u = evaluate_poly(wide, &point_u);
    let at_x = evaluate_poly(wide, &point_x);
    write_field_elements(transcript, &pair_of(at_u, at_x));
    let ghost t1 = transcript.tx();
    let r = transcript.squeeze_challenge();
    let point_t = leading_zeros(vars, &with_front(r, &third.point1));
    let ghost t2 = transcript.tx();
    let c = squeeze_challenges::<F, T>(transcript, 13);
    let ghost cs = vals(c@);
    let ghost y = claim_points(s, vals(point@), f, g, h, r.value());
    proof {
        crate::transcript::lemma_challenges_len(T::oracle(), t2.hist, 13);
        assert(cs.len() == c@.len());
        assert(y =~= seq![
            vals(point_f@),
            vals(point_u@),
            vals(point_x@),
            vals(second.point@),
            vals(third.point2@),
            vals(point_t@),
        ]);
    }
    let mut group: Vec<Vec<F>> = Vec::new();
    group.push(basis_table(&point_f));
    group.push(basis_table(&point_u));
    group.push(basis_table(&point_x));
    assert(vals2(group@) =~= seq![basis(p, y[0]), basis(p, y[1]), basis(p, y[2])]);
    let poly1 = weighed(&c, 0, 3, &group, n);
    assert(cs.subrange(0, 3) =~= cs.take(3));
    let mut group: Vec<Vec<F>> = Vec::new();
    group.push(copy_elements(&second.val));
    group.push(copy_elements(&second.erow));
    group.push(copy_elements(&second.ecol));
    assert(vals2(group@) =~= seq![m[0], g.erow, g.ecol]);
    let poly2 = weighed(&c, 3, 6, &group, n);
    let mut group: Vec<Vec<F>> = Vec::new();
    group.push(copy_elements(&second.erow));
    group.push(copy_elements(&second.ecol));
    group.push(copy_elements(&third.row));
    group.push(copy_elements(&third.col));
    group.push(copy_elements(&third.read_row));
    group.push(copy_elements(&third.read_col));
    assert(vals2(group@) =~= seq![g.erow, g.ecol, m[1], m[2], m[3], m[4]]);
    let poly3 = weighed(&c, 6, 12, &group, n);
    let mut group: Vec<Vec<F>> = Vec::new();
    group.push(copy_elements(&third.times));
    assert(vals2(group@) =~= seq![m[5]]);
    let poly4 = weighed(&c, 12, 13, &group, n);
    assert(cs.subrange(12, 13) =~= cs.skip(12));
    let mut polys: Vec<Vec<F>> = Vec::new();
    polys.push(poly1);
    polys.push(poly2);
    polys.push(poly3);
    polys.push(poly4);
    let mut eqs: Vec<Vec<F>> = Vec::new();
    eqs.push(copy_elements(wide));
    eqs.push(basis_table(&second.point));
    eqs.push(basis_table(&third.point2));
    eqs.push(basis_table(&point_t));
    let ghost tables = claim_tables(p, s, vals(wide@), g, y, cs);
    proof {
        assert(vals2(polys@) + vals2(eqs@) =~= tables);
        assert(uniform(vals2(polys@), n as nat));
        assert(uniform(vals2(eqs@), n as nat));
    }
    let (_wide_eval, rp) = batch_sum_check_prover(&mut polys, eqs, transcript);
    let mut evals: Vec<F> = Vec::new();
    evals.push(evaluate_poly(&second.val, &rp));
    evals.push(evaluate_poly(&second.erow, &rp));
    evals.push(evaluate_poly(&second.ecol, &rp));
    evals.push(evaluate_poly(&third.row, &rp));
    evals.push(evaluate_poly(&third.col, &rp));
    evals.push(evaluate_poly(&third.read_row, &rp));
    evals.push(evaluate_poly(&third.read_col, &rp));
    evals.push(evaluate_poly(&third.times, &rp));
    proof {
        let b = vals(rp@);
        assert(vals(evals@) =~= seq![
            mle(p, m[0], b),
            mle(p, g.erow, b),
            mle(p, g.ecol, b),
            mle(p, m[1], b),
            mle(p, m[2], b),
            mle(p, m[3], b),
            mle(p, m[4], b),
            mle(p, m[5], b),
        ]);
        let y0 = claim_points(s, vals(point@), f, g, h, 0);
        assert(y0[1] == vals(point_u@));
        assert(y0[2] == vals(point_x@));
    }
    write_field_elements(transcript, &evals);
    rp
}

/// A table with its indices reversed.
fn reversed_table<F: PrimeField>(t: &Vec<F>) -> (r: Vec<F>)
    requires
        t@.len() >= 1,
        is_power_of_two(t@.len()),
    ensures
        vals(r@) == bit_reversed(vals(t@)),
        r@ == bit_reversed(t@),
        r@.len() == t@.len(),
{
    let mut r = copy_elements(t);
    reverse_index_bits_in_place(&mut r);
    proof {
        lemma_vals_bit_reversed(t@);
    }
    r
}

/// A commitment that has the shape of the parameters.
pub open spec fn commitment_fits<F: PrimeField>(
    pp: BrakingbaseProverParams<F>,
    comm: BrakingbaseCommitment<F>,
) -> bool {
    &&& comm.rows@.len() == pp.brakedown_num_rows * pp.brakedown.codeword_len
    &&& comm.intermediate_hashes@.len() == 2 * two_to(
        ceil_log2(pp.brakedown.codeword_len as nat),
    ) - 2
}

/// The rows of a commitment of the shape of the parameters.
pub open spec fn comm_rows<F: PrimeField>(
    pp: BrakingbaseProverParams<F>,
    comm: BrakingbaseCommitment<F>,
) -> Seq<Seq<int>> {
    comm.row_table(pp.brakedown_num_rows as nat, pp.brakedown.codeword_len as nat)
}

/// The levels of a commitment of the shape of the parameters.
pub open spec fn comm_levels<F: PrimeField>(
    pp: BrakingbaseProverParams<F>,
    comm: BrakingbaseCommitment<F>,
) -> Seq<Seq<Output>> {
    comm.levels(ceil_log2(pp.brakedown.codeword_len as nat))
}

/// The codewords that the prover opens.
proof fn lemma_opened<F: PrimeField, H: HashFunction>(
    pp: BrakingbaseProverParams<F>,
    comm: BasefoldCommitment<F>,
    batch: BasefoldBatchCommitment<F>,
    wide: Seq<int>,
    g: Second,
)
    requires
        pp.wf::<H>(),
        wide.len() == two_to(pp.scheme().bf_vars),
        g.erow.len() == wide.len(),
        g.ecol.len() == wide.len(),
        vals(comm.codeword.poly@) == folded_code(F::modulus(), pp.scheme(), wide),
        tree_view(comm.codeword_tree@) == element_tree::<F, H>(vals(comm.codeword.poly@)),
        commits_to::<F, H>(
            batch,
            pp.scheme().table,
            pp.scheme().log_rate,
            seq![g.erow, g.ecol],
        ),
    ensures
        opened_view(comm, batch, pp.trusted_commit) == opened_of::<F, H>(
            F::modulus(),
            pp.scheme(),
            wide,
            g,
        ),
        opened_fits(
            opened_view(comm, batch, pp.trusted_commit),
            pp.scheme().bf_vars + pp.scheme().log_rate,
        ),
        batch.codewords@.len() == 2,
        pp.trusted_commit.codewords@.len() == 6,
{
    let p = F::modulus();
    let s = pp.scheme();
    let levels = s.bf_vars + s.log_rate;
    let v = opened_view(comm, batch, pp.trusted_commit);
    let o = opened_of::<F, H>(p, s, wide, g);
    let m = matrix_polys(p, s.matrix, s.row_len, two_to(s.bf_vars));
    lemma_trusted::<F, H>(pp);
    assert forall|i: int| 0 <= i < 2 implies #[trigger] v.second[i] == o.second[i] by {
        assert(vals(batch.codewords@[i].poly@) == folded_code(p, s, seq![g.erow, g.ecol][i]));
    }
    assert(v.second =~= o.second);
    assert forall|i: int| 0 <= i < 6 implies #[trigger] v.third[i] == o.third[i] by {
        assert(vals(pp.trusted_commit.codewords@[i].poly@) == folded_code(p, s, m[i]));
    }
    assert(v.third =~= o.third);
    assert(s.log_rate + s.bf_vars == levels);
    lemma_encode_len(p, s.table, s.log_rate, bit_reversed(wide), s.bf_vars);
    lemma_encode_len(p, s.table, s.log_rate, bit_reversed(g.erow), s.bf_vars);
    lemma_encode_len(p, s.table, s.log_rate, bit_reversed(g.ecol), s.bf_vars);
    assert forall|i: int| 0 <= i < 6 implies (#[trigger] o.third[i]).len() == two_to(levels) by {
        lemma_encode_len(p, s.table, s.log_rate, bit_reversed(m[i]), s.bf_vars);
    }
    assert(o.second[0].len() == two_to(levels));
    assert(o.third[0].len() == two_to(levels));
    lemma_element_tree_shape::<F, H>(o.first, levels);
    lemma_column_tree_shape::<F, H>(o.second, levels);
    lemma_column_tree_shape::<F, H>(o.third, levels);
}

/// What the prover holds of the table that is opened.
struct WideData<F: PrimeField> {
    small: Vec<F>,
    wide: Vec<F>,
    commit: BasefoldCommitment<F>,
}

/// Combines the committed rows and sends the commitment to them.
fn wide_prove<F: PrimeField, H: HashFunction, T: TranscriptWrite<F>>(
    pp: &BrakingbaseProverParams<F>,
    rows: &Vec<Vec<F>>,
    point: &Vec<F>,
    transcript: &mut T,
) -> (r: WideData<F>)
    requires
        pp.wf::<H>(),
        rows@.len() == pp.brakedown_num_rows,
        forall|i: int|
            0 <= i < rows@.len() ==> (#[trigger] rows@[i])@.len() == pp.brakedown.codeword_len,
        point@.len() == pp.num_vars,
    ensures
        ({
            let p = F::modulus();
            let s = pp.scheme();
            let small = small_table(p, s, vals2(rows@), vals(point@));
            let wide = repeated(small, two_to(s.bf_vars));
            &&& vals(r.small@) == small
            &&& vals(r.wide@) == wide
            &&& r.small@.len() == 2 * pp.brakedown.row_len
            &&& r.wide@.len() == pp.basefold_poly_size
            &&& vals(r.commit.codeword.poly@) == folded_code(p, s, wide)
            &&& tree_view(r.commit.codeword_tree@) == element_tree::<F, H>(vals(r.commit.codeword.poly@))
            &&& final(transcript).tx() == old(transcript).tx().commit(
                codeword_root::<F, H>(folded_code(p, s, wide)),
            )
        }),
{
    let ghost p = F::modulus();
    let ghost s = pp.scheme();
    let n = pp.basefold_poly_size;
    let row_len = pp.brakedown.row_len();
    let codeword_len = pp.brakedown.codeword_len();
    let num_rows = pp.brakedown_num_rows;
    proof {
        F::lemma_modulus();
        lemma_scheme_sizes(s);
    }
    let (x_0, _x_1) = point_to_tensor_for_commit(num_rows, point);
    assert(vals(x_0@).len() == x_0@.len());
    let combined = combine_vectors(&x_0, rows, codeword_len);
    assert(vals(combined@).len() == combined@.len());
    let small = padded_with_zeros(&combined, 2 * row_len);
    let wide = repeat_table(&small, n);
    let reversed_wide = reversed_table(&wide);
    let commit = basefold_commit::<F, H>(&pp.basefold, &reversed_wide);
    proof {
        lemma_encode_len(p, s.table, s.log_rate, bit_reversed(vals(wide@)), s.bf_vars);
        let levels = s.bf_vars + s.log_rate;
        assert(s.log_rate + s.bf_vars == levels);
        lemma_element_tree_shape::<F, H>(folded_code(p, s, vals(wide@)), levels);
        lemma_log2_two_to(levels);
        assert(two_to(0) == 1);
        let t = commit.codeword_tree@;
        assert(tree_view(t).len() == levels);
        assert(tree_view(t)[levels - 1] == t[levels - 1]@);
        assert(tree_view(t)[levels - 1].len() == 1);
    }
    transcript.write_commitment(commit.codeword_tree_root());
    WideData { small, wide, commit }
}

/// Opens all tables at the last point.
fn last_prove<F: PrimeField, H: HashFunction, T: TranscriptWrite<F>>(
    pp: &BrakingbaseProverParams<F>,
    wide: &WideData<F>,
    second: &SecondData<F>,
    third: &ThirdData<F>,
    rp: &Vec<F>,
    transcript: &mut T,
    Ghost(g): Ghost<Second>,
)
    requires
        pp.wf::<H>(),
        wide.wide@.len() == pp.basefold_poly_size,
        vals(wide.commit.codeword.poly@) == folded_code(F::modulus(), pp.scheme(), vals(wide.wide@)),
        tree_view(wide.commit.codeword_tree@) == element_tree::<F, H>(
            vals(wide.commit.codeword.poly@),
        ),
        g.erow == vals(second.erow@),
        g.ecol == vals(second.ecol@),
        second.erow@.len() == pp.basefold_poly_size,
        second.ecol@.len() == pp.basefold_poly_size,
        second.val@.len() == pp.basefold_poly_size,
        vals(second.val@) == padded_values(pp.scheme().matrix.val, pp.basefold_poly_size as nat),
        commits_to::<F, H>(
            second.commit,
            pp.scheme().table,
            pp.scheme().log_rate,
            seq![g.erow, g.ecol],
        ),
        ({
            let m = matrix_polys(
                F::modulus(),
                pp.scheme().matrix,
                pp.scheme().row_len,
                pp.basefold_poly_size as nat,
            );
            &&& vals(third.row@) == m[1]
            &&& vals(third.col@) == m[2]
            &&& vals(third.read_row@) == m[3]
            &&& vals(third.read_col@) == m[4]
            &&& vals(third.times@) == m[5]
        }),
        third.row@.len() == pp.basefold_poly_size,
        third.col@.len() == pp.basefold_poly_size,
        third.read_row@.len() == pp.basefold_poly_size,
        third.read_col@.len() == pp.basefold_poly_size,
        third.times@.len() == pp.basefold_poly_size,
        rp@.len() == pp.basefold.num_vars,
    ensures
        ({
            let p = F::modulus();
            let s = pp.scheme();
            let t = old(transcript).tx();
            final(transcript).tx() == open_batch::<F, H>(
                p,
                T::oracle(),
                s.xs,
                s.ws,
                t.squeeze_many(9),
                all_reversed(opened_tables(p, s, vals(wide.wide@), g)),
                challenges(T::oracle(), t.hist, 9),
                vals(rp@).reverse(),
                opened_of::<F, H>(p, s, vals(wide.wide@), g),
                s.bf_queries,
            )
        }),
{
    let ghost p = F::modulus();
    let ghost s = pp.scheme();
    let ghost t = transcript.tx();
    proof {
        F::lemma_modulus();
        lemma_scheme_sizes(s);
        lemma_trusted::<F, H>(*pp);
    }
    let mut polys: Vec<Vec<F>> = Vec::new();
    polys.push(reversed_table(&wide.wide));
    polys.push(reversed_table(&second.erow));
    polys.push(reversed_table(&second.ecol));
    polys.push(reversed_table(&second.val));
    polys.push(reversed_table(&third.row));
    polys.push(reversed_table(&third.col));
    polys.push(reversed_table(&third.read_row));
    polys.push(reversed_table(&third.read_col));
    polys.push(reversed_table(&third.times));
    let random_combiners = squeeze_challenges::<F, T>(transcript, 9);
    let final_point = reverse_elements(rp);
    proof {
        crate::transcript::lemma_challenges_len(T::oracle(), t.hist, 9);
        assert(vals(random_combiners@).len() == random_combiners@.len());
        crate::gkr::helper::lemma_vals_reverse(rp@);
        assert(vals2(polys@) =~= all_reversed(opened_tables(p, s, vals(wide.wide@), g)));
        assert(vals(wide.wide@).len() == wide.wide@.len());
        assert(vals(second.erow@).len() == second.erow@.len());
        assert(vals(second.ecol@).len() == second.ecol@.len());
        lemma_opened::<F, H>(*pp, wide.commit, second.commit, vals(wide.wide@), g);
    }
    basefold_batch_open::<F, H, T>(
        &pp.basefold,
        &polys,
        &random_combiners,
        &final_point,
        &wide.commit,
        &second.commit,
        &pp.trusted_commit,
        transcript,
    );
}


impl<F: PrimeField, H: HashFunction, S: BrakingbaseSpec> Brakingbase<F, H, S> {
    /// Opens a commitment at a point.
    #[verifier::rlimit(60)]
    pub fn open<T: TranscriptWrite<F>>(
        pp: &BrakingbaseProverParams<F>,
        poly: &MultilinearPolynomial<F>,
        comm: &BrakingbaseCommitment<F>,
        point: &Vec<F>,
        eval: &F,
        transcript: &mut T,
    ) -> (res: Result<(), Error>)
        requires
            pp.wf::<H>(),
            commitment_fits(*pp, *comm),
            point@.len() == pp.num_vars,
        ensures
            res is Ok,
            final(transcript).tx() == open_tx::<F, H>(
                F::modulus(),
                T::oracle(),
                pp.scheme(),
                old(transcript).tx(),
                comm_rows(*pp, *comm),
                comm_levels(*pp, *comm),
                vals(point@),
            ),
    {
        let ghost want = opening::<F, H>(
            F::modulus(),
            T::oracle(),
            pp.scheme(),
            old(transcript).tx(),
            comm_rows(*pp, *comm),
            comm_levels(*pp, *comm),
            vals(point@),
        );
        let codeword_len = pp.brakedown.codeword_len();
        let ghost depth_of = ceil_log2(codeword_len as nat);
        proof {
            lemma_scheme_sizes(pp.scheme());
            lemma_level_start(depth_of, depth_of);
            lemma_width_fits(codeword_len as nat, pp.brakedown.row_len as nat);
            lemma_log2_two_to(depth_of);
        }
        let rows = split_rows(&comm.rows, pp.brakedown_num_rows, codeword_len);
        let levels = split_levels(&comm.intermediate_hashes, log2(next_power_of_two(codeword_len)));
        let wide = wide_prove::<F, H, T>(pp, &rows, point, transcript);
        let (u, first_point) = first_phase_prove::<F, H, T>(
            pp,
            &rows,
            &levels,
            &wide.small,
            transcript,
        );
        let ghost f = First { tx: transcript.tx(), u: vals(u@), point: vals(first_point@) };
        assert(f == want.first);
        let padded_u = with_front(F::zero(), &u);
        let second = second_phase_prove::<F, H, T>(
            pp,
            &first_point,
            &padded_u,
            transcript,
            Ghost(f),
        );
        let ghost g = want.second;
        let third = third_phase_prove::<F, H, T>(
            pp,
            &first_point,
            &padded_u,
            &second.erow,
            &second.ecol,
            transcript,
            Ghost(f),
            Ghost(g),
        );
        let ghost h = want.third;
        let rp = fourth_phase_prove::<F, H, T>(
            pp,
            point,
            &wide.wide,
            &u,
            &first_point,
            &second,
            &third,
            transcript,
            Ghost(f),
            Ghost(g),
            Ghost(h),
        );
        last_prove::<F, H, T>(pp, &wide, &second, &third, &rp, transcript, Ghost(g));
        Ok(())
    }

    /// Opening several commitments at once sends nothing.
    pub fn batch_open<T: TranscriptWrite<F>>(
        pp: &BrakingbaseProverParams<F>,
        polys: &Vec<MultilinearPolynomial<F>>,
        comms: &Vec<BrakingbaseCommitment<F>>,
        points: &Vec<Vec<F>>,
        evals: &Vec<F>,
        transcript: &mut T,
    ) -> (res: Result<(), Error>)
        ensures
            res is Ok,
            final(transcript).tx() == old(transcript).tx(),
    {
        Ok(())
    }
}

} // verus!
