//! What was opened honestly is accepted.
use vstd::prelude::*;
use crate::algebra::{
    canonical, cong, lemma_cong_add, lemma_cong_mod, lemma_cong_mul, lemma_cong_sub,
    lemma_mod_canonical, lemma_mod_small, two_to,
};
use crate::basefold::table_entry;
use crate::basefold_batch::combine;
use crate::basefold_laws::weights_fit;
use crate::bits::{ceil_log2, lemma_ceil_log2, log2_of};
use crate::brakingbase::{
    Scheme, column_leaves, matrix_polys, padded_indices, padded_values, scheme_fits,
};
use crate::brakingbase_open::{
    First, Second, Third, access_leaves_of, batch_root, eq_values, first_phase, folded_code,
    lemma_indices_fit, lemma_leaves_fit, lemma_scheme_sizes, mask_of, matrix_at, second_phase,
    send_columns, siblings, small_table, table_leaves_of, third_phase, times_left, weighed_entry,
};
use crate::brakingbase_verify::{
    FirstCheck, Public, SecondCheck, ThirdCheck, blend, check_first, check_second, check_third,
    column_holds, mask_at, outputs_agree, read_columns, weighed_columns,
};
use crate::code::{Matrix, contribution, in_code, law_code_linear, parity, triangular};
use crate::evaluations::{
    gathered, lemma_affine_value, lemma_dot_sum, lemma_eq_prod_zero, lemma_gathered_sum,
    lemma_join_dot, lemma_rounds_end, mles,
};
use crate::field::PrimeField;
use crate::gkr::gkr::{
    final_values, gkr_check, gkr_prove, law_gkr_complete, layer_claim, lemma_gkr_extends,
};
use crate::gkr::gpc::{
    balanced, circuit_of, circuits_over, final_leaves, init_leaves, law_accesses_balance,
    law_circuit_product, read_leaves, write_leaves,
};
use crate::gkr::helper::{
    first_input_layer, index_table, law_index_polynomial, lemma_weigh_cong, second_input_layer,
    weighted_bits,
};
use crate::memory::{fingerprint, product};
use crate::timestamps::read_times;
use crate::hash::{HashFunction, Output};
use crate::indices::index_of;
use crate::merkle::{climb, column, law_path_complete, tree_level, tree_over, tree_path};
use crate::multilinear::{
    basis, eq_points, eq_prod, eq_table, law_eq_points_sum, lemma_basis_cong, lemma_mle_cong, mle,
    tensor,
};
use crate::rounds::{
    all_canonical, check_rounds, law_sum_check_complete, prove_rounds, row, total, uniform,
};
use crate::sum_checks::{cubic_shape, lemma_mask_comb, mask_comb, quadratic_shape, triple_comb};
use crate::sums::{
    dot, lemma_dot_cong, lemma_sum_add, lemma_sum_ext, lemma_sum_factor, lemma_sum_of_cong,
    lemma_sum_step, lemma_sum_zero, sum_of,
};
use crate::transcript::{
    Check, Event, Oracle, Tx, challenges, extends, law_read_all_committed, law_read_all_written,
    law_read_committed, law_read_written, law_same_challenge, law_same_challenges,
    lemma_challenges_canonical, lemma_commit_all_extends, lemma_prefix_push, lemma_prefix_trans,
    lemma_squeeze_many_hist, lemma_write_all_extends, oracle_reduced, synced,
};

verus! {

/// Sending columns only adds to the proof.
pub proof fn lemma_columns_extend(
    ch: Oracle,
    tx: Tx,
    rows: Seq<Seq<int>>,
    tree: Seq<Seq<Output>>,
    codeword_len: nat,
    n: nat,
)
    ensures
        ({
            let c = send_columns(ch, tx, rows, tree, codeword_len, n);
            &&& extends(tx, c.tx)
            &&& n > 0 ==> extends(
                send_columns(ch, tx, rows, tree, codeword_len, (n - 1) as nat).tx,
                c.tx,
            )
            &&& c.indices.len() == n
            &&& codeword_len > 0 ==> forall|i: int| 0 <= i < n ==> 0 <= #[trigger] c.indices[i] < codeword_len
        }),
    decreases n,
{
    if n == 0 {
        lemma_prefix_push(tx.proof, Event::Challenge);
    } else {
        lemma_columns_extend(ch, tx, rows, tree, codeword_len, (n - 1) as nat);
        let b = send_columns(ch, tx, rows, tree, codeword_len, (n - 1) as nat);
        let c = send_columns(ch, tx, rows, tree, codeword_len, n);
        let q = index_of(ch(b.tx.hist), codeword_len as int);
        let t1 = b.tx.squeeze();
        let t2 = t1.write_all(column(rows, q));
        lemma_write_all_extends(t1, column(rows, q));
        lemma_commit_all_extends(t2, siblings(tree, q));
        lemma_prefix_trans(t1.proof, t2.proof, c.tx.proof);
        lemma_prefix_trans(tx.proof, b.tx.proof, c.tx.proof);
        if codeword_len > 0 {
            lemma_mod_canonical(codeword_len as int, ch(b.tx.hist) % 0x1_0000_0000);
        }
    }
}

/// The columns that were sent are the columns that are read.
pub proof fn lemma_columns_sync(
    ch: Oracle,
    tx: Tx,
    full: Seq<Event>,
    check: Check,
    rows: Seq<Seq<int>>,
    tree: Seq<Seq<Output>>,
    codeword_len: nat,
    n: nat,
)
    requires
        synced(tx, full, check),
        send_columns(ch, tx, rows, tree, codeword_len, n).tx.proof.is_prefix_of(full),
        tree.len() == ceil_log2(codeword_len),
    ensures
        ({
            let c = send_columns(ch, tx, rows, tree, codeword_len, n);
            let s = read_columns(ch, check, rows.len(), codeword_len, n);
            &&& synced(c.tx, full, s.check)
            &&& s.indices == c.indices
            &&& s.columns == Seq::new(n, |i: int| column(rows, c.indices[i]))
            &&& s.paths == Seq::new(n, |i: int| siblings(tree, c.indices[i]))
        }),
    decreases n,
{
    let c = send_columns(ch, tx, rows, tree, codeword_len, n);
    let s = read_columns(ch, check, rows.len(), codeword_len, n);
    if n == 0 {
        assert(s.columns =~= Seq::new(n, |i: int| column(rows, c.indices[i])));
        assert(s.paths =~= Seq::new(n, |i: int| siblings(tree, c.indices[i])));
    } else {
        let m = (n - 1) as nat;
        let b = send_columns(ch, tx, rows, tree, codeword_len, m);
        let r = read_columns(ch, check, rows.len(), codeword_len, m);
        lemma_columns_extend(ch, tx, rows, tree, codeword_len, n);
        lemma_columns_extend(ch, tx, rows, tree, codeword_len, m);
        lemma_prefix_trans(b.tx.proof, c.tx.proof, full);
        lemma_columns_sync(ch, tx, full, check, rows, tree, codeword_len, m);
        let q = index_of(ch(b.tx.hist), codeword_len as int);
        let t1 = b.tx.squeeze();
        let col = column(rows, q);
        let path = siblings(tree, q);
        let t2 = t1.write_all(col);
        lemma_commit_all_extends(t2, path);
        lemma_prefix_trans(t2.proof, c.tx.proof, full);
        law_same_challenge(b.tx, full, r.check, ch);
        let c1 = r.check.squeeze(ch).0;
        law_read_all_written(t1, full, c1, col);
        let c2 = c1.read_many(rows.len()).0;
        assert(col.len() == rows.len());
        law_read_all_committed(t2, full, c2, path);
        assert(path.len() == ceil_log2(codeword_len));
        assert(c.indices =~= b.indices.push(q));
        assert(s.columns =~= Seq::new(n, |i: int| column(rows, c.indices[i])));
        assert(s.paths =~= Seq::new(n, |i: int| siblings(tree, c.indices[i])));
    }
}

/// A climb looks only at the siblings that it passes.
proof fn lemma_climb_ext<H: HashFunction>(leaf: Output, q: int, a: Seq<Output>, b: Seq<Output>, k: nat)
    requires
        forall|i: int| 0 <= i < k ==> a[i] == b[i],
    ensures
        climb::<H>(leaf, q, a, k) == climb::<H>(leaf, q, b, k),
    decreases k,
{
    if k > 0 {
        lemma_climb_ext::<H>(leaf, q, a, b, (k - 1) as nat);
        assert(a[k - 1] == b[k - 1]);
    }
}

/// The path of every column of a commitment leads to its root.
pub proof fn law_column_path<F: PrimeField, H: HashFunction>(
    rows: Seq<Seq<int>>,
    codeword_len: nat,
    q: int,
)
    requires
        0 <= q < codeword_len,
    ensures
        ({
            let leaves = column_leaves::<F, H>(rows, codeword_len);
            let depth = ceil_log2(codeword_len);
            column_holds::<F, H>(
                column(rows, q),
                q,
                siblings(tree_over::<H>(leaves, depth), q),
                tree_level::<H>(leaves, depth)[0],
            )
        }),
{
    let leaves = column_leaves::<F, H>(rows, codeword_len);
    let depth = ceil_log2(codeword_len);
    lemma_ceil_log2(codeword_len);
    let tall = tree_over::<H>(leaves, depth + 1);
    let path = tree_path(tall, q);
    law_path_complete::<H>(leaves, depth + 1, q);
    let short = siblings(tree_over::<H>(leaves, depth), q);
    assert forall|i: int| 0 <= i < depth implies short[i] == path[i] by {}
    lemma_climb_ext::<H>(leaves[q], q, short, path, depth);
}

/// The mask weighed by `g`.
pub proof fn lemma_mask_sum(p: int, size: nat, idx: Seq<int>, w: Seq<int>, g: Seq<int>)
    requires
        p > 0,
        g.len() == size,
        forall|i: int| 0 <= i < idx.len() ==> 0 <= #[trigger] idx[i] < size,
    ensures
        cong(
            p,
            dot(mask_of(p, size, idx, w), g),
            sum_of(idx.len(), |i: int| w[i] * g[idx[i]]),
        ),
{
    let m = idx.len();
    let fi = |i: int| idx[i];
    let fw = |i: int| w[i];
    let fg = |k: int| g[k];
    assert forall|i: int| 0 <= i < m implies 0 <= #[trigger] fi(i) < size by {
        assert(0 <= idx[i] < size);
    }
    lemma_gathered_sum(size, m, fi, fw, fg);
    let mask = mask_of(p, size, idx, w);
    lemma_dot_sum(mask, g, size);
    let left = |k: int| mask[k] * g[k];
    let mid = |k: int| gathered(m, fi, fw, k) * fg(k);
    assert forall|k: int| 0 <= k < size implies cong(p, #[trigger] left(k), mid(k)) by {
        let t = |i: int|
            if idx[i] == k {
                w[i]
            } else {
                0
            };
        lemma_sum_ext(
            m,
            t,
            |i: int|
                if fi(i) == k {
                    fw(i)
                } else {
                    0int
                },
        );
        lemma_cong_mod(p, sum_of(m, t));
        lemma_cong_mul(p, mask[k], sum_of(m, t), g[k], g[k]);
    }
    lemma_sum_of_cong(p, size, left, mid);
    lemma_sum_ext(m, |i: int| fw(i) * fg(fi(i)), |i: int| w[i] * g[idx[i]]);
}

/// The matrix at some weights of its columns, weighed by `g`.
pub proof fn lemma_matrix_sum(p: int, m: Matrix, t: Seq<int>, size: nat, g: Seq<int>)
    requires
        p > 0,
        g.len() == size,
        forall|i: int| 0 <= i < m.row.len() ==> 0 <= #[trigger] m.row[i] < size,
    ensures
        cong(
            p,
            dot(matrix_at(p, m, t, size), g),
            sum_of(m.row.len(), |i: int| (m.val[i] * t[m.col[i]]) * g[m.row[i]]),
        ),
{
    let n = m.row.len();
    let fi = |i: int| m.row[i];
    let fw = |i: int| m.val[i] * t[m.col[i]];
    let fg = |k: int| g[k];
    assert forall|i: int| 0 <= i < n implies 0 <= #[trigger] fi(i) < size by {
        assert(0 <= m.row[i] < size);
    }
    lemma_gathered_sum(size, n, fi, fw, fg);
    let h = matrix_at(p, m, t, size);
    lemma_dot_sum(h, g, size);
    let left = |k: int| h[k] * g[k];
    let mid = |k: int| gathered(n, fi, fw, k) * fg(k);
    assert forall|k: int| 0 <= k < size implies cong(p, #[trigger] left(k), mid(k)) by {
        let e = |i: int| weighed_entry(m, t, k, i);
        lemma_sum_ext(
            n,
            e,
            |i: int|
                if fi(i) == k {
                    fw(i)
                } else {
                    0int
                },
        );
        lemma_cong_mod(p, sum_of(n, e));
        lemma_cong_mul(p, h[k], sum_of(n, e), g[k], g[k]);
    }
    lemma_sum_of_cong(p, size, left, mid);
    lemma_sum_ext(
        n,
        |i: int| fw(i) * fg(fi(i)),
        |i: int| (m.val[i] * t[m.col[i]]) * g[m.row[i]],
    );
}

/// What a codeword holds behind its message is the matrix times the codeword, whatever the
/// weights.
pub proof fn law_parity_sum(
    p: int,
    m: Matrix,
    row_len: nat,
    c: Seq<int>,
    t: Seq<int>,
)
    requires
        p > 0,
        triangular(m, row_len, c.len()),
        c.len() <= 2 * row_len,
        in_code(p, m, row_len, c),
        t.len() == row_len,
    ensures
        ({
            let s = padded_values(c, 2 * row_len);
            cong(
                p,
                dot(s.skip(row_len as int), t),
                sum_of(m.row.len(), |i: int| (m.val[i] * t[m.col[i]]) * s[m.row[i]]),
            )
        }),
{
    let n = m.row.len();
    let s = padded_values(c, 2 * row_len);
    let tail = s.skip(row_len as int);
    let fi = |i: int| m.col[i];
    let fw = |i: int| m.val[i] * c[m.row[i]];
    let ft = |j: int| t[j];
    assert forall|i: int| 0 <= i < n implies 0 <= #[trigger] fi(i) < row_len by {
        assert(0 <= m.row[i] < row_len + m.col[i]);
    }
    lemma_gathered_sum(row_len, n, fi, fw, ft);
    lemma_dot_sum(tail, t, row_len);
    let left = |j: int| tail[j] * t[j];
    let mid = |j: int| gathered(n, fi, fw, j) * ft(j);
    assert forall|j: int| 0 <= j < row_len implies cong(p, #[trigger] left(j), mid(j)) by {
        let e = |i: int| contribution(m, c, j, i);
        let f = |i: int|
            if fi(i) == j {
                fw(i)
            } else {
                0int
            };
        lemma_sum_ext(n, e, f);
        if j < c.len() - row_len {
            assert(tail[j] == c[row_len + j]);
            assert(cong(p, c[row_len + j], parity(m, c, j, n)));
            lemma_cong_mul(p, tail[j], sum_of(n, e), t[j], t[j]);
        } else {
            let z = Seq::new(n, f);
            assert forall|i: int| 0 <= i < n implies #[trigger] z[i] == 0 by {
                assert(0 <= m.row[i] < row_len + m.col[i]);
            }
            lemma_sum_zero(z);
            assert(tail[j] == 0);
        }
    }
    lemma_sum_of_cong(p, row_len, left, mid);
    let a = |i: int| fw(i) * ft(fi(i));
    let b = |i: int| (m.val[i] * t[m.col[i]]) * s[m.row[i]];
    assert forall|i: int| 0 <= i < n implies #[trigger] a(i) == b(i) by {
        assert(0 <= m.row[i] < row_len + m.col[i] && m.col[i] < c.len() - row_len);
        assert(s[m.row[i]] == c[m.row[i]]);
        let (v, x, y) = (m.val[i], c[m.row[i]], t[m.col[i]]);
        assert((v * x) * y == (v * y) * x) by (nonlinear_arith);
    }
    lemma_sum_ext(n, a, b);
}

/// The sum that the first sum-check is about.
pub proof fn lemma_mask_total(c0: int, c1: int, mask: Seq<int>, small: Seq<int>, h: Seq<int>)
    requires
        small.len() == mask.len(),
        h.len() == mask.len(),
    ensures
        total(mask_comb(c0, c1), seq![mask, small, h]) == c0 * dot(mask, small) + c1 * dot(h, small),
{
    let n = mask.len();
    let ts = seq![mask, small, h];
    let comb = mask_comb(c0, c1);
    lemma_dot_sum(mask, small, n);
    lemma_dot_sum(h, small, n);
    let f = |k: int| mask[k] * small[k];
    let g = |k: int| h[k] * small[k];
    lemma_sum_factor(n, c0, f);
    lemma_sum_factor(n, c1, g);
    let a = Seq::new(n, |k: int| c0 * f(k));
    let b = Seq::new(n, |k: int| c1 * g(k));
    lemma_sum_add(a, b);
    let t = Seq::new(n, |k: int| comb(row(ts, k)));
    assert(t =~= Seq::new(a.len(), |k: int| a[k] + b[k])) by {
        assert forall|k: int| 0 <= k < n implies t[k] == a[k] + b[k] by {
            let v = row(ts, k);
            assert(v[0] == mask[k] && v[1] == small[k] && v[2] == h[k]);
        }
    }
}

/// A field and a way to draw challenges for which the protocols are meant.
pub open spec fn field_fits(p: int, ch: Oracle) -> bool {
    &&& p > 0x1_0000_0000
    &&& p % 2 == 1
    &&& p % 3 != 0
    &&& oracle_reduced(p, ch)
}

/// A scheme whose foldable code is that of its seed and can be folded, and whose rows have at
/// least two entries.
pub open spec fn scheme_honest(p: int, s: Scheme) -> bool {
    &&& scheme_fits(s)
    &&& s.row_len >= 2
    &&& canonical(p, s.matrix.val)
    &&& weights_fit(p, s.table, s.xs, s.ws, s.bf_vars + s.log_rate)
    &&& forall|l: int, i: int|
        #![trigger s.table[l][i]]
        0 <= l < s.bf_vars + s.log_rate && 0 <= i < two_to(l as nat) ==> s.table[l][i] == table_entry(
            p,
            s.seed,
            l as nat,
            i,
        )
}

/// Rows of the code.
pub open spec fn rows_honest(p: int, s: Scheme, rows: Seq<Seq<int>>) -> bool {
    &&& rows.len() == s.num_rows
    &&& forall|i: int|
        0 <= i < rows.len() ==> (#[trigger] rows[i]).len() == s.codeword_len && in_code(
            p,
            s.matrix,
            s.row_len,
            rows[i],
        )
}

/// What a verifier knows of a scheme.
pub open spec fn public_of(s: Scheme, trusted: Output) -> Public {
    Public {
        num_rows: s.num_rows,
        row_len: s.row_len,
        codeword_len: s.codeword_len,
        num_queries: s.num_queries,
        bf_vars: s.bf_vars,
        log_rate: s.log_rate,
        bf_queries: s.bf_queries,
        seed: s.seed,
        trusted,
    }
}

/// Lines between congruent values are congruent.
pub proof fn lemma_blend_cong(p: int, a: int, a2: int, b: int, b2: int, r: int)
    requires
        p > 0,
        cong(p, a, a2),
        cong(p, b, b2),
    ensures
        cong(p, blend(a, b, r), blend(a2, b2, r)),
{
    lemma_cong_sub(p, b, b2, a, a2);
    lemma_cong_mul(p, b - a, b2 - a2, r, r);
    lemma_cong_add(p, a, a2, (b - a) * r, (b2 - a2) * r);
}

/// What the combined row is.
pub proof fn lemma_small_table(p: int, s: Scheme, rows: Seq<Seq<int>>, point: Seq<int>)
    requires
        p > 0,
        scheme_fits(s),
        rows_honest(p, s, rows),
        point.len() == s.num_vars,
    ensures
        ({
            let x = tensor(p, point.take(log2_of(s.num_rows) as int));
            let c = combine(p, x, rows, s.codeword_len);
            let small = small_table(p, s, rows, point);
            &&& x.len() == s.num_rows
            &&& small == padded_values(c, 2 * s.row_len)
            &&& small.len() == 2 * s.row_len
            &&& canonical(p, small)
            &&& c.len() == s.codeword_len
            &&& in_code(p, s.matrix, s.row_len, c)
            &&& forall|q: int|
                0 <= q < s.codeword_len ==> cong(p, #[trigger] small[q], dot(x, column(rows, q)))
        }),
{
    lemma_scheme_sizes(s);
    let x = tensor(p, point.take(log2_of(s.num_rows) as int));
    let c = combine(p, x, rows, s.codeword_len);
    let small = small_table(p, s, rows, point);
    assert forall|i: int| 0 <= i < small.len() implies 0 <= #[trigger] small[i] < p by {
        if i < s.codeword_len {
            lemma_mod_canonical(p, sum_of(rows.len(), |j: int| x[j] * rows[j][i]));
        }
    }
    assert forall|j: int| 0 <= j < s.codeword_len implies cong(
        p,
        #[trigger] c[j],
        sum_of(rows.len(), |i: int| x[i] * rows[i][j]),
    ) by {
        lemma_cong_mod(p, sum_of(rows.len(), |i: int| x[i] * rows[i][j]));
    }
    law_code_linear(p, s.matrix, s.row_len, s.codeword_len, x, rows, c);
    assert forall|q: int| 0 <= q < s.codeword_len implies cong(
        p,
        #[trigger] small[q],
        dot(x, column(rows, q)),
    ) by {
        assert(small[q] == c[q]);
        lemma_dot_sum(x, column(rows, q), rows.len());
        lemma_sum_ext(
            rows.len(),
            |i: int| x[i] * rows[i][q],
            |i: int| x[i] * column(rows, q)[i],
        );
    }
}

/// The claim of the first sum-check is the sum that it is about.
proof fn lemma_first_claim(
    p: int,
    s: Scheme,
    rows: Seq<Seq<int>>,
    point: Seq<int>,
    idx: Seq<int>,
    columns: Seq<Seq<int>>,
    w: Seq<int>,
    rc: Seq<int>,
    t: Seq<int>,
    at_u: int,
)
    requires
        p > 0,
        scheme_fits(s),
        rows_honest(p, s, rows),
        point.len() == s.num_vars,
        forall|i: int| 0 <= i < idx.len() ==> 0 <= #[trigger] idx[i] < s.codeword_len,
        columns == Seq::new(idx.len(), |i: int| column(rows, idx[i])),
        t.len() == s.row_len,
        at_u == dot(small_table(p, s, rows, point).skip(s.row_len as int), t) % p,
    ensures
        ({
            let x = tensor(p, point.take(log2_of(s.num_rows) as int));
            let small = small_table(p, s, rows, point);
            let ts = seq![
                mask_of(p, 2 * s.row_len, idx, w),
                small,
                matrix_at(p, s.matrix, t, 2 * s.row_len),
            ];
            (rc[0] * weighed_columns(x, columns, w) + rc[1] * at_u) % p == total(
                mask_comb(rc[0], rc[1]),
                ts,
            ) % p
        }),
{
    let x = tensor(p, point.take(log2_of(s.num_rows) as int));
    let small = small_table(p, s, rows, point);
    let size = 2 * s.row_len;
    let mask = mask_of(p, size, idx, w);
    let h = matrix_at(p, s.matrix, t, size);
    let c = combine(p, x, rows, s.codeword_len);
    let m = s.matrix;
    lemma_small_table(p, s, rows, point);
    assert forall|i: int| 0 <= i < idx.len() implies 0 <= #[trigger] idx[i] < size by {
        assert(0 <= idx[i] < s.codeword_len);
    }
    lemma_mask_sum(p, size, idx, w, small);
    let a = |i: int| w[i] * small[idx[i]];
    let b = |j: int| w[j] * dot(x, columns[j]);
    assert forall|i: int| 0 <= i < idx.len() implies cong(p, #[trigger] a(i), b(i)) by {
        assert(0 <= idx[i] < s.codeword_len);
        assert(cong(p, small[idx[i]], dot(x, column(rows, idx[i]))));
        lemma_cong_mul(p, w[i], w[i], small[idx[i]], dot(x, columns[i]));
    }
    lemma_sum_of_cong(p, idx.len(), a, b);
    assert(cong(p, dot(mask, small), weighed_columns(x, columns, w)));
    assert forall|i: int| 0 <= i < m.row.len() implies 0 <= #[trigger] m.row[i] < size by {}
    lemma_matrix_sum(p, m, t, size, small);
    law_parity_sum(p, m, s.row_len, c, t);
    let d = dot(small.skip(s.row_len as int), t);
    assert(cong(p, dot(h, small), d));
    lemma_cong_mod(p, d);
    lemma_mask_total(rc[0], rc[1], mask, small, h);
    lemma_cong_mul(p, rc[0], rc[0], dot(mask, small), weighed_columns(x, columns, w));
    lemma_cong_mul(p, rc[1], rc[1], dot(h, small), at_u);
    lemma_cong_add(
        p,
        rc[0] * dot(mask, small),
        rc[0] * weighed_columns(x, columns, w),
        rc[1] * dot(h, small),
        rc[1] * at_u,
    );
}

/// The value of the mask at a point.
pub proof fn lemma_mask_value(p: int, size: nat, idx: Seq<int>, w: Seq<int>, y: Seq<int>)
    requires
        p > 0,
        size == two_to(y.len()),
        forall|i: int| 0 <= i < idx.len() ==> 0 <= #[trigger] idx[i] < size,
    ensures
        cong(p, mle(p, mask_of(p, size, idx, w), y), mask_at(idx, w, y)),
{
    let g = eq_table(y);
    lemma_mask_sum(p, size, idx, w, g);
    lemma_mle_cong(p, mask_of(p, size, idx, w), y);
    let a = |i: int| w[i] * g[idx[i]];
    let b = |i: int| w[i] * eq_prod(idx[i], y);
    assert forall|i: int| 0 <= i < idx.len() implies #[trigger] a(i) == b(i) by {
        assert(0 <= idx[i] < size);
    }
    lemma_sum_ext(idx.len(), a, b);
}

/// The value of a table from the values of its halves.
pub proof fn lemma_halves(p: int, t: Seq<int>, y: Seq<int>)
    requires
        p > 0,
        y.len() >= 1,
        t.len() == two_to(y.len()),
    ensures
        ({
            let h = two_to((y.len() - 1) as nat) as int;
            cong(
                p,
                blend(mle(p, t.take(h), y.skip(1)), mle(p, t.skip(h), y.skip(1)), y[0]),
                mle(p, t, y),
            )
        }),
{
    let h = two_to((y.len() - 1) as nat) as int;
    let z = y.skip(1);
    assert(two_to(y.len()) == 2 * h);
    let (a, b) = (t.take(h), t.skip(h));
    lemma_join_dot(a, b, y[0], z);
    assert(a + b =~= t);
    assert(seq![y[0]] + z =~= y);
    lemma_mle_cong(p, a, z);
    lemma_mle_cong(p, b, z);
    lemma_mle_cong(p, t, y);
    lemma_blend_cong(
        p,
        mle(p, a, z),
        dot(a, eq_table(z)),
        mle(p, b, z),
        dot(b, eq_table(z)),
        y[0],
    );
}

/// What an honest first phase gives.
pub open spec fn first_done(p: int, s: Scheme, small: Seq<int>, f: First, c: FirstCheck) -> bool {
    let lr = log2_of(s.row_len);
    &&& c.u == f.u
    &&& c.point == f.point
    &&& f.u.len() == lr
    &&& f.point.len() == lr + 1
    &&& canonical(p, f.u)
    &&& canonical(p, f.point)
    &&& c.evals.len() == 3
    &&& c.evals[0] == mle(p, matrix_at(p, s.matrix, tensor(p, f.u), 2 * s.row_len), f.point)
    &&& cong(p, blend(c.evals[1], c.evals[2], f.point[0]), mle(p, small, f.point))
}

/// The first phase only adds to the proof.
pub proof fn lemma_first_extends(
    p: int,
    ch: Oracle,
    s: Scheme,
    tx: Tx,
    rows: Seq<Seq<int>>,
    tree: Seq<Seq<Output>>,
    point: Seq<int>,
)
    requires
        field_fits(p, ch),
        scheme_honest(p, s),
        rows_honest(p, s, rows),
        point.len() == s.num_vars,
    ensures
        ({
            let small = small_table(p, s, rows, point);
            let f = first_phase(p, ch, s, tx, rows, tree, small);
            let lr = log2_of(s.row_len);
            &&& extends(tx, f.tx)
            &&& f.u.len() == lr
            &&& f.point.len() == lr + 1
            &&& canonical(p, f.u)
            &&& canonical(p, f.point)
        }),
{
    let small = small_table(p, s, rows, point);
    let lr = log2_of(s.row_len);
    let half = s.row_len as int;
    lemma_scheme_sizes(s);
    lemma_small_table(p, s, rows, point);
    lemma_columns_extend(ch, tx, rows, tree, s.codeword_len, s.num_queries);
    let c = send_columns(ch, tx, rows, tree, s.codeword_len, s.num_queries);
    let u = challenges(ch, c.tx.hist, lr);
    lemma_challenges_canonical(p, ch, c.tx.hist, lr);
    lemma_squeeze_many_hist(c.tx, lr);
    let t0 = c.tx.squeeze_many(lr);
    let at_u = dot(small.skip(half), tensor(p, u)) % p;
    let t1 = t0.write(at_u);
    lemma_prefix_push(t0.proof, Event::Element(at_u));
    let w = challenges(ch, t1.hist, s.num_queries);
    lemma_squeeze_many_hist(t1, s.num_queries);
    let t2 = t1.squeeze_many(s.num_queries);
    let rc = challenges(ch, t2.hist, 2);
    lemma_squeeze_many_hist(t2, 2);
    let t3 = t2.squeeze_many(2);
    let ts = seq![
        mask_of(p, 2 * s.row_len, c.indices, w),
        small,
        matrix_at(p, s.matrix, tensor(p, u), 2 * s.row_len),
    ];
    lemma_first_tables(p, s, c.indices, w, small, tensor(p, u));
    let comb = mask_comb(rc[0], rc[1]);
    let r = prove_rounds(quadratic_shape(p, ch), comb, t3, ts, lr + 1);
    lemma_rounds_end(quadratic_shape(p, ch), comb, t3, ts, lr + 1);
    let t4 = r.tx.write(r.tables[2][0]);
    lemma_prefix_push(r.tx.proof, Event::Element(r.tables[2][0]));
    let rest = tensor(p, r.point.skip(1));
    let sent = seq![dot(small.take(half), rest) % p, dot(small.skip(half), rest) % p];
    lemma_write_all_extends(t4, sent);
    let t5 = t4.write_all(sent);
    lemma_prefix_trans(tx.proof, c.tx.proof, t1.proof);
    lemma_prefix_trans(tx.proof, t1.proof, r.tx.proof);
    lemma_prefix_trans(tx.proof, r.tx.proof, t4.proof);
    lemma_prefix_trans(tx.proof, t4.proof, t5.proof);
}

/// The tables of the first sum-check are reduced.
proof fn lemma_first_tables(
    p: int,
    s: Scheme,
    idx: Seq<int>,
    w: Seq<int>,
    small: Seq<int>,
    t: Seq<int>,
)
    requires
        p > 0,
        small.len() == 2 * s.row_len,
        canonical(p, small),
    ensures
        ({
            let ts = seq![
                mask_of(p, 2 * s.row_len, idx, w),
                small,
                matrix_at(p, s.matrix, t, 2 * s.row_len),
            ];
            &&& uniform(ts, 2 * s.row_len)
            &&& all_canonical(p, ts)
        }),
{
    let size = 2 * s.row_len;
    let mask = mask_of(p, size, idx, w);
    let h = matrix_at(p, s.matrix, t, size);
    assert forall|k: int| 0 <= k < size implies 0 <= #[trigger] mask[k] < p by {
        lemma_mod_canonical(
            p,
            sum_of(
                idx.len(),
                |i: int|
                    if idx[i] == k {
                        w[i]
                    } else {
                        0
                    },
            ),
        );
    }
    assert forall|k: int| 0 <= k < size implies 0 <= #[trigger] h[k] < p by {
        lemma_mod_canonical(
            p,
            sum_of(s.matrix.row.len(), |i: int| weighed_entry(s.matrix, t, k, i)),
        );
    }
    let ts = seq![mask, small, h];
    assert forall|i: int| 0 <= i < ts.len() implies canonical(p, #[trigger] ts[i]) by {
        assert(i == 0 || i == 1 || i == 2);
    }
}

/// An honest first phase is accepted.
#[verifier::rlimit(60)]
pub proof fn lemma_first_complete<F: PrimeField, H: HashFunction>(
    p: int,
    ch: Oracle,
    s: Scheme,
    tx: Tx,
    rows: Seq<Seq<int>>,
    point: Seq<int>,
    trusted: Output,
    full: Seq<Event>,
    check: Check,
)
    requires
        field_fits(p, ch),
        scheme_honest(p, s),
        rows_honest(p, s, rows),
        point.len() == s.num_vars,
        synced(tx, full, check),
        first_phase(
            p,
            ch,
            s,
            tx,
            rows,
            tree_over::<H>(column_leaves::<F, H>(rows, s.codeword_len), ceil_log2(s.codeword_len)),
            small_table(p, s, rows, point),
        ).tx.proof.is_prefix_of(full),
    ensures
        ({
            let leaves = column_leaves::<F, H>(rows, s.codeword_len);
            let depth = ceil_log2(s.codeword_len);
            let small = small_table(p, s, rows, point);
            let f = first_phase(p, ch, s, tx, rows, tree_over::<H>(leaves, depth), small);
            let c = check_first::<F, H>(
                p,
                ch,
                public_of(s, trusted),
                check,
                tree_level::<H>(leaves, depth)[0],
                tensor(p, point.take(log2_of(s.num_rows) as int)),
            );
            &&& synced(f.tx, full, c.check)
            &&& first_done(p, s, small, f, c)
        }),
{
    let leaves = column_leaves::<F, H>(rows, s.codeword_len);
    let depth = ceil_log2(s.codeword_len);
    let tree = tree_over::<H>(leaves, depth);
    let root = tree_level::<H>(leaves, depth)[0];
    let small = small_table(p, s, rows, point);
    let x = tensor(p, point.take(log2_of(s.num_rows) as int));
    let v = public_of(s, trusted);
    let lr = log2_of(s.row_len);
    let half = s.row_len as int;
    let size = 2 * s.row_len;
    lemma_scheme_sizes(s);
    lemma_small_table(p, s, rows, point);
    lemma_columns_extend(ch, tx, rows, tree, s.codeword_len, s.num_queries);
    let c = send_columns(ch, tx, rows, tree, s.codeword_len, s.num_queries);
    let u = challenges(ch, c.tx.hist, lr);
    lemma_challenges_canonical(p, ch, c.tx.hist, lr);
    lemma_squeeze_many_hist(c.tx, lr);
    let t0 = c.tx.squeeze_many(lr);
    let at_u = dot(small.skip(half), tensor(p, u)) % p;
    let t1 = t0.write(at_u);
    lemma_prefix_push(t0.proof, Event::Element(at_u));
    let w = challenges(ch, t1.hist, s.num_queries);
    lemma_squeeze_many_hist(t1, s.num_queries);
    let t2 = t1.squeeze_many(s.num_queries);
    let rc = challenges(ch, t2.hist, 2);
    lemma_squeeze_many_hist(t2, 2);
    let t3 = t2.squeeze_many(2);
    let ts = seq![
        mask_of(p, size, c.indices, w),
        small,
        matrix_at(p, s.matrix, tensor(p, u), size),
    ];
    lemma_first_tables(p, s, c.indices, w, small, tensor(p, u));
    let comb = mask_comb(rc[0], rc[1]);
    let sh = quadratic_shape(p, ch);
    let r = prove_rounds(sh, comb, t3, ts, lr + 1);
    lemma_rounds_end(sh, comb, t3, ts, lr + 1);
    let t4 = r.tx.write(r.tables[2][0]);
    lemma_prefix_push(r.tx.proof, Event::Element(r.tables[2][0]));
    let rest = tensor(p, r.point.skip(1));
    let sent = seq![dot(small.take(half), rest) % p, dot(small.skip(half), rest) % p];
    lemma_write_all_extends(t4, sent);
    let t5 = t4.write_all(sent);
    lemma_prefix_trans(t4.proof, t5.proof, full);
    lemma_prefix_trans(r.tx.proof, t4.proof, full);
    lemma_prefix_trans(t1.proof, r.tx.proof, full);
    lemma_prefix_trans(c.tx.proof, t1.proof, full);
    // what is read
    lemma_columns_sync(ch, tx, full, check, rows, tree, s.codeword_len, s.num_queries);
    let q = read_columns(ch, check, s.num_rows, s.codeword_len, s.num_queries);
    assert forall|i: int| 0 <= i < s.num_queries implies column_holds::<F, H>(
        #[trigger] q.columns[i],
        q.indices[i],
        q.paths[i],
        root,
    ) by {
        law_column_path::<F, H>(rows, s.codeword_len, c.indices[i]);
    }
    let c0 = q.check;
    law_same_challenges(c.tx, full, c0, ch, lr);
    let c1 = c0.squeeze_many(ch, lr).0;
    law_read_written(t0, full, c1, at_u);
    let c2 = c1.read().0;
    law_same_challenges(t1, full, c2, ch, s.num_queries);
    let c3 = c2.squeeze_many(ch, s.num_queries).0;
    law_same_challenges(t2, full, c3, ch, 2);
    let c4 = c3.squeeze_many(ch, 2).0;
    assert(tensor(p, u).len() == s.row_len);
    lemma_first_claim(p, s, rows, point, c.indices, q.columns, w, rc, tensor(p, u), at_u);
    let claim = (rc[0] * weighed_columns(x, q.columns, w) + rc[1] * at_u) % p;
    lemma_mask_comb(p, rc[0], rc[1]);
    law_sum_check_complete(sh, comb, t3, ts, lr + 1, lr + 1, full, c4, claim);
    let k = check_rounds(sh, c4, claim, lr + 1);
    law_read_written(r.tx, full, k.check, r.tables[2][0]);
    let d1 = k.check.read().0;
    law_read_all_written(t4, full, d1, sent);
    // three values, read at once
    lemma_read_three(k.check);
    let e = k.check.read_many(3).1;
    assert(sent.len() == 2);
    assert(e =~= seq![r.tables[2][0], sent[0], sent[1]]);
    assert(r.point.skip(1).len() == lr);
    lemma_halves(p, small, r.point);
    lemma_mask_value(p, size, c.indices, w, r.point);
    let mv = mle(p, ts[0], r.point);
    let sv = mle(p, small, r.point);
    let hv = mle(p, ts[2], r.point);
    let vals = mles(p, ts, r.point);
    assert(vals[0] == mv && vals[1] == sv && vals[2] == hv);
    let m0 = mask_at(c.indices, w, r.point);
    let bl = blend(e[1], e[2], r.point[0]);
    lemma_cong_mul(p, rc[0], rc[0], mv, m0);
    lemma_cong_add(p, rc[0] * mv, rc[0] * m0, rc[1] * hv, rc[1] * hv);
    lemma_cong_mul(p, rc[0] * mv + rc[1] * hv, rc[0] * m0 + rc[1] * hv, sv, bl);
    assert(rc[0] * (mv * sv) + rc[1] * (hv * sv) == (rc[0] * mv + rc[1] * hv) * sv) by (nonlinear_arith);
    lemma_cong_mod(p, comb(vals));
}

/// Reading three values is reading one, and then two.
pub proof fn lemma_read_three(c: Check)
    ensures
        ({
            let (c1, x) = c.read();
            let (c2, y) = c1.read_many(2);
            c.read_many(3) == (c2, seq![x, y[0], y[1]])
        }),
{
    let (c1, x) = c.read();
    let a = c1.read_many(0);
    let b = c1.read_many(1);
    let d = c1.read_many(2);
    reveal_with_fuel(Check::read_many, 4);
    assert(c.read_many(1) == (c1, Seq::<int>::empty().push(x)));
    assert(c.read_many(3).1 =~= seq![x, d.1[0], d.1[1]]);
}

/// Three writes are one write of three values.
pub proof fn lemma_write_three(tx: Tx, a: int, b: int, c: int)
    ensures
        tx.write(a).write(b).write(c) == tx.write_all(seq![a, b, c]),
{
    let v = seq![a, b, c];
    let w = v.drop_last();
    let x = w.drop_last();
    assert(x.drop_last() =~= Seq::empty());
    assert(tx.write_all(x.drop_last()) == tx);
    assert(tx.write_all(x) == tx.write(a));
    assert(tx.write_all(w) == tx.write(a).write(b));
}

/// Terms that are zero do not count.
pub proof fn lemma_sum_prefix(n: nat, m: nat, f: spec_fn(int) -> int)
    requires
        m <= n,
        forall|i: int| m <= i < n ==> #[trigger] f(i) == 0,
    ensures
        sum_of(n, f) == sum_of(m, f),
    decreases n,
{
    if m < n {
        lemma_sum_prefix((n - 1) as nat, m, f);
        lemma_sum_step((n - 1) as nat, f);
    }
}

/// The values that the matrix reads are reduced.
proof fn lemma_eq_values(p: int, idx: Seq<int>, y: Seq<int>)
    requires
        p > 0,
    ensures
        canonical(p, eq_values(p, idx, y)),
        eq_values(p, idx, y).len() == idx.len(),
{
    let e = eq_values(p, idx, y);
    assert forall|i: int| 0 <= i < e.len() implies 0 <= #[trigger] e[i] < p by {
        lemma_mod_canonical(p, eq_prod(idx[i], y));
    }
}

/// The value of the matrix is the sum that the second sum-check is about.
proof fn lemma_second_claim(p: int, s: Scheme, u: Seq<int>, y: Seq<int>)
    requires
        p > 0,
        scheme_fits(s),
        s.row_len >= 2,
        u.len() == log2_of(s.row_len),
        y.len() == u.len() + 1,
    ensures
        ({
            let n = two_to(s.bf_vars);
            let ts = seq![
                eq_values(p, padded_indices(s.matrix.row, n), y),
                eq_values(p, padded_indices(s.matrix.col, n), seq![0] + u),
                padded_values(s.matrix.val, n),
            ];
            mle(p, matrix_at(p, s.matrix, tensor(p, u), 2 * s.row_len), y) == total(triple_comb(), ts)
                % p
        }),
{
    lemma_scheme_sizes(s);
    let n = two_to(s.bf_vars);
    let m = s.matrix;
    let nnz = m.row.len();
    let t = tensor(p, u);
    let size = 2 * s.row_len;
    let h = matrix_at(p, m, t, size);
    let g = eq_table(y);
    let er = eq_values(p, padded_indices(m.row, n), y);
    let ec = eq_values(p, padded_indices(m.col, n), seq![0] + u);
    let va = padded_values(m.val, n);
    let ts = seq![er, ec, va];
    assert(two_to(0) == 1);
    assert(u.len() >= 1);
    assert forall|i: int| 0 <= i < nnz implies 0 <= #[trigger] m.row[i] < size by {}
    lemma_matrix_sum(p, m, t, size, g);
    lemma_mle_cong(p, h, y);
    let comb = triple_comb();
    let f = |k: int| comb(row(ts, k));
    assert forall|i: int| nnz <= i < n implies #[trigger] f(i) == 0 by {
        let v = row(ts, i);
        assert(v[2] == 0);
        assert(v[0] * v[1] * v[2] == 0) by (nonlinear_arith)
            requires
                v[2] == 0,
        ;
    }
    lemma_sum_prefix(n, nnz, f);
    let a = |i: int| (m.val[i] * t[m.col[i]]) * g[m.row[i]];
    assert forall|i: int| 0 <= i < nnz implies cong(p, #[trigger] a(i), f(i)) by {
        assert(0 <= m.row[i] < s.row_len + m.col[i] && 0 <= m.col[i] < s.codeword_len - s.row_len);
        let v = row(ts, i);
        let (x, z) = (eq_prod(m.row[i], y), eq_prod(m.col[i], u));
        assert(padded_indices(m.row, n)[i] == m.row[i]);
        assert(padded_indices(m.col, n)[i] == m.col[i]);
        lemma_eq_prod_zero(m.col[i], u);
        assert(v[0] == x % p);
        assert(v[1] == z % p);
        assert(v[2] == m.val[i]);
        assert(t[m.col[i]] == z % p);
        assert(g[m.row[i]] == x);
        lemma_cong_mod(p, x);
        let w = m.val[i] * (z % p);
        lemma_cong_mul(p, w, w, x, x % p);
        let (vi, zi, xi) = (m.val[i], z % p, x % p);
        assert((vi * zi) * xi == 1 * (xi * zi * vi)) by (nonlinear_arith);
    }
    lemma_sum_of_cong(p, nnz, a, f);
    let d = total(comb, ts);
    assert(d == sum_of(n, f));
    lemma_mod_small(p, mle(p, h, y));
}

/// The tables of the second sum-check.
proof fn lemma_second_tables(p: int, s: Scheme, u: Seq<int>, y: Seq<int>)
    requires
        p > 0,
        canonical(p, s.matrix.val),
    ensures
        ({
            let n = two_to(s.bf_vars);
            let ts = seq![
                eq_values(p, padded_indices(s.matrix.row, n), y),
                eq_values(p, padded_indices(s.matrix.col, n), seq![0] + u),
                padded_values(s.matrix.val, n),
            ];
            &&& uniform(ts, n)
            &&& all_canonical(p, ts)
        }),
{
    let n = two_to(s.bf_vars);
    let va = padded_values(s.matrix.val, n);
    lemma_eq_values(p, padded_indices(s.matrix.row, n), y);
    lemma_eq_values(p, padded_indices(s.matrix.col, n), seq![0] + u);
    assert(canonical(p, va));
    let ts = seq![
        eq_values(p, padded_indices(s.matrix.row, n), y),
        eq_values(p, padded_indices(s.matrix.col, n), seq![0] + u),
        va,
    ];
    assert forall|i: int| 0 <= i < ts.len() implies canonical(p, #[trigger] ts[i]) by {
        assert(i == 0 || i == 1 || i == 2);
    }
}

/// What an honest second phase gives.
pub open spec fn second_done<F: PrimeField, H: HashFunction>(
    p: int,
    s: Scheme,
    g: Second,
    c: SecondCheck,
) -> bool {
    let n = two_to(s.bf_vars);
    &&& c.point == g.point
    &&& g.point.len() == s.bf_vars
    &&& canonical(p, g.point)
    &&& c.root == batch_root::<F, H>(seq![folded_code(p, s, g.erow), folded_code(p, s, g.ecol)])
    &&& c.evals == seq![
        mle(p, padded_values(s.matrix.val, n), g.point),
        mle(p, g.erow, g.point),
        mle(p, g.ecol, g.point),
    ]
}

/// An honest second phase is accepted.
pub proof fn lemma_second_complete<F: PrimeField, H: HashFunction>(
    p: int,
    ch: Oracle,
    s: Scheme,
    f: First,
    c: FirstCheck,
    small: Seq<int>,
    trusted: Output,
    full: Seq<Event>,
)
    requires
        field_fits(p, ch),
        scheme_honest(p, s),
        first_done(p, s, small, f, c),
        synced(f.tx, full, c.check),
        second_phase::<F, H>(p, ch, s, f).tx.proof.is_prefix_of(full),
    ensures
        ({
            let g = second_phase::<F, H>(p, ch, s, f);
            let d = check_second(p, ch, public_of(s, trusted), c);
            &&& synced(g.tx, full, d.check)
            &&& second_done::<F, H>(p, s, g, d)
        }),
{
    let g = second_phase::<F, H>(p, ch, s, f);
    let n = two_to(s.bf_vars);
    let root = batch_root::<F, H>(seq![folded_code(p, s, g.erow), folded_code(p, s, g.ecol)]);
    let t = f.tx.commit(root);
    let ts = seq![g.erow, g.ecol, padded_values(s.matrix.val, n)];
    let sh = cubic_shape(p, ch);
    let comb = triple_comb();
    lemma_second_extends::<F, H>(p, ch, s, f);
    lemma_second_tables(p, s, f.u, f.point);
    lemma_rounds_end(sh, comb, t, ts, s.bf_vars);
    let r = prove_rounds(sh, comb, t, ts, s.bf_vars);
    let sent = seq![r.tables[2][0], r.tables[0][0], r.tables[1][0]];
    lemma_write_three(r.tx, sent[0], sent[1], sent[2]);
    lemma_write_all_extends(r.tx, sent);
    lemma_prefix_trans(r.tx.proof, g.tx.proof, full);
    lemma_prefix_trans(t.proof, r.tx.proof, full);
    law_read_committed(f.tx, full, c.check, root);
    let c1 = c.check.read_commitment().0;
    lemma_second_claim(p, s, f.u, f.point);
    crate::combiners::lemma_prod3(p, 1, 0, 1, 2, 3);
    law_sum_check_complete(sh, comb, t, ts, s.bf_vars, s.bf_vars, full, c1, c.evals[0]);
    let k = check_rounds(sh, c1, c.evals[0], s.bf_vars);
    law_read_all_written(r.tx, full, k.check, sent);
    let e = k.check.read_many(3).1;
    assert(e == sent);
    assert(e =~= seq![mle(p, ts[2], r.point), mle(p, ts[0], r.point), mle(p, ts[1], r.point)]);
    let vals = mles(p, ts, r.point);
    assert(vals[0] == e[1] && vals[1] == e[2] && vals[2] == e[0]);
    let (x, y, z) = (e[0], e[1], e[2]);
    assert(1 * (y * z * x) == x * y * z) by (nonlinear_arith);
    lemma_cong_mod(p, comb(vals));
}

/// The second phase only adds to the proof.
pub proof fn lemma_second_extends<F: PrimeField, H: HashFunction>(
    p: int,
    ch: Oracle,
    s: Scheme,
    f: First,
)
    requires
        field_fits(p, ch),
        scheme_honest(p, s),
    ensures
        extends(f.tx, second_phase::<F, H>(p, ch, s, f).tx),
        second_phase::<F, H>(p, ch, s, f).point.len() == s.bf_vars,
        canonical(p, second_phase::<F, H>(p, ch, s, f).point),
{
    let g = second_phase::<F, H>(p, ch, s, f);
    let n = two_to(s.bf_vars);
    let root = batch_root::<F, H>(seq![folded_code(p, s, g.erow), folded_code(p, s, g.ecol)]);
    let t = f.tx.commit(root);
    let ts = seq![g.erow, g.ecol, padded_values(s.matrix.val, n)];
    let sh = cubic_shape(p, ch);
    lemma_second_tables(p, s, f.u, f.point);
    lemma_rounds_end(sh, triple_comb(), t, ts, s.bf_vars);
    let r = prove_rounds(sh, triple_comb(), t, ts, s.bf_vars);
    let sent = seq![r.tables[2][0], r.tables[0][0], r.tables[1][0]];
    lemma_write_three(r.tx, sent[0], sent[1], sent[2]);
    lemma_write_all_extends(r.tx, sent);
    lemma_prefix_push(f.tx.proof, Event::Commitment(root));
    lemma_prefix_trans(f.tx.proof, t.proof, r.tx.proof);
    lemma_prefix_trans(f.tx.proof, r.tx.proof, g.tx.proof);
}

/// The value of the leaves that stand for a table before it is read.
pub proof fn lemma_init_value(p: int, gamma: int, tau: int, x: Seq<int>, y: Seq<int>)
    requires
        p > 0,
        x.len() == y.len(),
    ensures
        cong(
            p,
            mle(p, init_leaves(p, gamma, tau, basis(p, x), two_to(y.len())), y),
            weighted_bits(y.reverse()) + gamma * eq_points(x, y) - tau,
        ),
{
    let n = two_to(y.len());
    let b = basis(p, x);
    let l = init_leaves(p, gamma, tau, b, n);
    let a = index_table(n);
    let e = eq_table(y);
    assert forall|i: int| 0 <= i < n implies cong(
        p,
        #[trigger] l[i],
        a[i] + gamma * b[i] + 0 * b[i] + (-tau),
    ) by {
        lemma_cong_mod(p, i + gamma * b[i] - tau);
        assert(0 * b[i] == 0);
    }
    lemma_affine_value(p, gamma, 0, -tau, a, b, b, l, y);
    law_index_polynomial(y);
    lemma_basis_value(p, x, y);
    lemma_cong_mul(p, gamma, gamma, dot(b, e), eq_points(x, y));
    lemma_cong_add(
        p,
        dot(a, e) - tau,
        dot(a, e) - tau,
        gamma * dot(b, e),
        gamma * eq_points(x, y),
    );
    assert(0 * dot(b, e) == 0);
}

/// The value of a table of basis polynomials.
pub proof fn lemma_basis_value(p: int, x: Seq<int>, y: Seq<int>)
    requires
        p > 0,
        x.len() == y.len(),
    ensures
        cong(p, dot(basis(p, x), eq_table(y)), eq_points(x, y)),
        cong(p, mle(p, basis(p, x), y), eq_points(x, y)),
{
    lemma_basis_cong(p, x);
    lemma_dot_cong(p, basis(p, x), eq_table(x), eq_table(y), eq_table(y));
    law_eq_points_sum(x, y);
    lemma_mle_cong(p, basis(p, x), y);
}

/// The value of the leaves that stand for a table after it was read.
pub proof fn lemma_final_value(
    p: int,
    gamma: int,
    tau: int,
    x: Seq<int>,
    times: Seq<int>,
    y: Seq<int>,
)
    requires
        p > 0,
        x.len() == y.len(),
        times.len() == two_to(y.len()),
    ensures
        cong(
            p,
            mle(p, final_leaves(p, gamma, tau, basis(p, x), times, two_to(y.len())), y),
            weighted_bits(y.reverse()) + gamma * eq_points(x, y) - tau + (gamma * gamma) * mle(
                p,
                times,
                y,
            ),
        ),
{
    let n = two_to(y.len());
    let b = basis(p, x);
    let l = final_leaves(p, gamma, tau, b, times, n);
    let a = index_table(n);
    let e = eq_table(y);
    let g2 = gamma * gamma;
    assert forall|i: int| 0 <= i < n implies cong(
        p,
        #[trigger] l[i],
        a[i] + gamma * b[i] + g2 * times[i] + (-tau),
    ) by {
        lemma_cong_mod(p, fingerprint(gamma, tau, i, b[i], times[i]));
    }
    lemma_affine_value(p, gamma, g2, -tau, a, b, times, l, y);
    law_index_polynomial(y);
    lemma_basis_value(p, x, y);
    lemma_mle_cong(p, times, y);
    lemma_cong_mul(p, gamma, gamma, dot(b, e), eq_points(x, y));
    lemma_cong_mul(p, g2, g2, dot(times, e), mle(p, times, y));
    lemma_cong_add(
        p,
        dot(a, e) - tau,
        dot(a, e) - tau,
        gamma * dot(b, e),
        gamma * eq_points(x, y),
    );
    lemma_cong_add(
        p,
        dot(a, e) - tau + gamma * dot(b, e),
        dot(a, e) - tau + gamma * eq_points(x, y),
        g2 * dot(times, e),
        g2 * mle(p, times, y),
    );
}

/// The values of the leaves that stand for reads, and for the writes that follow them.
pub proof fn lemma_access_value(
    p: int,
    gamma: int,
    tau: int,
    addresses: Seq<int>,
    values: Seq<int>,
    times: Seq<int>,
    y: Seq<int>,
)
    requires
        p > 0,
        addresses.len() == two_to(y.len()),
        values.len() == two_to(y.len()),
        times.len() == two_to(y.len()),
    ensures
        ({
            let n = two_to(y.len());
            let g2 = gamma * gamma;
            let r = mle(p, addresses, y) + gamma * mle(p, values, y) + g2 * mle(p, times, y) - tau;
            &&& cong(
                p,
                mle(p, read_leaves(p, gamma, tau, addresses, values, times, n), y),
                r,
            )
            &&& cong(
                p,
                mle(p, write_leaves(p, gamma, tau, addresses, values, times, n), y),
                r + g2,
            )
        }),
{
    let n = two_to(y.len());
    let g2 = gamma * gamma;
    let e = eq_table(y);
    let l = read_leaves(p, gamma, tau, addresses, values, times, n);
    let w = write_leaves(p, gamma, tau, addresses, values, times, n);
    assert forall|i: int| 0 <= i < n implies cong(
        p,
        #[trigger] l[i],
        addresses[i] + gamma * values[i] + g2 * times[i] + (-tau),
    ) by {
        lemma_cong_mod(p, fingerprint(gamma, tau, addresses[i], values[i], times[i]));
    }
    assert forall|i: int| 0 <= i < n implies cong(
        p,
        #[trigger] w[i],
        addresses[i] + gamma * values[i] + g2 * times[i] + (g2 - tau),
    ) by {
        lemma_cong_mod(p, fingerprint(gamma, tau, addresses[i], values[i], times[i]) + gamma * gamma);
    }
    lemma_affine_value(p, gamma, g2, -tau, addresses, values, times, l, y);
    lemma_affine_value(p, gamma, g2, g2 - tau, addresses, values, times, w, y);
    lemma_mle_cong(p, addresses, y);
    lemma_mle_cong(p, values, y);
    lemma_mle_cong(p, times, y);
    let (a, v, t) = (dot(addresses, e), dot(values, e), dot(times, e));
    let (a2, v2, t2) = (mle(p, addresses, y), mle(p, values, y), mle(p, times, y));
    lemma_cong_mul(p, gamma, gamma, v, v2);
    lemma_cong_mul(p, g2, g2, t, t2);
    lemma_cong_add(p, a, a2, gamma * v, gamma * v2);
    lemma_cong_add(p, a + gamma * v, a2 + gamma * v2, g2 * t, g2 * t2);
    lemma_cong_add(
        p,
        a + gamma * v + g2 * t,
        a2 + gamma * v2 + g2 * t2,
        -tau,
        -tau,
    );
    lemma_cong_add(
        p,
        a + gamma * v + g2 * t,
        a2 + gamma * v2 + g2 * t2,
        g2 - tau,
        g2 - tau,
    );
}

/// The two values at the top of the circuits of a balanced table agree.
pub proof fn lemma_outputs(
    p: int,
    init: Seq<int>,
    writes: Seq<int>,
    finals: Seq<int>,
    reads: Seq<int>,
    d1: nat,
    d2: nat,
    a: Seq<int>,
    b: Seq<int>,
    k: int,
)
    requires
        p > 0,
        d1 >= 1,
        d2 >= 1,
        init.len() == two_to(d1),
        finals.len() == two_to(d1),
        writes.len() == two_to(d2),
        reads.len() == two_to(d2),
        canonical(p, init),
        canonical(p, finals),
        canonical(p, writes),
        canonical(p, reads),
        balanced(p, init, writes, finals, reads),
        a[k] == circuit_of(p, init, d1)[d1 - 1][0],
        a[k + 1] == circuit_of(p, init, d1)[d1 - 1][1],
        a[k + 2] == circuit_of(p, finals, d1)[d1 - 1][0],
        a[k + 3] == circuit_of(p, finals, d1)[d1 - 1][1],
        b[k] == circuit_of(p, writes, d2)[d2 - 1][0],
        b[k + 1] == circuit_of(p, writes, d2)[d2 - 1][1],
        b[k + 2] == circuit_of(p, reads, d2)[d2 - 1][0],
        b[k + 3] == circuit_of(p, reads, d2)[d2 - 1][1],
    ensures
        outputs_agree(p, a, b, k),
{
    law_circuit_product(p, init, d1);
    law_circuit_product(p, finals, d1);
    law_circuit_product(p, writes, d2);
    law_circuit_product(p, reads, d2);
    lemma_cong_mul(p, a[k] * a[k + 1], product(init), b[k] * b[k + 1], product(writes));
    lemma_cong_mul(p, a[k + 2] * a[k + 3], product(finals), b[k + 2] * b[k + 3], product(reads));
    let (x0, x1, y0, y1) = (a[k], a[k + 1], b[k], b[k + 1]);
    assert((x0 * x1) * (y0 * y1) == x0 * x1 * y0 * y1) by (nonlinear_arith);
    let (z0, z1, w0, w1) = (a[k + 2], a[k + 3], b[k + 2], b[k + 3]);
    assert((z0 * z1) * (w0 * w1) == z0 * z1 * w0 * w1) by (nonlinear_arith);
}

/// What an honest third phase gives.
pub open spec fn third_done(p: int, s: Scheme, g: Second, h: Third, c: ThirdCheck) -> bool {
    let m = matrix_polys(p, s.matrix, s.row_len, two_to(s.bf_vars));
    &&& c.point1 == h.point1
    &&& c.point2 == h.point2
    &&& h.point1.len() == log2_of(s.row_len) + 1
    &&& h.point2.len() == s.bf_vars
    &&& c.times == seq![
        mle(p, times_left(p, s, s.matrix.row), h.point1),
        mle(p, times_left(p, s, s.matrix.col), h.point1),
    ]
    &&& c.evals == seq![
        mle(p, g.erow, h.point2),
        mle(p, g.ecol, h.point2),
        mle(p, m[1], h.point2),
        mle(p, m[2], h.point2),
        mle(p, m[3], h.point2),
        mle(p, m[4], h.point2),
    ]
}

/// The values that the second phase commits to are those of the tables at the indices.
pub open spec fn reads_fit(p: int, s: Scheme, f: First, g: Second) -> bool {
    let n = two_to(s.bf_vars);
    &&& f.u.len() == log2_of(s.row_len)
    &&& f.point.len() == log2_of(s.row_len) + 1
    &&& g.erow == eq_values(p, padded_indices(s.matrix.row, n), f.point)
    &&& g.ecol == eq_values(p, padded_indices(s.matrix.col, n), seq![0] + f.u)
}

/// The reads of one of the two tables balance.
proof fn lemma_table_balance(
    p: int,
    s: Scheme,
    gamma: int,
    tau: int,
    idx: Seq<int>,
    y: Seq<int>,
)
    requires
        p > 0,
        scheme_fits(s),
        y.len() == log2_of(s.row_len) + 1,
        idx == s.matrix.row || idx == s.matrix.col,
    ensures
        ({
            let n = two_to(s.bf_vars);
            let a = padded_indices(idx, n);
            let e = eq_values(p, a, y);
            let b = basis(p, y);
            let k = 2 * s.row_len;
            balanced(
                p,
                init_leaves(p, gamma, tau, b, k),
                write_leaves(p, gamma, tau, a, e, read_times(p, a), n),
                final_leaves(p, gamma, tau, b, times_left(p, s, idx), k),
                read_leaves(p, gamma, tau, a, e, read_times(p, a), n),
            )
        }),
{
    lemma_scheme_sizes(s);
    lemma_indices_fit(s);
    let n = two_to(s.bf_vars);
    let a = padded_indices(idx, n);
    let e = eq_values(p, a, y);
    let b = basis(p, y);
    assert forall|i: int| 0 <= i < a.len() implies 0 <= #[trigger] a[i] < 2 * s.row_len && e[i]
        == b[a[i]] by {}
    law_accesses_balance(p, gamma, tau, b, a, e, 2 * s.row_len);
}

/// The third phase only adds to the proof.
pub proof fn lemma_third_extends(p: int, ch: Oracle, s: Scheme, f: First, g: Second)
    requires
        field_fits(p, ch),
        scheme_honest(p, s),
    ensures
        ({
            let h = third_phase(p, ch, s, f, g);
            &&& extends(g.tx, h.tx)
            &&& h.point1.len() == log2_of(s.row_len) + 1
            &&& h.point2.len() == s.bf_vars
            &&& canonical(p, h.point1)
            &&& canonical(p, h.point2)
        }),
{
    let h = third_phase(p, ch, s, f, g);
    let gt = challenges(ch, g.tx.hist, 2);
    let d1 = log2_of(s.row_len) + 1;
    let cs1 = circuits_over(p, table_leaves_of(p, s, f, gt), d1);
    let cs2 = circuits_over(p, access_leaves_of(p, s, g, gt), s.bf_vars);
    lemma_scheme_sizes(s);
    lemma_leaves_fit(p, s, f, g, gt);
    lemma_squeeze_many_hist(g.tx, 2);
    let t0 = g.tx.squeeze_many(2);
    let a = gkr_prove(p, ch, t0, cs1);
    assert(cs1[0].len() == d1 + 1);
    assert(cs2[0].len() == s.bf_vars + 1);
    lemma_gkr_extends(p, ch, t0, cs1, d1, (d1 - 1) as nat);
    let sent = seq![
        mle(p, times_left(p, s, s.matrix.row), a.point),
        mle(p, times_left(p, s, s.matrix.col), a.point),
    ];
    let t1 = a.tx.write_all(sent);
    lemma_write_all_extends(a.tx, sent);
    let b = gkr_prove(p, ch, t1, cs2);
    lemma_gkr_extends(p, ch, t1, cs2, s.bf_vars, (s.bf_vars - 1) as nat);
    let m = matrix_polys(p, s.matrix, s.row_len, two_to(s.bf_vars));
    let last = seq![
        mle(p, m[1], b.point),
        mle(p, m[2], b.point),
        mle(p, m[3], b.point),
        mle(p, m[4], b.point),
        mle(p, g.erow, b.point),
        mle(p, g.ecol, b.point),
    ];
    lemma_write_all_extends(b.tx, last);
    lemma_prefix_trans(g.tx.proof, a.tx.proof, t1.proof);
    lemma_prefix_trans(g.tx.proof, t1.proof, b.tx.proof);
    lemma_prefix_trans(g.tx.proof, b.tx.proof, h.tx.proof);
}

/// The claim of four circuits.
pub proof fn lemma_four_claim(
    p: int,
    coeff: Seq<int>,
    leaves: Seq<Seq<int>>,
    depth: nat,
    y: Seq<int>,
)
    requires
        p > 0,
        coeff.len() == 4,
        leaves.len() == 4,
    ensures
        cong(
            p,
            layer_claim(p, coeff, circuits_over(p, leaves, depth), 0, y),
            coeff[0] * mle(p, leaves[0], y) + coeff[1] * mle(p, leaves[1], y) + coeff[2] * mle(
                p,
                leaves[2],
                y,
            ) + coeff[3] * mle(p, leaves[3], y),
        ),
{
    let cs = circuits_over(p, leaves, depth);
    let f = |c: int| coeff[c] * mle(p, cs[c][0], y);
    lemma_sum_step(0, f);
    lemma_sum_step(1, f);
    lemma_sum_step(2, f);
    lemma_sum_step(3, f);
    assert(cs[0][0] == leaves[0] && cs[1][0] == leaves[1] && cs[2][0] == leaves[2] && cs[3][0]
        == leaves[3]);
    lemma_cong_mod(p, sum_of(4, f));
}

/// An honest third phase is accepted.
#[verifier::rlimit(60)]
pub proof fn lemma_third_complete(
    p: int,
    ch: Oracle,
    s: Scheme,
    f: First,
    fc: FirstCheck,
    g: Second,
    gc: SecondCheck,
    trusted: Output,
    full: Seq<Event>,
)
    requires
        field_fits(p, ch),
        scheme_honest(p, s),
        reads_fit(p, s, f, g),
        fc.u == f.u,
        fc.point == f.point,
        synced(g.tx, full, gc.check),
        third_phase(p, ch, s, f, g).tx.proof.is_prefix_of(full),
    ensures
        ({
            let h = third_phase(p, ch, s, f, g);
            let c = check_third(p, ch, public_of(s, trusted), fc, gc);
            &&& synced(h.tx, full, c.check)
            &&& third_done(p, s, g, h, c)
        }),
{
    let v = public_of(s, trusted);
    let h = third_phase(p, ch, s, f, g);
    let gt = challenges(ch, g.tx.hist, 2);
    let d1 = log2_of(s.row_len) + 1;
    let d2 = s.bf_vars;
    let n = two_to(d2);
    let la = table_leaves_of(p, s, f, gt);
    let lb = access_leaves_of(p, s, g, gt);
    let cs1 = circuits_over(p, la, d1);
    let cs2 = circuits_over(p, lb, d2);
    lemma_scheme_sizes(s);
    lemma_leaves_fit(p, s, f, g, gt);
    lemma_squeeze_many_hist(g.tx, 2);
    lemma_challenges_canonical(p, ch, g.tx.hist, 2);
    let t0 = g.tx.squeeze_many(2);
    let a = gkr_prove(p, ch, t0, cs1);
    assert(cs1[0].len() == d1 + 1);
    assert(cs2[0].len() == d2 + 1);
    lemma_gkr_extends(p, ch, t0, cs1, d1, (d1 - 1) as nat);
    let fr = times_left(p, s, s.matrix.row);
    let fcol = times_left(p, s, s.matrix.col);
    let sent = seq![mle(p, fr, a.point), mle(p, fcol, a.point)];
    let t1 = a.tx.write_all(sent);
    lemma_write_all_extends(a.tx, sent);
    let b = gkr_prove(p, ch, t1, cs2);
    lemma_gkr_extends(p, ch, t1, cs2, d2, (d2 - 1) as nat);
    let m = matrix_polys(p, s.matrix, s.row_len, n);
    let last = seq![
        mle(p, m[1], b.point),
        mle(p, m[2], b.point),
        mle(p, m[3], b.point),
        mle(p, m[4], b.point),
        mle(p, g.erow, b.point),
        mle(p, g.ecol, b.point),
    ];
    lemma_write_all_extends(b.tx, last);
    lemma_prefix_trans(b.tx.proof, h.tx.proof, full);
    lemma_prefix_trans(t1.proof, b.tx.proof, full);
    lemma_prefix_trans(a.tx.proof, t1.proof, full);
    law_same_challenges(g.tx, full, gc.check, ch, 2);
    let c1 = gc.check.squeeze_many(ch, 2).0;
    law_gkr_complete(p, ch, t0, cs1, d1, full, c1);
    let ka = gkr_check(p, ch, c1, 4, d1);
    law_read_all_written(a.tx, full, ka.check, sent);
    let c2 = ka.check.read_many(2).0;
    let t = ka.check.read_many(2).1;
    let (gamma, tau) = (gt[0], gt[1]);
    // the first input layer
    assert(cong(
        p,
        ka.claim,
        first_input_layer(
            gamma,
            tau,
            weighted_bits(a.point.reverse()),
            eq_points(f.point, a.point),
            eq_points(seq![0] + f.u, a.point),
            t[0],
            t[1],
            ka.coeff,
        ),
    )) by {
        lemma_four_claim(p, ka.coeff, la, d1, a.point);
        lemma_init_value(p, gamma, tau, f.point, a.point);
        lemma_final_value(p, gamma, tau, f.point, fr, a.point);
        lemma_init_value(p, gamma, tau, seq![0] + f.u, a.point);
        lemma_final_value(p, gamma, tau, seq![0] + f.u, fcol, a.point);
        let i = weighted_bits(a.point.reverse());
        let g2 = gamma * gamma;
        let e0 = i + gamma * eq_points(f.point, a.point) - tau;
        let e2 = i + gamma * eq_points(seq![0] + f.u, a.point) - tau;
        lemma_weigh_cong(
            p,
            ka.coeff,
            mle(p, la[0], a.point),
            e0,
            mle(p, la[1], a.point),
            e0 + g2 * t[0],
            mle(p, la[2], a.point),
            e2,
            mle(p, la[3], a.point),
            e2 + g2 * t[1],
        );
    }
    law_gkr_complete(p, ch, t1, cs2, d2, full, c2);
    let kb = gkr_check(p, ch, c2, 4, d2);
    // the products agree
    let rows = padded_indices(s.matrix.row, n);
    let cols = padded_indices(s.matrix.col, n);
    assert(forall|c: int| 0 <= c < 4 ==> canonical(p, #[trigger] la[c]) && la[c].len() == two_to(d1)) by {
        assert forall|c: int| 0 <= c < 4 implies canonical(p, #[trigger] la[c]) && la[c].len()
            == two_to(d1) by {
            assert(cs1[c][0] == la[c]);
        }
    }
    assert(forall|c: int| 0 <= c < 4 ==> canonical(p, #[trigger] lb[c]) && lb[c].len() == two_to(d2)) by {
        assert forall|c: int| 0 <= c < 4 implies canonical(p, #[trigger] lb[c]) && lb[c].len()
            == two_to(d2) by {
            assert(cs2[c][0] == lb[c]);
        }
    }
    assert(outputs_agree(p, ka.finals, kb.finals, 0)) by {
        lemma_table_balance(p, s, gamma, tau, s.matrix.row, f.point);
        lemma_finals(p, la, d1);
        lemma_finals(p, lb, d2);
        lemma_outputs(p, la[0], lb[0], la[1], lb[1], d1, d2, ka.finals, kb.finals, 0);
    }
    assert(outputs_agree(p, ka.finals, kb.finals, 4)) by {
        lemma_table_balance(p, s, gamma, tau, s.matrix.col, seq![0] + f.u);
        lemma_finals(p, la, d1);
        lemma_finals(p, lb, d2);
        lemma_outputs(p, la[2], lb[2], la[3], lb[3], d1, d2, ka.finals, kb.finals, 4);
    }
    law_read_all_written(b.tx, full, kb.check, last);
    let e = kb.check.read_many(6).1;
    let evals = seq![e[4], e[5], e[0], e[1], e[2], e[3]];
    assert(cong(p, kb.claim, second_input_layer(gamma, tau, evals, kb.coeff))) by {
        lemma_four_claim(p, kb.coeff, lb, d2, b.point);
        lemma_access_value(p, gamma, tau, rows, g.erow, read_times(p, rows), b.point);
        lemma_access_value(p, gamma, tau, cols, g.ecol, read_times(p, cols), b.point);
        let g2 = gamma * gamma;
        let r = evals[2] + gamma * evals[0] + g2 * evals[4] - tau;
        let c = evals[3] + gamma * evals[1] + g2 * evals[5] - tau;
        lemma_weigh_cong(
            p,
            kb.coeff,
            mle(p, lb[0], b.point),
            r + g2,
            mle(p, lb[1], b.point),
            r,
            mle(p, lb[2], b.point),
            c + g2,
            mle(p, lb[3], b.point),
            c,
        );
    }
}

/// The values at the top of the circuits over some leaves.
pub proof fn lemma_finals(p: int, leaves: Seq<Seq<int>>, depth: nat)
    requires
        depth >= 1,
        leaves.len() == 4,
    ensures
        ({
            let v = final_values(circuits_over(p, leaves, depth), depth);
            &&& v[0] == circuit_of(p, leaves[0], depth)[depth - 1][0]
            &&& v[1] == circuit_of(p, leaves[0], depth)[depth - 1][1]
            &&& v[2] == circuit_of(p, leaves[1], depth)[depth - 1][0]
            &&& v[3] == circuit_of(p, leaves[1], depth)[depth - 1][1]
            &&& v[4] == circuit_of(p, leaves[2], depth)[depth - 1][0]
            &&& v[5] == circuit_of(p, leaves[2], depth)[depth - 1][1]
            &&& v[6] == circuit_of(p, leaves[3], depth)[depth - 1][0]
            &&& v[7] == circuit_of(p, leaves[3], depth)[depth - 1][1]
        }),
{
    let cs = circuits_over(p, leaves, depth);
    assert(cs[0] == circuit_of(p, leaves[0], depth));
    assert(cs[1] == circuit_of(p, leaves[1], depth));
    assert(cs[2] == circuit_of(p, leaves[2], depth));
    assert(cs[3] == circuit_of(p, leaves[3], depth));
}

} // verus!
