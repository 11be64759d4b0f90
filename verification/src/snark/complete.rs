//! A proof that was made as it should is accepted: the reads, the batched claims, and the whole.
use vstd::prelude::*;
use crate::algebra::{
    canonical, cong, lemma_cong_add, lemma_cong_mod, lemma_cong_mul, lemma_mod_small,
    lemma_two_to_positive, two_to,
};
use crate::basefold_batch::combine;
use crate::bits::{is_power_of_two, lemma_log2_two_to, log2_of};
use crate::brakingbase::{BrakingbaseProverParams, Scheme, repeated, root_of};
use crate::brakingbase_complete::{
    lemma_basis_reduced, lemma_combine_at, lemma_combine_reduced, lemma_pair_total,
    lemma_write_front,
};
use crate::brakingbase_laws::{
    field_fits, lemma_access_value, lemma_basis_value, lemma_final_value, lemma_init_value,
    lemma_outputs,
};
use crate::code::index_values;
use crate::combiners::{lemma_pair_comb, pair_comb};
use crate::evaluations::{gathered, lemma_dot_sum, lemma_indicator_sum, lemma_repeated_front, mles};
use crate::gkr::gkr::{
    circuits_multiply, final_values, gkr_check, gkr_prove, law_gkr_complete, layer_claim,
    lemma_gkr_extends,
};
use crate::gkr::gpc::{
    balanced, circuit_of, circuits_over, final_leaves, init_leaves, law_accesses_balance,
    read_leaves, write_leaves,
};
use crate::gkr::helper::weighted_bits;
use crate::field::{PrimeField, lemma_vals_canonical, vals};
use crate::hash::{HashFunction, Output};
use crate::multilinear::{basis, eq_points, lemma_mle_cong, mle, tensor};
use crate::rounds::{Comb, Shape, all_canonical, prove_rounds, total, uniform};
use crate::snark::batcheval::{
    Tables, batch_eval, batched_tables, commit_reads, last_values, law_times_balance,
    lemma_leaves_multiply,
    lemma_tables_fit, looked_up, lookup_leaves, memory_leaves, meta_fits, metas_fit, prove_batched,
    prove_reads, reads_drawn, tables_fit, tables_of,
};
use crate::snark::er1cs::{er1cs_roots, relation_holds, with_public};
use crate::snark::helper::{
    Meta, SparseRep, all_entries, bound_rows, dim_of, entries_fit, lemma_entry_row, matrix_product,
    meta_of,    tuples_of,
};
use crate::snark::laws::{
    Instance, described, describes, lemma_first_complete, lemma_first_extends,
    lemma_matrix_complete, lemma_matrix_extends, lemma_parallel_complete, lemma_parallel_extends,
    lemma_stage, lemma_stage_extends, public_added, satisfied,
};
use crate::snark::spartan::{
    Constraints, ReadsChecked, all_claims, check_claims, check_constraints, check_matrices,
    check_reads, check_sat, lemma_shape, lookup_order, lookup_values, memory_values,
    products_agree, read_value, sat_balanced, sat_tx,
};
use crate::snark::sum_check::{
    Checked, batched_expected, check_batched, check_initial, eq_all, extended_points, first_layer,
    group, matrix_eval, matrix_fits, parallel, relation_comb, weighted_comb,
};
use crate::sum_checks::{batch_shape, cubic_shape, quadratic_shape};
use crate::sums::{dot, lemma_sum_concat, lemma_sum_of_cong, lemma_sum_step, sum_of};
use crate::transcript::{
    Check, Event, Oracle, Rx, Tx, challenges, checking, extends, law_read_all_committed,
    law_read_all_written, law_same_challenges, lemma_challenges_len, lemma_commit_all_extends,
    lemma_prefix_push, lemma_prefix_trans, lemma_squeeze_many_hist, lemma_write_all_extends,
    oracle_reduced, synced,
};

verus! {

/// The claim for the input layer of circuits is that of their leaves.
pub proof fn lemma_layer_dot(
    p: int,
    coeff: Seq<int>,
    leaves: Seq<Seq<int>>,
    depth: nat,
    y: Seq<int>,
    values: Seq<int>,
)
    requires
        p > 0,
        coeff.len() == leaves.len(),
        values.len() == leaves.len(),
        forall|c: int| 0 <= c < leaves.len() ==> cong(p, #[trigger] values[c], mle(p, leaves[c], y)),
    ensures
        cong(p, layer_claim(p, coeff, circuits_over(p, leaves, depth), 0, y), dot(values, coeff)),
{
    let cs = circuits_over(p, leaves, depth);
    let f = |c: int| coeff[c] * mle(p, cs[c][0], y);
    let g = |c: int| values[c] * coeff[c];
    assert forall|c: int| 0 <= c < coeff.len() implies cong(p, #[trigger] f(c), g(c)) by {
        assert(cs[c][0] == leaves[c]);
        assert(cong(p, values[c], mle(p, leaves[c], y)));
        lemma_cong_mul(p, coeff[c], coeff[c], mle(p, leaves[c], y), values[c]);
        assert(coeff[c] * values[c] == values[c] * coeff[c]) by (nonlinear_arith);
    }
    lemma_sum_of_cong(p, coeff.len(), f, g);
    lemma_cong_mod(p, sum_of(coeff.len(), f));
    lemma_dot_sum(values, coeff, coeff.len());
}

/// The last two values of a circuit, among those of all circuits.
proof fn lemma_last_pair(p: int, leaves: Seq<Seq<int>>, depth: nat, c: int)
    requires
        depth >= 1,
        0 <= c < leaves.len(),
    ensures
        ({
            let v = final_values(circuits_over(p, leaves, depth), depth);
            &&& v[2 * c] == circuit_of(p, leaves[c], depth)[depth - 1][0]
            &&& v[2 * c + 1] == circuit_of(p, leaves[c], depth)[depth - 1][1]
        }),
{
    let cs = circuits_over(p, leaves, depth);
    assert(cs[c] == circuit_of(p, leaves[c], depth));
    assert((2 * c) / 2 == c && (2 * c) % 2 == 0);
    assert((2 * c + 1) / 2 == c && (2 * c + 1) % 2 == 1);
}

/// The leaves of circuits are reduced.
proof fn lemma_leaf(p: int, leaves: Seq<Seq<int>>, depth: nat, c: int)
    requires
        circuits_multiply(p, circuits_over(p, leaves, depth), depth),
        0 <= c < leaves.len(),
    ensures
        leaves[c].len() == two_to(depth),
        canonical(p, leaves[c]),
{
    let cs = circuits_over(p, leaves, depth);
    assert(cs[c][0] == leaves[c]);
}

/// The products for one table and for what was read from it agree.
proof fn lemma_side_agrees(
    p: int,
    a: Seq<Seq<int>>,
    b: Seq<Seq<int>>,
    k: nat,
    l: nat,
    i: int,
    f: int,
    w: int,
    r: int,
)
    requires
        p > 0,
        k >= 1,
        l >= 1,
        0 <= i < a.len(),
        0 <= f < a.len(),
        0 <= w < b.len(),
        0 <= r < b.len(),
        circuits_multiply(p, circuits_over(p, a, k), k),
        circuits_multiply(p, circuits_over(p, b, l), l),
        balanced(p, a[i], b[w], a[f], b[r]),
    ensures
        ({
            let x = final_values(circuits_over(p, a, k), k);
            let y = final_values(circuits_over(p, b, l), l);
            cong(
                p,
                x[2 * i] * x[2 * i + 1] * y[2 * w] * y[2 * w + 1],
                x[2 * f] * x[2 * f + 1] * y[2 * r] * y[2 * r + 1],
            )
        }),
{
    let x = final_values(circuits_over(p, a, k), k);
    let y = final_values(circuits_over(p, b, l), l);
    lemma_last_pair(p, a, k, i);
    lemma_last_pair(p, a, k, f);
    lemma_last_pair(p, b, l, w);
    lemma_last_pair(p, b, l, r);
    lemma_leaf(p, a, k, i);
    lemma_leaf(p, a, k, f);
    lemma_leaf(p, b, l, w);
    lemma_leaf(p, b, l, r);
    lemma_outputs(
        p,
        a[i],
        b[w],
        a[f],
        b[r],
        k,
        l,
        seq![x[2 * i], x[2 * i + 1], x[2 * f], x[2 * f + 1]],
        seq![y[2 * w], y[2 * w + 1], y[2 * r], y[2 * r + 1]],
        0,
    );
}

/// The products agree for rows and for columns of each matrix.
proof fn lemma_products_agree(
    p: int,
    m: Seq<Meta>,
    w: Seq<int>,
    v: Seq<int>,
    gt: Seq<int>,
    k: nat,
    l: nat,
    c: int,
)
    requires
        p > 0,
        metas_fit(p, m, k, l),
        w.len() == two_to(k),
        v.len() == two_to(k),
        0 <= c < 3,
    ensures
        ({
            let t = tables_of(m, w, v);
            let a = memory_leaves(p, t, w, v, gt, two_to(k));
            let b = lookup_leaves(p, t, gt, two_to(l));
            products_agree(
                p,
                final_values(circuits_over(p, a, k), k),
                final_values(circuits_over(p, b, l), l),
                c,
            )
        }),
{
    let t = tables_of(m, w, v);
    let a = memory_leaves(p, t, w, v, gt, two_to(k));
    let b = lookup_leaves(p, t, gt, two_to(l));
    lemma_leaves_multiply(p, m, w, v, gt, k, l);
    assert(meta_fits(p, m[c], two_to(k), two_to(l)));
    law_accesses_balance(p, gt[0], gt[1], w, m[c].row, looked_up(w, m[c].row), two_to(k));
    law_accesses_balance(p, gt[0], gt[1], v, m[c].col, looked_up(v, m[c].col), two_to(k));
    assert(a[0] == init_leaves(p, gt[0], gt[1], w, two_to(k)));
    assert(a[4] == init_leaves(p, gt[0], gt[1], v, two_to(k)));
    assert(a[1 + c] == final_leaves(p, gt[0], gt[1], w, m[c].final_row, two_to(k)));
    assert(a[5 + c] == final_leaves(p, gt[0], gt[1], v, m[c].final_col, two_to(k)));
    lemma_lookup_leaf(p, m, w, v, gt, two_to(l), c);
    lemma_side_agrees(p, a, b, k, l, 0, 1 + c, c, 3 + c);
    lemma_side_agrees(p, a, b, k, l, 4, 5 + c, 6 + c, 9 + c);
}

/// The leaves for the reads of one matrix.
proof fn lemma_lookup_leaf(
    p: int,
    m: Seq<Meta>,
    w: Seq<int>,
    v: Seq<int>,
    gt: Seq<int>,
    size: nat,
    c: int,
)
    requires
        m.len() == 3,
        0 <= c < 3,
    ensures
        ({
            let b = lookup_leaves(p, tables_of(m, w, v), gt, size);
            let (g, d) = (gt[0], gt[1]);
            let (x, y) = (looked_up(w, m[c].row), looked_up(v, m[c].col));
            &&& b[c] == write_leaves(p, g, d, m[c].row, x, m[c].read_row, size)
            &&& b[3 + c] == read_leaves(p, g, d, m[c].row, x, m[c].read_row, size)
            &&& b[6 + c] == write_leaves(p, g, d, m[c].col, y, m[c].read_col, size)
            &&& b[9 + c] == read_leaves(p, g, d, m[c].col, y, m[c].read_col, size)
        }),
{
}

/// The values of the leaves for the tables that are read.
proof fn lemma_memory_values(
    p: int,
    m: Seq<Meta>,
    rx: Seq<int>,
    ry: Seq<int>,
    gt: Seq<int>,
    y: Seq<int>,
    k: nat,
    l: nat,
)
    requires
        p > 0,
        metas_fit(p, m, k, l),
        rx.len() == k,
        ry.len() == k,
        y.len() == k,
    ensures
        ({
            let (w, v) = (basis(p, rx), basis(p, ry));
            let t = tables_of(m, w, v);
            let a = memory_leaves(p, t, w, v, gt, two_to(k));
            let x = memory_values(
                gt[0],
                gt[1],
                weighted_bits(y.reverse()),
                eq_points(rx, y),
                eq_points(ry, y),
                mles(p, t.final_row, y),
                mles(p, t.final_col, y),
            );
            &&& a.len() == 8
            &&& x.len() == 8
            &&& forall|c: int| 0 <= c < 8 ==> cong(p, #[trigger] x[c], mle(p, a[c], y))
        }),
{
    let (w, v) = (basis(p, rx), basis(p, ry));
    let t = tables_of(m, w, v);
    let a = memory_leaves(p, t, w, v, gt, two_to(k));
    let (g, d) = (gt[0], gt[1]);
    let x = memory_values(
        g,
        d,
        weighted_bits(y.reverse()),
        eq_points(rx, y),
        eq_points(ry, y),
        mles(p, t.final_row, y),
        mles(p, t.final_col, y),
    );
    lemma_tables_fit(m, w, v, k, l);
    lemma_init_value(p, g, d, rx, y);
    lemma_init_value(p, g, d, ry, y);
    assert forall|c: int| 0 <= c < 3 implies cong(p, #[trigger] x[1 + c], mle(p, a[1 + c], y)) && cong(
        p,
        x[5 + c],
        mle(p, a[5 + c], y),
    ) by {
        assert(t.final_row[c].len() == two_to(k));
        assert(t.final_col[c].len() == two_to(k));
        lemma_final_value(p, g, d, rx, t.final_row[c], y);
        lemma_final_value(p, g, d, ry, t.final_col[c], y);
        assert(a[1 + c] == final_leaves(p, g, d, w, t.final_row[c], two_to(k)));
        assert(a[5 + c] == final_leaves(p, g, d, v, t.final_col[c], two_to(k)));
        assert(mles(p, t.final_row, y)[c] == mle(p, t.final_row[c], y));
        assert(mles(p, t.final_col, y)[c] == mle(p, t.final_col[c], y));
        assert(c == 0 || c == 1 || c == 2);
    }
    assert forall|c: int| 0 <= c < 8 implies cong(p, #[trigger] x[c], mle(p, a[c], y)) by {
        if c == 0 || c == 4 {
            assert(a[0] == init_leaves(p, g, d, w, two_to(k)));
            assert(a[4] == init_leaves(p, g, d, v, two_to(k)));
        } else if c < 4 {
            assert(x[1 + (c - 1)] == x[c]);
        } else {
            assert(cong(p, x[1 + (c - 5)], mle(p, a[1 + (c - 5)], y)));
            assert(x[5 + (c - 5)] == x[c]);
        }
    }
}

/// The values of the leaves for the reads.
proof fn lemma_lookup_values(
    p: int,
    m: Seq<Meta>,
    w: Seq<int>,
    v: Seq<int>,
    gt: Seq<int>,
    y: Seq<int>,
    e: Seq<int>,
    k: nat,
    l: nat,
)
    requires
        p > 0,
        metas_fit(p, m, k, l),
        y.len() == l,
        ({
            let t = tables_of(m, w, v);
            e == mles(p, t.row + t.e_rx + t.read_row + t.col + t.e_ry + t.read_col, y)
        }),
    ensures
        ({
            let b = lookup_leaves(p, tables_of(m, w, v), gt, two_to(l));
            let x = lookup_values(gt[0], gt[1], e);
            &&& b.len() == 12
            &&& x.len() == 12
            &&& forall|c: int| 0 <= c < 12 ==> cong(p, #[trigger] x[c], mle(p, b[c], y))
        }),
{
    let t = tables_of(m, w, v);
    let b = lookup_leaves(p, t, gt, two_to(l));
    let (g, d) = (gt[0], gt[1]);
    let x = lookup_values(g, d, e);
    let all = t.row + t.e_rx + t.read_row + t.col + t.e_ry + t.read_col;
    lemma_tables_fit(m, w, v, k, l);
    assert forall|c: int| 0 <= c < 3 implies cong(p, #[trigger] x[c], mle(p, b[c], y)) && cong(
        p,
        x[3 + c],
        mle(p, b[3 + c], y),
    ) && cong(p, x[6 + c], mle(p, b[6 + c], y)) && cong(p, x[9 + c], mle(p, b[9 + c], y)) by {
        assert(t.row[c].len() == two_to(l));
        assert(t.e_rx[c].len() == two_to(l));
        assert(t.read_row[c].len() == two_to(l));
        assert(t.col[c].len() == two_to(l));
        assert(t.e_ry[c].len() == two_to(l));
        assert(t.read_col[c].len() == two_to(l));
        lemma_access_value(p, g, d, t.row[c], t.e_rx[c], t.read_row[c], y);
        lemma_access_value(p, g, d, t.col[c], t.e_ry[c], t.read_col[c], y);
        lemma_lookup_leaf(p, m, w, v, gt, two_to(l), c);
        assert(all[c] == t.row[c]);
        assert(all[c + 3] == t.e_rx[c]);
        assert(all[c + 6] == t.read_row[c]);
        assert(all[9 + c] == t.col[c]);
        assert(all[9 + c + 3] == t.e_ry[c]);
        assert(all[9 + c + 6] == t.read_col[c]);
        assert(x[c] == read_value(g, d, e, c) + g * g);
        assert(x[3 + c] == read_value(g, d, e, c));
        assert(x[6 + c] == read_value(g, d, e, 9 + c) + g * g);
        assert(x[9 + c] == read_value(g, d, e, 9 + c));
    }
    assert forall|c: int| 0 <= c < 12 implies cong(p, #[trigger] x[c], mle(p, b[c], y)) by {
        if c < 3 {
        } else if c < 6 {
            assert(cong(p, x[c - 3], mle(p, b[c - 3], y)));
            assert(x[3 + (c - 3)] == x[c]);
        } else if c < 9 {
            assert(cong(p, x[c - 6], mle(p, b[c - 6], y)));
            assert(x[6 + (c - 6)] == x[c]);
        } else {
            assert(cong(p, x[c - 9], mle(p, b[c - 9], y)));
            assert(x[9 + (c - 9)] == x[c]);
        }
    }
}

/// What proving the reads leaves on the sending side.
pub proof fn lemma_reads_extends(
    p: int,
    ch: Oracle,
    tx: Tx,
    m: Seq<Meta>,
    w: Seq<int>,
    v: Seq<int>,
    k: nat,
    l: nat,
)
    requires
        field_fits(p, ch),
        metas_fit(p, m, k, l),
    ensures
        ({
            let r = prove_reads(p, ch, tx, tables_of(m, w, v), w, v, k, l);
            &&& extends(tx, r.tx)
            &&& r.point1.len() == k
            &&& r.point2.len() == l
        }),
{
    let t = tables_of(m, w, v);
    let gt = challenges(ch, tx.hist, 2);
    let t1 = tx.squeeze_many(2);
    let cs = circuits_over(p, memory_leaves(p, t, w, v, gt, two_to(k)), k);
    let ds = circuits_over(p, lookup_leaves(p, t, gt, two_to(l)), l);
    lemma_squeeze_many_hist(tx, 2);
    lemma_leaves_multiply(p, m, w, v, gt, k, l);
    assert(cs[0].len() == k + 1);
    assert(ds[0].len() == l + 1);
    lemma_gkr_extends(p, ch, t1, cs, k, (k - 1) as nat);
    let a = gkr_prove(p, ch, t1, cs);
    lemma_gkr_extends(p, ch, a.tx, ds, l, (l - 1) as nat);
    let b = gkr_prove(p, ch, a.tx, ds);
    let sent = mles(p, t.accesses(), b.point) + mles(p, t.lasts(), a.point);
    lemma_write_all_extends(b.tx, sent);
    lemma_prefix_trans(t1.proof, a.tx.proof, b.tx.proof);
    lemma_prefix_trans(t1.proof, b.tx.proof, b.tx.write_all(sent).proof);
}

/// The reads are accepted, and leave the values of the tables.
pub proof fn lemma_reads_complete(
    p: int,
    ch: Oracle,
    tx: Tx,
    m: Seq<Meta>,
    rx: Seq<int>,
    ry: Seq<int>,
    k: nat,
    l: nat,
    full: Seq<Event>,
    check: Check,
)
    requires
        field_fits(p, ch),
        metas_fit(p, m, k, l),
        rx.len() == k,
        ry.len() == k,
        synced(tx, full, check),
        ({
            let (w, v) = (basis(p, rx), basis(p, ry));
            prove_reads(p, ch, tx, tables_of(m, w, v), w, v, k, l).tx.proof.is_prefix_of(full)
        }),
    ensures
        ({
            let (w, v) = (basis(p, rx), basis(p, ry));
            let t = tables_of(m, w, v);
            let r = prove_reads(p, ch, tx, t, w, v, k, l);
            let c = check_reads(p, ch, check, k, l, rx, ry);
            &&& synced(r.tx, full, c.check)
            &&& c.point1 == r.point1
            &&& c.point2 == r.point2
            &&& c.evals == mles(p, t.accesses(), r.point2) + mles(p, t.lasts(), r.point1)
        }),
{
    let (w, v) = (basis(p, rx), basis(p, ry));
    let t = tables_of(m, w, v);
    let t1 = tx.squeeze_many(2);
    law_same_challenges(tx, full, check, ch, 2);
    let (c1, gt) = check.squeeze_many(ch, 2);
    let al = memory_leaves(p, t, w, v, gt, two_to(k));
    let bl = lookup_leaves(p, t, gt, two_to(l));
    let cs = circuits_over(p, al, k);
    let ds = circuits_over(p, bl, l);
    lemma_leaves_multiply(p, m, w, v, gt, k, l);
    assert(cs[0].len() == k + 1);
    assert(ds[0].len() == l + 1);
    lemma_gkr_extends(p, ch, t1, cs, k, (k - 1) as nat);
    let a = gkr_prove(p, ch, t1, cs);
    lemma_gkr_extends(p, ch, a.tx, ds, l, (l - 1) as nat);
    let b = gkr_prove(p, ch, a.tx, ds);
    let at2 = mles(p, t.accesses(), b.point);
    let at1 = mles(p, t.lasts(), a.point);
    let e = at2 + at1;
    lemma_write_all_extends(b.tx, e);
    lemma_prefix_trans(b.tx.proof, b.tx.write_all(e).proof, full);
    lemma_prefix_trans(a.tx.proof, b.tx.proof, full);
    law_gkr_complete(p, ch, t1, cs, k, full, c1);
    let x = gkr_check(p, ch, c1, 8, k);
    law_gkr_complete(p, ch, a.tx, ds, l, full, x.check);
    let y = gkr_check(p, ch, x.check, 12, l);
    lemma_basis_reduced(p, rx);
    lemma_basis_reduced(p, ry);
    lemma_products_agree(p, m, w, v, gt, k, l, 0);
    lemma_products_agree(p, m, w, v, gt, k, l, 1);
    lemma_products_agree(p, m, w, v, gt, k, l, 2);
    lemma_tables_fit(m, w, v, k, l);
    assert(e.len() == 24);
    law_read_all_written(b.tx, full, y.check, e);
    assert(e.subrange(18, 21) =~= mles(p, t.final_row, a.point));
    assert(e.subrange(21, 24) =~= mles(p, t.final_col, a.point));
    lemma_memory_values(p, m, rx, ry, gt, a.point, k, l);
    lemma_layer_dot(
        p,
        x.coeff,
        al,
        k,
        a.point,
        memory_values(
            gt[0],
            gt[1],
            weighted_bits(a.point.reverse()),
            eq_points(rx, a.point),
            eq_points(ry, a.point),
            e.subrange(18, 21),
            e.subrange(21, 24),
        ),
    );
    let order = mles(p, t.row + t.e_rx + t.read_row + t.col + t.e_ry + t.read_col, b.point);
    assert(lookup_order(e) =~= order);
    lemma_lookup_values(p, m, w, v, gt, b.point, order, k, l);
    lemma_layer_dot(p, y.coeff, bl, l, b.point, lookup_values(gt[0], gt[1], order));
}

/// The values of tables, weighed.
pub open spec fn weighed_mles(p: int, c: Seq<int>, ts: Seq<Seq<int>>, y: Seq<int>) -> int {
    dot(mles(p, ts, y), c)
}

/// A weighed sum of tables has the weighed sum of their values.
proof fn lemma_weighed_value(p: int, c: Seq<int>, ts: Seq<Seq<int>>, y: Seq<int>)
    requires
        p > 0,
        c.len() == ts.len(),
        uniform(ts, two_to(y.len())),
    ensures
        cong(p, dot(combine(p, c, ts, two_to(y.len())), basis(p, y)), weighed_mles(p, c, ts, y)),
        cong(p, mle(p, combine(p, c, ts, two_to(y.len())), y), weighed_mles(p, c, ts, y)),
{
    lemma_combine_at(p, c, ts, y);
    let q = combine(p, c, ts, two_to(y.len()));
    lemma_cong_mod(p, dot(q, basis(p, y)));
    let f = |i: int| c[i] * mle(p, ts[i], y);
    let m = mles(p, ts, y);
    lemma_dot_sum(m, c, ts.len());
    let g = |i: int| m[i] * c[i];
    assert forall|i: int| 0 <= i < ts.len() implies #[trigger] f(i) == g(i) by {
        assert(m[i] == mle(p, ts[i], y));
        assert(c[i] * m[i] == m[i] * c[i]) by (nonlinear_arith);
    }
    crate::sums::lemma_sum_ext(ts.len(), f, g);
}

/// A weighed sum of tables that is repeated has the same value.
proof fn lemma_weighed_front(p: int, c: Seq<int>, ts: Seq<Seq<int>>, f: Seq<int>, y: Seq<int>)
    requires
        p > 0,
        c.len() == ts.len(),
        uniform(ts, two_to(y.len())),
    ensures
        ({
            let q = repeated(combine(p, c, ts, two_to(y.len())), two_to(f.len() + y.len()));
            &&& cong(p, dot(q, basis(p, f + y)), weighed_mles(p, c, ts, y))
            &&& cong(p, mle(p, q, f + y), weighed_mles(p, c, ts, y))
        }),
{
    let t = combine(p, c, ts, two_to(y.len()));
    let q = repeated(t, two_to(f.len() + y.len()));
    lemma_weighed_value(p, c, ts, y);
    lemma_repeated_front(t, f, y);
    lemma_mle_cong(p, q, f + y);
    lemma_mle_cong(p, t, y);
    lemma_cong_mod(p, dot(q, basis(p, f + y)));
}

/// A repeated table that is reduced stays so.
proof fn lemma_repeated_reduced(p: int, t: Seq<int>, n: nat)
    requires
        canonical(p, t),
        t.len() > 0,
    ensures
        canonical(p, repeated(t, n)),
        repeated(t, n).len() == n,
{
    assert forall|i: int| 0 <= i < n implies 0 <= #[trigger] repeated(t, n)[i] < p by {
        let j = i % (t.len() as int);
        crate::algebra::lemma_mod_canonical(t.len() as int, i);
        assert(0 <= t[j] < p);
    }
}

/// The sum of products of sequences of two parts.
proof fn lemma_dot_parts(a: Seq<int>, b: Seq<int>, c: Seq<int>)
    requires
        c.len() == a.len() + b.len(),
    ensures
        dot(a + b, c) == dot(a, c.take(a.len() as int)) + dot(b, c.skip(a.len() as int)),
{
    let x = Seq::new(a.len(), |i: int| a[i] * c.take(a.len() as int)[i]);
    let y = Seq::new(b.len(), |i: int| b[i] * c.skip(a.len() as int)[i]);
    let all = Seq::new(c.len(), |i: int| (a + b)[i] * c[i]);
    assert(all =~= x + y);
    lemma_sum_concat(x, y);
}

/// The claims that are batched.
pub open spec fn batch_claims(
    p: int,
    t: Tables,
    e: Seq<int>,
    wit: Seq<int>,
    y: Seq<Seq<int>>,
) -> Seq<int> {
    mles(p, seq![e], y[0]) + mles(p, seq![wit], y[1]) + mles(p, t.e_rx + t.e_ry + t.val, y[2]) + mles(
        p,
        t.e_rx + t.e_ry + t.row + t.col + t.read_row + t.read_col,
        y[3],
    ) + mles(p, t.lasts(), y[4])
}

/// The claims, weighed by parts of the weights.
proof fn lemma_claims_parts(
    p: int,
    t: Tables,
    e: Seq<int>,
    wit: Seq<int>,
    y: Seq<Seq<int>>,
    c: Seq<int>,
    n: nat,
    size: nat,
)
    requires
        tables_fit(t, n, size),
        c.len() == 35,
    ensures
        dot(batch_claims(p, t, e, wit, y), c) == weighed_mles(p, c.subrange(0, 1), seq![e], y[0])
            + weighed_mles(p, c.subrange(1, 2), seq![wit], y[1]) + weighed_mles(
            p,
            c.subrange(2, 11),
            t.e_rx + t.e_ry + t.val,
            y[2],
        ) + weighed_mles(
            p,
            c.subrange(11, 29),
            t.e_rx + t.e_ry + t.row + t.col + t.read_row + t.read_col,
            y[3],
        ) + weighed_mles(p, c.subrange(29, 35), t.lasts(), y[4]),
{
    let p0 = mles(p, seq![e], y[0]);
    let p1 = mles(p, seq![wit], y[1]);
    let p2 = mles(p, t.e_rx + t.e_ry + t.val, y[2]);
    let p3 = mles(p, t.e_rx + t.e_ry + t.row + t.col + t.read_row + t.read_col, y[3]);
    let p4 = mles(p, t.lasts(), y[4]);
    assert(p0.len() == 1 && p1.len() == 1 && p2.len() == 9 && p3.len() == 18 && p4.len() == 6);
    lemma_dot_parts(p0 + p1 + p2 + p3, p4, c);
    let c3 = c.take(29);
    assert(c.skip(29) =~= c.subrange(29, 35));
    lemma_dot_parts(p0 + p1 + p2, p3, c3);
    let c2 = c3.take(11);
    assert(c3.skip(11) =~= c.subrange(11, 29));
    lemma_dot_parts(p0 + p1, p2, c2);
    let c1 = c2.take(2);
    assert(c2.skip(2) =~= c.subrange(2, 11));
    lemma_dot_parts(p0, p1, c1);
    assert(c1.take(1) =~= c.subrange(0, 1));
    assert(c1.skip(1) =~= c.subrange(1, 2));
}

/// The points of the claims have the lengths of their tables.
pub open spec fn points_fit(y: Seq<Seq<int>>, k: nat, l: nat) -> bool {
    &&& y.len() == 5
    &&& y[0].len() == k
    &&& y[1].len() == k
    &&& y[2].len() == l
    &&& y[3].len() == l
    &&& y[4].len() == k
}

/// The tables of the last sum-check fit.
proof fn lemma_batched_tables(
    p: int,
    t: Tables,
    e: Seq<int>,
    wit: Seq<int>,
    y: Seq<Seq<int>>,
    c: Seq<int>,
    k: nat,
    l: nat,
)
    requires
        p > 0,
        1 <= k <= l <= 2 * k,
        points_fit(y, k, l),
    ensures
        ({
            let ts = batched_tables(p, t, e, wit, y, c, two_to(k), two_to(l));
            &&& ts.len() == 10
            &&& uniform(ts, two_to(l))
            &&& all_canonical(p, ts)
        }),
{
    let (n, size) = (two_to(k), two_to(l));
    let ts = batched_tables(p, t, e, wit, y, c, n, size);
    let z = extended_points(y);
    lemma_two_to_positive(k);
    lemma_combine_reduced(p, c.subrange(0, 1), seq![e], n);
    lemma_combine_reduced(p, c.subrange(1, 2), seq![wit], n);
    lemma_combine_reduced(p, c.subrange(29, 35), t.lasts(), n);
    lemma_repeated_reduced(p, combine(p, c.subrange(0, 1), seq![e], n), size);
    lemma_repeated_reduced(p, combine(p, c.subrange(1, 2), seq![wit], n), size);
    lemma_repeated_reduced(p, combine(p, c.subrange(29, 35), t.lasts(), n), size);
    lemma_combine_reduced(p, c.subrange(2, 11), t.e_rx + t.e_ry + t.val, size);
    lemma_combine_reduced(
        p,
        c.subrange(11, 29),
        t.e_rx + t.e_ry + t.row + t.col + t.read_row + t.read_col,
        size,
    );
    lemma_basis_reduced(p, z[0]);
    lemma_basis_reduced(p, z[1]);
    lemma_basis_reduced(p, z[2]);
    lemma_basis_reduced(p, z[3]);
    lemma_basis_reduced(p, z[4]);
    assert forall|i: int| 0 <= i < 10 implies (#[trigger] ts[i]).len() == size && canonical(p, ts[i]) by {
        assert(i == 0 || i == 1 || i == 2 || i == 3 || i == 4 || i == 5 || i == 6 || i == 7 || i == 8
            || i == 9);
    }
}

/// Five congruences, added.
proof fn lemma_five_cong(
    p: int,
    a0: int,
    b0: int,
    a1: int,
    b1: int,
    a2: int,
    b2: int,
    a3: int,
    b3: int,
    a4: int,
    b4: int,
)
    requires
        p > 0,
        cong(p, a0, b0),
        cong(p, a1, b1),
        cong(p, a2, b2),
        cong(p, a3, b3),
        cong(p, a4, b4),
    ensures
        cong(p, a0 + a1 + a2 + a3 + a4, b0 + b1 + b2 + b3 + b4),
{
    lemma_cong_add(p, a0, b0, a1, b1);
    lemma_cong_add(p, a0 + a1, b0 + b1, a2, b2);
    lemma_cong_add(p, a0 + a1 + a2, b0 + b1 + b2, a3, b3);
    lemma_cong_add(p, a0 + a1 + a2 + a3, b0 + b1 + b2 + b3, a4, b4);
}

/// The total of the last sum-check is that of the claims.
proof fn lemma_batched_total(
    p: int,
    t: Tables,
    e: Seq<int>,
    wit: Seq<int>,
    y: Seq<Seq<int>>,
    c: Seq<int>,
    k: nat,
    l: nat,
)
    requires
        p > 0,
        1 <= k <= l <= 2 * k,
        tables_fit(t, two_to(k), two_to(l)),
        e.len() == two_to(k),
        wit.len() == two_to(k),
        points_fit(y, k, l),
        c.len() == 35,
    ensures
        cong(
            p,
            dot(batch_claims(p, t, e, wit, y), c),
            total(pair_comb(5), batched_tables(p, t, e, wit, y, c, two_to(k), two_to(l))),
        ),
{
    let (n, size) = (two_to(k), two_to(l));
    let ts = batched_tables(p, t, e, wit, y, c, n, size);
    let z = extended_points(y);
    let d = (l - k) as nat;
    lemma_batched_tables(p, t, e, wit, y, c, k, l);
    lemma_pair_total(5, ts, size);
    let f = |i: int| dot(ts[i], ts[5 + i]);
    lemma_sum_step(0, f);
    lemma_sum_step(1, f);
    lemma_sum_step(2, f);
    lemma_sum_step(3, f);
    lemma_sum_step(4, f);
    assert(total(pair_comb(5), ts) == f(0) + f(1) + f(2) + f(3) + f(4));
    let big = t.e_rx + t.e_ry + t.row + t.col + t.read_row + t.read_col;
    let mid = t.e_rx + t.e_ry + t.val;
    assert(uniform(seq![e], n));
    assert(uniform(seq![wit], n));
    assert(uniform(mid, size));
    assert(uniform(big, size));
    assert(uniform(t.lasts(), n));
    lemma_weighed_front(p, c.subrange(0, 1), seq![e], y[0].take(d as int).reverse(), y[0]);
    lemma_weighed_front(p, c.subrange(1, 2), seq![wit], y[1].take(d as int).reverse(), y[1]);
    lemma_weighed_value(p, c.subrange(2, 11), mid, y[2]);
    lemma_weighed_value(p, c.subrange(11, 29), big, y[3]);
    lemma_weighed_front(p, c.subrange(29, 35), t.lasts(), y[4].take(d as int).reverse(), y[4]);
    lemma_claims_parts(p, t, e, wit, y, c, n, size);
    lemma_five_cong(
        p,
        weighed_mles(p, c.subrange(0, 1), seq![e], y[0]),
        f(0),
        weighed_mles(p, c.subrange(1, 2), seq![wit], y[1]),
        f(1),
        weighed_mles(p, c.subrange(2, 11), mid, y[2]),
        f(2),
        weighed_mles(p, c.subrange(11, 29), big, y[3]),
        f(3),
        weighed_mles(p, c.subrange(29, 35), t.lasts(), y[4]),
        f(4),
    );
}

/// A sum of three products.
proof fn lemma_dot_three(v: Seq<int>, c: Seq<int>)
    requires
        v.len() == 3,
        c.len() == 3,
    ensures
        dot(v, c) == c[0] * v[0] + c[1] * v[1] + c[2] * v[2],
{
    lemma_dot_sum(v, c, 3);
    let f = |i: int| v[i] * c[i];
    lemma_sum_step(0, f);
    lemma_sum_step(1, f);
    lemma_sum_step(2, f);
    let (a0, a1, a2, b0, b1, b2) = (v[0], v[1], v[2], c[0], c[1], c[2]);
    assert(a0 * b0 == b0 * a0) by (nonlinear_arith);
    assert(a1 * b1 == b1 * a1) by (nonlinear_arith);
    assert(a2 * b2 == b2 * a2) by (nonlinear_arith);
}

/// Three weighed values are a group.
proof fn lemma_group(c: Seq<int>, k: int, e: Seq<int>, g: int, v: Seq<int>, w: Seq<int>)
    requires
        v.len() == 3,
        w.len() == 3,
        v[0] == e[3 * g],
        v[1] == e[3 * g + 1],
        v[2] == e[3 * g + 2],
        w[0] == c[k],
        w[1] == c[k + 1],
        w[2] == c[k + 2],
    ensures
        dot(v, w) == group(c, k, e, g),
{
    lemma_dot_three(v, w);
}

/// Three tables behind others, weighed.
proof fn lemma_weighed_tail(p: int, c: Seq<int>, a: Seq<Seq<int>>, b: Seq<Seq<int>>, y: Seq<int>)
    requires
        b.len() == 3,
        c.len() == a.len() + 3,
    ensures
        weighed_mles(p, c, a + b, y) == weighed_mles(p, c.take(a.len() as int), a, y) + dot(
            mles(p, b, y),
            c.skip(a.len() as int),
        ),
{
    assert(mles(p, a + b, y) =~= mles(p, a, y) + mles(p, b, y));
    lemma_dot_parts(mles(p, a, y), mles(p, b, y), c);
}

/// The groups of values that are sent in the end, weighed.
proof fn lemma_groups(
    p: int,
    t: Tables,
    e: Seq<int>,
    wit: Seq<int>,
    y: Seq<int>,
    c: Seq<int>,
    k: nat,
    n: nat,
    size: nat,
)
    requires
        tables_fit(t, n, size),
        c.len() == 35,
        k <= y.len(),
    ensures
        ({
            let x = last_values(p, t, e, wit, y, k);
            let tail = y.skip(y.len() - k);
            &&& x.len() == 29
            &&& weighed_mles(p, c.subrange(0, 1), seq![e], tail) == c[0] * x[27]
            &&& weighed_mles(p, c.subrange(1, 2), seq![wit], tail) == c[1] * x[28]
            &&& weighed_mles(p, c.subrange(2, 11), t.e_rx + t.e_ry + t.val, y) == group(c, 2, x, 4)
                + group(c, 5, x, 5) + group(c, 8, x, 8)
            &&& weighed_mles(
                p,
                c.subrange(11, 29),
                t.e_rx + t.e_ry + t.row + t.col + t.read_row + t.read_col,
                y,
            ) == group(c, 11, x, 4) + group(c, 14, x, 5) + group(c, 17, x, 0) + group(c, 20, x, 1)
                + group(c, 23, x, 2) + group(c, 26, x, 3)
            &&& weighed_mles(p, c.subrange(29, 35), t.lasts(), tail) == group(c, 29, x, 6) + group(
                c,
                32,
                x,
                7,
            )
        }),
{
    let x = last_values(p, t, e, wit, y, k);
    let tail = y.skip(y.len() - k);
    assert(t.accesses().len() == 18);
    assert(t.lasts().len() == 6);
    lemma_single(p, c.subrange(0, 1), e, tail);
    lemma_single(p, c.subrange(1, 2), wit, tail);
    let m = c.subrange(2, 11);
    lemma_weighed_tail(p, m, t.e_rx + t.e_ry, t.val, y);
    lemma_weighed_tail(p, m.take(6), t.e_rx, t.e_ry, y);
    lemma_group(c, 2, x, 4, mles(p, t.e_rx, y), m.take(6).take(3));
    lemma_group(c, 5, x, 5, mles(p, t.e_ry, y), m.take(6).skip(3));
    lemma_group(c, 8, x, 8, mles(p, t.val, y), m.skip(6));
    let b = c.subrange(11, 29);
    let b4 = t.e_rx + t.e_ry + t.row + t.col + t.read_row;
    let b3 = t.e_rx + t.e_ry + t.row + t.col;
    let b2 = t.e_rx + t.e_ry + t.row;
    lemma_weighed_tail(p, b, b4, t.read_col, y);
    lemma_weighed_tail(p, b.take(15), b3, t.read_row, y);
    lemma_weighed_tail(p, b.take(15).take(12), b2, t.col, y);
    lemma_weighed_tail(p, b.take(15).take(12).take(9), t.e_rx + t.e_ry, t.row, y);
    lemma_weighed_tail(p, b.take(15).take(12).take(9).take(6), t.e_rx, t.e_ry, y);
    lemma_group(c, 11, x, 4, mles(p, t.e_rx, y), b.take(15).take(12).take(9).take(6).take(3));
    lemma_group(c, 14, x, 5, mles(p, t.e_ry, y), b.take(15).take(12).take(9).take(6).skip(3));
    lemma_group(c, 17, x, 0, mles(p, t.row, y), b.take(15).take(12).take(9).skip(6));
    lemma_group(c, 20, x, 1, mles(p, t.col, y), b.take(15).take(12).skip(9));
    lemma_group(c, 23, x, 2, mles(p, t.read_row, y), b.take(15).skip(12));
    lemma_group(c, 26, x, 3, mles(p, t.read_col, y), b.skip(15));
    let f = c.subrange(29, 35);
    lemma_weighed_tail(p, f, t.final_row, t.final_col, tail);
    lemma_group(c, 29, x, 6, mles(p, t.final_row, tail), f.take(3));
    lemma_group(c, 32, x, 7, mles(p, t.final_col, tail), f.skip(3));
}

/// One table, weighed.
proof fn lemma_single(p: int, c: Seq<int>, t: Seq<int>, y: Seq<int>)
    requires
        c.len() == 1,
    ensures
        weighed_mles(p, c, seq![t], y) == c[0] * mle(p, t, y),
{
    let m = mles(p, seq![t], y);
    lemma_dot_sum(m, c, 1);
    let f = |i: int| m[i] * c[i];
    lemma_sum_step(0, f);
    assert(m[0] == mle(p, t, y));
    let (a, b) = (m[0], c[0]);
    assert(a * b == b * a) by (nonlinear_arith);
}

/// What the last sum-check comes to is what the values that are sent give.
proof fn lemma_batched_end(
    p: int,
    t: Tables,
    e: Seq<int>,
    wit: Seq<int>,
    y: Seq<Seq<int>>,
    c: Seq<int>,
    r: Seq<int>,
    k: nat,
    l: nat,
)
    requires
        p > 0,
        1 <= k <= l <= 2 * k,
        tables_fit(t, two_to(k), two_to(l)),
        e.len() == two_to(k),
        wit.len() == two_to(k),
        points_fit(y, k, l),
        c.len() == 35,
        r.len() == l,
    ensures
        cong(
            p,
            pair_comb(5)(mles(p, batched_tables(p, t, e, wit, y, c, two_to(k), two_to(l)), r)),
            batched_expected(c, last_values(p, t, e, wit, r, k), eq_all(extended_points(y), r)),
        ),
{
    let (n, size) = (two_to(k), two_to(l));
    let ts = batched_tables(p, t, e, wit, y, c, n, size);
    let z = extended_points(y);
    let d = l - k;
    let tail = r.skip(d);
    let q = mles(p, ts, r);
    let x = last_values(p, t, e, wit, r, k);
    let eq = eq_all(z, r);
    let big = t.e_rx + t.e_ry + t.row + t.col + t.read_row + t.read_col;
    let mid = t.e_rx + t.e_ry + t.val;
    assert(r =~= r.take(d) + tail);
    assert(uniform(seq![e], n));
    assert(uniform(seq![wit], n));
    assert(uniform(mid, size));
    assert(uniform(big, size));
    assert(uniform(t.lasts(), n));
    lemma_weighed_front(p, c.subrange(0, 1), seq![e], r.take(d), tail);
    lemma_weighed_front(p, c.subrange(1, 2), seq![wit], r.take(d), tail);
    lemma_weighed_value(p, c.subrange(2, 11), mid, r);
    lemma_weighed_value(p, c.subrange(11, 29), big, r);
    lemma_weighed_front(p, c.subrange(29, 35), t.lasts(), r.take(d), tail);
    lemma_groups(p, t, e, wit, r, c, k, n, size);
    lemma_basis_value(p, z[0], r);
    lemma_basis_value(p, z[1], r);
    lemma_basis_value(p, z[2], r);
    lemma_basis_value(p, z[3], r);
    lemma_basis_value(p, z[4], r);
    let w0 = weighed_mles(p, c.subrange(0, 1), seq![e], tail);
    let w1 = weighed_mles(p, c.subrange(1, 2), seq![wit], tail);
    let w2 = weighed_mles(p, c.subrange(2, 11), mid, r);
    let w3 = weighed_mles(p, c.subrange(11, 29), big, r);
    let w4 = weighed_mles(p, c.subrange(29, 35), t.lasts(), tail);
    lemma_cong_mul(p, q[0], w0, q[5], eq[0]);
    lemma_cong_mul(p, q[1], w1, q[6], eq[1]);
    lemma_cong_mul(p, q[2], w2, q[7], eq[2]);
    lemma_cong_mul(p, q[3], w3, q[8], eq[3]);
    lemma_cong_mul(p, q[4], w4, q[9], eq[4]);
    lemma_five_cong(
        p,
        q[0] * q[5],
        w0 * eq[0],
        q[1] * q[6],
        w1 * eq[1],
        q[2] * q[7],
        w2 * eq[2],
        q[3] * q[8],
        w3 * eq[3],
        q[4] * q[9],
        w4 * eq[4],
    );
    let f = |i: int| q[i] * q[5 + i];
    lemma_sum_step(0, f);
    lemma_sum_step(1, f);
    lemma_sum_step(2, f);
    lemma_sum_step(3, f);
    lemma_sum_step(4, f);
    assert(pair_comb(5)(q) == sum_of(5, f));
}

/// What the last sum-check leaves on the sending side.
pub proof fn lemma_batched_extends(
    p: int,
    ch: Oracle,
    tx: Tx,
    t: Tables,
    e: Seq<int>,
    wit: Seq<int>,
    y: Seq<Seq<int>>,
    k: nat,
    l: nat,
)
    requires
        field_fits(p, ch),
        1 <= k <= l <= 2 * k,
        points_fit(y, k, l),
    ensures
        extends(tx, prove_batched(p, ch, tx, t, e, wit, y, k, l).tx),
{
    let c = challenges(ch, tx.hist, 35);
    let t1 = tx.squeeze_many(35);
    lemma_squeeze_many_hist(tx, 35);
    lemma_batched_tables(p, t, e, wit, y, c, k, l);
    let ts = batched_tables(p, t, e, wit, y, c, two_to(k), two_to(l));
    let r = prove_rounds(batch_shape(p, ch), pair_comb(5), t1, ts, l);
    let x = last_values(p, t, e, wit, r.point, k);
    lemma_write_front(r.tx, r.tables[5][0], x);
    lemma_stage_extends(batch_shape(p, ch), pair_comb(5), t1, ts, l, seq![r.tables[5][0]] + x);
}

/// The last sum-check is accepted.
pub proof fn lemma_batched_complete(
    p: int,
    ch: Oracle,
    tx: Tx,
    t: Tables,
    e: Seq<int>,
    wit: Seq<int>,
    y: Seq<Seq<int>>,
    k: nat,
    l: nat,
    full: Seq<Event>,
    check: Check,
)
    requires
        field_fits(p, ch),
        1 <= k <= l <= 2 * k,
        tables_fit(t, two_to(k), two_to(l)),
        e.len() == two_to(k),
        wit.len() == two_to(k),
        points_fit(y, k, l),
        synced(tx, full, check),
        prove_batched(p, ch, tx, t, e, wit, y, k, l).tx.proof.is_prefix_of(full),
    ensures
        ({
            let b = prove_batched(p, ch, tx, t, e, wit, y, k, l);
            let (c1, c) = check.squeeze_many(ch, 35);
            let v = check_batched(p, ch, c1, y, dot(batch_claims(p, t, e, wit, y), c) % p, c);
            &&& synced(b.tx, full, v.check)
            &&& v.point == b.point
            &&& v.evals == last_values(p, t, e, wit, b.point, k)
        }),
{
    let t1 = tx.squeeze_many(35);
    law_same_challenges(tx, full, check, ch, 35);
    let (c1, c) = check.squeeze_many(ch, 35);
    lemma_challenges_len(ch, tx.hist, 35);
    lemma_batched_tables(p, t, e, wit, y, c, k, l);
    let ts = batched_tables(p, t, e, wit, y, c, two_to(k), two_to(l));
    let sh = batch_shape(p, ch);
    let comb = pair_comb(5);
    let claim = dot(batch_claims(p, t, e, wit, y), c) % p;
    let r = prove_rounds(sh, comb, t1, ts, l);
    let x = last_values(p, t, e, wit, r.point, k);
    let sent = seq![r.tables[5][0]] + x;
    lemma_write_front(r.tx, r.tables[5][0], x);
    lemma_stage_extends(sh, comb, t1, ts, l, sent);
    lemma_pair_comb(p, 5);
    lemma_batched_total(p, t, e, wit, y, c, k, l);
    lemma_groups(p, t, e, wit, r.point, c, k, two_to(k), two_to(l));
    assert(sent.len() == 30);
    lemma_stage(sh, comb, t1, ts, l, sent, full, c1, claim);
    lemma_batched_end(p, t, e, wit, y, c, r.point, k, l);
    assert(sent.skip(1) =~= x);
}

/// What the proof of the values leaves on the sending side.
proof fn lemma_batch_eval_extends<F: PrimeField, H: HashFunction>(
    p: int,
    ch: Oracle,
    s: Scheme,
    tx: Tx,
    x: Instance,
    m: Seq<Meta>,
    rx: Seq<int>,
    ry: Seq<int>,
    k: nat,
    l: nat,
)
    requires
        field_fits(p, ch),
        described(p, m, x, k, l),
        rx.len() == k,
        ry.len() == k,
    ensures
        ({
            let (w, v) = (basis(p, rx), basis(p, ry));
            let t = tables_of(m, w, v);
            let t2 = commit_reads::<F, H>(p, s, tx, t);
            let a = matrix_eval(p, ch, t2, t.val, t.e_rx, t.e_ry);
            let b = prove_reads(p, ch, a.tx, t, w, v, k, l);
            let y = seq![rx, ry, a.point, b.point2, b.point1];
            let end = batch_eval::<F, H>(p, ch, s, tx, m, rx, ry, basis(p, rx), x.e, x.w, l);
            &&& extends(tx, t2)
            &&& extends(t2, a.tx)
            &&& extends(a.tx, b.tx)
            &&& extends(b.tx, end)
            &&& extends(tx, end)
            &&& points_fit(y, k, l)
            &&& end == prove_batched(p, ch, b.tx, t, x.e, x.w, y, k, l).tx
            &&& tables_fit(t, two_to(k), two_to(l))
        }),
{
    let (w, v) = (basis(p, rx), basis(p, ry));
    lemma_basis_reduced(p, rx);
    lemma_basis_reduced(p, ry);
    let t = tables_of(m, w, v);
    lemma_tables_fit(m, w, v, k, l);
    let reads = t.e_rx + t.e_ry;
    let sent = Seq::new(reads.len(), |i: int| root_of::<F, H>(p, s, reads[i]));
    let t2 = commit_reads::<F, H>(p, s, tx, t);
    lemma_commit_all_extends(tx, sent);
    let a = matrix_eval(p, ch, t2, t.val, t.e_rx, t.e_ry);
    lemma_matrix_extends(p, ch, t2, x, m, w, v, k, l);
    let b = prove_reads(p, ch, a.tx, t, w, v, k, l);
    lemma_reads_extends(p, ch, a.tx, m, w, v, k, l);
    let y = seq![rx, ry, a.point, b.point2, b.point1];
    let d = prove_batched(p, ch, b.tx, t, x.e, x.w, y, k, l);
    lemma_batched_extends(p, ch, b.tx, t, x.e, x.w, y, k, l);
    lemma_prefix_trans(tx.proof, t2.proof, a.tx.proof);
    lemma_prefix_trans(tx.proof, a.tx.proof, b.tx.proof);
    lemma_prefix_trans(tx.proof, b.tx.proof, d.tx.proof);
}

/// The proof of the values is accepted.
proof fn lemma_batch_eval_complete<F: PrimeField, H: HashFunction>(
    p: int,
    ch: Oracle,
    s: Scheme,
    tx: Tx,
    x: Instance,
    m: Seq<Meta>,
    f: Constraints,
    k: nat,
    l: nat,
    full: Seq<Event>,
)
    requires
        field_fits(p, ch),
        satisfied(p, x, k),
        described(p, m, x, k, l),
        f.rx.len() == k,
        f.ry.len() == k,
        f.e == mle(p, x.e, f.rx),
        f.w == mle(p, x.w, f.ry),
        f.evals == seq![
            mle(p, bound_rows(p, x.a, tensor(p, f.rx), x.z.len()), f.ry),
            mle(p, bound_rows(p, x.b, tensor(p, f.rx), x.z.len()), f.ry),
            mle(p, bound_rows(p, x.c, tensor(p, f.rx), x.z.len()), f.ry),
        ],
        synced(tx, full, f.check),
        batch_eval::<F, H>(p, ch, s, tx, m, f.rx, f.ry, basis(p, f.rx), x.e, x.w, l).proof.is_prefix_of(full),
    ensures
        ({
            let d = check_matrices(p, ch, f.check, l, f.evals);
            let r = check_reads(p, ch, d.check, k, l, f.rx, f.ry);
            synced(
                batch_eval::<F, H>(p, ch, s, tx, m, f.rx, f.ry, basis(p, f.rx), x.e, x.w, l),
                full,
                check_claims(p, ch, f, d, r).check,
            )
        }),
{
    let (rx, ry) = (f.rx, f.ry);
    lemma_batch_eval_extends::<F, H>(p, ch, s, tx, x, m, rx, ry, k, l);
    let (w, v) = (basis(p, rx), basis(p, ry));
    let t = tables_of(m, w, v);
    let reads = t.e_rx + t.e_ry;
    let sent = Seq::new(reads.len(), |i: int| root_of::<F, H>(p, s, reads[i]));
    let t2 = commit_reads::<F, H>(p, s, tx, t);
    let a = matrix_eval(p, ch, t2, t.val, t.e_rx, t.e_ry);
    let b = prove_reads(p, ch, a.tx, t, w, v, k, l);
    let y = seq![rx, ry, a.point, b.point2, b.point1];
    let end = batch_eval::<F, H>(p, ch, s, tx, m, rx, ry, basis(p, rx), x.e, x.w, l);
    lemma_prefix_trans(b.tx.proof, end.proof, full);
    lemma_prefix_trans(a.tx.proof, b.tx.proof, full);
    lemma_prefix_trans(t2.proof, a.tx.proof, full);
    law_read_all_committed(tx, full, f.check, sent);
    assert(sent.len() == 6);
    let c2 = f.check.read_commitments(6).0;
    lemma_matrix_complete(p, ch, t2, x, m, rx, ry, f.evals, k, l, full, c2);
    let d = check_matrices(p, ch, f.check, l, f.evals);
    lemma_reads_complete(p, ch, a.tx, m, rx, ry, k, l, full, d.check);
    let r = check_reads(p, ch, d.check, k, l, rx, ry);
    lemma_batched_complete(p, ch, b.tx, t, x.e, x.w, y, k, l, full, r.check);
    lemma_claims_order(p, t, x.e, x.w, y, f, d, r, two_to(k), two_to(l));
}

/// The claims on both sides are in the same order.
proof fn lemma_claims_order(
    p: int,
    t: Tables,
    e: Seq<int>,
    wit: Seq<int>,
    y: Seq<Seq<int>>,
    f: Constraints,
    d: Checked,
    r: ReadsChecked,
    n: nat,
    size: nat,
)
    requires
        tables_fit(t, n, size),
        f.e == mle(p, e, y[0]),
        f.w == mle(p, wit, y[1]),
        d.evals == mles(p, t.e_rx + t.e_ry + t.val, y[2]),
        r.evals == mles(p, t.accesses(), y[3]) + mles(p, t.lasts(), y[4]),
    ensures
        all_claims(f, d, r) == batch_claims(p, t, e, wit, y),
{
    let big = t.e_rx + t.e_ry + t.row + t.col + t.read_row + t.read_col;
    assert(mles(p, seq![e], y[0]) + mles(p, seq![wit], y[1]) =~= seq![f.e, f.w]);
    assert(r.evals.subrange(12, 18) + r.evals.subrange(0, 12) =~= mles(p, big, y[3]));
    assert(r.evals.subrange(18, 24) =~= mles(p, t.lasts(), y[4]));
    assert(all_claims(f, d, r) =~= batch_claims(p, t, e, wit, y));
}

/// A proof that the constraints hold for the vector is accepted: whatever was sent before, and whatever
/// the commitments are, the receiver reads just what was sent and finds no fault.
pub proof fn law_sat_accepted<F: PrimeField, H: HashFunction>(
    p: int,
    ch: Oracle,
    s: Scheme,
    tx: Tx,
    roots: Seq<Output>,
    x: Instance,
    m: Seq<Meta>,
    indices: Seq<int>,
    pi: Seq<int>,
    k: nat,
    l: nat,
    full: Seq<Event>,
    check: Check,
)
    requires
        field_fits(p, ch),
        roots.len() == 23,
        satisfied(p, x, k),
        described(p, m, x, k, l),
        public_added(p, x.z, x.w, indices, pi),
        synced(tx, full, check),
        sat_tx::<F, H>(
            p,
            ch,
            s,
            tx.commit_all(roots),
            x.a,
            x.b,
            x.c,
            x.u,
            x.z,
            x.e,
            x.w,
            m,
            l,
        ).proof.is_prefix_of(full),
    ensures
        synced(
            sat_tx::<F, H>(
                p,
                ch,
                s,
                tx.commit_all(roots),
                x.a,
                x.b,
                x.c,
                x.u,
                x.z,
                x.e,
                x.w,
                m,
                l,
            ),
            full,
            check_sat(p, ch, check, k, l, x.u, indices, pi),
        ),
{
    let t0 = tx.commit_all(roots);
    let f = first_layer(p, ch, t0, x.a, x.b, x.c, x.u, x.z, x.e);
    lemma_first_extends(p, ch, t0, x, k);
    let rx = f.point;
    let g = parallel(p, ch, f.tx, x.a, x.b, x.c, x.z, tensor(p, rx));
    lemma_parallel_extends(p, ch, f.tx, x, rx, k);
    let ry = g.point;
    let at = mle(p, x.w, ry);
    let t1 = g.tx.write(at);
    let end = batch_eval::<F, H>(p, ch, s, t1, m, rx, ry, basis(p, rx), x.e, x.w, l);
    lemma_batch_eval_extends::<F, H>(p, ch, s, t1, x, m, rx, ry, k, l);
    lemma_prefix_trans(t1.proof, end.proof, full);
    lemma_prefix_push(g.tx.proof, Event::Element(at));
    lemma_prefix_trans(g.tx.proof, t1.proof, full);
    lemma_prefix_trans(f.tx.proof, g.tx.proof, full);
    lemma_prefix_trans(t0.proof, f.tx.proof, full);
    law_read_all_committed(tx, full, check, roots);
    let c1 = check.read_commitments(23).0;
    lemma_first_complete(p, ch, t0, x, k, full, c1);
    let v1 = check_initial(p, ch, c1, k, x.u);
    lemma_parallel_complete(p, ch, f.tx, x, rx, v1.evals, indices, pi, k, full, v1.check);
    let fc = check_constraints(p, ch, c1, k, x.u, indices, pi);
    lemma_batch_eval_complete::<F, H>(p, ch, s, t1, x, m, fc, k, l, full);
}

/// The values in a matrix are reduced.
pub open spec fn values_reduced(p: int, rows: Seq<Seq<(int, int)>>) -> bool {
    forall|i: int, k: int|
        #![trigger rows[i][k]]
        0 <= i < rows.len() && 0 <= k < rows[i].len() ==> 0 <= rows[i][k].1 < p
}

/// The description that is made of a matrix fits it.
pub proof fn law_metadata_describes(
    p: int,
    rows: Seq<Seq<(int, int)>>,
    n_cols: nat,
    k: nat,
    l: nat,
)
    requires
        p > 0x1_0000_0000,
        entries_fit(rows, n_cols),
        values_reduced(p, rows),
        dim_of(rows.len(), n_cols) == two_to(k),
        tuples_of(rows, n_cols).len() == two_to(l),
    ensures
        meta_fits(p, meta_of(p, rows, n_cols), two_to(k), two_to(l)),
        describes(p, meta_of(p, rows, n_cols), rows),
{
    let m = meta_of(p, rows, n_cols);
    let t = tuples_of(rows, n_cols);
    let e = all_entries(rows);
    let n = t.len();
    crate::bits::lemma_ceil_log2(e.len());
    assert forall|i: int| 0 <= i < n implies #[trigger] m.row[i] == t[i].0 && m.col[i] == t[i].1 by {
        assert(0 <= t[i].0 < two_to(k) && 0 <= t[i].1 < two_to(k));
        lemma_mod_small(p, t[i].0);
        lemma_mod_small(p, t[i].1);
    }
    let a = crate::timestamps::addresses(m.row, n, n);
    let b = crate::timestamps::addresses(m.col, n, n);
    assert forall|i: int| 0 <= i < n implies #[trigger] a[i] == m.row[i] by {
        assert(0 <= t[i].0 < two_to(k));
        assert(m.row[i] == t[i].0);
        lemma_mod_small(0x1_0000_0000, m.row[i]);
    }
    assert forall|i: int| 0 <= i < n implies #[trigger] b[i] == m.col[i] by {
        assert(0 <= t[i].1 < two_to(k));
        assert(m.row[i] == t[i].0);
        lemma_mod_small(0x1_0000_0000, m.col[i]);
    }
    assert(a =~= m.row);
    assert(b =~= m.col);
    assert forall|i: int| 0 <= i < n implies 0 <= #[trigger] m.row[i] < two_to(k) by {
        assert(0 <= t[i].0 < two_to(k));
    }
    assert forall|i: int| 0 <= i < n implies 0 <= #[trigger] m.col[i] < two_to(k) by {
        assert(m.row[i] == t[i].0);
        assert(0 <= t[i].1 < two_to(k));
    }
    assert forall|i: int| 0 <= i < e.len() implies m.row[i] == (#[trigger] e[i]).0 && m.col[i]
        == e[i].1 && m.val[i] == e[i].2 by {
        assert(t[i] == e[i]);
        assert(m.row[i] == t[i].0);
    }
    assert forall|i: int| 0 <= i < n implies 0 <= #[trigger] m.val[i] < p by {
        if i < e.len() {
            lemma_entry_row(rows, rows.len(), i);
            let r = e[i].0;
            let j = choose|j: int| 0 <= j < rows[r].len() && #[trigger] rows[r][j] == (e[i].1, e[i].2);
            assert(0 <= rows[r][j].1 < p);
        }
    }
}

/// The values in a matrix of field elements are reduced.
proof fn lemma_values_reduced<F: PrimeField>(m: SparseRep<F>)
    ensures
        values_reduced(F::modulus(), m.rows()),
{
    let rows = m.rows();
    assert forall|i: int, k: int|
        #![trigger rows[i][k]]
        0 <= i < rows.len() && 0 <= k < rows[i].len() implies 0 <= rows[i][k].1 < F::modulus() by {
        let v = m.fourcoeffs@[i as usize]@[k].value;
        v.lemma_value();
        assert(rows[i][k].1 == v.value());
    }
}

/// A matrix of `n` rows and columns at most, with `n * sparsity` entries once they are padded.
pub open spec fn matrix_sized<F: PrimeField>(m: SparseRep<F>, n: nat, sparsity: nat) -> bool {
    &&& matrix_fits(m, n)
    &&& entries_fit(m.rows(), sparsity)
    &&& dim_of(m.rows().len(), sparsity) == n
    &&& tuples_of(m.rows(), sparsity).len() == n * sparsity
}

/// The three matrices of a system as they are described.
pub open spec fn system_metas<F: PrimeField>(
    a: SparseRep<F>,
    b: SparseRep<F>,
    c: SparseRep<F>,
    sparsity: nat,
) -> Seq<Meta> {
    let p = F::modulus();
    seq![
        meta_of(p, a.rows(), sparsity),
        meta_of(p, b.rows(), sparsity),
        meta_of(p, c.rows(), sparsity),
    ]
}

/// A system of matrices that have their sizes is described by what is made of these.
proof fn lemma_system_described<F: PrimeField>(
    a: SparseRep<F>,
    b: SparseRep<F>,
    c: SparseRep<F>,
    x: Instance,
    num_const: nat,
    sparsity: nat,
)
    requires
        num_const >= 2,
        is_power_of_two(num_const),
        1 <= sparsity <= num_const,
        num_const * sparsity <= u32::MAX,
        is_power_of_two(num_const * sparsity),
        matrix_sized(a, num_const, sparsity),
        matrix_sized(b, num_const, sparsity),
        matrix_sized(c, num_const, sparsity),
        x.a == a.rows(),
        x.b == b.rows(),
        x.c == c.rows(),
    ensures
        described(
            F::modulus(),
            system_metas(a, b, c, sparsity),
            x,
            log2_of(num_const),
            log2_of(num_const * sparsity),
        ),
{
    let p = F::modulus();
    let (k, l) = (log2_of(num_const), log2_of(num_const * sparsity));
    let m = system_metas(a, b, c, sparsity);
    F::lemma_modulus();
    lemma_shape(num_const, sparsity);
    lemma_values_reduced(a);
    lemma_values_reduced(b);
    lemma_values_reduced(c);
    law_metadata_describes(p, a.rows(), sparsity, k, l);
    law_metadata_describes(p, b.rows(), sparsity, k, l);
    law_metadata_describes(p, c.rows(), sparsity, k, l);
    assert forall|i: int| 0 <= i < 3 implies meta_fits(p, #[trigger] m[i], two_to(k), two_to(l)) by {
        assert(i == 0 || i == 1 || i == 2);
    }
}

/// A sum-check draws a challenge in every round.
proof fn lemma_point_len(sh: Shape, comb: Comb, tx: Tx, ts: Seq<Seq<int>>, n: nat)
    ensures
        prove_rounds(sh, comb, tx, ts, n).point.len() == n,
    decreases n,
{
    if n > 0 {
        lemma_point_len(sh, comb, tx, ts, (n - 1) as nat);
    }
}

/// With the exact times of the reads, such as
/// [`generate`](crate::snark::helper::SparseMetaData::generate) gives, these balance in every proof.
pub proof fn law_exact_times_provable<F: PrimeField, H: HashFunction>(
    p: int,
    ch: Oracle,
    s: Scheme,
    tx: Tx,
    x: Instance,
    m: Seq<Meta>,
    k: nat,
    l: nat,
)
    requires
        p > 0,
        metas_fit(p, m, k, l),
        x.z.len() == two_to(k),
    ensures
        sat_balanced::<F, H>(p, ch, s, tx, x.a, x.b, x.c, x.u, x.z, x.e, x.w, m, l),
{
    lemma_log2_two_to(k);
    let tau = challenges(ch, tx.hist, k);
    let ts = seq![
        tensor(p, tau),
        matrix_product(p, x.a, x.z),
        matrix_product(p, x.b, x.z),
        matrix_product(p, x.c, x.z),
        x.e,
    ];
    lemma_point_len(cubic_shape(p, ch), relation_comb(x.u), tx.squeeze_many(k), ts, k);
    let f = first_layer(p, ch, tx, x.a, x.b, x.c, x.u, x.z, x.e);
    assert(f.point.len() == k);
    let rc = challenges(ch, f.tx.hist, 3);
    let y = tensor(p, f.point);
    let n = x.z.len();
    let us = seq![bound_rows(p, x.a, y, n), bound_rows(p, x.b, y, n), bound_rows(p, x.c, y, n), x.z];
    lemma_point_len(quadratic_shape(p, ch), weighted_comb(rc), f.tx.squeeze_many(3), us, k);
    let g = parallel(p, ch, f.tx, x.a, x.b, x.c, x.z, y);
    assert(g.point.len() == k);
    let r = g.tx.write(mle(p, x.w, g.point));
    let (w, v) = (basis(p, f.point), basis(p, g.point));
    law_times_balance(
        p,
        m,
        w,
        v,
        reads_drawn::<F, H>(p, ch, s, r, tables_of(m, w, v)),
        k,
        l,
    );
}

/// Committing to a constraint system that a vector satisfies, proving that it does and verifying the
/// proof succeeds: what [`er1cs_commit`](crate::snark::er1cs::er1cs_commit) and
/// [`prove_sat`](crate::snark::spartan::prove_sat) send is accepted by
/// [`verify_sat`](crate::snark::spartan::verify_sat), which reads all of it.
#[verifier::spinoff_prover]
#[verifier::rlimit(40)]
pub proof fn law_commit_prove_verify<F: PrimeField, H: HashFunction>(
    pp: BrakingbaseProverParams<F>,
    ch: Oracle,
    a: SparseRep<F>,
    b: SparseRep<F>,
    c: SparseRep<F>,
    u: F,
    z: Seq<F>,
    e: Seq<F>,
    w: Seq<F>,
    num_const: nat,
    sparsity: nat,
    pi: Seq<F>,
    pi_indices: Seq<usize>,
    tx: Tx,
    rx: Rx,
)
    requires
        oracle_reduced(F::modulus(), ch),
        num_const >= 2,
        is_power_of_two(num_const),
        1 <= sparsity <= num_const,
        num_const * sparsity <= u32::MAX,
        is_power_of_two(num_const * sparsity),
        matrix_sized(a, num_const, sparsity),
        matrix_sized(b, num_const, sparsity),
        matrix_sized(c, num_const, sparsity),
        z.len() == num_const,
        w.len() == num_const,
        relation_holds(
            F::modulus(),
            a.rows(),
            b.rows(),
            c.rows(),
            u.value(),
            vals(z),
            vals(e),
        ),
        public_added(F::modulus(), vals(z), vals(w), index_values(pi_indices), vals(pi)),
        synced(
            tx,
            sent_proof::<F, H>(pp.scheme(), ch, a, b, c, u, z, e, w, num_const, sparsity, tx).proof,
            checking(rx),
        ),
    ensures
        ({
            let r = check_sat(
                F::modulus(),
                ch,
                checking(rx),
                log2_of(num_const),
                log2_of(num_const * sparsity),
                u.value(),
                index_values(pi_indices),
                vals(pi),
            );
            &&& r.err is None
            &&& r.rx.stream.len() == 0
        }),
{
    let p = F::modulus();
    let s = pp.scheme();
    let (k, l) = (log2_of(num_const), log2_of(num_const * sparsity));
    let x = Instance {
        a: a.rows(),
        b: b.rows(),
        c: c.rows(),
        u: u.value(),
        z: vals(z),
        e: vals(e),
        w: vals(w),
    };
    let m = system_metas(a, b, c, sparsity);
    F::lemma_modulus();
    lemma_system_described(a, b, c, x, num_const, sparsity);
    lemma_vals_canonical(z);
    lemma_vals_canonical(e);
    lemma_vals_canonical(w);
    let full = sent_proof::<F, H>(s, ch, a, b, c, u, z, e, w, num_const, sparsity, tx).proof;
    let roots = er1cs_roots::<F, H>(p, s, vals(e), vals(w), m);
    lemma_prefix_push(full, Event::Challenge);
    law_sat_accepted::<F, H>(
        p,
        ch,
        s,
        tx,
        roots,
        x,
        m,
        index_values(pi_indices),
        vals(pi),
        k,
        l,
        full,
        checking(rx),
    );
}

/// What is sent when a constraint system is committed to and proved.
pub open spec fn sent_proof<F: PrimeField, H: HashFunction>(
    s: Scheme,
    ch: Oracle,
    a: SparseRep<F>,
    b: SparseRep<F>,
    c: SparseRep<F>,
    u: F,
    z: Seq<F>,
    e: Seq<F>,
    w: Seq<F>,
    num_const: nat,
    sparsity: nat,
    tx: Tx,
) -> Tx {
    let p = F::modulus();
    let m = system_metas(a, b, c, sparsity);
    sat_tx::<F, H>(
        p,
        ch,
        s,
        tx.commit_all(er1cs_roots::<F, H>(p, s, vals(e), vals(w), m)),
        a.rows(),
        b.rows(),
        c.rows(),
        u.value(),
        vals(z),
        vals(e),
        vals(w),
        m,
        log2_of(num_const * sparsity),
    )
}

/// Adding the public input to the first entries of the witness adds it at the places `0`, `1` and so
/// on, whatever places follow.
pub proof fn law_public_first(p: int, w: Seq<int>, pi: Seq<int>, indices: Seq<int>)
    requires
        p > 0,
        pi.len() <= w.len(),
        indices.len() >= pi.len(),
        forall|j: int| 0 <= j < pi.len() ==> #[trigger] indices[j] == j,
    ensures
        public_added(p, with_public(p, w, pi), w, indices, pi),
{
    let z = with_public(p, w, pi);
    let idx = |j: int| indices[j];
    let wt = |j: int| pi[j];
    assert forall|i: int| 0 <= i < z.len() implies cong(
        p,
        #[trigger] z[i],
        w[i] + gathered(pi.len(), idx, wt, i),
    ) by {
        let g = |j: int|
            if idx(j) == i {
                wt(j)
            } else {
                0int
            };
        assert forall|j: int| 0 <= j < pi.len() implies #[trigger] g(j) == (if j == i {
            pi[i]
        } else {
            0
        }) by {
            assert(indices[j] == j);
        }
        lemma_indicator_sum(pi.len(), i, pi[i], g);
        lemma_cong_mod(p, w[i] + pi[i]);
    }
}

} // verus!
