//! Openings of commitments are accepted.
use vstd::prelude::*;
use crate::algebra::{
    canonical, cong, lemma_cong_add, lemma_cong_mod, lemma_cong_mul, lemma_mod_canonical,
    lemma_two_to_add, two_to,
};
use crate::basefold::{bit_reversed, encode, is_weight, lemma_encode_len, table_entry};
use crate::basefold_batch::{
    codeword_root, combine, fold_rounds, lemma_column_tree_shape, lemma_element_tree_shape,
    open_batch, opened_codewords, poly_values,
};
use crate::basefold_laws::{invertible, law_batch_complete, lemma_open_batch_extends, opened_honest};
use crate::bits::{ceil_log2, lemma_log2_two_to, lemma_reversed_bound, log2_of, reversed};
use crate::brakingbase::{
    BrakingbaseCommitment, BrakingbaseProverParams, BrakingbaseVerifierParams, Scheme,
    column_leaves, committed_rows, is_commitment, matrix_polys, message_row, repeated, scheme_fits,
};
use crate::brakingbase_laws::{
    field_fits, first_done, lemma_basis_value, lemma_blend_cong, lemma_first_complete,
    lemma_first_extends, lemma_halves, lemma_second_complete, lemma_second_extends,
    lemma_small_table, lemma_third_complete, lemma_third_extends, public_of, reads_fit,
    rows_honest, scheme_honest, second_done, third_done,
};
use crate::brakingbase_open::{
    First, Fourth, Opening, Second, Third, all_reversed, batch_root, claim_points, claim_tables,
    comm_levels, comm_rows,    folded_code, fourth_phase, leading, lemma_scheme_sizes, open_tx, opened_of, opened_tables,
    opening, small_table, times_left,
};
use crate::brakingbase_verify::{
    FirstCheck, FourthCheck, SecondCheck, ThirdCheck, blend, check_first, check_fourth, check_open,
    check_second, check_third,
};
use crate::code::{in_code, law_codeword_exists};
use crate::combiners::{lemma_pair_comb, pair_comb};
use crate::evaluations::{
    lemma_combine_dot, lemma_combine_mle, lemma_dot_sum, lemma_join_dot, lemma_repeated_dot,
    lemma_reversed_dot, lemma_rounds_end, mles,
};
use crate::field::{PrimeField, lemma_vals_canonical, vals};
use crate::hash::{HashFunction, Output};
use crate::merkle::{tree_level, tree_over, tree_view};
use crate::multilinear::{basis, eq_points, eq_prod, eq_table, lemma_mle_cong, mle, tensor};
use crate::rounds::{
    all_canonical, check_rounds, law_sum_check_complete, prove_rounds, row, total, uniform,
};
use crate::sum_checks::{batch_expected, batch_shape, committed_order, eq_or_zero};
use crate::sums::{
    dot, lemma_dot_cong, lemma_sum_exchange, lemma_sum_ext, lemma_sum_of_cong, lemma_sum_step,
    sum_of,
};
use crate::transcript::{
    Check, Event, Oracle, Rx, Tx, challenges, checking, extends, law_read_all_written,
    law_read_committed, law_same_challenge, law_same_challenges, lemma_challenges_canonical,
    lemma_prefix_push, lemma_prefix_trans, lemma_squeeze_many_hist, lemma_write_all_extends,
    oracle_reduced, synced,
};

verus! {

/// The sum of products of pairs of tables.
pub proof fn lemma_pair_total(n: nat, ts: Seq<Seq<int>>, size: nat)
    requires
        n >= 1,
        ts.len() == 2 * n,
        uniform(ts, size),
    ensures
        total(pair_comb(n), ts) == sum_of(n, |i: int| dot(ts[i], ts[n + i])),
{
    let f = |k: int, i: int| ts[i][k] * ts[n + i][k];
    lemma_sum_exchange(size, n, f);
    assert(ts[0].len() == size);
    let a = |k: int| pair_comb(n)(row(ts, k));
    let b = |k: int| sum_of(n, |i: int| f(k, i));
    assert forall|k: int| 0 <= k < size implies #[trigger] a(k) == b(k) by {
        let v = row(ts, k);
        lemma_sum_ext(n, |i: int| v[i] * v[n + i], |i: int| f(k, i));
    }
    lemma_sum_ext(size, a, b);
    let c = |i: int| sum_of(size, |k: int| f(k, i));
    let d = |i: int| dot(ts[i], ts[n + i]);
    assert forall|i: int| 0 <= i < n implies #[trigger] c(i) == d(i) by {
        assert(ts[i].len() == size && ts[n + i].len() == size);
        lemma_dot_sum(ts[i], ts[n + i], size);
        lemma_sum_ext(size, |k: int| f(k, i), |k: int| ts[i][k] * ts[n + i][k]);
    }
    lemma_sum_ext(n, c, d);
}

/// The order of the factors does not matter.
pub proof fn lemma_dot_swap(a: Seq<int>, b: Seq<int>)
    requires
        a.len() == b.len(),
    ensures
        dot(a, b) == dot(b, a),
{
    assert(Seq::new(a.len(), |i: int| a[i] * b[i]) =~= Seq::new(a.len(), |i: int| b[i] * a[i])) by {
        assert forall|i: int| 0 <= i < a.len() implies a[i] * b[i] == b[i] * a[i] by {
            let (x, y) = (a[i], b[i]);
            assert(x * y == y * x) by (nonlinear_arith);
        }
    }
}

/// A sum in two parts.
pub proof fn lemma_sum_split(n: nat, m: nat, f: spec_fn(int) -> int)
    ensures
        sum_of(n + m, f) == sum_of(n, f) + sum_of(m, |i: int| f(n + i)),
    decreases m,
{
    let g = |i: int| f(n + i);
    if m == 0 {
        lemma_sum_step(0, g);
    } else {
        let k = (m - 1) as nat;
        lemma_sum_split(n, k, f);
        lemma_sum_step(n + k, f);
        lemma_sum_step(k, g);
    }
}

/// A combination of tables against the basis polynomials at a point.
pub proof fn lemma_combine_at(p: int, rc: Seq<int>, vs: Seq<Seq<int>>, y: Seq<int>)
    requires
        p > 0,
        uniform(vs, two_to(y.len())),
    ensures
        cong(
            p,
            dot(combine(p, rc, vs, two_to(y.len())), basis(p, y)),
            sum_of(vs.len(), |i: int| rc[i] * mle(p, vs[i], y)),
        ),
{
    let b = basis(p, y);
    lemma_combine_dot(p, rc, vs, b);
    let f = |i: int| rc[i] * dot(vs[i], b);
    let g = |i: int| rc[i] * mle(p, vs[i], y);
    assert forall|i: int| 0 <= i < vs.len() implies cong(p, #[trigger] f(i), g(i)) by {
        lemma_cong_mod(p, dot(vs[i], b));
        lemma_cong_mul(p, rc[i], rc[i], dot(vs[i], b), mle(p, vs[i], y));
    }
    lemma_sum_of_cong(p, vs.len(), f, g);
}

/// A combination of basis polynomials against a table.
pub proof fn lemma_combine_bases(p: int, rc: Seq<int>, ys: Seq<Seq<int>>, t: Seq<int>, n: nat)
    requires
        p > 0,
        t.len() == two_to(n),
        forall|i: int| 0 <= i < ys.len() ==> (#[trigger] ys[i]).len() == n,
    ensures
        ({
            let vs = Seq::new(ys.len(), |i: int| basis(p, ys[i]));
            cong(
                p,
                dot(combine(p, rc, vs, two_to(n)), t),
                sum_of(ys.len(), |i: int| rc[i] * mle(p, t, ys[i])),
            )
        }),
{
    let vs = Seq::new(ys.len(), |i: int| basis(p, ys[i]));
    assert(uniform(vs, two_to(n))) by {
        assert forall|i: int| 0 <= i < vs.len() implies (#[trigger] vs[i]).len() == two_to(n) by {
            assert(ys[i].len() == n);
        }
    }
    lemma_combine_dot(p, rc, vs, t);
    let f = |i: int| rc[i] * dot(vs[i], t);
    let g = |i: int| rc[i] * mle(p, t, ys[i]);
    assert forall|i: int| 0 <= i < vs.len() implies cong(p, #[trigger] f(i), g(i)) by {
        assert(ys[i].len() == n);
        lemma_dot_swap(vs[i], t);
        lemma_cong_mod(p, dot(t, vs[i]));
        lemma_cong_mul(p, rc[i], rc[i], dot(vs[i], t), mle(p, t, ys[i]));
    }
    lemma_sum_of_cong(p, vs.len(), f, g);
}

/// The value of a table that was repeated.
pub proof fn lemma_repeated_value(p: int, t: Seq<int>, y: Seq<int>, n: nat)
    requires
        p > 0,
        t.len() == two_to(y.len()),
        y.len() <= n,
    ensures
        mle(p, repeated(t, two_to(n)), leading(n, y)) == mle(p, t, y),
{
    lemma_repeated_dot(t, y, n);
    lemma_mle_cong(p, t, y);
    lemma_mle_cong(p, repeated(t, two_to(n)), leading(n, y));
    crate::algebra::lemma_canonical_unique(
        p,
        mle(p, repeated(t, two_to(n)), leading(n, y)),
        mle(p, t, y),
    );
}

/// The value of the times that are left.
proof fn lemma_times_value(p: int, s: Scheme, y: Seq<int>, r: int)
    requires
        p > 0,
        scheme_fits(s),
        y.len() == log2_of(s.row_len) + 1,
    ensures
        cong(
            p,
            blend(
                mle(p, times_left(p, s, s.matrix.row), y),
                mle(p, times_left(p, s, s.matrix.col), y),
                r,
            ),
            mle(
                p,
                matrix_polys(p, s.matrix, s.row_len, two_to(s.bf_vars))[5],
                leading(s.bf_vars, seq![r] + y),
            ),
        ),
{
    lemma_scheme_sizes(s);
    let a = times_left(p, s, s.matrix.row);
    let b = times_left(p, s, s.matrix.col);
    let z = seq![r] + y;
    assert(two_to(z.len()) == 2 * two_to(y.len()));
    assert((a + b).len() == two_to(z.len()));
    lemma_repeated_value(p, a + b, z, s.bf_vars);
    lemma_join_dot(a, b, r, y);
    lemma_mle_cong(p, a + b, z);
    lemma_mle_cong(p, a, y);
    lemma_mle_cong(p, b, y);
    lemma_blend_cong(p, mle(p, a, y), dot(a, eq_table(y)), mle(p, b, y), dot(b, eq_table(y)), r);
}

/// One write before many.
pub proof fn lemma_write_front(tx: Tx, a: int, v: Seq<int>)
    ensures
        tx.write(a).write_all(v) == tx.write_all(seq![a] + v),
    decreases v.len(),
{
    let w = seq![a] + v;
    if v.len() == 0 {
        assert(w.drop_last() =~= Seq::empty());
        assert(tx.write_all(w.drop_last()) == tx);
    } else {
        lemma_write_front(tx, a, v.drop_last());
        assert(w.drop_last() =~= seq![a] + v.drop_last());
    }
}

/// The shapes of the tables of the last sum-check.
pub open spec fn tables_fit(
    p: int,
    s: Scheme,
    wide: Seq<int>,
    g: Second,
    y: Seq<Seq<int>>,
) -> bool {
    let n = two_to(s.bf_vars);
    &&& wide.len() == n
    &&& canonical(p, wide)
    &&& g.erow.len() == n
    &&& g.ecol.len() == n
    &&& y.len() == 6
    &&& forall|i: int| 0 <= i < 6 ==> (#[trigger] y[i]).len() == s.bf_vars
}

/// The polynomials of the matrix have one entry for each point of the hypercube.
proof fn lemma_matrix_lens(p: int, s: Scheme)
    ensures
        ({
            let m = matrix_polys(p, s.matrix, s.row_len, two_to(s.bf_vars));
            &&& m.len() == 6
            &&& uniform(m, two_to(s.bf_vars))
        }),
{
    let m = matrix_polys(p, s.matrix, s.row_len, two_to(s.bf_vars));
    assert forall|i: int| 0 <= i < 6 implies (#[trigger] m[i]).len() == two_to(s.bf_vars) by {
        assert(i == 0 || i == 1 || i == 2 || i == 3 || i == 4 || i == 5);
    }
}

/// Combinations are reduced.
pub proof fn lemma_combine_reduced(p: int, rc: Seq<int>, vs: Seq<Seq<int>>, n: nat)
    requires
        p > 0,
    ensures
        canonical(p, combine(p, rc, vs, n)),
{
    let c = combine(p, rc, vs, n);
    assert forall|j: int| 0 <= j < n implies 0 <= #[trigger] c[j] < p by {
        lemma_mod_canonical(p, sum_of(vs.len(), |i: int| rc[i] * vs[i][j]));
    }
}

/// Tables of basis polynomials are reduced.
pub proof fn lemma_basis_reduced(p: int, y: Seq<int>)
    requires
        p > 0,
    ensures
        canonical(p, basis(p, y)),
{
    let b = basis(p, y);
    assert forall|j: int| 0 <= j < b.len() implies 0 <= #[trigger] b[j] < p by {
        lemma_mod_canonical(p, crate::multilinear::eq_prod(j, y));
    }
}

/// The tables of the last sum-check are reduced.
proof fn lemma_claim_tables(
    p: int,
    s: Scheme,
    wide: Seq<int>,
    g: Second,
    y: Seq<Seq<int>>,
    c: Seq<int>,
)
    requires
        p > 0,
        tables_fit(p, s, wide, g, y),
    ensures
        ({
            let ts = claim_tables(p, s, wide, g, y, c);
            &&& ts.len() == 8
            &&& uniform(ts, two_to(s.bf_vars))
            &&& all_canonical(p, ts)
        }),
{
    let n = two_to(s.bf_vars);
    let m = matrix_polys(p, s.matrix, s.row_len, n);
    let ts = claim_tables(p, s, wide, g, y, c);
    lemma_combine_reduced(
        p,
        c.take(3),
        seq![basis(p, y[0]), basis(p, y[1]), basis(p, y[2])],
        n,
    );
    lemma_combine_reduced(p, c.subrange(3, 6), seq![m[0], g.erow, g.ecol], n);
    lemma_combine_reduced(
        p,
        c.subrange(6, 12),
        seq![g.erow, g.ecol, m[1], m[2], m[3], m[4]],
        n,
    );
    lemma_combine_reduced(p, c.skip(12), seq![m[5]], n);
    lemma_basis_reduced(p, y[3]);
    lemma_basis_reduced(p, y[4]);
    lemma_basis_reduced(p, y[5]);
    assert(y[3].len() == s.bf_vars && y[4].len() == s.bf_vars && y[5].len() == s.bf_vars);
    assert forall|i: int| 0 <= i < 8 implies (#[trigger] ts[i]).len() == n && canonical(p, ts[i]) by {
        assert(i == 0 || i == 1 || i == 2 || i == 3 || i == 4 || i == 5 || i == 6 || i == 7);
    }
}

/// What is claimed of the tables.
pub open spec fn true_claims(p: int, s: Scheme, wide: Seq<int>, g: Second, y: Seq<Seq<int>>) -> Seq<int> {
    let m = matrix_polys(p, s.matrix, s.row_len, two_to(s.bf_vars));
    seq![
        mle(p, wide, y[0]),
        mle(p, wide, y[1]),
        mle(p, wide, y[2]),
        mle(p, m[0], y[3]),
        mle(p, g.erow, y[3]),
        mle(p, g.ecol, y[3]),
        mle(p, g.erow, y[4]),
        mle(p, g.ecol, y[4]),
        mle(p, m[1], y[4]),
        mle(p, m[2], y[4]),
        mle(p, m[3], y[4]),
        mle(p, m[4], y[4]),
        mle(p, m[5], y[5]),
    ]
}

/// The claims, weighed, are the sum that the last sum-check is about.
#[verifier::rlimit(60)]
proof fn lemma_fourth_claim(
    p: int,
    s: Scheme,
    wide: Seq<int>,
    g: Second,
    y: Seq<Seq<int>>,
    c: Seq<int>,
)
    requires
        p > 0,
        tables_fit(p, s, wide, g, y),
        c.len() == 13,
    ensures
        cong(
            p,
            dot(true_claims(p, s, wide, g, y), c),
            total(pair_comb(4), claim_tables(p, s, wide, g, y, c)),
        ),
{
    let n = two_to(s.bf_vars);
    let m = matrix_polys(p, s.matrix, s.row_len, n);
    let ts = claim_tables(p, s, wide, g, y, c);
    let k = true_claims(p, s, wide, g, y);
    lemma_claim_tables(p, s, wide, g, y, c);
    lemma_matrix_lens(p, s);
    lemma_pair_total(4, ts, n);
    let d = |i: int| dot(ts[i], ts[4 + i]);
    lemma_sum_step(0, d);
    lemma_sum_step(1, d);
    lemma_sum_step(2, d);
    lemma_sum_step(3, d);
    let f = |i: int| k[i] * c[i];
    lemma_dot_sum(k, c, 13);
    lemma_sum_split(12, 1, f);
    lemma_sum_split(6, 6, f);
    lemma_sum_split(3, 3, f);
    // the combined row
    let ys = seq![y[0], y[1], y[2]];
    let bs = seq![basis(p, y[0]), basis(p, y[1]), basis(p, y[2])];
    assert(y[0].len() == s.bf_vars && y[1].len() == s.bf_vars && y[2].len() == s.bf_vars);
    assert(y[3].len() == s.bf_vars && y[4].len() == s.bf_vars && y[5].len() == s.bf_vars);
    assert(bs =~= Seq::new(3, |i: int| basis(p, ys[i])));
    assert forall|i: int| 0 <= i < ys.len() implies (#[trigger] ys[i]).len() == s.bf_vars by {
        assert(i == 0 || i == 1 || i == 2);
    }
    lemma_combine_bases(p, c.take(3), ys, wide, s.bf_vars);
    let g0 = |i: int| c.take(3)[i] * mle(p, wide, ys[i]);
    assert forall|i: int| 0 <= i < 3 implies #[trigger] f(i) == g0(i) by {
        assert(i == 0 || i == 1 || i == 2);
        let (a, b) = (k[i], c[i]);
        assert(a * b == b * a) by (nonlinear_arith);
    }
    lemma_sum_ext(3, f, g0);
    assert(cong(p, dot(ts[0], ts[4]), sum_of(3, f)));
    // the second sum-check
    let v1 = seq![m[0], g.erow, g.ecol];
    assert(uniform(v1, n)) by {
        assert forall|i: int| 0 <= i < v1.len() implies (#[trigger] v1[i]).len() == n by {
            assert(i == 0 || i == 1 || i == 2);
        }
    }
    lemma_combine_at(p, c.subrange(3, 6), v1, y[3]);
    let f1 = |i: int| f(3 + i);
    let g1 = |i: int| c.subrange(3, 6)[i] * mle(p, v1[i], y[3]);
    assert forall|i: int| 0 <= i < 3 implies #[trigger] f1(i) == g1(i) by {
        assert(i == 0 || i == 1 || i == 2);
        let (a, b) = (k[3 + i], c[3 + i]);
        assert(a * b == b * a) by (nonlinear_arith);
    }
    lemma_sum_ext(3, f1, g1);
    assert(cong(p, dot(ts[1], ts[5]), sum_of(3, f1)));
    // the reads
    let v2 = seq![g.erow, g.ecol, m[1], m[2], m[3], m[4]];
    assert(uniform(v2, n)) by {
        assert forall|i: int| 0 <= i < v2.len() implies (#[trigger] v2[i]).len() == n by {
            assert(i == 0 || i == 1 || i == 2 || i == 3 || i == 4 || i == 5);
        }
    }
    lemma_combine_at(p, c.subrange(6, 12), v2, y[4]);
    let f2 = |i: int| f(6 + i);
    let g2 = |i: int| c.subrange(6, 12)[i] * mle(p, v2[i], y[4]);
    assert forall|i: int| 0 <= i < 6 implies #[trigger] f2(i) == g2(i) by {
        assert(i == 0 || i == 1 || i == 2 || i == 3 || i == 4 || i == 5);
        let (a, b) = (k[6 + i], c[6 + i]);
        assert(a * b == b * a) by (nonlinear_arith);
    }
    lemma_sum_ext(6, f2, g2);
    assert(cong(p, dot(ts[2], ts[6]), sum_of(6, f2)));
    // the times
    let v3 = seq![m[5]];
    assert(uniform(v3, n));
    lemma_combine_at(p, c.skip(12), v3, y[5]);
    let f3 = |i: int| f(12 + i);
    let g3 = |i: int| c.skip(12)[i] * mle(p, v3[i], y[5]);
    assert forall|i: int| 0 <= i < 1 implies #[trigger] f3(i) == g3(i) by {
        let (a, b) = (k[12], c[12]);
        assert(a * b == b * a) by (nonlinear_arith);
    }
    lemma_sum_ext(1, f3, g3);
    assert(cong(p, dot(ts[3], ts[7]), sum_of(1, f3)));
    lemma_cong_add(p, dot(ts[0], ts[4]), sum_of(3, f), dot(ts[1], ts[5]), sum_of(3, f1));
    lemma_cong_add(
        p,
        dot(ts[0], ts[4]) + dot(ts[1], ts[5]),
        sum_of(3, f) + sum_of(3, f1),
        dot(ts[2], ts[6]),
        sum_of(6, f2),
    );
    lemma_cong_add(
        p,
        dot(ts[0], ts[4]) + dot(ts[1], ts[5]) + dot(ts[2], ts[6]),
        sum_of(3, f) + sum_of(3, f1) + sum_of(6, f2),
        dot(ts[3], ts[7]),
        sum_of(1, f3),
    );
}

/// The values of the tables at the last point, in the order in which they are sent.
pub open spec fn sent_values(p: int, s: Scheme, wide: Seq<int>, g: Second, y: Seq<int>) -> Seq<int> {
    let m = matrix_polys(p, s.matrix, s.row_len, two_to(s.bf_vars));
    seq![
        mle(p, wide, y),
        mle(p, m[0], y),
        mle(p, g.erow, y),
        mle(p, g.ecol, y),
        mle(p, m[1], y),
        mle(p, m[2], y),
        mle(p, m[3], y),
        mle(p, m[4], y),
        mle(p, m[5], y),
    ]
}

/// The values that are sent give the last claim.
#[verifier::rlimit(60)]
proof fn lemma_fourth_end(
    p: int,
    s: Scheme,
    wide: Seq<int>,
    g: Second,
    y: Seq<Seq<int>>,
    c: Seq<int>,
    z: Seq<int>,
)
    requires
        p > 0,
        tables_fit(p, s, wide, g, y),
        c.len() == 13,
        z.len() == s.bf_vars,
    ensures
        cong(
            p,
            pair_comb(4)(mles(p, claim_tables(p, s, wide, g, y, c), z)),
            batch_expected(c, y, z, sent_values(p, s, wide, g, z)),
        ),
{
    let n = two_to(s.bf_vars);
    let m = matrix_polys(p, s.matrix, s.row_len, n);
    let ts = claim_tables(p, s, wide, g, y, c);
    let e = sent_values(p, s, wide, g, z);
    lemma_claim_tables(p, s, wide, g, y, c);
    lemma_matrix_lens(p, s);
    assert(y[0].len() == s.bf_vars && y[1].len() == s.bf_vars && y[2].len() == s.bf_vars);
    assert(y[3].len() == s.bf_vars && y[4].len() == s.bf_vars && y[5].len() == s.bf_vars);
    let v = mles(p, ts, z);
    let f = |i: int| v[i] * v[4 + i];
    lemma_sum_step(0, f);
    lemma_sum_step(1, f);
    lemma_sum_step(2, f);
    lemma_sum_step(3, f);
    assert(pair_comb(4)(v) == v[0] * v[4] + v[1] * v[5] + v[2] * v[6] + v[3] * v[7]);
    let (z0, z1, z2) = (eq_points(y[0], z), eq_points(y[1], z), eq_points(y[2], z));
    let (z3, z4, z5) = (eq_points(y[3], z), eq_points(y[4], z), eq_points(y[5], z));
    let x0 = c[0] * z0 + c[1] * z1 + c[2] * z2;
    let x1 = c[3] * e[1] + c[4] * e[2] + c[5] * e[3];
    let x2 = c[6] * e[2] + c[7] * e[3] + c[8] * e[4] + c[9] * e[5] + c[10] * e[6] + c[11] * e[7];
    let x3 = c[12] * e[8];
    assert(cong(p, v[0], x0)) by {
        let bs = seq![basis(p, y[0]), basis(p, y[1]), basis(p, y[2])];
        assert(uniform(bs, n)) by {
            assert forall|i: int| 0 <= i < bs.len() implies (#[trigger] bs[i]).len() == n by {
                assert(i == 0 || i == 1 || i == 2);
            }
        }
        lemma_combine_mle(p, c.take(3), bs, z);
        let h = |i: int| c.take(3)[i] * mle(p, bs[i], z);
        lemma_sum_step(0, h);
        lemma_sum_step(1, h);
        lemma_sum_step(2, h);
        lemma_basis_value(p, y[0], z);
        lemma_basis_value(p, y[1], z);
        lemma_basis_value(p, y[2], z);
        lemma_cong_mul(p, c[0], c[0], mle(p, bs[0], z), z0);
        lemma_cong_mul(p, c[1], c[1], mle(p, bs[1], z), z1);
        lemma_cong_mul(p, c[2], c[2], mle(p, bs[2], z), z2);
        lemma_cong_add(p, h(0), c[0] * z0, h(1), c[1] * z1);
        lemma_cong_add(p, h(0) + h(1), c[0] * z0 + c[1] * z1, h(2), c[2] * z2);
    }
    assert(cong(p, v[1], x1)) by {
        let v1 = seq![m[0], g.erow, g.ecol];
        assert(uniform(v1, n)) by {
            assert forall|i: int| 0 <= i < v1.len() implies (#[trigger] v1[i]).len() == n by {
                assert(i == 0 || i == 1 || i == 2);
            }
        }
        let rc = c.subrange(3, 6);
        lemma_combine_mle(p, rc, v1, z);
        let h = |i: int| rc[i] * mle(p, v1[i], z);
        lemma_sum_step(0, h);
        lemma_sum_step(1, h);
        lemma_sum_step(2, h);
        assert(h(0) == c[3] * e[1] && h(1) == c[4] * e[2] && h(2) == c[5] * e[3]);
    }
    assert(cong(p, v[2], x2)) by {
        let v2 = seq![g.erow, g.ecol, m[1], m[2], m[3], m[4]];
        assert(uniform(v2, n)) by {
            assert forall|i: int| 0 <= i < v2.len() implies (#[trigger] v2[i]).len() == n by {
                assert(i == 0 || i == 1 || i == 2 || i == 3 || i == 4 || i == 5);
            }
        }
        let rc = c.subrange(6, 12);
        lemma_combine_mle(p, rc, v2, z);
        let h = |i: int| rc[i] * mle(p, v2[i], z);
        lemma_sum_step(0, h);
        lemma_sum_step(1, h);
        lemma_sum_step(2, h);
        lemma_sum_step(3, h);
        lemma_sum_step(4, h);
        lemma_sum_step(5, h);
        assert(h(0) == c[6] * e[2] && h(1) == c[7] * e[3] && h(2) == c[8] * e[4] && h(3) == c[9] * e[5]
            && h(4) == c[10] * e[6] && h(5) == c[11] * e[7]);
    }
    assert(cong(p, v[3], x3)) by {
        let v3 = seq![m[5]];
        assert(uniform(v3, n));
        let rc = c.skip(12);
        lemma_combine_mle(p, rc, v3, z);
        let h = |i: int| rc[i] * mle(p, v3[i], z);
        lemma_sum_step(0, h);
        assert(h(0) == c[12] * e[8]);
    }
    lemma_basis_value(p, y[3], z);
    lemma_basis_value(p, y[4], z);
    lemma_basis_value(p, y[5], z);
    assert(v[4] == e[0]);
    assert(v[5] == mle(p, basis(p, y[3]), z));
    assert(v[6] == mle(p, basis(p, y[4]), z));
    assert(v[7] == mle(p, basis(p, y[5]), z));
    lemma_cong_mul(p, v[0], x0, v[4], e[0]);
    lemma_cong_mul(p, v[1], x1, v[5], z3);
    lemma_cong_mul(p, v[2], x2, v[6], z4);
    lemma_cong_mul(p, v[3], x3, v[7], z5);
    lemma_cong_add(p, v[0] * v[4], x0 * e[0], v[1] * v[5], x1 * z3);
    lemma_cong_add(p, v[0] * v[4] + v[1] * v[5], x0 * e[0] + x1 * z3, v[2] * v[6], x2 * z4);
    lemma_cong_add(
        p,
        v[0] * v[4] + v[1] * v[5] + v[2] * v[6],
        x0 * e[0] + x1 * z3 + x2 * z4,
        v[3] * v[7],
        x3 * z5,
    );
    let e0 = e[0];
    assert(x0 * e0 == e0 * x0) by (nonlinear_arith);
    assert(eq_or_zero(y, 3, z) == z3 && eq_or_zero(y, 4, z) == z4 && eq_or_zero(y, 5, z) == z5);
    assert(batch_expected(c, y, z, e) == e[0] * x0 + x1 * z3 + x2 * z4 + x3 * z5);
}

/// What an honest fourth phase gives.
pub open spec fn fourth_done(
    p: int,
    s: Scheme,
    wide: Seq<int>,
    g: Second,
    k: Fourth,
    c: FourthCheck,
) -> bool {
    &&& c.point == k.point
    &&& k.point.len() == s.bf_vars
    &&& canonical(p, k.point)
    &&& c.evals == mles(p, opened_tables(p, s, wide, g), k.point)
}

/// The points of the claims have the right number of coordinates.
proof fn lemma_claim_points(s: Scheme, point: Seq<int>, f: First, g: Second, h: Third, r: int)
    requires
        scheme_fits(s),
        point.len() == s.num_vars,
        f.u.len() == log2_of(s.row_len),
        f.point.len() == log2_of(s.row_len) + 1,
        g.point.len() == s.bf_vars,
        h.point1.len() == log2_of(s.row_len) + 1,
        h.point2.len() == s.bf_vars,
    ensures
        ({
            let y = claim_points(s, point, f, g, h, r);
            &&& y.len() == 6
            &&& forall|i: int| 0 <= i < 6 ==> (#[trigger] y[i]).len() == s.bf_vars
        }),
{
    lemma_scheme_sizes(s);
    let y = claim_points(s, point, f, g, h, r);
    assert forall|i: int| 0 <= i < 6 implies (#[trigger] y[i]).len() == s.bf_vars by {
        assert(i == 0 || i == 1 || i == 2 || i == 3 || i == 4 || i == 5);
    }
}

/// The combined row, over and over, is reduced.
proof fn lemma_wide(p: int, s: Scheme, rows: Seq<Seq<int>>, point: Seq<int>)
    requires
        p > 0,
        scheme_fits(s),
        rows_honest(p, s, rows),
        point.len() == s.num_vars,
    ensures
        canonical(p, repeated(small_table(p, s, rows, point), two_to(s.bf_vars))),
        repeated(small_table(p, s, rows, point), two_to(s.bf_vars)).len() == two_to(s.bf_vars),
{
    lemma_scheme_sizes(s);
    lemma_small_table(p, s, rows, point);
    let small = small_table(p, s, rows, point);
    let wide = repeated(small, two_to(s.bf_vars));
    assert forall|i: int| 0 <= i < wide.len() implies 0 <= #[trigger] wide[i] < p by {
        lemma_mod_canonical(small.len() as int, i);
        assert(0 <= small[i % (small.len() as int)] < p);
    }
}

/// The fourth phase only adds to the proof.
proof fn lemma_fourth_extends(
    p: int,
    ch: Oracle,
    s: Scheme,
    point: Seq<int>,
    wide: Seq<int>,
    f: First,
    g: Second,
    h: Third,
)
    requires
        field_fits(p, ch),
        scheme_honest(p, s),
        point.len() == s.num_vars,
        wide.len() == two_to(s.bf_vars),
        canonical(p, wide),
        reads_fit(p, s, f, g),
        g.point.len() == s.bf_vars,
        h.point1.len() == log2_of(s.row_len) + 1,
        h.point2.len() == s.bf_vars,
    ensures
        extends(h.tx, fourth_phase(p, ch, s, point, wide, f, g, h).tx),
        fourth_phase(p, ch, s, point, wide, f, g, h).point.len() == s.bf_vars,
{
    let k = fourth_phase(p, ch, s, point, wide, f, g, h);
    let y0 = claim_points(s, point, f, g, h, 0);
    let sent = seq![mle(p, wide, y0[1]), mle(p, wide, y0[2])];
    let t1 = h.tx.write_all(sent);
    lemma_write_all_extends(h.tx, sent);
    let r = ch(t1.hist);
    let y = claim_points(s, point, f, g, h, r);
    lemma_claim_points(s, point, f, g, h, r);
    let t2 = t1.squeeze();
    let c = challenges(ch, t2.hist, 13);
    lemma_squeeze_many_hist(t2, 13);
    let t3 = t2.squeeze_many(13);
    let ts = claim_tables(p, s, wide, g, y, c);
    lemma_claim_tables(p, s, wide, g, y, c);
    lemma_rounds_end(batch_shape(p, ch), pair_comb(4), t3, ts, s.bf_vars);
    let q = prove_rounds(batch_shape(p, ch), pair_comb(4), t3, ts, s.bf_vars);
    let e = sent_values(p, s, wide, g, q.point);
    lemma_write_front(q.tx, e[0], e.skip(1));
    assert(seq![e[0]] + e.skip(1) =~= e);
    assert(q.tables[4][0] == e[0]);
    let m = matrix_polys(p, s.matrix, s.row_len, two_to(s.bf_vars));
    assert(e.skip(1) =~= seq![
        mle(p, m[0], q.point),
        mle(p, g.erow, q.point),
        mle(p, g.ecol, q.point),
        mle(p, m[1], q.point),
        mle(p, m[2], q.point),
        mle(p, m[3], q.point),
        mle(p, m[4], q.point),
        mle(p, m[5], q.point),
    ]);
    lemma_write_all_extends(q.tx, e);
    lemma_prefix_trans(h.tx.proof, t1.proof, q.tx.proof);
    lemma_prefix_trans(h.tx.proof, q.tx.proof, k.tx.proof);
}

/// An honest fourth phase is accepted.
#[verifier::rlimit(60)]
proof fn lemma_fourth_complete<F: PrimeField, H: HashFunction>(
    p: int,
    ch: Oracle,
    s: Scheme,
    point: Seq<int>,
    rows: Seq<Seq<int>>,
    f: First,
    fc: FirstCheck,
    g: Second,
    gc: SecondCheck,
    h: Third,
    hc: ThirdCheck,
    trusted: Output,
    full: Seq<Event>,
)
    requires
        field_fits(p, ch),
        scheme_honest(p, s),
        rows_honest(p, s, rows),
        point.len() == s.num_vars,
        reads_fit(p, s, f, g),
        first_done(p, s, small_table(p, s, rows, point), f, fc),
        second_done::<F, H>(p, s, g, gc),
        third_done(p, s, g, h, hc),
        synced(h.tx, full, hc.check),
        fourth_phase(
            p,
            ch,
            s,
            point,
            repeated(small_table(p, s, rows, point), two_to(s.bf_vars)),
            f,
            g,
            h,
        ).tx.proof.is_prefix_of(full),
    ensures
        ({
            let wide = repeated(small_table(p, s, rows, point), two_to(s.bf_vars));
            let k = fourth_phase(p, ch, s, point, wide, f, g, h);
            let c = check_fourth(
                p,
                ch,
                public_of(s, trusted),
                point.skip(log2_of(s.num_rows) as int),
                fc,
                gc,
                hc,
            );
            &&& synced(k.tx, full, c.check)
            &&& fourth_done(p, s, wide, g, k, c)
        }),
{
    let small = small_table(p, s, rows, point);
    let n = two_to(s.bf_vars);
    let wide = repeated(small, n);
    let v = public_of(s, trusted);
    let k = fourth_phase(p, ch, s, point, wide, f, g, h);
    let m = matrix_polys(p, s.matrix, s.row_len, n);
    let tail = point.skip(log2_of(s.num_rows) as int);
    lemma_scheme_sizes(s);
    lemma_wide(p, s, rows, point);
    lemma_small_table(p, s, rows, point);
    let y0 = claim_points(s, point, f, g, h, 0);
    let sent = seq![mle(p, wide, y0[1]), mle(p, wide, y0[2])];
    let t1 = h.tx.write_all(sent);
    lemma_write_all_extends(h.tx, sent);
    let r = ch(t1.hist);
    let y = claim_points(s, point, f, g, h, r);
    lemma_claim_points(s, point, f, g, h, r);
    let t2 = t1.squeeze();
    let c = challenges(ch, t2.hist, 13);
    lemma_squeeze_many_hist(t2, 13);
    lemma_challenges_canonical(p, ch, t2.hist, 13);
    let t3 = t2.squeeze_many(13);
    let ts = claim_tables(p, s, wide, g, y, c);
    let sh = batch_shape(p, ch);
    let comb = pair_comb(4);
    lemma_claim_tables(p, s, wide, g, y, c);
    lemma_rounds_end(sh, comb, t3, ts, s.bf_vars);
    let q = prove_rounds(sh, comb, t3, ts, s.bf_vars);
    let e = sent_values(p, s, wide, g, q.point);
    lemma_write_front(q.tx, e[0], e.skip(1));
    assert(seq![e[0]] + e.skip(1) =~= e);
    assert(q.tables[4][0] == e[0]);
    assert(e.skip(1) =~= seq![
        mle(p, m[0], q.point),
        mle(p, g.erow, q.point),
        mle(p, g.ecol, q.point),
        mle(p, m[1], q.point),
        mle(p, m[2], q.point),
        mle(p, m[3], q.point),
        mle(p, m[4], q.point),
        mle(p, m[5], q.point),
    ]);
    lemma_write_all_extends(q.tx, e);
    assert(k.tx == q.tx.write_all(e));
    lemma_prefix_trans(q.tx.proof, k.tx.proof, full);
    lemma_prefix_trans(t1.proof, q.tx.proof, full);
    // what is read
    law_read_all_written(h.tx, full, hc.check, sent);
    let (c1, ev) = hc.check.read_many(2);
    law_same_challenge(t1, full, c1, ch);
    let c2 = c1.squeeze(ch).0;
    law_same_challenges(t2, full, c2, ch, 13);
    let c3 = c2.squeeze_many(ch, 13).0;
    let yv = seq![
        leading(s.bf_vars, fc.point),
        leading(s.bf_vars, seq![1] + fc.u),
        leading(s.bf_vars, tail),
        gc.point,
        hc.point2,
        leading(s.bf_vars, seq![r] + hc.point1),
    ];
    assert(yv =~= y);
    let claims = seq![blend(fc.evals[1], fc.evals[2], fc.point[0]), ev[0], ev[1]] + gc.evals + hc.evals
        + seq![blend(hc.times[0], hc.times[1], r)];
    let want = true_claims(p, s, wide, g, y);
    assert(claims.len() == 13);
    assert forall|i: int| 0 <= i < 13 implies cong(p, #[trigger] claims[i], want[i]) by {
        if i == 0 {
            lemma_repeated_value(p, small, f.point, s.bf_vars);
        } else if i == 12 {
            lemma_times_value(p, s, h.point1, r);
        } else if i == 1 || i == 2 {
            assert(y0[1] == y[1] && y0[2] == y[2]);
        } else if i < 6 {
            assert(claims[i] == gc.evals[i - 3]);
            assert(i == 3 || i == 4 || i == 5);
        } else {
            assert(claims[i] == hc.evals[i - 6]);
            assert(i == 6 || i == 7 || i == 8 || i == 9 || i == 10 || i == 11);
        }
    }
    lemma_dot_cong(p, claims, want, c, c);
    lemma_fourth_claim(p, s, wide, g, y, c);
    lemma_pair_comb(p, 4);
    let claim = dot(claims, c) % p;
    law_sum_check_complete(sh, comb, t3, ts, s.bf_vars, s.bf_vars, full, c3, claim);
    let b = check_rounds(sh, c3, claim, s.bf_vars);
    law_read_all_written(q.tx, full, b.check, e);
    lemma_fourth_end(p, s, wide, g, y, c, q.point);
    lemma_cong_mod(p, comb(mles(p, ts, q.point)));
    assert(y[0].len() == s.bf_vars);
    assert(committed_order(e) =~= mles(p, opened_tables(p, s, wide, g), q.point));
}

/// Rows of a committed polynomial are rows of the code.
pub proof fn lemma_committed_rows(p: int, s: Scheme, evals: Seq<int>)
    requires
        p > 0,
        scheme_fits(s),
        canonical(p, evals),
    ensures
        rows_honest(p, s, committed_rows(p, s, evals)),
        forall|i: int|
            0 <= i < s.num_rows ==> (#[trigger] committed_rows(p, s, evals)[i]).take(s.row_len as int)
                == message_row(evals, s.row_len, i),
{
    let rows = committed_rows(p, s, evals);
    assert forall|i: int| 0 <= i < rows.len() implies (#[trigger] rows[i]).len() == s.codeword_len
        && in_code(p, s.matrix, s.row_len, rows[i]) && rows[i].take(s.row_len as int) == message_row(
        evals,
        s.row_len,
        i,
    ) by {
        let msg = message_row(evals, s.row_len, i);
        assert(canonical(p, msg)) by {
            assert forall|j: int| 0 <= j < msg.len() implies 0 <= #[trigger] msg[j] < p by {
                assert(i * s.row_len >= 0) by (nonlinear_arith)
                    requires
                        i >= 0,
                ;
                if i * s.row_len + j < evals.len() {
                    assert(0 <= evals[i * s.row_len + j] < p);
                }
            }
        }
        law_codeword_exists(p, s.matrix, s.row_len, s.codeword_len, msg);
    }
}

/// The root of the tree over the codewords of the matrix.
pub open spec fn trusted_root<F: PrimeField, H: HashFunction>(p: int, s: Scheme) -> Output {
    let m = matrix_polys(p, s.matrix, s.row_len, two_to(s.bf_vars));
    batch_root::<F, H>(Seq::new(6, |i: int| folded_code(p, s, m[i])))
}

/// The challenges by which the foldable codewords are folded at the end of an opening.
pub open spec fn fold_challenges<F: PrimeField, H: HashFunction>(
    p: int,
    ch: Oracle,
    s: Scheme,
    o: Opening,
) -> Seq<int> {
    let t = o.fourth.tx;
    let rc = challenges(ch, t.hist, 9);
    let point = o.fourth.point.reverse();
    let opened = opened_of::<F, H>(p, s, o.wide, o.second);
    fold_rounds::<F, H>(
        p,
        ch,
        s.xs,
        s.ws,
        t.squeeze_many(9),
        seq![
            basis(p, point),
            combine(
                p,
                rc,
                all_reversed(opened_tables(p, s, o.wide, o.second)),
                two_to(point.len()),
            ),
        ],
        combine(p, rc, opened_codewords(opened), opened.first.len()),
        point.len(),
    ).point
}

/// What is opened at the end is what was committed to.
proof fn lemma_last_opened<F: PrimeField, H: HashFunction>(p: int, s: Scheme, wide: Seq<int>, g: Second)
    requires
        p > 0,
        scheme_honest(p, s),
        wide.len() == two_to(s.bf_vars),
        g.erow.len() == two_to(s.bf_vars),
        g.ecol.len() == two_to(s.bf_vars),
    ensures
        ({
            let o = opened_of::<F, H>(p, s, wide, g);
            let ts = opened_tables(p, s, wide, g);
            let polys = all_reversed(ts);
            let levels = s.bf_vars + s.log_rate;
            &&& opened_honest::<F, H>(o, levels)
            &&& polys.len() == 9
            &&& uniform(ts, two_to(s.bf_vars))
            &&& uniform(polys, two_to(s.bf_vars))
            &&& forall|i: int|
                0 <= i < 9 ==> #[trigger] opened_codewords(o)[i] == encode(
                    p,
                    s.table,
                    s.log_rate,
                    polys[i],
                )
            &&& o.first_tree[levels - 1][0] == codeword_root::<F, H>(folded_code(p, s, wide))
            &&& o.second_tree[levels - 1][0] == batch_root::<F, H>(
                seq![folded_code(p, s, g.erow), folded_code(p, s, g.ecol)],
            )
            &&& o.third_tree[levels - 1][0] == trusted_root::<F, H>(p, s)
        }),
{
    let o = opened_of::<F, H>(p, s, wide, g);
    let ts = opened_tables(p, s, wide, g);
    let polys = all_reversed(ts);
    let levels = s.bf_vars + s.log_rate;
    let n = two_to(s.bf_vars);
    let m = matrix_polys(p, s.matrix, s.row_len, n);
    lemma_matrix_lens(p, s);
    assert(s.log_rate + s.bf_vars == levels);
    assert forall|i: int| 0 <= i < 9 implies (#[trigger] ts[i]).len() == n by {
        assert(i == 0 || i == 1 || i == 2 || i == 3 || i == 4 || i == 5 || i == 6 || i == 7 || i == 8);
    }
    assert forall|i: int| 0 <= i < 9 implies (#[trigger] polys[i]).len() == n by {
        assert(ts[i].len() == n);
    }
    let cws = opened_codewords(o);
    assert forall|i: int| 0 <= i < 9 implies #[trigger] cws[i] == encode(
        p,
        s.table,
        s.log_rate,
        polys[i],
    ) by {
        assert(i == 0 || i == 1 || i == 2 || i == 3 || i == 4 || i == 5 || i == 6 || i == 7 || i == 8);
    }
    lemma_encode_len(p, s.table, s.log_rate, bit_reversed(wide), s.bf_vars);
    lemma_encode_len(p, s.table, s.log_rate, bit_reversed(g.erow), s.bf_vars);
    lemma_encode_len(p, s.table, s.log_rate, bit_reversed(g.ecol), s.bf_vars);
    assert forall|i: int| 0 <= i < 2 implies (#[trigger] o.second[i]).len() == two_to(levels) by {
        assert(i == 0 || i == 1);
    }
    assert forall|i: int| 0 <= i < 6 implies (#[trigger] o.third[i]).len() == two_to(levels) by {
        assert(m[i].len() == n);
        lemma_encode_len(p, s.table, s.log_rate, bit_reversed(m[i]), s.bf_vars);
    }
    assert(o.second[0].len() == two_to(levels) && o.third[0].len() == two_to(levels));
    lemma_element_tree_shape::<F, H>(o.first, levels);
    lemma_column_tree_shape::<F, H>(o.second, levels);
    lemma_column_tree_shape::<F, H>(o.third, levels);
    lemma_log2_two_to(levels);
}

/// The values that are claimed at the end are those of the combined polynomial.
proof fn lemma_last_claim(p: int, ts: Seq<Seq<int>>, rc: Seq<int>, y: Seq<int>)
    requires
        p > 0,
        ts.len() == 9,
        rc.len() == 9,
        uniform(ts, two_to(y.len())),
    ensures
        cong(
            p,
            dot(rc, mles(p, ts, y)),
            total(
                pair_comb(1),
                seq![basis(p, y.reverse()), combine(p, rc, all_reversed(ts), two_to(y.len()))],
            ),
        ),
{
    let n = two_to(y.len());
    let z = y.reverse();
    let polys = all_reversed(ts);
    let b = basis(p, z);
    let c = combine(p, rc, polys, n);
    let start = seq![b, c];
    assert(uniform(start, n));
    lemma_pair_total(1, start, n);
    lemma_sum_step(0, |i: int| dot(start[i], start[1 + i]));
    lemma_dot_swap(b, c);
    assert(uniform(polys, n)) by {
        assert forall|i: int| 0 <= i < polys.len() implies (#[trigger] polys[i]).len() == n by {
            assert(ts[i].len() == n);
        }
    }
    lemma_combine_at(p, rc, polys, z);
    let f = |i: int| rc[i] * mle(p, polys[i], z);
    let e = mles(p, ts, y);
    lemma_dot_sum(rc, e, 9);
    let g = |i: int| rc[i] * e[i];
    assert forall|i: int| 0 <= i < 9 implies cong(p, #[trigger] f(i), g(i)) by {
        assert(ts[i].len() == n);
        lemma_reversed_dot(ts[i], y);
        lemma_mle_cong(p, polys[i], z);
        lemma_mle_cong(p, ts[i], y);
        lemma_cong_mul(p, rc[i], rc[i], mle(p, polys[i], z), mle(p, ts[i], y));
    }
    lemma_sum_of_cong(p, 9, f, g);
}

/// An opening of rows of the code is accepted, unless the challenges of the last folding meet the
/// opened point in a value that cannot be inverted.
#[verifier::rlimit(60)]
pub proof fn law_open_accepted<F: PrimeField, H: HashFunction>(
    p: int,
    ch: Oracle,
    s: Scheme,
    tx: Tx,
    rows: Seq<Seq<int>>,
    point: Seq<int>,
    full: Seq<Event>,
    check: Check,
)
    requires
        field_fits(p, ch),
        scheme_honest(p, s),
        rows_honest(p, s, rows),
        point.len() == s.num_vars,
        synced(tx, full, check),
        ({
            let leaves = column_leaves::<F, H>(rows, s.codeword_len);
            let tree = tree_over::<H>(leaves, ceil_log2(s.codeword_len));
            let o = opening::<F, H>(p, ch, s, tx, rows, tree, point);
            &&& open_tx::<F, H>(p, ch, s, tx, rows, tree, point).proof.is_prefix_of(full)
            &&& invertible(
                p,
                eq_points(o.fourth.point.reverse(), fold_challenges::<F, H>(p, ch, s, o)),
            )
        }),
    ensures
        ({
            let leaves = column_leaves::<F, H>(rows, s.codeword_len);
            let depth = ceil_log2(s.codeword_len);
            synced(
                open_tx::<F, H>(p, ch, s, tx, rows, tree_over::<H>(leaves, depth), point),
                full,
                check_open::<F, H>(
                    p,
                    ch,
                    public_of(s, trusted_root::<F, H>(p, s)),
                    check,
                    tree_level::<H>(leaves, depth)[0],
                    point,
                ),
            )
        }),
{
    let leaves = column_leaves::<F, H>(rows, s.codeword_len);
    let depth = ceil_log2(s.codeword_len);
    let tree = tree_over::<H>(leaves, depth);
    let root = tree_level::<H>(leaves, depth)[0];
    let trusted = trusted_root::<F, H>(p, s);
    let v = public_of(s, trusted);
    let small = small_table(p, s, rows, point);
    let n = two_to(s.bf_vars);
    let o = opening::<F, H>(p, ch, s, tx, rows, tree, point);
    let wide = o.wide;
    let (f, g, h, k) = (o.first, o.second, o.third, o.fourth);
    let wide_root = codeword_root::<F, H>(folded_code(p, s, wide));
    let t0 = tx.commit(wide_root);
    let head = log2_of(s.num_rows) as int;
    let x = tensor(p, point.take(head));
    lemma_scheme_sizes(s);
    lemma_wide(p, s, rows, point);
    // the transcripts
    lemma_prefix_push(tx.proof, Event::Commitment(wide_root));
    lemma_first_extends(p, ch, s, t0, rows, tree, point);
    lemma_second_extends::<F, H>(p, ch, s, f);
    lemma_third_extends(p, ch, s, f, g);
    assert(reads_fit(p, s, f, g));
    lemma_fourth_extends(p, ch, s, point, wide, f, g, h);
    let t = k.tx;
    lemma_squeeze_many_hist(t, 9);
    lemma_challenges_canonical(p, ch, t.hist, 9);
    let t9 = t.squeeze_many(9);
    let rc = challenges(ch, t.hist, 9);
    let ts = opened_tables(p, s, wide, g);
    let polys = all_reversed(ts);
    let z = k.point.reverse();
    let opened = opened_of::<F, H>(p, s, wide, g);
    let end = open_batch::<F, H>(p, ch, s.xs, s.ws, t9, polys, rc, z, opened, s.bf_queries);
    lemma_last_opened::<F, H>(p, s, wide, g);
    lemma_open_batch_extends::<F, H>(
        p,
        ch,
        s.table,
        s.xs,
        s.ws,
        s.log_rate,
        t9,
        polys,
        rc,
        z,
        opened,
        s.bf_queries,
    );
    lemma_prefix_trans(t.proof, end.proof, full);
    lemma_prefix_trans(h.tx.proof, t.proof, full);
    lemma_prefix_trans(g.tx.proof, h.tx.proof, full);
    lemma_prefix_trans(f.tx.proof, g.tx.proof, full);
    lemma_prefix_trans(t0.proof, f.tx.proof, full);
    // the checks
    law_read_committed(tx, full, check, wide_root);
    let c1 = check.read_commitment().0;
    lemma_first_complete::<F, H>(p, ch, s, t0, rows, point, trusted, full, c1);
    let fc = check_first::<F, H>(p, ch, v, c1, root, x);
    lemma_second_complete::<F, H>(p, ch, s, f, fc, small, trusted, full);
    let gc = check_second(p, ch, v, fc);
    lemma_third_complete(p, ch, s, f, fc, g, gc, trusted, full);
    let hc = check_third(p, ch, v, fc, gc);
    lemma_fourth_complete::<F, H>(p, ch, s, point, rows, f, fc, g, gc, h, hc, trusted, full);
    let kc = check_fourth(p, ch, v, point.skip(head), fc, gc, hc);
    law_same_challenges(t, full, kc.check, ch, 9);
    let c2 = kc.check.squeeze_many(ch, 9).0;
    lemma_last_claim(p, ts, rc, k.point);
    law_batch_complete::<F, H>(
        p,
        ch,
        s.seed,
        s.table,
        s.xs,
        s.ws,
        s.log_rate,
        t9,
        polys,
        rc,
        z,
        opened,
        kc.evals,
        s.bf_queries,
        full,
        c2,
    );
}

/// The value of a table at a point whose first coordinates pick the row.
pub proof fn lemma_rows_dot(t: Seq<int>, head: Seq<int>, tail: Seq<int>)
    requires
        t.len() == two_to(head.len() + tail.len()),
    ensures
        ({
            let r = two_to(tail.len()) as int;
            dot(t, eq_table(head + tail)) == sum_of(
                two_to(head.len()),
                |i: int| eq_prod(i, head) * dot(t.subrange(i * r, i * r + r), eq_table(tail)),
            )
        }),
    decreases head.len(),
{
    let r = two_to(tail.len()) as int;
    let e = eq_table(tail);
    let f = |i: int| eq_prod(i, head) * dot(t.subrange(i * r, i * r + r), e);
    if head.len() == 0 {
        assert(head + tail =~= tail);
        assert(two_to(0) == 1);
        lemma_sum_step(0, f);
        assert(0 * r == 0) by (nonlinear_arith);
        assert(t.subrange(0, r) =~= t);
        assert(eq_prod(0, head) == 1);
        assert(1 * dot(t, e) == dot(t, e));
    } else {
        let x = head[0];
        let rest = head.skip(1);
        let m = two_to(rest.len());
        assert(two_to(head.len()) == 2 * m);
        let z = rest + tail;
        assert(head + tail =~= seq![x] + z);
        let h = two_to(z.len()) as int;
        assert(two_to(head.len() + tail.len()) == 2 * h);
        lemma_two_to_add(rest.len(), tail.len());
        assert(h == m * r);
        let (a, b) = (t.take(h), t.skip(h));
        assert(a + b =~= t);
        lemma_join_dot(a, b, x, z);
        lemma_rows_dot(a, rest, tail);
        lemma_rows_dot(b, rest, tail);
        let fa = |i: int| eq_prod(i, rest) * dot(a.subrange(i * r, i * r + r), e);
        let fb = |i: int| eq_prod(i, rest) * dot(b.subrange(i * r, i * r + r), e);
        lemma_sum_split(m, m, f);
        let hi = |i: int| f(m + i);
        crate::sums::lemma_sum_factor(m, 1 - x, fa);
        crate::sums::lemma_sum_factor(m, x, fb);
        let wa = |i: int| (1 - x) * fa(i);
        let wb = |i: int| x * fb(i);
        assert forall|i: int| 0 <= i < m implies #[trigger] f(i) == wa(i) by {
            crate::multilinear::lemma_eq_prod_high(i, head);
            assert(i * r + r <= h && i * r >= 0) by (nonlinear_arith)
                requires
                    0 <= i < m,
                    h == m * r,
                    r >= 0,
            ;
            assert(a.subrange(i * r, i * r + r) =~= t.subrange(i * r, i * r + r));
            let (q, d) = (eq_prod(i, rest), dot(a.subrange(i * r, i * r + r), e));
            assert(((1 - x) * q) * d == (1 - x) * (q * d)) by (nonlinear_arith);
        }
        lemma_sum_ext(m, f, wa);
        assert forall|i: int| 0 <= i < m implies #[trigger] hi(i) == wb(i) by {
            crate::multilinear::lemma_eq_prod_high(m + i, head);
            assert(i * r + r <= h && i * r >= 0) by (nonlinear_arith)
                requires
                    0 <= i < m,
                    h == m * r,
                    r >= 0,
            ;
            assert((m + i) * r == h + i * r) by (nonlinear_arith)
                requires
                    h == m * r,
            ;
            assert(b.subrange(i * r, i * r + r) =~= t.subrange((m + i) * r, (m + i) * r + r));
            let (q, d) = (eq_prod(i, rest), dot(b.subrange(i * r, i * r + r), e));
            assert((x * q) * d == x * (q * d)) by (nonlinear_arith);
        }
        lemma_sum_ext(m, hi, wb);
        let (sa, sb) = (sum_of(m, fa), sum_of(m, fb));
        assert((1 - x) * sa + x * sb == sa + (sb - sa) * x) by (nonlinear_arith);
    }
}

/// The value that an opening sends for the point is the value of the polynomial there.
pub proof fn law_opened_value(p: int, s: Scheme, evals: Seq<int>, point: Seq<int>)
    requires
        p > 0,
        scheme_fits(s),
        s.row_len >= 2,
        canonical(p, evals),
        evals.len() == two_to(s.num_vars),
        point.len() == s.num_vars,
    ensures
        ({
            let rows = committed_rows(p, s, evals);
            let wide = repeated(small_table(p, s, rows, point), two_to(s.bf_vars));
            let k = log2_of(s.num_rows) as int;
            mle(p, wide, leading(s.bf_vars, point.skip(k))) == mle(p, evals, point)
        }),
{
    lemma_scheme_sizes(s);
    lemma_committed_rows(p, s, evals);
    let rows = committed_rows(p, s, evals);
    lemma_small_table(p, s, rows, point);
    let small = small_table(p, s, rows, point);
    let k = log2_of(s.num_rows) as int;
    let (head, tail) = (point.take(k), point.skip(k));
    let x = tensor(p, head);
    let y = seq![0int] + tail;
    let e = eq_table(tail);
    let r = s.row_len as int;
    assert(leading(s.bf_vars, tail) =~= leading(s.bf_vars, y));
    lemma_repeated_value(p, small, y, s.bf_vars);
    lemma_halves(p, small, y);
    assert(y.skip(1) =~= tail);
    let lo = small.take(r);
    let hi = small.skip(r);
    assert((mle(p, hi, tail) - mle(p, lo, tail)) * 0 == 0) by (nonlinear_arith);
    assert(cong(p, mle(p, lo, tail), mle(p, small, y)));
    // the first half is the combination of the messages
    let msgs = Seq::new(s.num_rows, |i: int| message_row(evals, s.row_len, i));
    assert(lo =~= combine(p, x, msgs, s.row_len)) by {
        assert forall|j: int| 0 <= j < r implies lo[j] == combine(p, x, msgs, s.row_len)[j] by {
            let a = |i: int| x[i] * rows[i][j];
            let b = |i: int| x[i] * msgs[i][j];
            assert forall|i: int| 0 <= i < s.num_rows implies #[trigger] a(i) == b(i) by {
                assert(rows[i].take(r) == msgs[i]);
                assert(rows[i].take(r)[j] == rows[i][j]);
            }
            lemma_sum_ext(s.num_rows, a, b);
        }
    }
    assert(uniform(msgs, s.row_len));
    lemma_combine_dot(p, x, msgs, e);
    lemma_mle_cong(p, lo, tail);
    assert(head + tail =~= point);
    lemma_rows_dot(evals, head, tail);
    let f = |i: int| x[i] * dot(msgs[i], e);
    let g = |i: int| eq_prod(i, head) * dot(evals.subrange(i * r, i * r + r), e);
    assert forall|i: int| 0 <= i < s.num_rows implies cong(p, #[trigger] f(i), g(i)) by {
        assert(i * r + r <= evals.len() && i * r >= 0) by (nonlinear_arith)
            requires
                0 <= i < s.num_rows,
                evals.len() == s.num_rows * r,
                r >= 0,
        ;
        assert(msgs[i] =~= evals.subrange(i * r, i * r + r));
        assert(x[i] == eq_prod(i, head) % p);
        lemma_cong_mod(p, eq_prod(i, head));
        lemma_cong_mul(p, x[i], eq_prod(i, head), dot(msgs[i], e), dot(msgs[i], e));
    }
    lemma_sum_of_cong(p, s.num_rows, f, g);
    lemma_mle_cong(p, evals, point);
    lemma_mle_cong(p, small, y);
    crate::algebra::lemma_canonical_unique(p, mle(p, small, y), mle(p, evals, point));
}

/// No entry of the tables of the foldable code is zero.
pub open spec fn foldable(p: int, seed: Seq<u8>, levels: nat) -> bool {
    forall|l: nat, i: int|
        l < levels && 0 <= i < two_to(l) ==> #[trigger] table_entry(p, seed, l, i) != 0
}

/// Parameters from a seed make an honest scheme.
pub proof fn lemma_params_honest<F: PrimeField, H: HashFunction>(pp: BrakingbaseProverParams<F>)
    requires
        pp.wf::<H>(),
        pp.basefold.from_seed(),
        pp.brakedown.row_len >= 2,
        foldable(
            F::modulus(),
            pp.basefold.seed@,
            (pp.basefold.num_vars + pp.basefold.log_rate) as nat,
        ),
    ensures
        scheme_honest(F::modulus(), pp.scheme()),
{
    let p = F::modulus();
    let s = pp.scheme();
    let levels = s.bf_vars + s.log_rate;
    lemma_vals_canonical(pp.parity_check_matrix.val@);
    let table = pp.basefold.table@;
    let weights = pp.basefold.table_w_weights@;
    assert forall|l: int, i: int|
        #![trigger s.table[l][i]]
        0 <= l < levels && 0 <= i < two_to(l as nat) implies s.table[l][i] == table_entry(
        p,
        s.seed,
        l as nat,
        i,
    ) by {
        assert(s.table[l] == vals(table[l]@));
        assert(table[l]@[i].value() == table_entry(p, s.seed, l as nat, i));
    }
    assert forall|l: int, q: int|
        #![trigger s.xs[l][q]]
        0 <= l < levels && 0 <= q < two_to(l as nat) implies s.xs[l][q] == s.table[l][reversed(
        q as nat,
        l as nat,
    ) as int] && s.xs[l][q] != 0 && is_weight(p, s.xs[l][q], s.ws[l][q]) by {
        lemma_reversed_bound(q as nat, l as nat);
        let i = reversed(q as nat, l as nat) as int;
        assert(weights[l]@[q].0.value() == table_entry(p, s.seed, l as nat, i));
        assert(s.xs[l][q] == weights[l]@[q].0.value());
        assert(s.ws[l][q] == weights[l]@[q].1.value());
        assert(s.table[l][i] == table_entry(p, s.seed, l as nat, i));
    }
    assert forall|l: int| 0 <= l < levels implies (#[trigger] s.xs[l]).len() == two_to(l as nat)
        && s.ws[l].len() == two_to(l as nat) by {
        assert(weights[l]@.len() == two_to(l as nat));
    }
}

/// The parameters of a prover and of a verifier belong together.
pub open spec fn params_match<F: PrimeField>(
    pp: BrakingbaseProverParams<F>,
    vp: BrakingbaseVerifierParams<F>,
) -> bool {
    vp.public() == public_of(pp.scheme(), tree_view(pp.trusted_commit.codeword_tree@).last()[0])
}

/// What is committed to and opened at a point is accepted there: a verifier that reads the proof of
/// an opening finds no fault. Left out are rows of a single entry, codes with a zero entry in their
/// tables, and openings whose last challenges meet the point in a value that cannot be inverted.
pub proof fn law_commit_open_verify<F: PrimeField, H: HashFunction>(
    pp: BrakingbaseProverParams<F>,
    vp: BrakingbaseVerifierParams<F>,
    ch: Oracle,
    evals: Seq<int>,
    comm: BrakingbaseCommitment<F>,
    point: Seq<int>,
    tx: Tx,
    rx: Rx,
)
    requires
        pp.wf::<H>(),
        pp.basefold.from_seed(),
        params_match(pp, vp),
        oracle_reduced(F::modulus(), ch),
        canonical(F::modulus(), evals),
        is_commitment::<F, H>(
            comm,
            committed_rows(F::modulus(), pp.scheme(), evals),
            pp.brakedown.codeword_len as nat,
        ),
        point.len() == pp.num_vars,
        pp.brakedown.row_len >= 2,
        foldable(
            F::modulus(),
            pp.basefold.seed@,
            (pp.basefold.num_vars + pp.basefold.log_rate) as nat,
        ),
        ({
            let rows = comm_rows(pp, comm);
            let tree = comm_levels(pp, comm);
            let s = pp.scheme();
            let full = open_tx::<F, H>(F::modulus(), ch, s, tx, rows, tree, point).proof;
            let o = opening::<F, H>(F::modulus(), ch, s, tx, rows, tree, point);
            &&& synced(tx, full, checking(rx))
            &&& invertible(
                F::modulus(),
                eq_points(
                    o.fourth.point.reverse(),
                    fold_challenges::<F, H>(F::modulus(), ch, s, o),
                ),
            )
        }),
    ensures
        check_open::<F, H>(F::modulus(), ch, vp.public(), checking(rx), comm.root, point).err is None,
{
    let p = F::modulus();
    let s = pp.scheme();
    let rows = committed_rows(p, s, evals);
    F::lemma_modulus();
    lemma_params_honest::<F, H>(pp);
    lemma_committed_rows(p, s, evals);
    let tree = comm_levels(pp, comm);
    let full = open_tx::<F, H>(p, ch, s, tx, rows, tree, point).proof;
    lemma_prefix_push(full, Event::Challenge);
    assert(trusted_root::<F, H>(p, s) == tree_view(pp.trusted_commit.codeword_tree@).last()[0]) by {
        let m = matrix_polys(p, s.matrix, s.row_len, two_to(s.bf_vars));
        let codes = Seq::new(6, |i: int| folded_code(p, s, m[i]));
        assert(poly_values(pp.trusted_commit.codewords@) =~= codes) by {
            assert forall|i: int| 0 <= i < 6 implies poly_values(pp.trusted_commit.codewords@)[i]
                == codes[i] by {
                assert(vals(pp.trusted_commit.codewords@[i].poly@) == folded_code(p, s, m[i]));
            }
        }
    }
    law_open_accepted::<F, H>(p, ch, s, tx, rows, point, full, checking(rx));
}

} // verus!
