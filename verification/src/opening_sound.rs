//! Whoever the prover of an opening is: what the columns and the matrix are claimed to give is what the
//! tables give, but for challenges that happen to hide a mistake.
use vstd::prelude::*;
use crate::algebra::{
    canonical, cong, lemma_cong_add, lemma_cong_mod, lemma_cong_mul, lemma_mod_canonical, two_to,
};
use crate::bits::{ceil_log2, is_power_of_two, log2_of};
use crate::brakingbase_laws::{lemma_mask_sum, lemma_mask_total, lemma_mask_value};
use crate::brakingbase_open::mask_of;
use crate::brakingbase_verify::{FirstCheck, Public, check_first, check_second};
use crate::combiners::lemma_prod3;
use crate::evaluations::mles;
use crate::field::PrimeField;
use crate::hash::{HashFunction, Output};
use crate::multilinear::{eq_prod, mle};
use crate::opening_accepted::{
    after_first, column_sent, columns_history, index_drawn, law_first_accepted, law_second_accepted,
};
use crate::rounds::{Shape, all_canonical, check_rounds, row, uniform};
use crate::soundness::{law_claim_sound, law_rounds_checked, lucky_round};
use crate::sum_checks::{lemma_mask_comb, mask_comb, triple_comb};
use crate::sums::{dot, lemma_sum_ext, sum_of};
use crate::transcript::{Check, Oracle, Rx};

verus! {

/// The indices of the columns that are drawn.
pub open spec fn indices_drawn(ch: Oracle, check: Check, v: Public) -> Seq<int> {
    Seq::new(
        v.num_queries,
        |j: int|
            index_drawn(
                ch,
                check.rx.hist,
                check.rx.stream,
                v.num_rows,
                ceil_log2(v.codeword_len),
                v.codeword_len,
                j,
            ),
    )
}

/// The check after the columns are read.
pub open spec fn after_columns(check: Check, v: Public) -> Check {
    let width = v.num_rows + ceil_log2(v.codeword_len);
    Check {
        rx: Rx {
            hist: columns_history(check.rx.hist, check.rx.stream, width, v.num_queries),
            stream: check.rx.stream.skip(v.num_queries as int * width),
        },
        err: None,
    }
}

/// The tables of the first sum-check: the weights of the indices, the row and the table.
pub open spec fn row_tables(
    p: int,
    v: Public,
    idx: Seq<int>,
    w: Seq<int>,
    wide: Seq<int>,
    h: Seq<int>,
) -> Seq<Seq<int>> {
    seq![mask_of(p, 2 * v.row_len, idx, w), wide, h]
}

/// A first phase that is accepted, and whose three values are those of a row `wide` and of a table `h`
/// at its point: the combinations of the columns, weighed, are the entries of the row at the indices
/// that were drawn, weighed the same, and the value that is claimed for the matrix is the inner
/// product of the table and the row, both together and but for a challenge that hides a mistake.
pub proof fn law_row_sound<F: PrimeField, H: HashFunction>(
    p: int,
    ch: Oracle,
    v: Public,
    check: Check,
    root: Output,
    x: Seq<int>,
    wide: Seq<int>,
    h: Seq<int>,
)
    requires
        p > 0,
        is_power_of_two(v.row_len),
        v.row_len >= 1,
        1 <= v.codeword_len <= 2 * v.row_len,
        wide.len() == 2 * v.row_len,
        h.len() == 2 * v.row_len,
        canonical(p, wide),
        canonical(p, h),
        ({
            let f = check_first::<F, H>(p, ch, v, check, root, x);
            &&& f.check.err is None
            &&& cong(p, f.evals[0], mle(p, h, f.point))
            &&& cong(
                p,
                f.evals[1] + (f.evals[2] - f.evals[1]) * f.point[0],
                mle(p, wide, f.point),
            )
        }),
    ensures
        ({
            let f = check_first::<F, H>(p, ch, v, check, root, x);
            let (n, depth) = (v.num_queries, ceil_log2(v.codeword_len));
            let idx = indices_drawn(ch, check, v);
            let (c1, u) = after_columns(check, v).squeeze_many(ch, log2_of(v.row_len));
            let (c2, at_u) = c1.read();
            let (c3, w) = c2.squeeze_many(ch, n);
            let (c4, rc) = c3.squeeze_many(ch, 2);
            cong(
                p,
                rc[0] * sum_of(
                    n,
                    |j: int| w[j] * dot(x, column_sent(check.rx.stream, v.num_rows, depth, j)),
                ) + rc[1] * at_u,
                rc[0] * sum_of(n, |j: int| w[j] * wide[idx[j]]) + rc[1] * dot(h, wide),
            ) || exists|i: int|
                0 <= i <= log2_of(v.row_len) && #[trigger] lucky_round(
                    (Shape { p, ch, degree: 2, descending: true }),
                    mask_comb(rc[0], rc[1]),
                    row_tables(p, v, idx, w, wide, h),
                    c4.rx.stream,
                    f.point,
                    i,
                )
        }),
{
    let f = check_first::<F, H>(p, ch, v, check, root, x);
    let (n, depth, lr) = (v.num_queries, ceil_log2(v.codeword_len), log2_of(v.row_len));
    let size = 2 * v.row_len;
    assert(two_to(lr + 1) == size);
    let idx = indices_drawn(ch, check, v);
    law_first_accepted::<F, H>(p, ch, v, check, root, x);
    let (c1, u) = after_columns(check, v).squeeze_many(ch, lr);
    let (c2, at_u) = c1.read();
    let (c3, w) = c2.squeeze_many(ch, n);
    let (c4, rc) = c3.squeeze_many(ch, 2);
    let columns = sum_of(
        n,
        |j: int| w[j] * dot(x, column_sent(check.rx.stream, v.num_rows, depth, j)),
    );
    let claim = rc[0] * columns + rc[1] * at_u;
    let sh = Shape { p, ch, degree: 2, descending: true };
    let r = check_rounds(sh, c4, claim % p, lr + 1);
    law_rounds_checked(sh, c4, claim % p, lr + 1);
    let mask = mask_of(p, size, idx, w);
    let ts = row_tables(p, v, idx, w, wide, h);
    let comb = mask_comb(rc[0], rc[1]);
    assert forall|i: int| 0 <= i < idx.len() implies 0 <= #[trigger] idx[i] < size by {
        let y = ch(columns_history(
            check.rx.hist,
            check.rx.stream,
            v.num_rows + depth,
            i as nat,
        )) % 0x1_0000_0000;
        lemma_mod_canonical(v.codeword_len as int, y);
    }
    assert forall|k: int| 0 <= k < mask.len() implies 0 <= #[trigger] mask[k] < p by {
        lemma_mod_canonical(
            p,
            sum_of(
                idx.len(),
                |i: int|
                    if idx[i] == k {
                        w[i]
                    } else {
                        0
                    },
            ),
        );
    }
    assert forall|i: int| 0 <= i < 3 implies (#[trigger] ts[i]).len() == size && canonical(p, ts[i]) by {
        assert(i == 0 || i == 1 || i == 2);
    }
    lemma_mask_comb(p, rc[0], rc[1]);
    lemma_mask_value(p, size, idx, w, r.point);
    let q = mles(p, ts, r.point);
    let m = sum_of(
        n,
        |j: int|
            w[j] * eq_prod(
                index_drawn(
                    ch,
                    check.rx.hist,
                    check.rx.stream,
                    v.num_rows,
                    depth,
                    v.codeword_len,
                    j,
                ),
                r.point,
            ),
    );
    lemma_sum_ext(
        n,
        |j: int|
            w[j] * eq_prod(
                index_drawn(
                    ch,
                    check.rx.hist,
                    check.rx.stream,
                    v.num_rows,
                    depth,
                    v.codeword_len,
                    j,
                ),
                r.point,
            ),
        |i: int| w[i] * eq_prod(idx[i], r.point),
    );
    let e = f.evals;
    let b = e[1] + (e[2] - e[1]) * r.point[0];
    lemma_cong_mul(p, rc[0], rc[0], m, q[0]);
    lemma_cong_mul(p, rc[1], rc[1], e[0], q[2]);
    lemma_cong_add(p, rc[0] * m, rc[0] * q[0], rc[1] * e[0], rc[1] * q[2]);
    lemma_cong_mul(p, rc[0] * m + rc[1] * e[0], rc[0] * q[0] + rc[1] * q[2], b, q[1]);
    lemma_two_products(rc[0], rc[1], q[0], q[1], q[2]);
    assert(comb(q) == (rc[0] * q[0] + rc[1] * q[2]) * q[1]);
    law_claim_sound(sh, comb, ts, lr + 1, c4, claim % p);
    lemma_cong_mod(p, claim);
    lemma_mask_total(rc[0], rc[1], mask, wide, h);
    lemma_mask_sum(p, size, idx, w, wide);
    let t = sum_of(idx.len(), |i: int| w[i] * wide[idx[i]]);
    lemma_cong_mul(p, rc[0], rc[0], dot(mask, wide), t);
    lemma_cong_add(p, rc[0] * dot(mask, wide), rc[0] * t, rc[1] * dot(h, wide), rc[1] * dot(h, wide));
    lemma_sum_ext(n, |j: int| w[j] * wide[idx[j]], |i: int| w[i] * wide[idx[i]]);
}

proof fn lemma_two_products(a: int, b: int, x: int, y: int, z: int)
    ensures
        a * (x * y) + b * (z * y) == (a * x + b * z) * y,
{
    assert(a * (x * y) == (a * x) * y) by (nonlinear_arith);
    assert(b * (z * y) == (b * z) * y) by (nonlinear_arith);
    crate::accepted::lemma_distribute(a * x, b * z, y);
}

/// A second phase that is accepted, and whose three values are those of three tables at its point: the
/// value of the matrix is the sum of the products of the entries of the tables, but for a challenge
/// that hides a mistake.
pub proof fn law_entries_sound(p: int, ch: Oracle, v: Public, f: FirstCheck, ts: Seq<Seq<int>>)
    requires
        p > 0,
        ts.len() == 3,
        uniform(ts, two_to(v.bf_vars)),
        all_canonical(p, ts),
        ({
            let g = check_second(p, ch, v, f);
            &&& g.check.err is None
            &&& cong(p, g.evals[0], mle(p, ts[2], g.point))
            &&& cong(p, g.evals[1], mle(p, ts[0], g.point))
            &&& cong(p, g.evals[2], mle(p, ts[1], g.point))
        }),
    ensures
        ({
            let g = check_second(p, ch, v, f);
            cong(
                p,
                f.evals[0],
                sum_of(two_to(v.bf_vars), |j: int| ts[0][j] * ts[1][j] * ts[2][j]),
            ) || exists|i: int|
                0 <= i < v.bf_vars && #[trigger] lucky_round(
                    (Shape { p, ch, degree: 3, descending: true }),
                    triple_comb(),
                    ts,
                    after_first(f.check).rx.stream,
                    g.point,
                    i,
                )
        }),
{
    let g = check_second(p, ch, v, f);
    law_second_accepted(p, ch, v, f);
    let sh = Shape { p, ch, degree: 3, descending: true };
    let c1 = after_first(f.check);
    let r = check_rounds(sh, c1, f.evals[0], v.bf_vars);
    law_rounds_checked(sh, c1, f.evals[0], v.bf_vars);
    let comb = triple_comb();
    lemma_prod3(p, 1, 0, 1, 2, 3);
    let q = mles(p, ts, r.point);
    let e = g.evals;
    lemma_cong_mul(p, e[0], q[2], e[1], q[0]);
    lemma_cong_mul(p, e[0] * e[1], q[2] * q[0], e[2], q[1]);
    let (x, y, z) = (q[0], q[1], q[2]);
    assert((z * x) * y == x * y * z) by (nonlinear_arith);
    assert(comb(q) == 1 * (x * y * z));
    law_claim_sound(sh, comb, ts, v.bf_vars, c1, f.evals[0]);
    let a = |j: int| comb(row(ts, j));
    let b = |j: int| ts[0][j] * ts[1][j] * ts[2][j];
    assert forall|j: int| 0 <= j < two_to(v.bf_vars) implies #[trigger] a(j) == b(j) by {
        let w = row(ts, j);
        assert(w[0] == ts[0][j] && w[1] == ts[1][j] && w[2] == ts[2][j]);
        assert(comb(w) == 1 * (w[0] * w[1] * w[2]));
    }
    lemma_sum_ext(two_to(v.bf_vars), a, b);
    assert(ts[0].len() == two_to(v.bf_vars));
}

} // verus!
