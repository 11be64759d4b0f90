//! With which error a check refuses: of all that it asks for, the first that is not met decides.
use vstd::prelude::*;
use crate::accepted::{evaluation_weights, gate_total, weighed_evaluations};
use crate::algebra::{cong, lemma_cong_mod, lemma_cong_mul, two_to};
use crate::basefold_batch::lemma_check_batch_failed;
use crate::bits::{ceil_log2, log2_of};
use crate::brakingbase::{BrakingbaseProverParams, BrakingbaseVerifierParams, rows_of};
use crate::brakingbase_verify::{
    FirstCheck, Public, SecondCheck, check_first, check_fourth, check_open, check_second,
    check_third, column_holds, lemma_check_fourth_failed, lemma_check_second_failed,
    lemma_check_third_failed, lemma_failed, read_columns, weighed_columns,
};
use crate::error::Error;
use crate::field::{PrimeField, vals2};
use crate::gkr::gkr::{
    GkrChecking, gkr_check, gkr_check_layer, gkr_check_layers, lemma_gkr_check_failed,
    lemma_gkr_check_from_failed, product_claim,
};
use crate::gkr::helper::{first_input_layer, weighted_bits};
use crate::hash::{HashFunction, Output, element_bytes};
use crate::merkle::climb;
use crate::multilinear::{eq_points, eq_prod, poly_at, tensor};
use crate::opening_accepted::{after_first, point_number};
use crate::rounds::{Claiming, Shape, check_round, check_rounds, lemma_check_rounds_failed};
use crate::soundness::{elements, has_digests, has_elements, law_elements_read, poly_from};
use crate::sum_checks::check_batch_sum;
use crate::sums::{dot, lemma_sum_ext, sum_of};
use crate::transcript::{Check, Oracle};

verus! {

/// A round of a sum-check: it fails for want of coefficients, or because the polynomial does not add
/// up to the claim, and for nothing else.
pub proof fn law_round_outcome(sh: Shape, u: Claiming)
    requires
        sh.p > 0,
        u.check.err is None,
    ensures
        ({
            let s = u.check.rx.stream;
            let c = poly_from(sh, s, 0);
            check_round(sh, u).check.err == (if !has_elements(s, 0, sh.degree as int + 1) {
                Some(Error::Transcript)
            } else if !cong(sh.p, poly_at(c, 0) + poly_at(c, 1), u.claim) {
                Some(Error::SumCheck)
            } else {
                None
            })
        }),
{
    let w = sh.degree + 1;
    let s = u.check.rx.stream;
    law_elements_read(u.check, w);
    let (c1, sent) = u.check.read_many(w);
    if c1.err is None {
        let c = poly_from(sh, s, 0);
        assert forall|j: int| 0 <= j < w implies sh.ordered(sent)[j] == c[j] by {
            let k = if sh.descending {
                sh.degree - j
            } else {
                j
            };
            assert(sh.ordered(sent)[j] == sent[k]);
            assert(sent[k] == s[0 + k]->Element_0);
        }
        assert(sh.ordered(sent) =~= c);
    }
}

/// A sum-check fails with the error of the first round that fails, whatever follows.
pub proof fn law_rounds_outcome(sh: Shape, check: Check, claim: int, k: nat, n: nat)
    requires
        k < n,
    ensures
        check.err is Some ==> check_rounds(sh, check, claim, n).check == check,
        ({
            let u = check_round(sh, check_rounds(sh, check, claim, k));
            u.check.err is Some ==> check_rounds(sh, check, claim, n).check == u.check
        }),
{
    assert(check_rounds(sh, check, claim, k + 1) == check_round(sh, check_rounds(sh, check, claim, k)));
    if check.err is Some {
        lemma_check_rounds_failed(sh, check, claim, 0, n);
    }
    if check_rounds(sh, check, claim, k + 1).check.err is Some {
        lemma_check_rounds_failed(sh, check, claim, k + 1, n);
    }
}

/// A batched sum-check: after the rounds it fails for want of evaluations, or because they do not
/// make up the last claim.
pub proof fn law_batch_sum_outcome(
    p: int,
    ch: Oracle,
    check: Check,
    x: Seq<Seq<int>>,
    claim: int,
    c: Seq<int>,
)
    requires
        p > 0,
        x.len() >= 3,
    ensures
        ({
            let b = check_batch_sum(p, ch, check, x, claim, c);
            let v = check_rounds(
                (Shape { p, ch, degree: 2, descending: false }),
                check,
                claim,
                x[0].len(),
            );
            let s = v.check.rx.stream;
            b.check.err == (if v.check.err is Some {
                v.check.err
            } else if !has_elements(s, 0, 9) {
                Some(Error::Transcript)
            } else if !cong(
                p,
                v.claim,
                weighed_evaluations(evaluation_weights(c, x, v.point), elements(s, 0, 9)),
            ) {
                Some(Error::SumCheckEvaluation)
            } else {
                None
            })
        }),
{
    let sh = Shape { p, ch, degree: 2, descending: false };
    let v = check_rounds(sh, check, claim, x[0].len());
    if v.check.err is Some {
        lemma_failed(v.check, ch, 9);
    } else {
        law_elements_read(v.check, 9);
        let e = v.check.read_many(9).1;
        let q = |i: int| if i < x.len() { eq_points(x[i], v.point) } else { 0 };
        crate::accepted::lemma_spread(c, e, q(0), q(1), q(2), q(3), q(4), q(5));
    }
}

/// A layer of a grand product: after the rounds it fails for want of values, or because their
/// products do not make up the last claim.
pub proof fn law_layer_outcome(p: int, ch: Oracle, a: GkrChecking, n: nat, k: nat)
    requires
        p > 0,
        a.coeff.len() == n,
    ensures
        ({
            let v = check_rounds(
                (Shape { p, ch, degree: 3, descending: false }),
                a.check,
                a.claim,
                k,
            );
            let s = v.check.rx.stream;
            gkr_check_layer(p, ch, a, n, k).check.err == (if v.check.err is Some {
                v.check.err
            } else if !has_elements(s, 0, 2 * n as int) {
                Some(Error::Transcript)
            } else if !cong(
                p,
                v.claim,
                eq_points(a.point, v.point) * gate_total(n, a.coeff, elements(s, 0, 2 * n)),
            ) {
                Some(Error::GrandProduct)
            } else {
                None
            })
        }),
{
    let sh = Shape { p, ch, degree: 3, descending: false };
    let v = check_rounds(sh, a.check, a.claim, k);
    if v.check.err is Some {
        lemma_failed(v.check, ch, 2 * n);
    } else {
        law_elements_read(v.check, 2 * n);
        let e = v.check.read_many(2 * n).1;
        let q = eq_points(a.point, v.point);
        let t = gate_total(n, a.coeff, e);
        lemma_cong_mod(p, t);
        lemma_cong_mul(p, q, q, product_claim(p, a.coeff, e), t);
    }
}

/// A grand product fails with the error of the first layer that fails, whatever follows.
pub proof fn law_gkr_outcome(p: int, ch: Oracle, check: Check, n: nat, k: nat, depth: nat)
    requires
        1 <= depth,
        k < depth,
    ensures
        check.err is Some ==> gkr_check(p, ch, check, n, depth).check == check,
        gkr_check_layers(p, ch, check, n, k).check.err is Some ==> gkr_check(p, ch, check, n, depth).check
            == gkr_check_layers(p, ch, check, n, k).check,
{
    if check.err is Some {
        lemma_gkr_check_from_failed(p, ch, check, n, depth);
    }
    if gkr_check_layers(p, ch, check, n, k).check.err is Some {
        lemma_gkr_check_failed(p, ch, check, n, k, (depth - 1) as nat);
    }
}

/// The columns of an opening: if all are there and one of them does not lead to the root, it is
/// refused for its path, whatever follows.
pub proof fn law_columns_refused<F: PrimeField, H: HashFunction>(
    p: int,
    ch: Oracle,
    v: Public,
    check: Check,
    root: Output,
    x: Seq<int>,
    i: int,
)
    requires
        read_columns(ch, check, v.num_rows, v.codeword_len, v.num_queries).check.err is None,
        0 <= i < v.num_queries,
        ({
            let s = read_columns(ch, check, v.num_rows, v.codeword_len, v.num_queries);
            climb::<H>(
                H::digest(element_bytes(s.columns[i], F::repr_len())),
                s.indices[i],
                s.paths[i],
                s.paths[i].len(),
            ) != root
        }),
    ensures
        check_first::<F, H>(p, ch, v, check, root, x).check.err == Some(Error::MerklePath),
{
    let s = read_columns(ch, check, v.num_rows, v.codeword_len, v.num_queries);
    assert(!column_holds::<F, H>(s.columns[i], s.indices[i], s.paths[i], root));
    let c0 = s.check.fail(Error::MerklePath);
    let lr = log2_of(v.row_len);
    lemma_failed(c0, ch, lr);
    lemma_failed(c0, ch, v.num_queries);
    lemma_failed(c0, ch, 2);
    lemma_failed(c0, ch, 3);
    let w = c0.squeeze_many(ch, v.num_queries).1;
    let rc = c0.squeeze_many(ch, 2).1;
    let claim = (rc[0] * weighed_columns(x, s.columns, w) + rc[1] * 0) % p;
    lemma_check_rounds_failed((Shape { p, ch, degree: 2, descending: true }), c0, claim, 0, lr + 1);
}

/// The second phase of an opening: a round that fails is told apart from one of the first phase, and
/// a last claim that the values do not make up is not.
pub proof fn law_second_outcome(p: int, ch: Oracle, v: Public, f: FirstCheck)
    requires
        f.check.err is None,
        has_digests(f.check.rx.stream, 0, 1),
    ensures
        ({
            let r = check_rounds(
                (Shape { p, ch, degree: 3, descending: true }),
                after_first(f.check),
                f.evals[0],
                v.bf_vars,
            );
            let s = r.check.rx.stream;
            let e = elements(s, 0, 3);
            check_second(p, ch, v, f).check.err == (if r.check.err == Some(Error::SumCheck) {
                Some(Error::SecondSumCheck)
            } else if r.check.err is Some {
                r.check.err
            } else if !has_elements(s, 0, 3) {
                Some(Error::Transcript)
            } else if !cong(p, r.claim, e[0] * e[1] * e[2]) {
                Some(Error::SumCheck)
            } else {
                None
            })
        }),
{
    let c1 = after_first(f.check);
    assert(f.check.rx.stream[0] is Commitment);
    assert(f.check.read_commitment().0 == c1);
    let r = check_rounds((Shape { p, ch, degree: 3, descending: true }), c1, f.evals[0], v.bf_vars);
    if r.check.err is Some {
        lemma_failed(r.check, ch, 3);
        let d = Check { rx: r.check.rx, err: Some(Error::SecondSumCheck) };
        lemma_failed(d, ch, 3);
    } else {
        law_elements_read(r.check, 3);
    }
}

/// The last claim of the first sum-check of an opening, once its rounds are accepted: it is refused if
/// the three values that follow do not make it up.
pub proof fn law_first_outcome<F: PrimeField, H: HashFunction>(
    p: int,
    ch: Oracle,
    v: Public,
    check: Check,
    root: Output,
    x: Seq<int>,
)
    requires
        read_columns(ch, check, v.num_rows, v.codeword_len, v.num_queries).check.err is None,
        ({
            let s = read_columns(ch, check, v.num_rows, v.codeword_len, v.num_queries);
            forall|i: int|
                0 <= i < v.num_queries ==> column_holds::<F, H>(
                    #[trigger] s.columns[i],
                    s.indices[i],
                    s.paths[i],
                    root,
                )
        }),
    ensures
        ({
            let n = v.num_queries;
            let lr = log2_of(v.row_len);
            let s = read_columns(ch, check, v.num_rows, v.codeword_len, n);
            let (c1, u) = s.check.squeeze_many(ch, lr);
            let (c2, at_u) = c1.read();
            let (c3, w) = c2.squeeze_many(ch, n);
            let (c4, rc) = c3.squeeze_many(ch, 2);
            let columns = sum_of(s.columns.len(), |j: int| w[j] * dot(x, s.columns[j]));
            let r = check_rounds(
                (Shape { p, ch, degree: 2, descending: true }),
                c4,
                (rc[0] * columns + rc[1] * at_u) % p,
                lr + 1,
            );
            let t = r.check.rx.stream;
            let e = elements(t, 0, 3);
            let mask = sum_of(s.indices.len(), |j: int| w[j] * eq_prod(s.indices[j], r.point));
            check_first::<F, H>(p, ch, v, check, root, x).check.err == (if r.check.err is Some {
                r.check.err
            } else if !has_elements(t, 0, 3) {
                Some(Error::Transcript)
            } else if !cong(
                p,
                r.claim,
                (rc[0] * mask + rc[1] * e[0]) * (e[1] + (e[2] - e[1]) * r.point[0]),
            ) {
                Some(Error::SumCheck)
            } else {
                None
            })
        }),
{
    let n = v.num_queries;
    let lr = log2_of(v.row_len);
    let s = read_columns(ch, check, v.num_rows, v.codeword_len, n);
    let (c1, u) = s.check.squeeze_many(ch, lr);
    let (c2, at_u) = c1.read();
    let (c3, w) = c2.squeeze_many(ch, n);
    let (c4, rc) = c3.squeeze_many(ch, 2);
    let columns = sum_of(s.columns.len(), |j: int| w[j] * dot(x, s.columns[j]));
    let r = check_rounds(
        (Shape { p, ch, degree: 2, descending: true }),
        c4,
        (rc[0] * columns + rc[1] * at_u) % p,
        lr + 1,
    );
    if r.check.err is Some {
        lemma_failed(r.check, ch, 3);
    } else {
        law_elements_read(r.check, 3);
    }
}

/// The memory checks of an opening: they are refused if the claim that the first grand product
/// leaves is not made up by the two values that follow; if, once both grand products are accepted,
/// the products differ; and if the claim that the second leaves is not made up by the six values
/// that follow.
pub proof fn law_third_outcome(p: int, ch: Oracle, v: Public, f: FirstCheck, g: SecondCheck)
    requires
        v.bf_vars >= 1,
        g.check.err is None,
    ensures
        ({
            let (c1, gt) = g.check.squeeze_many(ch, 2);
            let (y, z) = (gt[0], gt[1]);
            let a = gkr_check(p, ch, c1, 4, log2_of(v.row_len) + 1);
            let (c2, t) = a.check.read_many(2);
            let b = gkr_check(p, ch, c2, 4, v.bf_vars);
            let (c5, e) = b.check.read_many(6);
            let row = point_number(a.point) + y * eq_points(f.point, a.point) - z;
            let col = point_number(a.point) + y * eq_points(seq![0] + f.u, a.point) - z;
            let rd = e[0] + y * e[4] + (y * y) * e[2] - z;
            let cd = e[1] + y * e[5] + (y * y) * e[3] - z;
            let (m, n) = (a.finals, b.finals);
            let first = cong(
                p,
                a.claim,
                a.coeff[0] * row + a.coeff[1] * (row + (y * y) * t[0]) + a.coeff[2] * col + a.coeff[3]
                    * (col + (y * y) * t[1]),
            );
            let second = cong(
                p,
                b.claim,
                b.coeff[0] * (rd + y * y) + b.coeff[1] * rd + b.coeff[2] * (cd + y * y) + b.coeff[3]
                    * cd,
            );
            let agree = cong(p, m[0] * m[1] * n[0] * n[1], m[2] * m[3] * n[2] * n[3]) && cong(
                p,
                m[4] * m[5] * n[4] * n[5],
                m[6] * m[7] * n[6] * n[7],
            );
            check_third(p, ch, v, f, g).check.err == (if c2.err is Some {
                c2.err
            } else if !first {
                Some(Error::InputLayer)
            } else if b.check.err is Some {
                b.check.err
            } else if !agree {
                Some(Error::MemoryCheck)
            } else if c5.err is Some {
                c5.err
            } else if !second {
                Some(Error::InputLayer)
            } else {
                None
            })
        }),
{
    let (c1, gt) = g.check.squeeze_many(ch, 2);
    let a = gkr_check(p, ch, c1, 4, log2_of(v.row_len) + 1);
    let (c2, t) = a.check.read_many(2);
    let q = a.point;
    lemma_sum_ext(
        q.len(),
        |i: int| two_to(i as nat) * q.reverse()[i],
        |i: int| two_to(i as nat) * q[q.len() - 1 - i],
    );
    let first = cong(
        p,
        a.claim,
        first_input_layer(
            gt[0],
            gt[1],
            weighted_bits(a.point.reverse()),
            eq_points(f.point, a.point),
            eq_points(seq![0] + f.u, a.point),
            t[0],
            t[1],
            a.coeff,
        ),
    );
    let c3 = c2.require(first, Error::InputLayer);
    let b = gkr_check(p, ch, c3, 4, v.bf_vars);
    if c3.err is Some {
        lemma_gkr_check_from_failed(p, ch, c3, 4, v.bf_vars);
        lemma_failed(c3, ch, 6);
    }
    if b.check.err is Some {
        lemma_failed(b.check, ch, 6);
    }
    let c4 = b.check.fail(Error::MemoryCheck);
    lemma_failed(c4, ch, 6);
}

/// An opening fails with the error of the first phase that fails, whatever follows.
pub proof fn law_open_outcome<F: PrimeField, H: HashFunction>(
    p: int,
    ch: Oracle,
    v: Public,
    check: Check,
    root: Output,
    point: Seq<int>,
)
    requires
        v.bf_vars >= 1,
        check.err is None,
        has_digests(check.rx.stream, 0, 1),
    ensures
        ({
            let k = log2_of(v.num_rows) as int;
            let f = check_first::<F, H>(
                p,
                ch,
                v,
                after_first(check),
                root,
                tensor(p, point.take(k)),
            );
            let g = check_second(p, ch, v, f);
            let h = check_third(p, ch, v, f, g);
            let l = check_fourth(p, ch, v, point.skip(k), f, g, h);
            let err = check_open::<F, H>(p, ch, v, check, root, point).err;
            &&& f.check.err is Some ==> err == f.check.err
            &&& f.check.err is None && g.check.err is Some ==> err == g.check.err
            &&& g.check.err is None && h.check.err is Some ==> err == h.check.err
            &&& h.check.err is None && l.check.err is Some ==> err == l.check.err
        }),
{
    let k = log2_of(v.num_rows) as int;
    assert(check.rx.stream[0] is Commitment);
    let (c1, wide) = check.read_commitment();
    assert(c1 == after_first(check));
    let x = tensor(p, point.take(k));
    let f = check_first::<F, H>(p, ch, v, c1, root, x);
    let g = check_second(p, ch, v, f);
    let h = check_third(p, ch, v, f, g);
    let l = check_fourth(p, ch, v, point.skip(k), f, g, h);
    if f.check.err is Some {
        lemma_check_second_failed(p, ch, v, f);
    }
    if g.check.err is Some {
        lemma_check_third_failed(p, ch, v, f, g);
    }
    if h.check.err is Some {
        lemma_check_fourth_failed(p, ch, v, point.skip(k), f, g, h);
    }
    if l.check.err is Some {
        lemma_failed(l.check, ch, 9);
        let rc = l.check.squeeze_many(ch, 9).1;
        lemma_check_batch_failed::<F, H>(
            p,
            ch,
            l.check,
            v.seed,
            v.bf_vars,
            v.log_rate,
            v.bf_queries,
            rc,
            l.point.reverse(),
            wide,
            g.root,
            v.trusted,
            l.evals,
        );
    }
}

/// The parameters of a verifier give all their numbers to the checks, none of them changed.
pub proof fn law_public_params<F: PrimeField>(vp: BrakingbaseVerifierParams<F>)
    ensures
        vp.public().num_rows == vp.brakedown_num_rows,
        vp.public().row_len == vp.brakedown_row_len,
        vp.public().codeword_len == vp.brakedown_codeword_len,
        vp.public().num_queries == vp.num_brakedown_queries,
        vp.public().bf_vars == vp.basefold.num_vars,
        vp.public().log_rate == vp.basefold.log_rate,
        vp.public().bf_queries == vp.basefold.num_verifier_queries,
        vp.public().seed == vp.basefold.seed@,
        vp.public().trusted == vp.trusted_commit,
{
}

/// The parameters of a prover give all their numbers and tables to the proofs, none of them changed.
pub proof fn law_scheme_params<F: PrimeField>(pp: BrakingbaseProverParams<F>)
    ensures
        pp.scheme().num_vars == pp.num_vars,
        pp.scheme().num_rows == pp.brakedown_num_rows,
        pp.scheme().row_len == pp.brakedown.row_len,
        pp.scheme().codeword_len == pp.brakedown.codeword_len,
        pp.scheme().num_queries == pp.num_brakedown_queries,
        pp.scheme().matrix == pp.parity_check_matrix.matrix(),
        pp.scheme().bf_vars == pp.basefold.num_vars,
        pp.scheme().log_rate == pp.basefold.log_rate,
        pp.scheme().bf_queries == pp.basefold.num_verifier_queries,
        pp.scheme().seed == pp.basefold.seed@,
        pp.scheme().table == vals2(pp.basefold.table@),
{
}

/// A polynomial is cut into rows whose number is a power of two, at least twice and less than four
/// times the number of its variables.
pub proof fn law_row_count(n: nat)
    requires
        n >= 1,
    ensures
        crate::bits::is_power_of_two(rows_of(n)),
        2 * n <= rows_of(n),
        n >= 2 ==> rows_of(n) < 4 * n,
{
    let c = ceil_log2(n);
    crate::bits::lemma_ceil_log2(n);
    crate::bits::lemma_log2_two_to(c + 1);
    assert(two_to(c + 1) == 2 * two_to(c));
    if n >= 2 {
        assert(two_to(c) == 2 * two_to((c - 1) as nat));
    }
}

} // verus!
