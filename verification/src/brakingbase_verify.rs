//! Checking an opening.
use vstd::prelude::*;
use crate::algebra::{
    cong, lemma_cong_add, lemma_cong_mod, lemma_cong_mul, lemma_mod_small, lemma_two_to_add,
    lemma_two_to_monotone, lemma_two_to_positive, two_to,
};
use crate::basefold_batch::{basefold_batch_verify, check_batch, lemma_check_batch_failed};
use crate::bits::{
    ceil_log2, is_power_of_two, lemma_ceil_log2, lemma_log2_two_to, log2, log2_of,
    next_power_of_two,
};
use crate::brakingbase::{
    Brakingbase, BrakingbaseCommitment, BrakingbaseSpec, BrakingbaseVerifierParams, joined,
};
use crate::brakingbase_helper::{eq, inner_product, line_at, point_to_tensor_for_commit, sub_vector};
use crate::brakingbase_open::{leading, leading_zeros, with_front};
use crate::code::index_values;
use crate::error::{Error, outcome};
use crate::field::{PrimeField, vals, vals2};
use crate::gkr::gkr::{gkr_check, gkr_verifier, lemma_gkr_check_from_failed};
use crate::gkr::helper::{
    first_input_layer, input_layer_check1, input_layer_check2, lemma_vals_reverse,
    reverse_elements, second_input_layer, weighted_bits,
};
use crate::hash::{HashFunction, Output, digest_elements, hash_elements, hash_pair, same_output};
use crate::indices::{index_of, read_challenge_idx};
use crate::merkle::{ancestor, climb, tree_view};
use crate::multilinear::{eq_points, eq_prod, tensor};
use crate::rounds::{check_rounds, lemma_check_rounds_failed, sum_check_verify, Claiming};
use crate::sum_checks::{
    batch_sum_check_verifier, check_batch_sum, cubic_shape, lemma_check_batch_sum_failed,
    points_view, quadratic_shape,
};
use crate::sums::{dot, lemma_sum_step, sum_of};
use crate::transcript::{
    Check, Oracle, TranscriptRead, checking, lemma_read_commitments_failed,
    lemma_read_commitments_len, lemma_read_many_failed, lemma_read_many_len,
    lemma_squeeze_many_failed, lemma_squeeze_many_rx, lemma_challenges_len, read_challenges,
    read_commitments, read_field_elements,
};

verus! {

/// What a verifier knows of the scheme.
pub struct Public {
    pub num_rows: nat,
    pub row_len: nat,
    pub codeword_len: nat,
    pub num_queries: nat,
    pub bf_vars: nat,
    pub log_rate: nat,
    pub bf_queries: nat,
    pub seed: Seq<u8>,
    pub trusted: Output,
}

impl<F: PrimeField> BrakingbaseVerifierParams<F> {
    /// The numbers that the parameters hold.
    pub open spec fn public(&self) -> Public {
        Public {
            num_rows: self.brakedown_num_rows as nat,
            row_len: self.brakedown_row_len as nat,
            codeword_len: self.brakedown_codeword_len as nat,
            num_queries: self.num_brakedown_queries as nat,
            bf_vars: self.basefold.num_vars as nat,
            log_rate: self.basefold.log_rate as nat,
            bf_queries: self.basefold.num_verifier_queries as nat,
            seed: self.basefold.seed@,
            trusted: self.trusted_commit,
        }
    }
}

/// The columns that were read, with their indices and paths.
pub struct ColumnsRead {
    pub check: Check,
    pub indices: Seq<int>,
    pub columns: Seq<Seq<int>>,
    pub paths: Seq<Seq<Output>>,
}

/// Draws `n` indices, and reads for each a column and a path.
pub open spec fn read_columns(
    ch: Oracle,
    check: Check,
    num_rows: nat,
    codeword_len: nat,
    n: nat,
) -> ColumnsRead
    decreases n,
{
    if n == 0 {
        ColumnsRead {
            check,
            indices: Seq::empty(),
            columns: Seq::empty(),
            paths: Seq::empty(),
        }
    } else {
        let s = read_columns(ch, check, num_rows, codeword_len, (n - 1) as nat);
        let (c1, x) = s.check.squeeze(ch);
        let (c2, column) = c1.read_many(num_rows);
        let (c3, path) = c2.read_commitments(ceil_log2(codeword_len));
        ColumnsRead {
            check: c3,
            indices: s.indices.push(index_of(x, codeword_len as int)),
            columns: s.columns.push(column),
            paths: s.paths.push(path),
        }
    }
}

/// The path of a column leads to the root.
pub open spec fn column_holds<F: PrimeField, H: HashFunction>(
    column: Seq<int>,
    q: int,
    path: Seq<Output>,
    root: Output,
) -> bool {
    climb::<H>(digest_elements::<F, H>(column), q, path, path.len()) == root
}

/// The sum of the columns' combinations, weighed.
pub open spec fn weighed_columns(x: Seq<int>, columns: Seq<Seq<int>>, w: Seq<int>) -> int {
    sum_of(columns.len(), |j: int| w[j] * dot(x, columns[j]))
}

/// The value of the mask at a point.
pub open spec fn mask_at(indices: Seq<int>, w: Seq<int>, y: Seq<int>) -> int {
    sum_of(indices.len(), |i: int| w[i] * eq_prod(indices[i], y))
}

/// The value at `r` of the line with the values `a` and `b`.
pub open spec fn blend(a: int, b: int, r: int) -> int {
    a + (b - a) * r
}

/// The state after the first sum-check.
pub struct FirstCheck {
    pub check: Check,
    pub u: Seq<int>,
    pub point: Seq<int>,
    pub evals: Seq<int>,
}

/// Reads the columns and checks their paths, then the first sum-check.
pub open spec fn check_first<F: PrimeField, H: HashFunction>(
    p: int,
    ch: Oracle,
    v: Public,
    check: Check,
    root: Output,
    x: Seq<int>,
) -> FirstCheck {
    let lr = log2_of(v.row_len);
    let s = read_columns(ch, check, v.num_rows, v.codeword_len, v.num_queries);
    let c0 = s.check.require(
        forall|i: int|
            0 <= i < v.num_queries ==> column_holds::<F, H>(
                #[trigger] s.columns[i],
                s.indices[i],
                s.paths[i],
                root,
            ),
        Error::MerklePath,
    );
    let (c1, u) = c0.squeeze_many(ch, lr);
    let (c2, at_u) = c1.read();
    let (c3, w) = c2.squeeze_many(ch, v.num_queries);
    let (c4, rc) = c3.squeeze_many(ch, 2);
    let claim = (rc[0] * weighed_columns(x, s.columns, w) + rc[1] * at_u) % p;
    let r = check_rounds(quadratic_shape(p, ch), c4, claim, lr + 1);
    let (c5, e) = r.check.read_many(3);
    let c6 = c5.require(
        cong(
            p,
            r.claim,
            (rc[0] * mask_at(s.indices, w, r.point) + rc[1] * e[0]) * blend(e[1], e[2], r.point[0]),
        ),
        Error::SumCheck,
    );
    FirstCheck { check: c6, u, point: r.point, evals: e }
}

/// The state after the second sum-check.
pub struct SecondCheck {
    pub check: Check,
    pub root: Output,
    pub point: Seq<int>,
    pub evals: Seq<int>,
}

/// The rounds of the second sum-check: they refuse with an error of their own.
pub open spec fn second_rounds(p: int, ch: Oracle, check: Check, claim: int, n: nat) -> Claiming {
    let r = check_rounds(cubic_shape(p, ch), check, claim, n);
    if check.err is None && r.check.err == Some(Error::SumCheck) {
        let check = Check { rx: r.check.rx, err: Some(Error::SecondSumCheck) };
        Claiming { check, claim: r.claim, point: r.point }
    } else {
        r
    }
}

/// Checks the second sum-check, for the value of the matrix.
pub open spec fn check_second(p: int, ch: Oracle, v: Public, f: FirstCheck) -> SecondCheck {
    let (c1, root) = f.check.read_commitment();
    let r = second_rounds(p, ch, c1, f.evals[0], v.bf_vars);
    let (c2, e) = r.check.read_many(3);
    let c3 = c2.require(cong(p, r.claim, e[0] * e[1] * e[2]), Error::SumCheck);
    SecondCheck { check: c3, root, point: r.point, evals: e }
}

/// The products of the circuits of one table agree.
pub open spec fn outputs_agree(p: int, a: Seq<int>, b: Seq<int>, k: int) -> bool {
    cong(p, a[k] * a[k + 1] * b[k] * b[k + 1], a[k + 2] * a[k + 3] * b[k + 2] * b[k + 3])
}

/// The state after the memory checks.
pub struct ThirdCheck {
    pub check: Check,
    pub point1: Seq<int>,
    pub point2: Seq<int>,
    pub times: Seq<int>,
    pub evals: Seq<int>,
}

/// Checks that the values were read from the tables of the basis polynomials.
pub open spec fn check_third(p: int, ch: Oracle, v: Public, f: FirstCheck, g: SecondCheck) -> ThirdCheck {
    let (c1, gt) = g.check.squeeze_many(ch, 2);
    let a = gkr_check(p, ch, c1, 4, log2_of(v.row_len) + 1);
    let (c2, t) = a.check.read_many(2);
    let c3 = c2.require(
        cong(
            p,
            a.claim,
            first_input_layer(
                gt[0],
                gt[1],
                weighted_bits(a.point.reverse()),
                eq_points(f.point, a.point),
                eq_points(seq![0] + f.u, a.point),
                t[0],
                t[1],
                a.coeff,
            ),
        ),
        Error::InputLayer,
    );
    let b = gkr_check(p, ch, c3, 4, v.bf_vars);
    let c4 = b.check.require(
        outputs_agree(p, a.finals, b.finals, 0) && outputs_agree(p, a.finals, b.finals, 4),
        Error::MemoryCheck,
    );
    let (c5, e) = c4.read_many(6);
    let evals = seq![e[4], e[5], e[0], e[1], e[2], e[3]];
    let c6 = c5.require(
        cong(p, b.claim, second_input_layer(gt[0], gt[1], evals, b.coeff)),
        Error::InputLayer,
    );
    ThirdCheck { check: c6, point1: a.point, point2: b.point, times: t, evals }
}

/// The state after the last sum-check.
pub struct FourthCheck {
    pub check: Check,
    pub point: Seq<int>,
    pub evals: Seq<int>,
}

/// Checks the sum-check that turns all claims into claims at one point.
pub open spec fn check_fourth(
    p: int,
    ch: Oracle,
    v: Public,
    tail: Seq<int>,
    f: FirstCheck,
    g: SecondCheck,
    h: ThirdCheck,
) -> FourthCheck {
    let n = v.bf_vars;
    let (c1, e) = h.check.read_many(2);
    let (c2, r) = c1.squeeze(ch);
    let (c3, c) = c2.squeeze_many(ch, 13);
    let y = seq![
        leading(n, f.point),
        leading(n, seq![1] + f.u),
        leading(n, tail),
        g.point,
        h.point2,
        leading(n, seq![r] + h.point1),
    ];
    let claims = seq![blend(f.evals[1], f.evals[2], f.point[0]), e[0], e[1]] + g.evals + h.evals
        + seq![blend(h.times[0], h.times[1], r)];
    let s = check_batch_sum(p, ch, c3, y, dot(claims, c) % p, c);
    FourthCheck { check: s.check, point: s.point, evals: s.evals }
}

/// All that a verifier checks of an opening.
pub open spec fn check_open<F: PrimeField, H: HashFunction>(
    p: int,
    ch: Oracle,
    v: Public,
    check: Check,
    root: Output,
    point: Seq<int>,
) -> Check {
    let k = log2_of(v.num_rows) as int;
    let (c1, wide_root) = check.read_commitment();
    let f = check_first::<F, H>(p, ch, v, c1, root, tensor(p, point.take(k)));
    let g = check_second(p, ch, v, f);
    let h = check_third(p, ch, v, f, g);
    let l = check_fourth(p, ch, v, point.skip(k), f, g, h);
    let (c2, rc) = l.check.squeeze_many(ch, 9);
    check_batch::<F, H>(
        p,
        ch,
        c2,
        v.seed,
        v.bf_vars,
        v.log_rate,
        v.bf_queries,
        rc,
        l.point.reverse(),
        wide_root,
        g.root,
        v.trusted,
        l.evals,
    )
}

/// A check that has failed stays as it is.
pub proof fn lemma_failed(c: Check, ch: Oracle, n: nat)
    requires
        c.err is Some,
    ensures
        c.read_many(n).0 == c,
        c.read_commitments(n).0 == c,
        c.squeeze_many(ch, n).0 == c,
        c.read().0 == c,
        c.read_commitment().0 == c,
        c.squeeze(ch).0 == c,
{
    lemma_read_many_failed(c, 0, n);
    lemma_read_commitments_failed(c, 0, n);
    lemma_squeeze_many_failed(c, ch, n);
}

/// Once reading columns has failed, it stays so.
pub proof fn lemma_read_columns_failed(
    ch: Oracle,
    check: Check,
    num_rows: nat,
    codeword_len: nat,
    n: nat,
    m: nat,
)
    requires
        read_columns(ch, check, num_rows, codeword_len, n).check.err is Some,
        n <= m,
    ensures
        read_columns(ch, check, num_rows, codeword_len, m).check == read_columns(
            ch,
            check,
            num_rows,
            codeword_len,
            n,
        ).check,
    decreases m,
{
    if n < m {
        lemma_read_columns_failed(ch, check, num_rows, codeword_len, n, (m - 1) as nat);
        let c = read_columns(ch, check, num_rows, codeword_len, (m - 1) as nat).check;
        lemma_failed(c, ch, num_rows);
        lemma_failed(c, ch, ceil_log2(codeword_len));
    }
}

/// The first phase of a check that has failed.
pub proof fn lemma_check_first_failed<F: PrimeField, H: HashFunction>(
    p: int,
    ch: Oracle,
    v: Public,
    check: Check,
    root: Output,
    x: Seq<int>,
)
    requires
        check.err is Some,
    ensures
        check_first::<F, H>(p, ch, v, check, root, x).check == check,
{
    lemma_read_columns_failed(ch, check, v.num_rows, v.codeword_len, 0, v.num_queries);
    lemma_first_rest_failed(p, ch, v, check);
}

/// The rest of the first phase on a check that has failed.
proof fn lemma_first_rest_failed(p: int, ch: Oracle, v: Public, c: Check)
    requires
        c.err is Some,
    ensures
        c.squeeze_many(ch, log2_of(v.row_len)).0 == c,
        c.read().0 == c,
        c.squeeze_many(ch, v.num_queries).0 == c,
        c.squeeze_many(ch, 2).0 == c,
        forall|claim: int|
            (#[trigger] check_rounds(quadratic_shape(p, ch), c, claim, log2_of(v.row_len) + 1)).check
                == c,
        c.read_many(3).0 == c,
{
    lemma_failed(c, ch, log2_of(v.row_len));
    lemma_failed(c, ch, v.num_queries);
    lemma_failed(c, ch, 2);
    lemma_failed(c, ch, 3);
    assert forall|claim: int|
        (#[trigger] check_rounds(quadratic_shape(p, ch), c, claim, log2_of(v.row_len) + 1)).check
            == c by {
        lemma_check_rounds_failed(quadratic_shape(p, ch), c, claim, 0, log2_of(v.row_len) + 1);
    }
}

/// The second phase of a check that has failed.
pub proof fn lemma_check_second_failed(p: int, ch: Oracle, v: Public, f: FirstCheck)
    requires
        f.check.err is Some,
    ensures
        check_second(p, ch, v, f).check == f.check,
{
    lemma_failed(f.check, ch, 3);
    lemma_check_rounds_failed(cubic_shape(p, ch), f.check, f.evals[0], 0, v.bf_vars);
}

/// The third phase of a check that has failed.
pub proof fn lemma_check_third_failed(p: int, ch: Oracle, v: Public, f: FirstCheck, g: SecondCheck)
    requires
        g.check.err is Some,
        v.bf_vars >= 1,
    ensures
        check_third(p, ch, v, f, g).check == g.check,
{
    lemma_failed(g.check, ch, 2);
    lemma_failed(g.check, ch, 6);
    lemma_gkr_check_from_failed(p, ch, g.check, 4, log2_of(v.row_len) + 1);
    lemma_gkr_check_from_failed(p, ch, g.check, 4, v.bf_vars);
}

/// The fourth phase of a check that has failed.
pub proof fn lemma_check_fourth_failed(
    p: int,
    ch: Oracle,
    v: Public,
    tail: Seq<int>,
    f: FirstCheck,
    g: SecondCheck,
    h: ThirdCheck,
)
    requires
        h.check.err is Some,
    ensures
        check_fourth(p, ch, v, tail, f, g, h).check == h.check,
{
    lemma_failed(h.check, ch, 2);
    lemma_failed(h.check, ch, 13);
    let n = v.bf_vars;
    let c = h.check;
    let e = c.read_many(2).1;
    let r = c.squeeze(ch).1;
    let cs = c.squeeze_many(ch, 13).1;
    let y = seq![
        leading(n, f.point),
        leading(n, seq![1] + f.u),
        leading(n, tail),
        g.point,
        h.point2,
        leading(n, seq![r] + h.point1),
    ];
    let claims = seq![blend(f.evals[1], f.evals[2], f.point[0]), e[0], e[1]] + g.evals + h.evals
        + seq![blend(h.times[0], h.times[1], r)];
    lemma_check_batch_sum_failed(p, ch, c, y, dot(claims, cs) % p, cs);
}

/// The last phase of a check that has failed.
proof fn lemma_check_last_failed<F: PrimeField, H: HashFunction>(
    p: int,
    ch: Oracle,
    v: Public,
    c: Check,
    rc: Seq<int>,
    point: Seq<int>,
    a: Output,
    b: Output,
    evals: Seq<int>,
)
    requires
        c.err is Some,
    ensures
        c.squeeze_many(ch, 9).0 == c,
        check_batch::<F, H>(
            p,
            ch,
            c,
            v.seed,
            v.bf_vars,
            v.log_rate,
            v.bf_queries,
            rc,
            point,
            a,
            b,
            v.trusted,
            evals,
        ) == c,
{
    lemma_failed(c, ch, 9);
    lemma_check_batch_failed::<F, H>(
        p,
        ch,
        c,
        v.seed,
        v.bf_vars,
        v.log_rate,
        v.bf_queries,
        rc,
        point,
        a,
        b,
        v.trusted,
        evals,
    );
}

/// One more term of a reduced sum.
pub proof fn lemma_accumulate(p: int, n: nat, f: spec_fn(int) -> int, acc: int, term: int)
    requires
        p > 0,
        acc == sum_of(n, f) % p,
        cong(p, term, f(n as int)),
    ensures
        (acc + term) % p == sum_of(n + 1, f) % p,
{
    lemma_sum_step(n, f);
    lemma_cong_mod(p, sum_of(n, f));
    lemma_cong_add(p, acc, sum_of(n, f), term, f(n as int));
}

/// The columns, as they were read.
struct ColumnData<F: PrimeField> {
    indices: Vec<usize>,
    columns: Vec<Vec<F>>,
    paths: Vec<Vec<Output>>,
}

/// Draws indices, and reads for each a column and a path.
fn read_column_data<F: PrimeField, T: TranscriptRead<F>>(
    num_rows: usize,
    codeword_len: usize,
    depth: usize,
    n: usize,
    transcript: &mut T,
) -> (res: Result<ColumnData<F>, Error>)
    requires
        codeword_len >= 1,
        depth == ceil_log2(codeword_len as nat),
    ensures
        ({
            let s = read_columns(
                T::oracle(),
                checking(old(transcript).rx()),
                num_rows as nat,
                codeword_len as nat,
                n as nat,
            );
            &&& final(transcript).rx() == s.check.rx
            &&& outcome(res, s.check.err)
            &&& res matches Ok(d) ==> {
                &&& index_values(d.indices@) == s.indices
                &&& vals2(d.columns@) == s.columns
                &&& tree_view(d.paths@) == s.paths
                &&& d.indices@.len() == n
                &&& d.columns@.len() == n
                &&& d.paths@.len() == n
                &&& forall|i: int| 0 <= i < n ==> #[trigger] d.indices@[i] < codeword_len
                &&& forall|i: int| 0 <= i < n ==> (#[trigger] d.columns@[i])@.len() == num_rows
                &&& forall|i: int| 0 <= i < n ==> (#[trigger] d.paths@[i])@.len() == depth
            }
        }),
{
    let ghost ch = T::oracle();
    let ghost check = checking(transcript.rx());
    let mut indices: Vec<usize> = Vec::new();
    let mut columns: Vec<Vec<F>> = Vec::new();
    let mut paths: Vec<Vec<Output>> = Vec::new();
    let mut i: usize = 0;
    assert(index_values(indices@) =~= Seq::empty());
    assert(vals2(columns@) =~= Seq::empty());
    assert(tree_view(paths@) =~= Seq::empty());
    while i < n
        invariant
            i <= n,
            codeword_len >= 1,
            depth == ceil_log2(codeword_len as nat),
            ch == T::oracle(),
            check == checking(old(transcript).rx()),
            indices@.len() == i,
            columns@.len() == i,
            paths@.len() == i,
            forall|k: int| 0 <= k < i ==> #[trigger] indices@[k] < codeword_len,
            forall|k: int| 0 <= k < i ==> (#[trigger] columns@[k])@.len() == num_rows,
            forall|k: int| 0 <= k < i ==> (#[trigger] paths@[k])@.len() == depth,
            read_columns(ch, check, num_rows as nat, codeword_len as nat, i as nat) == (ColumnsRead {
                check: checking(transcript.rx()),
                indices: index_values(indices@),
                columns: vals2(columns@),
                paths: tree_view(paths@),
            }),
        decreases n - i,
    {
        let ghost s = read_columns(ch, check, num_rows as nat, codeword_len as nat, i as nat);
        let ghost (c1, x) = s.check.squeeze(ch);
        let ghost c2 = c1.read_many(num_rows as nat).0;
        let ghost c3 = c2.read_commitments(depth as nat).0;
        let ghost (i0, col0, p0) = (indices@, columns@, paths@);
        let q = read_challenge_idx::<F, T>(transcript, codeword_len);
        let column = match read_field_elements::<F, T>(transcript, num_rows) {
            Ok(v) => v,
            Err(e) => {
                proof {
                    lemma_failed(c2, ch, depth as nat);
                    lemma_read_columns_failed(
                        ch,
                        check,
                        num_rows as nat,
                        codeword_len as nat,
                        (i + 1) as nat,
                        n as nat,
                    );
                }
                return Err(e);
            },
        };
        let path = match read_commitments::<F, T>(transcript, depth) {
            Ok(v) => v,
            Err(e) => {
                proof {
                    lemma_read_columns_failed(
                        ch,
                        check,
                        num_rows as nat,
                        codeword_len as nat,
                        (i + 1) as nat,
                        n as nat,
                    );
                }
                return Err(e);
            },
        };
        proof {
            lemma_read_many_len(c1, num_rows as nat);
            lemma_read_commitments_len(c2, depth as nat);
            assert(vals(column@).len() == column@.len());
        }
        indices.push(q);
        columns.push(column);
        paths.push(path);
        proof {
            assert(index_values(indices@) =~= index_values(i0).push(q as int));
            assert(vals2(columns@) =~= vals2(col0).push(vals(column@)));
            assert(tree_view(paths@) =~= tree_view(p0).push(path@));
        }
        i += 1;
    }
    Ok(ColumnData { indices, columns, paths })
}

/// Whether the path of a column leads to the root.
fn check_column<F: PrimeField, H: HashFunction>(
    column: &Vec<F>,
    q: usize,
    path: &Vec<Output>,
    root: &Output,
) -> (r: bool)
    ensures
        r == column_holds::<F, H>(vals(column@), q as int, path@, *root),
{
    let leaf = hash_elements::<F, H>(column);
    let mut output = leaf;
    let mut cur = q;
    let mut k: usize = 0;
    while k < path.len()
        invariant
            k <= path@.len(),
            cur == ancestor(q as int, k as nat),
            output == climb::<H>(leaf, q as int, path@, k as nat),
        decreases path@.len() - k,
    {
        if cur % 2 == 0 {
            output = hash_pair::<H>(&output, &path[k]);
        } else {
            output = hash_pair::<H>(&path[k], &output);
        }
        cur = cur / 2;
        k += 1;
    }
    same_output(&output, root)
}

/// The sum of the columns' combinations, weighed.
fn weigh_columns<F: PrimeField>(x: &Vec<F>, columns: &Vec<Vec<F>>, w: &Vec<F>) -> (r: F)
    requires
        w@.len() == columns@.len(),
    ensures
        r.value() == weighed_columns(vals(x@), vals2(columns@), vals(w@)) % F::modulus(),
{
    let ghost p = F::modulus();
    let ghost f = |j: int| vals(w@)[j] * dot(vals(x@), vals2(columns@)[j]);
    proof {
        F::lemma_modulus();
        lemma_sum_step(0, f);
        lemma_mod_small(p, 0);
    }
    let mut acc = F::zero();
    let mut j: usize = 0;
    while j < columns.len()
        invariant
            j <= columns@.len(),
            w@.len() == columns@.len(),
            p == F::modulus(),
            p > 0,
            f == (|j: int| vals(w@)[j] * dot(vals(x@), vals2(columns@)[j])),
            acc.value() == sum_of(j as nat, f) % p,
        decreases columns@.len() - j,
    {
        let d = inner_product(x, &columns[j]);
        let term = w[j].mul(d);
        proof {
            let full = dot(vals(x@), vals2(columns@)[j as int]);
            assert(vals2(columns@)[j as int] == vals(columns@[j as int]@));
            lemma_cong_mod(p, full);
            lemma_cong_mod(p, w@[j as int].value() * d.value());
            lemma_cong_mul(p, w@[j as int].value(), w@[j as int].value(), d.value(), full);
            lemma_accumulate(p, j as nat, f, acc.value(), term.value());
        }
        acc = acc.add(term);
        j += 1;
    }
    proof {
        crate::sums::lemma_sum_ext(
            columns@.len(),
            f,
            |j: int| vals(w@)[j] * dot(vals(x@), vals2(columns@)[j]),
        );
    }
    acc
}

/// The value of the mask at a point.
fn evaluate_mask<F: PrimeField>(indices: &Vec<usize>, w: &Vec<F>, y: &Vec<F>) -> (r: F)
    requires
        w@.len() == indices@.len(),
    ensures
        r.value() == mask_at(index_values(indices@), vals(w@), vals(y@)) % F::modulus(),
{
    let ghost p = F::modulus();
    let ghost f = |i: int| vals(w@)[i] * eq_prod(index_values(indices@)[i], vals(y@));
    proof {
        F::lemma_modulus();
        lemma_sum_step(0, f);
        lemma_mod_small(p, 0);
    }
    let mut acc = F::zero();
    let mut i: usize = 0;
    while i < indices.len()
        invariant
            i <= indices@.len(),
            w@.len() == indices@.len(),
            p == F::modulus(),
            p > 0,
            f == (|i: int| vals(w@)[i] * eq_prod(index_values(indices@)[i], vals(y@))),
            acc.value() == sum_of(i as nat, f) % p,
        decreases indices@.len() - i,
    {
        let d = eq(indices[i], y);
        let term = w[i].mul(d);
        proof {
            let full = eq_prod(index_values(indices@)[i as int], vals(y@));
            lemma_cong_mod(p, full);
            lemma_cong_mod(p, w@[i as int].value() * d.value());
            lemma_cong_mul(p, w@[i as int].value(), w@[i as int].value(), d.value(), full);
            lemma_accumulate(p, i as nat, f, acc.value(), term.value());
        }
        acc = acc.add(term);
        i += 1;
    }
    acc
}

/// Reduced values are equal just when they are congruent.
pub proof fn lemma_equal_iff_cong(p: int, a: int, b: int, x: int)
    requires
        0 <= a < p,
        0 <= b < p,
        cong(p, b, x),
    ensures
        (a == b) == cong(p, a, x),
{
    lemma_mod_small(p, a);
    lemma_mod_small(p, b);
}

/// Reads the columns and checks their paths, then the first sum-check.
#[verifier::rlimit(60)]
fn first_phase_check<F: PrimeField, H: HashFunction, T: TranscriptRead<F>>(
    vp: &BrakingbaseVerifierParams<F>,
    root: &Output,
    x_0: &Vec<F>,
    transcript: &mut T,
) -> (res: Result<(Vec<F>, Vec<F>, Vec<F>), Error>)
    requires
        vp.wf(),
    ensures
        ({
            let s = check_first::<F, H>(
                F::modulus(),
                T::oracle(),
                vp.public(),
                checking(old(transcript).rx()),
                *root,
                vals(x_0@),
            );
            &&& final(transcript).rx() == s.check.rx
            &&& outcome(res, s.check.err)
            &&& res matches Ok(d) ==> {
                &&& vals(d.0@) == s.u
                &&& vals(d.1@) == s.point
                &&& vals(d.2@) == s.evals
                &&& d.0@.len() == log2_of(vp.brakedown_row_len as nat)
                &&& d.1@.len() == d.0@.len() + 1
                &&& d.2@.len() == 3
            }
        }),
{
    let ghost p = F::modulus();
    let ghost ch = T::oracle();
    let ghost v = vp.public();
    let ghost check = checking(transcript.rx());
    let ghost x = vals(x_0@);
    let ghost lr = log2_of(v.row_len);
    let row_len = vp.brakedown_row_len;
    let codeword_len = vp.brakedown_codeword_len;
    let n = vp.num_brakedown_queries;
    proof {
        F::lemma_modulus();
        lemma_depth_fits(v.codeword_len, v.row_len);
    }
    let depth = log2(next_power_of_two(codeword_len));
    proof {
        lemma_log2_two_to(ceil_log2(codeword_len as nat));
    }
    let ghost s = read_columns(ch, check, v.num_rows, v.codeword_len, v.num_queries);
    let data = match read_column_data::<F, T>(
        vp.brakedown_num_rows,
        codeword_len,
        depth,
        n,
        transcript,
    ) {
        Ok(d) => d,
        Err(e) => {
            proof {
                lemma_first_rest_failed(p, ch, v, s.check);
            }
            return Err(e);
        },
    };
    let ghost holds = forall|i: int|
        0 <= i < v.num_queries ==> column_holds::<F, H>(
            #[trigger] s.columns[i],
            s.indices[i],
            s.paths[i],
            *root,
        );
    let ghost c0 = s.check.require(holds, Error::MerklePath);
    let mut i: usize = 0;
    while i < n
        invariant
            i <= n,
            n == v.num_queries,
            data.indices@.len() == n,
            data.columns@.len() == n,
            data.paths@.len() == n,
            index_values(data.indices@) == s.indices,
            vals2(data.columns@) == s.columns,
            tree_view(data.paths@) == s.paths,
            s.check.err is None,
            s.check.rx == transcript.rx(),
            holds == (forall|i: int|
                0 <= i < v.num_queries ==> column_holds::<F, H>(
                    #[trigger] s.columns[i],
                    s.indices[i],
                    s.paths[i],
                    *root,
                )),
            c0 == s.check.require(holds, Error::MerklePath),
            p == F::modulus(),
            ch == T::oracle(),
            v == vp.public(),
            check == checking(old(transcript).rx()),
            x == vals(x_0@),
            s == read_columns(ch, check, v.num_rows, v.codeword_len, v.num_queries),
            forall|k: int|
                0 <= k < i ==> column_holds::<F, H>(
                    #[trigger] s.columns[k],
                    s.indices[k],
                    s.paths[k],
                    *root,
                ),
        decreases n - i,
    {
        let ok = check_column::<F, H>(&data.columns[i], data.indices[i], &data.paths[i], root);
        proof {
            assert(s.columns[i as int] == vals(data.columns@[i as int]@));
            assert(s.indices[i as int] == data.indices@[i as int]);
            assert(s.paths[i as int] == data.paths@[i as int]@);
        }
        if !ok {
            proof {
                assert(!holds);
                lemma_first_rest_failed(p, ch, v, c0);
            }
            return Err(Error::MerklePath);
        }
        i += 1;
    }
    let log_row = log2(row_len);
    let u = read_challenges::<F, T>(transcript, log_row);
    let ghost (c1, u0) = c0.squeeze_many(ch, lr);
    let ghost (c2, at_u0) = c1.read();
    let at_u = match transcript.read_field_element() {
        Ok(e) => e,
        Err(e) => {
            proof {
                lemma_first_rest_failed(p, ch, v, c2);
            }
            return Err(e);
        },
    };
    let weights = read_challenges::<F, T>(transcript, n);
    let ghost (c3, w) = c2.squeeze_many(ch, v.num_queries);
    let rcs = read_challenges::<F, T>(transcript, 2);
    let ghost (c4, rc) = c3.squeeze_many(ch, 2);
    proof {
        lemma_squeeze_many_rx(c0, ch, lr);
        lemma_squeeze_many_rx(c2, ch, v.num_queries);
        lemma_squeeze_many_rx(c3, ch, 2);
        lemma_challenges_len(ch, c0.rx.hist, lr);
        lemma_challenges_len(ch, c2.rx.hist, v.num_queries);
        lemma_challenges_len(ch, c3.rx.hist, 2);
        assert(vals(u@).len() == u@.len());
        assert(vals(weights@).len() == weights@.len());
        assert(vals(rcs@).len() == rcs@.len());
    }
    let sum = weigh_columns(x_0, &data.columns, &weights);
    let t0 = rcs[0].mul(sum);
    let t1 = rcs[1].mul(at_u);
    let claim = t0.add(t1);
    proof {
        let full = weighed_columns(x, s.columns, w);
        lemma_cong_mod(p, full);
        lemma_cong_mod(p, rc[0] * sum.value());
        lemma_cong_mod(p, rc[1] * at_u.value());
        lemma_cong_mul(p, rc[0], rc[0], sum.value(), full);
        lemma_cong_add(p, t0.value(), rc[0] * full, t1.value(), rc[1] * at_u.value());
    }
    let ghost r = check_rounds(quadratic_shape(p, ch), c4, claim.value(), lr + 1);
    let (last, point) = match sum_check_verify::<F, T>(claim, 2, true, log_row + 1, transcript) {
        Ok(d) => d,
        Err(e) => {
            proof {
                lemma_first_rest_failed(p, ch, v, r.check);
            }
            return Err(e);
        },
    };
    let ghost (c5, e0) = r.check.read_many(3);
    let evals = match read_field_elements::<F, T>(transcript, 3) {
        Ok(e) => e,
        Err(e) => {
            return Err(e);
        },
    };
    proof {
        lemma_read_many_len(r.check, 3);
        assert(vals(evals@).len() == evals@.len());
        assert(vals(evals@)[0] == evals@[0].value());
        assert(vals(evals@)[1] == evals@[1].value());
        assert(vals(evals@)[2] == evals@[2].value());
    }
    let wide_eval = line_at(evals[1], evals[2], point[0]);
    let mask = evaluate_mask(&data.indices, &weights, &point);
    let a = rcs[0].mul(mask);
    let b = rcs[1].mul(evals[0]);
    let ab = a.add(b);
    let expected = ab.mul(wide_eval);
    proof {
        let mask0 = mask_at(s.indices, w, r.point);
        let wide0 = blend(e0[1], e0[2], r.point[0]);
        lemma_cong_mod(p, mask0);
        lemma_cong_mod(p, wide0);
        lemma_cong_mod(p, rc[0] * mask.value());
        lemma_cong_mod(p, rc[1] * e0[0]);
        lemma_cong_mul(p, rc[0], rc[0], mask.value(), mask0);
        lemma_cong_add(p, a.value(), rc[0] * mask0, b.value(), rc[1] * e0[0]);
        lemma_cong_mod(p, a.value() + b.value());
        lemma_cong_mul(p, ab.value(), rc[0] * mask0 + rc[1] * e0[0], wide_eval.value(), wide0);
        lemma_cong_mod(p, ab.value() * wide_eval.value());
        last.lemma_value();
        expected.lemma_value();
        lemma_equal_iff_cong(
            p,
            last.value(),
            expected.value(),
            (rc[0] * mask0 + rc[1] * e0[0]) * wide0,
        );
    }
    if !last.equals(expected) {
        return Err(Error::SumCheck);
    }
    Ok((u, point, evals))
}

/// The depth of the tree over the columns fits into a word.
proof fn lemma_depth_fits(codeword_len: nat, row_len: nat)
    requires
        1 <= codeword_len <= 2 * row_len,
        row_len >= 1,
        is_power_of_two(row_len),
        4 * row_len <= usize::MAX,
    ensures
        two_to(ceil_log2(codeword_len)) <= usize::MAX,
{
    let k = log2_of(row_len);
    assert(two_to(k + 1) == 2 * row_len);
    lemma_ceil_log2(codeword_len);
    let c = ceil_log2(codeword_len);
    if c > k + 1 {
        lemma_two_to_monotone(k + 1, (c - 1) as nat);
    }
    lemma_two_to_monotone(c, k + 1);
}

/// Checks the second sum-check, for the value of the matrix.
fn second_phase_check<F: PrimeField, T: TranscriptRead<F>>(
    vars: usize,
    claim: F,
    transcript: &mut T,
    Ghost(v): Ghost<Public>,
    Ghost(f): Ghost<FirstCheck>,
) -> (res: Result<(Output, Vec<F>, Vec<F>), Error>)
    requires
        v.bf_vars == vars,
        f.check == checking(old(transcript).rx()),
        f.evals[0] == claim.value(),
    ensures
        ({
            let s = check_second(F::modulus(), T::oracle(), v, f);
            &&& final(transcript).rx() == s.check.rx
            &&& outcome(res, s.check.err)
            &&& res matches Ok(d) ==> {
                &&& d.0 == s.root
                &&& vals(d.1@) == s.point
                &&& vals(d.2@) == s.evals
                &&& d.1@.len() == vars
                &&& d.2@.len() == 3
            }
        }),
{
    let ghost p = F::modulus();
    let ghost ch = T::oracle();
    let ghost (c1, root0) = f.check.read_commitment();
    proof {
        F::lemma_modulus();
    }
    let root = match transcript.read_commitment() {
        Ok(d) => d,
        Err(e) => {
            proof {
                lemma_failed(c1, ch, 3);
                lemma_check_rounds_failed(cubic_shape(p, ch), c1, f.evals[0], 0, v.bf_vars);
            }
            return Err(e);
        },
    };
    let ghost r = second_rounds(p, ch, c1, f.evals[0], v.bf_vars);
    let (last, point) = match sum_check_verify::<F, T>(claim, 3, true, vars, transcript) {
        Ok(d) => d,
        Err(e) => {
            proof {
                lemma_failed(r.check, ch, 3);
            }
            if e == Error::SumCheck {
                return Err(Error::SecondSumCheck);
            }
            return Err(e);
        },
    };
    let evals = match read_field_elements::<F, T>(transcript, 3) {
        Ok(e) => e,
        Err(e) => {
            return Err(e);
        },
    };
    proof {
        lemma_read_many_len(r.check, 3);
        assert(vals(evals@).len() == evals@.len());
        assert(vals(evals@)[0] == evals@[0].value());
        assert(vals(evals@)[1] == evals@[1].value());
        assert(vals(evals@)[2] == evals@[2].value());
    }
    let ab = evals[0].mul(evals[1]);
    let expected = ab.mul(evals[2]);
    proof {
        let e = vals(evals@);
        lemma_cong_mod(p, e[0] * e[1]);
        lemma_cong_mul(p, ab.value(), e[0] * e[1], e[2], e[2]);
        lemma_cong_mod(p, ab.value() * e[2]);
        last.lemma_value();
        expected.lemma_value();
        lemma_equal_iff_cong(p, last.value(), expected.value(), e[0] * e[1] * e[2]);
    }
    if !last.equals(expected) {
        return Err(Error::SumCheck);
    }
    Ok((root, point, evals))
}

/// Whether the products of the circuits of one table agree.
fn check_outputs<F: PrimeField>(a: &Vec<F>, b: &Vec<F>, k: usize) -> (r: bool)
    requires
        k + 4 <= a@.len(),
        k + 4 <= b@.len(),
    ensures
        r == outputs_agree(F::modulus(), vals(a@), vals(b@), k as int),
{
    let ghost p = F::modulus();
    let len = a.len();
    assert(k + 4 <= len);
    let l = product_of_four(a[k], a[k + 1], b[k], b[k + 1]);
    let r = product_of_four(a[k + 2], a[k + 3], b[k + 2], b[k + 3]);
    proof {
        let k = k as int;
        let va = vals(a@);
        let vb = vals(b@);
        F::lemma_modulus();
        l.lemma_value();
        r.lemma_value();
        lemma_cong_mod(p, va[k] * va[k + 1] * vb[k] * vb[k + 1]);
        lemma_cong_mod(p, va[k + 2] * va[k + 3] * vb[k + 2] * vb[k + 3]);
        lemma_equal_iff_cong(p, l.value(), r.value(), va[k + 2] * va[k + 3] * vb[k + 2] * vb[k + 3]);
    }
    l.equals(r)
}

/// The product of four elements.
pub(crate) fn product_of_four<F: PrimeField>(a: F, b: F, c: F, d: F) -> (r: F)
    ensures
        r.value() == (a.value() * b.value() * c.value() * d.value()) % F::modulus(),
{
    let ghost p = F::modulus();
    let ab = a.mul(b);
    let abc = ab.mul(c);
    proof {
        F::lemma_modulus();
        let x = a.value() * b.value();
        lemma_cong_mod(p, x);
        lemma_cong_mul(p, ab.value(), x, c.value(), c.value());
        lemma_cong_mod(p, ab.value() * c.value());
        lemma_cong_mul(p, abc.value(), x * c.value(), d.value(), d.value());
    }
    abc.mul(d)
}

/// What the verifier keeps of the memory checks.
struct ThirdRead<F: PrimeField> {
    point1: Vec<F>,
    point2: Vec<F>,
    times: Vec<F>,
    evals: Vec<F>,
}

/// Checks that the values were read from the tables of the basis polynomials.
#[verifier::rlimit(60)]
fn third_phase_check<F: PrimeField, T: TranscriptRead<F>>(
    log_row: usize,
    vars: usize,
    point: &Vec<F>,
    padded_u: &Vec<F>,
    transcript: &mut T,
    Ghost(v): Ghost<Public>,
    Ghost(f): Ghost<FirstCheck>,
    Ghost(g): Ghost<SecondCheck>,
) -> (res: Result<ThirdRead<F>, Error>)
    requires
        log_row == log2_of(v.row_len),
        v.bf_vars == vars,
        vars >= 1,
        log_row < 64,
        point@.len() == log_row + 1,
        padded_u@.len() == log_row + 1,
        f.point == vals(point@),
        seq![0] + f.u == vals(padded_u@),
        g.check == checking(old(transcript).rx()),
    ensures
        ({
            let s = check_third(F::modulus(), T::oracle(), v, f, g);
            &&& final(transcript).rx() == s.check.rx
            &&& outcome(res, s.check.err)
            &&& res matches Ok(d) ==> {
                &&& vals(d.point1@) == s.point1
                &&& vals(d.point2@) == s.point2
                &&& vals(d.times@) == s.times
                &&& vals(d.evals@) == s.evals
                &&& d.point1@.len() == log_row + 1
                &&& d.point2@.len() == vars
                &&& d.times@.len() == 2
                &&& d.evals@.len() == 6
            }
        }),
{
    let ghost p = F::modulus();
    let ghost ch = T::oracle();
    let ghost d1 = log2_of(v.row_len) + 1;
    let gamma_tau = read_challenges::<F, T>(transcript, 2);
    let ghost (c1, gt) = g.check.squeeze_many(ch, 2);
    proof {
        lemma_squeeze_many_rx(g.check, ch, 2);
        lemma_challenges_len(ch, g.check.rx.hist, 2);
        assert(vals(gamma_tau@).len() == gamma_tau@.len());
    }
    let ghost a = gkr_check(p, ch, c1, 4, d1);
    let (claim1, coeff1, point1, finals1) = match gkr_verifier::<F, T>(log_row + 1, transcript, 4) {
        Ok(d) => d,
        Err(e) => {
            proof {
                lemma_third_rest_failed(p, ch, v, a.check);
            }
            return Err(e);
        },
    };
    let ghost (c2, t) = a.check.read_many(2);
    let times = match read_field_elements::<F, T>(transcript, 2) {
        Ok(e) => e,
        Err(e) => {
            proof {
                lemma_third_rest_failed(p, ch, v, c2);
            }
            return Err(e);
        },
    };
    proof {
        lemma_read_many_len(a.check, 2);
        assert(vals(times@).len() == times@.len());
        assert(vals(times@)[0] == times@[0].value());
        assert(vals(times@)[1] == times@[1].value());
    }
    let first = input_layer_check1(
        &gamma_tau,
        point,
        padded_u,
        &coeff1,
        &point1,
        claim1,
        4,
        times[0],
        times[1],
    );
    let ghost c3 = c2.require(
        cong(
            p,
            a.claim,
            first_input_layer(
                gt[0],
                gt[1],
                weighted_bits(a.point.reverse()),
                eq_points(f.point, a.point),
                eq_points(seq![0] + f.u, a.point),
                t[0],
                t[1],
                a.coeff,
            ),
        ),
        Error::InputLayer,
    );
    match first {
        Ok(_) => {},
        Err(e) => {
            proof {
                lemma_third_rest_failed(p, ch, v, c3);
            }
            return Err(e);
        },
    }
    let ghost b = gkr_check(p, ch, c3, 4, v.bf_vars);
    let (claim2, coeff2, point2, finals2) = match gkr_verifier::<F, T>(vars, transcript, 4) {
        Ok(d) => d,
        Err(e) => {
            proof {
                lemma_third_rest_failed(p, ch, v, b.check);
            }
            return Err(e);
        },
    };
    let agree = check_outputs(&finals1, &finals2, 0) && check_outputs(&finals1, &finals2, 4);
    let ghost c4 = b.check.require(
        outputs_agree(p, a.finals, b.finals, 0) && outputs_agree(p, a.finals, b.finals, 4),
        Error::MemoryCheck,
    );
    if !agree {
        proof {
            lemma_third_rest_failed(p, ch, v, c4);
        }
        return Err(Error::MemoryCheck);
    }
    let read = match read_field_elements::<F, T>(transcript, 6) {
        Ok(e) => e,
        Err(e) => {
            return Err(e);
        },
    };
    let ghost (c5, e) = c4.read_many(6);
    proof {
        lemma_read_many_len(c4, 6);
        assert(vals(read@).len() == read@.len());
    }
    let mut evals: Vec<F> = Vec::new();
    evals.push(read[4]);
    evals.push(read[5]);
    evals.push(read[0]);
    evals.push(read[1]);
    evals.push(read[2]);
    evals.push(read[3]);
    assert(vals(evals@) =~= seq![e[4], e[5], e[0], e[1], e[2], e[3]]);
    let second = input_layer_check2(&gamma_tau, claim2, &coeff2, 4, &evals);
    match second {
        Ok(_) => {},
        Err(e) => {
            return Err(e);
        },
    }
    Ok(ThirdRead { point1, point2, times, evals })
}

/// The rest of the third phase on a check that has failed.
proof fn lemma_third_rest_failed(p: int, ch: Oracle, v: Public, c: Check)
    requires
        c.err is Some,
        v.bf_vars >= 1,
    ensures
        c.read_many(2).0 == c,
        c.read_many(6).0 == c,
        gkr_check(p, ch, c, 4, v.bf_vars).check == c,
{
    lemma_failed(c, ch, 2);
    lemma_failed(c, ch, 6);
    lemma_gkr_check_from_failed(p, ch, c, 4, v.bf_vars);
}

/// Checks the sum-check that turns all claims into claims at one point.
#[verifier::rlimit(60)]
fn fourth_phase_check<F: PrimeField, T: TranscriptRead<F>>(
    vars: usize,
    tail: &Vec<F>,
    u: &Vec<F>,
    first_point: &Vec<F>,
    first_evals: &Vec<F>,
    second_point: &Vec<F>,
    second_evals: &Vec<F>,
    third: &ThirdRead<F>,
    transcript: &mut T,
    Ghost(v): Ghost<Public>,
    Ghost(f): Ghost<FirstCheck>,
    Ghost(g): Ghost<SecondCheck>,
    Ghost(h): Ghost<ThirdCheck>,
) -> (res: Result<(Vec<F>, Vec<F>), Error>)
    requires
        v.bf_vars == vars,
        f.u == vals(u@),
        f.point == vals(first_point@),
        f.evals == vals(first_evals@),
        g.point == vals(second_point@),
        g.evals == vals(second_evals@),
        h.point1 == vals(third.point1@),
        h.point2 == vals(third.point2@),
        h.times == vals(third.times@),
        h.evals == vals(third.evals@),
        h.check == checking(old(transcript).rx()),
        u@.len() + 2 <= vars,
        tail@.len() == u@.len(),
        first_point@.len() == u@.len() + 1,
        first_evals@.len() == 3,
        second_point@.len() == vars,
        second_evals@.len() == 3,
        third.point1@.len() == u@.len() + 1,
        third.point2@.len() == vars,
        third.times@.len() == 2,
        third.evals@.len() == 6,
    ensures
        ({
            let s = check_fourth(F::modulus(), T::oracle(), v, vals(tail@), f, g, h);
            &&& final(transcript).rx() == s.check.rx
            &&& outcome(res, s.check.err)
            &&& res matches Ok(d) ==> {
                &&& vals(d.0@) == s.evals
                &&& vals(d.1@) == s.point
                &&& d.0@.len() == 9
                &&& d.1@.len() == vars
            }
        }),
{
    let ghost p = F::modulus();
    let ghost ch = T::oracle();
    proof {
        F::lemma_modulus();
    }
    let ghost (c1, e) = h.check.read_many(2);
    let read = match read_field_elements::<F, T>(transcript, 2) {
        Ok(e) => e,
        Err(e) => {
            proof {
                lemma_failed(c1, ch, 13);
                let (c2, r) = c1.squeeze(ch);
                let (c3, c) = c2.squeeze_many(ch, 13);
                let n = v.bf_vars;
                let y = seq![
                    leading(n, f.point),
                    leading(n, seq![1] + f.u),
                    leading(n, vals(tail@)),
                    g.point,
                    h.point2,
                    leading(n, seq![r] + h.point1),
                ];
                let ev = h.check.read_many(2).1;
                let claims = seq![blend(f.evals[1], f.evals[2], f.point[0]), ev[0], ev[1]] + g.evals
                    + h.evals + seq![blend(h.times[0], h.times[1], r)];
                lemma_check_batch_sum_failed(p, ch, c3, y, dot(claims, c) % p, c);
            }
            return Err(e);
        },
    };
    proof {
        lemma_read_many_len(h.check, 2);
        assert(vals(read@).len() == read@.len());
        assert(e[0] == read@[0].value());
        assert(e[1] == read@[1].value());
    }
    let r = transcript.squeeze_challenge();
    let ghost (c2, r0) = c1.squeeze(ch);
    let c = read_challenges::<F, T>(transcript, 13);
    let ghost (c3, cs) = c2.squeeze_many(ch, 13);
    proof {
        lemma_squeeze_many_rx(c2, ch, 13);
        lemma_challenges_len(ch, c2.rx.hist, 13);
        assert(vals(c@).len() == c@.len());
    }
    let point_f = leading_zeros(vars, first_point);
    let point_u = leading_zeros(vars, &with_front(F::one(), u));
    let point_x = leading_zeros(vars, tail);
    let point_t = leading_zeros(vars, &with_front(r, &third.point1));
    let mut rx: Vec<&Vec<F>> = Vec::new();
    rx.push(&point_f);
    rx.push(&point_u);
    rx.push(&point_x);
    rx.push(second_point);
    rx.push(&third.point2);
    rx.push(&point_t);
    let ghost n = v.bf_vars;
    let ghost y = seq![
        leading(n, f.point),
        leading(n, seq![1] + f.u),
        leading(n, vals(tail@)),
        g.point,
        h.point2,
        leading(n, seq![r.value()] + h.point1),
    ];
    assert(points_view(rx@) =~= y);
    let wide_eval = line_at(first_evals[1], first_evals[2], first_point[0]);
    let time_eval = line_at(third.times[0], third.times[1], r);
    let mut front: Vec<F> = Vec::new();
    front.push(wide_eval);
    front.push(read[0]);
    front.push(read[1]);
    let a = joined(&front, second_evals);
    let mut claims = joined(&a, &third.evals);
    claims.push(time_eval);
    let claimed = inner_product(&claims, &c);
    proof {
        let want = seq![blend(f.evals[1], f.evals[2], f.point[0]), e[0], e[1]] + g.evals + h.evals
            + seq![blend(h.times[0], h.times[1], r.value())];
        let got = vals(claims@);
        assert(got.len() == 13);
        assert(want.len() == 13);
        assert forall|i: int| 0 <= i < 13 implies cong(p, #[trigger] got[i], want[i]) by {
            if i == 0 {
                lemma_cong_mod(p, want[0]);
            } else if i == 12 {
                lemma_cong_mod(p, want[12]);
            } else if i < 3 {
                assert(got[i] == front@[i].value());
            } else if i < 6 {
                assert(got[i] == second_evals@[i - 3].value());
            } else {
                assert(got[i] == third.evals@[i - 6].value());
            }
        }
        crate::sums::lemma_dot_cong(p, got, want, cs, cs);
    }
    batch_sum_check_verifier::<F, T>(&rx, claimed, transcript, &c)
}

impl<F: PrimeField, H: HashFunction, S: BrakingbaseSpec> Brakingbase<F, H, S> {
    /// Checks an opening of a commitment at a point. The claimed value is not looked at: the
    /// proof itself carries the value.
    #[verifier::rlimit(60)]
    pub fn verify<T: TranscriptRead<F>>(
        vp: &BrakingbaseVerifierParams<F>,
        comm: &BrakingbaseCommitment<F>,
        point: &Vec<F>,
        eval: &F,
        transcript: &mut T,
    ) -> (res: Result<(), Error>)
        requires
            vp.wf(),
            point@.len() == vp.num_vars,
        ensures
            ({
                let c = check_open::<F, H>(
                    F::modulus(),
                    T::oracle(),
                    vp.public(),
                    checking(old(transcript).rx()),
                    comm.root,
                    vals(point@),
                );
                &&& final(transcript).rx() == c.rx
                &&& outcome(res, c.err)
            }),
    {
        let ghost p = F::modulus();
        let ghost ch = T::oracle();
        let ghost v = vp.public();
        let ghost check = checking(transcript.rx());
        let vars = vp.basefold.num_vars;
        proof {
            F::lemma_modulus();
            lemma_public_sizes(*vp);
        }
        let skip = log2(vp.brakedown_num_rows);
        let log_row = log2(vp.brakedown_row_len);
        let (x_0, _x_1) = point_to_tensor_for_commit(vp.brakedown_num_rows, point);
        let tail = sub_vector(point, skip, point.len());
        let ghost x = tensor(p, vals(point@).take(skip as int));
        assert(vals(tail@) =~= vals(point@).skip(skip as int));
        let ghost (c1, root0) = check.read_commitment();
        let ghost f = check_first::<F, H>(p, ch, v, c1, comm.root, x);
        let ghost g = check_second(p, ch, v, f);
        let ghost h = check_third(p, ch, v, f, g);
        let ghost l = check_fourth(p, ch, v, vals(tail@), f, g, h);
        let ghost rc = l.check.squeeze_many(ch, 9).1;
        let wide_root = match transcript.read_commitment() {
            Ok(d) => d,
            Err(e) => {
                proof {
                    lemma_check_first_failed::<F, H>(p, ch, v, c1, comm.root, x);
                    lemma_check_second_failed(p, ch, v, f);
                    lemma_check_third_failed(p, ch, v, f, g);
                    lemma_check_fourth_failed(p, ch, v, vals(tail@), f, g, h);
                    lemma_check_last_failed::<F, H>(
                        p,
                        ch,
                        v,
                        c1,
                        rc,
                        l.point.reverse(),
                        root0,
                        g.root,
                        l.evals,
                    );
                }
                return Err(e);
            },
        };
        let (u, first_point, first_evals) = match first_phase_check::<F, H, T>(
            vp,
            &comm.root,
            &x_0,
            transcript,
        ) {
            Ok(d) => d,
            Err(e) => {
                proof {
                    lemma_check_second_failed(p, ch, v, f);
                    lemma_check_third_failed(p, ch, v, f, g);
                    lemma_check_fourth_failed(p, ch, v, vals(tail@), f, g, h);
                    lemma_check_last_failed::<F, H>(
                        p,
                        ch,
                        v,
                        f.check,
                        rc,
                        l.point.reverse(),
                        root0,
                        g.root,
                        l.evals,
                    );
                }
                return Err(e);
            },
        };
        let (second_root, second_point, second_evals) = match second_phase_check::<F, T>(
            vars,
            first_evals[0],
            transcript,
            Ghost(v),
            Ghost(f),
        ) {
            Ok(d) => d,
            Err(e) => {
                proof {
                    lemma_check_third_failed(p, ch, v, f, g);
                    lemma_check_fourth_failed(p, ch, v, vals(tail@), f, g, h);
                    lemma_check_last_failed::<F, H>(
                        p,
                        ch,
                        v,
                        g.check,
                        rc,
                        l.point.reverse(),
                        root0,
                        g.root,
                        l.evals,
                    );
                }
                return Err(e);
            },
        };
        let padded_u = with_front(F::zero(), &u);
        let third = match third_phase_check::<F, T>(
            log_row,
            vars,
            &first_point,
            &padded_u,
            transcript,
            Ghost(v),
            Ghost(f),
            Ghost(g),
        ) {
            Ok(d) => d,
            Err(e) => {
                proof {
                    lemma_check_fourth_failed(p, ch, v, vals(tail@), f, g, h);
                    lemma_check_last_failed::<F, H>(
                        p,
                        ch,
                        v,
                        h.check,
                        rc,
                        l.point.reverse(),
                        root0,
                        g.root,
                        l.evals,
                    );
                }
                return Err(e);
            },
        };
        let (evals, rp) = match fourth_phase_check::<F, T>(
            vars,
            &tail,
            &u,
            &first_point,
            &first_evals,
            &second_point,
            &second_evals,
            &third,
            transcript,
            Ghost(v),
            Ghost(f),
            Ghost(g),
            Ghost(h),
        ) {
            Ok(d) => d,
            Err(e) => {
                proof {
                    lemma_check_last_failed::<F, H>(
                        p,
                        ch,
                        v,
                        l.check,
                        rc,
                        l.point.reverse(),
                        root0,
                        g.root,
                        l.evals,
                    );
                }
                return Err(e);
            },
        };
        let random_combiners = read_challenges::<F, T>(transcript, 9);
        proof {
            lemma_squeeze_many_rx(l.check, ch, 9);
            lemma_challenges_len(ch, l.check.rx.hist, 9);
            assert(vals(random_combiners@).len() == random_combiners@.len());
            lemma_vals_reverse(rp@);
        }
        let final_point = reverse_elements(&rp);
        basefold_batch_verify::<F, H, T>(
            &vp.basefold,
            &random_combiners,
            &final_point,
            &wide_root,
            &second_root,
            &vp.trusted_commit,
            &evals,
            transcript,
        )
    }

    /// Checking several openings at once reads nothing.
    pub fn batch_verify<T: TranscriptRead<F>>(
        vp: &BrakingbaseVerifierParams<F>,
        comms: &Vec<BrakingbaseCommitment<F>>,
        points: &Vec<Vec<F>>,
        evals: &Vec<F>,
        transcript: &mut T,
    ) -> (res: Result<(), Error>)
        ensures
            res is Ok,
            final(transcript).rx() == old(transcript).rx(),
    {
        Ok(())
    }
}

/// How the sizes that a verifier knows hang together.
proof fn lemma_public_sizes<F: PrimeField>(vp: BrakingbaseVerifierParams<F>)
    requires
        vp.wf(),
    ensures
        ({
            let v = vp.public();
            let lr = log2_of(v.row_len);
            &&& vp.num_vars == log2_of(v.num_rows) + lr
            &&& v.bf_vars >= lr + 2
            &&& lr < 64
            &&& two_to(lr) == v.row_len
        }),
{
    let v = vp.public();
    let lr = log2_of(v.row_len);
    let nr = log2_of(v.num_rows);
    lemma_two_to_add(nr, lr);
    lemma_log2_two_to(nr + lr);
    lemma_log2_two_to(vp.num_vars as nat);
    assert(two_to(lr + 1) == 2 * two_to(lr));
    assert(two_to(lr + 2) == 2 * two_to(lr + 1));
    if v.bf_vars < lr + 2 {
        lemma_two_to_monotone(v.bf_vars + 1, lr + 2);
        assert(two_to(v.bf_vars + 1) == 2 * two_to(v.bf_vars));
        lemma_two_to_positive(v.bf_vars);
    }
    if lr >= 64 {
        lemma_two_to_monotone(64, lr);
        crate::bits::lemma_two_to_word();
    }
}

} // verus!
