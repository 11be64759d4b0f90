//! What the verifier of an opening makes sure of when it accepts, for every proof and every size.
use vstd::prelude::*;
use crate::algebra::{canonical, cong, lemma_cong_sub, two_to};
use crate::binding::{
    collide, law_climb_binding, law_elements_binding, reduced_events, steps_collide, table_of,
};
use crate::accepted::{
    evaluation_weights, law_batch_points_bound, law_batch_sum_accepted, law_gkr_accepted,
    lemma_after, weighed_evaluations,
};
use crate::basefold_batch::{check_batch, lemma_check_batch_failed};
use crate::bits::{ceil_log2, log2_of};
use crate::brakingbase::column_leaves;
use crate::brakingbase_laws::law_column_path;
use crate::brakingbase_open::{leading, siblings};
use crate::brakingbase_verify::{
    FirstCheck, Public, SecondCheck, ThirdCheck, blend, check_first, check_fourth, check_open,
    check_second, check_third, column_holds, lemma_check_first_failed, lemma_check_fourth_failed,
    lemma_check_second_failed, lemma_check_third_failed, lemma_failed, lemma_read_columns_failed,
    outputs_agree, read_columns, second_rounds, weighed_columns,
};
use crate::error::Error;
use crate::field::PrimeField;
use crate::gkr::gkr::{gkr_check, lemma_gkr_check_from_failed};
use crate::gkr::helper::{first_input_layer, weighted_bits};
use crate::hash::{HashFunction, Output, digest_elements, element_bytes};
use crate::merkle::{climb, column, tree_level, tree_over};
use crate::multilinear::{eq_points, eq_prod, tensor};
use crate::rounds::{Shape, check_rounds, lemma_check_rounds_failed};
use crate::soundness::{
    digests, elements, has_digests, has_elements, law_challenges_drawn, law_digests_read,
    law_elements_read, law_rounds_checked,
};
use crate::sum_checks::{check_batch_sum, lemma_check_batch_sum_failed};
use crate::sums::{dot, lemma_sum_ext, lemma_sum_step, sum_of};
use crate::transcript::{Check, Event, Oracle, Rx, lemma_read_many_len};

verus! {

/// The steps of `n` columns, for each of which a challenge is drawn and `w` items are sent.
pub open spec fn columns_history(h: Seq<Event>, s: Seq<Event>, w: nat, n: nat) -> Seq<Event>
    decreases n,
{
    if n == 0 {
        h
    } else {
        columns_history(h, s, w, (n - 1) as nat).push(Event::Challenge) + s.subrange(
            (n - 1) * w,
            (n - 1) * w + w,
        )
    }
}

/// The column that is sent for query `i`, one of `rows` rows, with a path of `depth` digests.
pub open spec fn column_sent(s: Seq<Event>, rows: nat, depth: nat, i: int) -> Seq<int> {
    elements(s, i * (rows + depth), rows)
}

/// The path that is sent for query `i`.
pub open spec fn path_sent(s: Seq<Event>, rows: nat, depth: nat, i: int) -> Seq<Output> {
    digests(s, i * (rows + depth) + rows, depth)
}

/// The index of query `i`.
pub open spec fn index_drawn(
    ch: Oracle,
    h: Seq<Event>,
    s: Seq<Event>,
    rows: nat,
    depth: nat,
    len: nat,
    i: int,
) -> int {
    (ch(columns_history(h, s, rows + depth, i as nat)) % 0x1_0000_0000) % (len as int)
}

/// A column and its path are sent for query `i`.
pub open spec fn column_is_sent(s: Seq<Event>, rows: nat, depth: nat, i: int) -> bool {
    &&& has_elements(s, i * (rows + depth), rows as int)
    &&& has_digests(s, i * (rows + depth) + rows, depth as int)
}

/// The columns are those that are sent, one after the other.
proof fn lemma_columns_read(ch: Oracle, check: Check, rows: nat, len: nat, n: nat)
    requires
        read_columns(ch, check, rows, len, n).check.err is None,
    ensures
        ({
            let d = read_columns(ch, check, rows, len, n);
            let (h, s) = (check.rx.hist, check.rx.stream);
            let depth = ceil_log2(len);
            let w = rows + depth;
            &&& check.err is None
            &&& n as int * w <= s.len()
            &&& d.columns.len() == n
            &&& d.paths.len() == n
            &&& d.indices.len() == n
            &&& forall|i: int| 0 <= i < n ==> #[trigger] column_is_sent(s, rows, depth, i)
            &&& forall|i: int|
                0 <= i < n ==> #[trigger] d.columns[i] == column_sent(s, rows, depth, i)
            &&& forall|i: int| 0 <= i < n ==> #[trigger] d.paths[i] == path_sent(s, rows, depth, i)
            &&& forall|i: int|
                0 <= i < n ==> #[trigger] d.indices[i] == index_drawn(ch, h, s, rows, depth, len, i)
            &&& d.check.rx.stream == s.skip(n as int * w)
            &&& d.check.rx.hist == columns_history(h, s, w, n)
        }),
    decreases n,
{
    let d = read_columns(ch, check, rows, len, n);
    let (h, s) = (check.rx.hist, check.rx.stream);
    let depth = ceil_log2(len);
    let w = rows + depth;
    if n == 0 {
        assert(0int * w == 0) by (nonlinear_arith);
        assert(s.skip(0) =~= s);
    } else {
        let m = (n - 1) as nat;
        let u = read_columns(ch, check, rows, len, m);
        if u.check.err is Some {
            lemma_read_columns_failed(ch, check, rows, len, m, n);
        }
        lemma_columns_read(ch, check, rows, len, m);
        let a = m as int * w;
        assert(n as int * w == a + w && 0 <= a) by (nonlinear_arith)
            requires
                n == m + 1,
                a == m as int * w,
        ;
        let (c1, x) = u.check.squeeze(ch);
        let (c2, col) = c1.read_many(rows);
        let (c3, path) = c2.read_commitments(depth);
        if c2.err is Some {
            lemma_failed(c2, ch, depth);
        }
        law_elements_read(c1, rows);
        law_digests_read(c2, depth);
        let t = u.check.rx.stream;
        assert(t == s.skip(a));
        lemma_after(s, a, rows);
        assert(c2.rx.stream == s.skip(a + rows));
        assert(col =~= column_sent(s, rows, depth, m as int));
        assert(path =~= path_sent(s, rows, depth, m as int)) by {
            assert forall|j: int| 0 <= j < depth implies path[j] == path_sent(
                s,
                rows,
                depth,
                m as int,
            )[j] by {
                assert(c2.rx.stream[j] == s[a + rows + j]);
            }
        }
        assert(c2.rx.stream.skip(depth as int) =~= s.skip(a + w));
        assert(column_is_sent(s, rows, depth, m as int)) by {
            assert forall|i: int| a <= i < a + rows implies #[trigger] s[i] is Element by {
                assert(t[i - a] == s[i]);
            }
            assert forall|i: int| a + rows <= i < a + w implies #[trigger] s[i] is Commitment by {
                assert(c2.rx.stream[i - a - rows] == s[i]);
            }
        }
        assert(u.check.rx.hist.push(Event::Challenge) + t.take(rows as int) + c2.rx.stream.take(
            depth as int,
        ) =~= u.check.rx.hist.push(Event::Challenge) + s.subrange(a, a + w));
        assert forall|i: int| 0 <= i < n implies #[trigger] column_is_sent(s, rows, depth, i) by {
            if i < m {
                assert(column_is_sent(s, rows, depth, i));
            }
        }
        assert forall|i: int| 0 <= i < n implies #[trigger] d.columns[i] == column_sent(
            s,
            rows,
            depth,
            i,
        ) by {
            if i < m {
                assert(d.columns[i] == u.columns[i]);
            }
        }
        assert forall|i: int| 0 <= i < n implies #[trigger] d.paths[i] == path_sent(s, rows, depth, i) by {
            if i < m {
                assert(d.paths[i] == u.paths[i]);
            }
        }
        assert forall|i: int| 0 <= i < n implies #[trigger] d.indices[i] == index_drawn(
            ch,
            h,
            s,
            rows,
            depth,
            len,
            i,
        ) by {
            if i < m {
                assert(d.indices[i] == u.indices[i]);
            }
        }
    }
}

/// The column that is sent for query `i`, hashed up its whole path, gives the root.
pub open spec fn column_leads_to<F: PrimeField, H: HashFunction>(
    ch: Oracle,
    h: Seq<Event>,
    s: Seq<Event>,
    v: Public,
    root: Output,
    i: int,
) -> bool {
    let depth = ceil_log2(v.codeword_len);
    climb::<H>(
        H::digest(element_bytes(column_sent(s, v.num_rows, depth, i), F::repr_len())),
        index_drawn(ch, h, s, v.num_rows, depth, v.codeword_len, i),
        path_sent(s, v.num_rows, depth, i),
        depth,
    ) == root
}

/// The first phase, if it accepts, has taken a column with its path out of the proof for every
/// query, and every one of them leads to the root.
pub proof fn law_columns_accepted<F: PrimeField, H: HashFunction>(
    p: int,
    ch: Oracle,
    v: Public,
    check: Check,
    root: Output,
    x: Seq<int>,
)
    requires
        check_first::<F, H>(p, ch, v, check, root, x).check.err is None,
    ensures
        forall|i: int|
            0 <= i < v.num_queries ==> #[trigger] column_leads_to::<F, H>(
                ch,
                check.rx.hist,
                check.rx.stream,
                v,
                root,
                i,
            ) && column_is_sent(check.rx.stream, v.num_rows, ceil_log2(v.codeword_len), i),
{
    let depth = ceil_log2(v.codeword_len);
    let (h, t) = (check.rx.hist, check.rx.stream);
    lemma_first_live::<F, H>(p, ch, v, check, root, x);
    let s = read_columns(ch, check, v.num_rows, v.codeword_len, v.num_queries);
    lemma_columns_read(ch, check, v.num_rows, v.codeword_len, v.num_queries);
    assert forall|i: int| 0 <= i < v.num_queries implies #[trigger] column_leads_to::<F, H>(
        ch,
        h,
        t,
        v,
        root,
        i,
    ) && column_is_sent(t, v.num_rows, depth, i) by {
        assert(column_holds::<F, H>(s.columns[i], s.indices[i], s.paths[i], root));
        assert(s.paths[i].len() == depth);
        assert(column_is_sent(t, v.num_rows, depth, i));
    }
}

/// A first phase that accepts has not failed before.
proof fn lemma_first_live<F: PrimeField, H: HashFunction>(
    p: int,
    ch: Oracle,
    v: Public,
    check: Check,
    root: Output,
    x: Seq<int>,
)
    requires
        check_first::<F, H>(p, ch, v, check, root, x).check.err is None,
    ensures
        ({
            let lr = log2_of(v.row_len);
            let s = read_columns(ch, check, v.num_rows, v.codeword_len, v.num_queries);
            let (c1, u) = s.check.squeeze_many(ch, lr);
            let (c2, at_u) = c1.read();
            let (c3, w) = c2.squeeze_many(ch, v.num_queries);
            let (c4, rc) = c3.squeeze_many(ch, 2);
            let claim = (rc[0] * weighed_columns(x, s.columns, w) + rc[1] * at_u) % p;
            let r = check_rounds(
                (Shape { p, ch, degree: 2, descending: true }),
                c4,
                claim,
                lr + 1,
            );
            &&& s.check.err is None
            &&& c2.err is None
            &&& r.check.err is None
            &&& r.check.read_many(3).0.err is None
            &&& forall|i: int|
                0 <= i < v.num_queries ==> column_holds::<F, H>(
                    #[trigger] s.columns[i],
                    s.indices[i],
                    s.paths[i],
                    root,
                )
        }),
{
    let lr = log2_of(v.row_len);
    let s = read_columns(ch, check, v.num_rows, v.codeword_len, v.num_queries);
    let good = forall|i: int|
        0 <= i < v.num_queries ==> column_holds::<F, H>(
            #[trigger] s.columns[i],
            s.indices[i],
            s.paths[i],
            root,
        );
    let c0 = s.check.require(good, crate::error::Error::MerklePath);
    let (c1, u) = c0.squeeze_many(ch, lr);
    let (c2, at_u) = c1.read();
    let (c3, w) = c2.squeeze_many(ch, v.num_queries);
    let (c4, rc) = c3.squeeze_many(ch, 2);
    let claim = (rc[0] * weighed_columns(x, s.columns, w) + rc[1] * at_u) % p;
    let sh = Shape { p, ch, degree: 2, descending: true };
    let r = check_rounds(sh, c4, claim, lr + 1);
    if r.check.err is Some {
        lemma_failed(r.check, ch, 3);
    }
    if c4.err is Some {
        lemma_check_rounds_failed(sh, c4, claim, 0, lr + 1);
    }
    if c2.err is Some {
        lemma_failed(c2, ch, v.num_queries);
        lemma_failed(c2, ch, 2);
    }
    if c0.err is Some {
        lemma_failed(c0, ch, lr);
    }
}

/// What the first phase checks after the columns, if it accepts: the sum-check starts from the
/// weighted sum of the columns' combinations and the value that is claimed for the parity rows,
/// and ends with the value of the mask and of the matrix there, times the value of the codeword.
pub proof fn law_first_accepted<F: PrimeField, H: HashFunction>(
    p: int,
    ch: Oracle,
    v: Public,
    check: Check,
    root: Output,
    x: Seq<int>,
)
    requires
        check_first::<F, H>(p, ch, v, check, root, x).check.err is None,
    ensures
        ({
            let f = check_first::<F, H>(p, ch, v, check, root, x);
            let (h, t) = (check.rx.hist, check.rx.stream);
            let (lr, n, depth) = (log2_of(v.row_len), v.num_queries, ceil_log2(v.codeword_len));
            let width = v.num_rows + depth;
            let c0 = Check {
                rx: Rx {
                    hist: columns_history(h, t, width, n),
                    stream: t.skip(n as int * width),
                },
                err: None,
            };
            let (c1, u) = c0.squeeze_many(ch, lr);
            let (c2, at_u) = c1.read();
            let (c3, w) = c2.squeeze_many(ch, n);
            let (c4, rc) = c3.squeeze_many(ch, 2);
            let columns = sum_of(
                n,
                |j: int| w[j] * dot(x, column_sent(t, v.num_rows, depth, j)),
            );
            let r = check_rounds(
                (Shape { p, ch, degree: 2, descending: true }),
                c4,
                (rc[0] * columns + rc[1] * at_u) % p,
                lr + 1,
            );
            let (c5, e) = r.check.read_many(3);
            let mask = sum_of(
                n,
                |j: int|
                    w[j] * eq_prod(
                        index_drawn(ch, h, t, v.num_rows, depth, v.codeword_len, j),
                        r.point,
                    ),
            );
            &&& r.check.err is None
            &&& cong(
                p,
                r.claim,
                (rc[0] * mask + rc[1] * e[0]) * (e[1] + (e[2] - e[1]) * r.point[0]),
            )
            &&& f.u == u
            &&& f.point == r.point
            &&& f.evals == e
            &&& f.check == c5
            &&& c5.err is None
        }),
{
    let (h, t) = (check.rx.hist, check.rx.stream);
    let (n, depth) = (v.num_queries, ceil_log2(v.codeword_len));
    lemma_first_live::<F, H>(p, ch, v, check, root, x);
    lemma_columns_read(ch, check, v.num_rows, v.codeword_len, n);
    let s = read_columns(ch, check, v.num_rows, v.codeword_len, n);
    let lr = log2_of(v.row_len);
    let (c1, u) = s.check.squeeze_many(ch, lr);
    let (c2, at_u) = c1.read();
    let (c3, w) = c2.squeeze_many(ch, n);
    let (c4, rc) = c3.squeeze_many(ch, 2);
    let g = |j: int| w[j] * dot(x, column_sent(t, v.num_rows, depth, j));
    lemma_sum_ext(n, |j: int| w[j] * dot(x, s.columns[j]), g);
    let claim = (rc[0] * weighed_columns(x, s.columns, w) + rc[1] * at_u) % p;
    let r = check_rounds((Shape { p, ch, degree: 2, descending: true }), c4, claim, lr + 1);
    let m = |j: int|
        w[j] * eq_prod(index_drawn(ch, h, t, v.num_rows, depth, v.codeword_len, j), r.point);
    lemma_sum_ext(n, |j: int| w[j] * eq_prod(s.indices[j], r.point), m);
}

/// The second phase, if it accepts: a root is read, and the sum-check that starts from the value of
/// the matrix ends with the product of the three values that follow.
pub proof fn law_second_accepted(p: int, ch: Oracle, v: Public, f: FirstCheck)
    requires
        check_second(p, ch, v, f).check.err is None,
    ensures
        ({
            let g = check_second(p, ch, v, f);
            let s = f.check.rx.stream;
            let c1 = Check {
                rx: Rx { hist: f.check.rx.hist.push(s[0]), stream: s.skip(1) },
                err: None,
            };
            let r = check_rounds(
                (Shape { p, ch, degree: 3, descending: true }),
                c1,
                f.evals[0],
                v.bf_vars,
            );
            let (c2, e) = r.check.read_many(3);
            &&& f.check.err is None
            &&& has_digests(s, 0, 1)
            &&& g.root == s[0]->Commitment_0
            &&& r.check.err is None
            &&& c2.err is None
            &&& cong(p, r.claim, e[0] * e[1] * e[2])
            &&& g.point == r.point
            &&& g.evals == e
            &&& g.check == c2
        }),
{
    let (c1, root) = f.check.read_commitment();
    if f.check.err is Some {
        lemma_check_second_failed(p, ch, v, f);
    }
    let sh = Shape { p, ch, degree: 3, descending: true };
    let r = second_rounds(p, ch, c1, f.evals[0], v.bf_vars);
    if r.check.err is Some {
        lemma_failed(r.check, ch, 3);
    }
    if c1.err is Some {
        lemma_check_rounds_failed(sh, c1, f.evals[0], 0, v.bf_vars);
    }
}

/// A point, the first coordinate of which goes with the highest bit, as a number.
pub open spec fn point_number(y: Seq<int>) -> int {
    sum_of(y.len(), |i: int| two_to(i as nat) * y[y.len() - 1 - i])
}

/// The third phase, if it accepts: the products for the tables and for the reads agree for rows and
/// for columns, and the claims that the two grand products leave are those of the fingerprints of
/// the values that follow.
pub proof fn law_third_accepted(p: int, ch: Oracle, v: Public, f: FirstCheck, g: SecondCheck)
    requires
        v.bf_vars >= 1,
        check_third(p, ch, v, f, g).check.err is None,
    ensures
        ({
            let h = check_third(p, ch, v, f, g);
            let (c1, gt) = g.check.squeeze_many(ch, 2);
            let (y, z) = (gt[0], gt[1]);
            let a = gkr_check(p, ch, c1, 4, log2_of(v.row_len) + 1);
            let (c2, t) = a.check.read_many(2);
            let b = gkr_check(p, ch, c2, 4, v.bf_vars);
            let (c5, e) = b.check.read_many(6);
            let row = point_number(a.point) + y * eq_points(f.point, a.point) - z;
            let col = point_number(a.point) + y * eq_points(seq![0] + f.u, a.point) - z;
            let rd = e[0] + y * e[4] + (y * y) * e[2] - z;
            let cd = e[1] + y * e[5] + (y * y) * e[3] - z;
            let (m, n) = (a.finals, b.finals);
            &&& g.check.err is None
            &&& a.check.err is None
            &&& c2.err is None
            &&& b.check.err is None
            &&& c5.err is None
            &&& cong(
                p,
                a.claim,
                a.coeff[0] * row + a.coeff[1] * (row + (y * y) * t[0]) + a.coeff[2] * col + a.coeff[3]
                    * (col + (y * y) * t[1]),
            )
            &&& cong(
                p,
                b.claim,
                b.coeff[0] * (rd + y * y) + b.coeff[1] * rd + b.coeff[2] * (cd + y * y) + b.coeff[3]
                    * cd,
            )
            &&& cong(p, m[0] * m[1] * n[0] * n[1], m[2] * m[3] * n[2] * n[3])
            &&& cong(p, m[4] * m[5] * n[4] * n[5], m[6] * m[7] * n[6] * n[7])
            &&& h.point1 == a.point
            &&& h.point2 == b.point
            &&& h.times == t
            &&& h.evals == seq![e[4], e[5], e[0], e[1], e[2], e[3]]
            &&& h.check == c5
        }),
{
    if g.check.err is Some {
        lemma_check_third_failed(p, ch, v, f, g);
    }
    let (c1, gt) = g.check.squeeze_many(ch, 2);
    let a = gkr_check(p, ch, c1, 4, log2_of(v.row_len) + 1);
    let (c2, t) = a.check.read_many(2);
    let b = gkr_check(p, ch, c2, 4, v.bf_vars);
    law_challenges_drawn(g.check, ch, 2);
    let y = a.point;
    lemma_sum_ext(
        y.len(),
        |i: int| two_to(i as nat) * y.reverse()[i],
        |i: int| two_to(i as nat) * y[y.len() - 1 - i],
    );
    if a.check.err is Some {
        lemma_failed(a.check, ch, 2);
        lemma_gkr_check_from_failed(p, ch, a.check, 4, v.bf_vars);
        lemma_failed(a.check, ch, 6);
    }
    let c3 = c2.require(
        cong(
            p,
            a.claim,
            first_input_layer(
                gt[0],
                gt[1],
                weighted_bits(a.point.reverse()),
                eq_points(f.point, a.point),
                eq_points(seq![0] + f.u, a.point),
                t[0],
                t[1],
                a.coeff,
            ),
        ),
        Error::InputLayer,
    );
    if c3.err is Some {
        lemma_gkr_check_from_failed(p, ch, c3, 4, v.bf_vars);
        lemma_failed(c3, ch, 6);
    }
    if b.check.err is Some {
        lemma_failed(b.check, ch, 6);
    }
    let c4 = b.check.require(
        outputs_agree(p, a.finals, b.finals, 0) && outputs_agree(p, a.finals, b.finals, 4),
        Error::MemoryCheck,
    );
    if c4.err is Some {
        lemma_failed(c4, ch, 6);
    }
}

/// The point `y` among the points with `n` coordinates: with zeros in front.
pub open spec fn in_front(n: nat, y: Seq<int>) -> Seq<int> {
    Seq::new(
        n,
        |i: int|
            if i < n - y.len() {
                0int
            } else {
                y[i - (n - y.len())]
            },
    )
}

/// The points of the claims of an opening that the batched sum-check joins.
pub open spec fn joined_points(
    n: nat,
    tail: Seq<int>,
    f: FirstCheck,
    g: SecondCheck,
    h: ThirdCheck,
    r: int,
) -> Seq<Seq<int>> {
    seq![
        in_front(n, f.point),
        in_front(n, seq![1] + f.u),
        in_front(n, tail),
        g.point,
        h.point2,
        in_front(n, seq![r] + h.point1),
    ]
}

/// The fourth phase, if it accepts: every value that was claimed so far, and the value at the part
/// of the point that selects a column, goes into the batched sum-check with its own point and a
/// weight that is drawn after it.
pub proof fn law_fourth_accepted(
    p: int,
    ch: Oracle,
    v: Public,
    tail: Seq<int>,
    f: FirstCheck,
    g: SecondCheck,
    h: ThirdCheck,
)
    requires
        check_fourth(p, ch, v, tail, f, g, h).check.err is None,
        f.point.len() <= v.bf_vars,
        f.u.len() < v.bf_vars,
        tail.len() <= v.bf_vars,
        h.point1.len() < v.bf_vars,
        g.evals.len() == 3,
        h.evals.len() == 6,
    ensures
        ({
            let l = check_fourth(p, ch, v, tail, f, g, h);
            let (c1, e) = h.check.read_many(2);
            let (c2, r) = c1.squeeze(ch);
            let (c3, c) = c2.squeeze_many(ch, 13);
            let claim = c[0] * (f.evals[1] + (f.evals[2] - f.evals[1]) * f.point[0]) + c[1] * e[0]
                + c[2] * e[1] + c[3] * g.evals[0] + c[4] * g.evals[1] + c[5] * g.evals[2] + c[6]
                * h.evals[0] + c[7] * h.evals[1] + c[8] * h.evals[2] + c[9] * h.evals[3] + c[10]
                * h.evals[4] + c[11] * h.evals[5] + c[12] * (h.times[0] + (h.times[1]
                - h.times[0]) * r);
            let b = check_batch_sum(
                p,
                ch,
                c3,
                joined_points(v.bf_vars, tail, f, g, h, r),
                claim % p,
                c,
            );
            &&& h.check.err is None
            &&& c1.err is None
            &&& b.check.err is None
            &&& l.check == b.check
            &&& l.point == b.point
            &&& l.evals == b.evals
        }),
{
    if h.check.err is Some {
        lemma_check_fourth_failed(p, ch, v, tail, f, g, h);
    }
    let n = v.bf_vars;
    let (c1, e) = h.check.read_many(2);
    let (c2, r) = c1.squeeze(ch);
    let (c3, c) = c2.squeeze_many(ch, 13);
    let y = seq![
        leading(n, f.point),
        leading(n, seq![1] + f.u),
        leading(n, tail),
        g.point,
        h.point2,
        leading(n, seq![r] + h.point1),
    ];
    lemma_in_front(n, f.point);
    lemma_in_front(n, seq![1] + f.u);
    lemma_in_front(n, tail);
    lemma_in_front(n, seq![r] + h.point1);
    assert(y =~= joined_points(n, tail, f, g, h, r));
    let a = seq![blend(f.evals[1], f.evals[2], f.point[0]), e[0], e[1]] + g.evals + h.evals + seq![
        blend(h.times[0], h.times[1], r),
    ];
    if c1.err is Some {
        lemma_failed(c1, ch, 13);
        lemma_check_batch_sum_failed(p, ch, c3, y, dot(a, c) % p, c);
    }
    law_challenges_drawn(c2, ch, 13);
    lemma_dot_13(a, c);
}

proof fn lemma_in_front(n: nat, y: Seq<int>)
    requires
        y.len() <= n,
    ensures
        leading(n, y) == in_front(n, y),
{
    assert(leading(n, y) =~= in_front(n, y));
}

proof fn lemma_dot_13(a: Seq<int>, c: Seq<int>)
    requires
        a.len() == 13,
        c.len() == 13,
    ensures
        dot(a, c) == c[0] * a[0] + c[1] * a[1] + c[2] * a[2] + c[3] * a[3] + c[4] * a[4] + c[5] * a[5]
            + c[6] * a[6] + c[7] * a[7] + c[8] * a[8] + c[9] * a[9] + c[10] * a[10] + c[11] * a[11]
            + c[12] * a[12],
{
    let f = |i: int| a[i] * c[i];
    let g = |i: int| c[i] * a[i];
    assert forall|i: int| 0 <= i < 13 implies #[trigger] f(i) == g(i) by {
        assert(a[i] * c[i] == c[i] * a[i]) by (nonlinear_arith);
    }
    lemma_sum_ext(13, f, g);
    assert(dot(a, c) == sum_of(13, f));
    lemma_sum_step(0, g);
    lemma_sum_step(1, g);
    lemma_sum_step(2, g);
    lemma_sum_step(3, g);
    lemma_sum_step(4, g);
    lemma_sum_step(5, g);
    lemma_sum_step(6, g);
    lemma_sum_step(7, g);
    lemma_sum_step(8, g);
    lemma_sum_step(9, g);
    lemma_sum_step(10, g);
    lemma_sum_step(11, g);
    lemma_sum_step(12, g);
}

/// The check after the first item of the proof is read.
pub open spec fn after_first(check: Check) -> Check {
    Check {
        rx: Rx {
            hist: check.rx.hist.push(check.rx.stream[0]),
            stream: check.rx.stream.skip(1),
        },
        err: None,
    }
}

/// An opening that is accepted: the proof starts with a root, all four phases accept one after the
/// other, and the values that they leave are opened in the foldable code.
pub proof fn law_open_accepted<F: PrimeField, H: HashFunction>(
    p: int,
    ch: Oracle,
    v: Public,
    check: Check,
    root: Output,
    point: Seq<int>,
)
    requires
        v.bf_vars >= 1,
        check_open::<F, H>(p, ch, v, check, root, point).err is None,
    ensures
        ({
            let k = log2_of(v.num_rows) as int;
            let c1 = after_first(check);
            let f = check_first::<F, H>(p, ch, v, c1, root, tensor(p, point.take(k)));
            let g = check_second(p, ch, v, f);
            let h = check_third(p, ch, v, f, g);
            let l = check_fourth(p, ch, v, point.skip(k), f, g, h);
            let (c2, rc) = l.check.squeeze_many(ch, 9);
            &&& check.err is None
            &&& has_digests(check.rx.stream, 0, 1)
            &&& f.check.err is None
            &&& g.check.err is None
            &&& h.check.err is None
            &&& l.check.err is None
            &&& check_batch::<F, H>(
                p,
                ch,
                c2,
                v.seed,
                v.bf_vars,
                v.log_rate,
                v.bf_queries,
                rc,
                l.point.reverse(),
                check.rx.stream[0]->Commitment_0,
                g.root,
                v.trusted,
                l.evals,
            ).err is None
        }),
{
    let k = log2_of(v.num_rows) as int;
    let (c1, wide) = check.read_commitment();
    let x = tensor(p, point.take(k));
    let f = check_first::<F, H>(p, ch, v, c1, root, x);
    let g = check_second(p, ch, v, f);
    let h = check_third(p, ch, v, f, g);
    let l = check_fourth(p, ch, v, point.skip(k), f, g, h);
    if l.check.err is Some {
        lemma_failed(l.check, ch, 9);
        let rc = l.check.squeeze_many(ch, 9).1;
        lemma_check_batch_failed::<F, H>(
            p,
            ch,
            l.check,
            v.seed,
            v.bf_vars,
            v.log_rate,
            v.bf_queries,
            rc,
            l.point.reverse(),
            wide,
            g.root,
            v.trusted,
            l.evals,
        );
    }
    if h.check.err is Some {
        lemma_check_fourth_failed(p, ch, v, point.skip(k), f, g, h);
    }
    if g.check.err is Some {
        lemma_check_third_failed(p, ch, v, f, g);
    }
    if f.check.err is Some {
        lemma_check_second_failed(p, ch, v, f);
    }
    if c1.err is Some {
        lemma_check_first_failed::<F, H>(p, ch, v, c1, root, x);
    }
}

/// A proof is accepted for one commitment at most: two roots for which it is accepted, at whatever
/// points, are the same.
pub proof fn law_open_one_root<F: PrimeField, H: HashFunction>(
    p: int,
    ch: Oracle,
    v: Public,
    check: Check,
    a: Output,
    b: Output,
    x: Seq<int>,
    y: Seq<int>,
)
    requires
        v.bf_vars >= 1,
        v.num_queries >= 1,
        check_open::<F, H>(p, ch, v, check, a, x).err is None,
        check_open::<F, H>(p, ch, v, check, b, y).err is None,
    ensures
        a == b,
{
    let k = log2_of(v.num_rows) as int;
    let c1 = after_first(check);
    law_open_accepted::<F, H>(p, ch, v, check, a, x);
    law_open_accepted::<F, H>(p, ch, v, check, b, y);
    law_columns_accepted::<F, H>(p, ch, v, c1, a, tensor(p, x.take(k)));
    law_columns_accepted::<F, H>(p, ch, v, c1, b, tensor(p, y.take(k)));
    assert(column_leads_to::<F, H>(ch, c1.rx.hist, c1.rx.stream, v, a, 0));
    assert(column_leads_to::<F, H>(ch, c1.rx.hist, c1.rx.stream, v, b, 0));
}

/// In an opening that is accepted for the root over the columns of a table, every column of the
/// proof is the one of the table at the index that was drawn, or two messages that were hashed
/// collide.
pub proof fn law_open_columns_committed<F: PrimeField, H: HashFunction>(
    ch: Oracle,
    v: Public,
    check: Check,
    rows: Seq<Seq<int>>,
    point: Seq<int>,
    i: int,
)
    requires
        v.bf_vars >= 1,
        v.codeword_len >= 1,
        table_of(F::modulus(), rows, v.num_rows, v.codeword_len),
        reduced_events(F::modulus(), check.rx.stream),
        check_open::<F, H>(
            F::modulus(),
            ch,
            v,
            check,
            tree_level::<H>(
                column_leaves::<F, H>(rows, v.codeword_len),
                ceil_log2(v.codeword_len),
            )[0],
            point,
        ).err is None,
        0 <= i < v.num_queries,
    ensures
        ({
            let depth = ceil_log2(v.codeword_len);
            let c1 = after_first(check);
            let (h, s) = (c1.rx.hist, c1.rx.stream);
            let sent = column_sent(s, v.num_rows, depth, i);
            let q = index_drawn(ch, h, s, v.num_rows, depth, v.codeword_len, i);
            let path = siblings(
                tree_over::<H>(column_leaves::<F, H>(rows, v.codeword_len), depth),
                q,
            );
            &&& 0 <= q < v.codeword_len
            &&& sent == column(rows, q) || collide::<H>(
                element_bytes(sent, F::repr_len()),
                element_bytes(column(rows, q), F::repr_len()),
            ) || steps_collide::<H>(
                digest_elements::<F, H>(sent),
                digest_elements::<F, H>(column(rows, q)),
                q,
                path_sent(s, v.num_rows, depth, i),
                path,
                depth,
            )
        }),
{
    let p = F::modulus();
    let depth = ceil_log2(v.codeword_len);
    let leaves = column_leaves::<F, H>(rows, v.codeword_len);
    let root = tree_level::<H>(leaves, depth)[0];
    let k = log2_of(v.num_rows) as int;
    let c1 = after_first(check);
    let (h, s) = (c1.rx.hist, c1.rx.stream);
    law_open_accepted::<F, H>(p, ch, v, check, root, point);
    law_columns_accepted::<F, H>(p, ch, v, c1, root, tensor(p, point.take(k)));
    assert(column_leads_to::<F, H>(ch, h, s, v, root, i));
    let sent = column_sent(s, v.num_rows, depth, i);
    let x = ch(columns_history(h, s, v.num_rows + depth, i as nat)) % 0x1_0000_0000;
    let q = index_drawn(ch, h, s, v.num_rows, depth, v.codeword_len, i);
    crate::algebra::lemma_mod_canonical(v.codeword_len as int, x);
    law_column_path::<F, H>(rows, v.codeword_len, q);
    let path = siblings(tree_over::<H>(leaves, depth), q);
    assert(path.len() == depth);
    law_climb_binding::<H>(
        digest_elements::<F, H>(sent),
        digest_elements::<F, H>(column(rows, q)),
        q,
        path_sent(s, v.num_rows, depth, i),
        path,
        depth,
    );
    if digest_elements::<F, H>(sent) == digest_elements::<F, H>(column(rows, q)) {
        let w = i * (v.num_rows + depth);
        assert forall|j: int| 0 <= j < sent.len() implies 0 <= #[trigger] sent[j] < p by {
            assert(s[w + j] is Element);
            assert(check.rx.stream[w + j + 1] == s[w + j]);
        }
        let c = column(rows, q);
        assert forall|j: int| 0 <= j < c.len() implies 0 <= #[trigger] c[j] < p by {
            assert(rows[j].len() == v.codeword_len && canonical(p, rows[j]));
        }
        law_elements_binding::<F, H>(sent, c);
    }
}

/// A proof that is accepted for one commitment at two points that differ only in the part that
/// selects a column gives the difference of the basis polynomials of the two no weight: the
/// evaluation of the combined row, times its weight, times the difference, is zero.
#[verifier::spinoff_prover]
#[verifier::rlimit(60)]
pub proof fn law_open_tail_bound<F: PrimeField, H: HashFunction>(
    p: int,
    ch: Oracle,
    v: Public,
    check: Check,
    root: Output,
    x: Seq<int>,
    y: Seq<int>,
)
    requires
        p > 0,
        v.bf_vars > log2_of(v.row_len) + 1,
        x.take(log2_of(v.num_rows) as int) == y.take(log2_of(v.num_rows) as int),
        log2_of(v.num_rows) <= x.len() == y.len() <= log2_of(v.num_rows) + v.bf_vars,
        check_open::<F, H>(p, ch, v, check, root, x).err is None,
        check_open::<F, H>(p, ch, v, check, root, y).err is None,
    ensures
        ({
            let k = log2_of(v.num_rows) as int;
            let n = v.bf_vars;
            let f = check_first::<F, H>(p, ch, v, after_first(check), root, tensor(p, x.take(k)));
            let g = check_second(p, ch, v, f);
            let h = check_third(p, ch, v, f, g);
            let l = check_fourth(p, ch, v, x.skip(k), f, g, h);
            let c3 = h.check.read_many(2).0.squeeze(ch).0;
            let c = c3.squeeze_many(ch, 13).1;
            let e = l.evals[0];
            cong(
                p,
                (c[2] * e) * (eq_points(in_front(n, x.skip(k)), l.point) - eq_points(
                    in_front(n, y.skip(k)),
                    l.point,
                )),
                0,
            )
        }),
{
    let k = log2_of(v.num_rows) as int;
    let n = v.bf_vars;
    let (s, t) = (x.skip(k), y.skip(k));
    law_open_accepted::<F, H>(p, ch, v, check, root, x);
    law_open_accepted::<F, H>(p, ch, v, check, root, y);
    let f = check_first::<F, H>(p, ch, v, after_first(check), root, tensor(p, x.take(k)));
    let g = check_second(p, ch, v, f);
    let h = check_third(p, ch, v, f, g);
    lemma_phase_sizes::<F, H>(p, ch, v, after_first(check), root, tensor(p, x.take(k)));
    law_fourth_accepted(p, ch, v, s, f, g, h);
    law_fourth_accepted(p, ch, v, t, f, g, h);
    let (c1, e2) = h.check.read_many(2);
    let (c2, r) = c1.squeeze(ch);
    let (c3, c) = c2.squeeze_many(ch, 13);
    let claim = c[0] * (f.evals[1] + (f.evals[2] - f.evals[1]) * f.point[0]) + c[1] * e2[0] + c[2]
        * e2[1] + c[3] * g.evals[0] + c[4] * g.evals[1] + c[5] * g.evals[2] + c[6] * h.evals[0] + c[7]
        * h.evals[1] + c[8] * h.evals[2] + c[9] * h.evals[3] + c[10] * h.evals[4] + c[11] * h.evals[5]
        + c[12] * (h.times[0] + (h.times[1] - h.times[0]) * r);
    let (a, b) = (joined_points(n, s, f, g, h, r), joined_points(n, t, f, g, h, r));
    law_batch_points_bound(p, ch, c3, a, b, claim % p, c);
    law_batch_sum_accepted(p, ch, c3, a, claim % p, c);
    let z = check_batch_sum(p, ch, c3, a, claim % p, c).point;
    let e = elements(c3.rx.stream, 3 * a[0].len() as int, 9);
    let (u, w) = (evaluation_weights(c, a, z), evaluation_weights(c, b, z));
    assert(forall|i: int| 1 <= i < 9 ==> u[i] == w[i]);
    let rest = weighed_evaluations(u, e) - u[0] * e[0];
    assert(weighed_evaluations(w, e) - w[0] * e[0] == rest);
    lemma_cong_sub(p, weighed_evaluations(u, e), weighed_evaluations(w, e), rest, rest);
    lemma_cong_sub(p, u[0] * e[0], w[0] * e[0], w[0] * e[0], w[0] * e[0]);
    let (qs, qt) = (eq_points(a[2], z), eq_points(b[2], z));
    let (d, e0) = (c[2], e[0]);
    let m = c[0] * eq_points(a[0], z) + c[1] * eq_points(a[1], z);
    assert(u[0] == m + d * qs && w[0] == m + d * qt);
    assert((m + d * qs) * e0 - (m + d * qt) * e0 == (d * e0) * (qs - qt)) by (nonlinear_arith);
}

/// The numbers of coordinates and values of the phases of an opening that is accepted.
proof fn lemma_phase_sizes<F: PrimeField, H: HashFunction>(
    p: int,
    ch: Oracle,
    v: Public,
    check: Check,
    root: Output,
    x: Seq<int>,
)
    requires
        p > 0,
        v.bf_vars >= 1,
        ({
            let f = check_first::<F, H>(p, ch, v, check, root, x);
            let g = check_second(p, ch, v, f);
            check_third(p, ch, v, f, g).check.err is None
        }),
    ensures
        ({
            let f = check_first::<F, H>(p, ch, v, check, root, x);
            let g = check_second(p, ch, v, f);
            let h = check_third(p, ch, v, f, g);
            &&& f.point.len() == log2_of(v.row_len) + 1
            &&& f.u.len() == log2_of(v.row_len)
            &&& g.evals.len() == 3
            &&& h.evals.len() == 6
            &&& h.point1.len() == log2_of(v.row_len) + 1
        }),
{
    let f = check_first::<F, H>(p, ch, v, check, root, x);
    let g = check_second(p, ch, v, f);
    if g.check.err is Some {
        lemma_check_third_failed(p, ch, v, f, g);
    }
    if f.check.err is Some {
        lemma_check_second_failed(p, ch, v, f);
    }
    law_first_accepted::<F, H>(p, ch, v, check, root, x);
    law_second_accepted(p, ch, v, f);
    law_third_accepted(p, ch, v, f, g);
    let lr = log2_of(v.row_len);
    lemma_first_live::<F, H>(p, ch, v, check, root, x);
    let s = read_columns(ch, check, v.num_rows, v.codeword_len, v.num_queries);
    law_challenges_drawn(s.check, ch, lr);
    let (c1, u) = s.check.squeeze_many(ch, lr);
    let (c2, at_u) = c1.read();
    let (c3, w) = c2.squeeze_many(ch, v.num_queries);
    let (c4, rc) = c3.squeeze_many(ch, 2);
    let claim = (rc[0] * weighed_columns(x, s.columns, w) + rc[1] * at_u) % p;
    let sh = Shape { p, ch, degree: 2, descending: true };
    law_rounds_checked(sh, c4, claim, lr + 1);
    let r = check_rounds((Shape { p, ch, degree: 3, descending: true }), after_first(f.check), f.evals[0], v.bf_vars);
    lemma_read_many_len(r.check, 3);
    law_gkr_accepted(p, ch, g.check.squeeze_many(ch, 2).0, 4, lr + 1);
}

} // verus!
