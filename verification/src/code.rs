//! Systematic linear codes that are given by a sparse parity-check matrix.
use vstd::prelude::*;
use vstd::arithmetic::div_mod::lemma_add_mod_noop;
use crate::algebra::{
    canonical, cong, lemma_canonical_unique, lemma_cong_mod, lemma_cong_mul, lemma_mod_canonical,
    lemma_mod_small,
};
use crate::field::{PrimeField, copy_elements, lemma_vals_canonical, vals};
use crate::sums::{lemma_sum_ext, lemma_sum_factor, lemma_sum_of_cong, lemma_sum_step, sum_of};

verus! {

/// The entries of a sparse matrix. A row belongs to an entry of a codeword, and a column to a
/// parity entry.
#[derive(Clone, Debug)]
pub struct ParityCheckMatrix<F: PrimeField> {
    pub row: Vec<usize>,
    pub col: Vec<usize>,
    pub val: Vec<F>,
}

/// A sparse matrix as integers.
pub struct Matrix {
    pub row: Seq<int>,
    pub col: Seq<int>,
    pub val: Seq<int>,
}

/// The indices as integers.
pub open spec fn index_values(s: Seq<usize>) -> Seq<int> {
    Seq::new(s.len(), |i: int| s[i] as int)
}

impl<F: PrimeField> ParityCheckMatrix<F> {
    /// The entries as integers.
    pub open spec fn matrix(&self) -> Matrix {
        Matrix {
            row: index_values(self.row@),
            col: index_values(self.col@),
            val: vals(self.val@),
        }
    }

    /// A copy.
    pub fn copy(&self) -> (r: Self)
        ensures
            r.row@ == self.row@,
            r.col@ == self.col@,
            r.val@ == self.val@,
    {
        ParityCheckMatrix {
            row: copy_indices(&self.row),
            col: copy_indices(&self.col),
            val: copy_elements(&self.val),
        }
    }
}

/// A copy of indices.
pub fn copy_indices(v: &Vec<usize>) -> (r: Vec<usize>)
    ensures
        r@ == v@,
{
    let mut r: Vec<usize> = Vec::new();
    let mut i: usize = 0;
    while i < v.len()
        invariant
            i <= v@.len(),
            r@ == v@.take(i as int),
        decreases v@.len() - i,
    {
        r.push(v[i]);
        assert(v@.take(i as int + 1) =~= v@.take(i as int).push(v@[i as int]));
        i += 1;
    }
    assert(v@.take(v@.len() as int) =~= v@);
    r
}

/// The contribution of the entry `i` to the parity entry `j` of the word `c`.
pub open spec fn contribution(m: Matrix, c: Seq<int>, j: int, i: int) -> int {
    if m.col[i] == j {
        m.val[i] * c[m.row[i]]
    } else {
        0
    }
}

/// What the first `n` entries of a matrix make of the parity entry `j` of the word `c`.
pub open spec fn parity(m: Matrix, c: Seq<int>, j: int, n: nat) -> int {
    sum_of(n, |i: int| contribution(m, c, j, i))
}

/// Every parity entry of the word `c` is what the matrix makes of it.
pub open spec fn in_code(p: int, m: Matrix, row_len: nat, c: Seq<int>) -> bool {
    forall|j: int|
        0 <= j < c.len() - row_len ==> cong(p, #[trigger] c[row_len + j], parity(m, c, j, m.row.len()))
}

/// `c` is the codeword of the message `msg`.
pub open spec fn is_codeword_of(
    p: int,
    m: Matrix,
    row_len: nat,
    codeword_len: nat,
    msg: Seq<int>,
    c: Seq<int>,
) -> bool {
    &&& c.len() == codeword_len
    &&& canonical(p, c)
    &&& c.take(row_len as int) == msg
    &&& in_code(p, m, row_len, c)
}

/// The codeword of a message.
pub open spec fn codeword_of(p: int, m: Matrix, row_len: nat, codeword_len: nat, msg: Seq<int>) -> Seq<int> {
    choose|c: Seq<int>| is_codeword_of(p, m, row_len, codeword_len, msg, c)
}

/// The entries of a matrix are ordered by columns, and a parity entry depends on what is before
/// it only.
pub open spec fn triangular(m: Matrix, row_len: nat, codeword_len: nat) -> bool {
    &&& row_len <= codeword_len
    &&& m.row.len() == m.col.len()
    &&& m.row.len() == m.val.len()
    &&& forall|i: int|
        0 <= i < m.row.len() ==> 0 <= #[trigger] m.row[i] < row_len + m.col[i] && 0 <= m.col[i]
            < codeword_len - row_len
    &&& forall|i: int, j: int| 0 <= i <= j < m.col.len() ==> #[trigger] m.col[i] <= #[trigger] m.col[j]
}

/// A systematic linear code.
#[derive(Clone, Debug)]
pub struct Brakedown<F: PrimeField> {
    pub row_len: usize,
    pub codeword_len: usize,
    pub num_column_opening: usize,
    pub matrix: ParityCheckMatrix<F>,
}

impl<F: PrimeField> Brakedown<F> {
    pub open spec fn wf(&self) -> bool {
        triangular(self.matrix.matrix(), self.row_len as nat, self.codeword_len as nat)
    }

    /// The length of a message.
    pub fn row_len(&self) -> (r: usize)
        ensures
            r == self.row_len,
    {
        self.row_len
    }

    /// The length of a codeword.
    pub fn codeword_len(&self) -> (r: usize)
        ensures
            r == self.codeword_len,
    {
        self.codeword_len
    }

    /// How many columns are opened.
    pub fn num_column_opening(&self) -> (r: usize)
        ensures
            r == self.num_column_opening,
    {
        self.num_column_opening
    }

    /// The parity-check matrix.
    pub fn parity_check_matrix(&self) -> (r: ParityCheckMatrix<F>)
        ensures
            r.row@ == self.matrix.row@,
            r.col@ == self.matrix.col@,
            r.val@ == self.matrix.val@,
    {
        self.matrix.copy()
    }

    /// A copy.
    pub fn copy(&self) -> (r: Self)
        ensures
            r.row_len == self.row_len,
            r.codeword_len == self.codeword_len,
            r.num_column_opening == self.num_column_opening,
            r.matrix.row@ == self.matrix.row@,
            r.matrix.col@ == self.matrix.col@,
            r.matrix.val@ == self.matrix.val@,
    {
        Brakedown {
            row_len: self.row_len,
            codeword_len: self.codeword_len,
            num_column_opening: self.num_column_opening,
            matrix: self.matrix.copy(),
        }
    }

    /// The codeword of a message.
    pub fn encode(&self, msg: &Vec<F>) -> (r: Vec<F>)
        requires
            self.wf(),
            msg@.len() == self.row_len,
        ensures
            vals(r@) == codeword_of(
                F::modulus(),
                self.matrix.matrix(),
                self.row_len as nat,
                self.codeword_len as nat,
                vals(msg@),
            ),
            is_codeword_of(
                F::modulus(),
                self.matrix.matrix(),
                self.row_len as nat,
                self.codeword_len as nat,
                vals(msg@),
                vals(r@),
            ),
    {
        let ghost p = F::modulus();
        let ghost m = self.matrix.matrix();
        let ghost mv = vals(msg@);
        let row_len = self.row_len;
        let n = self.codeword_len;
        let count = self.matrix.row.len();
        let mut c: Vec<F> = copy_elements(msg);
        let zero = F::zero();
        while c.len() < n
            invariant
                row_len == msg@.len(),
                zero.value() == 0,
                row_len <= c@.len() <= n,
                c@.take(row_len as int) == msg@,
                forall|j: int| row_len <= j < c@.len() ==> (#[trigger] c@[j]).value() == 0,
            decreases n - c@.len(),
        {
            let ghost before = c@;
            c.push(zero);
            assert(c@.take(row_len as int) =~= before.take(row_len as int));
        }
        proof {
            F::lemma_modulus();
            lemma_mod_small(p, 0);
            let cv = vals(c@);
            assert forall|j: int| 0 <= j < n - row_len implies #[trigger] cv[row_len + j] == parity(m, cv, j, 0) % p by {
                lemma_sum_step(0, |i: int| contribution(m, cv, j, i));
            }
        }
        let mut i: usize = 0;
        while i < count
            invariant
                i <= count,
                self.wf(),
                m == self.matrix.matrix(),
                count == m.row.len(),
                row_len == self.row_len,
                n == self.codeword_len,
                row_len == msg@.len(),
                p == F::modulus(),
                p > 6,
                c@.len() == n,
                c@.take(row_len as int) == msg@,
                forall|j: int|
                    0 <= j < n - row_len ==> #[trigger] vals(c@)[row_len + j] == parity(
                        m,
                        vals(c@),
                        j,
                        i as nat,
                    ) % p,
            decreases count - i,
        {
            let ghost before = vals(c@);
            let ghost old_c = c@;
            let row = self.matrix.row[i];
            let col = self.matrix.col[i];
            assert(m.row[i as int] == row && m.col[i as int] == col);
            let t = self.matrix.val[i].mul(c[row]);
            let next = c[row_len + col].add(t);
            c.set(row_len + col, next);
            proof {
                let cv = vals(c@);
                let k = row_len + col;
                assert(c@.take(row_len as int) =~= old_c.take(row_len as int));
                assert(cv =~= before.update(k as int, next.value()));
                assert forall|j: int| 0 <= j < n - row_len implies #[trigger] cv[row_len + j] == parity(
                    m,
                    cv,
                    j,
                    (i + 1) as nat,
                ) % p by {
                    assert(before[row_len + j] == parity(m, before, j, i as nat) % p);
                    let f = |x: int| contribution(m, before, j, x);
                    let g = |x: int| contribution(m, cv, j, x);
                    lemma_sum_step(i as nat, g);
                    if j > col {
                        // no entry of this column yet
                        assert forall|x: int| 0 <= x < i implies #[trigger] f(x) == g(x) by {
                            assert(m.col[x] <= m.col[i as int]);
                        }
                        lemma_sum_ext(i as nat, f, g);
                    } else {
                        assert forall|x: int| 0 <= x < i implies #[trigger] f(x) == g(x) by {
                            if m.col[x] == j {
                                assert(m.row[x] < row_len + m.col[x]);
                            }
                        }
                        lemma_sum_ext(i as nat, f, g);
                        if j == col {
                            let y = m.val[i as int] * before[row as int];
                            assert(row < row_len + col);
                            assert(g(i as int) == y);
                            lemma_add_mod_noop(sum_of(i as nat, f), y, p);
                        }
                    }
                }
            }
            i += 1;
        }
        proof {
            let cv = vals(c@);
            lemma_vals_canonical(c@);
            assert(cv.take(row_len as int) =~= mv);
            assert forall|j: int| 0 <= j < cv.len() - row_len implies cong(
                p,
                #[trigger] cv[row_len + j],
                parity(m, cv, j, m.row.len()),
            ) by {
                lemma_cong_mod(p, parity(m, cv, j, count as nat));
            }
            assert(is_codeword_of(p, m, row_len as nat, n as nat, mv, cv));
            let d = codeword_of(p, m, row_len as nat, n as nat, mv);
            law_codeword_unique(p, m, row_len as nat, n as nat, mv, cv, d);
        }
        c
    }
}

/// A message has one codeword.
pub proof fn law_codeword_unique(
    p: int,
    m: Matrix,
    row_len: nat,
    codeword_len: nat,
    msg: Seq<int>,
    a: Seq<int>,
    b: Seq<int>,
)
    requires
        p > 0,
        triangular(m, row_len, codeword_len),
        is_codeword_of(p, m, row_len, codeword_len, msg, a),
        is_codeword_of(p, m, row_len, codeword_len, msg, b),
    ensures
        a == b,
{
    lemma_codeword_prefix(p, m, row_len, codeword_len, msg, a, b, codeword_len);
    assert(a =~= b);
}

proof fn lemma_codeword_prefix(
    p: int,
    m: Matrix,
    row_len: nat,
    codeword_len: nat,
    msg: Seq<int>,
    a: Seq<int>,
    b: Seq<int>,
    k: nat,
)
    requires
        p > 0,
        triangular(m, row_len, codeword_len),
        is_codeword_of(p, m, row_len, codeword_len, msg, a),
        is_codeword_of(p, m, row_len, codeword_len, msg, b),
        k <= codeword_len,
    ensures
        forall|i: int| 0 <= i < k ==> a[i] == b[i],
    decreases k,
{
    if k > 0 {
        let i = k - 1;
        lemma_codeword_prefix(p, m, row_len, codeword_len, msg, a, b, i as nat);
        if i < row_len {
            assert(a.take(row_len as int)[i] == b.take(row_len as int)[i]);
        } else {
            let j = i - row_len;
            let f = |x: int| contribution(m, a, j, x);
            let g = |x: int| contribution(m, b, j, x);
            assert forall|x: int| 0 <= x < m.row.len() implies #[trigger] f(x) == g(x) by {
                if m.col[x] == j {
                    assert(0 <= m.row[x] < row_len + m.col[x]);
                }
            }
            lemma_sum_ext(m.row.len(), f, g);
            assert(cong(p, a[row_len + j], parity(m, a, j, m.row.len())));
            assert(cong(p, b[row_len + j], parity(m, b, j, m.row.len())));
            assert(0 <= a[i] < p && 0 <= b[i] < p);
            lemma_canonical_unique(p, a[i], b[i]);
        }
    }
}

/// The code is linear: a weighted sum of words of the code is in the code.
pub proof fn law_code_linear(
    p: int,
    m: Matrix,
    row_len: nat,
    n: nat,
    x: Seq<int>,
    rows: Seq<Seq<int>>,
    c: Seq<int>,
)
    requires
        p > 0,
        triangular(m, row_len, n),
        c.len() == n,
        forall|i: int| 0 <= i < rows.len() ==> (#[trigger] rows[i]).len() == n && in_code(
            p,
            m,
            row_len,
            rows[i],
        ),
        forall|j: int|
            0 <= j < n ==> cong(p, #[trigger] c[j], sum_of(rows.len(), |i: int| x[i] * rows[i][j])),
    ensures
        in_code(p, m, row_len, c),
{
    let count = rows.len();
    let entries = m.row.len();
    assert forall|j: int| 0 <= j < c.len() - row_len implies cong(
        p,
        #[trigger] c[row_len + j],
        parity(m, c, j, entries),
    ) by {
        let k = row_len + j;
        // row by row
        let f = |i: int, e: int| x[i] * contribution(m, rows[i], j, e);
        let a = |i: int| x[i] * rows[i][k];
        let b = |i: int| sum_of(entries, |e: int| f(i, e));
        assert forall|i: int| 0 <= i < count implies cong(p, #[trigger] a(i), b(i)) by {
            assert(rows[i].len() == n && in_code(p, m, row_len, rows[i]));
            assert(cong(p, rows[i][row_len + j], parity(m, rows[i], j, entries)));
            lemma_cong_mul(p, x[i], x[i], rows[i][k], parity(m, rows[i], j, entries));
            let d = |e: int| contribution(m, rows[i], j, e);
            lemma_sum_factor(entries, x[i], d);
            lemma_sum_ext(entries, |e: int| x[i] * d(e), |e: int| f(i, e));
        }
        lemma_sum_of_cong(p, count, a, b);
        crate::sums::lemma_sum_exchange(count, entries, f);
        // entry by entry
        let g = |e: int| sum_of(count, |i: int| f(i, e));
        let h = |e: int| contribution(m, c, j, e);
        assert forall|e: int| 0 <= e < entries implies cong(p, #[trigger] g(e), h(e)) by {
            let r = m.row[e];
            assert(0 <= m.row[e] < row_len + m.col[e]);
            let fe = |i: int| f(i, e);
            if m.col[e] == j {
                let v = m.val[e];
                let s = |i: int| x[i] * rows[i][r];
                let vs = |i: int| v * s(i);
                lemma_sum_factor(count, v, s);
                assert forall|i: int| 0 <= i < count implies #[trigger] fe(i) == vs(i) by {
                    let (y, z) = (x[i], rows[i][r]);
                    assert(y * (v * z) == v * (y * z)) by (nonlinear_arith);
                }
                lemma_sum_ext(count, fe, vs);
                assert(cong(p, c[r], sum_of(count, |i: int| x[i] * rows[i][r])));
                lemma_cong_mul(p, v, v, c[r], sum_of(count, s));
            } else {
                let z = |i: int| 0int;
                assert forall|i: int| 0 <= i < count implies #[trigger] fe(i) == z(i) by {
                    let y = x[i];
                    assert(y * 0 == 0) by (nonlinear_arith);
                }
                lemma_sum_ext(count, fe, z);
                crate::sums::lemma_sum_zero(Seq::new(count, z));
            }
        }
        lemma_sum_of_cong(p, entries, g, h);
        assert(cong(p, c[k], sum_of(count, |i: int| x[i] * rows[i][k])));
    }
}

/// Parities look only at the entries before them.
proof fn lemma_parity_prefix(m: Matrix, row_len: nat, codeword_len: nat, a: Seq<int>, b: Seq<int>, j: int)
    requires
        triangular(m, row_len, codeword_len),
        forall|i: int| 0 <= i < row_len + j ==> a[i] == b[i],
    ensures
        parity(m, a, j, m.row.len()) == parity(m, b, j, m.row.len()),
{
    let f = |i: int| contribution(m, a, j, i);
    let g = |i: int| contribution(m, b, j, i);
    assert forall|i: int| 0 <= i < m.row.len() implies #[trigger] f(i) == g(i) by {
        assert(0 <= m.row[i] < row_len + m.col[i]);
    }
    lemma_sum_ext(m.row.len(), f, g);
}

/// The first `k` entries behind a message can be filled in.
proof fn lemma_codeword_upto(
    p: int,
    m: Matrix,
    row_len: nat,
    codeword_len: nat,
    msg: Seq<int>,
    k: nat,
) -> (c: Seq<int>)
    requires
        p > 0,
        triangular(m, row_len, codeword_len),
        msg.len() == row_len,
        canonical(p, msg),
        row_len + k <= codeword_len,
    ensures
        c.len() == row_len + k,
        canonical(p, c),
        c.take(row_len as int) == msg,
        in_code(p, m, row_len, c),
    decreases k,
{
    if k == 0 {
        assert(msg.take(row_len as int) =~= msg);
        msg
    } else {
        let b = lemma_codeword_upto(p, m, row_len, codeword_len, msg, (k - 1) as nat);
        let x = parity(m, b, k - 1, m.row.len());
        let c = b.push(x % p);
        lemma_mod_canonical(p, x);
        lemma_cong_mod(p, x);
        assert(c.take(row_len as int) =~= b.take(row_len as int));
        assert forall|j: int| 0 <= j < c.len() - row_len implies cong(
            p,
            #[trigger] c[row_len + j],
            parity(m, c, j, m.row.len()),
        ) by {
            lemma_parity_prefix(m, row_len, codeword_len, b, c, j);
            if j < k - 1 {
                assert(c[row_len + j] == b[row_len + j]);
            }
        }
        c
    }
}

/// Every message has a codeword.
pub proof fn law_codeword_exists(p: int, m: Matrix, row_len: nat, codeword_len: nat, msg: Seq<int>)
    requires
        p > 0,
        triangular(m, row_len, codeword_len),
        msg.len() == row_len,
        canonical(p, msg),
    ensures
        is_codeword_of(
            p,
            m,
            row_len,
            codeword_len,
            msg,
            codeword_of(p, m, row_len, codeword_len, msg),
        ),
{
    let c = lemma_codeword_upto(p, m, row_len, codeword_len, msg, (codeword_len - row_len) as nat);
    assert(is_codeword_of(p, m, row_len, codeword_len, msg, c));
}

} // verus!
