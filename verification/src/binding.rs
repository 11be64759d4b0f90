//! What is hashed determines what was hashed: two inputs with one digest are equal, or two messages
//! that were hashed on the way collide.
use vstd::prelude::*;
use crate::algebra::{canonical, lemma_two_to_positive, two_to};
use crate::basefold_batch::codeword_root;
use crate::bits::{ceil_log2, lemma_ceil_log2, lemma_log2_two_to};
use crate::brakingbase::{Scheme, column_leaves, committed_rows, message_row, root_of, scheme_fits};
use crate::brakingbase_open::batch_root;
use crate::code::law_codeword_exists;
use crate::field::{PrimeField, byte_bound, le_bytes, le_value};
use crate::hash::{HashFunction, Output, digest_elements, digest_pair, element_bytes};
use crate::merkle::{
    ancestor, climb, column, column_digests, lemma_tree_level_len, level_above, pair_digests,
    path_holds, tree_level,
};
use crate::sums::sum_of;
use crate::transcript::{Event, ProofItem, hash_oracle, item_events, sponge};

verus! {

/// Two messages with the same digest.
pub open spec fn collide<H: HashFunction>(a: Seq<u8>, b: Seq<u8>) -> bool {
    &&& a != b
    &&& H::digest(a) == H::digest(b)
}

/// The bytes of a number are as many as are asked for.
pub proof fn lemma_le_bytes_len(v: nat, n: nat)
    ensures
        le_bytes(v, n).len() == n,
    decreases n,
{
    if n > 0 {
        lemma_le_bytes_len(v / 256, (n - 1) as nat);
    }
}

/// A number that fits is the one that its bytes stand for.
pub proof fn law_bytes_value(v: nat, n: nat)
    requires
        v < byte_bound(n),
    ensures
        le_bytes(v, n).len() == n,
        le_value(le_bytes(v, n)) == v,
    decreases n,
{
    if n > 0 {
        law_bytes_value(v / 256, (n - 1) as nat);
        let s = le_bytes(v, n);
        assert(s.skip(1) =~= le_bytes(v / 256, (n - 1) as nat));
        assert(s[0] == (v % 256) as u8);
    }
}

/// The bytes of elements: as many for each as the width says, those of every element at its place.
pub proof fn law_bytes_layout(v: Seq<int>, width: nat)
    ensures
        element_bytes(v, width).len() == v.len() * width,
        forall|i: int|
            0 <= i < v.len() ==> element_bytes(v, width).subrange(i * width, i * width + width)
                == le_bytes(#[trigger] v[i] as nat, width),
    decreases v.len(),
{
    let b = element_bytes(v, width);
    if v.len() > 0 {
        let u = v.drop_last();
        law_bytes_layout(u, width);
        lemma_le_bytes_len(v.last() as nat, width);
        let m = u.len();
        assert((m + 1) * width == m * width + width) by (nonlinear_arith);
        assert forall|i: int| 0 <= i < v.len() implies b.subrange(i * width, i * width + width)
            == le_bytes(#[trigger] v[i] as nat, width) by {
            if i < m {
                assert(u[i] == v[i]);
                assert(0 <= i * width && i * width + width <= m * width) by (nonlinear_arith)
                    requires
                        0 <= i < m,
                        width >= 0,
                ;
                assert(b.subrange(i * width, i * width + width) =~= element_bytes(u, width).subrange(
                    i * width,
                    i * width + width,
                ));
            } else {
                assert(b.subrange(i * width, i * width + width) =~= le_bytes(
                    v.last() as nat,
                    width,
                ));
            }
        }
    } else {
        assert(0 * width == 0) by (nonlinear_arith);
    }
}

/// Reduced elements with the same bytes are the same elements, and as many.
pub proof fn law_bytes_determine<F: PrimeField>(v: Seq<int>, w: Seq<int>)
    requires
        canonical(F::modulus(), v),
        canonical(F::modulus(), w),
        element_bytes(v, F::repr_len()) == element_bytes(w, F::repr_len()),
    ensures
        v == w,
{
    let n = F::repr_len();
    F::lemma_modulus();
    law_bytes_layout(v, n);
    law_bytes_layout(w, n);
    assert(v.len() == w.len()) by (nonlinear_arith)
        requires
            v.len() * n == w.len() * n,
            n >= 4,
    ;
    assert forall|i: int| 0 <= i < v.len() implies v[i] == w[i] by {
        assert(le_bytes(v[i] as nat, n) == le_bytes(w[i] as nat, n));
        assert(0 <= v[i] < F::modulus());
        assert(0 <= w[i] < F::modulus());
        law_bytes_value(v[i] as nat, n);
        law_bytes_value(w[i] as nat, n);
    }
    assert(v =~= w);
}

/// The digest of elements binds to all of them.
pub proof fn law_elements_binding<F: PrimeField, H: HashFunction>(v: Seq<int>, w: Seq<int>)
    requires
        canonical(F::modulus(), v),
        canonical(F::modulus(), w),
        digest_elements::<F, H>(v) == digest_elements::<F, H>(w),
    ensures
        v == w || collide::<H>(
            element_bytes(v, F::repr_len()),
            element_bytes(w, F::repr_len()),
        ),
{
    if element_bytes(v, F::repr_len()) == element_bytes(w, F::repr_len()) {
        law_bytes_determine::<F>(v, w);
    }
}

/// Two digests that stand one after the other can be told apart.
pub proof fn lemma_halves(a: Output, b: Output, c: Output, d: Output)
    requires
        a@ + b@ == c@ + d@,
    ensures
        a == c,
        b == d,
{
    assert(a@.len() == 32 && b@.len() == 32 && c@.len() == 32 && d@.len() == 32);
    let s = a@ + b@;
    let t = c@ + d@;
    assert forall|i: int| 0 <= i < 32 implies a@[i] == c@[i] by {
        assert(s[i] == t[i]);
    }
    assert forall|i: int| 0 <= i < 32 implies b@[i] == d@[i] by {
        assert(s[32 + i] == t[32 + i]);
    }
    assert(a@ =~= c@ && b@ =~= d@);
    assert(a =~= c);
    assert(b =~= d);
}

/// The digest of two digests binds to both, and to their order.
pub proof fn law_pair_binding<H: HashFunction>(a: Output, b: Output, c: Output, d: Output)
    requires
        digest_pair::<H>(a, b) == digest_pair::<H>(c, d),
    ensures
        (a == c && b == d) || collide::<H>(a@ + b@, c@ + d@),
{
    if a@ + b@ == c@ + d@ {
        lemma_halves(a, b, c, d);
    }
}

/// The ancestor `k` levels up has the index without its `k` lowest bits.
pub proof fn law_ancestor(q: int, k: nat)
    requires
        q >= 0,
    ensures
        ancestor(q, k) == q / (two_to(k) as int),
    decreases k,
{
    lemma_two_to_positive(k);
    if k > 0 {
        law_ancestor(q, (k - 1) as nat);
        lemma_two_to_positive((k - 1) as nat);
        let t = two_to((k - 1) as nat) as int;
        vstd::arithmetic::div_mod::lemma_div_denominator(q, t, 2);
        assert(t * 2 == two_to(k));
    } else {
        assert(two_to(0) == 1);
        assert(q / 1 == q);
    }
}

/// What is hashed in step `i` of the way from the node `q` up along a path.
pub open spec fn step_bytes<H: HashFunction>(leaf: Output, q: int, path: Seq<Output>, i: int) -> Seq<u8> {
    let below = climb::<H>(leaf, q, path, i as nat);
    if (q / (two_to(i as nat) as int)) % 2 == 0 {
        below@ + path[i]@
    } else {
        path[i]@ + below@
    }
}

/// Two ways of `k` steps hash different messages to one digest in one of the steps.
pub open spec fn steps_collide<H: HashFunction>(
    a: Output,
    b: Output,
    q: int,
    x: Seq<Output>,
    y: Seq<Output>,
    k: nat,
) -> bool {
    exists|i: int|
        0 <= i < k && #[trigger] collide::<H>(
            step_bytes::<H>(a, q, x, i),
            step_bytes::<H>(b, q, y, i),
        )
}

/// Two ways from one node to one digest start from the same leaf and go along the same siblings.
pub proof fn law_climb_binding<H: HashFunction>(
    a: Output,
    b: Output,
    q: int,
    x: Seq<Output>,
    y: Seq<Output>,
    k: nat,
)
    requires
        q >= 0,
        climb::<H>(a, q, x, k) == climb::<H>(b, q, y, k),
    ensures
        (a == b && (forall|i: int| 0 <= i < k ==> #[trigger] x[i] == y[i])) || steps_collide::<H>(
            a,
            b,
            q,
            x,
            y,
            k,
        ),
    decreases k,
{
    if k > 0 {
        let j = k - 1;
        law_ancestor(q, j as nat);
        let (c, d) = (climb::<H>(a, q, x, j as nat), climb::<H>(b, q, y, j as nat));
        if !collide::<H>(step_bytes::<H>(a, q, x, j), step_bytes::<H>(b, q, y, j)) {
            if ancestor(q, j as nat) % 2 == 0 {
                lemma_halves(c, x[j], d, y[j]);
            } else {
                lemma_halves(x[j], c, y[j], d);
            }
            law_climb_binding::<H>(a, b, q, x, y, j as nat);
            if steps_collide::<H>(a, b, q, x, y, j as nat) {
                let i = choose|i: int|
                    0 <= i < j && #[trigger] collide::<H>(
                        step_bytes::<H>(a, q, x, i),
                        step_bytes::<H>(b, q, y, i),
                    );
                assert(collide::<H>(step_bytes::<H>(a, q, x, i), step_bytes::<H>(b, q, y, i)));
            }
        }
    }
}

/// The path that is sent for a leaf binds to it: two leaves with paths of one length from one place
/// to one root are the same.
pub proof fn law_path_binding<H: HashFunction>(
    a: Output,
    b: Output,
    q: int,
    x: Seq<Output>,
    y: Seq<Output>,
    root: Output,
)
    requires
        q >= 0,
        x.len() == y.len(),
        x.len() >= 1,
        path_holds::<H>(a, q, x, root),
        path_holds::<H>(b, q, y, root),
    ensures
        (a == b && x == y) || steps_collide::<H>(a, b, q, x, y, (x.len() - 1) as nat),
{
    law_climb_binding::<H>(a, b, q, x, y, (x.len() - 1) as nat);
    if a == b && forall|i: int| 0 <= i < x.len() - 1 ==> #[trigger] x[i] == y[i] {
        assert(x =~= y);
    }
}

/// What is hashed for the node `i` of the level above the level `k` of a tree.
pub open spec fn node_bytes<H: HashFunction>(l: Seq<Output>, k: int, i: int) -> Seq<u8> {
    tree_level::<H>(l, k as nat)[2 * i]@ + tree_level::<H>(l, k as nat)[2 * i + 1]@
}

/// Two trees of height `n` hash different messages to one digest for one of their nodes.
pub open spec fn nodes_collide<H: HashFunction>(a: Seq<Output>, b: Seq<Output>, n: nat) -> bool {
    exists|k: int, i: int|
        0 <= k < n && 0 <= i < two_to((n - k - 1) as nat) && #[trigger] collide::<H>(
            node_bytes::<H>(a, k, i),
            node_bytes::<H>(b, k, i),
        )
}

/// Trees of one height with one root have the same leaves.
pub proof fn law_tree_binding<H: HashFunction>(a: Seq<Output>, b: Seq<Output>, n: nat)
    requires
        a.len() == two_to(n),
        b.len() == two_to(n),
        tree_level::<H>(a, n)[0] == tree_level::<H>(b, n)[0],
    ensures
        a == b || nodes_collide::<H>(a, b, n),
{
    if !nodes_collide::<H>(a, b, n) {
        lemma_levels_equal::<H>(a, b, n, 0);
    }
}

proof fn lemma_levels_equal<H: HashFunction>(a: Seq<Output>, b: Seq<Output>, n: nat, k: nat)
    requires
        a.len() == two_to(n),
        b.len() == two_to(n),
        k <= n,
        tree_level::<H>(a, n)[0] == tree_level::<H>(b, n)[0],
        !nodes_collide::<H>(a, b, n),
    ensures
        tree_level::<H>(a, k) == tree_level::<H>(b, k),
    decreases n - k,
{
    let (x, y) = (tree_level::<H>(a, k), tree_level::<H>(b, k));
    lemma_tree_level_len::<H>(a, n, k);
    lemma_tree_level_len::<H>(b, n, k);
    if k == n {
        assert(two_to(0) == 1);
        assert(x =~= y);
    } else {
        lemma_levels_equal::<H>(a, b, n, k + 1);
        let m = two_to((n - k - 1) as nat);
        assert(two_to((n - k) as nat) == 2 * m);
        let (u, w) = (tree_level::<H>(a, k + 1), tree_level::<H>(b, k + 1));
        assert forall|j: int| 0 <= j < 2 * m implies x[j] == y[j] by {
            let i = j / 2;
            assert(u[i] == w[i]);
            assert(u[i] == digest_pair::<H>(x[2 * i], x[2 * i + 1]));
            assert(w[i] == digest_pair::<H>(y[2 * i], y[2 * i + 1]));
            assert(!collide::<H>(node_bytes::<H>(a, k as int, i), node_bytes::<H>(b, k as int, i)));
            law_pair_binding::<H>(x[2 * i], x[2 * i + 1], y[2 * i], y[2 * i + 1]);
        }
        assert(x =~= y);
    }
}

/// Two tables hash different columns to one digest.
pub open spec fn columns_collide<F: PrimeField, H: HashFunction>(
    a: Seq<Seq<int>>,
    b: Seq<Seq<int>>,
    len: nat,
) -> bool {
    exists|j: int|
        0 <= j < len && #[trigger] collide::<H>(
            element_bytes(column(a, j), F::repr_len()),
            element_bytes(column(b, j), F::repr_len()),
        )
}

/// A table of `n` rows of `len` reduced entries.
pub open spec fn table_of(p: int, rows: Seq<Seq<int>>, n: nat, len: nat) -> bool {
    &&& rows.len() == n
    &&& forall|i: int|
        0 <= i < n ==> (#[trigger] rows[i]).len() == len && canonical(p, rows[i])
}

/// The root over the columns of a table binds to every entry of every row.
pub proof fn law_table_binding<F: PrimeField, H: HashFunction>(
    a: Seq<Seq<int>>,
    b: Seq<Seq<int>>,
    n: nat,
    len: nat,
)
    requires
        table_of(F::modulus(), a, n, len),
        table_of(F::modulus(), b, n, len),
        tree_level::<H>(column_leaves::<F, H>(a, len), ceil_log2(len))[0] == tree_level::<H>(
            column_leaves::<F, H>(b, len),
            ceil_log2(len),
        )[0],
    ensures
        a == b || columns_collide::<F, H>(a, b, len) || nodes_collide::<H>(
            column_leaves::<F, H>(a, len),
            column_leaves::<F, H>(b, len),
            ceil_log2(len),
        ),
{
    let p = F::modulus();
    let (x, y) = (column_leaves::<F, H>(a, len), column_leaves::<F, H>(b, len));
    let d = ceil_log2(len);
    if !columns_collide::<F, H>(a, b, len) && !nodes_collide::<H>(x, y, d) {
        law_tree_binding::<H>(x, y, d);
        lemma_ceil_log2(len);
        assert forall|i: int, j: int| 0 <= i < n && 0 <= j < len implies a[i][j] == b[i][j] by {
            let (u, v) = (column(a, j), column(b, j));
            assert(x[j] == y[j]);
            assert forall|k: int| 0 <= k < u.len() implies 0 <= #[trigger] u[k] < p by {
                assert(a[k].len() == len && canonical(p, a[k]));
            }
            assert forall|k: int| 0 <= k < v.len() implies 0 <= #[trigger] v[k] < p by {
                assert(b[k].len() == len && canonical(p, b[k]));
            }
            law_elements_binding::<F, H>(u, v);
            assert(!collide::<H>(
                element_bytes(column(a, j), F::repr_len()),
                element_bytes(column(b, j), F::repr_len()),
            ));
            assert(u[i] == v[i]);
        }
        assert forall|i: int| 0 <= i < n implies a[i] == b[i] by {
            assert(a[i].len() == len && b[i].len() == len);
            assert(a[i] =~= b[i]);
        }
        assert(a =~= b);
    }
}

/// The value `k` of a polynomial, or zero past the last one.
pub open spec fn value_or_zero(evals: Seq<int>, k: int) -> int {
    if k < evals.len() {
        evals[k]
    } else {
        0
    }
}

/// The encoded rows of a polynomial begin with its values, row by row, and are reduced.
pub proof fn law_rows_systematic(p: int, s: Scheme, evals: Seq<int>)
    requires
        p > 0,
        scheme_fits(s),
        canonical(p, evals),
    ensures
        table_of(p, committed_rows(p, s, evals), s.num_rows, s.codeword_len),
        forall|i: int, j: int|
            0 <= i < s.num_rows && 0 <= j < s.row_len ==> #[trigger] committed_rows(p, s, evals)[i][j]
                == value_or_zero(evals, i * s.row_len + j),
{
    let rows = committed_rows(p, s, evals);
    assert forall|i: int| 0 <= i < s.num_rows implies {
        &&& (#[trigger] rows[i]).len() == s.codeword_len
        &&& canonical(p, rows[i])
        &&& rows[i].take(s.row_len as int) == message_row(evals, s.row_len, i)
    } by {
        let m = message_row(evals, s.row_len, i);
        assert forall|j: int| 0 <= j < m.len() implies 0 <= #[trigger] m[j] < p by {
            if i * s.row_len + j < evals.len() {
                lemma_place(i, j, s.num_rows, s.row_len);
                assert(0 <= evals[i * s.row_len + j] < p);
            }
        }
        law_codeword_exists(p, s.matrix, s.row_len, s.codeword_len, m);
    }
    assert forall|i: int, j: int| 0 <= i < s.num_rows && 0 <= j < s.row_len implies #[trigger] rows[i][j]
        == value_or_zero(evals, i * s.row_len + j) by {
        lemma_place(i, j, s.num_rows, s.row_len);
        assert(rows[i].take(s.row_len as int)[j] == message_row(evals, s.row_len, i)[j]);
    }
}

proof fn lemma_place(i: int, j: int, n: nat, len: nat)
    requires
        0 <= i < n,
        0 <= j < len,
    ensures
        0 <= i * len + j < n * len,
{
    assert(0 <= i * len + j < n * len) by (nonlinear_arith)
        requires
            0 <= i < n,
            0 <= j < len,
    ;
}

/// Two messages that are hashed for the commitments to two polynomials collide.
pub open spec fn commitments_collide<F: PrimeField, H: HashFunction>(
    s: Scheme,
    f: Seq<int>,
    g: Seq<int>,
) -> bool {
    let a = committed_rows(F::modulus(), s, f);
    let b = committed_rows(F::modulus(), s, g);
    columns_collide::<F, H>(a, b, s.codeword_len) || nodes_collide::<H>(
        column_leaves::<F, H>(a, s.codeword_len),
        column_leaves::<F, H>(b, s.codeword_len),
        ceil_log2(s.codeword_len),
    )
}

/// A commitment binds to the polynomial: two polynomials with one root are equal, or two messages
/// that were hashed for them collide.
pub proof fn law_commitment_binding<F: PrimeField, H: HashFunction>(s: Scheme, f: Seq<int>, g: Seq<int>)
    requires
        scheme_fits(s),
        f.len() == g.len(),
        f.len() <= two_to(s.num_vars),
        canonical(F::modulus(), f),
        canonical(F::modulus(), g),
        root_of::<F, H>(F::modulus(), s, f) == root_of::<F, H>(F::modulus(), s, g),
    ensures
        f == g || commitments_collide::<F, H>(s, f, g),
{
    let p = F::modulus();
    F::lemma_modulus();
    let (a, b) = (committed_rows(p, s, f), committed_rows(p, s, g));
    law_rows_systematic(p, s, f);
    law_rows_systematic(p, s, g);
    law_table_binding::<F, H>(a, b, s.num_rows, s.codeword_len);
    if a == b {
        assert forall|k: int| 0 <= k < f.len() implies f[k] == g[k] by {
            let len = s.row_len as int;
            let (i, j) = (k / len, k % len);
            vstd::arithmetic::div_mod::lemma_fundamental_div_mod(k, len);
            assert(0 <= j < len);
            assert(i * len == len * i) by (nonlinear_arith);
            assert(0 <= i < s.num_rows) by (nonlinear_arith)
                requires
                    len > 0,
                    0 <= k < s.num_rows * len,
                    k == len * i + j,
                    0 <= j < len,
            ;
            assert(a[i][j] == b[i][j]);
            assert(a[i][j] == value_or_zero(f, i * s.row_len + j));
            assert(b[i][j] == value_or_zero(g, i * s.row_len + j));
        }
        assert(f =~= g);
    }
}

/// A power of two needs its own exponent.
pub proof fn lemma_ceil_two_to(n: nat)
    ensures
        ceil_log2(two_to(n)) == n,
{
    let c = ceil_log2(two_to(n));
    lemma_ceil_log2(two_to(n));
    lemma_two_to_positive(n);
    if c < n {
        crate::algebra::lemma_two_to_monotone(c, (n - 1) as nat);
        lemma_two_to_positive((n - 1) as nat);
    }
    if c > n {
        crate::algebra::lemma_two_to_monotone(n, (c - 1) as nat);
        if n == 0 {
            assert(two_to(0) == 1);
        }
    }
}

/// The tree over a level that starts one level up.
proof fn lemma_level_shift<H: HashFunction>(l: Seq<Output>, k: nat)
    ensures
        tree_level::<H>(level_above::<H>(l), k) == tree_level::<H>(l, k + 1),
    decreases k,
{
    if k > 0 {
        lemma_level_shift::<H>(l, (k - 1) as nat);
    } else {
        assert(tree_level::<H>(l, 0) == l);
    }
}

/// The root over codewords binds to every entry of each of them.
pub proof fn law_batch_root_binding<F: PrimeField, H: HashFunction>(
    a: Seq<Seq<int>>,
    b: Seq<Seq<int>>,
    m: nat,
    n: nat,
)
    requires
        m >= 1,
        n >= 1,
        table_of(F::modulus(), a, m, two_to(n)),
        table_of(F::modulus(), b, m, two_to(n)),
        batch_root::<F, H>(a) == batch_root::<F, H>(b),
    ensures
        a == b || columns_collide::<F, H>(a, b, two_to(n)) || nodes_collide::<H>(
            column_leaves::<F, H>(a, two_to(n)),
            column_leaves::<F, H>(b, two_to(n)),
            n,
        ),
{
    lemma_batch_root::<F, H>(a, n);
    lemma_batch_root::<F, H>(b, n);
    lemma_ceil_two_to(n);
    law_table_binding::<F, H>(a, b, m, two_to(n));
}

proof fn lemma_batch_root<F: PrimeField, H: HashFunction>(a: Seq<Seq<int>>, n: nat)
    requires
        n >= 1,
        a.len() >= 1,
        a[0].len() == two_to(n),
    ensures
        batch_root::<F, H>(a) == tree_level::<H>(column_leaves::<F, H>(a, two_to(n)), n)[0],
{
    lemma_log2_two_to(n);
    lemma_ceil_two_to(n);
    assert(column_digests::<F, H>(a) =~= column_leaves::<F, H>(a, two_to(n)));
    lemma_level_shift::<H>(column_digests::<F, H>(a), (n - 1) as nat);
}

/// The bytes of the pair `i` of entries.
pub open spec fn pair_bytes<F: PrimeField>(a: Seq<int>, i: int) -> Seq<u8> {
    element_bytes(seq![a[2 * i], a[2 * i + 1]], F::repr_len())
}

/// Two codewords hash different pairs of entries to one digest.
pub open spec fn pairs_collide<F: PrimeField, H: HashFunction>(a: Seq<int>, b: Seq<int>) -> bool {
    exists|i: int|
        0 <= i < a.len() / 2 && #[trigger] collide::<H>(
            pair_bytes::<F>(a, i),
            pair_bytes::<F>(b, i),
        )
}

/// The root over a folded codeword binds to every entry.
pub proof fn law_codeword_root_binding<F: PrimeField, H: HashFunction>(a: Seq<int>, b: Seq<int>, n: nat)
    requires
        n >= 1,
        a.len() == two_to(n),
        b.len() == two_to(n),
        canonical(F::modulus(), a),
        canonical(F::modulus(), b),
        codeword_root::<F, H>(a) == codeword_root::<F, H>(b),
    ensures
        a == b || pairs_collide::<F, H>(a, b) || nodes_collide::<H>(
            pair_digests::<F, H>(a),
            pair_digests::<F, H>(b),
            (n - 1) as nat,
        ),
{
    let m = (n - 1) as nat;
    assert(two_to(n) == 2 * two_to(m));
    lemma_log2_two_to(n);
    let (x, y) = (pair_digests::<F, H>(a), pair_digests::<F, H>(b));
    if !pairs_collide::<F, H>(a, b) && !nodes_collide::<H>(x, y, m) {
        law_tree_binding::<H>(x, y, m);
        assert forall|j: int| 0 <= j < a.len() implies a[j] == b[j] by {
            let i = j / 2;
            let (u, v) = (seq![a[2 * i], a[2 * i + 1]], seq![b[2 * i], b[2 * i + 1]]);
            assert(x[i] == y[i]);
            assert(!collide::<H>(
                pair_bytes::<F>(a, i),
                pair_bytes::<F>(b, i),
            ));
            law_elements_binding::<F, H>(u, v);
            assert(u[0] == v[0] && u[1] == v[1]);
        }
        assert(a =~= b);
    }
}

/// Histories of steps of the same kinds, in the same order.
pub open spec fn same_kinds(g: Seq<Event>, h: Seq<Event>) -> bool {
    &&& g.len() == h.len()
    &&& forall|i: int|
        0 <= i < g.len() ==> ((#[trigger] g[i] is Element) == (h[i] is Element) && (g[i] is Challenge)
            == (h[i] is Challenge))
}

/// All elements that were sent are reduced.
pub open spec fn reduced_events(p: int, h: Seq<Event>) -> bool {
    forall|i: int| 0 <= i < h.len() && #[trigger] h[i] is Element ==> 0 <= h[i]->Element_0 < p
}

/// What is hashed for the next challenge binds to the whole history: every element and every digest
/// that was sent changes it.
pub proof fn law_history_binding<F: PrimeField, H: HashFunction>(g: Seq<Event>, h: Seq<Event>)
    requires
        same_kinds(g, h),
        reduced_events(F::modulus(), g),
        reduced_events(F::modulus(), h),
        sponge::<F, H>(g) == sponge::<F, H>(h),
    ensures
        g == h || exists|i: int|
            0 <= i < g.len() && #[trigger] g[i] is Challenge && collide::<H>(
                sponge::<F, H>(g.take(i)),
                sponge::<F, H>(h.take(i)),
            ),
    decreases g.len(),
{
    if g.len() > 0 {
        let n = g.len() - 1;
        let (a, b) = (g.drop_last(), h.drop_last());
        let (x, y) = (sponge::<F, H>(a), sponge::<F, H>(b));
        assert(a =~= g.take(n) && b =~= h.take(n));
        let (u, v) = (g[n], h[n]);
        assert((u is Element) == (v is Element) && (u is Challenge) == (v is Challenge));
        assert forall|i: int| 0 <= i < a.len() implies ((#[trigger] a[i] is Element) == (b[i] is Element)
            && (a[i] is Challenge) == (b[i] is Challenge)) by {
            assert(g[i] == a[i] && h[i] == b[i]);
        }
        assert forall|i: int| 0 <= i < a.len() && #[trigger] a[i] is Element implies 0
            <= a[i]->Element_0 < F::modulus() by {
            assert(g[i] == a[i]);
        }
        assert forall|i: int| 0 <= i < b.len() && #[trigger] b[i] is Element implies 0
            <= b[i]->Element_0 < F::modulus() by {
            assert(h[i] == b[i]);
        }
        let stop = u is Challenge && collide::<H>(x, y);
        if !stop {
            assert(x == y && u == v) by {
                F::lemma_modulus();
                match u {
                    Event::Element(c) => {
                        let d = v->Element_0;
                        let k = F::repr_len();
                        lemma_le_bytes_len(c as nat, k);
                        lemma_le_bytes_len(d as nat, k);
                        lemma_same_tail(x, le_bytes(c as nat, k), y, le_bytes(d as nat, k));
                        law_bytes_value(c as nat, k);
                        law_bytes_value(d as nat, k);
                    },
                    Event::Commitment(c) => {
                        let d = v->Commitment_0;
                        lemma_same_tail(x, c@, y, d@);
                        assert(c =~= d);
                    },
                    Event::Challenge => {
                        let (c, d) = (H::digest(x), H::digest(y));
                        assert(c@ == d@);
                        assert(c =~= d);
                    },
                }
            }
            law_history_binding::<F, H>(a, b);
            if a == b {
                assert forall|i: int| 0 <= i < g.len() implies g[i] == h[i] by {
                    if i < n {
                        assert(a[i] == b[i]);
                    }
                }
                assert(g =~= h);
            } else {
                let i = choose|i: int|
                    0 <= i < a.len() && #[trigger] a[i] is Challenge && collide::<H>(
                        sponge::<F, H>(a.take(i)),
                        sponge::<F, H>(b.take(i)),
                    );
                assert(a.take(i) =~= g.take(i) && b.take(i) =~= h.take(i));
                assert(g[i] is Challenge);
            }
        } else {
            assert(g[n] is Challenge);
        }
    }
}

/// Concatenations with ends of one length can be told apart.
proof fn lemma_same_tail(x: Seq<u8>, c: Seq<u8>, y: Seq<u8>, d: Seq<u8>)
    requires
        x + c == y + d,
        c.len() == d.len(),
    ensures
        x == y,
        c == d,
{
    let (s, t) = (x + c, y + d);
    assert(s.len() == x.len() + c.len() && t.len() == y.len() + d.len());
    assert(x.len() == y.len());
    assert forall|i: int| 0 <= i < x.len() implies x[i] == y[i] by {
        assert(s[i] == t[i]);
    }
    assert forall|i: int| 0 <= i < c.len() implies c[i] == d[i] by {
        assert(s[x.len() + i] == t[x.len() + i]);
    }
    assert(x =~= y && c =~= d);
}

/// The number that bytes stand for is the sum of the bytes, each times the value of its place.
pub proof fn law_bytes_sum(s: Seq<u8>)
    ensures
        le_value(s) == sum_of(s.len(), |i: int| s[i] as int * byte_bound(i as nat)),
        le_value(s) < byte_bound(s.len()),
    decreases s.len(),
{
    let f = |i: int| s[i] as int * byte_bound(i as nat);
    if s.len() > 0 {
        let t = s.skip(1);
        let g = |i: int| t[i] as int * byte_bound(i as nat);
        law_bytes_sum(t);
        assert forall|i: int| 0 <= i < t.len() implies #[trigger] f(i + 1) == 256 * g(i) by {
            let (x, b) = (t[i] as int, byte_bound(i as nat) as int);
            assert(s[i + 1] == t[i]);
            assert(byte_bound((i + 1) as nat) == 256 * b);
            assert(x * (256 * b) == 256 * (x * b)) by (nonlinear_arith);
        }
        lemma_sum_shift(t.len(), f, g);
        assert(f(0) == s[0]) by {
            assert(s[0] as int * 1 == s[0]);
        }
    } else {
        crate::sums::lemma_sum_step(0, f);
    }
}

proof fn lemma_sum_shift(n: nat, f: spec_fn(int) -> int, g: spec_fn(int) -> int)
    requires
        forall|i: int| 0 <= i < n ==> #[trigger] f(i + 1) == 256 * g(i),
    ensures
        sum_of(n + 1, f) == f(0) + 256 * sum_of(n, g),
    decreases n,
{
    crate::sums::lemma_sum_step(n, f);
    if n > 0 {
        lemma_sum_shift((n - 1) as nat, f, g);
        crate::sums::lemma_sum_step((n - 1) as nat, g);
        assert(f((n - 1) + 1) == 256 * g(n - 1));
    } else {
        crate::sums::lemma_sum_step(0, f);
        crate::sums::lemma_sum_step(0, g);
    }
}

/// A challenge is the whole digest of the bytes of the history, as a number, reduced.
pub proof fn law_challenge_value<F: PrimeField, H: HashFunction>(h: Seq<Event>)
    ensures
        ({
            let d = H::digest(sponge::<F, H>(h));
            hash_oracle::<F, H>()(h) == sum_of(32, |i: int| d[i] as int * byte_bound(i as nat))
                % F::modulus()
        }),
{
    let d = H::digest(sponge::<F, H>(h));
    law_bytes_sum(d@);
    crate::sums::lemma_sum_ext(
        32,
        |i: int| d@[i] as int * byte_bound(i as nat),
        |i: int| d[i] as int * byte_bound(i as nat),
    );
}

/// Elements that enter the history add the same bytes to what is hashed next as are hashed for them
/// on their own.
pub proof fn law_history_elements<F: PrimeField, H: HashFunction>(h: Seq<Event>, v: Seq<int>)
    ensures
        sponge::<F, H>(h + Seq::new(v.len(), |i: int| Event::Element(v[i]))) == sponge::<F, H>(h)
            + element_bytes(v, F::repr_len()),
    decreases v.len(),
{
    let e = Seq::new(v.len(), |i: int| Event::Element(v[i]));
    let b = sponge::<F, H>(h);
    if v.len() == 0 {
        assert(h + e =~= h);
        assert(b + element_bytes(v, F::repr_len()) =~= b);
    } else {
        let u = v.drop_last();
        let d = Seq::new(u.len(), |i: int| Event::Element(u[i]));
        law_history_elements::<F, H>(h, u);
        assert((h + e).drop_last() =~= h + d);
        assert((h + e).last() == Event::Element(v.last()));
        assert(b + element_bytes(v, F::repr_len()) =~= (b + element_bytes(u, F::repr_len()))
            + le_bytes(v.last() as nat, F::repr_len()));
    }
}

/// Digests that enter the history add their bytes to what is hashed next, two of them those that are
/// hashed for a pair; and what is hashed after a challenge starts with the digest it was drawn from.
pub proof fn law_history_digests<F: PrimeField, H: HashFunction>(h: Seq<Event>, a: Output, b: Output)
    ensures
        H::digest(
            sponge::<F, H>(
                h.push(Event::Challenge).push(Event::Commitment(a)),
            ),
        ) == digest_pair::<H>(H::digest(sponge::<F, H>(h)), a),
        sponge::<F, H>(h.push(Event::Commitment(a)).push(Event::Commitment(b))) == sponge::<F, H>(h) + (
        a@ + b@),
{
    let g = h.push(Event::Challenge);
    assert(g.drop_last() =~= h);
    assert(sponge::<F, H>(g) == H::digest(sponge::<F, H>(h))@);
    let k = g.push(Event::Commitment(a));
    assert(k.drop_last() =~= g);
    assert(sponge::<F, H>(k) == sponge::<F, H>(g) + a@);
    let x = h.push(Event::Commitment(a));
    assert(x.drop_last() =~= h);
    assert(sponge::<F, H>(x) == sponge::<F, H>(h) + a@);
    let y = x.push(Event::Commitment(b));
    assert(y.drop_last() =~= x);
    assert(sponge::<F, H>(y) == sponge::<F, H>(x) + b@);
    assert(sponge::<F, H>(h) + a@ + b@ =~= sponge::<F, H>(h) + (a@ + b@));
}

/// A proof is read as it was made: with every item, in its order.
pub proof fn law_items_kept<F: PrimeField>(items: Seq<ProofItem<F>>)
    ensures
        item_events(items).len() == items.len(),
        forall|i: int|
            0 <= i < items.len() ==> match #[trigger] items[i] {
                ProofItem::Element(x) => item_events(items)[i] == Event::Element(x.value()),
                ProofItem::Commitment(d) => item_events(items)[i] == Event::Commitment(d),
            },
{
}

} // verus!
