//! Rows and levels that stand one after the other in a single vector.
use vstd::prelude::*;
use crate::algebra::two_to;
use crate::field::{PrimeField, vals, vals2};
use crate::hash::Output;
use crate::merkle::tree_view;

verus! {

/// The `n` rows of `len` entries each that stand one after the other in `flat`.
pub open spec fn rows_in(flat: Seq<int>, n: nat, len: nat) -> Seq<Seq<int>> {
    Seq::new(n, |i: int| Seq::new(len, |j: int| flat[i * len + j]))
}

/// The index of the first digest of a level, in a tree with `two_to(depth)` leaves whose levels
/// stand one after the other, the leaves first.
pub open spec fn level_start(depth: nat, k: nat) -> nat
    decreases k,
{
    if k == 0 {
        0
    } else {
        level_start(depth, (k - 1) as nat) + two_to((depth - k + 1) as nat)
    }
}

/// The levels below the root of such a tree.
pub open spec fn levels_in(flat: Seq<Output>, depth: nat) -> Seq<Seq<Output>> {
    Seq::new(
        depth,
        |k: int|
            Seq::new(
                two_to((depth - k) as nat),
                |j: int| flat[level_start(depth, k as nat) + j],
            ),
    )
}

/// The levels below the root have two digests less than twice the leaves.
pub proof fn lemma_level_start(depth: nat, k: nat)
    requires
        k <= depth,
    ensures
        level_start(depth, k) == 2 * two_to(depth) - 2 * two_to((depth - k) as nat),
    decreases k,
{
    if k > 0 {
        lemma_level_start(depth, (k - 1) as nat);
        assert(two_to((depth - k + 1) as nat) == 2 * two_to((depth - k) as nat));
    }
}

/// Where the rows stand.
proof fn lemma_row_place(i: int, j: int, n: nat, len: nat)
    requires
        0 <= i < n,
        0 <= j < len,
    ensures
        0 <= i * len,
        i * len + j < (i + 1) * len,
        (i + 1) * len <= n * len,
        (i + 1) * len == i * len + len,
{
    assert((i + 1) * len == i * len + len) by (nonlinear_arith);
    assert(0 <= i * len) by (nonlinear_arith)
        requires
            0 <= i,
            0 <= len,
    ;
    assert((i + 1) * len <= n * len) by (nonlinear_arith)
        requires
            i + 1 <= n,
            0 <= len,
    ;
}

/// Puts rows of one length one after the other.
pub(crate) fn join_rows<F: PrimeField>(rows: &Vec<Vec<F>>, len: usize) -> (r: Vec<F>)
    requires
        forall|i: int| 0 <= i < rows@.len() ==> (#[trigger] rows@[i])@.len() == len,
    ensures
        r@.len() == rows@.len() * len,
        rows_in(vals(r@), rows@.len(), len as nat) == vals2(rows@),
{
    let ghost w = len as nat;
    let mut r: Vec<F> = Vec::new();
    let mut i: usize = 0;
    while i < rows.len()
        invariant
            i <= rows@.len(),
            w == len,
            forall|i: int| 0 <= i < rows@.len() ==> (#[trigger] rows@[i])@.len() == len,
            r@.len() == i * w,
            forall|a: int, b: int|
                #![trigger rows@[a]@[b]]
                0 <= a < i && 0 <= b < w ==> r@[a * w + b] == rows@[a]@[b],
        decreases rows@.len() - i,
    {
        let ghost before = r@;
        let mut j: usize = 0;
        assert(rows@[i as int]@.len() == len);
        while j < len
            invariant
                i < rows@.len(),
                j <= len,
                w == len,
                rows@[i as int]@.len() == len,
                before.len() == i * w,
                r@.len() == before.len() + j,
                forall|a: int| 0 <= a < before.len() ==> r@[a] == before[a],
                forall|b: int| 0 <= b < j ==> r@[before.len() + b] == rows@[i as int]@[b],
            decreases len - j,
        {
            r.push(rows[i][j]);
            j += 1;
        }
        proof {
            lemma_row_place_end(i as int, w);
            assert forall|a: int, b: int|
                #![trigger rows@[a]@[b]]
                0 <= a < i + 1 && 0 <= b < w implies r@[a * w + b] == rows@[a]@[b] by {
                if a < i {
                    lemma_row_place(a, b, i as nat, w);
                    assert(r@[a * w + b] == before[a * w + b]);
                } else {
                    assert(r@[before.len() + b] == rows@[i as int]@[b]);
                }
            }
        }
        i += 1;
    }
    proof {
        let v = rows_in(vals(r@), rows@.len(), w);
        assert forall|a: int| 0 <= a < rows@.len() implies v[a] == vals2(rows@)[a] by {
            assert forall|b: int| 0 <= b < w implies v[a][b] == vals2(rows@)[a][b] by {
                lemma_row_place(a, b, rows@.len(), w);
                assert(r@[a * w + b] == rows@[a]@[b]);
            }
            assert(v[a] =~= vals2(rows@)[a]);
        }
        assert(v =~= vals2(rows@));
    }
    r
}

proof fn lemma_row_place_end(i: int, len: nat)
    ensures
        (i + 1) * len == i * len + len,
{
    assert((i + 1) * len == i * len + len) by (nonlinear_arith);
}

/// Takes apart rows that stand one after the other.
pub(crate) fn split_rows<F: PrimeField>(flat: &Vec<F>, n: usize, len: usize) -> (r: Vec<Vec<F>>)
    requires
        flat@.len() == n * len,
    ensures
        vals2(r@) == rows_in(vals(flat@), n as nat, len as nat),
        r@.len() == n,
        forall|i: int| 0 <= i < n ==> (#[trigger] r@[i])@.len() == len,
{
    let ghost w = len as nat;
    let ghost want = rows_in(vals(flat@), n as nat, w);
    let total = flat.len();
    let mut r: Vec<Vec<F>> = Vec::new();
    let mut i: usize = 0;
    let mut at: usize = 0;
    while i < n
        invariant
            i <= n,
            w == len,
            flat@.len() == n * len,
            total == flat@.len(),
            want == rows_in(vals(flat@), n as nat, w),
            at == i * w,
            r@.len() == i,
            forall|a: int| 0 <= a < i ==> (#[trigger] r@[a])@.len() == len,
            forall|a: int| 0 <= a < i ==> vals((#[trigger] r@[a])@) == want[a],
        decreases n - i,
    {
        proof {
            lemma_row_place_end(i as int, w);
            assert((i + 1) * w <= n * w) by (nonlinear_arith)
                requires
                    i + 1 <= n,
            ;
        }
        let row = crate::brakingbase_helper::sub_vector(flat, at, at + len);
        assert(vals(row@) =~= want[i as int]);
        r.push(row);
        at = at + len;
        i += 1;
    }
    assert(vals2(r@) =~= want);
    r
}

/// Puts the levels of a tree one after the other.
pub(crate) fn join_levels(levels: &Vec<Vec<Output>>) -> (r: Vec<Output>)
    requires
        forall|k: int|
            0 <= k < levels@.len() ==> (#[trigger] levels@[k])@.len() == two_to(
                (levels@.len() - k) as nat,
            ),
    ensures
        r@.len() == level_start(levels@.len(), levels@.len()),
        levels_in(r@, levels@.len()) == tree_view(levels@),
{
    let ghost depth = levels@.len();
    let mut r: Vec<Output> = Vec::new();
    let mut k: usize = 0;
    while k < levels.len()
        invariant
            k <= levels@.len(),
            depth == levels@.len(),
            forall|k: int|
                0 <= k < levels@.len() ==> (#[trigger] levels@[k])@.len() == two_to(
                    (levels@.len() - k) as nat,
                ),
            r@.len() == level_start(depth, k as nat),
            forall|a: int, b: int|
                #![trigger levels@[a]@[b]]
                0 <= a < k && 0 <= b < levels@[a]@.len() ==> r@[level_start(depth, a as nat) + b]
                    == levels@[a]@[b],
        decreases levels@.len() - k,
    {
        let ghost before = r@;
        let len = levels[k].len();
        let mut j: usize = 0;
        while j < len
            invariant
                k < levels@.len(),
                len == levels@[k as int]@.len(),
                j <= len,
                r@.len() == before.len() + j,
                forall|a: int| 0 <= a < before.len() ==> r@[a] == before[a],
                forall|b: int| 0 <= b < j ==> r@[before.len() + b] == levels@[k as int]@[b],
            decreases len - j,
        {
            r.push(levels[k][j]);
            j += 1;
        }
        proof {
            assert forall|a: int, b: int|
                #![trigger levels@[a]@[b]]
                0 <= a < k + 1 && 0 <= b < levels@[a]@.len() implies r@[level_start(depth, a as nat) + b]
                == levels@[a]@[b] by {
                if a < k {
                    lemma_level_order(depth, a as nat, k as nat);
                    assert(r@[level_start(depth, a as nat) + b] == before[level_start(depth, a as nat)
                        + b]);
                } else {
                    assert(r@[before.len() + b] == levels@[k as int]@[b]);
                }
            }
        }
        k += 1;
    }
    proof {
        let v = levels_in(r@, depth);
        assert forall|a: int| 0 <= a < depth implies v[a] == tree_view(levels@)[a] by {
            assert(levels@[a]@.len() == two_to((depth - a) as nat));
            assert(v[a] =~= levels@[a]@);
        }
        assert(v =~= tree_view(levels@));
    }
    r
}

/// A level ends before those that follow begin.
proof fn lemma_level_order(depth: nat, a: nat, k: nat)
    requires
        a < k <= depth,
    ensures
        level_start(depth, a) + two_to((depth - a) as nat) <= level_start(depth, k),
    decreases k,
{
    if a < k - 1 {
        lemma_level_order(depth, a, (k - 1) as nat);
    }
    assert(depth - k + 1 == depth - (k - 1));
}

/// Takes apart the levels of a tree that stand one after the other.
pub(crate) fn split_levels(flat: &Vec<Output>, depth: usize) -> (r: Vec<Vec<Output>>)
    requires
        flat@.len() == level_start(depth as nat, depth as nat),
        two_to(depth as nat) <= usize::MAX,
    ensures
        tree_view(r@) == levels_in(flat@, depth as nat),
{
    let ghost d = depth as nat;
    let ghost want = levels_in(flat@, d);
    let total = flat.len();
    let mut r: Vec<Vec<Output>> = Vec::new();
    let mut width = crate::bits::pow_two(depth);
    let mut at: usize = 0;
    let mut k: usize = 0;
    while k < depth
        invariant
            k <= depth,
            d == depth,
            flat@.len() == level_start(d, d),
            total == flat@.len(),
            want == levels_in(flat@, d),
            width == two_to((d - k) as nat),
            at == level_start(d, k as nat),
            r@.len() == k,
            forall|a: int| 0 <= a < k ==> (#[trigger] r@[a])@ == want[a],
        decreases depth - k,
    {
        proof {
            lemma_level_order(d, k as nat, d);
            assert(level_start(d, (k + 1) as nat) == at + width);
            assert(two_to((d - k) as nat) == 2 * two_to((d - k - 1) as nat));
        }
        let mut level: Vec<Output> = Vec::new();
        let mut j: usize = 0;
        while j < width
            invariant
                j <= width,
                at + width <= total,
                total == flat@.len(),
                level@.len() == j,
                forall|b: int| 0 <= b < j ==> level@[b] == flat@[at + b],
            decreases width - j,
        {
            level.push(flat[at + j]);
            j += 1;
        }
        assert(level@ =~= want[k as int]);
        r.push(level);
        at = at + width;
        width = width / 2;
        k += 1;
    }
    assert(tree_view(r@) =~= want);
    r
}

/// The rows in a vector stand one after the other.
pub proof fn law_rows_layout(flat: Seq<int>, n: nat, len: nat, i: int)
    requires
        0 <= i < n,
        flat.len() == n * len,
    ensures
        rows_in(flat, n, len).len() == n,
        rows_in(flat, n, len)[i] == flat.subrange(i * len, i * len + len),
{
    assert(0 <= i * len && i * len + len <= n * len) by (nonlinear_arith)
        requires
            0 <= i < n,
    ;
    assert(rows_in(flat, n, len)[i] =~= flat.subrange(i * len, i * len + len));
}

/// The levels in a vector stand one after the other, each half as long as the one before.
pub proof fn law_levels_layout(flat: Seq<Output>, depth: nat, k: int)
    requires
        0 <= k < depth,
        flat.len() == 2 * two_to(depth) - 2,
    ensures
        levels_in(flat, depth).len() == depth,
        ({
            let from = 2 * two_to(depth) - 2 * two_to((depth - k) as nat);
            levels_in(flat, depth)[k] == flat.subrange(from, from + two_to((depth - k) as nat))
        }),
{
    let from = 2 * two_to(depth) - 2 * two_to((depth - k) as nat);
    lemma_level_start(depth, k as nat);
    let m = two_to((depth - k) as nat);
    assert(two_to((depth - k) as nat) == 2 * two_to((depth - k - 1) as nat));
    crate::algebra::lemma_two_to_positive((depth - k - 1) as nat);
    crate::algebra::lemma_two_to_monotone((depth - k) as nat, depth);
    assert(levels_in(flat, depth)[k] =~= flat.subrange(from, from + m));
}

} // verus!
