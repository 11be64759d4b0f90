//! Merkle trees over field elements, and paths in them.
use vstd::prelude::*;
use crate::algebra::two_to;
use crate::bits::{is_power_of_two, log2, log2_of};
use crate::error::Error;
use crate::field::{PrimeField, vals, vals2};
use crate::hash::{
    HashFunction, Output, digest_elements, digest_pair, hash_elements, hash_pair, same_output,
};
use crate::transcript::TranscriptWrite;

verus! {

/// The digests of neighbouring digests.
pub open spec fn level_above<H: HashFunction>(l: Seq<Output>) -> Seq<Output> {
    Seq::new(l.len() / 2, |i: int| digest_pair::<H>(l[2 * i], l[2 * i + 1]))
}

/// The level `k` above the level `l`.
pub open spec fn tree_level<H: HashFunction>(l: Seq<Output>, k: nat) -> Seq<Output>
    decreases k,
{
    if k == 0 {
        l
    } else {
        level_above::<H>(tree_level::<H>(l, (k - 1) as nat))
    }
}

/// The first `n` levels of the tree over the level `l`.
pub open spec fn tree_over<H: HashFunction>(l: Seq<Output>, n: nat) -> Seq<Seq<Output>> {
    Seq::new(n, |k: int| tree_level::<H>(l, k as nat))
}

/// The digests of neighbouring elements.
pub open spec fn pair_digests<F: PrimeField, H: HashFunction>(v: Seq<int>) -> Seq<Output> {
    Seq::new(v.len() / 2, |i: int| digest_elements::<F, H>(seq![v[2 * i], v[2 * i + 1]]))
}

/// The entries of all rows at the index `j`.
pub open spec fn column(rows: Seq<Seq<int>>, j: int) -> Seq<int> {
    Seq::new(rows.len(), |i: int| rows[i][j])
}

/// The digests of the columns.
pub open spec fn column_digests<F: PrimeField, H: HashFunction>(rows: Seq<Seq<int>>) -> Seq<Output> {
    Seq::new(rows[0].len(), |j: int| digest_elements::<F, H>(column(rows, j)))
}

/// The tree over the elements `v`, without the elements themselves.
pub open spec fn element_tree<F: PrimeField, H: HashFunction>(v: Seq<int>) -> Seq<Seq<Output>> {
    tree_over::<H>(pair_digests::<F, H>(v), log2_of(v.len()))
}

/// The tree over the columns of `rows`, without the digests of the columns themselves.
pub open spec fn column_tree<F: PrimeField, H: HashFunction>(rows: Seq<Seq<int>>) -> Seq<Seq<Output>> {
    tree_over::<H>(level_above::<H>(column_digests::<F, H>(rows)), log2_of(rows[0].len()))
}

/// The digests in the rows of an executable tree.
pub open spec fn tree_view(t: Seq<Vec<Output>>) -> Seq<Seq<Output>> {
    Seq::new(t.len(), |i: int| t[i]@)
}

/// The index of the other child of the same parent.
pub open spec fn sibling(q: int) -> int {
    if q % 2 == 0 {
        q + 1
    } else {
        q - 1
    }
}

/// `q` without its lowest `k` bits.
pub open spec fn ancestor(q: int, k: nat) -> int
    decreases k,
{
    if k == 0 {
        q
    } else {
        ancestor(q, (k - 1) as nat) / 2
    }
}

/// The siblings on the way from the node `q` of the lowest level to the root, and the root.
pub open spec fn tree_path(tree: Seq<Seq<Output>>, q: int) -> Seq<Output> {
    Seq::new(
        tree.len(),
        |i: int|
            if i < tree.len() - 1 {
                tree[i][sibling(ancestor(q, i as nat))]
            } else {
                tree[i][0]
            },
    )
}

/// The digest that the node `q` and the first `k` siblings of a path lead to.
pub open spec fn climb<H: HashFunction>(leaf: Output, q: int, path: Seq<Output>, k: nat) -> Output
    decreases k,
{
    if k == 0 {
        leaf
    } else {
        let below = climb::<H>(leaf, q, path, (k - 1) as nat);
        if ancestor(q, (k - 1) as nat) % 2 == 0 {
            digest_pair::<H>(below, path[k - 1])
        } else {
            digest_pair::<H>(path[k - 1], below)
        }
    }
}

/// The path leads from the node `q` with the digest `leaf` to the root.
pub open spec fn path_holds<H: HashFunction>(leaf: Output, q: int, path: Seq<Output>, root: Output) -> bool {
    &&& path.last() == root
    &&& climb::<H>(leaf, q, path, (path.len() - 1) as nat) == root
}

pub proof fn lemma_tree_level_len<H: HashFunction>(l: Seq<Output>, n: nat, k: nat)
    requires
        l.len() == two_to(n),
        k <= n,
    ensures
        tree_level::<H>(l, k).len() == two_to((n - k) as nat),
    decreases k,
{
    if k > 0 {
        lemma_tree_level_len::<H>(l, n, (k - 1) as nat);
        let m = (n - k) as nat;
        assert(two_to(m + 1) == 2 * two_to(m));
    }
}

pub proof fn lemma_ancestor_bound(q: int, n: nat, k: nat)
    requires
        0 <= q < two_to(n),
        k <= n,
    ensures
        0 <= ancestor(q, k) < two_to((n - k) as nat),
    decreases k,
{
    if k > 0 {
        lemma_ancestor_bound(q, n, (k - 1) as nat);
        let m = (n - k) as nat;
        assert(two_to(m + 1) == 2 * two_to(m));
    }
}

/// The path of a node of a tree leads to the root.
pub proof fn law_path_complete<H: HashFunction>(l: Seq<Output>, n: nat, q: int)
    requires
        n >= 1,
        l.len() == two_to((n - 1) as nat),
        0 <= q < l.len(),
    ensures
        ({
            let tree = tree_over::<H>(l, n);
            path_holds::<H>(l[q], q, tree_path(tree, q), tree[n - 1][0])
        }),
{
    let tree = tree_over::<H>(l, n);
    let path = tree_path(tree, q);
    lemma_climb::<H>(l, n, q, (n - 1) as nat);
    lemma_ancestor_bound(q, (n - 1) as nat, (n - 1) as nat);
    assert(two_to(0) == 1);
    assert(ancestor(q, (n - 1) as nat) == 0);
}

proof fn lemma_climb<H: HashFunction>(l: Seq<Output>, n: nat, q: int, k: nat)
    requires
        n >= 1,
        l.len() == two_to((n - 1) as nat),
        0 <= q < l.len(),
        k <= n - 1,
    ensures
        climb::<H>(l[q], q, tree_path(tree_over::<H>(l, n), q), k) == tree_level::<H>(l, k)[ancestor(
            q,
            k,
        )],
    decreases k,
{
    if k > 0 {
        let tree = tree_over::<H>(l, n);
        let path = tree_path(tree, q);
        let j = (k - 1) as nat;
        lemma_climb::<H>(l, n, q, j);
        lemma_ancestor_bound(q, (n - 1) as nat, j);
        lemma_tree_level_len::<H>(l, (n - 1) as nat, j);
        let below = tree_level::<H>(l, j);
        let a = ancestor(q, j);
        let m = (n - 1 - k) as nat;
        assert(two_to(m + 1) == 2 * two_to(m));
        assert(path[k - 1] == below[sibling(a)]);
        if a % 2 == 0 {
            assert(a == 2 * (a / 2));
        } else {
            assert(a == 2 * (a / 2) + 1);
        }
    }
}

/// The digests of neighbouring digests.
pub fn hash_level<H: HashFunction>(l: &Vec<Output>) -> (r: Vec<Output>)
    ensures
        r@ == level_above::<H>(l@),
{
    let n = l.len();
    let half: usize = n / 2;
    let mut r: Vec<Output> = Vec::new();
    let mut i: usize = 0;
    while i < half
        invariant
            i <= half,
            n == l@.len(),
            half == n / 2,
            r@.len() == i,
            forall|j: int| 0 <= j < i ==> #[trigger] r@[j] == digest_pair::<H>(l@[2 * j], l@[2 * j + 1]),
        decreases half - i,
    {
        r.push(hash_pair::<H>(&l[2 * i], &l[2 * i + 1]));
        i += 1;
    }
    assert(r@ =~= level_above::<H>(l@));
    r
}

/// The first `n` levels of the tree over `l`.
fn build_tree<H: HashFunction>(l: Vec<Output>, n: usize) -> (r: Vec<Vec<Output>>)
    requires
        n >= 1,
    ensures
        tree_view(r@) == tree_over::<H>(l@, n as nat),
{
    let ghost lv = l@;
    let mut r: Vec<Vec<Output>> = Vec::new();
    r.push(l);
    let mut k: usize = 1;
    while k < n
        invariant
            1 <= k <= n,
            r@.len() == k,
            forall|j: int| 0 <= j < k ==> (#[trigger] r@[j])@ == tree_level::<H>(lv, j as nat),
        decreases n - k,
    {
        assert(r@[k - 1]@ == tree_level::<H>(lv, (k - 1) as nat));
        let next = hash_level::<H>(&r[k - 1]);
        r.push(next);
        k += 1;
    }
    assert(tree_view(r@) =~= tree_over::<H>(lv, n as nat));
    r
}

/// The Merkle tree over pairs of elements, from the digests of the pairs to the root.
pub fn merkelize<F: PrimeField, H: HashFunction>(values: &Vec<F>) -> (r: Vec<Vec<Output>>)
    requires
        values@.len() >= 2,
        is_power_of_two(values@.len()),
    ensures
        tree_view(r@) == element_tree::<F, H>(vals(values@)),
{
    let n = values.len();
    let half: usize = n / 2;
    let depth = log2(n);
    let mut l: Vec<Output> = Vec::new();
    let mut i: usize = 0;
    let ghost v = vals(values@);
    while i < half
        invariant
            i <= half,
            n == values@.len(),
            half == n / 2,
            v == vals(values@),
            l@.len() == i,
            forall|j: int|
                0 <= j < i ==> #[trigger] l@[j] == digest_elements::<F, H>(seq![v[2 * j], v[2 * j + 1]]),
        decreases half - i,
    {
        let mut pair: Vec<F> = Vec::new();
        pair.push(values[2 * i]);
        pair.push(values[2 * i + 1]);
        assert(vals(pair@) =~= seq![v[2 * i as int], v[2 * i as int + 1]]);
        l.push(hash_elements::<F, H>(&pair));
        i += 1;
    }
    assert(l@ =~= pair_digests::<F, H>(v));
    build_tree::<H>(l, depth)
}

/// The Merkle tree over the columns of several vectors of one length, without the digests of the
/// columns: of a single column nothing is left.
pub fn batch_merkelize<F: PrimeField, H: HashFunction>(vecs: &Vec<Vec<F>>) -> (r: Vec<Vec<Output>>)
    requires
        vecs@.len() >= 1,
        vecs@[0]@.len() >= 1,
        forall|i: int| 0 <= i < vecs@.len() ==> (#[trigger] vecs@[i])@.len() >= vecs@[0]@.len(),
    ensures
        tree_view(r@) == column_tree::<F, H>(vals2(vecs@)),
        vecs@[0]@.len() == 1 ==> r@.len() == 0,
{
    let n = vecs[0].len();
    let depth = log2(n);
    let mut l: Vec<Output> = Vec::new();
    let mut j: usize = 0;
    let ghost rows = vals2(vecs@);
    while j < n
        invariant
            j <= n,
            n == vecs@[0]@.len(),
            vecs@.len() >= 1,
            rows == vals2(vecs@),
            forall|i: int| 0 <= i < vecs@.len() ==> (#[trigger] vecs@[i])@.len() >= n,
            l@.len() == j,
            forall|k: int| 0 <= k < j ==> #[trigger] l@[k] == digest_elements::<F, H>(column(rows, k)),
        decreases n - j,
    {
        let mut col: Vec<F> = Vec::new();
        let mut i: usize = 0;
        while i < vecs.len()
            invariant
                i <= vecs@.len(),
                j < n,
                rows == vals2(vecs@),
                forall|i: int| 0 <= i < vecs@.len() ==> (#[trigger] vecs@[i])@.len() >= n,
                col@.len() == i,
                forall|k: int| 0 <= k < i ==> #[trigger] col@[k].value() == rows[k][j as int],
            decreases vecs@.len() - i,
        {
            assert(vecs@[i as int]@.len() >= n);
            col.push(vecs[i][j]);
            i += 1;
        }
        assert(vals(col@) =~= column(rows, j as int));
        l.push(hash_elements::<F, H>(&col));
        j += 1;
    }
    assert(l@ =~= column_digests::<F, H>(rows));
    if depth == 0 {
        let none: Vec<Vec<Output>> = Vec::new();
        assert(tree_view(none@) =~= column_tree::<F, H>(rows));
        assert(n == 1);
        return none;
    }
    let first = hash_level::<H>(&l);
    build_tree::<H>(first, depth)
}

/// A tree with a single root in which `q` is a node of the lowest level.
pub open spec fn tree_holds(tree: Seq<Seq<Output>>, q: int) -> bool {
    &&& tree.len() >= 1
    &&& 0 <= q < two_to((tree.len() - 1) as nat)
    &&& forall|k: int|
        0 <= k < tree.len() ==> (#[trigger] tree[k]).len() == two_to((tree.len() - 1 - k) as nat)
}

pub proof fn lemma_sibling_bound(q: int, n: nat)
    requires
        0 <= q < two_to(n),
        n >= 1,
    ensures
        0 <= sibling(q) < two_to(n),
{
    assert(two_to(n) == 2 * two_to((n - 1) as nat));
}

/// The path of the pair with the element `idx`.
pub fn merkle_path(idx: usize, merkle_tree: &Vec<Vec<Output>>) -> (r: Vec<Output>)
    requires
        tree_holds(tree_view(merkle_tree@), idx as int / 2),
    ensures
        r@ == tree_path(tree_view(merkle_tree@), idx as int / 2),
{
    let ghost tree = tree_view(merkle_tree@);
    let path_len = merkle_tree.len();
    let ghost q = idx as int / 2;
    let mut a: usize = idx / 2;
    let mut r: Vec<Output> = Vec::new();
    let mut i: usize = 0;
    while i + 1 < path_len
        invariant
            i + 1 <= path_len,
            path_len == merkle_tree@.len(),
            tree == tree_view(merkle_tree@),
            tree_holds(tree, q),
            a == ancestor(q, i as nat),
            r@ == tree_path(tree, q).take(i as int),
        decreases path_len - i,
    {
        proof {
            lemma_ancestor_bound(q, (path_len - 1) as nat, i as nat);
            lemma_sibling_bound(a as int, (path_len - 1 - i) as nat);
            assert(tree[i as int].len() == two_to((path_len - 1 - i) as nat));
            assert(tree[i as int] == merkle_tree@[i as int]@);
        }
        let b: usize = if a % 2 == 0 { a + 1 } else { a - 1 };
        r.push(merkle_tree[i][b]);
        assert(tree_path(tree, q).take(i as int + 1) =~= tree_path(tree, q).take(i as int).push(
            tree_path(tree, q)[i as int],
        ));
        a = a / 2;
        i += 1;
    }
    assert(tree[path_len - 1].len() == two_to(0));
    assert(tree[path_len - 1] == merkle_tree@[path_len - 1]@);
    r.push(merkle_tree[path_len - 1][0]);
    assert(r@ =~= tree_path(tree, q));
    r
}

/// Sends the path of the pair with the element `idx`.
pub fn write_merkle_path<F: PrimeField, T: TranscriptWrite<F>>(
    idx: usize,
    merkle_tree: &Vec<Vec<Output>>,
    transcript: &mut T,
)
    requires
        tree_holds(tree_view(merkle_tree@), idx as int / 2),
    ensures
        final(transcript).tx() == old(transcript).tx().commit_all(
            tree_path(tree_view(merkle_tree@), idx as int / 2),
        ),
{
    let path = merkle_path(idx, merkle_tree);
    crate::transcript::write_commitments::<F, T>(transcript, &path);
}

/// Appends the path of the pair with the element `idx`.
pub fn write_merkle_path_2(
    idx: usize,
    merkle_tree: &Vec<Vec<Output>>,
    transcript: &mut Vec<Output>,
)
    requires
        tree_holds(tree_view(merkle_tree@), idx as int / 2),
    ensures
        final(transcript)@ == old(transcript)@ + tree_path(
            tree_view(merkle_tree@),
            idx as int / 2,
        ),
{
    let path = merkle_path(idx, merkle_tree);
    let mut i: usize = 0;
    while i < path.len()
        invariant
            i <= path@.len(),
            transcript@ == old(transcript)@ + path@.take(i as int),
        decreases path@.len() - i,
    {
        transcript.push(path[i]);
        assert(path@.take(i as int + 1) =~= path@.take(i as int).push(path@[i as int]));
        i += 1;
    }
    assert(path@.take(path@.len() as int) =~= path@);
}

/// Checks a path from a node of the lowest level.
fn authenticate<H: HashFunction>(
    idx: usize,
    leaf: Output,
    merkle_path: &Vec<Output>,
    root: &Output,
) -> (res: Result<(), Error>)
    requires
        merkle_path@.len() >= 1,
    ensures
        res == (if path_holds::<H>(leaf, idx as int / 2, merkle_path@, *root) {
            Ok::<(), Error>(())
        } else {
            Err(Error::MerklePath)
        }),
{
    let path_len = merkle_path.len();
    let ghost q = idx as int / 2;
    let mut a: usize = idx / 2;
    let mut hash = leaf;
    let mut i: usize = 0;
    while i + 1 < path_len
        invariant
            i + 1 <= path_len,
            path_len == merkle_path@.len(),
            a == ancestor(q, i as nat),
            hash == climb::<H>(leaf, q, merkle_path@, i as nat),
        decreases path_len - i,
    {
        if a % 2 == 0 {
            hash = hash_pair::<H>(&hash, &merkle_path[i]);
        } else {
            hash = hash_pair::<H>(&merkle_path[i], &hash);
        }
        a = a / 2;
        i += 1;
    }
    if same_output(&merkle_path[path_len - 1], root) && same_output(&hash, root) {
        Ok(())
    } else {
        Err(Error::MerklePath)
    }
}

/// Checks the path of a pair of elements, the first of which has an even index.
pub fn authenticate_merkle_path<F: PrimeField, H: HashFunction>(
    idx: usize,
    elems: &(F, F),
    merkle_path: &Vec<Output>,
    root: &Output,
) -> (res: Result<(), Error>)
    requires
        merkle_path@.len() >= 1,
        idx as int / 2 < two_to((merkle_path@.len() - 1) as nat),
    ensures
        res == (if path_holds::<H>(
            digest_elements::<F, H>(seq![elems.0.value(), elems.1.value()]),
            idx as int / 2,
            merkle_path@,
            *root,
        ) {
            Ok::<(), Error>(())
        } else {
            Err(Error::MerklePath)
        }),
{
    let mut pair: Vec<F> = Vec::new();
    pair.push(elems.0);
    pair.push(elems.1);
    assert(vals(pair@) =~= seq![elems.0.value(), elems.1.value()]);
    let leaf = hash_elements::<F, H>(&pair);
    authenticate::<H>(idx, leaf, merkle_path, root)
}

/// Checks the path of a pair of digests, the first of which has an even index.
pub fn authenticate_merkle_path_hash<H: HashFunction>(
    idx: usize,
    elems: &(Output, Output),
    merkle_path: &Vec<Output>,
    root: &Output,
) -> (res: Result<(), Error>)
    requires
        merkle_path@.len() >= 1,
        idx as int / 2 < two_to((merkle_path@.len() - 1) as nat),
    ensures
        res == (if path_holds::<H>(
            digest_pair::<H>(elems.0, elems.1),
            idx as int / 2,
            merkle_path@,
            *root,
        ) {
            Ok::<(), Error>(())
        } else {
            Err(Error::MerklePath)
        }),
{
    let leaf = hash_pair::<H>(&elems.0, &elems.1);
    authenticate::<H>(idx, leaf, merkle_path, root)
}

} // verus!
