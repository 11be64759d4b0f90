//! Foldable codes: their tables, their encoding and their folding.
use vstd::prelude::*;
use crate::algebra::{
    canonical, cong, lemma_canonical_unique, lemma_cong_add, lemma_cong_mod, lemma_cong_mul,
    lemma_cong_sub, lemma_mod_canonical, lemma_mod_small, lemma_two_to_monotone,
    lemma_two_to_positive, two_to,
};
use crate::bits::{
    is_power_of_two, lemma_log2_two_to, log2, log2_of, pow_two, reverse_bits, reversed,
};
use crate::field::{PrimeField, byte_bound, copy_elements, double, le_value, vals, vals2};
use crate::hash::{HashFunction, Output};
use crate::merkle::{element_tree, merkelize, tree_view};
use crate::multilinear::fold;
use crate::sums::sum_of;
use crate::transcript::element_from_bytes;
use aes::cipher::{KeyIvInit, StreamCipher, StreamCipherSeek};
use rand_chacha::rand_core::{RngCore, SeedableRng};

verus! {

/// The entries of `s` with the bits of their indices in reverse order.
pub open spec fn bit_reversed<T>(s: Seq<T>) -> Seq<T> {
    Seq::new(s.len(), |i: int| s[reversed(i as nat, log2_of(s.len())) as int])
}

/// `plonky2_util::reverse_index_bits_in_place`: moves every entry to the index with the bits of
/// its own in reverse order. The length has to be a power of two.
#[verifier::external_body]
pub(crate) fn reverse_index_bits_in_place<T>(arr: &mut Vec<T>)
    requires
        old(arr)@.len() >= 1,
        is_power_of_two(old(arr)@.len()),
    ensures
        final(arr)@ == bit_reversed(old(arr)@),
{
    plonky2_util::reverse_index_bits_in_place(arr)
}

/// The first 32 bytes of the ChaCha8 stream with the given seed.
pub uninterp spec fn chacha8_stream(seed: Seq<u8>) -> Seq<u8>;

/// `rand_chacha::ChaCha8Rng::from_seed`, `set_word_pos` and `fill_bytes`, twice: the first 16
/// bytes of the stream of a seed, and the next 16.
#[verifier::external_body]
fn chacha8_key_iv(seed: &[u8; 32]) -> (r: ([u8; 16], [u8; 16]))
    ensures
        r.0@ + r.1@ == chacha8_stream(seed@),
{
    let mut rng = rand_chacha::ChaCha8Rng::from_seed(*seed);
    let mut key = [0u8; 16];
    let mut iv = [0u8; 16];
    rng.set_word_pos(0);
    rng.fill_bytes(&mut key);
    rng.fill_bytes(&mut iv);
    (key, iv)
}

/// Bytes `pos` to `pos + 31` of the AES-128 key stream with a little-endian 32-bit counter.
pub uninterp spec fn aes128_ctr32le(key: Seq<u8>, iv: Seq<u8>, pos: nat) -> [u8; 32];

/// `ctr::Ctr32LE<aes::Aes128>`, with `seek` and `apply_keystream` on zeros: 32 bytes of the key
/// stream, from a position on that starts a block. The counter must not run out before the end.
#[verifier::external_body]
fn aes128_key_stream(key: &[u8; 16], iv: &[u8; 16], pos: u64) -> (r: [u8; 32])
    requires
        pos % 16 == 0,
        pos / 16 + 2 <= u32::MAX,
    ensures
        r == aes128_ctr32le(key@, iv@, pos as nat),
{
    let mut cipher = ctr::Ctr32LE::<aes::Aes128>::new(key.into(), iv.into());
    let mut bytes = [0u8; 32];
    cipher.seek(pos);
    cipher.apply_keystream(&mut bytes);
    bytes
}

/// The values of a polynomial, in the order of a codeword or of the hypercube.
#[derive(Clone, Debug)]
pub struct Type1Polynomial<F: PrimeField> {
    pub poly: Vec<F>,
}

/// Parameters of the foldable code that a specification fixes.
pub trait BasefoldExtParams: Sized {
    spec fn reps() -> nat;

    spec fn rate() -> nat;

    spec fn basecode_rounds() -> nat;

    spec fn rs_basecode() -> bool;

    /// How many positions are queried.
    fn get_reps() -> (r: usize)
        ensures
            r == Self::reps(),
    ;

    /// The logarithm of the inverse of the rate of the code.
    fn get_rate() -> (r: usize)
        ensures
            r == Self::rate(),
    ;

    /// How many rounds the code at the bottom saves.
    fn get_basecode_rounds() -> (r: usize)
        ensures
            r == Self::basecode_rounds(),
    ;

    /// Whether the code at the bottom is a Reed-Solomon code instead of a repetition. The encoding
    /// here is that over a repetition, so that the setup asks for `false`.
    fn get_rs_basecode() -> (r: bool)
        ensures
            r == Self::rs_basecode(),
    ;
}

/// The key that a seed gives to the cipher.
pub open spec fn stream_key(seed: Seq<u8>) -> Seq<u8> {
    chacha8_stream(seed).take(16)
}

/// The initial block that a seed gives to the cipher.
pub open spec fn stream_iv(seed: Seq<u8>) -> Seq<u8> {
    chacha8_stream(seed).skip(16)
}

/// The entry of the table of a seed at an index of a level.
pub open spec fn table_entry(p: int, seed: Seq<u8>, level: nat, index: int) -> int {
    le_value(
        aes128_ctr32le(stream_key(seed), stream_iv(seed), (32 * (two_to(level) + index)) as nat)@,
    ) as int % p
}

/// The highest level with entries that the key stream reaches.
pub open spec fn level_reachable(level: nat) -> bool {
    4 * two_to(level) + 2 <= u32::MAX
}

/// The key and the initial block of a seed.
pub struct TableStream {
    pub seed: [u8; 32],
    pub key: [u8; 16],
    pub iv: [u8; 16],
}

impl TableStream {
    pub open spec fn wf(&self) -> bool {
        &&& self.key@ == stream_key(self.seed@)
        &&& self.iv@ == stream_iv(self.seed@)
    }

    /// The stream of a seed.
    pub fn new(seed: [u8; 32]) -> (r: TableStream)
        ensures
            r.wf(),
            r.seed == seed,
    {
        let (key, iv) = chacha8_key_iv(&seed);
        proof {
            assert(key@.len() == 16);
            assert((key@ + iv@).take(16) =~= key@);
            assert((key@ + iv@).skip(16) =~= iv@);
        }
        TableStream { seed, key, iv }
    }

    /// The entry of the table at an index of a level.
    pub fn entry<F: PrimeField>(&self, level: usize, index: usize) -> (r: F)
        requires
            self.wf(),
            level_reachable(level as nat),
            index < two_to(level as nat),
        ensures
            r.value() == table_entry(F::modulus(), self.seed@, level as nat, index as int),
    {
        proof {
            crate::bits::lemma_two_to_word();
        }
        let start = pow_two(level);
        let pos: u64 = 32 * (start as u64 + index as u64);
        let bytes = aes128_key_stream(&self.key, &self.iv, pos);
        element_from_bytes(&bytes)
    }
}

/// The point at which an entry of a codeword is an evaluation: that of the table in the first
/// half of a block, and its negative in the second.
pub open spec fn query_point_value(
    p: int,
    seed: Seq<u8>,
    block_length: nat,
    eval_index: nat,
    level: nat,
) -> int {
    let i = (eval_index % block_length) as int;
    let h = (block_length / 2) as int;
    let e = table_entry(p, seed, level, i % h);
    if i >= h {
        (-e) % p
    } else {
        e
    }
}

/// The point at which an entry of a codeword is an evaluation, computed from the seed.
pub fn query_point<F: PrimeField>(
    block_length: usize,
    eval_index: usize,
    stream: &TableStream,
    level: usize,
) -> (r: F)
    requires
        stream.wf(),
        level_reachable(level as nat),
        block_length == 2 * two_to(level as nat),
    ensures
        r.value() == query_point_value(
            F::modulus(),
            stream.seed@,
            block_length as nat,
            eval_index as nat,
            level as nat,
        ),
{
    proof {
        lemma_two_to_positive(level as nat);
    }
    let level_index = eval_index % block_length;
    let half = block_length / 2;
    let el: F = stream.entry(level, level_index % half);
    if level_index >= half {
        el.neg()
    } else {
        el
    }
}

/// The weight of a table entry `x`: the inverse of `-2 * x`, or zero where there is none.
pub open spec fn is_weight(p: int, x: int, w: int) -> bool {
    if x == 0 {
        w == 0
    } else {
        cong(p, (-2 * x) * w, 1)
    }
}

/// The points of a level of the table.
pub open spec fn weight_points<F: PrimeField>(l: Seq<(F, F)>) -> Seq<int> {
    Seq::new(l.len(), |i: int| l[i].0.value())
}

/// The weights of a level of the table.
pub open spec fn weight_values<F: PrimeField>(l: Seq<(F, F)>) -> Seq<int> {
    Seq::new(l.len(), |i: int| l[i].1.value())
}

/// The levels of a table belong to the seed: each level in natural order, and with its weights
/// in the order of codewords.
pub open spec fn table_of_seed<F: PrimeField>(
    table: Seq<Vec<F>>,
    weights: Seq<Vec<(F, F)>>,
    seed: Seq<u8>,
    levels: nat,
) -> bool {
    &&& table.len() == levels
    &&& weights.len() == levels
    &&& forall|l: int|
        0 <= l < levels ==> (#[trigger] table[l])@.len() == two_to(l as nat) && forall|i: int|
            0 <= i < table[l]@.len() ==> (#[trigger] table[l]@[i]).value() == table_entry(
                F::modulus(),
                seed,
                l as nat,
                i,
            )
    &&& forall|l: int|
        0 <= l < levels ==> (#[trigger] weights[l])@.len() == two_to(l as nat) && forall|i: int|
            0 <= i < weights[l]@.len() ==> (#[trigger] weights[l]@[i]).0.value() == table_entry(
                F::modulus(),
                seed,
                l as nat,
                reversed(i as nat, l as nat) as int,
            ) && is_weight(F::modulus(), weights[l]@[i].0.value(), weights[l]@[i].1.value())
}

/// The tables have a level for each power of two, with as many entries.
pub open spec fn table_fits<F: PrimeField>(
    table: Seq<Vec<F>>,
    weights: Seq<Vec<(F, F)>>,
    levels: nat,
) -> bool {
    &&& table.len() == levels
    &&& weights.len() == levels
    &&& forall|l: int| 0 <= l < levels ==> (#[trigger] table[l])@.len() == two_to(l as nat)
    &&& forall|l: int| 0 <= l < levels ==> (#[trigger] weights[l])@.len() == two_to(l as nat)
}

/// The parameters of the foldable code.
#[derive(Clone, Debug)]
pub struct BasefoldParams<F: PrimeField> {
    pub num_vars: usize,
    pub log_rate: usize,
    pub num_verifier_queries: usize,
    pub seed: [u8; 32],
    pub table: Vec<Vec<F>>,
    pub table_w_weights: Vec<Vec<(F, F)>>,
}

/// What a prover needs of the parameters.
#[derive(Clone, Debug)]
pub struct BasefoldProverParams<F: PrimeField> {
    pub num_vars: usize,
    pub log_rate: usize,
    pub num_verifier_queries: usize,
    pub seed: [u8; 32],
    pub table: Vec<Vec<F>>,
    pub table_w_weights: Vec<Vec<(F, F)>>,
}

/// What a verifier needs of the parameters.
#[derive(Debug)]
pub struct BasefoldVerifierParams<F: PrimeField> {
    pub num_vars: usize,
    pub log_rate: usize,
    pub num_verifier_queries: usize,
    pub seed: [u8; 32],
    pub field: core::marker::PhantomData<F>,
}

impl<F: PrimeField> Clone for BasefoldVerifierParams<F> {
    fn clone(&self) -> (r: Self)
        ensures
            r == *self,
    {
        BasefoldVerifierParams {
            num_vars: self.num_vars,
            log_rate: self.log_rate,
            num_verifier_queries: self.num_verifier_queries,
            seed: self.seed,
            field: core::marker::PhantomData,
        }
    }
}

/// The sizes that the key stream and the machine allow.
pub open spec fn sizes_fit(num_vars: nat, log_rate: nat) -> bool {
    &&& num_vars >= 1
    &&& log_rate >= 1
    &&& level_reachable((num_vars + log_rate - 1) as nat)
    &&& two_to(num_vars + log_rate) <= usize::MAX
}

impl<F: PrimeField> BasefoldParams<F> {
    pub open spec fn wf(&self) -> bool {
        &&& sizes_fit(self.num_vars as nat, self.log_rate as nat)
        &&& table_fits(
            self.table@,
            self.table_w_weights@,
            (self.num_vars + self.log_rate) as nat,
        )
    }

    /// The tables are those of the seed.
    pub open spec fn from_seed(&self) -> bool {
        table_of_seed(
            self.table@,
            self.table_w_weights@,
            self.seed@,
            (self.num_vars + self.log_rate) as nat,
        )
    }
}

impl<F: PrimeField> BasefoldProverParams<F> {
    pub open spec fn wf(&self) -> bool {
        &&& sizes_fit(self.num_vars as nat, self.log_rate as nat)
        &&& table_fits(
            self.table@,
            self.table_w_weights@,
            (self.num_vars + self.log_rate) as nat,
        )
    }

    /// The tables are those of the seed.
    pub open spec fn from_seed(&self) -> bool {
        table_of_seed(
            self.table@,
            self.table_w_weights@,
            self.seed@,
            (self.num_vars + self.log_rate) as nat,
        )
    }
}

impl<F: PrimeField> BasefoldVerifierParams<F> {
    pub open spec fn wf(&self) -> bool {
        sizes_fit(self.num_vars as nat, self.log_rate as nat)
    }
}

/// The weight of a table entry.
fn compute_weight<F: PrimeField>(x: F) -> (w: F)
    ensures
        is_weight(F::modulus(), x.value(), w.value()),
{
    proof {
        F::lemma_modulus();
        x.lemma_value();
    }
    let d = double(x).neg();
    match d.invert() {
        Some(w) => {
            proof {
                let p = F::modulus();
                let xv = x.value();
                lemma_cong_mod(p, 2 * xv);
                lemma_cong_sub(p, 0, 0, (2 * xv) % p, 2 * xv);
                lemma_cong_mod(p, -((2 * xv) % p));
                assert(cong(p, d.value(), -2 * xv));
                lemma_cong_mul(p, d.value(), -2 * xv, w.value(), w.value());
                lemma_mod_small(p, 1);
                lemma_mod_small(p, 0);
                if xv == 0 {
                    assert(false);
                }
            }
            w
        },
        None => {
            proof {
                let p = F::modulus();
                let xv = x.value();
                lemma_cong_mod(p, 2 * xv);
                lemma_cong_sub(p, 0, 0, (2 * xv) % p, 2 * xv);
                lemma_cong_mod(p, -((2 * xv) % p));
                lemma_cong_sub(p, 0, 0, d.value(), -2 * xv);
                lemma_mod_small(p, 0);
                assert(cong(p, 2 * xv, 0));
                crate::algebra::lemma_halve(p, xv);
                lemma_mod_small(p, xv);
            }
            F::zero()
        },
    }
}

/// The table of a seed, in both orders.
pub fn get_table_aes<F: PrimeField>(num_vars: usize, log_rate: usize, seed: [u8; 32]) -> (r: (
    Vec<Vec<(F, F)>>,
    Vec<Vec<F>>,
))
    requires
        sizes_fit(num_vars as nat, log_rate as nat),
        num_vars + log_rate <= usize::MAX,
    ensures
        table_of_seed(r.1@, r.0@, seed@, (num_vars + log_rate) as nat),
{
    let stream = TableStream::new(seed);
    let levels = num_vars + log_rate;
    let ghost p = F::modulus();
    let mut table: Vec<Vec<F>> = Vec::new();
    let mut weights: Vec<Vec<(F, F)>> = Vec::new();
    let mut l: usize = 0;
    while l < levels
        invariant
            l <= levels,
            levels == num_vars + log_rate,
            sizes_fit(num_vars as nat, log_rate as nat),
            stream.wf(),
            stream.seed == seed,
            p == F::modulus(),
            table_of_seed(table@, weights@, seed@, l as nat),
        decreases levels - l,
    {
        proof {
            lemma_two_to_monotone(l as nat, (levels - 1) as nat);
            lemma_two_to_monotone(l as nat, levels as nat);
        }
        let n = pow_two(l);
        let mut level: Vec<F> = Vec::new();
        let mut i: usize = 0;
        while i < n
            invariant
                i <= n,
                n == two_to(l as nat),
                stream.wf(),
                stream.seed == seed,
                level_reachable(l as nat),
                p == F::modulus(),
                level@.len() == i,
                forall|j: int|
                    0 <= j < i ==> (#[trigger] level@[j]).value() == table_entry(p, seed@, l as nat, j),
            decreases n - i,
        {
            level.push(stream.entry(l, i));
            i += 1;
        }
        let mut pairs: Vec<(F, F)> = Vec::new();
        i = 0;
        while i < n
            invariant
                i <= n,
                n == two_to(l as nat),
                n <= usize::MAX,
                p == F::modulus(),
                level@.len() == n,
                forall|j: int|
                    0 <= j < n ==> (#[trigger] level@[j]).value() == table_entry(p, seed@, l as nat, j),
                pairs@.len() == i,
                forall|j: int|
                    0 <= j < i ==> (#[trigger] pairs@[j]).0.value() == table_entry(
                        p,
                        seed@,
                        l as nat,
                        reversed(j as nat, l as nat) as int,
                    ) && is_weight(p, pairs@[j].0.value(), pairs@[j].1.value()),
            decreases n - i,
        {
            let k = reverse_bits(i, l);
            let x = level[k];
            pairs.push((x, compute_weight(x)));
            i += 1;
        }
        table.push(level);
        weights.push(pairs);
        l += 1;
    }
    (weights, table)
}

/// The codeword of a message: a repetition for a single entry; otherwise, pair by pair, sum and
/// difference of the codeword of the first half and the multiple, by the entry of the table, of
/// the codeword of what the second half has more than the first.
pub open spec fn encode(p: int, table: Seq<Seq<int>>, log_rate: nat, m: Seq<int>) -> Seq<int>
    decreases m.len(),
{
    if m.len() <= 1 {
        Seq::new(two_to(log_rate), |i: int| m[0])
    } else {
        let h = m.len() / 2;
        let a = encode(p, table, log_rate, m.take(h as int));
        let b = encode(p, table, log_rate, Seq::new(h, |i: int| (m[h + i] - m[i]) % p));
        let level = log_rate + log2_of(h);
        Seq::new(
            2 * a.len(),
            |i: int|
                {
                    let x = table[level as int][reversed((i / 2) as nat, level) as int];
                    if i % 2 == 0 {
                        (a[i / 2] + x * b[i / 2]) % p
                    } else {
                        (a[i / 2] - x * b[i / 2]) % p
                    }
                },
        )
    }
}

pub proof fn lemma_encode_len(p: int, table: Seq<Seq<int>>, log_rate: nat, m: Seq<int>, k: nat)
    requires
        m.len() == two_to(k),
    ensures
        encode(p, table, log_rate, m).len() == two_to(log_rate + k),
    decreases k,
{
    if k > 0 {
        lemma_two_to_positive(k);
        let h = m.len() / 2;
        assert(h == two_to((k - 1) as nat));
        lemma_encode_len(p, table, log_rate, m.take(h as int), (k - 1) as nat);
        assert(two_to(log_rate + k) == 2 * two_to((log_rate + k - 1) as nat));
    }
}

pub proof fn lemma_encode_canonical(p: int, table: Seq<Seq<int>>, log_rate: nat, m: Seq<int>)
    requires
        p > 0,
        m.len() >= 1,
        canonical(p, m),
    ensures
        canonical(p, encode(p, table, log_rate, m)),
{
    let e = encode(p, table, log_rate, m);
    if m.len() > 1 {
        let h = m.len() / 2;
        let a = encode(p, table, log_rate, m.take(h as int));
        let b = encode(p, table, log_rate, Seq::new(h, |i: int| (m[h + i] - m[i]) % p));
        let level = log_rate + log2_of(h);
        assert forall|i: int| 0 <= i < e.len() implies 0 <= #[trigger] e[i] < p by {
            let x = table[level as int][reversed((i / 2) as nat, level) as int];
            lemma_mod_canonical(p, a[i / 2] + x * b[i / 2]);
            lemma_mod_canonical(p, a[i / 2] - x * b[i / 2]);
        }
    } else {
        assert(0 <= m[0] < p);
    }
}

/// The code is linear.
pub proof fn law_encode_linear(
    p: int,
    table: Seq<Seq<int>>,
    log_rate: nat,
    a: Seq<int>,
    b: Seq<int>,
    c: Seq<int>,
    r: int,
    k: nat,
)
    requires
        p > 0,
        a.len() == two_to(k),
        b.len() == a.len(),
        c.len() == a.len(),
        forall|i: int| 0 <= i < a.len() ==> cong(p, #[trigger] c[i], a[i] + r * b[i]),
    ensures
        ({
            let (ea, eb, ec) = (
                encode(p, table, log_rate, a),
                encode(p, table, log_rate, b),
                encode(p, table, log_rate, c),
            );
            &&& ea.len() == two_to(log_rate + k)
            &&& eb.len() == ea.len()
            &&& ec.len() == ea.len()
            &&& forall|i: int| 0 <= i < ea.len() ==> cong(p, #[trigger] ec[i], ea[i] + r * eb[i])
        }),
    decreases k,
{
    let (ea, eb, ec) = (
        encode(p, table, log_rate, a),
        encode(p, table, log_rate, b),
        encode(p, table, log_rate, c),
    );
    lemma_encode_len(p, table, log_rate, a, k);
    lemma_encode_len(p, table, log_rate, b, k);
    lemma_encode_len(p, table, log_rate, c, k);
    if k == 0 {
        assert(cong(p, c[0], a[0] + r * b[0]));
    } else {
        lemma_two_to_positive(k);
        let j = (k - 1) as nat;
        let h = a.len() / 2;
        assert(h == two_to(j));
        let (a0, b0, c0) = (a.take(h as int), b.take(h as int), c.take(h as int));
        let a1 = Seq::new(h, |i: int| (a[h + i] - a[i]) % p);
        let b1 = Seq::new(h, |i: int| (b[h + i] - b[i]) % p);
        let c1 = Seq::new(h, |i: int| (c[h + i] - c[i]) % p);
        assert forall|i: int| 0 <= i < h implies cong(p, #[trigger] c0[i], a0[i] + r * b0[i]) by {
            assert(cong(p, c[i], a[i] + r * b[i]));
        }
        assert forall|i: int| 0 <= i < h implies cong(p, #[trigger] c1[i], a1[i] + r * b1[i]) by {
            assert(cong(p, c[i], a[i] + r * b[i]));
            assert(cong(p, c[h + i], a[h + i] + r * b[h + i]));
            let (da, db, dc) = (a[h + i] - a[i], b[h + i] - b[i], c[h + i] - c[i]);
            lemma_cong_sub(p, c[h + i], a[h + i] + r * b[h + i], c[i], a[i] + r * b[i]);
            assert(a[h + i] + r * b[h + i] - (a[i] + r * b[i]) == da + r * db) by (nonlinear_arith)
                requires
                    da == a[h + i] - a[i],
                    db == b[h + i] - b[i],
            ;
            lemma_cong_mod(p, da);
            lemma_cong_mod(p, db);
            lemma_cong_mod(p, dc);
            lemma_cong_mul(p, r, r, db % p, db);
            lemma_cong_add(p, da % p, da, r * (db % p), r * db);
        }
        law_encode_linear(p, table, log_rate, a0, b0, c0, r, j);
        law_encode_linear(p, table, log_rate, a1, b1, c1, r, j);
        let (xa, xb, xc) = (
            encode(p, table, log_rate, a0),
            encode(p, table, log_rate, b0),
            encode(p, table, log_rate, c0),
        );
        let (ya, yb, yc) = (
            encode(p, table, log_rate, a1),
            encode(p, table, log_rate, b1),
            encode(p, table, log_rate, c1),
        );
        let level = log_rate + log2_of(h);
        assert forall|i: int| 0 <= i < ea.len() implies cong(p, #[trigger] ec[i], ea[i] + r * eb[i]) by {
            let q = i / 2;
            let x = table[level as int][reversed(q as nat, level) as int];
            let s: int = if i % 2 == 0 { x } else { -x };
            assert(cong(p, xc[q], xa[q] + r * xb[q]));
            assert(cong(p, yc[q], ya[q] + r * yb[q]));
            lemma_encode_step(p, s, r, xa[q], xb[q], xc[q], ya[q], yb[q], yc[q]);
            let (mx, my, mz) = (x * ya[q], x * yb[q], x * yc[q]);
            assert((-x) * ya[q] == -mx && (-x) * yb[q] == -my && (-x) * yc[q] == -mz) by (nonlinear_arith)
                requires
                    mx == x * ya[q],
                    my == x * yb[q],
                    mz == x * yc[q],
            ;
            assert(ec[i] == (xc[q] + s * yc[q]) % p);
            assert(ea[i] == (xa[q] + s * ya[q]) % p);
            assert(eb[i] == (xb[q] + s * yb[q]) % p);
        }
    }
}

proof fn lemma_encode_step(
    p: int,
    s: int,
    r: int,
    xa: int,
    xb: int,
    xc: int,
    ya: int,
    yb: int,
    yc: int,
)
    requires
        p > 0,
        cong(p, xc, xa + r * xb),
        cong(p, yc, ya + r * yb),
    ensures
        cong(p, (xc + s * yc) % p, (xa + s * ya) % p + r * ((xb + s * yb) % p)),
{
    lemma_cong_mul(p, s, s, yc, ya + r * yb);
    lemma_cong_add(p, xc, xa + r * xb, s * yc, s * (ya + r * yb));
    let (u, v) = (xa + s * ya, xb + s * yb);
    assert(xa + r * xb + s * (ya + r * yb) == u + r * v) by {
        let t = r * yb;
        assert(s * (ya + t) == s * ya + s * t) by (nonlinear_arith);
        assert(s * (r * yb) == r * (s * yb)) by (nonlinear_arith);
        let z = s * yb;
        assert(r * (xb + z) == r * xb + r * z) by (nonlinear_arith);
    }
    lemma_cong_mod(p, xc + s * yc);
    lemma_cong_mod(p, u);
    lemma_cong_mod(p, v);
    lemma_cong_mul(p, r, r, v % p, v);
    lemma_cong_add(p, u % p, u, r * (v % p), r * v);
}

/// A codeword folded at `r`: every pair becomes the value at `r` of the line through its entries
/// at the point of the table and at its negative.
pub open spec fn fold_codeword(p: int, xs: Seq<int>, ws: Seq<int>, cw: Seq<int>, r: int) -> Seq<int> {
    Seq::new(
        cw.len() / 2,
        |q: int| (cw[2 * q] + (r - xs[q]) * ((cw[2 * q + 1] - cw[2 * q]) * ws[q])) % p,
    )
}

/// Folding a codeword gives the codeword of the folded message.
pub proof fn law_fold_codeword(
    p: int,
    table: Seq<Seq<int>>,
    log_rate: nat,
    m: Seq<int>,
    r: int,
    k: nat,
    xs: Seq<int>,
    ws: Seq<int>,
)
    requires
        p > 0,
        m.len() == two_to(k + 1),
        canonical(p, m),
        xs.len() == two_to(log_rate + k),
        ws.len() == xs.len(),
        forall|q: int|
            0 <= q < xs.len() ==> #[trigger] xs[q] == table[(log_rate + k) as int][reversed(
                q as nat,
                log_rate + k,
            ) as int],
        forall|q: int| 0 <= q < xs.len() ==> #[trigger] xs[q] != 0 && is_weight(p, xs[q], ws[q]),
    ensures
        fold_codeword(p, xs, ws, encode(p, table, log_rate, m), r) == encode(
            p,
            table,
            log_rate,
            fold(p, m, r),
        ),
{
    let h = m.len() / 2;
    assert(two_to(k + 1) == 2 * two_to(k));
    lemma_two_to_positive(k);
    assert(h == two_to(k));
    lemma_log2_two_to(k);
    let a0 = m.take(h as int);
    let d = Seq::new(h, |i: int| (m[h + i] - m[i]) % p);
    let f = fold(p, m, r);
    crate::multilinear::lemma_fold_canonical(p, m, r);
    assert forall|i: int| 0 <= i < h implies cong(p, #[trigger] f[i], a0[i] + r * d[i]) by {
        let e = m[h + i] - m[i];
        lemma_cong_mod(p, m[i] + e * r);
        lemma_cong_mod(p, e);
        lemma_cong_mul(p, r, r, e % p, e);
        lemma_cong_add(p, m[i], m[i], r * (e % p), r * e);
        assert(e * r == r * e) by (nonlinear_arith);
    }
    law_encode_linear(p, table, log_rate, a0, d, f, r, k);
    let (ea, eb, ef) = (
        encode(p, table, log_rate, a0),
        encode(p, table, log_rate, d),
        encode(p, table, log_rate, f),
    );
    let em = encode(p, table, log_rate, m);
    let g = fold_codeword(p, xs, ws, em, r);
    lemma_encode_canonical(p, table, log_rate, f);
    assert(em.len() == 2 * ea.len());
    assert forall|q: int| 0 <= q < g.len() implies g[q] == ef[q] by {
        let level = log_rate + k;
        let x = xs[q];
        let w = ws[q];
        assert(x == table[level as int][reversed(q as nat, level) as int]);
        assert((2 * q) / 2 == q && (2 * q) % 2 == 0);
        assert((2 * q + 1) / 2 == q && (2 * q + 1) % 2 == 1);
        let (a, b) = (ea[q], eb[q]);
        let (u, v) = (em[2 * q], em[2 * q + 1]);
        assert(u == (a + x * b) % p);
        assert(v == (a - x * b) % p);
        lemma_cong_mod(p, a + x * b);
        lemma_cong_mod(p, a - x * b);
        // (v - u) * w is b
        lemma_cong_sub(p, v, a - x * b, u, a + x * b);
        let xb = x * b;
        assert(a - xb - (a + xb) == -2 * xb);
        lemma_cong_mul(p, v - u, -2 * xb, w, w);
        assert((-2 * (x * b)) * w == ((-2 * x) * w) * b) by (nonlinear_arith);
        lemma_cong_mul(p, (-2 * x) * w, 1, b, b);
        assert(1 * b == b);
        assert(cong(p, (v - u) * w, b));
        lemma_cong_mul(p, r - x, r - x, (v - u) * w, b);
        lemma_cong_add(p, u, a + x * b, (r - x) * ((v - u) * w), (r - x) * b);
        assert((a + x * b) + (r - x) * b == a + r * b) by (nonlinear_arith);
        assert(cong(p, ef[q], a + r * b));
        let t = u + (r - x) * ((v - u) * w);
        lemma_cong_mod(p, t);
        lemma_mod_canonical(p, t);
        assert(0 <= ef[q] < p);
        lemma_canonical_unique(p, g[q], ef[q]);
    }
    assert(g =~= ef);
}

/// Encodes a message.
pub fn evaluate_over_foldable_domain<F: PrimeField>(
    log_rate: usize,
    m: &Vec<F>,
    table: &Vec<Vec<F>>,
) -> (r: Vec<F>)
    requires
        m@.len() >= 1,
        is_power_of_two(m@.len()),
        two_to((log_rate + log2_of(m@.len())) as nat) <= usize::MAX,
        table@.len() >= log_rate + log2_of(m@.len()),
        forall|l: int| 0 <= l < table@.len() ==> (#[trigger] table@[l])@.len() == two_to(l as nat),
    ensures
        vals(r@) == encode(F::modulus(), vals2(table@), log_rate as nat, vals(m@)),
    decreases m@.len(),
{
    let ghost p = F::modulus();
    let ghost mv = vals(m@);
    let ghost tv = vals2(table@);
    let len = m.len();
    if len == 1 {
        proof {
            assert(log2_of(1) == 0);
        }
        let n = pow_two(log_rate);
        let r = crate::field::repeat_element(m[0], n);
        assert(vals(r@) =~= encode(p, tv, log_rate as nat, mv));
        return r;
    }
    let h: usize = len / 2;
    let ghost k = log2_of(h as nat);
    proof {
        assert(log2_of(len as nat) == 1 + k);
        assert(two_to(1 + k) == 2 * two_to(k));
        lemma_log2_two_to(k);
        lemma_two_to_monotone((log_rate + k) as nat, (log_rate + 1 + k) as nat);
        assert(two_to((log_rate + 1 + k) as nat) == 2 * two_to((log_rate + k) as nat));
    }
    let mut lo: Vec<F> = Vec::new();
    let mut diff: Vec<F> = Vec::new();
    let mut i: usize = 0;
    while i < h
        invariant
            i <= h,
            len == m@.len(),
            h == len / 2,
            len == 2 * h,
            p == F::modulus(),
            mv == vals(m@),
            lo@.len() == i,
            diff@.len() == i,
            forall|j: int| 0 <= j < i ==> (#[trigger] lo@[j]).value() == mv[j],
            forall|j: int| 0 <= j < i ==> (#[trigger] diff@[j]).value() == (mv[h + j] - mv[j]) % p,
        decreases h - i,
    {
        lo.push(m[i]);
        diff.push(m[h + i].sub(m[i]));
        i += 1;
    }
    assert(vals(lo@) =~= mv.take(h as int));
    assert(vals(diff@) =~= Seq::new(h as nat, |i: int| (mv[h + i] - mv[i]) % p));
    let a = evaluate_over_foldable_domain(log_rate, &lo, table);
    let b = evaluate_over_foldable_domain(log_rate, &diff, table);
    let levels = table.len();
    assert(log_rate + k < levels);
    let level: usize = log_rate + log2(h);
    let n = a.len();
    proof {
        lemma_encode_len(p, tv, log_rate as nat, vals(lo@), k);
        lemma_encode_len(p, tv, log_rate as nat, vals(diff@), k);
        assert(vals(a@).len() == a@.len());
        assert(vals(b@).len() == b@.len());
    }
    let mut r: Vec<F> = Vec::new();
    i = 0;
    while i < n
        invariant
            i <= n,
            n == a@.len(),
            n == b@.len(),
            n == two_to(level as nat),
            2 * n <= usize::MAX,
            level < table@.len(),
            p == F::modulus(),
            tv == vals2(table@),
            forall|l: int| 0 <= l < table@.len() ==> (#[trigger] table@[l])@.len() == two_to(l as nat),
            r@.len() == 2 * i,
            forall|j: int|
                0 <= j < 2 * i ==> (#[trigger] r@[j]).value() == ({
                    let x = tv[level as int][reversed((j / 2) as nat, level as nat) as int];
                    if j % 2 == 0 {
                        (vals(a@)[j / 2] + x * vals(b@)[j / 2]) % p
                    } else {
                        (vals(a@)[j / 2] - x * vals(b@)[j / 2]) % p
                    }
                }),
        decreases n - i,
    {
        let q = reverse_bits(i, level);
        assert(table@[level as int]@.len() == two_to(level as nat));
        let x = table[level][q];
        let m = x.mul(b[i]);
        let u = a[i].add(m);
        let v = a[i].sub(m);
        proof {
            F::lemma_modulus();
            let xb = x.value() * b@[i as int].value();
            let av = a@[i as int].value();
            assert(x.value() == tv[level as int][q as int]);
            lemma_cong_mod(p, xb);
            lemma_cong_add(p, av, av, m.value(), xb);
            lemma_cong_sub(p, av, av, m.value(), xb);
            assert((2 * i) / 2 == i && (2 * i) % 2 == 0);
            assert((2 * i + 1) / 2 == i && (2 * i + 1) % 2 == 1);
        }
        r.push(u);
        r.push(v);
        i += 1;
    }
    assert(vals(r@) =~= encode(p, tv, log_rate as nat, mv));
    r
}

/// Folds a codeword at `challenge`, with the level of the table that is `table_offset` below the
/// highest.
pub fn basefold_one_round_by_interpolation_weights<F: PrimeField>(
    table: &Vec<Vec<(F, F)>>,
    table_offset: usize,
    values: &Vec<F>,
    challenge: F,
) -> (r: Vec<F>)
    requires
        table_offset < table@.len(),
        table@[table@.len() - 1 - table_offset]@.len() >= values@.len() / 2,
    ensures
        ({
            let level = table@[table@.len() - 1 - table_offset]@;
            vals(r@) == fold_codeword(
                F::modulus(),
                weight_points(level),
                weight_values(level),
                vals(values@),
                challenge.value(),
            )
        }),
{
    let ghost p = F::modulus();
    let l = table.len() - 1 - table_offset;
    let ghost xs = weight_points(table@[l as int]@);
    let ghost ws = weight_values(table@[l as int]@);
    let ghost cw = vals(values@);
    let n = values.len();
    let half: usize = n / 2;
    let mut r: Vec<F> = Vec::new();
    let mut q: usize = 0;
    while q < half
        invariant
            q <= half,
            n == values@.len(),
            half == n / 2,
            l < table@.len(),
            table@[l as int]@.len() >= half,
            p == F::modulus(),
            xs == weight_points(table@[l as int]@),
            ws == weight_values(table@[l as int]@),
            cw == vals(values@),
            r@.len() == q,
            forall|j: int|
                0 <= j < q ==> (#[trigger] r@[j]).value() == (cw[2 * j] + (challenge.value() - xs[j]) * ((
                cw[2 * j + 1] - cw[2 * j]) * ws[j])) % p,
        decreases half - q,
    {
        let (x, w) = table[l][q];
        let e0 = values[2 * q];
        let e1 = values[2 * q + 1];
        let d = e1.sub(e0);
        let s = d.mul(w);
        let t = challenge.sub(x);
        let m = t.mul(s);
        let v = e0.add(m);
        proof {
            F::lemma_modulus();
            let (a, b, c, xv, wv) = (
                e0.value(),
                e1.value(),
                challenge.value(),
                x.value(),
                w.value(),
            );
            lemma_cong_mod(p, b - a);
            lemma_cong_mul(p, d.value(), b - a, wv, wv);
            lemma_cong_mod(p, d.value() * wv);
            lemma_cong_mod(p, c - xv);
            lemma_cong_mul(p, t.value(), c - xv, s.value(), (b - a) * wv);
            lemma_cong_mod(p, t.value() * s.value());
            lemma_cong_add(p, a, a, m.value(), (c - xv) * ((b - a) * wv));
        }
        r.push(v);
        q += 1;
    }
    assert(vals(r@) =~= fold_codeword(p, xs, ws, cw, challenge.value()));
    r
}

/// A commitment to one polynomial: its codeword and the Merkle tree over it.
#[derive(Clone, Debug)]
pub struct BasefoldCommitment<F: PrimeField> {
    pub codeword: Type1Polynomial<F>,
    pub codeword_tree: Vec<Vec<Output>>,
    pub bh_evals: Type1Polynomial<F>,
}

impl<F: PrimeField> BasefoldCommitment<F> {
    /// The root of the tree.
    pub fn codeword_tree_root(&self) -> (r: &Output)
        requires
            self.codeword_tree@.len() >= 1,
            self.codeword_tree@[self.codeword_tree@.len() - 1]@.len() >= 1,
        ensures
            *r == self.codeword_tree@[self.codeword_tree@.len() - 1]@[0],
    {
        &self.codeword_tree[self.codeword_tree.len() - 1][0]
    }
}

/// Commits to a polynomial that is given by its values in bit-reversed order.
pub fn basefold_commit<F: PrimeField, H: HashFunction>(
    pp: &BasefoldProverParams<F>,
    poly: &Vec<F>,
) -> (r: BasefoldCommitment<F>)
    requires
        pp.wf(),
        poly@.len() == two_to(pp.num_vars as nat),
    ensures
        vals(r.codeword.poly@) == encode(
            F::modulus(),
            vals2(pp.table@),
            pp.log_rate as nat,
            vals(poly@),
        ),
        tree_view(r.codeword_tree@) == element_tree::<F, H>(vals(r.codeword.poly@)),
        r.bh_evals.poly@ == bit_reversed(poly@),
{
    proof {
        lemma_log2_two_to(pp.num_vars as nat);
        lemma_two_to_positive(pp.num_vars as nat);
    }
    let codeword = evaluate_over_foldable_domain(pp.log_rate, poly, &pp.table);
    proof {
        let n = (pp.log_rate + pp.num_vars) as nat;
        lemma_encode_len(
            F::modulus(),
            vals2(pp.table@),
            pp.log_rate as nat,
            vals(poly@),
            pp.num_vars as nat,
        );
        assert(vals(codeword@).len() == codeword@.len());
        lemma_log2_two_to(n);
        lemma_two_to_positive(n);
    }
    let codeword_tree = merkelize::<F, H>(&codeword);
    let mut evals = copy_elements(poly);
    reverse_index_bits_in_place(&mut evals);
    BasefoldCommitment {
        codeword: Type1Polynomial { poly: codeword },
        codeword_tree,
        bh_evals: Type1Polynomial { poly: evals },
    }
}

/// An entry of the table is the number of 32 bytes of the key stream of the seed, reduced: the bytes
/// of the entries of all levels stand one after the other, those of level `l` from the place
/// `32 * two_to(l)` on.
pub proof fn law_table_entry(p: int, seed: Seq<u8>, level: nat, index: nat)
    ensures
        ({
            let stream = chacha8_stream(seed);
            let d = aes128_ctr32le(
                stream.take(16),
                stream.skip(16),
                32 * (two_to(level) + index),
            );
            table_entry(p, seed, level, index as int) == sum_of(
                32,
                |i: int| d[i] as int * byte_bound(i as nat),
            ) % p
        }),
{
    let stream = chacha8_stream(seed);
    let d = aes128_ctr32le(stream.take(16), stream.skip(16), 32 * (two_to(level) + index));
    crate::binding::law_bytes_sum(d@);
    crate::sums::lemma_sum_ext(
        32,
        |i: int| d@[i] as int * byte_bound(i as nat),
        |i: int| d[i] as int * byte_bound(i as nat),
    );
}

/// The points of the entries of a codeword are those of the table in the first half of every block,
/// in their order, and the negatives of these in the second half.
pub proof fn law_query_points(p: int, seed: Seq<u8>, level: nat, i: nat, block: nat)
    requires
        p > 0,
        i < two_to(level),
    ensures
        ({
            let h = two_to(level);
            let at = 2 * h * block + i;
            let x = query_point_value(p, seed, 2 * h, at, level);
            let y = query_point_value(p, seed, 2 * h, at + h, level);
            &&& x == table_entry(p, seed, level, i as int)
            &&& cong(p, x + y, 0)
        }),
{
    let h = two_to(level);
    let n = 2 * h as int;
    let at = 2 * h * block + i;
    assert(at == n * block as int + i) by (nonlinear_arith)
        requires
            at == 2 * h * block + i,
            n == 2 * h as int,
    ;
    vstd::arithmetic::div_mod::lemma_mod_multiples_vanish(block as int, i as int, n);
    vstd::arithmetic::div_mod::lemma_mod_multiples_vanish(block as int, i as int + h, n);
    lemma_mod_small(n, i as int);
    lemma_mod_small(n, i as int + h);
    lemma_mod_small(h as int, i as int);
    vstd::arithmetic::div_mod::lemma_mod_multiples_vanish(1, i as int, h as int);
    let e = table_entry(p, seed, level, i as int);
    lemma_cong_mod(p, -e);
    lemma_cong_add(p, e, e, (-e) % p, -e);
}

} // verus!
