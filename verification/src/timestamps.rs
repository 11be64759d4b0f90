//! The times at which the entries of a table are read.
use vstd::prelude::*;
use vstd::arithmetic::div_mod::lemma_add_mod_noop;
use crate::algebra::{lemma_cong_add, lemma_cong_mod, lemma_mod_small};
use crate::field::{PrimeField, repeat_element, vals};
use crate::indices::low_word;
use crate::memory::reads_of;

verus! {

/// The address that an element stands for: its lowest 32 bits.
pub open spec fn address(x: int) -> int {
    x % 0x1_0000_0000
}

/// The addresses of `n` reads, of which those from `actual` on repeat the first.
pub open spec fn addresses(s: Seq<int>, n: nat, actual: nat) -> Seq<int> {
    Seq::new(
        n,
        |i: int|
            if i < actual {
                address(s[i])
            } else {
                address(s[0])
            },
    )
}

/// For every read, how often its address was read before.
pub open spec fn read_times(p: int, a: Seq<int>) -> Seq<int> {
    Seq::new(a.len(), |i: int| reads_of(a, a[i], i as nat) as int % p)
}

/// For every address of a memory, how often it was read in all.
pub open spec fn final_times(p: int, a: Seq<int>, memory_size: nat) -> Seq<int> {
    Seq::new(memory_size, |i: int| reads_of(a, i, a.len()) as int % p)
}

/// The times of the reads from one table.
pub(crate) fn stamp<F: PrimeField>(
    source: &Vec<F>,
    num_reads: usize,
    memory_size: usize,
    actual_reads: usize,
) -> (r: (Vec<F>, Vec<F>))
    requires
        actual_reads <= num_reads,
        actual_reads <= source@.len(),
        actual_reads < num_reads ==> source@.len() >= 1,
        forall|i: int|
            0 <= i < num_reads ==> #[trigger] addresses(
                vals(source@),
                num_reads as nat,
                actual_reads as nat,
            )[i] < memory_size,
    ensures
        ({
            let a = addresses(vals(source@), num_reads as nat, actual_reads as nat);
            &&& vals(r.0@) == read_times(F::modulus(), a)
            &&& vals(r.1@) == final_times(F::modulus(), a, memory_size as nat)
        }),
{
    let ghost p = F::modulus();
    let ghost a = addresses(vals(source@), num_reads as nat, actual_reads as nat);
    let mut read_ts: Vec<F> = Vec::new();
    let mut final_ts: Vec<F> = repeat_element(F::zero(), memory_size);
    proof {
        F::lemma_modulus();
        lemma_mod_small(p, 0);
    }
    let mut i: usize = 0;
    while i < num_reads
        invariant
            i <= num_reads,
            actual_reads <= num_reads,
            actual_reads <= source@.len(),
            actual_reads < num_reads ==> source@.len() >= 1,
            a == addresses(vals(source@), num_reads as nat, actual_reads as nat),
            forall|i: int| 0 <= i < num_reads ==> #[trigger] a[i] < memory_size,
            p == F::modulus(),
            p > 0x1_0000_0000,
            final_ts@.len() == memory_size,
            read_ts@.len() == i,
            forall|j: int|
                0 <= j < i ==> (#[trigger] read_ts@[j]).value() == reads_of(a, a[j], j as nat) as int
                    % p,
            forall|k: int|
                0 <= k < memory_size ==> (#[trigger] final_ts@[k]).value() == reads_of(
                    a,
                    k,
                    i as nat,
                ) as int % p,
        decreases num_reads - i,
    {
        let k: usize = if i < actual_reads { i } else { 0 };
        let idx = low_word(source[k]) as usize;
        assert(a[i as int] == idx);
        let t = final_ts[idx];
        let next = t.add(F::one());
        read_ts.push(t);
        final_ts.set(idx, next);
        proof {
            let n = reads_of(a, idx as int, i as nat) as int;
            lemma_cong_mod(p, n);
            lemma_cong_add(p, t.value(), n, 1, 1);
        }
        i += 1;
    }
    assert(vals(read_ts@) =~= read_times(p, a));
    assert(vals(final_ts@) =~= final_times(p, a, memory_size as nat));
    (read_ts, final_ts)
}

/// The times of the reads of rows and columns: for each read how often its address was read
/// before, and for each address how often it was read in all. Reads from `actual_reads` on repeat
/// the first.
pub fn get_timestamps<F: PrimeField>(
    row: &Vec<F>,
    col: &Vec<F>,
    memory_size: usize,
    actual_reads: usize,
) -> (r: (Vec<F>, Vec<F>, Vec<F>, Vec<F>))
    requires
        actual_reads <= row@.len(),
        actual_reads <= col@.len(),
        actual_reads < row@.len() ==> col@.len() >= 1,
        forall|i: int|
            0 <= i < row@.len() ==> #[trigger] addresses(
                vals(row@),
                row@.len(),
                actual_reads as nat,
            )[i] < memory_size,
        forall|i: int|
            0 <= i < row@.len() ==> #[trigger] addresses(
                vals(col@),
                row@.len(),
                actual_reads as nat,
            )[i] < memory_size,
    ensures
        ({
            let p = F::modulus();
            let a = addresses(vals(row@), row@.len(), actual_reads as nat);
            let b = addresses(vals(col@), row@.len(), actual_reads as nat);
            &&& vals(r.0@) == read_times(p, a)
            &&& vals(r.1@) == final_times(p, a, memory_size as nat)
            &&& vals(r.2@) == read_times(p, b)
            &&& vals(r.3@) == final_times(p, b, memory_size as nat)
        }),
{
    let n = row.len();
    let (read_ts_row, final_ts_row) = stamp(row, n, memory_size, actual_reads);
    let (read_ts_col, final_ts_col) = stamp(col, n, memory_size, actual_reads);
    (read_ts_row, final_ts_row, read_ts_col, final_ts_col)
}

} // verus!
