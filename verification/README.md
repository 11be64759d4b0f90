# brakingbase

A verified library for proving statements about multilinear polynomials.

- A commitment scheme: a polynomial is laid out in rows, each row is encoded with a sparse
  triangular code, and the columns are hashed into a Merkle tree. An opening proves the combined
  row and the code with a foldable code, sum-checks and a memory check.
- The protocols it is made of: sum-checks, grand-product circuits, folding with Merkle queries,
  and a transcript that both sides draw their challenges from.
- A proof system for relaxed rank-one constraints `Az * Bz = u * Cz + E`.

## Layout

- `src/` holds the library. Contracts are stated over integers modulo the order of a field, over
  tables of values, and over what has been sent. `brakingbase*.rs` is the commitment scheme,
  `basefold*.rs` the foldable code, `gkr/` the grand products, `snark/` the constraint system.
  Files with `laws` and `complete` in their names hold the proofs that honest runs are accepted.
- `app/` holds what is drawn at random and what is computed with floating-point numbers.
- `tests/` runs the library on concrete values.

## What is trusted

The field arithmetic of `halo2curves`, the hash of `blake2`, the streams of `rand_chacha`, `aes`
and `ctr`, and the bit reversal of `plonky2_util` are called through small wrappers in `fr.rs`,
`hash.rs` and `basefold.rs`. Nothing else is assumed.
