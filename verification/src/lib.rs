//! A polynomial commitment scheme for multilinear polynomials that opens rows of a sparse linear code
//! inside a foldable code, the sum-check and grand-product protocols that it is made of, and a proof
//! system for relaxed rank-one constraints on top of it.
#![allow(unused_imports)]
pub mod algebra;
pub mod bits;
pub mod error;
pub mod field;
pub mod fr;
pub mod hash;
pub mod sums;
pub mod transcript;
pub mod multilinear;
pub mod brakingbase_helper;
pub mod gkr;
pub mod rounds;
pub mod combiners;
pub mod memory;
pub mod merkle;
pub mod basefold;
pub mod indices;
pub mod basefold_batch;
pub mod basefold_laws;
pub mod sum_checks;
pub mod code;
pub mod timestamps;
pub mod poly;
pub mod layout;
pub mod brakingbase;
pub mod binding;
pub mod brakingbase_open;
pub mod brakingbase_verify;
pub mod evaluations;
pub mod brakingbase_laws;
pub mod brakingbase_complete;
pub mod soundness;
pub mod accepted;
pub mod opening_accepted;
pub mod batch_accepted;
pub mod refused;
pub mod opening_sound;
pub mod snark;
