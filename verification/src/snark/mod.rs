//! A proof system for extended rank-one constraint systems.
pub mod accepted;
pub mod batcheval;
pub mod binding;
pub mod complete;
pub mod er1cs;
pub mod helper;
pub mod laws;
pub mod sound;
pub mod spartan;
pub mod sum_check;
