//! Algebraic Normal Form (ANF) of Boolean functions.
//!
//! A Boolean function of `n` variables is given by its truth table: entry
//! `i` (for `0 <= i < 2^n`) is the output on the input assignment whose
//! bit `b` is bit `b` of `i`. The same function can equally be written as
//! an XOR-sum of AND-monomials; the coefficient of the monomial selected
//! by index `i` is the mod-2 sum of the truth-table outputs over all
//! assignments whose index is a submask of `i`. This crate computes that
//! coefficient table, in place, with the classic XOR butterfly over the
//! Boolean lattice, and proves the result against the submask-parity
//! definition.
//!
//! Two physical encodings of a table are supported: a bit-packed `u64`
//! (bit `i` holds entry `i`) and an explicit `Vec<bool>`. Each has a
//! precondition-checked entry point returning a `Result`, and a fast
//! entry point whose precondition is a verified `requires` clause.

pub mod anf;
mod arith;
pub mod laws;
pub mod packed;
pub mod transform;

pub use transform::{
    checked_bool_anf_transform_bool_array, checked_bool_anf_transform_unsigned,
    fast_bool_anf_transform_bool_array, fast_bool_anf_transform_unsigned, AnfError,
};
