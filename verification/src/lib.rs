//! Arithmetic circuits over the BN254 scalar field, with in-circuit
//! twisted-Edwards / Montgomery curve arithmetic in the style of JubJub.
//!
//! Signals are affine linear combinations over variables of a constraint
//! system; curve points are pairs of signals.  Each operation carries a
//! contract relating the witness values and the satisfiability of the
//! emitted constraints to modular arithmetic over `nat`.

pub mod field;
pub mod cs;
pub mod num;
pub mod boolean;
pub mod native;
pub mod bn256;
pub mod ecc;
pub mod bitify;
pub mod mux;

