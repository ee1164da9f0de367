//! A toy zero-knowledge proof pipeline built on verified modular arithmetic:
//! field elements, dense polynomials over a prime field, a rank-1 constraint
//! system (R1CS), its quadratic-arithmetic-program (QAP) transform, and a
//! deliberately simplified curve/pairing/proof layer around them.

pub mod circuit;
pub mod curve;
pub mod errors;
pub mod field;
pub mod pairing;
pub mod polynomial;
pub mod qap;
pub mod snark;
