use vstd::prelude::*;

verus! {

/// The failure kinds shared by the whole library.
///
/// `CircuitError` reports, for an unsatisfied rank-1 constraint, the position
/// of the first constraint (in insertion order) whose product check failed;
/// witness-shape problems (an empty witness, an out-of-range variable index)
/// carry no position.
#[derive(Debug, Clone, PartialEq, Eq)]
pub enum ZKError {
    /// A zero modulus at construction, mismatched moduli in a binary
    /// operation, or an element with no modular inverse.
    InvalidFieldElement,
    /// A malformed witness, or an unsatisfied constraint (with its position).
    CircuitError { unsatisfied: Option<usize> },
    /// An empty coefficient list, mismatched polynomial moduli, an empty
    /// interpolation point set, a divisor whose leading coefficient has no
    /// inverse, or a non-zero remainder in the witness-quotient division.
    PolynomialError,
}

} // verus!
