//! Prover side of a KZG multi-open polynomial commitment scheme over the
//! BN254 curve: univariate polynomial algebra over the scalar field, a mock
//! trusted setup producing the structured reference string, and the blob
//! prover that commits to a data vector and opens it at chosen indices.

use vstd::prelude::*;

pub mod blob;
pub mod field;
pub mod group;
pub mod poly;

verus! {

/// Failure cases surfaced by the polynomial algebra and the prover.
#[derive(Clone, Copy, Debug, PartialEq, Eq, Structural)]
pub enum Error {
    /// The divisor handed to Euclidean division is the zero polynomial.
    DivisionByZero,
    /// The group basis is shorter than the polynomial degree plus one.
    BasisTooShort,
    /// A duplicate, out-of-range, or over-long set of opening indices.
    InvalidOpenings,
    /// The blob polynomial minus the interpolant is not divisible by the
    /// vanishing polynomial of the opening set.
    NonDivisible,
    /// The data length is not the domain size `2^K`.
    DomainSizeMismatch,
}

} // verus!
