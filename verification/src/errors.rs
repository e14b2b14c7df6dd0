use vstd::prelude::*;

verus! {

/// Errors surfaced by constructors and provers.  Verifiers never fail with an
/// error: they return `false` instead.
#[derive(Clone, Copy, Debug, PartialEq, Eq, Structural)]
pub enum Error {
    /// An evaluation vector whose length is not a power of two, or composed
    /// polynomials whose shapes do not match.
    InvalidShape,
    /// A layer, variable or wire index outside its range.
    IndexOutOfBounds,
    /// A list whose length does not match the expected variable count.
    LengthMismatch,
    /// A structurally broken proof input, such as duplicate sample points
    /// handed to interpolation.
    InvalidProof,
}

} // verus!
