use vstd::prelude::*;

verus! {

/// The structural errors of the library. A proof that fails its checks is not
/// an error: verification returns `false` for it.
#[derive(Clone, Copy, Debug, PartialEq, Eq, Structural)]
pub enum GkrError {
    /// A gate or layer index is out of range.
    InvalidWiring,
    /// An evaluation point has the wrong number of coordinates.
    InvalidArity,
    /// A table is not of power-of-two length, or tables that must agree in
    /// length do not.
    DimensionMismatch,
    /// A proof has the wrong number of rounds or of samples.
    MalformedProof,
}

} // verus!
