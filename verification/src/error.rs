//! Why a fit can fail.
use vstd::prelude::*;

verus! {

/// The reason for which no fit was found.
#[derive(Debug, Clone, Copy, PartialEq, Eq)]
pub enum Error {
    /// There is no data to fit to.
    NoData,
    /// There are more free coefficients than data points; holds the larger degree.
    DegreeTooHigh(usize),
    /// The singular value decomposition did not converge.
    DidNotConverge,
    /// A count has no value in the number type.
    CastFailed,
    /// The linear system has no usable solution.
    Algebra(&'static str),
}

} // verus!
