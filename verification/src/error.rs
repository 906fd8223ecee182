use vstd::prelude::*;

verus! {

/// Every way an operation of this crate can be refused.
///
/// The first three arise while decoding text, before any state is touched.
/// `InsufficientFunds` is a legitimate business outcome of a debit.
/// `DegenerateRatio` and `PoolInvariantViolation` report arithmetic that
/// produced a non-positive reserve; they indicate an internal inconsistency
/// rather than a user mistake. `DivisionByZero` reports a divisor that was
/// not actually positive despite the refinement contract.
#[derive(Clone, Copy, PartialEq, Eq, Structural, Debug)]
pub enum Fault {
    /// Malformed decimal or price text.
    ParseError,
    /// Wrong currency symbol on a tagged amount or price.
    AssetMismatch,
    /// Attempted construction of a zero positive value, a negative
    /// unsigned value, or a signed negative zero.
    InvalidRefinement,
    /// An unsigned subtraction whose subtrahend exceeds the minuend.
    Underflow,
    /// A positive subtraction whose result would not be strictly positive.
    NonPositiveResult,
    /// A debit larger than the owner's balance.
    InsufficientFunds,
    /// A price ratio that floored to zero.
    DegenerateRatio,
    /// A swap that would leave a pool reserve non-positive.
    PoolInvariantViolation,
    /// A division whose divisor was zero.
    DivisionByZero,
}

/// A client-side failure: either a transported message or a failing
/// HTTP round trip.
#[derive(Clone, PartialEq, Eq, Debug)]
pub enum Error {
    Other(String),
    HttpRequestFailure { status: u16 },
}

impl Error {
    /// Wraps any displayable error as an [`Error::Other`] message.
    pub fn from_other_error<E: core::fmt::Display>(e: E) -> (r: Error)
        ensures
            r is Other,
    {
        Error::Other(e.to_string())
    }
}

} // verus!
