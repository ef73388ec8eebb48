//! Failures that abort a whole call. Record-level data problems are
//! never errors: the offending record is skipped instead.

use vstd::prelude::*;

verus! {

/// A structural failure: the call's own parameters or a structural field
/// were invalid, or an intermediate decimal result left the representable
/// range.
#[derive(Clone, Copy, Debug, PartialEq, Eq, Structural)]
pub enum CoreError {
    /// A decimal string (fee rate, trade price or size) was not numeric
    /// or not representable.
    InvalidDecimal,
    /// An epoch-microsecond timestamp lay outside the supported range.
    TimestampOutOfRange,
    /// A trade's side text was neither "BUY" nor "SELL" in any case.
    UnknownSide,
    /// An intermediate decimal computation overflowed 128 bits.
    Overflow,
}

impl CoreError {
    /// A short description of the failure.
    pub fn describe(&self) -> (r: &'static str)
        ensures
            r@ == self.spec_describe(),
    {
        match self {
            CoreError::InvalidDecimal => "invalid decimal",
            CoreError::TimestampOutOfRange => "timestamp out of range",
            CoreError::UnknownSide => "unknown side",
            CoreError::Overflow => "decimal overflow",
        }
    }

    /// The description text of each failure.
    pub open spec fn spec_describe(self) -> Seq<char> {
        match self {
            CoreError::InvalidDecimal => "invalid decimal"@,
            CoreError::TimestampOutOfRange => "timestamp out of range"@,
            CoreError::UnknownSide => "unknown side"@,
            CoreError::Overflow => "decimal overflow"@,
        }
    }
}

} // verus!
