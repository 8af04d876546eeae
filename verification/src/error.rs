//! The error kinds that the codec, the report builder and the argument
//! handling can return.

use vstd::prelude::*;

verus! {

/// Everything that can go wrong in this crate.
///
/// - `ArgumentError`: conflicting or missing command flags.
/// - `IoError`: a read or write on the source or sink failed; raised only
///   by unverified callers that drive the codec over real files.
/// - `TruncatedRecord`: a decoder saw a record header without its full
///   payload.
/// - `InvalidControlByte`: the advanced decoder saw a control byte that
///   the encoder can never produce.
/// - `ReportIncomplete`: a report was finalized before both sizes were
///   recorded.
#[derive(Clone, Copy, Debug, PartialEq, Eq, Structural)]
pub enum MyError {
    ArgumentError,
    IoError,
    TruncatedRecord,
    InvalidControlByte,
    ReportIncomplete,
}

impl MyError {
    /// A short human-readable description of the error.
    pub fn message(&self) -> (r: &'static str)
        ensures
            *self == MyError::ArgumentError ==> r@ == "Invalid flags combination."@,
            *self == MyError::IoError ==> r@ == "Input/output failure."@,
            *self == MyError::TruncatedRecord ==> r@ == "Record is truncated."@,
            *self == MyError::InvalidControlByte ==> r@ == "Invalid control byte."@,
            *self == MyError::ReportIncomplete ==> r@ == "Invalid report."@,
    {
        match self {
            MyError::ArgumentError => "Invalid flags combination.",
            MyError::IoError => "Input/output failure.",
            MyError::TruncatedRecord => "Record is truncated.",
            MyError::InvalidControlByte => "Invalid control byte.",
            MyError::ReportIncomplete => "Invalid report.",
        }
    }
}

} // verus!
