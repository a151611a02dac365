//! The converter's combined error type.

use vstd::prelude::*;

use crate::krad::KradError;
use crate::radk::RadkError;

verus! {

/// Everything a converter run can fail with: a decomposition parse, a
/// membership parse, or the caller's file handling.
#[derive(Debug, Clone, Copy, PartialEq, Eq, Structural)]
pub enum ConvertError {
    /// Error during krad parsing
    Krad(KradError),
    /// Error during radk parsing
    Radk(RadkError),
    /// Error while reading or writing a file; raised only by callers that
    /// do the reading and writing
    Io,
}

impl ConvertError {
    /// A short description of the failure.
    pub fn message(&self) -> (r: &'static str)
        ensures
            (match self {
                ConvertError::Krad(_) => r@ == "Error during krad parsing"@,
                ConvertError::Radk(_) => r@ == "Error during radk parsing"@,
                ConvertError::Io => r@ == "IO error"@,
            }),
    {
        match self {
            ConvertError::Krad(_) => "Error during krad parsing",
            ConvertError::Radk(_) => "Error during radk parsing",
            ConvertError::Io => "IO error",
        }
    }
}

} // verus!
