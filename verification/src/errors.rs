use vstd::prelude::*;

verus! {

/// The error this pipeline raises itself: an operation was requested with a
/// bad enum value, a bad matrix shape, a zero-area raster, or an unsupported
/// mode combination. The payload is a human-readable description.
#[derive(Debug)]
pub enum PuhuError {
    InvalidOperation(String),
}

impl PuhuError {
    /// The description carried by the error.
    pub fn message(&self) -> (m: &String)
        ensures
            *self matches PuhuError::InvalidOperation(s) && m@ == s@,
    {
        match self {
            PuhuError::InvalidOperation(s) => s,
        }
    }
}

} // verus!
