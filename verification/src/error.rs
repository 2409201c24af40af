use vstd::prelude::*;

verus! {

/// Error type for fallible constructors of validated types.
#[derive(Debug, Clone, Copy, PartialEq, Eq, Structural)]
pub enum KikaError {
    /// A coordinate was NaN or infinite.
    NonFiniteCoordinate,
}

impl KikaError {
    /// The human-readable message for this error.
    pub fn message(&self) -> (r: String)
        ensures
            r@ == "coordinate must be finite (not NaN or infinite)"@,
    {
        match self {
            KikaError::NonFiniteCoordinate => String::from_str("coordinate must be finite (not NaN or infinite)"),
        }
    }
}

} // verus!
