use vstd::prelude::*;

verus! {

/// Errors surfaced by the storage and schema layers.
///
/// All variants except `Internal` are considered user-facing; `Internal`
/// marks an invariant violation after which the caller must treat the
/// component that produced it as unusable.
#[derive(Clone, Debug)]
pub enum Error {
    Abort,
    Config(String),
    Internal(String),
    Parse(String),
    ReadOnly,
    Serialization,
    Value(String),
}

impl Error {
    /// True for the variant that reports an internal invariant violation.
    pub fn is_internal(&self) -> (r: bool)
        ensures
            r == (self matches Error::Internal(_)),
    {
        match self {
            Error::Internal(_) => true,
            _ => false,
        }
    }
}

} // verus!
