use vstd::prelude::*;

verus! {

/// Errors surfaced by the replicated store.
#[derive(Clone, Debug, PartialEq, Eq)]
pub enum Error {
    /// Command or result bytes that are malformed or of an unknown layout.
    Codec,
    /// A failure of the underlying storage engine.
    Store(String),
    /// A failure reported by the consensus collaborator, passed on unchanged.
    Consensus(String),
}

impl Error {
    /// Whether this is a codec error.
    pub fn is_codec(&self) -> (r: bool)
        ensures
            r == (*self is Codec),
    {
        match self {
            Error::Codec => true,
            _ => false,
        }
    }
}

} // verus!
