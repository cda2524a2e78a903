//! The ways in which mining a commit can fail.

use vstd::prelude::*;

verus! {

/// Why an operation of this library, or of a session built on it, failed.
#[derive(Debug, Clone, Copy, PartialEq, Eq, Structural)]
pub enum MineError {
    /// The commit is not valid text, or a structural marker that the nonce placement
    /// depends on is missing.
    MalformedCommitEncoding,
    /// Every nonce of the search space was tried and none reached the target.
    SearchSpaceExhausted,
    /// The object store refused a value handed to it.
    ObjectStoreFailure,
    /// A nonce value lies outside the 128-bit domain.
    EncodingOverflow,
}

impl MineError {
    /// A short diagnostic for the error.
    pub fn describe(&self) -> (text: &'static str)
        ensures
            text@ == match *self {
                MineError::MalformedCommitEncoding => "malformed commit encoding"@,
                MineError::SearchSpaceExhausted => "search space exhausted"@,
                MineError::ObjectStoreFailure => "object store failure"@,
                MineError::EncodingOverflow => "nonce encoding overflow"@,
            },
    {
        match self {
            MineError::MalformedCommitEncoding => "malformed commit encoding",
            MineError::SearchSpaceExhausted => "search space exhausted",
            MineError::ObjectStoreFailure => "object store failure",
            MineError::EncodingOverflow => "nonce encoding overflow",
        }
    }
}

} // verus!
