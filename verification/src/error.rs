//! The failures that the log core reports.

use vstd::prelude::*;

verus! {

/// Why an operation of the log core failed.
#[derive(Clone, Copy, Debug, PartialEq, Eq, Structural)]
pub enum CoreError {
    /// Key material is missing, malformed or of the wrong length.
    Configuration,
    /// Fewer valid signatures than the threshold could be produced or
    /// verified.
    QuorumUnreachable,
    /// A tree head was built on a stale view of the chain.
    ConcurrentAppend,
    /// Reading or writing the persisted log failed.
    Io,
    /// A leaf, a signature or a stored record is malformed.
    Decode,
    /// The persisted chain is corrupt.
    Integrity,
}

impl CoreError {
    /// Whether the caller should try the operation again: after restoring a
    /// cosigner, or after reading the latest tree head anew.
    pub fn is_retryable(&self) -> (retry: bool)
        ensures
            retry == (*self == CoreError::QuorumUnreachable || *self == CoreError::ConcurrentAppend),
    {
        match self {
            CoreError::QuorumUnreachable => true,
            CoreError::ConcurrentAppend => true,
            _ => false,
        }
    }

    /// A short name for the failure.
    pub fn name(&self) -> (name: &'static str)
        ensures
            name@ == match *self {
                CoreError::Configuration => "ConfigurationError"@,
                CoreError::QuorumUnreachable => "QuorumUnreachableError"@,
                CoreError::ConcurrentAppend => "ConcurrentAppendError"@,
                CoreError::Io => "IOError"@,
                CoreError::Decode => "DecodeError"@,
                CoreError::Integrity => "IntegrityError"@,
            },
    {
        match self {
            CoreError::Configuration => "ConfigurationError",
            CoreError::QuorumUnreachable => "QuorumUnreachableError",
            CoreError::ConcurrentAppend => "ConcurrentAppendError",
            CoreError::Io => "IOError",
            CoreError::Decode => "DecodeError",
            CoreError::Integrity => "IntegrityError",
        }
    }
}

} // verus!
