use vstd::prelude::*;

verus! {

/// Failures of a storage backend, by the taxonomy the store uses:
/// a read or write against the medium failed, the persisted state was
/// malformed, or the backend resource could not be opened at startup.
#[derive(Clone, Copy, Debug, PartialEq, Eq, Structural)]
pub enum StorageError {
    /// A read or write against the storage medium failed.
    Io,
    /// The persisted document, or a stored timestamp, was malformed.
    Parse,
    /// The backend resource could not be opened or created.
    Init,
}

/// Failures of the backend selector: the configuration string was not of
/// the form `PROVIDER:PATH`, or the provider token was not recognised.
#[derive(Clone, Copy, Debug, PartialEq, Eq, Structural)]
pub enum ConfigError {
    /// The configuration string does not split into exactly two parts.
    Malformed,
    /// The provider token matches neither known backend.
    UnknownProvider,
}

} // verus!
