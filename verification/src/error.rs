//! Error taxonomy of the library.
//!
//! Every fallible operation returns one of these variants explicitly; no
//! primitive swallows an error or truncates silently.  A delete of a missing
//! id and clearing an empty cache are successful no-ops, not errors.

use vstd::prelude::*;

verus! {

/// Errors reported by the library.
#[derive(Clone, Debug, PartialEq)]
pub enum ContragError {
    /// A configuration file or value could not be read.
    ConfigError(String),
    /// A data source failed to provide an entity.
    DataSourceError(String),
    /// The embedding provider failed; wraps the provider's own message.
    EmbedderError(String),
    /// A vector store operation failed.
    VectorStoreError(String),
    /// A requested entity does not exist.
    EntityNotFound(String),
    /// A vector's length differs from the namespace's established dimension.
    DimensionMismatch { expected: usize, actual: usize },
    /// A search addressed a namespace that has never been created.
    NamespaceNotFound(String),
    /// An HTTP outcall failed.
    HttpOutcallError(String),
    /// A value could not be serialized or deserialized.
    SerializationError(String),
    /// An inter-canister call failed.
    CanisterCallError(String),
    /// A configuration value breaks the library's rules.
    InvalidConfig(String),
    /// Durable storage failed.
    StorageError(String),
    /// Context building failed.
    ContextBuildError(String),
    /// A long-running operation was cancelled by the caller.
    CancellationRequested,
}

pub type ContragResult<T> = Result<T, ContragError>;

} // verus!
