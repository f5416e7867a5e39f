//! Error taxonomy of the engine.

use vstd::prelude::*;

verus! {

/// Everything an engine operation can fail with.
///
/// - `DuplicateKey`: an insert named a path that is already stored.
/// - `NotConfigured`: a semantic search was requested but the engine has no
///   embedding provider attached.
/// - `Storage`: the storage backend failed.
/// - `Provider`: the embedding provider failed to compute a vector.
/// - `ReferentialIntegrity`: a vector write named a path with no document
///   record behind it.
#[derive(Clone, Copy, Debug, PartialEq, Eq, Structural)]
pub enum EngineError {
    DuplicateKey,
    NotConfigured,
    Storage,
    Provider,
    ReferentialIntegrity,
}

impl EngineError {
    /// A short human-readable description of the error.
    pub fn describe(&self) -> (r: &'static str)
    {
        match self {
            EngineError::DuplicateKey => "a document with this path already exists",
            EngineError::NotConfigured => "semantic search requires an embedding provider",
            EngineError::Storage => "the storage backend failed",
            EngineError::Provider => "the embedding provider failed",
            EngineError::ReferentialIntegrity => "no document record exists for this path",
        }
    }
}

} // verus!
