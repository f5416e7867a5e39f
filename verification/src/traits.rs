//! Core vocabulary of the engine: search modes, indexing requests, and the
//! capability traits that storage backends implement.

use vstd::prelude::*;
use crate::errors::EngineError;
use crate::result::SearchResult;

verus! {

/// Search strategy for querying documents.
#[derive(Clone, Copy, Debug, PartialEq, Eq, Structural)]
pub enum SearchType {
    FullText,
    Semantic,
    Hybrid,
}

/// Request to index a document with content and metadata.
///
/// `path` is the unique key of the document across every store; `metadata`
/// is an optional list of key/value pairs carried through unchanged.
#[derive(Debug)]
pub struct DocumentRequest {
    pub path: String,
    pub content: String,
    pub metadata: Option<Vec<(String, String)>>,
}

/// Trait for managing documents in a search index.
///
/// An implementation names its own well-formedness in `inv`; every
/// operation preserves it. Nothing stronger is promised at the trait
/// level, so callers that need exact behaviour use a concrete engine.
pub trait DocumentIndexer {
    spec fn inv(&self) -> bool;

    fn insert_document(&mut self, request: DocumentRequest) -> (r: Result<(), EngineError>)
        requires
            old(self).inv(),
        ensures
            final(self).inv(),
    ;

    fn upsert_document(&mut self, request: DocumentRequest) -> (r: Result<(), EngineError>)
        requires
            old(self).inv(),
        ensures
            final(self).inv(),
    ;

    fn delete_document(&mut self, path: &str) -> (r: Result<(), EngineError>)
        requires
            old(self).inv(),
        ensures
            final(self).inv(),
    ;

    fn stats(&self) -> Result<i64, EngineError>
        requires
            self.inv(),
    ;

    fn refresh(&mut self) -> (r: Result<(), EngineError>)
        requires
            old(self).inv(),
        ensures
            final(self).inv(),
    ;
}

/// Trait for performing searches on indexed documents.
pub trait LocalSearch {
    spec fn search_inv(&self) -> bool;

    fn search(
        &self,
        query: &str,
        search_type: SearchType,
        top: Option<i8>,
        path_filters: Option<&[String]>,
    ) -> Result<Vec<SearchResult>, EngineError>
        requires
            self.search_inv(),
            query@.len() <= 250_000,
    ;
}

} // verus!
