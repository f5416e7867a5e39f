//! A local hybrid document retrieval engine: documents are indexed in three
//! logically separate stores (document records, a lexical index, a vector
//! index) and queries are answered by fusing lexical relevance with semantic
//! similarity into one ranked result list.
//!
//! Scores are fixed-point integers: one logical unit of score is
//! `SCORE_SCALE` ticks, so similarity and fusion arithmetic stay in exactly
//! verifiable integer form.

use vstd::prelude::*;

pub mod embedder;
pub mod engine;
pub mod errors;
pub mod ingest;
pub mod fusion;
pub mod text;
pub mod lexical;
pub mod rank;
pub mod result;
pub mod score;
pub mod traits;

pub use embedder::BagEmbedder;
pub use engine::Document;
pub use engine::MemoryLocalSearchEngine;
pub use errors::EngineError;
pub use ingest::IngestionResult;
pub use ingest::JsonFileIngestor;
pub use ingest::ParsedDocumentFile;
pub use ingest::RawFileIngestor;
pub use ingest::RawTextFile;
pub use result::SearchResult;
pub use traits::DocumentIndexer;
pub use traits::DocumentRequest;
pub use traits::LocalSearch;
pub use traits::SearchType;

verus! {

/// Number of fixed-point ticks that stand for a score of one.
pub const SCORE_SCALE: i64 = 1_000_000;

} // verus!
