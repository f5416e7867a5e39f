//! Batch ingestion: feeding already-read files into a document indexer
//! and tallying what succeeded and what failed. Reading files from disk
//! and parsing their bytes stay with the surrounding application; the
//! tally and the indexing decisions live here.

use vstd::prelude::*;
use vstd::string::StringExecFns;
use crate::errors::EngineError;
use crate::result::meta_view;
use crate::traits::DocumentIndexer;
use crate::traits::DocumentRequest;

verus! {

/// Tally of one ingestion run.
pub struct IngestionResult {
    pub indexed_count: usize,
    pub failed_count: usize,
    pub failed_files: Vec<String>,
    pub total_document_count: i64,
}

impl IngestionResult {
    /// An empty tally.
    pub fn new() -> (r: IngestionResult)
        ensures
            r.indexed_count == 0,
            r.failed_count == 0,
            r.failed_files@.len() == 0,
            r.total_document_count == 0,
    {
        IngestionResult {
            indexed_count: 0,
            failed_count: 0,
            failed_files: Vec::new(),
            total_document_count: 0,
        }
    }

    /// Records one successfully indexed file.
    pub fn add_success(&mut self)
        requires
            old(self).indexed_count < usize::MAX,
        ensures
            final(self).indexed_count == old(self).indexed_count + 1,
            final(self).failed_count == old(self).failed_count,
            final(self).failed_files == old(self).failed_files,
            final(self).total_document_count == old(self).total_document_count,
    {
        self.indexed_count = self.indexed_count + 1;
    }

    /// Records one failed file, keeping its name and the error text.
    pub fn add_failure(&mut self, file_path: &str, error: &str)
        requires
            old(self).failed_count < usize::MAX,
        ensures
            final(self).failed_count == old(self).failed_count + 1,
            final(self).indexed_count == old(self).indexed_count,
            final(self).total_document_count == old(self).total_document_count,
            final(self).failed_files@.len() == old(self).failed_files@.len() + 1,
            final(self).failed_files@.last()@ == file_path@ + ": "@ + error@,
            final(self).failed_files@.subrange(0, old(self).failed_files@.len() as int) == old(
                self,
            ).failed_files@,
    {
        self.failed_count = self.failed_count + 1;
        let mut message: String = String::from_str(file_path);
        message.append(": ");
        message.append(error);
        let ghost pre = self.failed_files@;
        self.failed_files.push(message);
        proof {
            assert(self.failed_files@.subrange(0, pre.len() as int) =~= pre);
        }
    }
}

/// Copies an indexing request, preserving its value.
pub fn clone_request(r: &DocumentRequest) -> (c: DocumentRequest)
    ensures
        c.path@ == r.path@,
        c.content@ == r.content@,
        meta_view(c.metadata) == meta_view(r.metadata),
{
    DocumentRequest {
        path: r.path.clone(),
        content: r.content.clone(),
        metadata: crate::result::clone_metadata(&r.metadata),
    }
}

/// Asks the indexer for its document count and stores it in the tally;
/// a failing count is recorded as minus one.
pub fn update_total_document_count<I: DocumentIndexer>(
    indexer: &I,
    ingestion_result: &mut IngestionResult,
)
    requires
        indexer.inv(),
    ensures
        final(ingestion_result).indexed_count == old(ingestion_result).indexed_count,
        final(ingestion_result).failed_count == old(ingestion_result).failed_count,
        final(ingestion_result).failed_files == old(ingestion_result).failed_files,
{
    match indexer.stats() {
        Ok(count) => {
            ingestion_result.total_document_count = count;
        },
        Err(_) => {
            ingestion_result.total_document_count = -1;
        },
    }
}

/// One file of parsed document requests, or the reason it could not be
/// read or parsed.
pub struct ParsedDocumentFile {
    pub name: String,
    pub docs: Result<Vec<DocumentRequest>, String>,
}

/// One raw text file, or the reason it could not be read.
pub struct RawTextFile {
    pub name: String,
    pub content: Result<String, String>,
}

/// How many of the first `n` files could not be read or parsed.
pub open spec fn parse_failures(files: Seq<ParsedDocumentFile>, n: int) -> int
    decreases n,
{
    if n <= 0 {
        0
    } else {
        parse_failures(files, n - 1) + if files[n - 1].docs is Err {
            1int
        } else {
            0int
        }
    }
}

/// How many of the first `n` files could not be read.
pub open spec fn read_failures(files: Seq<RawTextFile>, n: int) -> int
    decreases n,
{
    if n <= 0 {
        0
    } else {
        read_failures(files, n - 1) + if files[n - 1].content is Err {
            1int
        } else {
            0int
        }
    }
}

/// Ingestor for files that hold lists of document requests.
pub struct JsonFileIngestor<I: DocumentIndexer> {
    pub indexer: I,
}

impl<I: DocumentIndexer> JsonFileIngestor<I> {
    /// Creates an ingestor around the given indexer.
    pub fn new(indexer: I) -> (r: JsonFileIngestor<I>)
        requires
            indexer.inv(),
        ensures
            r.indexer.inv(),
    {
        JsonFileIngestor { indexer }
    }

    /// Ingests a batch of parsed files: every request of a readable file
    /// is upserted; a file fails when it could not be parsed or any of
    /// its upserts fails. Exactly one of success or failure is tallied
    /// per file, and an unparsable file is never tallied as a success.
    pub fn ingest(&mut self, files: &Vec<ParsedDocumentFile>) -> (r: IngestionResult)
        requires
            old(self).indexer.inv(),
        ensures
            final(self).indexer.inv(),
            r.indexed_count + r.failed_count == files@.len(),
            r.failed_count >= parse_failures(files@, files@.len() as int),
    {
        let mut result: IngestionResult = IngestionResult::new();
        let mut i: usize = 0;
        while i < files.len()
            invariant
                i <= files@.len(),
                self.indexer.inv(),
                result.indexed_count + result.failed_count == i,
                result.failed_count >= parse_failures(files@, i as int),
            decreases files@.len() - i,
        {
            match &files[i].docs {
                Err(e) => {
                    result.add_failure(files[i].name.as_str(), e.as_str());
                },
                Ok(docs) => {
                    let mut ok: bool = true;
                    let mut j: usize = 0;
                    while j < docs.len()
                        invariant
                            j <= docs@.len(),
                            self.indexer.inv(),
                        decreases docs@.len() - j,
                    {
                        let request: DocumentRequest = clone_request(&docs[j]);
                        match self.indexer.upsert_document(request) {
                            Ok(_) => {},
                            Err(_) => {
                                ok = false;
                            },
                        }
                        j = j + 1;
                    }
                    if ok {
                        result.add_success();
                    } else {
                        result.add_failure(files[i].name.as_str(), "a document was not indexed");
                    }
                },
            }
            i = i + 1;
        }
        update_total_document_count(&self.indexer, &mut result);
        result
    }
}

/// Ingestor for raw text files: each file becomes one document whose
/// path is the file name.
pub struct RawFileIngestor<I: DocumentIndexer> {
    pub indexer: I,
}

impl<I: DocumentIndexer> RawFileIngestor<I> {
    /// Creates an ingestor around the given indexer.
    pub fn new(indexer: I) -> (r: RawFileIngestor<I>)
        requires
            indexer.inv(),
        ensures
            r.indexer.inv(),
    {
        RawFileIngestor { indexer }
    }

    /// Ingests a batch of raw files: every readable file is upserted as
    /// one document without metadata. Exactly one of success or failure
    /// is tallied per file, and an unreadable file is never tallied as a
    /// success.
    pub fn ingest(&mut self, files: &Vec<RawTextFile>) -> (r: IngestionResult)
        requires
            old(self).indexer.inv(),
        ensures
            final(self).indexer.inv(),
            r.indexed_count + r.failed_count == files@.len(),
            r.failed_count >= read_failures(files@, files@.len() as int),
    {
        let mut result: IngestionResult = IngestionResult::new();
        let mut i: usize = 0;
        while i < files.len()
            invariant
                i <= files@.len(),
                self.indexer.inv(),
                result.indexed_count + result.failed_count == i,
                result.failed_count >= read_failures(files@, i as int),
            decreases files@.len() - i,
        {
            match &files[i].content {
                Err(e) => {
                    result.add_failure(files[i].name.as_str(), e.as_str());
                },
                Ok(content) => {
                    let request = DocumentRequest {
                        path: files[i].name.clone(),
                        content: content.clone(),
                        metadata: None,
                    };
                    match self.indexer.upsert_document(request) {
                        Ok(_) => {
                            result.add_success();
                        },
                        Err(_) => {
                            result.add_failure(files[i].name.as_str(), "the document was not indexed");
                        },
                    }
                },
            }
            i = i + 1;
        }
        update_total_document_count(&self.indexer, &mut result);
        result
    }
}

} // verus!
