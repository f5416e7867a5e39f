//! The in-memory hybrid retrieval engine: three logically separate stores
//! (document records, a lexical index, a vector index) kept consistent
//! under insert, upsert and delete, and queried through lexical, semantic
//! and hybrid search.

use vstd::prelude::*;
use vstd::relations::sorted_by;
use vstd::seq_lib::group_to_multiset_ensures;
use vstd::string::StringSliceAdditionalSpecFns;
use crate::SCORE_SCALE;
use crate::embedder::BagEmbedder;
use crate::embedder::spec_embed;
use crate::errors::EngineError;
use crate::text::string_bytes;
use crate::text::bytes_eq;
use crate::traits::DocumentRequest;
use crate::fusion::prob_of;
use crate::fusion::prob_normalize;
use crate::fusion::ridx_of;
use crate::fusion::lemma_ridx_of;
use crate::fusion::lemma_ridx_preserved_push;
use crate::fusion::scores_in_cap;
use crate::fusion::spec_sum;
use crate::fusion::lemma_sum_component;
use crate::fusion::RAW_CAP;
use crate::fusion::SEM_CAP;
use crate::fusion::base_eq;
use crate::fusion::fuse_results;
use crate::fusion::fused_entry_ok;
use crate::fusion::max_normalize;
use crate::fusion::max_scaled;
use crate::fusion::max_score;
use crate::fusion::sem_scores_ok;
use crate::text::spec_tokens;
use crate::text::tokenize;
use crate::traits::SearchType;
use crate::traits::DocumentIndexer;
use crate::traits::LocalSearch;
use crate::result::opt_score;
use crate::score::MAX_DIM;
use crate::score::comps_in_cap;
use crate::score::cosine_similarity;
use crate::score::div_to_zero;
use crate::score::lemma_dot_prefix_bound;
use crate::score::spec_dot;
use crate::lexical::filters_view;
use crate::lexical::lex_raw;
use crate::lexical::lemma_lex_raw_bounds;
use crate::lexical::lex_raw_score;
use crate::lexical::passes;
use crate::lexical::passes_filter;
use crate::lexical::MAX_QUERY_TOKENS;
use crate::rank::path_of;
use crate::rank::paths_distinct;
use crate::rank::rank_leq;
use crate::rank::sort_results;
use crate::result::SearchResult;
use crate::result::clone_metadata;
use crate::result::meta_view;
use crate::text::views_of;
use vstd::pervasive::VecAdditionalExecFns;

verus! {

/// A stored document record: the canonical content and metadata of one
/// indexed document, keyed by its unique path. Timestamps are ticks of
/// the engine's logical clock, which advances on every write.
pub struct Document {
    pub path: String,
    pub content: String,
    pub metadata: Option<Vec<(String, String)>>,
    pub created_at: u64,
    pub updated_at: u64,
}

/// One entry of the lexical index: it mirrors the document's content.
pub struct FtsEntry {
    pub path: String,
    pub content: String,
}

/// One entry of the vector index: the stored embedding of a document.
pub struct EmbeddingRecord {
    pub path: String,
    pub vector: Vec<i64>,
}

/// The byte view of a document's path.
pub open spec fn doc_path(d: Document) -> Seq<u8> {
    string_bytes(d.path)
}

/// No two documents share a path.
pub open spec fn docs_distinct(docs: Seq<Document>) -> bool {
    forall|i: int, j: int|
        0 <= i < j < docs.len() ==> doc_path(#[trigger] docs[i]) != doc_path(#[trigger] docs[j])
}

/// The index of the first document with the given path, or `-1`.
pub open spec fn idx_of(docs: Seq<Document>, p: Seq<u8>) -> int
    decreases docs.len(),
{
    if docs.len() == 0 {
        -1
    } else if doc_path(docs[0]) == p {
        0
    } else {
        let r = idx_of(docs.drop_first(), p);
        if r < 0 {
            -1
        } else {
            r + 1
        }
    }
}

pub proof fn lemma_idx_of(docs: Seq<Document>, p: Seq<u8>)
    ensures
        -1 <= idx_of(docs, p) < docs.len(),
        idx_of(docs, p) >= 0 ==> doc_path(docs[idx_of(docs, p)]) == p,
        idx_of(docs, p) < 0 ==> forall|k: int|
            0 <= k < docs.len() ==> doc_path(#[trigger] docs[k]) != p,
    decreases docs.len(),
{
    if docs.len() > 0 && doc_path(docs[0]) != p {
        lemma_idx_of(docs.drop_first(), p);
        if idx_of(docs, p) < 0 {
            assert forall|k: int| 0 <= k < docs.len() implies doc_path(#[trigger] docs[k]) != p by {
                if k > 0 {
                    assert(docs[k] == docs.drop_first()[k - 1]);
                }
            }
        }
    }
}

/// If the first `i` documents all miss `p` and document `i` carries it,
/// the first index with path `p` is exactly `i`.
pub proof fn lemma_idx_of_found(docs: Seq<Document>, p: Seq<u8>, i: int)
    requires
        0 <= i < docs.len(),
        doc_path(docs[i]) == p,
        forall|k: int| 0 <= k < i ==> doc_path(#[trigger] docs[k]) != p,
    ensures
        idx_of(docs, p) == i,
    decreases i,
{
    if i > 0 {
        lemma_idx_of_found(docs.drop_first(), p, i - 1);
    }
}

pub proof fn lemma_idx_of_none(docs: Seq<Document>, p: Seq<u8>)
    requires
        forall|k: int| 0 <= k < docs.len() ==> doc_path(#[trigger] docs[k]) != p,
    ensures
        idx_of(docs, p) == -1,
    decreases docs.len(),
{
    if docs.len() > 0 {
        lemma_idx_of_none(docs.drop_first(), p);
    }
}

/// The document count as reported by `stats`: the length of the document
/// store, saturated into a signed 64-bit count.
pub open spec fn spec_count(docs: Seq<Document>) -> int {
    if docs.len() <= 0x7fff_ffff_ffff_ffff {
        docs.len() as int
    } else {
        0x7fff_ffff_ffff_ffff
    }
}

/// The in-memory hybrid search engine.
///
/// The document store, the lexical index and the vector index are three
/// separate relations, all keyed by path; `wf` states the consistency
/// that every write operation preserves: paths are unique, the lexical
/// index mirrors the document store entry for entry, and when an
/// embedding provider is attached the vector index holds exactly the
/// provider's embedding of every stored content.
pub struct MemoryLocalSearchEngine {
    pub docs: Vec<Document>,
    pub fts: Vec<FtsEntry>,
    pub vectors: Vec<EmbeddingRecord>,
    pub embedder: Option<BagEmbedder>,
    pub clock: u64,
}

impl MemoryLocalSearchEngine {
    /// The cross-store consistency invariant.
    pub open spec fn wf(self) -> bool {
        &&& docs_distinct(self.docs@)
        &&& self.fts@.len() == self.docs@.len()
        &&& (forall|i: int|
            0 <= i < self.docs@.len() ==> string_bytes(#[trigger] self.fts@[i].path) == doc_path(
                self.docs@[i],
            ) && string_bytes(self.fts@[i].content) == string_bytes(self.docs@[i].content))
        &&& match self.embedder {
            Some(e) => {
                &&& e.wf()
                &&& self.vectors@.len() == self.docs@.len()
                &&& (forall|i: int|
                    0 <= i < self.docs@.len() ==> string_bytes(#[trigger] self.vectors@[i].path)
                        == doc_path(self.docs@[i]) && self.vectors@[i].vector@ == spec_embed(
                        e.dim as int,
                        string_bytes(self.docs@[i].content),
                    ) && self.vectors@[i].vector@.len() == e.dim && comps_in_cap(
                        self.vectors@[i].vector@,
                        SCORE_SCALE as int,
                    ))
            },
            None => self.vectors@.len() == 0,
        }
    }

    /// Creates an empty engine, with or without an embedding provider.
    pub fn new(embedder: Option<BagEmbedder>) -> (r: MemoryLocalSearchEngine)
        requires
            match embedder {
                Some(e) => e.wf(),
                None => true,
            },
        ensures
            r.wf(),
            r.docs@.len() == 0,
            r.embedder == embedder,
    {
        MemoryLocalSearchEngine {
            docs: Vec::new(),
            fts: Vec::new(),
            vectors: Vec::new(),
            embedder,
            clock: 0,
        }
    }

    /// Finds the stored document with the given path, if any.
    fn find_doc(&self, path: &str) -> (r: Option<usize>)
        ensures
            match r {
                Some(i) => i < self.docs@.len() && idx_of(self.docs@, path.spec_bytes())
                    == i as int,
                None => idx_of(self.docs@, path.spec_bytes()) == -1,
            },
    {
        let pb: &[u8] = path.as_bytes();
        let mut i: usize = 0;
        while i < self.docs.len()
            invariant
                i <= self.docs@.len(),
                pb@ == path.spec_bytes(),
                forall|k: int| 0 <= k < i ==> doc_path(#[trigger] self.docs@[k]) != pb@,
            decreases self.docs@.len() - i,
        {
            if bytes_eq(self.docs[i].path.as_str().as_bytes(), pb) {
                proof {
                    lemma_idx_of_found(self.docs@, pb@, i as int);
                }
                return Some(i);
            }
            i = i + 1;
        }
        proof {
            lemma_idx_of_none(self.docs@, pb@);
        }
        None
    }

    /// Inserts a new document into all stores.
    ///
    /// Fails with `DuplicateKey`, leaving every store untouched, exactly
    /// when the path is already present; otherwise appends the document
    /// record, its lexical entry, and (when a provider is attached) its
    /// embedding.
    pub fn insert_document(&mut self, request: DocumentRequest) -> (r: Result<(), EngineError>)
        requires
            old(self).wf(),
        ensures
            final(self).wf(),
            final(self).embedder == old(self).embedder,
            idx_of(old(self).docs@, string_bytes(request.path)) >= 0 ==> r == Result::<
                (),
                EngineError,
            >::Err(EngineError::DuplicateKey) && *final(self) == *old(self),
            idx_of(old(self).docs@, string_bytes(request.path)) < 0 ==> r == Result::<
                (),
                EngineError,
            >::Ok(()) && final(self).docs@ == old(self).docs@.push(
                Document {
                    path: request.path,
                    content: request.content,
                    metadata: request.metadata,
                    created_at: old(self).clock,
                    updated_at: old(self).clock,
                },
            ),
    {
        proof {
            lemma_idx_of(self.docs@, string_bytes(request.path));
        }
        if let Some(_i) = self.find_doc(request.path.as_str()) {
            return Err(EngineError::DuplicateKey);
        }
        let now: u64 = self.clock;
        if self.clock < u64::MAX {
            self.clock = self.clock + 1;
        }
        let embedding: Option<Vec<i64>> = match &self.embedder {
            Some(e) => Some(e.embed(request.content.as_str())),
            None => None,
        };
        let fts_path: String = request.path.clone();
        let fts_content: String = request.content.clone();
        let vec_path: String = request.path.clone();
        let ghost old_docs = self.docs@;
        let ghost new_doc = Document {
            path: request.path,
            content: request.content,
            metadata: request.metadata,
            created_at: now,
            updated_at: now,
        };
        self.docs.push(
            Document {
                path: request.path,
                content: request.content,
                metadata: request.metadata,
                created_at: now,
                updated_at: now,
            },
        );
        self.fts.push(FtsEntry { path: fts_path, content: fts_content });
        if let Some(v) = embedding {
            self.vectors.push(EmbeddingRecord { path: vec_path, vector: v });
        }
        proof {
            assert(self.docs@ == old_docs.push(new_doc));
            assert forall|i: int, j: int| 0 <= i < j < self.docs@.len() implies doc_path(
                #[trigger] self.docs@[i],
            ) != doc_path(#[trigger] self.docs@[j]) by {
                if j == self.docs@.len() - 1 {
                    assert(doc_path(old_docs[i]) != doc_path(new_doc));
                }
            }
        }
        Ok(())
    }

    /// Updates a stored document in place, or inserts it when its path is
    /// not yet present. The stored creation time survives an update; the
    /// update time, content, metadata and (when a provider is attached)
    /// the embedding are replaced. Always succeeds.
    pub fn upsert_document(&mut self, request: DocumentRequest) -> (r: Result<(), EngineError>)
        requires
            old(self).wf(),
        ensures
            final(self).wf(),
            final(self).embedder == old(self).embedder,
            r == Result::<(), EngineError>::Ok(()),
            ({
                let i = idx_of(old(self).docs@, string_bytes(request.path));
                &&& i >= 0 ==> final(self).docs@ == old(self).docs@.update(
                    i,
                    Document {
                        path: request.path,
                        content: request.content,
                        metadata: request.metadata,
                        created_at: old(self).docs@[i].created_at,
                        updated_at: old(self).clock,
                    },
                )
                &&& i < 0 ==> final(self).docs@ == old(self).docs@.push(
                    Document {
                        path: request.path,
                        content: request.content,
                        metadata: request.metadata,
                        created_at: old(self).clock,
                        updated_at: old(self).clock,
                    },
                )
            }),
    {
        proof {
            lemma_idx_of(self.docs@, string_bytes(request.path));
        }
        let found: Option<usize> = self.find_doc(request.path.as_str());
        match found {
            None => {
                let now: u64 = self.clock;
                if self.clock < u64::MAX {
                    self.clock = self.clock + 1;
                }
                let embedding: Option<Vec<i64>> = match &self.embedder {
                    Some(e) => Some(e.embed(request.content.as_str())),
                    None => None,
                };
                let fts_path: String = request.path.clone();
                let fts_content: String = request.content.clone();
                let vec_path: String = request.path.clone();
                let ghost old_docs = self.docs@;
                let ghost new_doc = Document {
                    path: request.path,
                    content: request.content,
                    metadata: request.metadata,
                    created_at: now,
                    updated_at: now,
                };
                self.docs.push(
                    Document {
                        path: request.path,
                        content: request.content,
                        metadata: request.metadata,
                        created_at: now,
                        updated_at: now,
                    },
                );
                self.fts.push(FtsEntry { path: fts_path, content: fts_content });
                if let Some(v) = embedding {
                    self.vectors.push(EmbeddingRecord { path: vec_path, vector: v });
                }
                proof {
                    assert(self.docs@ == old_docs.push(new_doc));
                    assert forall|p: int, q: int| 0 <= p < q < self.docs@.len() implies doc_path(
                        #[trigger] self.docs@[p],
                    ) != doc_path(#[trigger] self.docs@[q]) by {
                        if q == self.docs@.len() - 1 {
                            assert(doc_path(old_docs[p]) != doc_path(new_doc));
                        }
                    }
                }
                Ok(())
            },
            Some(i) => {
                let now: u64 = self.clock;
                if self.clock < u64::MAX {
                    self.clock = self.clock + 1;
                }
                let embedding: Option<Vec<i64>> = match &self.embedder {
                    Some(e) => Some(e.embed(request.content.as_str())),
                    None => None,
                };
                let fts_path: String = request.path.clone();
                let fts_content: String = request.content.clone();
                let vec_path: String = request.path.clone();
                let created: u64 = self.docs[i].created_at;
                let ghost old_docs = self.docs@;
                let ghost new_doc = Document {
                    path: request.path,
                    content: request.content,
                    metadata: request.metadata,
                    created_at: created,
                    updated_at: now,
                };
                self.docs.set(
                    i,
                    Document {
                        path: request.path,
                        content: request.content,
                        metadata: request.metadata,
                        created_at: created,
                        updated_at: now,
                    },
                );
                self.fts.set(i, FtsEntry { path: fts_path, content: fts_content });
                let has_embedder: bool = match &self.embedder {
                    Some(_) => true,
                    None => false,
                };
                if has_embedder {
                    match embedding {
                        Some(v) => {
                            self.vectors.set(i, EmbeddingRecord { path: vec_path, vector: v });
                        },
                        None => {},
                    }
                }
                proof {
                    assert(self.docs@ == old_docs.update(i as int, new_doc));
                    assert(doc_path(new_doc) == doc_path(old_docs[i as int]));
                    assert forall|p: int, q: int| 0 <= p < q < self.docs@.len() implies doc_path(
                        #[trigger] self.docs@[p],
                    ) != doc_path(#[trigger] self.docs@[q]) by {
                        assert(doc_path(old_docs[p]) != doc_path(old_docs[q]));
                    }
                }
                Ok(())
            },
        }
    }

    /// Removes a document from every store: embedding and lexical entry
    /// first, then the document record. Deleting an absent path succeeds
    /// and changes nothing, so deletion is idempotent.
    pub fn delete_document(&mut self, path: &str) -> (r: Result<(), EngineError>)
        requires
            old(self).wf(),
        ensures
            final(self).wf(),
            final(self).embedder == old(self).embedder,
            r == Result::<(), EngineError>::Ok(()),
            ({
                let i = idx_of(old(self).docs@, path.spec_bytes());
                &&& i < 0 ==> *final(self) == *old(self)
                &&& i >= 0 ==> final(self).docs@ == old(self).docs@.remove(i)
            }),
    {
        proof {
            lemma_idx_of(self.docs@, path.spec_bytes());
        }
        let found: Option<usize> = self.find_doc(path);
        match found {
            None => Ok(()),
            Some(i) => {
                let ghost old_docs = self.docs@;
                let has_embedder: bool = match &self.embedder {
                    Some(_) => true,
                    None => false,
                };
                if has_embedder {
                    let _ = self.vectors.remove(i);
                }
                let _ = self.fts.remove(i);
                let _ = self.docs.remove(i);
                proof {
                    assert(self.docs@ == old_docs.remove(i as int));
                    assert forall|p: int, q: int| 0 <= p < q < self.docs@.len() implies doc_path(
                        #[trigger] self.docs@[p],
                    ) != doc_path(#[trigger] self.docs@[q]) by {
                        let p0: int = if p < i { p } else { p + 1 };
                        let q0: int = if q < i { q } else { q + 1 };
                        assert(self.docs@[p] == old_docs[p0]);
                        assert(self.docs@[q] == old_docs[q0]);
                        assert(doc_path(old_docs[p0]) != doc_path(old_docs[q0]));
                    }
                }
                Ok(())
            },
        }
    }

    /// The number of documents currently stored.
    pub fn stats(&self) -> (r: Result<i64, EngineError>)
        ensures
            r == Result::<i64, EngineError>::Ok(spec_count(self.docs@) as i64),
    {
        let n: u64 = self.docs.len() as u64;
        if n <= 0x7fff_ffff_ffff_ffff {
            Ok(n as i64)
        } else {
            Ok(0x7fff_ffff_ffff_ffff)
        }
    }

    /// Re-synchronises the engine with its backing store. The in-memory
    /// engine is its own backing store, so there is nothing to reopen and
    /// the state is unchanged; the operation exists so callers can treat
    /// this engine uniformly with storage-backed ones.
    pub fn refresh(&mut self) -> (r: Result<(), EngineError>)
        requires
            old(self).wf(),
        ensures
            final(self).wf(),
            *final(self) == *old(self),
            r == Result::<(), EngineError>::Ok(()),
    {
        Ok(())
    }
}


/// A result's record fields agree with a document record.
pub open spec fn result_fields_match(x: SearchResult, d: Document) -> bool {
    &&& path_of(x) == doc_path(d)
    &&& meta_view(x.metadata) == meta_view(d.metadata)
    &&& x.created_at == d.created_at
    &&& x.updated_at == d.updated_at
}

/// A document is a lexical candidate: its content matches the query
/// tokens and its path passes the filter.
pub open spec fn lex_match(d: Document, qtoks: Seq<Seq<u8>>, f: Option<Seq<Seq<u8>>>) -> bool {
    &&& lex_raw(string_bytes(d.content), qtoks) > 0
    &&& passes_filter(doc_path(d), f)
}

/// The summed raw relevance of the first `n` documents' lexical
/// candidates: the normalisation baseline of a lexical search.
pub open spec fn total_raw(
    docs: Seq<Document>,
    qtoks: Seq<Seq<u8>>,
    f: Option<Seq<Seq<u8>>>,
    n: int,
) -> int
    decreases n,
{
    if n <= 0 {
        0
    } else {
        total_raw(docs, qtoks, f, n - 1) + if lex_match(docs[n - 1], qtoks, f) {
            lex_raw(string_bytes(docs[n - 1].content), qtoks)
        } else {
            0
        }
    }
}

/// One entry of a lexical search output is correct: it names a stored
/// lexical candidate, carries its record fields, and its score is the
/// candidate's share of the summed raw relevance.
pub open spec fn lex_entry_ok(
    docs: Seq<Document>,
    qtoks: Seq<Seq<u8>>,
    f: Option<Seq<Seq<u8>>>,
    x: SearchResult,
) -> bool {
    let di = idx_of(docs, path_of(x));
    &&& di >= 0
    &&& lex_match(docs[di], qtoks, f)
    &&& result_fields_match(x, docs[di])
    &&& x.semantic_score is None
    &&& x.fts_score == Some(
        prob_of(
            lex_raw(string_bytes(docs[di].content), qtoks),
            total_raw(docs, qtoks, f, docs.len() as int),
        ) as i64,
    )
    &&& x.final_score as int == prob_of(
        lex_raw(string_bytes(docs[di].content), qtoks),
        total_raw(docs, qtoks, f, docs.len() as int),
    )
}

/// A full lexical search output: every entry is a correct candidate
/// entry, every lexical candidate of the store appears, no path appears
/// twice, and the list is ranked.
pub open spec fn is_lex_output(
    docs: Seq<Document>,
    qtoks: Seq<Seq<u8>>,
    f: Option<Seq<Seq<u8>>>,
    rs: Seq<SearchResult>,
) -> bool {
    &&& (forall|i: int| 0 <= i < rs.len() ==> lex_entry_ok(docs, qtoks, f, #[trigger] rs[i]))
    &&& (forall|d: int|
        0 <= d < docs.len() && lex_match(#[trigger] docs[d], qtoks, f) ==> ridx_of(
            rs,
            doc_path(docs[d]),
        ) >= 0)
    &&& paths_distinct(rs)
    &&& sorted_by(rs, rank_leq())
}

impl MemoryLocalSearchEngine {
    /// Runs the lexical pipeline: score every document's lexical entry
    /// against the query tokens, keep the matching ones that pass the
    /// filter, turn their raw scores into probability shares, and rank.
    fn lexical_results(&self, qtoks: &Vec<Vec<u8>>, pf: Option<&[String]>) -> (r: Vec<
        SearchResult,
    >)
        requires
            self.wf(),
            qtoks@.len() <= MAX_QUERY_TOKENS,
        ensures
            is_lex_output(self.docs@, views_of(qtoks@), filters_view(pf), r@),
    {
        let ghost docs = self.docs@;
        let ghost qv = views_of(qtoks@);
        let ghost fv = filters_view(pf);
        let mut cands: Vec<SearchResult> = Vec::new();
        let mut raws: Vec<i64> = Vec::new();
        let ghost mut didx: Seq<int> = Seq::empty();
        let mut d: usize = 0;
        while d < self.docs.len()
            invariant
                d <= docs.len(),
                self.wf(),
                docs == self.docs@,
                qv == views_of(qtoks@),
                fv == filters_view(pf),
                qtoks@.len() <= MAX_QUERY_TOKENS,
                cands@.len() == raws@.len(),
                didx.len() == cands@.len(),
                forall|k: int| 0 <= k < didx.len() ==> 0 <= #[trigger] didx[k] < d,
                forall|k1: int, k2: int| 0 <= k1 < k2 < didx.len() ==> didx[k1] < didx[k2],
                forall|kk: int|
                    0 <= kk < cands@.len() ==> {
                        let dd = didx[kk];
                        &&& lex_match(docs[dd], qv, fv)
                        &&& result_fields_match(#[trigger] cands@[kk], docs[dd])
                        &&& raws@[kk] as int == lex_raw(string_bytes(docs[dd].content), qv)
                        &&& cands@[kk].fts_score == Some(raws@[kk])
                        &&& cands@[kk].semantic_score is None
                    },
                forall|dd: int|
                    0 <= dd < d && lex_match(#[trigger] docs[dd], qv, fv) ==> ridx_of(
                        cands@,
                        doc_path(docs[dd]),
                    ) >= 0,
                paths_distinct(cands@),
                scores_in_cap(raws@, RAW_CAP as int),
                spec_sum(raws@, raws@.len() as int) == total_raw(docs, qv, fv, d as int),
            decreases docs.len() - d,
        {
            let sc: i64 = lex_raw_score(self.fts[d].content.as_str().as_bytes(), qtoks);
            let p_ok: bool = passes(self.docs[d].path.as_str(), pf);
            proof {
                assert(string_bytes(self.fts@[d as int].path) == doc_path(docs[d as int]));
                assert(string_bytes(self.fts@[d as int].content) == string_bytes(
                    docs[d as int].content,
                ));
                assert(sc as int == lex_raw(string_bytes(docs[d as int].content), qv));
                lemma_lex_raw_bounds(string_bytes(docs[d as int].content), qv);
                assert((qtoks@.len() as int) * (SCORE_SCALE as int) <= RAW_CAP as int)
                    by (nonlinear_arith)
                    requires
                        qtoks@.len() <= MAX_QUERY_TOKENS,
                ;
            }
            if sc > 0 && p_ok {
                let entry = SearchResult {
                    path: self.docs[d].path.clone(),
                    metadata: clone_metadata(&self.docs[d].metadata),
                    created_at: self.docs[d].created_at,
                    updated_at: self.docs[d].updated_at,
                    fts_score: Some(sc),
                    semantic_score: None,
                    final_score: sc,
                };
                let ghost old_cands = cands@;
                proof {
                    assert(path_of(entry) == doc_path(docs[d as int]));
                    assert(lex_match(docs[d as int], qv, fv));
                    assert forall|k: int| 0 <= k < old_cands.len() implies path_of(
                        #[trigger] old_cands[k],
                    ) != path_of(entry) by {
                        assert(doc_path(docs[didx[k]]) != doc_path(docs[d as int]));
                    }
                }
                let ghost old_raws = raws@;
                cands.push(entry);
                raws.push(sc);
                proof {
                    crate::fusion::lemma_sum_push(old_raws, sc);
                    didx = didx.push(d as int);
                    lemma_ridx_of(cands@, path_of(entry));
                    assert(cands@[cands@.len() - 1] == entry);
                    assert forall|dd: int|
                        0 <= dd < d + 1 && lex_match(#[trigger] docs[dd], qv, fv) implies ridx_of(
                        cands@,
                        doc_path(docs[dd]),
                    ) >= 0 by {
                        if dd < d {
                            lemma_ridx_preserved_push(old_cands, entry, doc_path(docs[dd]));
                        }
                    }
                }
            } else {
                proof {
                    assert(!lex_match(docs[d as int], qv, fv));
                }
            }
            d = d + 1;
        }
        let ghost total: int = total_raw(docs, qv, fv, docs.len() as int);
        let probs: Vec<i64> = prob_normalize(&raws);
        proof {
            assert(spec_sum(raws@, raws@.len() as int) == total);
            if cands@.len() > 0 {
                lemma_sum_component(raws@, raws@.len() as int, 0);
                assert(cands@[0].fts_score == Some(raws@[0]));
                assert(raws@[0] > 0);
            }
        }
        let mut out: Vec<SearchResult> = Vec::new();
        let mut k: usize = 0;
        while k < cands.len()
            invariant
                k <= cands@.len(),
                cands@.len() == raws@.len(),
                cands@.len() == probs@.len(),
                didx.len() == cands@.len(),
                docs == self.docs@,
                docs_distinct(docs),
                total == total_raw(docs, qv, fv, docs.len() as int),
                cands@.len() > 0 ==> total > 0,
                forall|kk: int| 0 <= kk < didx.len() ==> 0 <= #[trigger] didx[kk] < docs.len(),
                forall|kk: int|
                    0 <= kk < cands@.len() ==> {
                        let dd = didx[kk];
                        &&& lex_match(docs[dd], qv, fv)
                        &&& result_fields_match(#[trigger] cands@[kk], docs[dd])
                        &&& raws@[kk] as int == lex_raw(string_bytes(docs[dd].content), qv)
                        &&& cands@[kk].fts_score == Some(raws@[kk])
                        &&& cands@[kk].semantic_score is None
                    },
                total > 0 ==> forall|kk: int|
                    0 <= kk < probs@.len() ==> #[trigger] probs@[kk] == prob_of(
                        raws@[kk] as int,
                        total,
                    ),
                out@.len() == k,
                forall|kk: int|
                    0 <= kk < k ==> path_of(#[trigger] out@[kk]) == path_of(cands@[kk]),
                forall|kk: int| 0 <= kk < k ==> lex_entry_ok(docs, qv, fv, #[trigger] out@[kk]),
            decreases cands@.len() - k,
        {
            let entry = SearchResult {
                path: cands[k].path.clone(),
                metadata: clone_metadata(&cands[k].metadata),
                created_at: cands[k].created_at,
                updated_at: cands[k].updated_at,
                fts_score: Some(probs[k]),
                semantic_score: None,
                final_score: probs[k],
            };
            proof {
                let dd = didx[k as int];
                assert(path_of(entry) == doc_path(docs[dd]));
                assert forall|j: int| 0 <= j < dd implies doc_path(#[trigger] docs[j]) != doc_path(
                    docs[dd],
                ) by {}
                lemma_idx_of_found(docs, doc_path(docs[dd]), dd);
                assert(idx_of(docs, path_of(entry)) == dd);
            }
            out.push(entry);
            k = k + 1;
        }
        proof {
            assert forall|dd: int|
                0 <= dd < docs.len() && lex_match(#[trigger] docs[dd], qv, fv) implies ridx_of(
                out@,
                doc_path(docs[dd]),
            ) >= 0 by {
                lemma_ridx_of(cands@, doc_path(docs[dd]));
                let k0 = ridx_of(cands@, doc_path(docs[dd]));
                lemma_ridx_of(out@, doc_path(docs[dd]));
                assert(path_of(out@[k0]) == path_of(cands@[k0]));
            }
            assert forall|i: int, j: int|
                0 <= i < j < out@.len() implies path_of(#[trigger] out@[i]) != path_of(
                #[trigger] out@[j],
            ) by {
                assert(path_of(cands@[i]) != path_of(cands@[j]));
            }
        }
        let sorted: Vec<SearchResult> = sort_results(out);
        proof {
            lemma_output_transfer(docs, qv, fv, out@, sorted@);
        }
        sorted
    }
}

/// Per-entry correctness and completeness survive sorting: the sorted
/// list is a permutation of the unsorted one.
proof fn lemma_output_transfer(
    docs: Seq<Document>,
    qv: Seq<Seq<u8>>,
    fv: Option<Seq<Seq<u8>>>,
    pre: Seq<SearchResult>,
    post: Seq<SearchResult>,
)
    requires
        post.to_multiset() == pre.to_multiset(),
        forall|i: int| 0 <= i < pre.len() ==> lex_entry_ok(docs, qv, fv, #[trigger] pre[i]),
        forall|d: int|
            0 <= d < docs.len() && lex_match(#[trigger] docs[d], qv, fv) ==> ridx_of(
                pre,
                doc_path(docs[d]),
            ) >= 0,
    ensures
        forall|i: int| 0 <= i < post.len() ==> lex_entry_ok(docs, qv, fv, #[trigger] post[i]),
        forall|d: int|
            0 <= d < docs.len() && lex_match(#[trigger] docs[d], qv, fv) ==> ridx_of(
                post,
                doc_path(docs[d]),
            ) >= 0,
{
    broadcast use group_to_multiset_ensures;

    assert forall|i: int| 0 <= i < post.len() implies lex_entry_ok(
        docs,
        qv,
        fv,
        #[trigger] post[i],
    ) by {
        assert(post.to_multiset().contains(post[i]));
        assert(pre.contains(post[i]));
        let j = choose|j: int| 0 <= j < pre.len() && pre[j] == post[i];
        assert(lex_entry_ok(docs, qv, fv, pre[j]));
    }
    assert forall|d: int|
        0 <= d < docs.len() && lex_match(#[trigger] docs[d], qv, fv) implies ridx_of(
        post,
        doc_path(docs[d]),
    ) >= 0 by {
        let k0 = ridx_of(pre, doc_path(docs[d]));
        lemma_ridx_of(pre, doc_path(docs[d]));
        assert(pre.contains(pre[k0]));
        assert(pre.to_multiset().contains(pre[k0]));
        assert(post.contains(pre[k0]));
        let j = choose|j: int| 0 <= j < post.len() && post[j] == pre[k0];
        lemma_ridx_of(post, doc_path(docs[d]));
        assert(path_of(post[j]) == doc_path(docs[d]));
    }
}


/// Norm floor under which a semantic hit is discarded as noise, in
/// fixed-point ticks: one thousandth of a similarity of one.
pub const SIM_FLOOR: i64 = 1_000;

/// The semantic similarity of a query vector to a stored content: the
/// scaled dot product with the provider's embedding of the content.
pub open spec fn sem_score_of(qv: Seq<i64>, dim: int, content: Seq<u8>) -> int {
    div_to_zero(spec_dot(qv, spec_embed(dim, content)), SCORE_SCALE as int)
}

/// A document is a semantic candidate: its similarity clears the noise
/// floor and its path passes the filter.
pub open spec fn sem_match(qv: Seq<i64>, dim: int, d: Document, f: Option<Seq<Seq<u8>>>) -> bool {
    &&& sem_score_of(qv, dim, string_bytes(d.content)) >= SIM_FLOOR
    &&& passes_filter(doc_path(d), f)
}

/// One entry of a semantic search output is correct.
pub open spec fn sem_entry_ok(
    docs: Seq<Document>,
    qv: Seq<i64>,
    dim: int,
    f: Option<Seq<Seq<u8>>>,
    x: SearchResult,
) -> bool {
    let di = idx_of(docs, path_of(x));
    &&& di >= 0
    &&& sem_match(qv, dim, docs[di], f)
    &&& result_fields_match(x, docs[di])
    &&& x.fts_score is None
    &&& x.semantic_score == Some(sem_score_of(qv, dim, string_bytes(docs[di].content)) as i64)
    &&& x.final_score as int == sem_score_of(qv, dim, string_bytes(docs[di].content))
}

/// A full semantic search output.
pub open spec fn is_sem_output(
    docs: Seq<Document>,
    qv: Seq<i64>,
    dim: int,
    f: Option<Seq<Seq<u8>>>,
    rs: Seq<SearchResult>,
) -> bool {
    &&& (forall|i: int| 0 <= i < rs.len() ==> sem_entry_ok(docs, qv, dim, f, #[trigger] rs[i]))
    &&& (forall|d: int|
        0 <= d < docs.len() && sem_match(qv, dim, #[trigger] docs[d], f) ==> ridx_of(
            rs,
            doc_path(docs[d]),
        ) >= 0)
    &&& paths_distinct(rs)
    &&& sorted_by(rs, rank_leq())
    &&& crate::fusion::sem_scores_ok(rs)
}

impl MemoryLocalSearchEngine {
    /// Runs the semantic pipeline: embed-space similarity of the query
    /// vector against every stored embedding, noise floor, filter, rank.
    fn semantic_results(&self, qvec: &Vec<i64>, pf: Option<&[String]>) -> (r: Vec<SearchResult>)
        requires
            self.wf(),
            self.embedder is Some,
            comps_in_cap(qvec@, SCORE_SCALE as int),
            match self.embedder {
                Some(e) => qvec@.len() == e.dim,
                None => false,
            },
        ensures
            match self.embedder {
                Some(e) => is_sem_output(
                    self.docs@,
                    qvec@,
                    e.dim as int,
                    filters_view(pf),
                    r@,
                ),
                None => false,
            },
    {
        let ghost docs = self.docs@;
        let ghost qv = qvec@;
        let ghost fv = filters_view(pf);
        let ghost dim: int = match &self.embedder {
            Some(e) => e.dim as int,
            None => 0,
        };
        let mut cands: Vec<SearchResult> = Vec::new();
        let ghost mut didx: Seq<int> = Seq::empty();
        let mut d: usize = 0;
        while d < self.docs.len()
            invariant
                d <= docs.len(),
                self.wf(),
                docs == self.docs@,
                qv == qvec@,
                fv == filters_view(pf),
                self.embedder is Some,
                match self.embedder {
                    Some(e) => dim == e.dim as int && qvec@.len() == e.dim,
                    None => false,
                },
                comps_in_cap(qvec@, SCORE_SCALE as int),
                didx.len() == cands@.len(),
                forall|k: int| 0 <= k < didx.len() ==> 0 <= #[trigger] didx[k] < d,
                forall|k1: int, k2: int| 0 <= k1 < k2 < didx.len() ==> didx[k1] < didx[k2],
                forall|kk: int|
                    0 <= kk < cands@.len() ==> {
                        let dd = didx[kk];
                        &&& sem_match(qv, dim, docs[dd], fv)
                        &&& result_fields_match(#[trigger] cands@[kk], docs[dd])
                        &&& cands@[kk].fts_score is None
                        &&& cands@[kk].semantic_score == Some(
                            sem_score_of(qv, dim, string_bytes(docs[dd].content)) as i64,
                        )
                        &&& cands@[kk].final_score as int == sem_score_of(
                            qv,
                            dim,
                            string_bytes(docs[dd].content),
                        )
                        &&& SIM_FLOOR <= cands@[kk].final_score <= SEM_CAP
                    },
                forall|dd: int|
                    0 <= dd < d && sem_match(qv, dim, #[trigger] docs[dd], fv) ==> ridx_of(
                        cands@,
                        doc_path(docs[dd]),
                    ) >= 0,
                paths_distinct(cands@),
            decreases docs.len() - d,
        {
            let p_ok: bool = passes(self.docs[d].path.as_str(), pf);
            proof {
                assert(string_bytes(self.vectors@[d as int].path) == doc_path(docs[d as int]));
                assert forall|t: int| 0 <= t < qvec@.len() implies -(2 * SCORE_SCALE as int)
                    <= #[trigger] qvec@[t] <= 2 * SCORE_SCALE as int by {
                    assert(0 <= qvec@[t] <= SCORE_SCALE);
                }
                assert forall|t: int|
                    0 <= t < self.vectors@[d as int].vector@.len() implies -(2
                    * SCORE_SCALE as int) <= #[trigger] self.vectors@[d as int].vector@[t] <= 2
                    * SCORE_SCALE as int by {
                    assert(0 <= self.vectors@[d as int].vector@[t] <= SCORE_SCALE);
                }
            }
            let sim: i64 = cosine_similarity(qvec.as_slice(), self.vectors[d].vector.as_slice());
            proof {
                assert(self.vectors@[d as int].vector@ == spec_embed(
                    dim,
                    string_bytes(docs[d as int].content),
                ));
                assert(sim as int == sem_score_of(qv, dim, string_bytes(docs[d as int].content)));
                lemma_dot_prefix_bound(qv, self.vectors@[d as int].vector@, qv.len() as int,
                    SCORE_SCALE as int);
                assert((qv.len() as int) * (SCORE_SCALE as int) * (SCORE_SCALE as int) <= (
                MAX_DIM as int) * (SCORE_SCALE as int) * (SCORE_SCALE as int)) by (nonlinear_arith)
                    requires
                        0 <= qv.len() as int <= MAX_DIM as int,
                ;
                let dot = spec_dot(qv, self.vectors@[d as int].vector@);
                if dot >= 0 {
                    vstd::arithmetic::div_mod::lemma_div_is_ordered(
                        dot,
                        (MAX_DIM as int) * (SCORE_SCALE as int) * (SCORE_SCALE as int),
                        SCORE_SCALE as int,
                    );
                    assert((MAX_DIM as int) * (SCORE_SCALE as int) * (SCORE_SCALE as int) == (
                    SCORE_SCALE as int) * ((MAX_DIM as int) * (SCORE_SCALE as int)))
                        by (nonlinear_arith);
                    vstd::arithmetic::div_mod::lemma_div_multiples_vanish(
                        (MAX_DIM as int) * (SCORE_SCALE as int),
                        SCORE_SCALE as int,
                    );
                    assert(sim <= (MAX_DIM as int) * (SCORE_SCALE as int));
                } else {
                    vstd::arithmetic::div_mod::lemma_div_pos_is_pos(-dot, SCORE_SCALE as int);
                    assert(sim <= 0);
                }
            }
            if p_ok && sim >= SIM_FLOOR {
                let entry = SearchResult {
                    path: self.docs[d].path.clone(),
                    metadata: clone_metadata(&self.docs[d].metadata),
                    created_at: self.docs[d].created_at,
                    updated_at: self.docs[d].updated_at,
                    fts_score: None,
                    semantic_score: Some(sim),
                    final_score: sim,
                };
                let ghost old_cands = cands@;
                proof {
                    assert(path_of(entry) == doc_path(docs[d as int]));
                    assert(sem_match(qv, dim, docs[d as int], fv));
                    assert forall|k: int| 0 <= k < old_cands.len() implies path_of(
                        #[trigger] old_cands[k],
                    ) != path_of(entry) by {
                        assert(doc_path(docs[didx[k]]) != doc_path(docs[d as int]));
                    }
                }
                cands.push(entry);
                proof {
                    didx = didx.push(d as int);
                    lemma_ridx_of(cands@, path_of(entry));
                    assert(cands@[cands@.len() - 1] == entry);
                    assert forall|dd: int|
                        0 <= dd < d + 1 && sem_match(qv, dim, #[trigger] docs[dd], fv) implies
                        ridx_of(cands@, doc_path(docs[dd])) >= 0 by {
                        if dd < d {
                            lemma_ridx_preserved_push(old_cands, entry, doc_path(docs[dd]));
                        }
                    }
                }
            } else {
                proof {
                    assert(!sem_match(qv, dim, docs[d as int], fv));
                }
            }
            d = d + 1;
        }
        let ghost pre = cands@;
        proof {
            assert forall|i: int| 0 <= i < pre.len() implies sem_entry_ok(
                docs,
                qv,
                dim,
                fv,
                #[trigger] pre[i],
            ) by {
                let dd = didx[i];
                assert(result_fields_match(cands@[i], docs[dd]));
                assert forall|j: int| 0 <= j < dd implies doc_path(#[trigger] docs[j]) != doc_path(
                    docs[dd],
                ) by {}
                lemma_idx_of_found(docs, doc_path(docs[dd]), dd);
            }
            assert forall|i: int|
                0 <= i < pre.len() implies SIM_FLOOR <= (#[trigger] pre[i]).final_score
                <= SEM_CAP by {
                assert(result_fields_match(cands@[i], docs[didx[i]]));
            }
        }
        let sorted: Vec<SearchResult> = sort_results(cands);
        proof {
            lemma_sem_output_transfer(docs, qv, dim, fv, pre, sorted@);
        }
        sorted
    }
}

/// Semantic per-entry correctness and completeness survive sorting.
proof fn lemma_sem_output_transfer(
    docs: Seq<Document>,
    qv: Seq<i64>,
    dim: int,
    fv: Option<Seq<Seq<u8>>>,
    pre: Seq<SearchResult>,
    post: Seq<SearchResult>,
)
    requires
        post.to_multiset() == pre.to_multiset(),
        forall|i: int| 0 <= i < pre.len() ==> sem_entry_ok(docs, qv, dim, fv, #[trigger] pre[i]),
        forall|i: int|
            0 <= i < pre.len() ==> SIM_FLOOR <= (#[trigger] pre[i]).final_score <= SEM_CAP,
        forall|d: int|
            0 <= d < docs.len() && sem_match(qv, dim, #[trigger] docs[d], fv) ==> ridx_of(
                pre,
                doc_path(docs[d]),
            ) >= 0,
    ensures
        forall|i: int| 0 <= i < post.len() ==> sem_entry_ok(docs, qv, dim, fv, #[trigger] post[i]),
        forall|d: int|
            0 <= d < docs.len() && sem_match(qv, dim, #[trigger] docs[d], fv) ==> ridx_of(
                post,
                doc_path(docs[d]),
            ) >= 0,
        crate::fusion::sem_scores_ok(post),
{
    broadcast use group_to_multiset_ensures;

    assert forall|i: int| 0 <= i < post.len() implies sem_entry_ok(
        docs,
        qv,
        dim,
        fv,
        #[trigger] post[i],
    ) && ((#[trigger] post[i]).semantic_score matches Some(v) && 0 <= v <= SEM_CAP) by {
        assert(post.to_multiset().contains(post[i]));
        assert(pre.contains(post[i]));
        let j = choose|j: int| 0 <= j < pre.len() && pre[j] == post[i];
        assert(sem_entry_ok(docs, qv, dim, fv, pre[j]));
        assert(SIM_FLOOR <= pre[j].final_score <= SEM_CAP);
    }
    assert forall|d: int|
        0 <= d < docs.len() && sem_match(qv, dim, #[trigger] docs[d], fv) implies ridx_of(
        post,
        doc_path(docs[d]),
    ) >= 0 by {
        let k0 = ridx_of(pre, doc_path(docs[d]));
        lemma_ridx_of(pre, doc_path(docs[d]));
        assert(pre.contains(pre[k0]));
        assert(pre.to_multiset().contains(pre[k0]));
        assert(post.contains(pre[k0]));
        let j = choose|j: int| 0 <= j < post.len() && post[j] == pre[k0];
        lemma_ridx_of(post, doc_path(docs[d]));
        assert(path_of(post[j]) == doc_path(docs[d]));
    }
}


/// Largest query length, in bytes, that `search` accepts; it bounds the
/// token count and with it every raw lexical score.
pub const MAX_QUERY_BYTES: usize = 1_000_000;

/// The largest lexical component among the first `n` results.
pub open spec fn max_fts(rs: Seq<SearchResult>, n: int) -> int
    decreases n,
{
    if n <= 0 {
        0
    } else if opt_score(rs[n - 1].fts_score) > max_fts(rs, n - 1) {
        opt_score(rs[n - 1].fts_score)
    } else {
        max_fts(rs, n - 1)
    }
}

proof fn lemma_max_fts_eq(rs: Seq<SearchResult>, s: Seq<i64>, n: int)
    requires
        0 <= n <= rs.len(),
        n <= s.len(),
        forall|i: int| 0 <= i < n ==> #[trigger] s[i] as int == opt_score(rs[i].fts_score),
    ensures
        max_fts(rs, n) == max_score(s, n),
    decreases n,
{
    if n > 0 {
        lemma_max_fts_eq(rs, s, n - 1);
    }
}

/// `scaled` is `lex` with its lexical scores max-normalised: same paths
/// and records in the same order, each score scaled into the unit range
/// by the best score (or by one when every score is zero).
pub open spec fn scaled_of(lex: Seq<SearchResult>, scaled: Seq<SearchResult>) -> bool {
    let mx = max_fts(lex, lex.len() as int);
    let divisor: int = if mx <= 0 {
        SCORE_SCALE as int
    } else {
        mx
    };
    &&& scaled.len() == lex.len()
    &&& forall|i: int|
        0 <= i < lex.len() ==> {
            &&& path_of(#[trigger] scaled[i]) == path_of(lex[i])
            &&& base_eq(scaled[i], lex[i])
            &&& scaled[i].semantic_score is None
            &&& scaled[i].fts_score == Some(
                max_scaled(opt_score(lex[i].fts_score), divisor) as i64,
            )
            &&& scaled[i].final_score as int == max_scaled(opt_score(lex[i].fts_score), divisor)
        }
}

/// A full hybrid search output: there are a lexical output, its
/// max-normalised form, and a semantic output, such that the result is
/// their ranked fusion, complete for the paths of both.
pub open spec fn is_hyb_output(
    docs: Seq<Document>,
    qt: Seq<Seq<u8>>,
    qv: Seq<i64>,
    dim: int,
    f: Option<Seq<Seq<u8>>>,
    rs: Seq<SearchResult>,
) -> bool {
    exists|lex_rs: Seq<SearchResult>, scaled: Seq<SearchResult>, sem_rs: Seq<SearchResult>|
        #![trigger is_lex_output(docs, qt, f, lex_rs), scaled_of(lex_rs, scaled), is_sem_output(docs, qv, dim, f, sem_rs)]
        {
            &&& is_lex_output(docs, qt, f, lex_rs)
            &&& scaled_of(lex_rs, scaled)
            &&& is_sem_output(docs, qv, dim, f, sem_rs)
            &&& (forall|i: int|
                0 <= i < rs.len() ==> fused_entry_ok(scaled, sem_rs, #[trigger] rs[i]))
            &&& (forall|i: int|
                0 <= i < scaled.len() ==> ridx_of(rs, path_of(#[trigger] scaled[i])) >= 0)
            &&& (forall|i: int|
                0 <= i < sem_rs.len() ==> ridx_of(rs, path_of(#[trigger] sem_rs[i])) >= 0)
            &&& paths_distinct(rs)
            &&& sorted_by(rs, rank_leq())
        }
}

/// The first results of a ranked list, under the caller's limit: ten by
/// default, the whole list for a negative limit. The limit is applied
/// after fusion and ranking, never before.
pub open spec fn truncated(full: Seq<SearchResult>, top: Option<i8>) -> Seq<SearchResult> {
    let lim: int = match top {
        None => 10,
        Some(t) => if t < 0 {
            full.len() as int
        } else {
            t as int
        },
    };
    if lim <= full.len() as int {
        full.subrange(0, lim)
    } else {
        full
    }
}

impl MemoryLocalSearchEngine {
    /// Runs the hybrid pipeline: lexical and semantic searches run
    /// independently, the lexical scores are max-normalised, the two
    /// candidate lists are fused with fixed weights, and the fused list
    /// is ranked.
    fn hybrid_results(&self, qtoks: &Vec<Vec<u8>>, qvec: &Vec<i64>, pf: Option<&[String]>) -> (r:
        Vec<SearchResult>)
        requires
            self.wf(),
            qtoks@.len() <= MAX_QUERY_TOKENS,
            self.embedder is Some,
            comps_in_cap(qvec@, SCORE_SCALE as int),
            match self.embedder {
                Some(e) => qvec@.len() == e.dim,
                None => false,
            },
        ensures
            match self.embedder {
                Some(e) => is_hyb_output(
                    self.docs@,
                    views_of(qtoks@),
                    qvec@,
                    e.dim as int,
                    filters_view(pf),
                    r@,
                ),
                None => false,
            },
    {
        let ghost docs = self.docs@;
        let ghost qt = views_of(qtoks@);
        let ghost fv = filters_view(pf);
        let ghost dim: int = match &self.embedder {
            Some(e) => e.dim as int,
            None => 0,
        };
        let lex: Vec<SearchResult> = self.lexical_results(qtoks, pf);
        let mut ls: Vec<i64> = Vec::new();
        let mut i: usize = 0;
        while i < lex.len()
            invariant
                i <= lex@.len(),
                is_lex_output(docs, qt, fv, lex@),
                docs == self.docs@,
                ls@.len() == i,
                forall|k: int| 0 <= k < i ==> #[trigger] ls@[k] as int == opt_score(
                    lex@[k].fts_score,
                ),
                scores_in_cap(ls@, SCORE_SCALE as int),
            decreases lex@.len() - i,
        {
            let v: i64 = match lex[i].fts_score {
                Some(v) => v,
                None => 0,
            };
            proof {
                assert(lex_entry_ok(docs, qt, fv, lex@[i as int]));
                lemma_idx_of(docs, path_of(lex@[i as int]));
                lemma_lexnorm_in_range(docs, qt, fv, idx_of(docs, path_of(lex@[i as int])));
            }
            ls.push(v);
            i = i + 1;
        }
        let ns: Vec<i64> = max_normalize(&ls);
        proof {
            lemma_max_fts_eq(lex@, ls@, lex@.len() as int);
        }
        let mut scaled: Vec<SearchResult> = Vec::new();
        let ghost mx: int = max_fts(lex@, lex@.len() as int);
        let ghost divisor: int = if mx <= 0 {
            SCORE_SCALE as int
        } else {
            mx
        };
        let mut i: usize = 0;
        while i < lex.len()
            invariant
                i <= lex@.len(),
                is_lex_output(docs, qt, fv, lex@),
                docs == self.docs@,
                ls@.len() == lex@.len(),
                ns@.len() == lex@.len(),
                forall|k: int| 0 <= k < lex@.len() ==> #[trigger] ls@[k] as int == opt_score(
                    lex@[k].fts_score,
                ),
                mx == max_fts(lex@, lex@.len() as int),
                divisor == (if mx <= 0 {
                    SCORE_SCALE as int
                } else {
                    mx
                }),
                forall|k: int| 0 <= k < ns@.len() ==> #[trigger] ns@[k] as int == max_scaled(
                    ls@[k] as int,
                    divisor,
                ),
                scores_in_cap(ns@, SCORE_SCALE as int),
                scaled@.len() == i,
                forall|k: int|
                    0 <= k < i ==> {
                        &&& path_of(#[trigger] scaled@[k]) == path_of(lex@[k])
                        &&& base_eq(scaled@[k], lex@[k])
                        &&& scaled@[k].semantic_score is None
                        &&& scaled@[k].fts_score == Some(
                            max_scaled(opt_score(lex@[k].fts_score), divisor) as i64,
                        )
                        &&& scaled@[k].final_score as int == max_scaled(
                            opt_score(lex@[k].fts_score),
                            divisor,
                        )
                        &&& 0 <= scaled@[k].final_score <= SCORE_SCALE
                    },
            decreases lex@.len() - i,
        {
            let entry = SearchResult {
                path: lex[i].path.clone(),
                metadata: clone_metadata(&lex[i].metadata),
                created_at: lex[i].created_at,
                updated_at: lex[i].updated_at,
                fts_score: Some(ns[i]),
                semantic_score: None,
                final_score: ns[i],
            };
            scaled.push(entry);
            i = i + 1;
        }
        let sem: Vec<SearchResult> = self.semantic_results(qvec, pf);
        proof {
            assert(scaled_of(lex@, scaled@));
            assert forall|p: int, q: int|
                0 <= p < q < scaled@.len() implies path_of(#[trigger] scaled@[p]) != path_of(
                #[trigger] scaled@[q],
            ) by {
                assert(path_of(lex@[p]) != path_of(lex@[q]));
            }
            assert forall|k: int|
                0 <= k < scaled@.len() implies ((#[trigger] scaled@[k]).fts_score matches Some(v)
                && 0 <= v <= SCORE_SCALE) by {
                assert(path_of(scaled@[k]) == path_of(lex@[k]));
            }
        }
        let fused: Vec<SearchResult> = fuse_results(&scaled, &sem);
        let ghost pre = fused@;
        let sorted: Vec<SearchResult> = sort_results(fused);
        proof {
            lemma_fused_transfer(scaled@, sem@, pre, sorted@);
            match self.embedder {
                Some(e) => {
                    assert(is_lex_output(docs, qt, fv, lex@));
                    assert(scaled_of(lex@, scaled@));
                    assert(is_sem_output(docs, qvec@, e.dim as int, fv, sem@));
                    assert(is_hyb_output(docs, qt, qvec@, e.dim as int, fv, sorted@));
                },
                None => {},
            }
        }
        sorted
    }
}

/// The normalised share of a lexical candidate is a unit-range score.
proof fn lemma_lexnorm_in_range(
    docs: Seq<Document>,
    qt: Seq<Seq<u8>>,
    fv: Option<Seq<Seq<u8>>>,
    d: int,
)
    requires
        0 <= d < docs.len(),
        lex_match(docs[d], qt, fv),
    ensures
        0 <= prob_of(
            lex_raw(string_bytes(docs[d].content), qt),
            total_raw(docs, qt, fv, docs.len() as int),
        ) <= SCORE_SCALE,
{
    let raw = lex_raw(string_bytes(docs[d].content), qt);
    let total = total_raw(docs, qt, fv, docs.len() as int);
    lemma_total_raw_component(docs, qt, fv, docs.len() as int, d);
    vstd::arithmetic::div_mod::lemma_div_pos_is_pos(raw * SCORE_SCALE, total);
    assert(raw * SCORE_SCALE >= 0) by (nonlinear_arith)
        requires
            raw > 0,
    ;
    assert(raw * SCORE_SCALE <= total * SCORE_SCALE) by (nonlinear_arith)
        requires
            raw <= total,
    ;
    vstd::arithmetic::div_mod::lemma_div_is_ordered(raw * SCORE_SCALE, total * SCORE_SCALE, total);
    vstd::arithmetic::div_mod::lemma_div_multiples_vanish(SCORE_SCALE as int, total);
}

/// A matching document's raw score contributes to the total, and every
/// contribution is non-negative.
proof fn lemma_total_raw_component(
    docs: Seq<Document>,
    qt: Seq<Seq<u8>>,
    fv: Option<Seq<Seq<u8>>>,
    n: int,
    d: int,
)
    requires
        0 <= d < n <= docs.len(),
        lex_match(docs[d], qt, fv),
    ensures
        lex_raw(string_bytes(docs[d].content), qt) <= total_raw(docs, qt, fv, n),
        total_raw(docs, qt, fv, n) > 0,
    decreases n,
{
    lemma_total_raw_nonneg(docs, qt, fv, n - 1);
    lemma_lex_raw_bounds(string_bytes(docs[n - 1].content), qt);
    if d < n - 1 {
        lemma_total_raw_component(docs, qt, fv, n - 1, d);
    }
}

proof fn lemma_total_raw_nonneg(
    docs: Seq<Document>,
    qt: Seq<Seq<u8>>,
    fv: Option<Seq<Seq<u8>>>,
    n: int,
)
    requires
        n <= docs.len(),
    ensures
        total_raw(docs, qt, fv, n) >= 0,
    decreases n,
{
    if n > 0 {
        lemma_total_raw_nonneg(docs, qt, fv, n - 1);
        lemma_lex_raw_bounds(string_bytes(docs[n - 1].content), qt);
    }
}

/// Fused entries and path completeness survive sorting.
proof fn lemma_fused_transfer(
    scaled: Seq<SearchResult>,
    sem: Seq<SearchResult>,
    pre: Seq<SearchResult>,
    post: Seq<SearchResult>,
)
    requires
        post.to_multiset() == pre.to_multiset(),
        forall|i: int| 0 <= i < pre.len() ==> fused_entry_ok(scaled, sem, #[trigger] pre[i]),
        forall|i: int| 0 <= i < scaled.len() ==> ridx_of(pre, path_of(#[trigger] scaled[i])) >= 0,
        forall|i: int| 0 <= i < sem.len() ==> ridx_of(pre, path_of(#[trigger] sem[i])) >= 0,
    ensures
        forall|i: int| 0 <= i < post.len() ==> fused_entry_ok(scaled, sem, #[trigger] post[i]),
        forall|i: int| 0 <= i < scaled.len() ==> ridx_of(post, path_of(#[trigger] scaled[i])) >= 0,
        forall|i: int| 0 <= i < sem.len() ==> ridx_of(post, path_of(#[trigger] sem[i])) >= 0,
{
    broadcast use group_to_multiset_ensures;

    assert forall|i: int| 0 <= i < post.len() implies fused_entry_ok(
        scaled,
        sem,
        #[trigger] post[i],
    ) by {
        assert(post.to_multiset().contains(post[i]));
        assert(pre.contains(post[i]));
        let j = choose|j: int| 0 <= j < pre.len() && pre[j] == post[i];
        assert(fused_entry_ok(scaled, sem, pre[j]));
    }
    assert forall|i: int| 0 <= i < scaled.len() implies ridx_of(
        post,
        path_of(#[trigger] scaled[i]),
    ) >= 0 by {
        lemma_ridx_carry(pre, post, path_of(scaled[i]));
    }
    assert forall|i: int| 0 <= i < sem.len() implies ridx_of(
        post,
        path_of(#[trigger] sem[i]),
    ) >= 0 by {
        lemma_ridx_carry(pre, post, path_of(sem[i]));
    }
}

/// A path found in a list is found in any permutation of it.
proof fn lemma_ridx_carry(pre: Seq<SearchResult>, post: Seq<SearchResult>, p: Seq<u8>)
    requires
        post.to_multiset() == pre.to_multiset(),
        ridx_of(pre, p) >= 0,
    ensures
        ridx_of(post, p) >= 0,
{
    broadcast use group_to_multiset_ensures;

    let k0 = ridx_of(pre, p);
    lemma_ridx_of(pre, p);
    assert(pre.contains(pre[k0]));
    assert(pre.to_multiset().contains(pre[k0]));
    assert(post.contains(pre[k0]));
    let j = choose|j: int| 0 <= j < post.len() && post[j] == pre[k0];
    lemma_ridx_of(post, p);
    assert(path_of(post[j]) == p);
}

impl MemoryLocalSearchEngine {
    /// Performs a search in the requested mode, ranked and limited.
    ///
    /// A lexical search returns the lexical pipeline's output. A semantic
    /// search requires an embedding provider and fails with
    /// `NotConfigured` when none is attached. A hybrid search fuses both
    /// pipelines, and degrades to the lexical output when no provider is
    /// attached. The caller's limit is applied after fusion and ranking.
    pub fn search(
        &self,
        query: &str,
        search_type: SearchType,
        top: Option<i8>,
        path_filters: Option<&[String]>,
    ) -> (r: Result<Vec<SearchResult>, EngineError>)
        requires
            self.wf(),
            query.spec_bytes().len() <= MAX_QUERY_BYTES,
        ensures
            ({
                let qt = spec_tokens(query.spec_bytes());
                let f = filters_view(path_filters);
                match search_type {
                    SearchType::FullText => (r matches Ok(rs) && exists|full: Seq<SearchResult>|
                        #![trigger is_lex_output(self.docs@, qt, f, full)]
                        is_lex_output(self.docs@, qt, f, full) && rs@ == truncated(full, top)),
                    SearchType::Semantic => match self.embedder {
                        None => r == Result::<Vec<SearchResult>, EngineError>::Err(
                            EngineError::NotConfigured,
                        ),
                        Some(e) => (r matches Ok(rs) && exists|full: Seq<SearchResult>|
                            #![trigger is_sem_output(self.docs@, spec_embed(e.dim as int, query.spec_bytes()), e.dim as int, f, full)]
                            is_sem_output(
                                self.docs@,
                                spec_embed(e.dim as int, query.spec_bytes()),
                                e.dim as int,
                                f,
                                full,
                            ) && rs@ == truncated(full, top)),
                    },
                    SearchType::Hybrid => match self.embedder {
                        None => (r matches Ok(rs) && exists|full: Seq<SearchResult>|
                            #![trigger is_lex_output(self.docs@, qt, f, full)]
                            is_lex_output(self.docs@, qt, f, full) && rs@ == truncated(full, top)),
                        Some(e) => (r matches Ok(rs) && exists|full: Seq<SearchResult>|
                            #![trigger is_hyb_output(self.docs@, qt, spec_embed(e.dim as int, query.spec_bytes()), e.dim as int, f, full)]
                            is_hyb_output(
                                self.docs@,
                                qt,
                                spec_embed(e.dim as int, query.spec_bytes()),
                                e.dim as int,
                                f,
                                full,
                            ) && rs@ == truncated(full, top)),
                    },
                }
            }),
    {
        match search_type {
            SearchType::FullText => {
                let toks: Vec<Vec<u8>> = tokenize(query.as_bytes());
                let mut full: Vec<SearchResult> = self.lexical_results(&toks, path_filters);
                let ghost full0 = full@;
                apply_limit(&mut full, top);
                Ok(full)
            },
            SearchType::Semantic => {
                match &self.embedder {
                    None => Err(EngineError::NotConfigured),
                    Some(e) => {
                        let qvec: Vec<i64> = e.embed(query);
                        let mut full: Vec<SearchResult> = self.semantic_results(
                            &qvec,
                            path_filters,
                        );
                        apply_limit(&mut full, top);
                        Ok(full)
                    },
                }
            },
            SearchType::Hybrid => {
                match &self.embedder {
                    None => {
                        let toks: Vec<Vec<u8>> = tokenize(query.as_bytes());
                        let mut full: Vec<SearchResult> = self.lexical_results(
                            &toks,
                            path_filters,
                        );
                        apply_limit(&mut full, top);
                        Ok(full)
                    },
                    Some(e) => {
                        let toks: Vec<Vec<u8>> = tokenize(query.as_bytes());
                        let qvec: Vec<i64> = e.embed(query);
                        let mut full: Vec<SearchResult> = self.hybrid_results(
                            &toks,
                            &qvec,
                            path_filters,
                        );
                        apply_limit(&mut full, top);
                        Ok(full)
                    },
                }
            },
        }
    }
}

/// Cuts a ranked list down to the caller's limit.
fn apply_limit(v: &mut Vec<SearchResult>, top: Option<i8>)
    ensures
        final(v)@ == truncated(old(v)@, top),
{
    let lim: usize = match top {
        None => 10,
        Some(t) => if t < 0 {
            v.len()
        } else {
            t as usize
        },
    };
    let ghost pre = v@;
    v.truncate(lim);
    proof {
        if lim > pre.len() {
            assert(v@ == pre);
            assert(truncated(pre, top) == pre);
        } else {
            assert(v@ == pre.subrange(0, lim as int));
            if lim == pre.len() {
                assert(pre.subrange(0, lim as int) =~= pre);
            }
        }
    }
}

/// Inserting a path that was just inserted is rejected: the path is
/// found in the store, so by the contract of `insert_document` the
/// second insert returns the duplicate-key error and leaves every store
/// unchanged.
pub proof fn lemma_insert_rejects_duplicate(docs: Seq<Document>, d: Document)
    ensures
        idx_of(docs.push(d), doc_path(d)) >= 0,
{
    lemma_idx_of(docs.push(d), doc_path(d));
    if idx_of(docs.push(d), doc_path(d)) < 0 {
        assert(doc_path(docs.push(d)[docs.len() as int]) == doc_path(d));
    }
}

/// Deleting a path twice: after the first deletion the path is no longer
/// found, so by the contract of `delete_document` the second deletion
/// succeeds and leaves the stores — the document count included —
/// unchanged.
pub proof fn lemma_delete_idempotent(docs: Seq<Document>, p: Seq<u8>)
    requires
        docs_distinct(docs),
        idx_of(docs, p) >= 0,
    ensures
        idx_of(docs.remove(idx_of(docs, p)), p) == -1,
{
    let i = idx_of(docs, p);
    lemma_idx_of(docs, p);
    let rest = docs.remove(i);
    assert forall|k: int| 0 <= k < rest.len() implies doc_path(#[trigger] rest[k]) != p by {
        let k0: int = if k < i {
            k
        } else {
            k + 1
        };
        assert(rest[k] == docs[k0]);
        if k0 < i {
            assert(doc_path(docs[k0]) != doc_path(docs[i]));
        } else {
            assert(doc_path(docs[i]) != doc_path(docs[k0]));
        }
    }
    lemma_idx_of_none(rest, p);
}

impl DocumentIndexer for MemoryLocalSearchEngine {
    open spec fn inv(&self) -> bool {
        self.wf()
    }

    fn insert_document(&mut self, request: DocumentRequest) -> Result<(), EngineError> {
        MemoryLocalSearchEngine::insert_document(self, request)
    }

    fn upsert_document(&mut self, request: DocumentRequest) -> Result<(), EngineError> {
        MemoryLocalSearchEngine::upsert_document(self, request)
    }

    fn delete_document(&mut self, path: &str) -> Result<(), EngineError> {
        MemoryLocalSearchEngine::delete_document(self, path)
    }

    fn stats(&self) -> Result<i64, EngineError> {
        MemoryLocalSearchEngine::stats(self)
    }

    fn refresh(&mut self) -> Result<(), EngineError> {
        MemoryLocalSearchEngine::refresh(self)
    }
}

impl LocalSearch for MemoryLocalSearchEngine {
    open spec fn search_inv(&self) -> bool {
        self.wf()
    }

    fn search(
        &self,
        query: &str,
        search_type: SearchType,
        top: Option<i8>,
        path_filters: Option<&[String]>,
    ) -> Result<Vec<SearchResult>, EngineError> {
        proof {
            crate::text::lemma_encode_utf8_len(query@);
        }
        MemoryLocalSearchEngine::search(self, query, search_type, top, path_filters)
    }
}

} // verus!
