use localsearch::DocumentRequest;
use localsearch::IngestionResult;
use localsearch::JsonFileIngestor;
use localsearch::MemoryLocalSearchEngine;
use localsearch::ParsedDocumentFile;
use localsearch::RawFileIngestor;
use localsearch::RawTextFile;
use localsearch::SearchType;

#[test]
fn test_ingestion_result_starts_empty() {
    let r = IngestionResult::new();
    assert_eq!(r.indexed_count, 0);
    assert_eq!(r.failed_count, 0);
    assert!(r.failed_files.is_empty());
    assert_eq!(r.total_document_count, 0);
}

#[test]
fn test_json_ingest_tallies_files() {
    let engine = MemoryLocalSearchEngine::new(None);
    let mut ingestor = JsonFileIngestor::new(engine);
    let files = vec![
        ParsedDocumentFile {
            name: "batch1.json".to_string(),
            docs: Ok(vec![
                DocumentRequest {
                    path: "a.txt".to_string(),
                    content: "rust systems programming".to_string(),
                    metadata: None,
                },
                DocumentRequest {
                    path: "b.txt".to_string(),
                    content: "python programming language".to_string(),
                    metadata: None,
                },
            ]),
        },
        ParsedDocumentFile {
            name: "broken.json".to_string(),
            docs: Err("expected a list of documents".to_string()),
        },
    ];
    let result = ingestor.ingest(&files);
    assert_eq!(result.indexed_count, 1);
    assert_eq!(result.failed_count, 1);
    assert_eq!(result.failed_files.len(), 1);
    assert!(result.failed_files[0].starts_with("broken.json: "));
    assert_eq!(result.total_document_count, 2);

    let results = ingestor
        .indexer
        .search("programming", SearchType::FullText, Some(10), None)
        .unwrap();
    assert_eq!(results.len(), 2);
}

#[test]
fn test_raw_ingest_tallies_files() {
    let engine = MemoryLocalSearchEngine::new(None);
    let mut ingestor = RawFileIngestor::new(engine);
    let files = vec![
        RawTextFile {
            name: "notes/one.txt".to_string(),
            content: Ok("the quick brown fox".to_string()),
        },
        RawTextFile {
            name: "notes/two.txt".to_string(),
            content: Ok("jumps over the lazy dog".to_string()),
        },
        RawTextFile {
            name: "notes/missing.txt".to_string(),
            content: Err("file not found".to_string()),
        },
    ];
    let result = ingestor.ingest(&files);
    assert_eq!(result.indexed_count, 2);
    assert_eq!(result.failed_count, 1);
    assert_eq!(result.total_document_count, 2);

    let results = ingestor
        .indexer
        .search("fox", SearchType::FullText, Some(10), None)
        .unwrap();
    assert_eq!(results.len(), 1);
    assert_eq!(results[0].path, "notes/one.txt");
}

#[test]
fn test_raw_ingest_upserts_existing_path() {
    let engine = MemoryLocalSearchEngine::new(None);
    let mut ingestor = RawFileIngestor::new(engine);
    let first = vec![RawTextFile {
        name: "doc.txt".to_string(),
        content: Ok("original words".to_string()),
    }];
    let second = vec![RawTextFile {
        name: "doc.txt".to_string(),
        content: Ok("replacement words".to_string()),
    }];
    let r1 = ingestor.ingest(&first);
    assert_eq!(r1.total_document_count, 1);
    let r2 = ingestor.ingest(&second);
    assert_eq!(r2.indexed_count, 1);
    assert_eq!(r2.total_document_count, 1);

    let results = ingestor
        .indexer
        .search("replacement", SearchType::FullText, Some(10), None)
        .unwrap();
    assert_eq!(results.len(), 1);
}
