use localsearch::BagEmbedder;
use localsearch::DocumentRequest;
use localsearch::EngineError;
use localsearch::MemoryLocalSearchEngine;
use localsearch::SearchType;

fn create_test_engine() -> MemoryLocalSearchEngine {
    MemoryLocalSearchEngine::new(None)
}

fn create_test_engine_with_embedder() -> MemoryLocalSearchEngine {
    MemoryLocalSearchEngine::new(Some(BagEmbedder::new(64)))
}

fn create_test_document(path: &str, content: &str) -> DocumentRequest {
    let metadata = vec![
        ("title".to_string(), format!("Test Document {}", path)),
        ("type".to_string(), "test".to_string()),
    ];
    DocumentRequest {
        path: path.to_string(),
        content: content.to_string(),
        metadata: Some(metadata),
    }
}

#[test]
fn test_engine_initialization() {
    let engine = create_test_engine();
    assert!(engine.stats().is_ok());
    assert_eq!(engine.stats().unwrap(), 0);
}

#[test]
fn test_document_insertion() {
    let mut engine = create_test_engine();

    let doc = create_test_document(
        "test1.txt",
        "This is a test document about Rust programming.",
    );
    let result = engine.insert_document(doc);
    assert!(result.is_ok());

    let count = engine.stats().unwrap();
    assert_eq!(count, 1);
}

#[test]
fn test_document_upsert() {
    let mut engine = create_test_engine();

    let doc1 = create_test_document("test1.txt", "Original content");
    engine.insert_document(doc1).unwrap();

    let doc2 = create_test_document("test1.txt", "Updated content about machine learning");
    let result = engine.upsert_document(doc2);
    assert!(result.is_ok());

    let count = engine.stats().unwrap();
    assert_eq!(count, 1);
}

#[test]
fn test_document_deletion() {
    let mut engine = create_test_engine();

    let doc = create_test_document("test1.txt", "This document will be deleted");
    engine.insert_document(doc).unwrap();
    assert_eq!(engine.stats().unwrap(), 1);

    let result = engine.delete_document("test1.txt");
    assert!(result.is_ok());

    let count = engine.stats().unwrap();
    assert_eq!(count, 0);
}

#[test]
fn test_fulltext_search() {
    let mut engine = create_test_engine();

    let docs = vec![
        create_test_document("rust1.txt", "Rust programming language is memory safe"),
        create_test_document("python1.txt", "Python is a high-level programming language"),
        create_test_document("js1.txt", "JavaScript is used for web development"),
    ];

    for doc in docs {
        engine.insert_document(doc).unwrap();
    }

    let results = engine
        .search("programming", SearchType::FullText, Some(10), None)
        .unwrap();
    assert_eq!(results.len(), 2);

    for result in &results {
        assert!(result.fts_score.is_some() && result.fts_score.unwrap() > localsearch::SCORE_SCALE / 10);
        assert!(result.semantic_score.is_none());
    }
}

#[test]
fn test_semantic_search() {
    let mut engine = create_test_engine_with_embedder();

    let docs = vec![
        create_test_document("car1.txt", "Automobiles are vehicles for transportation"),
        create_test_document("car2.txt", "Cars help people travel from place to place"),
        create_test_document("cooking1.txt", "Recipes help you prepare delicious meals"),
    ];

    for doc in docs {
        engine.insert_document(doc).unwrap();
    }

    let results = engine
        .search(
            "vehicle transportation",
            SearchType::Semantic,
            Some(10),
            None,
        )
        .unwrap();
    assert!(!results.is_empty());

    for result in &results {
        assert!(result.fts_score.is_none());
        assert!(result.semantic_score.is_some());
    }

    assert!(results[0].semantic_score.unwrap() > 0);
}

#[test]
fn test_hybrid_search() {
    let mut engine = create_test_engine_with_embedder();

    let docs = vec![
        create_test_document("tech1.txt", "Rust programming language memory safety"),
        create_test_document(
            "tech2.txt",
            "Programming languages help developers build software",
        ),
        create_test_document("other1.txt", "Cooking recipes for dinner tonight"),
    ];

    for doc in docs {
        engine.insert_document(doc).unwrap();
    }

    let results = engine
        .search("programming", SearchType::Hybrid, Some(10), None)
        .unwrap();
    assert!(!results.is_empty());

    let mut found_both_scores = false;
    for result in &results {
        if result.fts_score.is_some() && result.semantic_score.is_some() {
            found_both_scores |= result.fts_score.unwrap() > localsearch::SCORE_SCALE / 100
                && result.semantic_score.unwrap() > localsearch::SCORE_SCALE / 100;
        }
        assert!(result.final_score > 0);
    }
    assert!(
        found_both_scores,
        "Should have at least one result with both FTS and semantic scores"
    );
}

#[test]
fn test_refresh_keeps_state() {
    let mut engine = create_test_engine();
    engine
        .insert_document(create_test_document("test1.txt", "Test content"))
        .unwrap();
    assert_eq!(engine.stats().unwrap(), 1);
    assert!(engine.refresh().is_ok());
    assert_eq!(engine.stats().unwrap(), 1);
}

#[test]
fn test_stats_empty_database() {
    let engine = create_test_engine();

    let count = engine.stats().unwrap();
    assert_eq!(count, 0);
}

#[test]
fn test_search_no_results() {
    let engine = create_test_engine();

    let results = engine
        .search("nonexistent query", SearchType::FullText, Some(10), None)
        .unwrap();
    assert!(results.is_empty());

    let semantic_result = engine.search("nonexistent query", SearchType::Semantic, Some(10), None);
    assert!(semantic_result.is_err());

    let results = engine
        .search("nonexistent query", SearchType::Hybrid, Some(10), None)
        .unwrap();
    assert!(results.is_empty());
}

#[test]
fn test_no_search_result_embedder() {
    let engine_with_embedder = create_test_engine_with_embedder();

    let results = engine_with_embedder
        .search("nonexistent query", SearchType::Semantic, Some(10), None)
        .unwrap();
    assert!(results.is_empty());

    let results = engine_with_embedder
        .search("nonexistent query", SearchType::Hybrid, Some(10), None)
        .unwrap();
    assert!(results.is_empty());
}

#[test]
fn test_duplicate_insertion_fails() {
    let mut engine = create_test_engine();

    let doc1 = create_test_document("test1.txt", "First content");
    let doc2 = create_test_document("test1.txt", "Second content");

    let result1 = engine.insert_document(doc1);
    assert!(result1.is_ok());

    let result2 = engine.insert_document(doc2);
    assert!(result2.is_err());
}

#[test]
fn test_duplicate_insertion_leaves_state() {
    let mut engine = create_test_engine();

    engine
        .insert_document(create_test_document("test1.txt", "First content"))
        .unwrap();
    let err = engine
        .insert_document(create_test_document("test1.txt", "Second content"))
        .unwrap_err();
    assert!(matches!(err, EngineError::DuplicateKey));
    assert_eq!(engine.stats().unwrap(), 1);

    // the stored content is still the first one
    let results = engine
        .search("First", SearchType::FullText, Some(10), None)
        .unwrap();
    assert_eq!(results.len(), 1);
    let results = engine
        .search("Second", SearchType::FullText, Some(10), None)
        .unwrap();
    assert!(results.is_empty());
}

#[test]
fn test_delete_nonexistent_document() {
    let mut engine = create_test_engine();

    let result = engine.delete_document("nonexistent.txt");
    assert!(result.is_ok());

    let count = engine.stats().unwrap();
    assert_eq!(count, 0);
}

#[test]
fn test_delete_twice_is_idempotent() {
    let mut engine = create_test_engine();
    engine
        .insert_document(create_test_document("a.txt", "something"))
        .unwrap();
    engine
        .insert_document(create_test_document("b.txt", "something else"))
        .unwrap();

    assert!(engine.delete_document("a.txt").is_ok());
    let count_after_first = engine.stats().unwrap();
    assert!(engine.delete_document("a.txt").is_ok());
    let count_after_second = engine.stats().unwrap();
    assert_eq!(count_after_first, 1);
    assert_eq!(count_after_second, 1);
}

#[test]
fn test_upsert_new_document() {
    let mut engine = create_test_engine();

    let doc = create_test_document("new.txt", "New document content");
    let result = engine.upsert_document(doc);
    assert!(result.is_ok());

    let count = engine.stats().unwrap();
    assert_eq!(count, 1);
}

#[test]
fn test_path_filter_functionality() {
    let mut engine = create_test_engine();

    let docs = vec![
        create_test_document("src/main.rs", "Rust programming language"),
        create_test_document("src/lib.rs", "Library code in Rust"),
        create_test_document("docs/readme.md", "Documentation for the project"),
        create_test_document("tests/unit_test.rs", "Unit tests in Rust"),
    ];

    for doc in docs {
        engine.insert_document(doc).expect("Failed to insert document");
    }

    let results_no_filter = engine
        .search("Rust", SearchType::FullText, Some(10), None)
        .unwrap();
    assert_eq!(results_no_filter.len(), 3);

    let results_src_filter = engine
        .search(
            "Rust",
            SearchType::FullText,
            Some(10),
            Some(&["src".to_string()]),
        )
        .unwrap();
    assert_eq!(results_src_filter.len(), 2);
    assert!(results_src_filter.iter().all(|r| r.path.contains("src")));

    let results_md_filter = engine
        .search(
            "Documentation",
            SearchType::FullText,
            Some(10),
            Some(&[".md".to_string()]),
        )
        .unwrap();
    assert_eq!(results_md_filter.len(), 1);
    assert!(results_md_filter[0].path.ends_with(".md"));

    let results_multi_filter = engine
        .search(
            "Rust",
            SearchType::FullText,
            Some(10),
            Some(&["main".to_string(), "test".to_string()]),
        )
        .unwrap();
    assert_eq!(results_multi_filter.len(), 2);
    assert!(
        results_multi_filter
            .iter()
            .all(|r| r.path.contains("main") || r.path.contains("test"))
    );

    let results_empty_filter = engine
        .search(
            "Rust",
            SearchType::FullText,
            Some(10),
            Some(&["python".to_string()]),
        )
        .unwrap();
    assert_eq!(results_empty_filter.len(), 0);
}

#[test]
fn test_lexical_scenario_exact_matches() {
    let mut engine = create_test_engine();
    engine
        .insert_document(create_test_document("a.txt", "rust systems programming"))
        .unwrap();
    engine
        .insert_document(create_test_document("b.txt", "python programming language"))
        .unwrap();
    engine
        .insert_document(create_test_document("c.txt", "cooking recipes"))
        .unwrap();

    let results = engine
        .search("programming", SearchType::FullText, Some(10), None)
        .unwrap();
    let mut paths: Vec<String> = results.iter().map(|r| r.path.clone()).collect();
    paths.sort();
    assert_eq!(paths, vec!["a.txt".to_string(), "b.txt".to_string()]);
    for r in &results {
        assert!(r.fts_score.is_some());
        assert!(r.semantic_score.is_none());
    }
}

#[test]
fn test_path_filter_scenario() {
    let mut engine = create_test_engine();
    engine
        .insert_document(create_test_document("a.txt", "rust systems programming"))
        .unwrap();
    engine
        .insert_document(create_test_document("b.txt", "python programming language"))
        .unwrap();
    engine
        .insert_document(create_test_document("c.txt", "cooking recipes"))
        .unwrap();

    let results = engine
        .search(
            "programming",
            SearchType::FullText,
            Some(10),
            Some(&["a".to_string()]),
        )
        .unwrap();
    assert_eq!(results.len(), 1);
    assert_eq!(results[0].path, "a.txt");
}

#[test]
fn test_hybrid_degrades_without_embedder() {
    let mut engine = create_test_engine();
    engine
        .insert_document(create_test_document("a.txt", "rust systems programming"))
        .unwrap();
    engine
        .insert_document(create_test_document("b.txt", "python programming language"))
        .unwrap();

    let lexical = engine
        .search("programming", SearchType::FullText, Some(10), None)
        .unwrap();
    let hybrid = engine
        .search("programming", SearchType::Hybrid, Some(10), None)
        .unwrap();
    assert_eq!(lexical.len(), hybrid.len());
    for (l, h) in lexical.iter().zip(hybrid.iter()) {
        assert_eq!(l.path, h.path);
        assert_eq!(l.fts_score, h.fts_score);
        assert_eq!(l.final_score, h.final_score);
    }
}

#[test]
fn test_hybrid_fusion_weights() {
    let mut engine = create_test_engine_with_embedder();
    engine
        .insert_document(create_test_document("alpha.txt", "alpha"))
        .unwrap();
    engine
        .insert_document(create_test_document("beta.txt", "beta"))
        .unwrap();

    let results = engine
        .search("alpha", SearchType::Hybrid, Some(10), None)
        .unwrap();
    assert_eq!(results.len(), 1);
    let r = &results[0];
    assert_eq!(r.path, "alpha.txt");
    // the single lexical candidate has full lexical weight, and the
    // embedding of a one-token document matches the query exactly
    assert_eq!(r.fts_score, Some(localsearch::SCORE_SCALE));
    assert_eq!(r.semantic_score, Some(localsearch::SCORE_SCALE));
    // 0.6 * 1.0 + 0.4 * 1.0 == 1.0 in fixed point
    assert_eq!(r.final_score, localsearch::SCORE_SCALE);
}

#[test]
fn test_result_limit_applied_after_ranking() {
    let mut engine = create_test_engine();
    engine
        .insert_document(create_test_document("one.txt", "term"))
        .unwrap();
    engine
        .insert_document(create_test_document("two.txt", "term term other words here"))
        .unwrap();
    engine
        .insert_document(create_test_document("three.txt", "term words"))
        .unwrap();

    let limited = engine
        .search("term", SearchType::FullText, Some(2), None)
        .unwrap();
    assert_eq!(limited.len(), 2);
    let full = engine
        .search("term", SearchType::FullText, Some(10), None)
        .unwrap();
    assert_eq!(full.len(), 3);
    assert_eq!(limited[0].path, full[0].path);
    assert_eq!(limited[1].path, full[1].path);
    // descending by final score
    assert!(full[0].final_score >= full[1].final_score);
    assert!(full[1].final_score >= full[2].final_score);
}

#[test]
fn test_error_descriptions() {
    assert!(EngineError::DuplicateKey.describe().contains("exists"));
    assert!(EngineError::NotConfigured.describe().contains("provider"));
}

#[test]
fn test_semantic_without_provider_is_not_configured() {
    let engine = create_test_engine();
    let err = engine
        .search("anything", SearchType::Semantic, Some(10), None)
        .unwrap_err();
    assert!(matches!(err, EngineError::NotConfigured));
}
