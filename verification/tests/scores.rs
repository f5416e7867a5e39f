use localsearch::SCORE_SCALE;
use localsearch::score::cosine_similarity;
use localsearch::score::isqrt;
use localsearch::score::normalize_vector;
use localsearch::fusion::max_normalize;
use localsearch::fusion::prob_normalize;
use localsearch::text::contains_sub;
use localsearch::text::contains_word;
use localsearch::text::tokenize;
use localsearch::BagEmbedder;

#[test]
fn test_cosine_similarity() {
    // identical unit vectors: similarity is exactly one
    let vec1 = vec![SCORE_SCALE, 0, 0];
    let vec2 = vec![SCORE_SCALE, 0, 0];
    let similarity = cosine_similarity(&vec1, &vec2);
    assert!((similarity - SCORE_SCALE).abs() < SCORE_SCALE / 1000);

    // orthogonal vectors: similarity is exactly zero
    let vec3 = vec![SCORE_SCALE, 0, 0];
    let vec4 = vec![0, SCORE_SCALE, 0];
    let similarity = cosine_similarity(&vec3, &vec4);
    assert!(similarity.abs() < SCORE_SCALE / 1000);

    // mismatched lengths: exactly zero
    let vec5 = vec![SCORE_SCALE, 0];
    let vec6 = vec![SCORE_SCALE, 0, 0];
    let similarity = cosine_similarity(&vec5, &vec6);
    assert_eq!(similarity, 0);
}

#[test]
fn test_normalize_l2_small_norm() {
    // 0.1, 0.2, 0.3 in fixed point: the norm is far above the threshold,
    // so the vector is rescaled
    let input: Vec<i64> = vec![SCORE_SCALE / 10, SCORE_SCALE / 5, (3 * SCORE_SCALE) / 10];
    let result = normalize_vector(&input);
    assert_ne!(result, input);
}

#[test]
fn test_normalize_below_threshold_unchanged() {
    // a norm below the stability threshold leaves the vector untouched
    let input: Vec<i64> = vec![3, 4];
    let result = normalize_vector(&input);
    assert_eq!(result, input);
}

#[test]
fn test_normalization_unit_norm() {
    // 0.3, 0.4 has norm 0.5: rescaling gives 0.6, 0.8, of norm exactly one
    let input: Vec<i64> = vec![(3 * SCORE_SCALE) / 10, (2 * SCORE_SCALE) / 5];
    let result = normalize_vector(&input);
    assert_eq!(result, vec![(3 * SCORE_SCALE) / 5, (4 * SCORE_SCALE) / 5]);
    let norm_sq: i64 = result.iter().map(|x| x * x).sum();
    assert_eq!(norm_sq, SCORE_SCALE * SCORE_SCALE);
}

#[test]
fn test_isqrt_values() {
    assert_eq!(isqrt(0), 0);
    assert_eq!(isqrt(1), 1);
    assert_eq!(isqrt(15), 3);
    assert_eq!(isqrt(16), 4);
    assert_eq!(isqrt(1_000_000_000_000), 1_000_000);
}

#[test]
fn test_probability_transform() {
    // distinct scores: shares sum to one up to one tick per candidate,
    // and order is preserved
    let scores = vec![SCORE_SCALE, 2 * SCORE_SCALE, 3 * SCORE_SCALE];
    let result = prob_normalize(&scores);
    let sum: i64 = result.iter().sum();
    assert!(sum <= SCORE_SCALE && sum >= SCORE_SCALE - 3);
    assert!(result[2] > result[1]);
    assert!(result[1] > result[0]);
    for p in &result {
        assert!(*p > 0);
    }

    // identical scores: exactly uniform shares
    let equal_scores = vec![2 * SCORE_SCALE, 2 * SCORE_SCALE, 2 * SCORE_SCALE];
    let equal_result = prob_normalize(&equal_scores);
    for p in &equal_result {
        assert_eq!(*p, SCORE_SCALE / 3);
    }

    // a single candidate receives the whole mass
    let single = vec![5 * SCORE_SCALE];
    let single_result = prob_normalize(&single);
    assert_eq!(single_result, vec![SCORE_SCALE]);

    // no candidates yield no shares
    let empty: Vec<i64> = vec![];
    let empty_result = prob_normalize(&empty);
    assert!(empty_result.is_empty());

    // all-zero scores fall back to the uniform distribution
    let zeros = vec![0, 0, 0];
    let zero_result = prob_normalize(&zeros);
    for p in &zero_result {
        assert_eq!(*p, SCORE_SCALE / 3);
    }
}

#[test]
fn test_max_normalization() {
    let scores = vec![SCORE_SCALE / 2, SCORE_SCALE / 4, SCORE_SCALE / 2];
    let result = max_normalize(&scores);
    // the best score maps to exactly one, the rest keep their ratio
    assert_eq!(result[0], SCORE_SCALE);
    assert_eq!(result[1], SCORE_SCALE / 2);
    assert_eq!(result[2], SCORE_SCALE);

    // an all-zero list is scaled by one and stays zero
    let zeros = vec![0, 0];
    assert_eq!(max_normalize(&zeros), vec![0, 0]);
}

#[test]
fn test_tokenize_case_folding() {
    let toks = tokenize(b"Rust, programming; RUST-lang!");
    let expected: Vec<Vec<u8>> = vec![
        b"rust".to_vec(),
        b"programming".to_vec(),
        b"rust".to_vec(),
        b"lang".to_vec(),
    ];
    assert_eq!(toks, expected);
}

#[test]
fn test_contains_word_boundaries() {
    // whole-word matching, case-insensitive
    assert!(contains_word(b"Rust programming language", b"rust"));
    assert!(contains_word(b"Rust programming language", b"programming"));
    // "gram" occurs only inside a larger word
    assert!(!contains_word(b"Rust programming language", b"gram"));
    assert!(!contains_word(b"Rust programming language", b"python"));
}

#[test]
fn test_contains_substring() {
    assert!(contains_sub(b"src/main.rs", b"src"));
    assert!(contains_sub(b"src/main.rs", b".rs"));
    assert!(contains_sub(b"src/main.rs", b""));
    assert!(!contains_sub(b"src/main.rs", b"test"));
}

#[test]
fn test_bag_embedder_deterministic() {
    let e = BagEmbedder::new(64);
    let a = e.embed("machine learning systems");
    let b = e.embed("machine learning systems");
    assert_eq!(a.len(), 64);
    assert_eq!(a, b);

    // the embedding of a one-token text is a unit vector
    let u = e.embed("alpha");
    let norm_sq: i64 = u.iter().map(|x| x * x).sum();
    assert_eq!(norm_sq, SCORE_SCALE * SCORE_SCALE);

    // similarity of a text with itself is one
    let sim = cosine_similarity(&u, &u);
    assert_eq!(sim, SCORE_SCALE);
}

#[test]
fn test_embed_empty_text_is_zero() {
    let e = BagEmbedder::new(8);
    let v = e.embed("");
    assert_eq!(v, vec![0; 8]);
}
