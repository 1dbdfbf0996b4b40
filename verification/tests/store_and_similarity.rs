use contrag_core::error::ContragError;
use contrag_core::similarity::{cosine_similarity, euclidean_distance, Similarity};
use contrag_core::types::{Vector, VectorMetadata};
use contrag_core::vector_store::{create_vector_store, StableMemoryVectorStore};

// One unit of embedding magnitude in fixed-point coordinates.
const ONE: i64 = 10_000;

fn meta(entity_id: &str) -> VectorMetadata {
    VectorMetadata {
        entity_type: "Test".to_string(),
        entity_id: entity_id.to_string(),
        chunk_index: 0,
        total_chunks: 1,
        timestamp: 0,
        custom: None,
    }
}

fn vec_of(id: &str, text: &str, embedding: Vec<i64>) -> Vector {
    Vector { id: id.to_string(), embedding, text: text.to_string(), metadata: meta("1") }
}

fn is_exactly_one(s: &Similarity) -> bool {
    s.dot > 0 && (s.dot as i128) * (s.dot as i128) == (s.qq as i128) * (s.vv as i128)
}

#[test]
fn test_cosine_similarity() {
    let a = vec![ONE, 0, 0];
    let b = vec![ONE, 0, 0];
    assert!(is_exactly_one(&cosine_similarity(&a, &b)));

    let c = vec![ONE, 0, 0];
    let d = vec![0, ONE, 0];
    assert_eq!(cosine_similarity(&c, &d).dot, 0);
}

#[test]
fn test_euclidean_distance() {
    let a = vec![0, 0, 0];
    let b = vec![ONE, 0, 0];
    // Squared distance of one unit.
    assert_eq!(euclidean_distance(&a, &b), (ONE as u64) * (ONE as u64));

    let c = vec![0, 0, 0];
    let d = vec![ONE, ONE, 0];
    // Squared distance of sqrt(2) units.
    assert_eq!(euclidean_distance(&c, &d), 2 * (ONE as u64) * (ONE as u64));
}

#[test]
fn cosine_degenerate_inputs_score_zero() {
    let a = vec![ONE, 0];
    let b = vec![ONE, 0, 0];
    let s = cosine_similarity(&a, &b);
    assert_eq!((s.dot, s.qq, s.vv), (0, 1, 1));

    let z = vec![0, 0, 0];
    let s = cosine_similarity(&a, &vec![0, 0]);
    assert_eq!(s.dot, 0);
    let s = cosine_similarity(&z, &z);
    assert_eq!(s.dot, 0);
}

#[test]
fn euclidean_distance_mismatch_is_sentinel() {
    assert_eq!(euclidean_distance(&vec![1, 2], &vec![1, 2, 3]), u64::MAX);
}

#[test]
fn test_store_and_search() {
    let mut store = StableMemoryVectorStore::new();

    let vector = Vector {
        id: "test1".to_string(),
        embedding: vec![ONE, 0, 0],
        text: "Test text".to_string(),
        metadata: meta("1"),
    };

    store.store("test_namespace", vector).unwrap();

    let results = store.search("test_namespace", vec![ONE, 0, 0], 5).unwrap();

    assert_eq!(results.len(), 1);
    assert_eq!(results[0].vector_id, "test1");
    assert!(is_exactly_one(&results[0].score));
}

#[test]
fn storing_twice_under_one_id_upserts() {
    let mut store = create_vector_store();
    store.store("ns", vec_of("id-1", "first", vec![ONE, 0])).unwrap();
    store.store("ns", vec_of("id-1", "second", vec![0, ONE])).unwrap();

    assert_eq!(store.count("ns").unwrap(), 1);
    let results = store.search("ns", vec![0, ONE], 5).unwrap();
    assert_eq!(results.len(), 1);
    assert_eq!(results[0].text, "second");
}

#[test]
fn search_orders_by_similarity_with_ties_by_insertion() {
    let mut store = create_vector_store();
    // Descending true similarity to the query [ONE, 0]:
    store.store("ns", vec_of("v3", "worst", vec![-ONE, 0])).unwrap();
    store.store("ns", vec_of("v1", "best", vec![ONE, 0])).unwrap();
    store.store("ns", vec_of("v2", "middle", vec![ONE, ONE])).unwrap();

    let results = store.search("ns", vec![ONE, 0], 3).unwrap();
    assert_eq!(results.len(), 3);
    assert_eq!(results[0].vector_id, "v1");
    assert_eq!(results[1].vector_id, "v2");
    assert_eq!(results[2].vector_id, "v3");

    let top1 = store.search("ns", vec![ONE, 0], 1).unwrap();
    assert_eq!(top1.len(), 1);
    assert_eq!(top1[0].vector_id, "v1");

    match store.search("missing_ns", vec![ONE, 0], 5) {
        Err(ContragError::NamespaceNotFound(name)) => assert_eq!(name, "missing_ns"),
        other => panic!("expected NamespaceNotFound, got {:?}", other),
    }

    // An existing but emptied namespace answers with an empty result.
    store.store("empty_ns", vec_of("gone", "x", vec![ONE, 0])).unwrap();
    store.delete("empty_ns", "gone").unwrap();
    let empty = store.search("empty_ns", vec![ONE, 0], 5).unwrap();
    assert_eq!(empty.len(), 0);
}

#[test]
fn equal_scores_keep_insertion_order() {
    let mut store = create_vector_store();
    store.store("ns", vec_of("early", "b", vec![ONE, 0])).unwrap();
    store.store("ns", vec_of("late", "a", vec![ONE / 2, 0])).unwrap();
    // Both vectors point the same way, so their cosine scores are equal.
    let results = store.search("ns", vec![ONE, 0], 2).unwrap();
    assert_eq!(results[0].vector_id, "early");
    assert_eq!(results[1].vector_id, "late");
}

#[test]
fn store_rejects_dimension_mismatch_without_mutating() {
    let mut store = create_vector_store();
    store.store("ns", vec_of("a", "x", vec![ONE, 0, 0])).unwrap();
    match store.store("ns", vec_of("b", "y", vec![ONE, 0])) {
        Err(ContragError::DimensionMismatch { expected, actual }) => {
            assert_eq!(expected, 3);
            assert_eq!(actual, 2);
        },
        other => panic!("expected DimensionMismatch, got {:?}", other),
    }
    assert_eq!(store.count("ns").unwrap(), 1);
}

#[test]
fn store_batch_is_all_or_nothing() {
    let mut store = create_vector_store();
    let bad = vec![
        vec_of("a", "x", vec![ONE, 0]),
        vec_of("b", "y", vec![ONE, 0, 0]),
    ];
    assert!(store.store_batch("ns", bad).is_err());
    assert_eq!(store.count("ns").unwrap(), 0);
    assert_eq!(store.list_namespaces().unwrap().len(), 0);

    let good = vec![
        vec_of("a", "x", vec![ONE, 0]),
        vec_of("b", "y", vec![0, ONE]),
    ];
    store.store_batch("ns", good).unwrap();
    assert_eq!(store.count("ns").unwrap(), 2);
}

#[test]
fn deletes_are_idempotent() {
    let mut store = create_vector_store();
    store.store("ns", vec_of("a", "x", vec![ONE, 0])).unwrap();
    store.delete("ns", "missing").unwrap();
    assert_eq!(store.count("ns").unwrap(), 1);
    store.delete("ns", "a").unwrap();
    store.delete("ns", "a").unwrap();
    assert_eq!(store.count("ns").unwrap(), 0);

    store.delete_namespace("ns").unwrap();
    store.delete_namespace("ns").unwrap();
    assert_eq!(store.count("ns").unwrap(), 0);
    assert!(store.search("ns", vec![ONE, 0], 1).is_err());
}

#[test]
fn namespaces_list_in_creation_order() {
    let mut store = create_vector_store();
    store.store("beta", vec_of("a", "x", vec![ONE])).unwrap();
    store.store("alpha", vec_of("a", "x", vec![ONE])).unwrap();
    store.store("beta", vec_of("b", "y", vec![ONE])).unwrap();
    assert_eq!(store.list_namespaces().unwrap(), vec!["beta".to_string(), "alpha".to_string()]);

    store.init();
    store.persist();
    assert_eq!(store.count("beta").unwrap(), 2);
}

#[test]
fn search_with_k_zero_returns_nothing() {
    let mut store = create_vector_store();
    store.store("ns", vec_of("a", "x", vec![ONE, 0])).unwrap();
    let results = store.search("ns", vec![ONE, 0], 0).unwrap();
    assert_eq!(results.len(), 0);
}
