use vector_store::{InMemoryVectorStore, SearchResult};

#[test]
fn search_ranks_by_score_and_truncates() {
    let mut store = InMemoryVectorStore::new();
    store.insert(1, vec![1.0f32.to_bits(), 0.0f32.to_bits()]);
    store.insert(2, vec![0.0f32.to_bits(), 1.0f32.to_bits()]);
    store.insert(3, vec![1.0f32.to_bits(), 1.0f32.to_bits()]);
    // cosine similarity of each record with the query [1, 0]
    let scores = vec![
        1.0f32.to_bits(),
        0.0f32.to_bits(),
        (1.0f32 / 2.0f32.sqrt()).to_bits(),
    ];
    let r = store.search(&scores, 2);
    assert_eq!(r.len(), 2);
    assert_eq!(r[0].id, 1);
    assert_eq!(f32::from_bits(r[0].score_bits), 1.0);
    assert_eq!(r[1].id, 3);
    assert!((f32::from_bits(r[1].score_bits) - 0.707).abs() < 1e-3);
}

#[test]
fn search_on_empty_store_is_empty() {
    let store = InMemoryVectorStore::new();
    assert!(store.is_empty());
    let r = store.search(&vec![], 5);
    assert!(r.is_empty());
}

#[test]
fn second_insert_replaces_vector() {
    let mut store = InMemoryVectorStore::new();
    store.insert(7, vec![1.0f32.to_bits(), 2.0f32.to_bits(), 3.0f32.to_bits()]);
    store.insert(7, vec![4.0f32.to_bits(), 5.0f32.to_bits(), 6.0f32.to_bits()]);
    assert_eq!(store.len(), 1);
    assert_eq!(
        store.get(7),
        Some(&vec![4.0f32.to_bits(), 5.0f32.to_bits(), 6.0f32.to_bits()])
    );
    // similarity of [4, 5, 6] with itself
    let r = store.search(&vec![1.0f32.to_bits()], 1);
    assert_eq!(r, vec![SearchResult { id: 7, score_bits: 1.0f32.to_bits() }]);
}

#[test]
fn insert_twice_same_as_once() {
    let mut once = InMemoryVectorStore::new();
    once.insert(4, vec![2.0f32.to_bits()]);
    let mut twice = InMemoryVectorStore::new();
    twice.insert(4, vec![2.0f32.to_bits()]);
    twice.insert(4, vec![2.0f32.to_bits()]);
    assert_eq!(twice.len(), once.len());
    assert_eq!(twice.get(4), once.get(4));
    let scores = vec![0.5f32.to_bits()];
    assert_eq!(twice.search(&scores, 3), once.search(&scores, 3));
}

#[test]
fn new_ids_append_in_order() {
    let mut store = InMemoryVectorStore::new();
    store.insert(9, vec![1]);
    store.insert(3, vec![2]);
    store.insert(9, vec![5]);
    let ids: Vec<u64> = store.records().iter().map(|r| r.id).collect();
    assert_eq!(ids, vec![9, 3]);
    assert_eq!(store.records()[0].vector, vec![5]);
    assert_eq!(store.get(4), None);
}

#[test]
fn result_length_is_min_of_k_and_count() {
    let mut store = InMemoryVectorStore::new();
    store.insert(1, vec![0]);
    store.insert(2, vec![0]);
    store.insert(3, vec![0]);
    let scores = vec![0.1f32.to_bits(), 0.2f32.to_bits(), 0.3f32.to_bits()];
    assert_eq!(store.search(&scores, 0).len(), 0);
    assert_eq!(store.search(&scores, 2).len(), 2);
    assert_eq!(store.search(&scores, 3).len(), 3);
    assert_eq!(store.search(&scores, 10).len(), 3);
}

#[test]
fn results_sorted_descending_nan_last() {
    let mut store = InMemoryVectorStore::new();
    for id in 1..=5u64 {
        store.insert(id, vec![0]);
    }
    let scores = vec![
        (-0.5f32).to_bits(),
        f32::NAN.to_bits(),
        0.25f32.to_bits(),
        (-1.0f32).to_bits(),
        0.75f32.to_bits(),
    ];
    let r = store.search(&scores, 5);
    let ids: Vec<u64> = r.iter().map(|h| h.id).collect();
    assert_eq!(ids, vec![5, 3, 1, 4, 2]);
    for w in r.windows(2) {
        let a = f32::from_bits(w[0].score_bits);
        let b = f32::from_bits(w[1].score_bits);
        assert!(b.is_nan() || a >= b);
    }
}

#[test]
fn equal_scores_keep_store_order() {
    let mut store = InMemoryVectorStore::new();
    store.insert(30, vec![0]);
    store.insert(10, vec![0]);
    store.insert(20, vec![0]);
    let scores = vec![0.5f32.to_bits(), 0.9f32.to_bits(), 0.5f32.to_bits()];
    let ids: Vec<u64> = store.search(&scores, 3).iter().map(|h| h.id).collect();
    assert_eq!(ids, vec![10, 30, 20]);
    // both zeros rank equal
    let zeros = vec![(-0.0f32).to_bits(), 0.0f32.to_bits(), (-0.0f32).to_bits()];
    let ids: Vec<u64> = store.search(&zeros, 3).iter().map(|h| h.id).collect();
    assert_eq!(ids, vec![30, 10, 20]);
}

#[test]
fn dims_match_checks_every_record() {
    let mut store = InMemoryVectorStore::new();
    assert!(store.dims_match(4));
    store.insert(1, vec![0, 0]);
    store.insert(2, vec![0, 0]);
    assert!(store.dims_match(2));
    store.insert(3, vec![0, 0, 0]);
    assert!(!store.dims_match(2));
}
