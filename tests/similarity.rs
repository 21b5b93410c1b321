use cachedb::{select_top_k, CacheDB, Collection, Distance, Embedding, SimilarityResult, StrMap};

fn normalize(v: Vec<f32>) -> Vec<f32> {
    let norm = v.iter().map(|x| x * x).sum::<f32>().sqrt();
    if norm == 0.0 {
        vec![0.0; v.len()]
    } else {
        v.iter().map(|x| x / norm).collect()
    }
}

fn order_key(score: f32) -> u32 {
    let bits = (score + 0.0).to_bits();
    if bits >> 31 == 1 {
        !bits
    } else {
        bits | 0x8000_0000
    }
}

fn score(distance: Distance, stored: &[f32], query: &[f32]) -> f32 {
    match distance {
        Distance::Euclidean => stored.iter().zip(query).map(|(a, b)| (a - b) * (a - b)).sum(),
        Distance::Cosine => 1.0 - stored.iter().zip(query).map(|(a, b)| a * b).sum::<f32>(),
        Distance::DotProduct => -stored.iter().zip(query).map(|(a, b)| a * b).sum::<f32>(),
    }
}

fn query(c: &Collection<f32>, q: &[f32], k: usize) -> Vec<SimilarityResult<f32, f32>> {
    let q: Vec<f32> = if c.distance == Distance::Cosine { normalize(q.to_vec()) } else { q.to_vec() };
    let scores: Vec<f32> = c.embeddings.iter().map(|e| score(c.distance, &e.vector, &q)).collect();
    let keys: Vec<u32> = scores.iter().map(|s| order_key(*s)).collect();
    c.get_similarity(&scores, &keys, k)
}

fn id(v: &str) -> StrMap {
    let mut m = StrMap::new();
    m.insert("unique_id".to_string(), v.to_string());
    m
}

#[test]
fn euclidean_single_result() {
    let mut db: CacheDB<f32> = CacheDB::new();
    db.create_collection("C".to_string(), 3, Distance::Euclidean).unwrap();
    let e = Embedding { id: id("1"), vector: vec![1.0, 1.0, 1.0], metadata: None };
    db.insert_into_collection("C", e.clone(), &normalize).unwrap();
    let c = db.query_target("C", 3).unwrap();
    let r = query(c, &[0.0, 0.0, 0.0], 1);
    assert_eq!(r.len(), 1);
    assert_eq!(r[0].score, 3.0);
    assert_eq!(r[0].embedding, e);
}

#[test]
fn cosine_query_of_same_direction_scores_zero() {
    let mut db: CacheDB<f32> = CacheDB::new();
    db.create_collection("C".to_string(), 3, Distance::Cosine).unwrap();
    let e = Embedding { id: id("1"), vector: vec![2.0, 0.0, 0.0], metadata: None };
    db.insert_into_collection("C", e, &normalize).unwrap();
    let c = db.query_target("C", 3).unwrap();
    assert_eq!(c.embeddings[0].vector, vec![1.0, 0.0, 0.0]);
    let r = query(c, &[3.0, 0.0, 0.0], 1);
    assert_eq!(r.len(), 1);
    assert_eq!(r[0].score, 0.0);
}

#[test]
fn equal_scores_put_later_embedding_first() {
    let mut db: CacheDB<f32> = CacheDB::new();
    db.create_collection("C".to_string(), 3, Distance::Euclidean).unwrap();
    let a = Embedding { id: id("a"), vector: vec![1.0, 0.0, 0.0], metadata: None };
    let b = Embedding { id: id("b"), vector: vec![0.0, 1.0, 0.0], metadata: None };
    db.insert_into_collection("C", a.clone(), &normalize).unwrap();
    db.insert_into_collection("C", b.clone(), &normalize).unwrap();
    let c = db.query_target("C", 3).unwrap();
    let r = query(c, &[0.0, 0.0, 0.0], 2);
    assert_eq!(r.len(), 2);
    assert_eq!(r[0].score, 1.0);
    assert_eq!(r[1].score, 1.0);
    assert_eq!(r[0].embedding, b);
    assert_eq!(r[1].embedding, a);
}

#[test]
fn k_zero_gives_nothing() {
    assert_eq!(select_top_k(&vec![5, 1, 3], 0), Vec::<usize>::new());
}

#[test]
fn k_above_size_gives_all_sorted() {
    assert_eq!(select_top_k(&vec![5, 1, 3], 10), vec![1, 2, 0]);
}

#[test]
fn empty_candidates_give_nothing() {
    assert_eq!(select_top_k(&Vec::new(), 3), Vec::<usize>::new());
}

#[test]
fn keeps_k_smallest_in_order() {
    assert_eq!(select_top_k(&vec![9, 4, 7, 1, 4, 8], 3), vec![3, 4, 1]);
}

#[test]
fn ties_prefer_larger_index() {
    assert_eq!(select_top_k(&vec![2, 2, 2, 2], 2), vec![3, 2]);
    assert_eq!(select_top_k(&vec![2, 2, 2, 2], 4), vec![3, 2, 1, 0]);
}

#[test]
fn top_k_pairs_scores_with_embeddings() {
    let c = Collection {
        dimension: 1,
        distance: Distance::DotProduct,
        embeddings: vec![
            Embedding { id: id("0"), vector: vec![1.0], metadata: None },
            Embedding { id: id("1"), vector: vec![3.0], metadata: None },
            Embedding { id: id("2"), vector: vec![2.0], metadata: None },
        ],
    };
    let r = query(&c, &[1.0], 2);
    assert_eq!(r.len(), 2);
    assert_eq!(r[0].score, -3.0);
    assert_eq!(r[0].embedding.id, id("1"));
    assert_eq!(r[1].score, -2.0);
    assert_eq!(r[1].embedding.id, id("2"));
}

#[test]
fn test_get_similarity() {
    let collection = Collection {
        dimension: 3,
        distance: Distance::Euclidean,
        embeddings: vec![
            Embedding { id: id("0"), vector: vec![1.0, 1.0, 1.0], metadata: None },
            Embedding { id: id("1"), vector: vec![2.0, 2.0, 2.0], metadata: None },
            Embedding { id: id("2"), vector: vec![3.0, 3.0, 3.0], metadata: None },
        ],
    };
    let query_vector = vec![0.0, 0.0, 0.0];
    let expected_results = vec![
        SimilarityResult { score: 3.0, embedding: Embedding { id: id("0"), vector: vec![1.0, 1.0, 1.0], metadata: None } },
        SimilarityResult { score: 12.0, embedding: Embedding { id: id("1"), vector: vec![2.0, 2.0, 2.0], metadata: None } },
        SimilarityResult { score: 27.0, embedding: Embedding { id: id("2"), vector: vec![3.0, 3.0, 3.0], metadata: None } },
    ];
    let results = query(&collection, &query_vector, 3);
    assert_eq!(results, expected_results);
}
