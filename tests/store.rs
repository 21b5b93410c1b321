use cachedb::{CacheDB, Collection, Distance, Embedding, Error, StrMap};

fn normalize(v: Vec<f32>) -> Vec<f32> {
    let norm = v.iter().map(|x| x * x).sum::<f32>().sqrt();
    if norm == 0.0 {
        vec![0.0; v.len()]
    } else {
        v.iter().map(|x| x / norm).collect()
    }
}

fn text_map(pairs: &[(&str, &str)]) -> StrMap {
    let mut m = StrMap::new();
    for (k, v) in pairs {
        m.insert(k.to_string(), v.to_string());
    }
    m
}

fn test_metadata() -> StrMap {
    text_map(&[("page", "1"), ("text", "This is a test metadata text")])
}

#[test]
fn test_create_collection_success_eucledean() {
    let mut db: CacheDB<f32> = CacheDB::new();
    let result = db.create_collection("test_collection".to_string(), 100, Distance::Euclidean);

    assert!(result.is_ok());
    let collection = result.unwrap();
    assert_eq!(collection.dimension, 100);
    assert_eq!(collection.distance, Distance::Euclidean);
    assert!(db.contains_collection("test_collection"));
}

#[test]
fn test_create_collection_success_cosine() {
    let mut db: CacheDB<f32> = CacheDB::new();
    let result = db.create_collection("test_collection".to_string(), 100, Distance::Cosine);

    assert!(result.is_ok());
    let collection = result.unwrap();
    assert_eq!(collection.dimension, 100);
    assert_eq!(collection.distance, Distance::Cosine);
    assert!(db.contains_collection("test_collection"));
}

#[test]
fn test_create_collection_success_dot_product() {
    let mut db: CacheDB<f32> = CacheDB::new();
    let result = db.create_collection("test_collection".to_string(), 100, Distance::DotProduct);

    assert!(result.is_ok());
    let collection = result.unwrap();
    assert_eq!(collection.dimension, 100);
    assert_eq!(collection.distance, Distance::DotProduct);
    assert!(db.contains_collection("test_collection"));
}

#[test]
fn test_create_collection_already_exists() {
    let mut db: CacheDB<f32> = CacheDB::new();
    db.create_collection("test_collection".to_string(), 100, Distance::Euclidean).unwrap();

    let result = db.create_collection("test_collection".to_string(), 200, Distance::Cosine);
    assert!(result.is_err());
}

#[test]
fn test_insert_into_collection_success() {
    let mut db: CacheDB<f32> = CacheDB::new();
    db.create_collection("test_collection".to_string(), 3, Distance::Euclidean).unwrap();

    let embedding = Embedding {
        id: text_map(&[("unique_id", "1")]),
        vector: vec![1.0, 2.0, 3.0],
        metadata: Some(test_metadata()),
    };

    let result = db.insert_into_collection("test_collection", embedding.clone(), &normalize);
    assert!(result.is_ok());

    let collection = db.get_collection("test_collection").unwrap();
    assert_eq!(collection.embeddings.len(), 1);
    assert_eq!(collection.embeddings[0], embedding);
}

#[test]
fn test_update_collection_success() {
    let mut db: CacheDB<f32> = CacheDB::new();
    db.create_collection("test_collection".to_string(), 3, Distance::Euclidean).unwrap();
    db.insert_into_collection(
        "test_collection",
        Embedding {
            id: text_map(&[("unique_id", "0")]),
            vector: vec![1.0, 2.0, 3.0],
            metadata: Some(test_metadata()),
        },
        &normalize,
    )
    .unwrap();

    let new_embeddings = vec![
        Embedding {
            id: text_map(&[("unique_id", "1")]),
            vector: vec![4.0, 5.0, 6.0],
            metadata: Some(test_metadata()),
        },
        Embedding {
            id: text_map(&[("unique_id", "2")]),
            vector: vec![7.0, 8.0, 9.0],
            metadata: Some(test_metadata()),
        },
    ];

    let result = db.update_collection("test_collection", new_embeddings.clone(), &normalize);
    assert!(result.is_ok());

    let collection = db.get_collection("test_collection").unwrap();
    assert_eq!(collection.embeddings.len(), 3);
    assert_eq!(collection.embeddings[1..], new_embeddings[..]);
}

#[test]
fn test_update_collection_duplicate_embedding() {
    let mut db: CacheDB<f32> = CacheDB::new();
    db.create_collection("test_collection".to_string(), 3, Distance::Euclidean).unwrap();
    db.insert_into_collection(
        "test_collection",
        Embedding {
            id: text_map(&[("unique_id", "0")]),
            vector: vec![1.0, 2.0, 3.0],
            metadata: Some(test_metadata()),
        },
        &normalize,
    )
    .unwrap();

    let new_embeddings = vec![
        Embedding {
            id: text_map(&[("unique_id", "0")]),
            vector: vec![4.0, 5.0, 6.0],
            metadata: Some(test_metadata()),
        },
        Embedding {
            id: text_map(&[("unique_id", "2")]),
            vector: vec![7.0, 8.0, 9.0],
            metadata: Some(test_metadata()),
        },
    ];

    let result = db.update_collection("test_collection", new_embeddings, &normalize);
    assert!(result.is_err());
    assert_eq!(result.err(), Some(Error::UniqueViolation));
}

#[test]
fn test_update_collection_dimension_mismatch() {
    let mut db: CacheDB<f32> = CacheDB::new();
    db.create_collection("test_collection".to_string(), 3, Distance::Euclidean).unwrap();

    let new_embeddings = vec![Embedding {
        id: text_map(&[("unique_id", "0")]),
        vector: vec![1.0, 2.0],
        metadata: Some(test_metadata()),
    }];

    let result = db.update_collection("test_collection", new_embeddings, &normalize);
    assert!(result.is_err());
    assert_eq!(result.err(), Some(Error::DimensionMismatch));
}

#[test]
fn test_delete_collection_success() {
    let mut db: CacheDB<f32> = CacheDB::new();
    db.create_collection("test_collection".to_string(), 3, Distance::Euclidean).unwrap();

    let result = db.delete_collection("test_collection");
    assert!(result.is_ok());

    assert!(!db.contains_collection("test_collection"));
}

#[test]
fn test_delete_collection_not_found() {
    let mut db: CacheDB<f32> = CacheDB::new();

    let result = db.delete_collection("non_existent_collection");
    assert!(result.is_err());
    assert_eq!(result.err(), Some(Error::NotFound));
}

#[test]
fn test_get_collection_success() {
    let mut db: CacheDB<f32> = CacheDB::new();
    let collection = Collection { dimension: 3, distance: Distance::Euclidean, embeddings: Vec::new() };
    db.create_collection("test_collection".to_string(), 3, Distance::Euclidean).unwrap();

    let result = db.get_collection("test_collection");
    assert!(result.is_some());

    assert_eq!(result.unwrap(), &collection);
}

#[test]
fn test_get_collection_not_found() {
    let db: CacheDB<f32> = CacheDB::new();

    let result = db.get_collection("non_existent_collection");
    assert!(result.is_none());
}

#[test]
fn test_get_embedding_success() {
    let mut db: CacheDB<f32> = CacheDB::new();
    let collection = Collection {
        dimension: 3,
        distance: Distance::Euclidean,
        embeddings: vec![
            Embedding { id: text_map(&[("unique_id", "0")]), vector: vec![1.0, 1.0, 1.0], metadata: None },
            Embedding { id: text_map(&[("unique_id", "1")]), vector: vec![2.0, 2.0, 2.0], metadata: None },
            Embedding { id: text_map(&[("unique_id", "2")]), vector: vec![3.0, 3.0, 3.0], metadata: None },
        ],
    };
    db.create_collection("test_collection".to_string(), 3, Distance::Euclidean).unwrap();
    db.update_collection("test_collection", collection.embeddings.clone(), &normalize).unwrap();

    let result = db.get_embeddings("test_collection");
    assert!(result.is_some());
    assert_eq!(result, Some(collection.embeddings));
}

#[test]
fn test_get_embeddings_not_found() {
    let db: CacheDB<f32> = CacheDB::new();

    let result = db.get_embeddings("non_existent_collection");
    assert!(result.is_none());
}

#[test]
fn create_twice_is_unique_violation() {
    let mut db: CacheDB<f32> = CacheDB::new();
    assert!(db.create_collection("C".to_string(), 3, Distance::Euclidean).is_ok());
    let second = db.create_collection("C".to_string(), 3, Distance::Euclidean);
    assert_eq!(second.err(), Some(Error::UniqueViolation));
}

#[test]
fn delete_missing_is_not_found() {
    let mut db: CacheDB<f32> = CacheDB::new();
    assert_eq!(db.delete_collection("missing"), Err(Error::NotFound));
}

#[test]
fn create_then_delete_restores_store() {
    let mut db: CacheDB<f32> = CacheDB::new();
    db.create_collection("A".to_string(), 2, Distance::DotProduct).unwrap();
    let before = db.get_embeddings("A");
    db.create_collection("C".to_string(), 3, Distance::Cosine).unwrap();
    db.delete_collection("C").unwrap();
    assert!(!db.contains_collection("C"));
    assert!(db.contains_collection("A"));
    assert_eq!(db.get_embeddings("A"), before);
}

#[test]
fn insert_into_missing_collection_is_not_found() {
    let mut db: CacheDB<f32> = CacheDB::new();
    let e = Embedding { id: text_map(&[("unique_id", "1")]), vector: vec![1.0], metadata: None };
    assert_eq!(db.insert_into_collection("nope", e, &normalize), Err(Error::NotFound));
}

#[test]
fn insert_duplicate_id_is_unique_violation() {
    let mut db: CacheDB<f32> = CacheDB::new();
    db.create_collection("C".to_string(), 2, Distance::Euclidean).unwrap();
    let e = Embedding { id: text_map(&[("a", "1"), ("b", "2")]), vector: vec![1.0, 2.0], metadata: None };
    db.insert_into_collection("C", e, &normalize).unwrap();
    // the same id built in the other order
    let f = Embedding { id: text_map(&[("b", "2"), ("a", "1")]), vector: vec![3.0, 4.0], metadata: None };
    assert_eq!(db.insert_into_collection("C", f, &normalize), Err(Error::UniqueViolation));
    assert_eq!(db.get_collection("C").unwrap().embeddings.len(), 1);
}

#[test]
fn insert_dimension_mismatch_leaves_collection_unchanged() {
    let mut db: CacheDB<f32> = CacheDB::new();
    db.create_collection("C".to_string(), 3, Distance::Euclidean).unwrap();
    let e = Embedding { id: text_map(&[("unique_id", "1")]), vector: vec![1.0, 2.0], metadata: None };
    assert_eq!(db.insert_into_collection("C", e, &normalize), Err(Error::DimensionMismatch));
    assert_eq!(db.get_collection("C").unwrap().embeddings.len(), 0);
}

#[test]
fn taken_id_is_reported_before_wrong_length() {
    let mut db: CacheDB<f32> = CacheDB::new();
    db.create_collection("C".to_string(), 1, Distance::Euclidean).unwrap();
    let e = Embedding { id: text_map(&[("unique_id", "1")]), vector: vec![1.0], metadata: None };
    db.insert_into_collection("C", e, &normalize).unwrap();
    let f = Embedding { id: text_map(&[("unique_id", "1")]), vector: vec![1.0, 2.0], metadata: None };
    assert_eq!(db.insert_into_collection("C", f, &normalize), Err(Error::UniqueViolation));
}

#[test]
fn batch_duplicate_keeps_prior_items() {
    let mut db: CacheDB<f32> = CacheDB::new();
    db.create_collection("C".to_string(), 1, Distance::Euclidean).unwrap();
    let items = vec![
        Embedding { id: text_map(&[("unique_id", "1")]), vector: vec![1.0], metadata: None },
        Embedding { id: text_map(&[("unique_id", "2")]), vector: vec![2.0], metadata: None },
        Embedding { id: text_map(&[("unique_id", "1")]), vector: vec![3.0], metadata: None },
        Embedding { id: text_map(&[("unique_id", "4")]), vector: vec![4.0], metadata: None },
    ];
    let r = db.update_collection("C", items.clone(), &normalize);
    assert_eq!(r, Err(Error::UniqueViolation));
    let stored = db.get_embeddings("C").unwrap();
    assert_eq!(stored, items[..2].to_vec());
}

#[test]
fn batch_into_missing_collection_is_not_found() {
    let mut db: CacheDB<f32> = CacheDB::new();
    assert_eq!(db.update_collection("nope", Vec::new(), &normalize), Err(Error::NotFound));
}

#[test]
fn cosine_insert_stores_normalized_vector() {
    let mut db: CacheDB<f32> = CacheDB::new();
    db.create_collection("C".to_string(), 3, Distance::Cosine).unwrap();
    let e = Embedding { id: text_map(&[("unique_id", "1")]), vector: vec![2.0, 0.0, 0.0], metadata: None };
    db.insert_into_collection("C", e, &normalize).unwrap();
    assert_eq!(db.get_collection("C").unwrap().embeddings[0].vector, vec![1.0, 0.0, 0.0]);
}

#[test]
fn euclidean_insert_keeps_vector() {
    let mut db: CacheDB<f32> = CacheDB::new();
    db.create_collection("C".to_string(), 3, Distance::Euclidean).unwrap();
    let e = Embedding { id: text_map(&[("unique_id", "1")]), vector: vec![2.0, 0.0, 0.0], metadata: None };
    db.insert_into_collection("C", e, &normalize).unwrap();
    assert_eq!(db.get_collection("C").unwrap().embeddings[0].vector, vec![2.0, 0.0, 0.0]);
}

#[test]
fn stored_vectors_have_collection_dimension_and_distinct_ids() {
    let mut db: CacheDB<f32> = CacheDB::new();
    db.create_collection("C".to_string(), 2, Distance::DotProduct).unwrap();
    for (i, v) in [vec![1.0, 2.0], vec![1.0], vec![3.0, 4.0], vec![5.0, 6.0]].into_iter().enumerate() {
        let id = format!("{}", i % 3);
        let e = Embedding { id: text_map(&[("unique_id", id.as_str())]), vector: v, metadata: None };
        let _ = db.insert_into_collection("C", e, &normalize);
    }
    let c = db.get_collection("C").unwrap();
    assert_eq!(c.embeddings.len(), 2);
    for e in &c.embeddings {
        assert_eq!(e.vector.len(), 2);
    }
    assert_ne!(c.embeddings[0].id, c.embeddings[1].id);
}

#[test]
fn query_target_checks_name_and_dimension() {
    let mut db: CacheDB<f32> = CacheDB::new();
    db.create_collection("C".to_string(), 3, Distance::Euclidean).unwrap();
    assert_eq!(db.query_target("missing", 3).err(), Some(Error::NotFound));
    assert_eq!(db.query_target("C", 2).err(), Some(Error::DimensionMismatch));
    assert!(db.query_target("C", 3).is_ok());
}

#[test]
fn error_messages() {
    assert_eq!(Error::NotFound.message(), "Collection doesn't exist");
    assert_eq!(Error::UniqueViolation.message(), "Collection or embedding already exists");
    assert_eq!(
        Error::DimensionMismatch.message(),
        "The dimension of the vector doesn't match the dimension of the collection"
    );
    assert_eq!(Error::LoggerInitializationError.message(), "Failed to initialize the logger");
}

#[test]
fn text_maps_compare_by_contents() {
    let a = text_map(&[("x", "1"), ("y", "2")]);
    let b = text_map(&[("y", "2"), ("x", "1")]);
    let c = text_map(&[("x", "1"), ("y", "3")]);
    let mut d = text_map(&[("x", "0")]);
    d.insert("y".to_string(), "2".to_string());
    d.insert("x".to_string(), "1".to_string());
    assert_eq!(a, b);
    assert_ne!(a, c);
    assert_eq!(a, d);
    assert_eq!(d.len(), 2);
    assert_eq!(d.get(&"x".to_string()), Some(&"1".to_string()));
    assert_eq!(d.get(&"z".to_string()), None);
}
