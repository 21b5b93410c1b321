use cachedb::{
    parse_entry, restore_from_log, split_by_date, CacheDB, Distance, Embedding, Error, LogEntry,
    ParsedEntry, ReplayOutcome, StrMap,
};

fn normalize(v: Vec<f32>) -> Vec<f32> {
    let norm = v.iter().map(|x| x * x).sum::<f32>().sqrt();
    if norm == 0.0 {
        vec![0.0; v.len()]
    } else {
        v.iter().map(|x| x / norm).collect()
    }
}

fn parse_component(s: &String) -> Option<f32> {
    s.parse().ok()
}

fn text_map(pairs: &[(&str, &str)]) -> StrMap {
    let mut m = StrMap::new();
    for (k, v) in pairs {
        m.insert(k.to_string(), v.to_string());
    }
    m
}

const INSERT_LINE: &str = "2024-09-10 23:28:48 [INFO] Embedding: 'Embedding { id: {\"unique_id\": \"0\"}, vector: [1.0, 1.0, 1.0], metadata: Some({\"page\": \"1\", \"text\": \"This is a test metadata text\"}) }', successfully inserted into collection 'test_collection'";

#[test]
fn test_restore_db_from_logs() {
    let lines = vec![
        "2024-09-10 23:28:48 [INFO] Created new collection with name: 'test_collection', dimension: '3', distance: 'Euclidean'".to_string(),
        "2024-09-10 23:28:48 [INFO] Created new collection with name: 'test_collection_1', dimension: '3', distance: 'Euclidean'".to_string(),
        INSERT_LINE.to_string(),
        "2024-09-10 23:28:48 [INFO] Deleted collection: 'test_collection_1'".to_string(),
    ];
    let log: String = lines.concat();
    let mut db: CacheDB<f32> = CacheDB::new();
    let outcomes = restore_from_log(&mut db, &log, &normalize, &parse_component);
    assert_eq!(outcomes, vec![ReplayOutcome::Applied; 4]);

    let expected_embedding = Embedding {
        id: text_map(&[("unique_id", "0")]),
        vector: vec![1.0, 1.0, 1.0],
        metadata: Some(text_map(&[("page", "1"), ("text", "This is a test metadata text")])),
    };

    let collection = db.get_collection("test_collection").expect("Collection 'test_collection' not found");
    assert!(db.get_collection("test_collection_1").is_none());
    assert_eq!(collection.embeddings.len(), 1);
    assert_eq!(collection.embeddings[0], expected_embedding);
}

#[test]
fn replay_two_inserts_and_other_delete() {
    let log = [
        "2024-01-01 00:00:00 [INFO] Created new collection with name: 'keep', dimension: '2', distance: 'Cosine'",
        "2024-01-01 00:00:01 [INFO] Created new collection with name: 'drop', dimension: '2', distance: 'DotProduct'",
        "2024-01-01 00:00:02 [INFO] Embedding: 'Embedding { id: {\"unique_id\": \"7\"}, vector: [3.0, 4.0], metadata: Some({\"k\": \"v\"}) }', successfully inserted into collection 'keep'",
        "2024-01-01 00:00:03 [INFO] Embedding: 'Embedding { id: {\"unique_id\": \"8\"}, vector: [0.0, 2.0], metadata: Some({\"k\": \"w\"}) }', successfully inserted into collection 'keep'",
        "2024-01-01 00:00:04 [INFO] Deleted collection: 'drop'",
    ]
    .join("\n");
    let mut db: CacheDB<f32> = CacheDB::new();
    let outcomes = restore_from_log(&mut db, &log, &normalize, &parse_component);
    assert_eq!(outcomes.len(), 5);
    assert!(db.get_collection("drop").is_none());
    let keep = db.get_collection("keep").unwrap();
    assert_eq!(keep.distance, Distance::Cosine);
    assert_eq!(keep.embeddings.len(), 2);
    assert_eq!(keep.embeddings[0].id, text_map(&[("unique_id", "7")]));
    assert_eq!(keep.embeddings[0].vector, vec![0.6, 0.8]);
    assert_eq!(keep.embeddings[1].id, text_map(&[("unique_id", "8")]));
    assert_eq!(keep.embeddings[1].vector, vec![0.0, 1.0]);
    assert_eq!(keep.embeddings[1].metadata, Some(text_map(&[("k", "w")])));
}

#[test]
fn replay_skips_bad_entries_and_goes_on() {
    let log = [
        "noise before the first entry",
        "2024-01-01 00:00:00 [INFO] Created new collection with name: 'c', dimension: '1', distance: 'Manhattan'",
        "2024-01-01 00:00:01 [INFO] Created new collection with name: 'c', dimension: '1', distance: 'Euclidean'",
        "2024-01-01 00:00:02 [INFO] Created new collection with name: 'c', dimension: '1', distance: 'Euclidean'",
        "2024-01-01 00:00:03 [INFO] Deleted collection: 'gone'",
        "2024-01-01 00:00:04 [INFO] Server started",
    ]
    .join("");
    let mut db: CacheDB<f32> = CacheDB::new();
    let outcomes = restore_from_log(&mut db, &log, &normalize, &parse_component);
    assert_eq!(
        outcomes,
        vec![
            ReplayOutcome::Skipped,
            ReplayOutcome::Malformed,
            ReplayOutcome::Applied,
            ReplayOutcome::Refused(Error::UniqueViolation),
            ReplayOutcome::Refused(Error::NotFound),
            ReplayOutcome::Skipped,
        ]
    );
    assert!(db.contains_collection("c"));
}

#[test]
fn replay_batch_entry() {
    let log = [
        "2024-01-01 00:00:00 [INFO] Created new collection with name: 'b', dimension: '2', distance: 'Euclidean'",
        "2024-01-01 00:00:01 [INFO] Embedding: '[Embedding { id: {\"unique_id\": \"1\"}, vector: [1.0, 2.0], metadata: Some({\"a\": \"x\"}) }, Embedding { id: {\"unique_id\": \"2\"}, vector: [3.0, 4.0], metadata: Some({\"a\": \"y\"}) }]' successfully updated to collection 'b'",
    ]
    .join("");
    let mut db: CacheDB<f32> = CacheDB::new();
    let outcomes = restore_from_log(&mut db, &log, &normalize, &parse_component);
    assert_eq!(outcomes, vec![ReplayOutcome::Applied, ReplayOutcome::Applied]);
    let b = db.get_collection("b").unwrap();
    assert_eq!(b.embeddings.len(), 2);
    assert_eq!(b.embeddings[0].vector, vec![1.0, 2.0]);
    assert_eq!(b.embeddings[1].vector, vec![3.0, 4.0]);
    assert_eq!(b.embeddings[1].metadata, Some(text_map(&[("a", "y")])));
}

#[test]
fn split_by_date_cuts_before_each_timestamp() {
    let log = "head 2024-01-01 00:00:00 one 2024-01-02 10:20:30two2024-01-03 11:22:33";
    assert_eq!(
        split_by_date(log),
        vec![
            "head".to_string(),
            "2024-01-01 00:00:00 one".to_string(),
            "2024-01-02 10:20:30two".to_string(),
            "2024-01-03 11:22:33".to_string(),
        ]
    );
    assert_eq!(split_by_date(""), Vec::<String>::new());
    assert_eq!(split_by_date("2024-01-01 00:00:0x"), vec!["2024-01-01 00:00:0x".to_string()]);
}

#[test]
fn parse_create_entry() {
    match parse_entry("2024-01-01 00:00:00 [INFO] Created new collection with name: 'docs', dimension: '128', distance: 'DotProduct'") {
        ParsedEntry::Entry(LogEntry::Create { name, dimension, distance }) => {
            assert_eq!(name, "docs");
            assert_eq!(dimension, 128);
            assert_eq!(distance, Distance::DotProduct);
        },
        other => panic!("unexpected {:?}", other),
    }
}

#[test]
fn parse_create_entry_with_huge_dimension_is_malformed() {
    let e = parse_entry("Created new collection with name: 'd', dimension: '99999999999999999999999', distance: 'Cosine'");
    assert!(matches!(e, ParsedEntry::Malformed));
}

#[test]
fn parse_create_entry_without_shape_is_malformed() {
    let e = parse_entry("Created new collection with name: 'docs'");
    assert!(matches!(e, ParsedEntry::Malformed));
}

#[test]
fn parse_insert_entry() {
    match parse_entry(INSERT_LINE) {
        ParsedEntry::Entry(LogEntry::Insert { collection, embedding }) => {
            assert_eq!(collection, "test_collection");
            assert_eq!(embedding.unique_id, "0");
            assert_eq!(embedding.components, vec!["1.0".to_string(), "1.0".to_string(), "1.0".to_string()]);
            assert_eq!(embedding.metadata, Some(text_map(&[("page", "1"), ("text", "This is a test metadata text")])));
        },
        other => panic!("unexpected {:?}", other),
    }
}

#[test]
fn parse_insert_with_empty_metadata() {
    let e = parse_entry("Embedding: 'Embedding { id: {\"unique_id\": \"5\"}, vector: [2.5], metadata: Some({}) }', successfully inserted into collection 'x'");
    match e {
        ParsedEntry::Entry(LogEntry::Insert { collection, embedding }) => {
            assert_eq!(collection, "x");
            assert_eq!(embedding.metadata, Some(StrMap::new()));
        },
        other => panic!("unexpected {:?}", other),
    }
}

#[test]
fn parse_insert_with_text_id_is_malformed() {
    let e = parse_entry("Embedding: 'Embedding { id: {\"unique_id\": \"abc\"}, vector: [1.0], metadata: Some({}) }', successfully inserted into collection 'x'");
    assert!(matches!(e, ParsedEntry::Malformed));
}

#[test]
fn parse_delete_and_other_entries() {
    match parse_entry("2024-01-01 00:00:00 [INFO] Deleted collection: 'old'") {
        ParsedEntry::Entry(LogEntry::Delete { name }) => assert_eq!(name, "old"),
        other => panic!("unexpected {:?}", other),
    }
    assert!(matches!(parse_entry("2024-01-01 00:00:00 [INFO] hello"), ParsedEntry::Skipped));
    assert!(matches!(parse_entry("Deleted collection"), ParsedEntry::Malformed));
}

#[test]
fn parse_and_apply_each_shape() {
    let mut db: CacheDB<f32> = CacheDB::new();
    let r = cachedb::parse_and_create_collection(
        "2024-01-01 00:00:00 [INFO] Created new collection with name: 'p', dimension: '2', distance: 'Euclidean'",
        &mut db,
        &normalize,
        &parse_component,
    );
    assert_eq!(r, ReplayOutcome::Applied);
    let r = cachedb::parse_and_insert_embeddings(
        "Embedding: 'Embedding { id: {\"unique_id\": \"1\"}, vector: [1.5, 2.5], metadata: Some({\"m\": \"n\"}) }', successfully inserted into collection 'p'",
        &mut db,
        &normalize,
        &parse_component,
    );
    assert_eq!(r, ReplayOutcome::Applied);
    let r = cachedb::parse_and_update_collection(
        "Embedding: '[Embedding { id: {\"unique_id\": \"1\"}, vector: [0.0, 0.0], metadata: Some({}) }]' successfully updated to collection 'p'",
        &mut db,
        &normalize,
        &parse_component,
    );
    assert_eq!(r, ReplayOutcome::Refused(Error::UniqueViolation));
    assert_eq!(db.get_collection("p").unwrap().embeddings.len(), 1);
    assert_eq!(db.get_collection("p").unwrap().embeddings[0].vector, vec![1.5, 2.5]);
    let r = cachedb::parse_and_delete_collection("no shape here", &mut db, &normalize, &parse_component);
    assert_eq!(r, ReplayOutcome::Malformed);
    let r = cachedb::parse_and_delete_collection("Deleted collection: 'p'", &mut db, &normalize, &parse_component);
    assert_eq!(r, ReplayOutcome::Applied);
    assert!(!db.contains_collection("p"));
}

#[test]
fn components_that_do_not_read_are_left_out() {
    let mut db: CacheDB<f32> = CacheDB::new();
    db.create_collection("v".to_string(), 2, Distance::Euclidean).unwrap();
    let r = cachedb::parse_and_insert_embeddings(
        "Embedding: 'Embedding { id: {\"unique_id\": \"3\"}, vector: [1.0, ., 2.0], metadata: Some({}) }', successfully inserted into collection 'v'",
        &mut db,
        &normalize,
        &parse_component,
    );
    assert_eq!(r, ReplayOutcome::Applied);
    assert_eq!(db.get_collection("v").unwrap().embeddings[0].vector, vec![1.0, 2.0]);
}

#[test]
fn replay_reads_any_float_text_and_absent_metadata() {
    let log = [
        "2024-01-01 00:00:00 [INFO] Created new collection with name: 'f', dimension: '4', distance: 'DotProduct'",
        "2024-01-01 00:00:01 [INFO] Embedding: 'Embedding { id: {\"unique_id\": \"1\"}, vector: [-1.5, 1e-5, inf, NaN], metadata: None }', successfully inserted into collection 'f'",
        "2024-01-01 00:00:02 [INFO] Embedding: '[Embedding { id: {\"unique_id\": \"2\"}, vector: [-0.0, -inf, 2.5e10, 3.0], metadata: None }, Embedding { id: {\"unique_id\": \"3\"}, vector: [1.0, 2.0, 3.0, 4.0], metadata: Some({\"a, b\": \"x: \\\"y\\\"\"}) }]' successfully updated to collection 'f'",
    ]
    .join("");
    let mut db: CacheDB<f32> = CacheDB::new();
    let outcomes = restore_from_log(&mut db, &log, &normalize, &parse_component);
    assert_eq!(outcomes, vec![ReplayOutcome::Applied; 3]);
    let f = db.get_collection("f").unwrap();
    assert_eq!(f.embeddings.len(), 3);
    let v = &f.embeddings[0].vector;
    assert_eq!(v[0], -1.5);
    assert_eq!(v[1], 1e-5);
    assert_eq!(v[2], f32::INFINITY);
    assert!(v[3].is_nan());
    assert_eq!(f.embeddings[0].metadata, None);
    assert_eq!(f.embeddings[1].vector[1], f32::NEG_INFINITY);
    assert_eq!(f.embeddings[1].vector[2], 2.5e10);
    assert_eq!(f.embeddings[1].metadata, None);
    assert_eq!(f.embeddings[2].metadata, Some(text_map(&[("a, b", "x: \"y\"")])));
}
