use std::collections::HashMap;

use cachedb::{parse_entry, LogEntry, ParsedEntry, StrMap};

/// The shape in which embeddings are written to the log.
#[derive(Debug)]
struct Embedding {
    id: HashMap<String, String>,
    vector: Vec<f32>,
    metadata: Option<HashMap<String, String>>,
}

fn read_back(e: &Embedding) -> (String, Vec<f32>, Option<StrMap>) {
    let line = format!(
        "2024-01-01 00:00:00 [INFO] Embedding: '{:?}', successfully inserted into collection 'c'",
        e
    );
    match parse_entry(&line) {
        ParsedEntry::Entry(LogEntry::Insert { collection, embedding }) => {
            assert_eq!(collection, "c");
            let back: Vec<f32> = embedding.components.iter().filter_map(|c| c.parse().ok()).collect();
            (embedding.unique_id, back, embedding.metadata)
        },
        other => panic!("unexpected {:?}", other),
    }
}

fn to_str_map(m: &HashMap<String, String>) -> StrMap {
    let mut t = StrMap::new();
    for (k, v) in m {
        t.insert(k.clone(), v.clone());
    }
    t
}

#[test]
fn logged_insert_with_metadata_reads_back() {
    let mut id = HashMap::new();
    id.insert("unique_id".to_string(), "42".to_string());
    let mut meta = HashMap::new();
    meta.insert("note".to_string(), "a, b: \"c\" \\ d".to_string());
    meta.insert("page".to_string(), "7".to_string());
    let e = Embedding { id, vector: vec![-0.25, 1e-7, 3.5], metadata: Some(meta) };
    let (uid, vector, metadata) = read_back(&e);
    assert_eq!(uid, "42");
    assert_eq!(vector, e.vector);
    assert_eq!(metadata, Some(to_str_map(e.metadata.as_ref().unwrap())));
}

#[test]
fn logged_insert_without_metadata_reads_back() {
    let mut id = HashMap::new();
    id.insert("unique_id".to_string(), "7".to_string());
    let e = Embedding { id, vector: vec![0.1, -2.0, f32::MAX, f32::MIN_POSITIVE], metadata: None };
    let (uid, vector, metadata) = read_back(&e);
    assert_eq!(uid, "7");
    assert_eq!(vector, e.vector);
    assert_eq!(metadata, None);
}
