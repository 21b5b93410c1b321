//! An in-memory store of named collections of embeddings, with top-k
//! selection of the best-ranked embeddings and a replay of the textual
//! operation log that rebuilds a store.
//!
//! The vector components are of a type chosen by the caller; the library
//! reads only how many there are. Normalizing a vector and reading a
//! component from its text are passed in by the caller.
pub mod collection;
pub mod logentry;
pub mod logshape;
pub mod model;
pub mod replay;
pub mod store;
pub mod strmap;
pub mod text;
pub mod topk;

pub use collection::{Collection, Embedding};
pub use model::{
    BatchInsertEmbeddingsStruct, CollectionHandlerStruct, CreateCollectionResponse,
    CreateCollectionStruct, Distance, Error, GenericResponse, GetSimilarityStruct,
    InsertEmbeddingStruct,
};
pub use logentry::{parse_entry, split_by_date, LogEntry, LoggedEmbedding, ParsedEntry};
pub use replay::{
    parse_and_create_collection, parse_and_delete_collection, parse_and_insert_embeddings,
    parse_and_update_collection, replay_entry, restore_from_log, ReplayOutcome,
};
pub use store::CacheDB;
pub use strmap::StrMap;
pub use topk::{select_top_k, SimilarityResult};
