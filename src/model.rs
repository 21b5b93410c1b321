use vstd::prelude::*;
use crate::collection::Embedding;

verus! {

/// The scoring rule of a collection. Every rule ranks lower scores as more similar.
#[derive(Debug, Clone, Copy, PartialEq, Eq, Structural)]
pub enum Distance {
    /// Squared Euclidean distance.
    Euclidean,
    /// One minus the dot product of unit vectors.
    Cosine,
    /// The negated dot product.
    DotProduct,
}

/// Why a store operation was refused.
#[derive(Debug, Clone, Copy, PartialEq, Eq, Structural)]
pub enum Error {
    /// A collection of that name, or an embedding of that id in the collection, already exists.
    UniqueViolation,
    /// The named collection does not exist.
    NotFound,
    /// A vector's length differs from the collection's dimension.
    DimensionMismatch,
    /// The diagnostic logger could not be started.
    LoggerInitializationError,
}

impl Error {
    /// A sentence that describes the error.
    pub fn message(&self) -> (r: &'static str)
        ensures
            *self == Error::UniqueViolation ==> r@ == "Collection or embedding already exists"@,
            *self == Error::NotFound ==> r@ == "Collection doesn't exist"@,
            *self == Error::DimensionMismatch
                ==> r@ == "The dimension of the vector doesn't match the dimension of the collection"@,
            *self == Error::LoggerInitializationError
                ==> r@ == "Failed to initialize the logger"@,
    {
        match self {
            Error::UniqueViolation => "Collection or embedding already exists",
            Error::NotFound => "Collection doesn't exist",
            Error::DimensionMismatch =>
                "The dimension of the vector doesn't match the dimension of the collection",
            Error::LoggerInitializationError => "Failed to initialize the logger",
        }
    }
}

/// Request to create a collection.
#[derive(Debug, Clone)]
pub struct CreateCollectionStruct {
    pub collection_name: String,
    pub dimension: usize,
    pub distance: Distance,
}

/// Request to insert one embedding into a collection.
#[derive(Debug, Clone)]
pub struct InsertEmbeddingStruct<T> {
    pub collection_name: String,
    pub embedding: Embedding<T>,
}

/// Request to insert a batch of embeddings into a collection.
#[derive(Debug, Clone)]
pub struct BatchInsertEmbeddingsStruct<T> {
    pub collection_name: String,
    pub embeddings: Vec<Embedding<T>>,
}

/// Request for the `k` embeddings of a collection nearest to a query vector.
#[derive(Debug, Clone)]
pub struct GetSimilarityStruct<T> {
    pub collection_name: String,
    pub query_vector: Vec<T>,
    pub k: usize,
}

/// Request that names a collection.
#[derive(Debug, Clone)]
pub struct CollectionHandlerStruct {
    pub collection_name: String,
}

/// Reply to a request to create a collection.
#[derive(Debug, Clone)]
pub struct CreateCollectionResponse {
    pub result: String,
    pub status: String,
}

/// A status and a message.
#[derive(Debug, Clone)]
pub struct GenericResponse {
    pub status: String,
    pub message: String,
}

} // verus!
