//! Core data types shared across the library.

use vstd::prelude::*;
use crate::similarity::Similarity;

verus! {

/// Metadata carried with every stored vector.
#[derive(Clone, Debug)]
pub struct VectorMetadata {
    pub entity_type: String,
    pub entity_id: String,
    pub chunk_index: usize,
    pub total_chunks: usize,
    pub timestamp: u64,
    /// Opaque custom metadata, carried through unchanged.
    pub custom: Option<String>,
}

/// An embedded item: a fixed-point embedding with its source text and
/// metadata.  Owned exclusively by the vector store once stored.
#[derive(Clone, Debug)]
pub struct Vector {
    pub id: String,
    pub embedding: Vec<i64>,
    pub text: String,
    pub metadata: VectorMetadata,
}

/// One ranked answer from a similarity search.  Derived, never stored.
#[derive(Clone, Debug)]
pub struct SearchResult {
    pub vector_id: String,
    pub text: String,
    pub score: Similarity,
    pub metadata: VectorMetadata,
}

/// A segment of source text produced by chunking.  Offsets count Unicode
/// code points into the source text, so `start_idx..end_idx` never splits a
/// multi-byte character.
#[derive(Clone, Debug)]
pub struct TextChunk {
    pub text: String,
    pub start_idx: usize,
    pub end_idx: usize,
    pub chunk_index: usize,
}

/// A node of the entity graph: flat key-value context plus relationships.
#[derive(Clone, Debug)]
pub struct EntityNode {
    pub entity_type: String,
    pub entity_id: String,
    pub context_map: Vec<(String, String)>,
    pub relationships: Vec<EntityRelationship>,
}

/// A directed relationship from one entity to another.
#[derive(Clone, Debug)]
pub struct EntityRelationship {
    pub field_name: String,
    pub target_entity_type: String,
    pub target_id: String,
    pub relationship_type: RelationshipType,
}

/// Relationship cardinality.
#[derive(Clone, Copy, Debug, PartialEq, Eq, Structural)]
pub enum RelationshipType {
    OneToOne,
    OneToMany,
    ManyToOne,
    ManyToMany,
}

/// Runtime configuration of an embedding model.
#[derive(Clone, Debug)]
pub struct EmbedderConfig {
    pub provider: String,
    pub model: String,
    pub dimensions: usize,
    pub api_key: String,
}

/// An HTTP request handed to the host's outcall layer.
#[derive(Clone, Debug)]
pub struct HttpRequest {
    pub url: String,
    pub method: String,
    pub headers: Vec<(String, String)>,
    pub body: Option<Vec<u8>>,
}

/// An HTTP response received from the host's outcall layer.
#[derive(Clone, Debug)]
pub struct HttpResponse {
    pub status: u16,
    pub headers: Vec<(String, String)>,
    pub body: Vec<u8>,
}

/// Outcome of probing an embedding provider.
#[derive(Clone, Debug)]
pub struct ConnectionTestResult {
    pub plugin: String,
    pub connected: bool,
    pub latency: Option<u64>,
    pub error: Option<String>,
    pub details: Option<String>,
}

} // verus!
