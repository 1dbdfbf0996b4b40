//! Verified core of a retrieval-augmented context library.
//!
//! The library assembles textual context from structured records and makes it
//! retrievable by semantic similarity.  The pieces with real algorithmic
//! content are verified here: deterministic text chunking with overlap and
//! boundary snapping, an embedding cache with least-recently-used eviction
//! that preserves request ordering, and a namespace-partitioned vector store
//! with brute-force nearest-neighbour search, explicit tie-breaking and
//! dimension invariants.
//!
//! Embedding coordinates are fixed-point integers (a scaled representation of
//! the provider's floating-point vectors, converted at the boundary by the
//! host layer).  This keeps every similarity comparison exact, so the search
//! order is a proved property rather than a floating-point accident.

pub mod config;
pub mod context_builder;
pub mod data_sources;
pub mod embedders;
pub mod gemini;
pub mod http_client;
pub mod openai;
pub mod entity;
pub mod error;
pub mod similarity;
pub mod types;
pub mod utils;
pub mod vector_store;

pub use config::{ContragConfig, EntityConfig};
pub use context_builder::ContextBuilder;
pub use entity::RagEntity;
pub use error::ContragError;
pub use types::{EntityRelationship, RelationshipType, SearchResult, TextChunk, Vector, VectorMetadata};
