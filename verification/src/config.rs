//! Configuration model and validation.
//!
//! Parsing a configuration file into these types is the host layer's job;
//! the rules that make a configuration acceptable live here, verified.

use vstd::prelude::*;
use crate::error::ContragError;

verus! {

/// Top-level configuration.
#[derive(Clone, Debug)]
pub struct ContragConfig {
    pub entities: Vec<EntityConfig>,
    pub embedder: EmbedderConfigDef,
    pub chunking: ChunkingConfig,
    pub vector_store: VectorStoreConfig,
    pub system_prompt: Option<String>,
}

/// Configuration of one entity type.
#[derive(Clone, Debug)]
pub struct EntityConfig {
    pub name: String,
    pub canister_id: String,
    pub fetch_method: String,
    pub fetch_many_method: Option<String>,
    pub relationships: Vec<RelationshipConfig>,
    pub auto_include: bool,
}

/// Configuration of one relationship between entity types.
#[derive(Clone, Debug)]
pub struct RelationshipConfig {
    pub field_name: String,
    pub target_entity: String,
    pub relationship_type: String,
}

/// Embedding provider configuration, as read from a config file.
#[derive(Clone, Debug)]
pub struct EmbedderConfigDef {
    pub provider: String,
    pub model: String,
    pub dimensions: usize,
    pub api_endpoint: Option<String>,
}

/// Text chunking configuration.
#[derive(Clone, Debug)]
pub struct ChunkingConfig {
    /// Chunk size in code points.
    pub chunk_size: usize,
    /// Overlap between consecutive chunks, in code points.
    pub overlap: usize,
    /// Whether chunk text carries field names.
    pub include_field_names: bool,
}

impl Default for ChunkingConfig {
    /// 1000-point chunks with 100 points of overlap, field names included.
    fn default() -> (r: Self)
        ensures
            r.chunk_size == 1000,
            r.overlap == 100,
            r.include_field_names,
    {
        ChunkingConfig { chunk_size: 1000, overlap: 100, include_field_names: true }
    }
}

/// Vector store configuration.
#[derive(Clone, Debug)]
pub struct VectorStoreConfig {
    pub storage_type: String,
    pub max_hot_vectors: Option<usize>,
    pub enable_cache: bool,
}

impl Default for VectorStoreConfig {
    /// Stable-memory storage with a 10000-vector hot cap and caching on.
    fn default() -> (r: Self)
        ensures
            r.storage_type@ == "stable_memory"@,
            r.max_hot_vectors == Some(10000usize),
            r.enable_cache,
    {
        VectorStoreConfig {
            storage_type: String::from_str("stable_memory"),
            max_hot_vectors: Some(10000),
            enable_cache: true,
        }
    }
}

/// API keys handed in by the host environment.
#[derive(Clone, Debug)]
pub struct EnvVars {
    pub openai_api_key: Option<String>,
    pub gemini_api_key: Option<String>,
}

/// Index of the first entity whose name or canister id is empty, or -1.
pub open spec fn bad_entity_index(entities: Seq<EntityConfig>) -> int
    decreases entities.len(),
{
    if entities.len() == 0 {
        -1
    } else if entities[0].name@.len() == 0 || entities[0].canister_id@.len() == 0 {
        0
    } else {
        let r = bad_entity_index(entities.drop_first());
        if r < 0 {
            -1
        } else {
            r + 1
        }
    }
}

proof fn lemma_bad_entity_index(entities: Seq<EntityConfig>)
    ensures
        -1 <= bad_entity_index(entities) < entities.len(),
        bad_entity_index(entities) >= 0 ==> {
            let i = bad_entity_index(entities);
            &&& (entities[i].name@.len() == 0 || entities[i].canister_id@.len() == 0)
            &&& forall|j: int| 0 <= j < i ==> (#[trigger] entities[j]).name@.len() > 0
                && entities[j].canister_id@.len() > 0
        },
        bad_entity_index(entities) < 0 ==> forall|j: int| 0 <= j < entities.len()
            ==> (#[trigger] entities[j]).name@.len() > 0 && entities[j].canister_id@.len() > 0,
    decreases entities.len(),
{
    if entities.len() > 0 && entities[0].name@.len() > 0 && entities[0].canister_id@.len() > 0 {
        lemma_bad_entity_index(entities.drop_first());
        assert forall|j: int| 1 <= j < entities.len() implies entities.drop_first()[j - 1]
            == #[trigger] entities[j] by {}
    }
}

/// A configuration every rule accepts: at least one entity, positive
/// dimensions, a positive chunk size, overlap strictly below it, and no
/// entity with an empty name or canister id.
pub open spec fn config_valid(c: ContragConfig) -> bool {
    &&& c.entities@.len() > 0
    &&& c.embedder.dimensions > 0
    &&& c.chunking.chunk_size > 0
    &&& c.chunking.overlap < c.chunking.chunk_size
    &&& bad_entity_index(c.entities@) < 0
}

/// The message of the first rule a configuration breaks.
pub open spec fn spec_validate_msg(c: ContragConfig) -> Seq<char> {
    if c.entities@.len() == 0 {
        "At least one entity must be configured"@
    } else if c.embedder.dimensions == 0 {
        "Embedder dimensions must be greater than 0"@
    } else if c.chunking.chunk_size == 0 {
        "Chunk size must be greater than 0"@
    } else if c.chunking.overlap >= c.chunking.chunk_size {
        "Overlap must be less than chunk size"@
    } else {
        let i = bad_entity_index(c.entities@);
        if c.entities@[i].name@.len() == 0 {
            "Entity name cannot be empty"@
        } else {
            "Canister ID for entity '"@ + c.entities@[i].name@ + "' cannot be empty"@
        }
    }
}

/// Checks every configuration rule, reporting the first broken one.
pub fn validate_config(config: &ContragConfig) -> (r: Result<(), ContragError>)
    ensures
        r is Ok <==> config_valid(*config),
        !config_valid(*config) ==> (r matches Err(e)
            && (e matches ContragError::InvalidConfig(msg) && msg@ == spec_validate_msg(*config))),
{
    proof {
        lemma_bad_entity_index(config.entities@);
    }
    if config.entities.len() == 0 {
        return Err(ContragError::InvalidConfig(String::from_str(
            "At least one entity must be configured",
        )));
    }
    if config.embedder.dimensions == 0 {
        return Err(ContragError::InvalidConfig(String::from_str(
            "Embedder dimensions must be greater than 0",
        )));
    }
    if config.chunking.chunk_size == 0 {
        return Err(ContragError::InvalidConfig(String::from_str(
            "Chunk size must be greater than 0",
        )));
    }
    if config.chunking.overlap >= config.chunking.chunk_size {
        return Err(ContragError::InvalidConfig(String::from_str(
            "Overlap must be less than chunk size",
        )));
    }
    let n = config.entities.len();
    let mut i: usize = 0;
    while i < n
        invariant
            0 <= i <= n,
            n == config.entities@.len(),
            config.entities@.len() > 0,
            config.embedder.dimensions > 0,
            config.chunking.chunk_size > 0,
            config.chunking.overlap < config.chunking.chunk_size,
            forall|j: int| 0 <= j < i ==> (#[trigger] config.entities@[j]).name@.len() > 0
                && config.entities@[j].canister_id@.len() > 0,
        decreases n - i,
    {
        let entity = &config.entities[i];
        if entity.name.as_str().unicode_len() == 0 {
            proof {
                lemma_bad_entity_index(config.entities@);
            }
            return Err(ContragError::InvalidConfig(String::from_str(
                "Entity name cannot be empty",
            )));
        }
        if entity.canister_id.as_str().unicode_len() == 0 {
            proof {
                lemma_bad_entity_index(config.entities@);
            }
            let mut msg = String::from_str("Canister ID for entity '");
            msg.append(entity.name.as_str());
            msg.append("' cannot be empty");
            return Err(ContragError::InvalidConfig(msg));
        }
        i = i + 1;
    }
    proof {
        lemma_bad_entity_index(config.entities@);
    }
    Ok(())
}

/// A minimal configuration useful for exercising the library.
pub fn create_default_config() -> (r: ContragConfig)
    ensures
        r.entities@.len() == 0,
        r.embedder.provider@ == "openai"@,
        r.embedder.model@ == "text-embedding-3-small"@,
        r.embedder.dimensions == 1536,
        r.embedder.api_endpoint is None,
        r.chunking.chunk_size == 1000,
        r.chunking.overlap == 100,
        r.chunking.include_field_names,
        r.vector_store.storage_type@ == "stable_memory"@,
        r.vector_store.max_hot_vectors == Some(10000usize),
        r.vector_store.enable_cache,
        r.system_prompt is None,
{
    ContragConfig {
        entities: Vec::new(),
        embedder: EmbedderConfigDef {
            provider: String::from_str("openai"),
            model: String::from_str("text-embedding-3-small"),
            dimensions: 1536,
            api_endpoint: None,
        },
        chunking: ChunkingConfig::default(),
        vector_store: VectorStoreConfig::default(),
        system_prompt: None,
    }
}

} // verus!
