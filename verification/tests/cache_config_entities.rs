use contrag_core::config::{
    create_default_config, validate_config, ChunkingConfig, ContragConfig, EntityConfig,
    VectorStoreConfig,
};
use contrag_core::context_builder::{format_entity_context, format_graph_context, join_contexts, ContextBuilder};
use contrag_core::data_sources::{create_from_config, StableMemorySource};
use contrag_core::embedders::EmbeddingCache;
use contrag_core::entity::{flatten_json_to_context, ContextValue, RagEntity};
use contrag_core::error::ContragError;
use contrag_core::gemini::GeminiEmbedder;
use contrag_core::http_client::HttpOutcallResponse;
use contrag_core::openai::OpenAIEmbedder;
use contrag_core::types::EntityRelationship;

fn emb(x: i64) -> Vec<i64> {
    vec![x, x + 1]
}

#[test]
fn cache_hits_misses_and_clear() {
    let mut cache = EmbeddingCache::new(4);
    assert!(cache.get("a").is_none());
    cache.insert("a".to_string(), emb(1));
    assert_eq!(cache.get("a"), Some(emb(1)));
    cache.insert("a".to_string(), emb(2));
    assert_eq!(cache.get("a"), Some(emb(2)));
    cache.clear();
    assert!(cache.get("a").is_none());
    cache.clear();
}

#[test]
fn cache_evicts_least_recently_used() {
    let mut cache = EmbeddingCache::new(2);
    cache.insert("a".to_string(), emb(1));
    cache.insert("b".to_string(), emb(2));
    // Touch "a" so that "b" is now the least recently used.
    assert!(cache.get("a").is_some());
    cache.insert("c".to_string(), emb(3));
    assert!(cache.get("b").is_none());
    assert!(cache.get("a").is_some());
    assert!(cache.get("c").is_some());
}

#[test]
fn zero_capacity_cache_holds_nothing() {
    let mut cache = EmbeddingCache::new(0);
    cache.insert("a".to_string(), emb(1));
    assert!(cache.get("a").is_none());
}

#[test]
fn batch_embedding_preserves_order_and_dedups() {
    let mut cache = EmbeddingCache::new(8);
    let texts = vec!["a".to_string(), "b".to_string(), "a".to_string()];

    // "a" is uncached: the provider is asked once, for ["a", "b"].
    let misses = cache.miss_texts(&texts);
    assert_eq!(misses, vec!["a".to_string(), "b".to_string()]);

    let fetched = vec![emb(10), emb(20)];
    let out = cache.integrate(&texts, &fetched);
    assert_eq!(out.len(), 3);
    assert_eq!(out[0], emb(10));
    assert_eq!(out[1], emb(20));
    assert_eq!(out[2], emb(10));
    assert_eq!(out[0], out[2]);

    // A second pass is all hits: nothing left for the provider.
    let misses = cache.miss_texts(&texts);
    assert_eq!(misses.len(), 0);
    let out = cache.integrate(&texts, &Vec::new());
    assert_eq!(out.len(), 3);
    assert_eq!(out[0], emb(10));
    assert_eq!(out[1], emb(20));
}

fn valid_config() -> ContragConfig {
    let mut config = create_default_config();
    config.entities.push(EntityConfig {
        name: "User".to_string(),
        canister_id: "aaaaa-aa".to_string(),
        fetch_method: "get_user".to_string(),
        fetch_many_method: None,
        relationships: Vec::new(),
        auto_include: true,
    });
    config
}

#[test]
fn default_config_is_complete() {
    let config = create_default_config();
    assert_eq!(config.embedder.provider, "openai");
    assert_eq!(config.embedder.model, "text-embedding-3-small");
    assert_eq!(config.embedder.dimensions, 1536);
    assert_eq!(config.chunking.chunk_size, 1000);
    assert_eq!(config.chunking.overlap, 100);
    let store_defaults = VectorStoreConfig::default();
    assert_eq!(store_defaults.storage_type, "stable_memory");
    assert_eq!(store_defaults.max_hot_vectors, Some(10000));
    assert!(store_defaults.enable_cache);
    let chunk_defaults = ChunkingConfig::default();
    assert_eq!(chunk_defaults.chunk_size, 1000);
}

fn invalid_config_message(config: &ContragConfig) -> String {
    match validate_config(config) {
        Err(ContragError::InvalidConfig(msg)) => msg,
        other => panic!("expected InvalidConfig, got {:?}", other),
    }
}

#[test]
fn validate_config_reports_first_broken_rule() {
    assert!(validate_config(&valid_config()).is_ok());

    let config = create_default_config();
    assert_eq!(invalid_config_message(&config), "At least one entity must be configured");

    let mut config = valid_config();
    config.embedder.dimensions = 0;
    assert_eq!(invalid_config_message(&config), "Embedder dimensions must be greater than 0");

    let mut config = valid_config();
    config.chunking.chunk_size = 0;
    assert_eq!(invalid_config_message(&config), "Chunk size must be greater than 0");

    let mut config = valid_config();
    config.chunking.overlap = config.chunking.chunk_size;
    assert_eq!(invalid_config_message(&config), "Overlap must be less than chunk size");

    let mut config = valid_config();
    config.entities[0].name = String::new();
    assert_eq!(invalid_config_message(&config), "Entity name cannot be empty");

    let mut config = valid_config();
    config.entities[0].canister_id = String::new();
    assert_eq!(
        invalid_config_message(&config),
        "Canister ID for entity 'User' cannot be empty"
    );
}

#[derive(Clone)]
struct Ticket {
    id: String,
    title: String,
}

impl RagEntity for Ticket {
    fn entity_type() -> &'static str {
        "Ticket"
    }

    fn entity_id(&self) -> String {
        self.id.clone()
    }

    fn to_context_map(&self) -> Vec<(String, String)> {
        vec![
            ("id".to_string(), self.id.clone()),
            ("title".to_string(), self.title.clone()),
        ]
    }

    fn relationships(&self) -> Vec<EntityRelationship> {
        Vec::new()
    }
}

#[test]
fn entity_context_renders_header_and_fields() {
    let ticket = Ticket { id: "t-1".to_string(), title: "Broken lamp".to_string() };
    let builder = ContextBuilder::new(ChunkingConfig {
        chunk_size: 100,
        overlap: 10,
        include_field_names: true,
    });
    let text = builder.build_entity_context(&ticket);
    assert_eq!(text, "Entity: Ticket\nID: t-1\n---\nid: t-1\ntitle: Broken lamp");

    let bare = format_entity_context("Ticket", "t-1", &ticket.to_context_map(), false);
    assert_eq!(bare, "Entity: Ticket\nID: t-1\n---\nt-1\nBroken lamp");

    assert_eq!(ticket.to_text(), "Entity: Ticket\nID: t-1\n---\nid: t-1\ntitle: Broken lamp");
    assert_eq!(ticket.to_summary(14), "Entity: Ticket...");
}

#[test]
fn graph_context_annotates_relationships() {
    let rels = vec![EntityRelationship {
        field_name: "owner".to_string(),
        target_entity_type: "User".to_string(),
        target_id: "u-1".to_string(),
        relationship_type: contrag_core::types::RelationshipType::ManyToOne,
    }];
    let related = vec!["ctx-a".to_string(), "ctx-b".to_string()];
    let text = format_graph_context("root".to_string(), &rels, &related);
    assert_eq!(text, "root\n\n=== Relationship: owner ===\nctx-a\n\n\nctx-b\n");
}

#[test]
fn multi_entity_context_joins_with_separator() {
    let parts = vec!["one".to_string(), "two".to_string()];
    assert_eq!(join_contexts(&parts, "\n\n=== Next Entity ===\n\n"), "one\n\n=== Next Entity ===\n\ntwo");

    let tickets = vec![
        Ticket { id: "1".to_string(), title: "a".to_string() },
        Ticket { id: "2".to_string(), title: "b".to_string() },
    ];
    let builder = ContextBuilder::new(ChunkingConfig {
        chunk_size: 100,
        overlap: 10,
        include_field_names: false,
    });
    let merged = builder.build_multi_entity_context(&tickets);
    assert!(merged.contains("=== Next Entity ==="));
    assert!(merged.starts_with("Entity: Ticket\nID: 1"));
}

#[test]
fn flatten_walks_nested_objects_in_order() {
    let value = ContextValue::Object(vec![
        (
            "user".to_string(),
            ContextValue::Object(vec![
                ("name".to_string(), ContextValue::Leaf("Alice".to_string())),
                (
                    "tags".to_string(),
                    ContextValue::List(vec!["a".to_string(), "b".to_string()]),
                ),
            ]),
        ),
        ("note".to_string(), ContextValue::Leaf(String::new())),
    ]);
    let flat = flatten_json_to_context(&value, "");
    assert_eq!(
        flat,
        vec![
            ("user.name".to_string(), "Alice".to_string()),
            ("user.tags".to_string(), "a, b".to_string()),
            ("note".to_string(), String::new()),
        ]
    );
}

#[test]
fn provider_settings_derive_dimensions_and_urls() {
    let openai = OpenAIEmbedder::new("test-key".to_string(), "text-embedding-3-large".to_string());
    assert_eq!(openai.name(), "openai");
    assert_eq!(openai.dimensions(), 3072);
    assert_eq!(openai.api_endpoint(), "https://api.openai.com/v1/embeddings");
    let openai = openai.with_endpoint("http://localhost:9000".to_string());
    assert_eq!(openai.api_endpoint(), "http://localhost:9000");
    assert_eq!(openai.model(), "text-embedding-3-large");

    let gemini = GeminiEmbedder::new("k".to_string(), "text-embedding-004".to_string());
    assert_eq!(gemini.name(), "gemini");
    assert_eq!(gemini.dimensions(), 768);
    assert_eq!(
        gemini.get_embed_url(),
        "https://generativelanguage.googleapis.com/v1beta/models/text-embedding-004:embedContent?key=k"
    );
    assert_eq!(
        gemini.get_batch_embed_url(),
        "https://generativelanguage.googleapis.com/v1beta/models/text-embedding-004:batchEmbedContents?key=k"
    );
}

#[test]
fn http_response_text_decodes_utf8() {
    let response = HttpOutcallResponse {
        status: 200,
        headers: Vec::new(),
        body: "héllo".as_bytes().to_vec(),
    };
    assert_eq!(response.text().unwrap(), "héllo");

    let bad = HttpOutcallResponse { status: 200, headers: Vec::new(), body: vec![0xff, 0xfe] };
    match bad.text() {
        Err(ContragError::SerializationError(msg)) => {
            assert_eq!(msg, "Failed to parse response as UTF-8");
        },
        other => panic!("expected SerializationError, got {:?}", other),
    }
}

#[test]
fn data_sources_look_up_configs() {
    let source = create_from_config(valid_config().entities);
    let found = source.get_config("User").unwrap();
    assert_eq!(found.fetch_method, "get_user");
    match source.get_config("Order") {
        Err(ContragError::ConfigError(msg)) => {
            assert_eq!(msg, "No configuration found for entity type: Order");
        },
        other => panic!("expected ConfigError, got {:?}", other),
    }

    let memory = StableMemorySource::new();
    let read: Option<Ticket> = memory.read("key").unwrap();
    assert!(read.is_none());
    let ticket = Ticket { id: "1".to_string(), title: "t".to_string() };
    memory.write("key", &ticket).unwrap();
}
