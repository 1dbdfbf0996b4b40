use contrag_core::config::ChunkingConfig;
use contrag_core::context_builder::ContextBuilder;
use contrag_core::utils::{format_bytes, generate_vector_id, sanitize_text, truncate_text};

#[test]
fn test_chunk_text_small() {
    let config = ChunkingConfig { chunk_size: 100, overlap: 20, include_field_names: true };
    let builder = ContextBuilder::new(config);

    let text = "Hello world";
    let chunks = builder.chunk_text(text).unwrap();

    assert_eq!(chunks.len(), 1);
    assert_eq!(chunks[0].text, "Hello world");
}

#[test]
fn test_chunk_text_large() {
    let config = ChunkingConfig { chunk_size: 50, overlap: 10, include_field_names: true };
    let builder = ContextBuilder::new(config);

    let text = "a".repeat(150);
    let chunks = builder.chunk_text(&text).unwrap();

    assert!(chunks.len() > 1);
}

#[test]
fn chunk_of_150_identical_characters_ends_at_150() {
    let config = ChunkingConfig { chunk_size: 50, overlap: 10, include_field_names: true };
    let builder = ContextBuilder::new(config);

    let text = "a".repeat(150);
    let chunks = builder.chunk_text(&text).unwrap();

    assert!(chunks.len() > 1);
    assert_eq!(chunks.last().unwrap().end_idx, 150);
    // Without boundary characters, chunks step by chunk_size - overlap.
    assert_eq!(chunks[0].start_idx, 0);
    assert_eq!(chunks[0].end_idx, 50);
    assert_eq!(chunks[1].start_idx, 40);
    assert_eq!(chunks[1].end_idx, 90);
}

#[test]
fn chunks_cover_text_and_snap_to_boundaries() {
    let config = ChunkingConfig { chunk_size: 20, overlap: 5, include_field_names: true };
    let builder = ContextBuilder::new(config);

    let text = "The quick brown fox jumps over the lazy dog. It barks.";
    let chunks = builder.chunk_text(text).unwrap();

    assert_eq!(chunks[0].start_idx, 0);
    assert_eq!(chunks.last().unwrap().end_idx, text.chars().count());
    for (i, c) in chunks.iter().enumerate() {
        assert_eq!(c.chunk_index, i);
        assert!(c.start_idx < c.end_idx);
        let expect: String = text
            .chars()
            .skip(c.start_idx)
            .take(c.end_idx - c.start_idx)
            .collect();
        assert_eq!(c.text, expect);
        if i > 0 {
            assert_eq!(c.start_idx, chunks[i - 1].end_idx - 5);
        }
    }
}

#[test]
fn chunking_rejects_bad_overlap() {
    let builder = ContextBuilder::new(ChunkingConfig {
        chunk_size: 10,
        overlap: 10,
        include_field_names: true,
    });
    assert!(builder.chunk_text("whatever").is_err());

    let builder = ContextBuilder::new(ChunkingConfig {
        chunk_size: 10,
        overlap: 0,
        include_field_names: true,
    });
    assert!(builder.chunk_text("whatever").is_err());
}

#[test]
fn chunking_is_deterministic() {
    let config = ChunkingConfig { chunk_size: 30, overlap: 7, include_field_names: false };
    let builder = ContextBuilder::new(config.clone());
    let text = "Some text. With sentences! And questions? Plus plain words to split.";
    let a = builder.chunk_text(text).unwrap();
    let b = ContextBuilder::new(config).chunk_text(text).unwrap();
    assert_eq!(a.len(), b.len());
    for (x, y) in a.iter().zip(b.iter()) {
        assert_eq!(x.text, y.text);
        assert_eq!(x.start_idx, y.start_idx);
        assert_eq!(x.end_idx, y.end_idx);
        assert_eq!(x.chunk_index, y.chunk_index);
    }
}

#[test]
fn chunk_stats_report_counts_and_average() {
    let config = ChunkingConfig { chunk_size: 50, overlap: 10, include_field_names: true };
    let builder = ContextBuilder::new(config);
    let text = "b".repeat(150);
    let stats = builder.get_chunk_stats(&text).unwrap();
    assert_eq!(stats.total_text_length, 150);
    assert_eq!(stats.total_chunks, 4);
    // Chunks are 50, 50, 50, 30 points long.
    assert_eq!(stats.avg_chunk_size, 45);
    assert_eq!(stats.chunk_size_config, 50);
    assert_eq!(stats.overlap_config, 10);
}

#[test]
fn test_generate_vector_id() {
    let id = generate_vector_id("User", "123", 0);
    assert_eq!(id, "User::123::chunk_0");
}

#[test]
fn vector_ids_render_large_indices() {
    assert_eq!(generate_vector_id("Order", "a-1", 105), "Order::a-1::chunk_105");
}

#[test]
fn test_sanitize_text() {
    let text = "Hello    world\n\n  test";
    let sanitized = sanitize_text(text);
    assert_eq!(sanitized, "Hello world test");
}

#[test]
fn sanitize_trims_and_handles_empty() {
    assert_eq!(sanitize_text("   "), "");
    assert_eq!(sanitize_text(""), "");
    assert_eq!(sanitize_text("\t a \r\n"), "a");
}

#[test]
fn test_truncate_text() {
    let text = "Hello world";
    assert_eq!(truncate_text(text, 5), "Hello...");
    assert_eq!(truncate_text(text, 100), "Hello world");
}

#[test]
fn truncate_counts_code_points() {
    assert_eq!(truncate_text("déjà vu encore", 4), "déjà...");
}

#[test]
fn test_format_bytes() {
    assert_eq!(format_bytes(512), "512.00 B");
    assert_eq!(format_bytes(1536), "1.50 KB");
    assert_eq!(format_bytes(1_048_576), "1.00 MB");
}

#[test]
fn format_bytes_covers_large_units() {
    assert_eq!(format_bytes(0), "0.00 B");
    assert_eq!(format_bytes(1_073_741_824), "1.00 GB");
    assert_eq!(format_bytes(1_099_511_627_776), "1.00 TB");
    assert_eq!(format_bytes(1_536_000_000_000_000), "1396.98 TB");
}

#[test]
fn empty_text_chunks_to_one_empty_chunk() {
    let builder = ContextBuilder::new(ChunkingConfig {
        chunk_size: 10,
        overlap: 2,
        include_field_names: true,
    });
    let chunks = builder.chunk_text("").unwrap();
    assert_eq!(chunks.len(), 1);
    assert_eq!(chunks[0].text, "");
    assert_eq!((chunks[0].start_idx, chunks[0].end_idx), (0, 0));

    let stats = builder.get_chunk_stats("").unwrap();
    assert_eq!(stats.total_chunks, 1);
    assert_eq!(stats.avg_chunk_size, 0);
}
