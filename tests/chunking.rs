use llm_workbench::chunking::{chunk_text, ChunkConfig};

#[test]
fn test_chunk_small_text() {
    let text = "This is a small text.";
    let chunks = chunk_text(text, None);
    assert_eq!(chunks.len(), 1);
    assert_eq!(chunks[0], text);
}

#[test]
fn test_chunk_with_overlap() {
    let text = "A".repeat(3000);
    let config = ChunkConfig {
        chunk_size: 1000,
        overlap: 100,
    };
    let chunks = chunk_text(&text, Some(config));

    assert!(chunks.len() > 1);
    for i in 0..chunks.len() - 1 {
        assert!(chunks[i].len() <= 1000 + 10);
    }
}

#[test]
fn test_chunk_respects_boundaries() {
    let text = "First sentence. Second sentence. Third sentence. Fourth sentence.";
    let config = ChunkConfig {
        chunk_size: 30,
        overlap: 5,
    };
    let chunks = chunk_text(text, Some(config));

    assert!(chunks.len() > 1);
    for chunk in &chunks {
        println!("Chunk: {}", chunk);
    }
}

#[test]
fn boundary_cuts_fall_after_sentence_ends() {
    let text = "First sentence. Second sentence. Third sentence. Fourth sentence.";
    let chunks = chunk_text(text, Some(ChunkConfig { chunk_size: 30, overlap: 5 }));
    assert_eq!(
        chunks,
        vec![
            "First sentence.".to_string(),
            "ence. Second sentence.".to_string(),
            "ence. Third sentence.".to_string(),
            "ence. Fourth sentence.".to_string(),
        ]
    );
}

#[test]
fn uniform_text_is_cut_at_window_size_with_overlap() {
    let text = "A".repeat(3000);
    let chunks = chunk_text(&text, Some(ChunkConfig { chunk_size: 1000, overlap: 100 }));
    let lens: Vec<usize> = chunks.iter().map(|c| c.len()).collect();
    assert_eq!(lens, vec![1000, 1000, 1000, 300]);
    // at most ceil(3000 / 900) = 4 segments
    assert!(chunks.len() <= (3000 + 900 - 1) / 900);
}

#[test]
fn default_config_sizes() {
    let c = ChunkConfig::default();
    assert_eq!(c.chunk_size, 2048);
    assert_eq!(c.overlap, 200);
    let text = "x".repeat(2048);
    assert_eq!(chunk_text(&text, None), vec![text.clone()]);
    let longer = "x".repeat(2049);
    assert_eq!(chunk_text(&longer, None).len(), 2);
}

#[test]
fn empty_text_is_one_empty_segment() {
    assert_eq!(chunk_text("", None), vec![String::new()]);
}

#[test]
fn segments_reassemble_to_the_text() {
    let text = "one two three. four five\nsix seven eight nine! ten eleven twelve? thirteen";
    let chunks = chunk_text(text, Some(ChunkConfig { chunk_size: 12, overlap: 4 }));
    // rebuild: each segment starts inside (or at the end of) what came before
    let mut rebuilt = String::new();
    for c in &chunks {
        let mut joined = false;
        for k in (0..=c.len().min(rebuilt.len())).rev() {
            if rebuilt.ends_with(&c[..k]) && text.starts_with(&(rebuilt.clone() + &c[k..])) {
                rebuilt.push_str(&c[k..]);
                joined = true;
                break;
            }
        }
        assert!(joined);
    }
    assert_eq!(rebuilt, text);
}

#[test]
fn multibyte_text_is_cut_on_characters() {
    let text = "ééééééééééé";
    let chunks = chunk_text(text, Some(ChunkConfig { chunk_size: 4, overlap: 1 }));
    assert_eq!(chunks, vec!["éééé", "éééé", "éééé", "éé"]);
}

#[test]
fn cursor_never_moves_back() {
    // the window after "aaaa " starts with the space: the cut falls right after it
    let chunks = chunk_text("aaaa bbbbbbbbbb", Some(ChunkConfig { chunk_size: 5, overlap: 1 }));
    assert_eq!(chunks, vec!["aaaa ", " ", "bbbbb", "bbbbb", "bb"]);
}
