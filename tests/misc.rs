use llm_workbench::chat::{build_context, rag_messages, ChatRole};
use llm_workbench::commands::CommandResult;
use llm_workbench::embeddings::{append_batch, batch_ranges, single_embedding, BatchConfig, EmbeddingError};
use llm_workbench::text::decimal_string;

#[test]
fn batches_cover_input_in_order() {
    assert_eq!(BatchConfig::default().batch_size, 32);
    assert!(batch_ranges(0, 32).is_empty());
    assert_eq!(batch_ranges(5, 32), vec![(0, 5)]);
    assert_eq!(batch_ranges(32, 32), vec![(0, 32)]);
    assert_eq!(batch_ranges(70, 32), vec![(0, 32), (32, 64), (64, 70)]);
}

#[test]
fn batch_answers_are_checked_and_joined() {
    let mut all = vec![vec![1.0f32]];
    assert!(append_batch(&mut all, vec![vec![2.0f32], vec![3.0]], 2).is_ok());
    assert_eq!(all, vec![vec![1.0], vec![2.0], vec![3.0]]);
    assert!(matches!(
        append_batch(&mut all, vec![vec![4.0f32]], 2),
        Err(EmbeddingError::ProviderError(_))
    ));
    assert_eq!(all.len(), 3);
}

#[test]
fn single_embedding_needs_a_vector() {
    assert_eq!(single_embedding(vec![vec![0.5f32]]).ok(), Some(vec![0.5f32]));
    assert!(matches!(
        single_embedding(Vec::<Vec<f32>>::new()),
        Err(EmbeddingError::NoProviderConfigured)
    ));
}

#[test]
fn context_numbers_sources() {
    let sources = vec![
        ("a.md".to_string(), "alpha".to_string()),
        ("b.md".to_string(), "beta".to_string()),
    ];
    assert_eq!(build_context(&sources), "[Source 1: a.md]\nalpha\n\n[Source 2: b.md]\nbeta");
    assert_eq!(build_context(&Vec::new()), "");
    let msgs = rag_messages(&sources, "why?".to_string());
    assert_eq!(msgs.len(), 2);
    assert!(msgs[0].role == ChatRole::System);
    assert!(msgs[0].content.starts_with("You are a helpful assistant."));
    assert!(msgs[0].content.ends_with("Context:\n[Source 1: a.md]\nalpha\n\n[Source 2: b.md]\nbeta"));
    assert!(msgs[1].role == ChatRole::User);
    assert_eq!(msgs[1].content, "why?");
}

#[test]
fn command_results() {
    let ok = CommandResult::ok(7u32);
    assert!(ok.success);
    assert_eq!(ok.data, Some(7));
    assert!(ok.error.is_none());
    let err: CommandResult<u32> = CommandResult::err("boom".to_string());
    assert!(!err.success);
    assert!(err.data.is_none());
    assert_eq!(err.error.as_deref(), Some("boom"));
}

#[test]
fn decimal_strings() {
    assert_eq!(decimal_string(0), "0");
    assert_eq!(decimal_string(10), "10");
    assert_eq!(decimal_string(u64::MAX), "18446744073709551615");
}
