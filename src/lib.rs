//! Retrieval core of a project-scoped document assistant: input validation,
//! text chunking, embedding batching, relevance ranking with diversity
//! re-ranking, and sealed storage of provider settings.

pub mod text;
pub mod chat;
pub mod chunking;
pub mod commands;
pub mod config;
pub mod embeddings;
pub mod search;
pub mod security;
pub mod validation;
