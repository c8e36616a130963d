//! Text chunking, incremental-index planning and result ranking for an
//! agent memory store.

pub mod chunk;
pub mod config;
pub mod discover;
pub mod index;
pub mod ingest;
pub mod json;
pub mod search;
pub mod text;
pub mod transcript;
