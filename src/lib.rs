//! Core of a local knowledge pipeline: text extraction helpers, chunking,
//! cleaning-task queue, vector store and similarity ranking, ingestion rules.

pub mod text;
pub mod chunker;
pub mod vector_codec;
pub mod ranking;
pub mod vector_store;
pub mod cleaning;
pub mod transforms;
pub mod analysis;
pub mod ingestion;
pub mod insights;
pub mod progress;
pub mod ics;
pub mod extract;
pub mod embedding;
pub mod records;
