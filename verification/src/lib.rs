//! Token-budgeted chunking of page text: a byte-pair tokenizer over a ranked
//! vocabulary, and a splitter that cuts a page along semantic separators,
//! merges the pieces up to a token budget and overlaps neighbouring chunks.

pub mod chunk_merger;
pub mod chunk_overlapper;
pub mod chunking;
pub mod error;
pub mod o200k_vocab;
pub mod parallel_processor;
pub mod patterns;
pub mod rank_table;
pub mod semantic_chunker;
pub mod semantic_segmenter;
pub mod splitting;
pub mod text;
pub mod text_extractor;
pub mod text_preprocessor;
pub mod tiktoken_core;
