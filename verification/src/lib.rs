//! Local document search and question answering over a collection of
//! files: sentence-aware chunking, content addressing, incremental indexing
//! decisions, reciprocal rank fusion of lexical and vector recall, hit
//! assembly, `.docx` text extraction and the plain data model around them.

pub mod error;
pub mod text;
pub mod split;
pub mod retriever;
pub mod fusion;
pub mod hashing;
pub mod models;
pub mod merge;
pub mod traits;
pub mod chunker;
pub mod verbose;
pub mod registry;
pub mod indexer;
pub mod search;
pub mod engine;
pub mod storage;
pub mod hub;
pub mod reader;
pub mod docx;
pub mod generation;
pub mod synth;
pub mod segment;
