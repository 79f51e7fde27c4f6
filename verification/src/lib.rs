//! Validate a SentencePiece tokenizer for multilingual OCR, and the corpus behind it.

pub mod report;
pub mod text;
pub mod unicode;
pub mod corpus;
pub mod config;
pub mod normalize;
pub mod binary64;
pub mod format;
pub mod render;
pub mod model;
pub mod writing;
pub mod balance;
pub mod tally;
pub mod crosscheck;
pub mod train;
pub mod chunk;
pub mod repair;
pub mod cancel;
pub mod progress;
pub mod trainer;
pub mod training;
