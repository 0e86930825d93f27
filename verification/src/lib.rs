//! A language server proxy for Fiasco: line mappings between Fiasco sources
//! and the preprocessed files made from them, the rewriting of language
//! server messages through those mappings, and the preprocessing itself.

pub mod global_state;
pub mod text;
pub mod lsp;
pub mod handler;
pub mod source_mapping;
pub mod extract;
pub mod preprocess;
