//! Splits markdown documents into heading-aware chunks bounded by token
//! counts, for a vector store.

pub mod text;
pub mod tokens;
pub mod slicing;
pub mod slicing_laws;
pub mod tree;
pub mod tree_laws;
pub mod chunks;
pub mod chunks_laws;
pub mod sections;
pub mod markdown;
pub mod md;

pub use md::{split_md_doc, split_md_blocks, parse_markdown_to_tree};
pub use tokens::{MIN_TOKENS, MAX_TOKENS};
