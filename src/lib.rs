//! Rewriting of the paths of Markdown image references.
//!
//! A reference `![alt](path)` is rewritten to `![alt](<prefix>/<file name>)`,
//! and every path that changed is reported.

pub mod idempotence;
pub mod laws;
pub mod model;
pub mod rewrite;
pub mod text;

pub use rewrite::{convert_paths, ConvertResult, PathChange};
pub use text::decode_text;
