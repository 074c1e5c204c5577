//! Source-text logic of the Instar Luau toolchain: string literal decoding,
//! formatter options and literal rewriting, lint configuration and fixes,
//! graft validation, documentation comments and editor helpers.

pub mod configuration;
pub mod literal;
pub mod text;
pub mod moonwave;
pub mod lint;
pub mod format;
pub mod graft;
pub mod lsp;
pub mod paths;
pub mod graph;
