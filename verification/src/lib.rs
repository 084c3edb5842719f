//! The verified core of the Petal language tooling.

pub mod numeric;
pub mod text;
pub mod policy;
pub mod value;
pub mod memo;
pub mod run_deps;
pub mod error;
pub mod package;
pub mod record;
pub mod ast;
pub mod rewrite;
pub mod lexer;
pub mod parse;
pub mod lint;
pub mod program;
pub mod resource_table;
pub mod native_fn;
pub mod lsp;
pub mod source_map;
pub mod observe;
pub mod module;
pub mod import_walk;
pub mod isa;
pub mod profile;
pub mod source_watch;
pub mod program_analysis;
pub mod stack;
pub mod static_value;
pub mod provenance;
