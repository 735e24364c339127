//! Verified core of `rfast`, a tool that runs Rust files as scripts.
pub mod digest;
pub mod text;
pub mod toml_doc;
pub mod parser;
pub mod cache;
pub mod runner;
