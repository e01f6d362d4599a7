//! Library core of the gaiety zsh module loader: module manifests, version
//! handling, dependency ordering and validation, and the text that the
//! commands emit.
pub mod text;
pub mod manifest;
pub mod types;
pub mod paths;
pub mod common;
pub mod version;
pub mod graph;
pub mod validator;
pub mod source;
pub mod loader;
pub mod install;
pub mod remove;
pub mod prune;
pub mod rename;
pub mod list;
pub mod info;
pub mod browse;
pub mod sync;
pub mod profile;
pub mod path;
pub mod update;
pub mod resolve;
pub mod file_guard;
pub mod cli;
pub mod manifest_edit;
pub mod laws;
pub mod behaviour;
