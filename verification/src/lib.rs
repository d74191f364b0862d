//! Verified core of the Kotlin extension for Zed and of its LSP proxy, which
//! rewrites archive URIs (`jar:///…/lib.jar!/path/File.java`) in language-server
//! responses to extracted `file://` paths.

pub mod text;
pub mod lsp_frame;
pub mod paths;
pub mod uri;
pub mod security;
pub mod json;
pub mod settings;
pub mod cache;
pub mod logutil;
pub mod resolve;
pub mod relay;
pub mod spawn;
pub mod language_servers;
