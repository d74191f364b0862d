//! The extension's language servers: where their binaries live, how they are
//! downloaded, and how they are launched behind the source proxy.

pub mod kotlin_language_server;
pub mod kotlin_lsp;
pub mod launch;
pub mod proxy;
pub mod util;
