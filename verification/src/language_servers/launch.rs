//! Platforms and the command that starts a language server, directly or
//! through the source proxy.

use vstd::prelude::*;

use crate::language_servers::{kotlin_language_server, kotlin_lsp};
use crate::logutil::str_eq;
use crate::text::concat_strs;

verus! {

/// The host operating system.
#[derive(Debug, Clone, Copy, PartialEq, Eq, Structural)]
pub enum Os {
    Mac,
    Linux,
    Windows,
}

/// The host architecture.
#[derive(Debug, Clone, Copy, PartialEq, Eq, Structural)]
pub enum Architecture {
    Aarch64,
    X86,
    X8664,
}

/// How a downloaded release asset is packed.
#[derive(Debug, Clone, Copy, PartialEq, Eq, Structural)]
pub enum DownloadedFileType {
    Gzip,
    GzipTar,
    Zip,
    Uncompressed,
}

/// The process the editor starts for a language server.
pub struct LaunchCommand {
    pub command: String,
    pub args: Vec<String>,
    pub env: Vec<(String, String)>,
}

/// Whether and how the source proxy wraps a language server.
pub enum ProxyChoice {
    /// The proxy is turned off.
    Disabled,
    /// No proxy binary is available.
    Missing,
    /// The proxy binary, the language server's absolute path, and whether the
    /// proxy should log verbosely.
    Found { proxy: String, absolute_server: String, debug: bool },
}

pub open spec fn strings_view(v: Seq<String>) -> Seq<Seq<char>> {
    Seq::new(v.len(), |i: int| v[i]@)
}

/// The command for a language server: `proxy <absolute server> [server args...]`
/// when a proxy is found (with `KOTLIN_LSP_PROXY_DEBUG=1` in its environment
/// when debugging), the server itself with its arguments otherwise.
pub fn wrap_with_proxy(binary_path: String, ls_args: Vec<String>, choice: ProxyChoice) -> (r: LaunchCommand)
    ensures
        match choice {
            ProxyChoice::Found { proxy, absolute_server, debug } => {
                &&& r.command@ == proxy@
                &&& strings_view(r.args@) == seq![absolute_server@] + strings_view(ls_args@)
                &&& r.env@.len() == (if debug { 1int } else { 0int })
                &&& debug ==> r.env@[0].0@ == "KOTLIN_LSP_PROXY_DEBUG"@ && r.env@[0].1@ == "1"@
            },
            _ => {
                &&& r.command@ == binary_path@
                &&& strings_view(r.args@) == strings_view(ls_args@)
                &&& r.env@.len() == 0
            },
        },
{
    match choice {
        ProxyChoice::Found { proxy, absolute_server, debug } => {
            let mut args: Vec<String> = Vec::new();
            args.push(absolute_server);
            let mut rest = ls_args;
            let ghost rv = rest@;
            args.append(&mut rest);
            assert(strings_view(args@) =~= seq![absolute_server@] + strings_view(rv));
            let mut env: Vec<(String, String)> = Vec::new();
            if debug {
                env.push(("KOTLIN_LSP_PROXY_DEBUG".to_owned(), "1".to_owned()));
            }
            LaunchCommand { command: proxy, args, env }
        },
        _ => LaunchCommand { command: binary_path, args: ls_args, env: Vec::new() },
    }
}

/// The arguments a known language server is started with: none for
/// kotlin-language-server, `--stdio` for kotlin-lsp; an error for any other id.
pub fn language_server_args(id: &str) -> (r: Result<Vec<String>, String>)
    ensures
        id@ == kotlin_language_server::LANGUAGE_SERVER_ID@ ==> r is Ok && r->Ok_0@.len() == 0,
        id@ != kotlin_language_server::LANGUAGE_SERVER_ID@ && id@ == kotlin_lsp::LANGUAGE_SERVER_ID@
            ==> r is Ok && strings_view(r->Ok_0@) == seq!["--stdio"@],
        id@ != kotlin_language_server::LANGUAGE_SERVER_ID@ && id@ != kotlin_lsp::LANGUAGE_SERVER_ID@
            ==> r is Err && r->Err_0@ == "Unrecognized language server for Kotlin: "@ + id@,
{
    if str_eq(id, kotlin_language_server::LANGUAGE_SERVER_ID) {
        Ok(Vec::new())
    } else if str_eq(id, kotlin_lsp::LANGUAGE_SERVER_ID) {
        let mut args: Vec<String> = Vec::new();
        args.push("--stdio".to_owned());
        assert(strings_view(args@) =~= seq!["--stdio"@]);
        Ok(args)
    } else {
        Err(concat_strs("Unrecognized language server for Kotlin: ", id))
    }
}

} // verus!
