//! What the proxy does with a message from the language server on its way to
//! the editor: forward it as read, or rewrite the archive URIs in it.

use vstd::prelude::*;

use crate::json::{archive_strings, outcomes_view, rewrite_archive_uris, rewritten, somes, Json};
use crate::lsp_frame::{body_of, frame_json, framed, lsp_body};
use crate::uri::{body_has_archive_uri, body_mentions_archive};

verus! {

/// Whether a raw message is worth parsing for a rewrite: it has a body that
/// mentions an archive URI. Every other message is forwarded as read.
pub fn message_needs_rewrite(raw: &[u8]) -> (r: bool)
    ensures
        r == match body_of(raw@) {
            Some(b) => body_mentions_archive(b),
            None => false,
        },
{
    match lsp_body(raw) {
        Some(body) => body_has_archive_uri(body),
        None => false,
    }
}

/// Puts the materialization outcomes into a parsed message (see
/// `rewrite_archive_uris`) and says whether it must be sent re-framed:
/// `Some(n)` when `n > 0` strings changed, `None` when none did and the
/// message is forwarded as read.
pub fn try_rewrite_message(msg: &mut Json, outcomes: &Vec<Option<String>>) -> (r: Option<usize>)
    ensures
        final(msg)@ == rewritten(old(msg)@, outcomes_view(outcomes@)),
        match r {
            Some(n) => n > 0 && n == somes(
                outcomes_view(outcomes@),
                archive_strings(old(msg)@).len() as int,
            ),
            None => somes(outcomes_view(outcomes@), archive_strings(old(msg)@).len() as int) == 0,
        },
{
    let n = rewrite_archive_uris(msg, outcomes);
    if n == 0 {
        None
    } else {
        Some(n)
    }
}

/// The bytes forwarded to the editor for a message read from the language
/// server: the re-framed rewritten JSON text when a rewrite produced one, the
/// message exactly as read otherwise (fail-open).
pub fn relay_output(raw: &[u8], rewritten_json: Option<&[u8]>) -> (r: Vec<u8>)
    ensures
        r@ == match rewritten_json {
            Some(t) => framed(t@),
            None => raw@,
        },
{
    match rewritten_json {
        Some(t) => frame_json(t),
        None => {
            let mut out: Vec<u8> = Vec::new();
            let mut i: usize = 0;
            while i < raw.len()
                invariant
                    i <= raw@.len(),
                    out@ == raw@.subrange(0, i as int),
                decreases raw@.len() - i,
            {
                out.push(raw[i]);
                i = i + 1;
                assert(out@ =~= raw@.subrange(0, i as int));
            }
            assert(raw@.subrange(0, raw@.len() as int) =~= raw@);
            out
        },
    }
}
} // verus!
