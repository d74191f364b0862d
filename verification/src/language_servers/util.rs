//! Which directories of the extension's work directory hold language-server
//! installs.

use vstd::prelude::*;
use vstd::string::StringSliceAdditionalSpecFns;

use crate::logutil::str_eq;
use crate::text::{lemma_str_chars, starts_with, starts_with_bytes};

verus! {

/// A work-directory entry to delete when cleaning up: one whose name is not
/// valid Unicode, or that starts with the server's id and is not the current
/// version's directory.
pub open spec fn outdated(file_name: Option<Seq<char>>, id: Seq<char>, version_dir: Seq<char>) -> bool {
    match file_name {
        None => true,
        Some(n) => starts_with(encode_utf8_of(n), encode_utf8_of(id)) && n != version_dir,
    }
}

pub open spec fn encode_utf8_of(s: Seq<char>) -> Seq<u8> {
    vstd::utf8::encode_utf8(s)
}

/// Whether a work-directory entry is an outdated install (see `outdated`).
pub fn is_outdated_entry(file_name: Option<&str>, id: &str, version_dir: &str) -> (r: bool)
    ensures
        r == outdated(
            match file_name {
                Some(n) => Some(n@),
                None => None,
            },
            id@,
            version_dir@,
        ),
{
    match file_name {
        None => true,
        Some(n) => {
            proof {
                lemma_str_chars(n);
                lemma_str_chars(id);
            }
            starts_with_bytes(n.as_bytes(), id.as_bytes()) && !str_eq(n, version_dir)
        },
    }
}

/// Whether a work-directory entry's name marks it as an install of the
/// server `id` (its name is valid Unicode and starts with the id).
pub fn is_install_dir(file_name: Option<&str>, id: &str) -> (r: bool)
    ensures
        r == match file_name {
            Some(n) => starts_with(encode_utf8_of(n@), encode_utf8_of(id@)),
            None => false,
        },
{
    match file_name {
        None => false,
        Some(n) => {
            proof {
                lemma_str_chars(n);
                lemma_str_chars(id);
            }
            starts_with_bytes(n.as_bytes(), id.as_bytes())
        },
    }
}

} // verus!
