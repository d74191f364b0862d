//! Environment flags and the log file location.

use vstd::prelude::*;
use vstd::string::StringSliceAdditionalSpecFns;
use vstd::utf8::*;

use crate::paths::{bytes_eq, join, path_join};
use crate::text::lemma_str_chars;

verus! {

/// Whether two strings are equal.
pub fn str_eq(a: &str, b: &str) -> (r: bool)
    ensures
        r == (a@ == b@),
{
    proof {
        lemma_str_chars(a);
        lemma_str_chars(b);
    }
    bytes_eq(a.as_bytes(), b.as_bytes())
}

/// A flag's value that turns it on: `1`, `true`, `TRUE`, `yes` or `YES`.
pub open spec fn flag_on(v: Seq<char>) -> bool {
    v == "1"@ || v == "true"@ || v == "TRUE"@ || v == "yes"@ || v == "YES"@
}

/// Whether an environment flag is on, given its value (`None` when unset or
/// not valid Unicode).
pub fn env_flag(value: Option<&str>) -> (r: bool)
    ensures
        r == match value {
            Some(v) => flag_on(v@),
            None => false,
        },
{
    match value {
        Some(v) => str_eq(v, "1") || str_eq(v, "true") || str_eq(v, "TRUE") || str_eq(v, "yes")
            || str_eq(v, "YES"),
        None => false,
    }
}

/// Whether verbose rewrite logging is on, given the value of
/// `KOTLIN_LSP_PROXY_DEBUG`.
pub fn debug_enabled(debug_var: Option<&str>) -> (r: bool)
    ensures
        r == match debug_var {
            Some(v) => flag_on(v@),
            None => false,
        },
{
    env_flag(debug_var)
}

/// The log file: `$KOTLIN_LSP_PROXY_LOG` when set, else `proxy.log` in the
/// cache directory.
pub fn log_path(log_var: Option<&str>, cache_root: &str) -> (r: String)
    ensures
        encode_utf8(r@) == match log_var {
            Some(p) => p.spec_bytes(),
            None => path_join(cache_root.spec_bytes(), "proxy.log".spec_bytes()),
        },
{
    match log_var {
        Some(p) => {
            proof {
                lemma_str_chars(p);
            }
            p.to_owned()
        },
        None => join(cache_root, "proxy.log"),
    }
}

} // verus!
