//! fwcd/kotlin-language-server: its release asset and install layout.

use vstd::prelude::*;

use crate::language_servers::launch::Os;
use crate::logutil::str_eq;
use crate::text::concat_strs;

verus! {

pub const LANGUAGE_SERVER_ID: &'static str = "kotlin-language-server";

/// The release asset that holds the server.
pub const ASSET_NAME: &'static str = "server.zip";

/// Where a release is unpacked and where its launcher lies in it.
pub struct ServerLayout {
    pub version_dir: String,
    pub binary_path: String,
}

/// `kotlin-language-server-{version}`, and in it
/// `server/bin/kotlin-language-server`, with `.bat` on Windows.
pub fn server_layout(version: &str, os: Os) -> (r: ServerLayout)
    ensures
        r.version_dir@ == "kotlin-language-server-"@ + version@,
        r.binary_path@ == "kotlin-language-server-"@ + version@ + "/server/bin/kotlin-language-server"@
            + (if os == Os::Windows {
            ".bat"@
        } else {
            ""@
        }),
{
    let version_dir = concat_strs("kotlin-language-server-", version);
    let bin = concat_strs(version_dir.as_str(), "/server/bin/kotlin-language-server");
    let extension = match os {
        Os::Mac | Os::Linux => "",
        Os::Windows => ".bat",
    };
    let binary_path = concat_strs(bin.as_str(), extension);
    ServerLayout { version_dir, binary_path }
}

/// The position of the first asset named `wanted`.
pub fn find_asset(names: &Vec<String>, wanted: &str) -> (r: Option<usize>)
    ensures
        match r {
            Some(i) => i < names@.len() && names@[i as int]@ == wanted@ && forall|j: int|
                0 <= j < i ==> #[trigger] names@[j]@ != wanted@,
            None => forall|j: int| 0 <= j < names@.len() ==> #[trigger] names@[j]@ != wanted@,
        },
{
    let mut i: usize = 0;
    while i < names.len()
        invariant
            i <= names@.len(),
            forall|j: int| 0 <= j < i ==> #[trigger] names@[j]@ != wanted@,
        decreases names@.len() - i,
    {
        if str_eq(names[i].as_str(), wanted) {
            return Some(i);
        }
        i = i + 1;
    }
    None
}

} // verus!
