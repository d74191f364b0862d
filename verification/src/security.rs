//! Path safety for archive opens and cache writes: zip-slip rejection and the
//! archive allowlist.

use vstd::prelude::*;
use vstd::string::StringSliceAdditionalSpecFns;
use vstd::utf8::*;

use crate::paths::{
    bytes_eq, components, is_absolute, lemma_join_components, lemma_normal_parts_in_components,
    normal_parts, path_components, path_join, path_starts_with, starts_with_path,
};
use crate::text::{
    ascii_chars, contains_bytes, contains_seq, ends_with, ends_with_bytes, lemma_boundary_after_ascii,
    lemma_literal_bytes, lemma_str_chars, lower, lower_bytes, starts_with, starts_with_bytes, str_slice, trim,
    trim_chars,
};

verus! {

broadcast use vstd::utf8::encode_utf8_valid_utf8;

/// `..`, the parent-directory component.
pub open spec fn parent_dir() -> Seq<u8> {
    seq![46u8, 46u8]
}

/// What `safe_relative_entry` keeps of an archive entry name: the trimmed name
/// without one leading `/`, provided it is not empty, does not then start with
/// `/` or `\`, and has no `..` component. `None` otherwise.
pub open spec fn safe_entry(entry: Seq<char>) -> Option<Seq<u8>> {
    let t = encode_utf8(trim_chars(entry));
    if t.len() == 0 {
        None
    } else {
        let e = if t[0] == 47 {
            t.subrange(1, t.len() as int)
        } else {
            t
        };
        if e.len() == 0 || e[0] == 47 || e[0] == 92 {
            None
        } else if components(e).contains(parent_dir()) {
            None
        } else {
            Some(e)
        }
    }
}

/// Rejects archive entry names that would escape the directory they are
/// extracted under (zip-slip). Returns the relative path to use.
pub fn safe_relative_entry(entry: &str) -> (r: Option<&str>)
    ensures
        match r {
            Some(p) => safe_entry(entry@) == Some(p.spec_bytes()),
            None => safe_entry(entry@) is None,
        },
{
    let t = trim(entry);
    proof {
        lemma_str_chars(t);
    }
    let tb = t.as_bytes();
    if tb.len() == 0 {
        return None;
    }
    let e = if tb[0] == 47 {
        proof {
            lemma_boundary_after_ascii(tb@, 1);
            is_char_boundary_start_end_of_seq(tb@);
        }
        str_slice(t, 1, tb.len())
    } else {
        t
    };
    let eb = e.as_bytes();
    assert(tb@ == encode_utf8(trim_chars(entry@)));
    assert(eb@ == if tb@[0] == 47 { tb@.subrange(1, tb@.len() as int) } else { tb@ });
    if eb.len() == 0 || eb[0] == 47 || eb[0] == 92 {
        return None;
    }
    let comps = path_components(eb);
    let dotdot: [u8; 2] = [46, 46];
    assert(dotdot@ =~= parent_dir());
    let mut k: usize = 0;
    assert(safe_entry(entry@) == (if components(eb@).contains(parent_dir()) {
        None
    } else {
        Some(eb@)
    }));
    while k < comps.len()
        invariant
            safe_entry(entry@) == (if components(eb@).contains(parent_dir()) {
                None
            } else {
                Some(eb@)
            }),
            k <= comps@.len(),
            dotdot@ == parent_dir(),
            crate::paths::parts_view(comps@) == components(eb@),
            forall|j: int| 0 <= j < k ==> components(eb@)[j] != parent_dir(),
        decreases comps@.len() - k,
    {
        assert(crate::paths::parts_view(comps@)[k as int] == comps@[k as int]@);
        if bytes_eq(comps[k].as_slice(), &dotdot) {
            assert(components(eb@)[k as int] == parent_dir());
            assert(components(eb@).contains(parent_dir()));
            return None;
        }
        k = k + 1;
    }
    proof {
        if components(eb@).contains(parent_dir()) {
            let j = choose|j: int| 0 <= j < components(eb@).len() && components(eb@)[j] == parent_dir();
            assert(components(eb@)[j] != parent_dir());
        }
    }
    Some(e)
}

/// Zip-slip: an entry name that `safe_relative_entry` accepts, joined onto any
/// non-empty directory, names a path under that directory, none of whose
/// components past the directory's is `..`.
pub proof fn lemma_safe_entry_stays_under(entry: Seq<char>, root: Seq<u8>)
    requires
        root.len() > 0,
        safe_entry(entry) is Some,
    ensures
        ({
            let e = safe_entry(entry).unwrap();
            let joined = components(path_join(root, e));
            &&& !is_absolute(e)
            &&& path_starts_with(path_join(root, e), root)
            &&& forall|i: int|
                components(root).len() <= i < joined.len() ==> #[trigger] joined[i] != parent_dir()
        }),
{
    let e = safe_entry(entry).unwrap();
    lemma_join_components(root, e);
    let joined = components(path_join(root, e));
    let cr = components(root);
    assert(joined.subrange(0, cr.len() as int) =~= cr);
    assert forall|i: int| cr.len() <= i < joined.len() implies #[trigger] joined[i] != parent_dir() by {
        let k = i - cr.len();
        assert(joined[i] == normal_parts(e)[k]);
        lemma_normal_parts_in_components(e, k);
    }
}

// ---------------------------------------------------------------------------
// Archive allowlist
// ---------------------------------------------------------------------------

/// A jar/zip-like file name (given the lowercased path).
pub open spec fn archive_like_name(l: Seq<u8>) -> bool {
    ||| ends_with(l, "-sources.jar".spec_bytes())
    ||| ends_with(l, "sources.jar".spec_bytes())
    ||| ends_with(l, "src.zip".spec_bytes())
    ||| ends_with(l, "-src.zip".spec_bytes())
    ||| ends_with(l, ".jar".spec_bytes())
    ||| ends_with(l, ".zip".spec_bytes())
}

/// The path, or its lowercase form, starts with `p` or its lowercase form.
pub open spec fn under_prefix(s: Seq<u8>, l: Seq<u8>, p: Seq<u8>) -> bool {
    starts_with(s, p) || starts_with(l, lower(p))
}

/// Under one of the common system JDK locations (macOS / Linux).
pub open spec fn under_system_jdk(s: Seq<u8>, l: Seq<u8>) -> bool {
    ||| under_prefix(s, l, "/Library/Java/".spec_bytes())
    ||| under_prefix(s, l, "/opt/homebrew/".spec_bytes())
    ||| under_prefix(s, l, "/usr/lib/jvm/".spec_bytes())
    ||| under_prefix(s, l, "/usr/lib64/jvm/".spec_bytes())
    ||| under_prefix(s, l, "/usr/local/java/".spec_bytes())
    ||| under_prefix(s, l, "/opt/java/".spec_bytes())
    ||| under_prefix(s, l, "/opt/jdk".spec_bytes())
}

/// A Windows-style Program Files JDK (given the lowercased path).
pub open spec fn windows_jdk(l: Seq<u8>) -> bool {
    (contains_seq(l, "\\java\\".spec_bytes()) || contains_seq(l, "/java/".spec_bytes())) && (
    contains_seq(l, "program files".spec_bytes()) || contains_seq(l, "\\jdk".spec_bytes())
        || contains_seq(l, "/jdk".spec_bytes()))
}

/// A directory that may be absent, and whether `p` lies under it
/// (`Path::starts_with`).
pub open spec fn under_dir(p: Seq<u8>, dir: Option<Seq<u8>>) -> bool {
    match dir {
        Some(d) => path_starts_with(p, d),
        None => false,
    }
}

/// The directories that archives may live under, besides the system JDK
/// locations: `$HOME`, `$USERPROFILE` and `$JAVA_HOME`, where set.
pub struct TrustedDirs {
    pub home: Option<String>,
    pub userprofile: Option<String>,
    pub java_home: Option<String>,
}

pub open spec fn opt_string_bytes(o: Option<String>) -> Option<Seq<u8>> {
    match o {
        Some(s) => Some(encode_utf8(s@)),
        None => None,
    }
}

/// Whether a path (by its text) passes the allowlist: it has a jar/zip-like
/// name, and it lies under a trusted directory, under a system JDK location, or
/// in a Windows-style Java installation.
pub open spec fn lexically_allowed(s: Seq<u8>, dirs: TrustedDirs) -> bool {
    let l = lower(s);
    archive_like_name(l) && (under_dir(s, opt_string_bytes(dirs.home)) || under_dir(
        s,
        opt_string_bytes(dirs.userprofile),
    ) || under_dir(s, opt_string_bytes(dirs.java_home)) || under_system_jdk(s, l) || windows_jdk(
        l,
    ))
}

fn under_dir_exec(p: &[u8], dir: &Option<String>) -> (r: bool)
    ensures
        r == under_dir(p@, opt_string_bytes(*dir)),
{
    match dir {
        Some(d) => {
            let ds = d.as_str();
            proof {
                lemma_str_chars(ds);
            }
            starts_with_path(p, ds.as_bytes())
        },
        None => false,
    }
}

fn under_prefix_exec(s: &[u8], l: &[u8], p: &str) -> (r: bool)
    ensures
        r == under_prefix(s@, l@, p.spec_bytes()),
{
    let pl = lower_bytes(p.as_bytes());
    starts_with_bytes(s, p.as_bytes()) || starts_with_bytes(l, pl.as_slice())
}

/// The allowlist check on a path's text (see `lexically_allowed`).
pub fn lexical_allowed(path: &str, dirs: &TrustedDirs) -> (r: bool)
    ensures
        r == lexically_allowed(path.spec_bytes(), *dirs),
{
    let s = path.as_bytes();
    let lv = lower_bytes(s);
    let l = lv.as_slice();
    let name_ok = ends_with_bytes(l, "-sources.jar".as_bytes()) || ends_with_bytes(
        l,
        "sources.jar".as_bytes(),
    ) || ends_with_bytes(l, "src.zip".as_bytes()) || ends_with_bytes(l, "-src.zip".as_bytes())
        || ends_with_bytes(l, ".jar".as_bytes()) || ends_with_bytes(l, ".zip".as_bytes());
    if !name_ok {
        return false;
    }
    if under_dir_exec(s, &dirs.home) {
        return true;
    }
    if under_dir_exec(s, &dirs.userprofile) {
        return true;
    }
    if under_dir_exec(s, &dirs.java_home) {
        return true;
    }
    if under_prefix_exec(s, l, "/Library/Java/") || under_prefix_exec(s, l, "/opt/homebrew/")
        || under_prefix_exec(s, l, "/usr/lib/jvm/") || under_prefix_exec(s, l, "/usr/lib64/jvm/")
        || under_prefix_exec(s, l, "/usr/local/java/") || under_prefix_exec(s, l, "/opt/java/")
        || under_prefix_exec(s, l, "/opt/jdk") {
        return true;
    }
    (contains_bytes(l, "\\java\\".as_bytes()) || contains_bytes(l, "/java/".as_bytes())) && (
    contains_bytes(l, "program files".as_bytes()) || contains_bytes(l, "\\jdk".as_bytes())
        || contains_bytes(l, "/jdk".as_bytes()))
}

/// What the file system says about an archive path.
pub struct ArchiveFacts {
    /// `KOTLIN_LSP_PROXY_ALLOW_ANY_ARCHIVE` is set.
    pub allow_any: bool,
    /// The path names a regular file.
    pub is_file: bool,
    /// The canonical path's text, when the path can be canonicalized.
    pub canonical: Option<String>,
    /// The canonical path names a regular file.
    pub canonical_is_file: bool,
}

/// Whether an archive may be read: with `allow_any`, any regular file; else the
/// canonical path, which must be a regular file, passes the allowlist; a path
/// that cannot be canonicalized is checked as it is.
pub open spec fn archive_allowed(path: Seq<u8>, facts: ArchiveFacts, dirs: TrustedDirs) -> bool {
    if facts.allow_any {
        facts.is_file
    } else {
        match facts.canonical {
            None => lexically_allowed(path, dirs),
            Some(c) => facts.canonical_is_file && lexically_allowed(encode_utf8(c@), dirs),
        }
    }
}

/// Whether reading this archive path is allowed (see `archive_allowed`).
pub fn archive_path_allowed(path: &str, facts: &ArchiveFacts, dirs: &TrustedDirs) -> (r: bool)
    ensures
        r == archive_allowed(path.spec_bytes(), *facts, *dirs),
{
    if facts.allow_any {
        return facts.is_file;
    }
    match &facts.canonical {
        None => lexical_allowed(path, dirs),
        Some(c) => {
            if !facts.canonical_is_file {
                return false;
            }
            let cs = c.as_str();
            proof {
                lemma_str_chars(cs);
            }
            lexical_allowed(cs, dirs)
        },
    }
}

/// Allowlist prefixes of the system JDK locations, lowercase.
pub open spec fn system_jdk_prefixes() -> Seq<Seq<u8>> {
    seq![
        seq![47u8, 108, 105, 98, 114, 97, 114, 121, 47, 106, 97, 118, 97, 47],
        seq![47u8, 111, 112, 116, 47, 104, 111, 109, 101, 98, 114, 101, 119, 47],
        seq![47u8, 117, 115, 114, 47, 108, 105, 98, 47, 106, 118, 109, 47],
        seq![47u8, 117, 115, 114, 47, 108, 105, 98, 54, 52, 47, 106, 118, 109, 47],
        seq![47u8, 117, 115, 114, 47, 108, 111, 99, 97, 108, 47, 106, 97, 118, 97, 47],
        seq![47u8, 111, 112, 116, 47, 106, 97, 118, 97, 47],
        seq![47u8, 111, 112, 116, 47, 106, 100, 107],
    ]
}

proof fn lemma_ends_with_trans(l: Seq<u8>, p: Seq<u8>, q: Seq<u8>)
    requires
        ends_with(p, q),
    ensures
        ends_with(l, p) ==> ends_with(l, q),
{
    if ends_with(l, p) {
        assert(l.subrange(l.len() - q.len(), l.len() as int) =~= p.subrange(
            p.len() - q.len(),
            p.len() as int,
        ));
    }
}

/// The allowlist, on a path's text: only names ending in `.jar` or `.zip`
/// (ignoring ASCII case) pass; such a name passes under `$HOME`,
/// `$USERPROFILE` or `$JAVA_HOME`, and under each system JDK location
/// (`/library/java/`, `/opt/homebrew/`, `/usr/lib/jvm/`, `/usr/lib64/jvm/`,
/// `/usr/local/java/`, `/opt/java/`, `/opt/jdk`, ignoring ASCII case), and
/// in a Java directory (`\java\` or `/java/`) under `program files` or a
/// `jdk` directory.
pub proof fn lemma_allowlist(s: Seq<u8>, dirs: TrustedDirs, k: int)
    ensures
        lexically_allowed(s, dirs) ==> ends_with(lower(s), seq![46u8, 106, 97, 114]) || ends_with(
            lower(s),
            seq![46u8, 122, 105, 112],
        ),
        ends_with(lower(s), seq![46u8, 106, 97, 114]) || ends_with(lower(s), seq![46u8, 122, 105, 112]) ==> {
            &&& (under_dir(s, opt_string_bytes(dirs.home)) || under_dir(
                s,
                opt_string_bytes(dirs.userprofile),
            ) || under_dir(s, opt_string_bytes(dirs.java_home))) ==> lexically_allowed(s, dirs)
            &&& (0 <= k < system_jdk_prefixes().len() && starts_with(
                lower(s),
                system_jdk_prefixes()[k],
            )) ==> lexically_allowed(s, dirs)
        
            &&& ((contains_seq(lower(s), seq![92u8, 106, 97, 118, 97, 92]) || contains_seq(lower(s), seq![47u8, 106, 97, 118, 97, 47])) && (
            contains_seq(lower(s), seq![112u8, 114, 111, 103, 114, 97, 109, 32, 102, 105, 108, 101, 115]) || contains_seq(lower(s), seq![92u8, 106, 100, 107])
                || contains_seq(lower(s), seq![47u8, 106, 100, 107]))) ==> lexically_allowed(s, dirs)
        },
{
    reveal_strlit("\\java\\");
    assert("\\java\\"@ =~= ascii_chars(seq![92u8, 106, 97, 118, 97, 92]));
    lemma_literal_bytes("\\java\\", seq![92u8, 106, 97, 118, 97, 92]);
    reveal_strlit("/java/");
    assert("/java/"@ =~= ascii_chars(seq![47u8, 106, 97, 118, 97, 47]));
    lemma_literal_bytes("/java/", seq![47u8, 106, 97, 118, 97, 47]);
    reveal_strlit("program files");
    assert("program files"@ =~= ascii_chars(seq![112u8, 114, 111, 103, 114, 97, 109, 32, 102, 105, 108, 101, 115]));
    lemma_literal_bytes("program files", seq![112u8, 114, 111, 103, 114, 97, 109, 32, 102, 105, 108, 101, 115]);
    reveal_strlit("\\jdk");
    assert("\\jdk"@ =~= ascii_chars(seq![92u8, 106, 100, 107]));
    lemma_literal_bytes("\\jdk", seq![92u8, 106, 100, 107]);
    reveal_strlit("/jdk");
    assert("/jdk"@ =~= ascii_chars(seq![47u8, 106, 100, 107]));
    lemma_literal_bytes("/jdk", seq![47u8, 106, 100, 107]);
    reveal_strlit("-sources.jar");
    assert("-sources.jar"@ =~= ascii_chars(seq![45u8, 115, 111, 117, 114, 99, 101, 115, 46, 106, 97, 114]));
    lemma_literal_bytes("-sources.jar", seq![45u8, 115, 111, 117, 114, 99, 101, 115, 46, 106, 97, 114]);
    reveal_strlit("sources.jar");
    assert("sources.jar"@ =~= ascii_chars(seq![115u8, 111, 117, 114, 99, 101, 115, 46, 106, 97, 114]));
    lemma_literal_bytes("sources.jar", seq![115u8, 111, 117, 114, 99, 101, 115, 46, 106, 97, 114]);
    reveal_strlit("src.zip");
    assert("src.zip"@ =~= ascii_chars(seq![115u8, 114, 99, 46, 122, 105, 112]));
    lemma_literal_bytes("src.zip", seq![115u8, 114, 99, 46, 122, 105, 112]);
    reveal_strlit("-src.zip");
    assert("-src.zip"@ =~= ascii_chars(seq![45u8, 115, 114, 99, 46, 122, 105, 112]));
    lemma_literal_bytes("-src.zip", seq![45u8, 115, 114, 99, 46, 122, 105, 112]);
    reveal_strlit(".jar");
    assert(".jar"@ =~= ascii_chars(seq![46u8, 106, 97, 114]));
    lemma_literal_bytes(".jar", seq![46u8, 106, 97, 114]);
    reveal_strlit(".zip");
    assert(".zip"@ =~= ascii_chars(seq![46u8, 122, 105, 112]));
    lemma_literal_bytes(".zip", seq![46u8, 122, 105, 112]);
    reveal_strlit("/Library/Java/");
    assert("/Library/Java/"@ =~= ascii_chars(seq![47u8, 76, 105, 98, 114, 97, 114, 121, 47, 74, 97, 118, 97, 47]));
    lemma_literal_bytes("/Library/Java/", seq![47u8, 76, 105, 98, 114, 97, 114, 121, 47, 74, 97, 118, 97, 47]);
    reveal_strlit("/opt/homebrew/");
    assert("/opt/homebrew/"@ =~= ascii_chars(seq![47u8, 111, 112, 116, 47, 104, 111, 109, 101, 98, 114, 101, 119, 47]));
    lemma_literal_bytes("/opt/homebrew/", seq![47u8, 111, 112, 116, 47, 104, 111, 109, 101, 98, 114, 101, 119, 47]);
    reveal_strlit("/usr/lib/jvm/");
    assert("/usr/lib/jvm/"@ =~= ascii_chars(seq![47u8, 117, 115, 114, 47, 108, 105, 98, 47, 106, 118, 109, 47]));
    lemma_literal_bytes("/usr/lib/jvm/", seq![47u8, 117, 115, 114, 47, 108, 105, 98, 47, 106, 118, 109, 47]);
    reveal_strlit("/usr/lib64/jvm/");
    assert("/usr/lib64/jvm/"@ =~= ascii_chars(seq![47u8, 117, 115, 114, 47, 108, 105, 98, 54, 52, 47, 106, 118, 109, 47]));
    lemma_literal_bytes("/usr/lib64/jvm/", seq![47u8, 117, 115, 114, 47, 108, 105, 98, 54, 52, 47, 106, 118, 109, 47]);
    reveal_strlit("/usr/local/java/");
    assert("/usr/local/java/"@ =~= ascii_chars(seq![47u8, 117, 115, 114, 47, 108, 111, 99, 97, 108, 47, 106, 97, 118, 97, 47]));
    lemma_literal_bytes("/usr/local/java/", seq![47u8, 117, 115, 114, 47, 108, 111, 99, 97, 108, 47, 106, 97, 118, 97, 47]);
    reveal_strlit("/opt/java/");
    assert("/opt/java/"@ =~= ascii_chars(seq![47u8, 111, 112, 116, 47, 106, 97, 118, 97, 47]));
    lemma_literal_bytes("/opt/java/", seq![47u8, 111, 112, 116, 47, 106, 97, 118, 97, 47]);
    reveal_strlit("/opt/jdk");
    assert("/opt/jdk"@ =~= ascii_chars(seq![47u8, 111, 112, 116, 47, 106, 100, 107]));
    lemma_literal_bytes("/opt/jdk", seq![47u8, 111, 112, 116, 47, 106, 100, 107]);
    assert(lower(seq![47u8, 76, 105, 98, 114, 97, 114, 121, 47, 74, 97, 118, 97, 47]) =~= seq![47u8, 108, 105, 98, 114, 97, 114, 121, 47, 106, 97, 118, 97, 47]);
    assert(lower(seq![47u8, 111, 112, 116, 47, 104, 111, 109, 101, 98, 114, 101, 119, 47]) =~= seq![47u8, 111, 112, 116, 47, 104, 111, 109, 101, 98, 114, 101, 119, 47]);
    assert(lower(seq![47u8, 117, 115, 114, 47, 108, 105, 98, 47, 106, 118, 109, 47]) =~= seq![47u8, 117, 115, 114, 47, 108, 105, 98, 47, 106, 118, 109, 47]);
    assert(lower(seq![47u8, 117, 115, 114, 47, 108, 105, 98, 54, 52, 47, 106, 118, 109, 47]) =~= seq![47u8, 117, 115, 114, 47, 108, 105, 98, 54, 52, 47, 106, 118, 109, 47]);
    assert(lower(seq![47u8, 117, 115, 114, 47, 108, 111, 99, 97, 108, 47, 106, 97, 118, 97, 47]) =~= seq![47u8, 117, 115, 114, 47, 108, 111, 99, 97, 108, 47, 106, 97, 118, 97, 47]);
    assert(lower(seq![47u8, 111, 112, 116, 47, 106, 97, 118, 97, 47]) =~= seq![47u8, 111, 112, 116, 47, 106, 97, 118, 97, 47]);
    assert(lower(seq![47u8, 111, 112, 116, 47, 106, 100, 107]) =~= seq![47u8, 111, 112, 116, 47, 106, 100, 107]);
    assert(seq![45u8, 115, 111, 117, 114, 99, 101, 115, 46, 106, 97, 114].subrange(8, 12) =~= seq![46u8, 106, 97, 114]);
    lemma_ends_with_trans(lower(s), seq![45u8, 115, 111, 117, 114, 99, 101, 115, 46, 106, 97, 114], seq![46u8, 106, 97, 114]);
    assert(seq![115u8, 111, 117, 114, 99, 101, 115, 46, 106, 97, 114].subrange(7, 11) =~= seq![46u8, 106, 97, 114]);
    lemma_ends_with_trans(lower(s), seq![115u8, 111, 117, 114, 99, 101, 115, 46, 106, 97, 114], seq![46u8, 106, 97, 114]);
    assert(seq![115u8, 114, 99, 46, 122, 105, 112].subrange(3, 7) =~= seq![46u8, 122, 105, 112]);
    lemma_ends_with_trans(lower(s), seq![115u8, 114, 99, 46, 122, 105, 112], seq![46u8, 122, 105, 112]);
    assert(seq![45u8, 115, 114, 99, 46, 122, 105, 112].subrange(4, 8) =~= seq![46u8, 122, 105, 112]);
    lemma_ends_with_trans(lower(s), seq![45u8, 115, 114, 99, 46, 122, 105, 112], seq![46u8, 122, 105, 112]);
}

/// What an accepted entry looks like: a non-empty relative path that starts
/// with neither `/` nor `\`, has no `..` component, and is the trimmed entry
/// with at most one leading `/` removed.
pub proof fn lemma_safe_entry_shape(entry: Seq<char>)
    ensures
        safe_entry(entry) matches Some(p) ==> {
            let t = encode_utf8(trim_chars(entry));
            &&& p.len() > 0
            &&& p[0] != 47 && p[0] != 92
            &&& !components(p).contains(seq![46u8, 46])
            &&& (p == t || (t.len() > 0 && t[0] == 47 && p == t.subrange(1, t.len() as int)))
        },
{
    assert(parent_dir() =~= seq![46u8, 46]);
}

} // verus!
