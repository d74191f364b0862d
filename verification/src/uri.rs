//! Archive URIs (`jar:///…/lib.jar!/pkg/File.java`, `file://…zip!/…`, `%21`, …):
//! recognising them, percent-decoding, and splitting them into the archive's
//! file-system path and the entry inside it.

use vstd::prelude::*;
use vstd::string::StringSliceAdditionalSpecFns;
use vstd::utf8::*;

use crate::cache::{cache_file_for, cache_file_path, ArchiveStamp};
use crate::paths::{is_absolute, join, path_join, path_starts_with};
use crate::security::{archive_allowed, archive_path_allowed, ArchiveFacts, TrustedDirs};
use crate::security::{safe_entry, safe_relative_entry};
use crate::text::{
    all_ascii, ascii_chars, concat_strs, contains_bytes, contains_seq, find_bytes, find_first,
    lemma_ascii_boundary, lemma_ascii_utf8, lemma_literal_bytes,
    lemma_boundary_after_ascii, lemma_find_from, lemma_str_chars, lossy_string, lossy_text, lower,
    lower_byte, lower_bytes, occurs_at, starts_with, starts_with_bytes, str_slice, strip_prefix_str, text_bytes,
    trim, trim_chars,
};

verus! {

broadcast use vstd::utf8::encode_utf8_valid_utf8;

// ---------------------------------------------------------------------------
// Percent-decoding
// ---------------------------------------------------------------------------

/// The value of an ASCII hex digit.
pub open spec fn hex_value(b: u8) -> Option<u8> {
    if 48 <= b <= 57 {
        Some((b - 48) as u8)
    } else if 97 <= b <= 102 {
        Some((b - 87) as u8)
    } else if 65 <= b <= 70 {
        Some((b - 55) as u8)
    } else {
        None
    }
}

/// The value of an ASCII hex digit.
pub fn from_hex(b: u8) -> (r: Option<u8>)
    ensures
        r == hex_value(b),
{
    if 48 <= b && b <= 57 {
        Some(b - 48)
    } else if 97 <= b && b <= 102 {
        Some(b - 87)
    } else if 65 <= b && b <= 70 {
        Some(b - 55)
    } else {
        None
    }
}

/// Each `%XY` with two hex digits becomes the byte `0xXY`; every other byte is
/// kept.
pub open spec fn percent_decoded(s: Seq<u8>) -> Seq<u8>
    decreases s.len(),
{
    if s.len() == 0 {
        seq![]
    } else if s[0] == 37 && s.len() > 2 && hex_value(s[1]) is Some && hex_value(s[2]) is Some {
        seq![(hex_value(s[1]).unwrap() * 16 + hex_value(s[2]).unwrap()) as u8] + percent_decoded(
            s.subrange(3, s.len() as int),
        )
    } else {
        seq![s[0]] + percent_decoded(s.subrange(1, s.len() as int))
    }
}

/// Decodes `%XY` escapes; the decoded bytes are read as text with
/// `String::from_utf8_lossy`.
pub fn percent_decode(input: &str) -> (r: String)
    ensures
        r@ == lossy_text(percent_decoded(input.spec_bytes())),
{
    let bytes = input.as_bytes();
    let ghost b = bytes@;
    let mut out: Vec<u8> = Vec::new();
    let mut i: usize = 0;
    assert(b.subrange(0, b.len() as int) =~= b);
    while i < bytes.len()
        invariant
            b == bytes@,
            i <= b.len(),
            percent_decoded(b) == out@ + percent_decoded(b.subrange(i as int, b.len() as int)),
        decreases b.len() - i,
    {
        let ghost rest = b.subrange(i as int, b.len() as int);
        if bytes[i] == 37 && bytes.len() - i > 2 {
            let h = from_hex(bytes[i + 1]);
            let l = from_hex(bytes[i + 2]);
            if let (Some(h), Some(l)) = (h, l) {
                proof {
                    assert(rest[0] == 37 && rest[1] == bytes@[i + 1] && rest[2] == bytes@[i + 2]);
                    assert(rest.subrange(3, rest.len() as int) =~= b.subrange(i + 3, b.len() as int));
                    assert(h < 16 && l < 16);
                }
                out.push(h * 16 + l);
                i = i + 3;
                assert(percent_decoded(b) =~= out@ + percent_decoded(b.subrange(i as int, b.len() as int)));
                continue;
            }
        }
        proof {
            assert(rest[0] == bytes@[i as int]);
            if rest[0] == 37 && rest.len() > 2 {
                assert(rest[1] == bytes@[i + 1] && rest[2] == bytes@[i + 2]);
            }
            assert(rest.subrange(1, rest.len() as int) =~= b.subrange(i + 1, b.len() as int));
        }
        out.push(bytes[i]);
        i = i + 1;
        assert(percent_decoded(b) =~= out@ + percent_decoded(b.subrange(i as int, b.len() as int)));
    }
    assert(b.subrange(i as int, b.len() as int) =~= Seq::<u8>::empty());
    assert(out@ =~= percent_decoded(b));
    lossy_string(out.as_slice())
}

// ---------------------------------------------------------------------------
// Recognising archive URIs
// ---------------------------------------------------------------------------

/// Names a `.jar` or `.zip`, or starts with `jar:` (given lowercased text).
pub open spec fn names_archive(lower_text: Seq<u8>) -> bool {
    ||| contains_seq(lower_text, ".jar".spec_bytes())
    ||| contains_seq(lower_text, ".zip".spec_bytes())
    ||| starts_with(lower_text, "jar:".spec_bytes())
}

/// A string that looks like an archive URI: it names an archive (ignoring ASCII
/// case) and holds a `!` or, ignoring case, `%21`.
pub open spec fn is_archive_uri_text(b: Seq<u8>) -> bool {
    names_archive(lower(b)) && (contains_seq(b, seq!['!' as u8]) || contains_seq(
        lower(b),
        "%21".spec_bytes(),
    ))
}

pub fn looks_like_archive_uri(s: &str) -> (r: bool)
    ensures
        r == is_archive_uri_text(s.spec_bytes()),
{
    let b = s.as_bytes();
    let lower_v = lower_bytes(b);
    let l = lower_v.as_slice();
    let bang: [u8; 1] = ['!' as u8];
    assert(bang@ =~= seq!['!' as u8]);
    (contains_bytes(l, ".jar".as_bytes()) || contains_bytes(l, ".zip".as_bytes())
        || starts_with_bytes(l, "jar:".as_bytes())) && (contains_bytes(b, &bang) || contains_bytes(
        l,
        "%21".as_bytes(),
    ))
}

/// `needle` is non-empty and occurs in `haystack`.
pub open spec fn contains_nonempty(haystack: Seq<u8>, needle: Seq<u8>) -> bool {
    needle.len() > 0 && contains_seq(haystack, needle)
}

/// Whether `needle` is non-empty and occurs in `haystack`.
pub fn contains(haystack: &[u8], needle: &[u8]) -> (r: bool)
    ensures
        r == contains_nonempty(haystack@, needle@),
{
    if needle.len() == 0 || haystack.len() < needle.len() {
        proof {
            if needle.len() > 0 {
                assert forall|i: int| !occurs_at(haystack@, needle@, i) by {}
            }
        }
        return false;
    }
    contains_bytes(haystack, needle)
}

/// A message body that may hold an archive URI: one of the archive markers
/// occurs in it.
pub open spec fn body_mentions_archive(body: Seq<u8>) -> bool {
    ||| contains_nonempty(body, ".jar!".spec_bytes())
    ||| contains_nonempty(body, ".zip!".spec_bytes())
    ||| contains_nonempty(body, ".JAR!".spec_bytes())
    ||| contains_nonempty(body, ".ZIP!".spec_bytes())
    ||| contains_nonempty(body, ".jar%21".spec_bytes())
    ||| contains_nonempty(body, ".zip%21".spec_bytes())
    ||| contains_nonempty(body, ".jar%2521".spec_bytes())
    ||| contains_nonempty(body, "jar:file:".spec_bytes())
    ||| contains_nonempty(body, "jar://".spec_bytes())
}

pub fn body_has_archive_uri(body: &[u8]) -> (r: bool)
    ensures
        r == body_mentions_archive(body@),
{
    contains(body, ".jar!".as_bytes()) || contains(body, ".zip!".as_bytes()) || contains(
        body,
        ".JAR!".as_bytes(),
    ) || contains(body, ".ZIP!".as_bytes()) || contains(body, ".jar%21".as_bytes()) || contains(
        body,
        ".zip%21".as_bytes(),
    ) || contains(body, ".jar%2521".as_bytes()) || contains(body, "jar:file:".as_bytes())
        || contains(body, "jar://".as_bytes())
}

// ---------------------------------------------------------------------------
// From URI prefix to file-system path
// ---------------------------------------------------------------------------

/// `s` without a leading `p`, if it has one.
pub open spec fn strip_seq(s: Seq<u8>, p: Seq<u8>) -> Seq<u8> {
    if starts_with(s, p) {
        s.subrange(p.len() as int, s.len() as int)
    } else {
        s
    }
}

/// `s` without the first of `jar:file://`, `jar://`, `file://` that it starts with.
pub open spec fn strip_scheme(s: Seq<u8>) -> Seq<u8> {
    if starts_with(s, "jar:file://".spec_bytes()) {
        strip_seq(s, "jar:file://".spec_bytes())
    } else if starts_with(s, "jar://".spec_bytes()) {
        strip_seq(s, "jar://".spec_bytes())
    } else {
        strip_seq(s, "file://".spec_bytes())
    }
}

pub open spec fn opt_bytes(o: Option<&str>) -> Option<Seq<u8>> {
    match o {
        Some(s) => Some(s.spec_bytes()),
        None => None,
    }
}

/// The file-system path that the part of an archive URI before the `!` names:
/// trimmed, without its scheme (`jar:file://`, `jar://` or `file://`) and a
/// following `localhost`, percent-decoded; a leading `~/` is resolved against
/// the home directory when one is known. `None` when nothing is left.
pub open spec fn uri_prefix_path(raw: Seq<char>, home: Option<Seq<u8>>) -> Option<Seq<u8>> {
    let t = strip_scheme(encode_utf8(trim_chars(raw)));
    let t2 = strip_seq(t, "localhost".spec_bytes());
    let d = text_bytes(percent_decoded(t2));
    if d.len() == 0 {
        None
    } else if starts_with(d, seq!['~' as u8, '/' as u8]) && home is Some {
        Some(path_join(home.unwrap(), d.subrange(2, d.len() as int)))
    } else {
        Some(d)
    }
}

/// `s` without one leading `p`, if it starts with `p`.
fn strip_one<'a>(s: &'a str, p: &str) -> (r: &'a str)
    ensures
        r.spec_bytes() == strip_seq(s.spec_bytes(), p.spec_bytes()),
{
    match strip_prefix_str(s, p) {
        Some(x) => x,
        None => s,
    }
}

/// The file-system path named by the part of an archive URI before the `!`
/// (the home directory stands in for a leading `~/`).
pub fn filesystem_path_from_uri_prefix(raw: &str, home: Option<&str>) -> (r: Option<String>)
    ensures
        match r {
            Some(p) => uri_prefix_path(raw@, opt_bytes(home)) == Some(encode_utf8(p@)),
            None => uri_prefix_path(raw@, opt_bytes(home)) is None,
        },
{
    let t = trim(raw);
    proof {
        lemma_str_chars(t);
    }
    let t1 = if starts_with_bytes(t.as_bytes(), "jar:file://".as_bytes()) {
        strip_one(t, "jar:file://")
    } else if starts_with_bytes(t.as_bytes(), "jar://".as_bytes()) {
        strip_one(t, "jar://")
    } else {
        strip_one(t, "file://")
    };
    let t2 = strip_one(t1, "localhost");
    let decoded = percent_decode(t2);
    let d = decoded.as_str();
    let db = d.as_bytes();
    proof {
        lemma_str_chars(d);
    }
    if db.len() == 0 {
        return None;
    }
    let tilde: [u8; 2] = ['~' as u8, '/' as u8];
    assert(tilde@ =~= seq!['~' as u8, '/' as u8]);
    if starts_with_bytes(db, &tilde) {
        if let Some(h) = home {
            proof {
                lemma_boundary_after_ascii(db@, 2);
                is_char_boundary_start_end_of_seq(db@);
                lemma_ascii_boundary(db@, db@.len() as int);
            }
            let rest = str_slice(d, 2, db.len());
            return Some(join(h, rest));
        }
    }
    Some(decoded)
}

// ---------------------------------------------------------------------------
// Splitting archive references
// ---------------------------------------------------------------------------

/// The number of leading `c` bytes in `s`.
pub open spec fn leading_count(s: Seq<u8>, c: u8) -> nat
    decreases s.len(),
{
    if s.len() > 0 && s[0] == c {
        1 + leading_count(s.subrange(1, s.len() as int), c)
    } else {
        0
    }
}

/// `s` without all its leading `c` bytes (`trim_start_matches(c)`).
pub open spec fn trim_leading(s: Seq<u8>, c: u8) -> Seq<u8> {
    s.subrange(leading_count(s, c) as int, s.len() as int)
}

proof fn lemma_leading_count(s: Seq<u8>, c: u8, k: int)
    requires
        0 <= k <= s.len(),
        forall|j: int| 0 <= j < k ==> #[trigger] s[j] == c,
        k == s.len() || s[k] != c,
    ensures
        leading_count(s, c) == k,
    decreases k,
{
    if k > 0 {
        lemma_leading_count(s.subrange(1, s.len() as int), c, k - 1);
    }
}

/// `s` without its leading `c` bytes; `c` is ASCII.
pub fn trim_leading_str(s: &str, c: u8) -> (r: &str)
    requires
        c < 0x80,
    ensures
        r.spec_bytes() == trim_leading(s.spec_bytes(), c),
{
    let b = s.as_bytes();
    let mut k: usize = 0;
    while k < b.len() && b[k] == c
        invariant
            k <= b@.len(),
            forall|j: int| 0 <= j < k ==> #[trigger] b@[j] == c,
        decreases b@.len() - k,
    {
        k = k + 1;
    }
    proof {
        lemma_leading_count(b@, c, k as int);
        if k > 0 {
            lemma_boundary_after_ascii(b@, k as int);
        } else {
            is_char_boundary_start_end_of_seq(b@);
        }
        lemma_ascii_boundary(b@, b@.len() as int);
    }
    str_slice(s, k, b.len())
}

/// How an archive reference splits: the text is percent-decoded; it splits at
/// its first `!`; the entry is what follows, without leading `!` and then
/// leading `/`; the part before names an archive (`.jar`, `.zip`, or `jar:`
/// ignoring case) and a file-system path (see `uri_prefix_path`). `None` when
/// there is no `!`, the entry is empty, no archive is named, or no path is
/// left.
pub open spec fn archive_ref_parts(uri: Seq<u8>, home: Option<Seq<u8>>) -> Option<(Seq<u8>, Seq<u8>)> {
    let d = text_bytes(percent_decoded(uri));
    match find_first(d, seq!['!' as u8]) {
        None => None,
        Some(k) => {
            let left = d.subrange(0, k);
            let entry = trim_leading(trim_leading(d.subrange(k, d.len() as int), '!' as u8), '/' as u8);
            if entry.len() == 0 {
                None
            } else if !names_archive(lower(left)) {
                None
            } else {
                match uri_prefix_path(decode_utf8(left), home) {
                    Some(p) => Some((p, entry)),
                    None => None,
                }
            }
        },
    }
}

/// What is left after trimming `c` does not start with `c`.
proof fn lemma_trim_leading_first(s: Seq<u8>, c: u8)
    ensures
        leading_count(s, c) <= s.len(),
        trim_leading(s, c).len() > 0 ==> trim_leading(s, c)[0] != c,
    decreases s.len(),
{
    if s.len() > 0 && s[0] == c {
        let t = s.subrange(1, s.len() as int);
        lemma_trim_leading_first(t, c);
        assert(trim_leading(s, c) =~= trim_leading(t, c));
    }
}

/// The entry of an archive reference is never empty and never starts with
/// `/`, so it names a path inside the archive.
pub proof fn lemma_archive_ref_entry(uri: Seq<u8>, home: Option<Seq<u8>>)
    ensures
        archive_ref_parts(uri, home) matches Some((p, e)) ==> e.len() > 0 && e[0] != '/' as u8,
{
    let d = text_bytes(percent_decoded(uri));
    if let Some(k) = find_first(d, seq!['!' as u8]) {
        let rest = trim_leading(d.subrange(k, d.len() as int), '!' as u8);
        lemma_trim_leading_first(rest, '/' as u8);
    }
}

/// Splits an archive reference into the archive's file-system path and the
/// entry inside it (see `archive_ref_parts`).
pub fn split_archive_ref(uri: &str, home: Option<&str>) -> (r: Option<(String, String)>)
    ensures
        match r {
            Some((p, e)) => archive_ref_parts(uri.spec_bytes(), opt_bytes(home)) == Some(
                (encode_utf8(p@), encode_utf8(e@)),
            ),
            None => archive_ref_parts(uri.spec_bytes(), opt_bytes(home)) is None,
        },
{
    let decoded = percent_decode(uri);
    let d = decoded.as_str();
    let db = d.as_bytes();
    proof {
        lemma_str_chars(d);
    }
    let bang: [u8; 1] = ['!' as u8];
    assert(bang@ =~= seq!['!' as u8]);
    let k = match find_bytes(db, &bang, 0) {
        Some(k) => k,
        None => {
            return None;
        },
    };
    proof {
        lemma_find_from(db@, bang@, 0);
        assert(db@.subrange(k as int, k + 1)[0] == db@[k as int]);
        lemma_ascii_boundary(db@, k as int);
        is_char_boundary_start_end_of_seq(db@);
        lemma_ascii_boundary(db@, db@.len() as int);
    }
    let left = str_slice(d, 0, k);
    let right = str_slice(d, k, db.len());
    let entry = trim_leading_str(trim_leading_str(right, '!' as u8), '/' as u8);
    if entry.as_bytes().len() == 0 {
        return None;
    }
    let left_lower = lower_bytes(left.as_bytes());
    let ll = left_lower.as_slice();
    let looks_like_archive = contains_bytes(ll, ".jar".as_bytes()) || contains_bytes(
        ll,
        ".zip".as_bytes(),
    ) || starts_with_bytes(ll, "jar:".as_bytes());
    if !looks_like_archive {
        return None;
    }
    proof {
        lemma_str_chars(left);
    }
    match filesystem_path_from_uri_prefix(left, home) {
        Some(path) => {
            let e = entry.to_owned();
            proof {
                lemma_str_chars(entry);
            }
            Some((path, e))
        },
        None => None,
    }
}

// ---------------------------------------------------------------------------
// File URIs
// ---------------------------------------------------------------------------

/// `file://` followed by the path.
pub open spec fn file_uri_of(path: Seq<u8>) -> Seq<u8> {
    "file://".spec_bytes() + path
}

/// The `file://` URI of a Unix path.
pub fn path_to_file_uri(path: &str) -> (r: String)
    ensures
        encode_utf8(r@) == file_uri_of(path.spec_bytes()),
{
    concat_strs("file://", path)
}

// ---------------------------------------------------------------------------
// Materializing: what is extracted, and from which archive member
// ---------------------------------------------------------------------------

/// The archive and the entry to extract for an archive URI: the parts of
/// `split_archive_ref`, with the entry as `safe_relative_entry` keeps it.
/// `None` when the URI does not split or the entry could escape the cache.
pub open spec fn materialize_target_spec(uri: Seq<u8>, home: Option<Seq<u8>>) -> Option<(Seq<u8>, Seq<u8>)> {
    match archive_ref_parts(uri, home) {
        None => None,
        Some((p, e)) => match safe_entry(decode_utf8(e)) {
            None => None,
            Some(se) => Some((p, se)),
        },
    }
}

/// The archive's file-system path and the safe entry name for an archive URI
/// (see `materialize_target_spec`); the rest of materializing is file work.
pub fn materialize_target(uri: &str, home: Option<&str>) -> (r: Option<(String, String)>)
    ensures
        match r {
            Some((p, e)) => materialize_target_spec(uri.spec_bytes(), opt_bytes(home)) == Some(
                (encode_utf8(p@), encode_utf8(e@)),
            ),
            None => materialize_target_spec(uri.spec_bytes(), opt_bytes(home)) is None,
        },
{
    let (path, entry) = match split_archive_ref(uri, home) {
        Some(parts) => parts,
        None => {
            return None;
        },
    };
    let es = entry.as_str();
    proof {
        lemma_str_chars(es);
        vstd::utf8::decode_utf8_encode_utf8(es.spec_bytes());
    }
    match safe_relative_entry(es) {
        Some(safe) => {
            let e = safe.to_owned();
            proof {
                lemma_str_chars(safe);
                vstd::utf8::decode_utf8_encode_utf8(safe.spec_bytes());
            }
            Some((path, e))
        },
        None => None,
    }
}

/// Why an archive entry is not extracted.
pub enum ExtractionRefusal {
    /// The archive is not on the allowlist.
    NotAllowed,
    /// The archive is not a regular file.
    Missing,
}

/// Where an archive entry is to be extracted, checked before any extraction:
/// the archive must pass the allowlist (`archive_path_allowed`) and then be a
/// regular file; only then is the cache file named (`cache_file_for`).
pub fn extraction_target(
    archive: &str,
    entry: &str,
    facts: &ArchiveFacts,
    dirs: &TrustedDirs,
    archive_is_file: bool,
    root: &str,
    stamp: &Option<ArchiveStamp>,
) -> (r: Result<String, ExtractionRefusal>)
    ensures
        !archive_allowed(archive.spec_bytes(), *facts, *dirs) ==> r matches Err(
            ExtractionRefusal::NotAllowed,
        ),
        archive_allowed(archive.spec_bytes(), *facts, *dirs) && !archive_is_file ==> r matches Err(
            ExtractionRefusal::Missing,
        ),
        archive_allowed(archive.spec_bytes(), *facts, *dirs) && archive_is_file ==> (r matches Ok(c)
            && encode_utf8(c@) == cache_file_path(
            root.spec_bytes(),
            archive.spec_bytes(),
            *stamp,
            entry.spec_bytes(),
        ) && (root.spec_bytes().len() > 0 && !is_absolute(entry.spec_bytes()) ==> path_starts_with(
            encode_utf8(c@),
            root.spec_bytes(),
        ))),
{
    if !archive_path_allowed(archive, facts, dirs) {
        return Err(ExtractionRefusal::NotAllowed);
    }
    if !archive_is_file {
        return Err(ExtractionRefusal::Missing);
    }
    Ok(cache_file_for(root, archive, stamp, entry))
}

/// The URI to hand back for an extracted file, given what its metadata showed
/// (`None` when it could not be read; else whether it is a file, and its
/// length): its `file://` URI when it is a non-empty file, `None` otherwise.
pub fn materialized_uri(cache_file: &str, meta: Option<(bool, u64)>) -> (r: Option<String>)
    ensures
        match meta {
            Some((is_file, len)) if is_file && len > 0 => r is Some && encode_utf8(r->0@)
                == file_uri_of(cache_file.spec_bytes()),
            _ => r is None,
        },
{
    match meta {
        Some((is_file, len)) => {
            if is_file && len > 0 {
                Some(path_to_file_uri(cache_file))
            } else {
                None
            }
        },
        None => None,
    }
}

/// A member of an opened archive, in index order: its name, and whether it
/// can be opened for reading.
pub struct ZipMember {
    pub name: String,
    pub readable: bool,
}

/// The position of the first member named `c`, or the member count.
pub open spec fn name_pos(m: Seq<ZipMember>, c: Seq<char>, i: int) -> int
    decreases m.len() - i,
{
    if i < 0 || i >= m.len() || m[i].name@ == c {
        i
    } else {
        name_pos(m, c, i + 1)
    }
}

/// Whether opening the member named `c` succeeds: there is one, and it reads.
pub open spec fn opens_by_name(m: Seq<ZipMember>, c: Seq<char>) -> bool {
    let k = name_pos(m, c, 0);
    0 <= k < m.len() && m[k].readable
}

/// The names tried first for an entry, in order: as given, without its
/// leading `/`, and with one more leading `/`.
pub open spec fn entry_candidates_spec(entry: Seq<char>) -> Seq<Seq<char>> {
    seq![entry, decode_utf8(trim_leading(encode_utf8(entry), 47)), "/"@ + entry]
}

/// The first of `cands[i..]` that opens.
pub open spec fn first_opening(m: Seq<ZipMember>, cands: Seq<Seq<char>>, i: int) -> Option<Seq<char>>
    decreases cands.len() - i,
{
    if i < 0 || i >= cands.len() {
        None
    } else if opens_by_name(m, cands[i]) {
        Some(cands[i])
    } else {
        first_opening(m, cands, i + 1)
    }
}

/// A name compared loosely: without leading `/`, ASCII lowercase.
pub open spec fn loose_key(s: Seq<char>) -> Seq<u8> {
    lower(trim_leading(encode_utf8(s), 47))
}

/// Where the scan by index stops: at the first member that cannot be read, or
/// that is safe and matches `target` loosely; the member count when none does.
pub open spec fn scan_stop(m: Seq<ZipMember>, target: Seq<u8>, i: int) -> int
    decreases m.len() - i,
{
    if i < 0 || i >= m.len() {
        i
    } else if !m[i].readable || (safe_entry(m[i].name@) is Some && loose_key(m[i].name@) == target) {
        i
    } else {
        scan_stop(m, target, i + 1)
    }
}

/// Which member an entry is extracted from, or why none is.
pub enum MemberChoice {
    /// The member's name.
    Found(String),
    /// No member matches the entry.
    NotFound,
    /// A member met while scanning could not be read.
    Unreadable,
    /// The member that matched has a name that could escape the cache.
    Traversal,
}

/// The spec of `select_member`.
pub open spec fn member_choice_ok(entry: Seq<char>, m: Seq<ZipMember>, r: MemberChoice) -> bool {
    let picked = match first_opening(m, entry_candidates_spec(entry), 0) {
        Some(c) => Some(c),
        None => {
            let k = scan_stop(m, loose_key(entry), 0);
            if 0 <= k < m.len() && m[k].readable {
                Some(m[k].name@)
            } else {
                None
            }
        },
    };
    match picked {
        Some(n) => if safe_entry(n) is Some {
            r is Found && r->Found_0@ == n
        } else {
            r is Traversal
        },
        None => if first_opening(m, entry_candidates_spec(entry), 0) is None && 0 <= scan_stop(
            m,
            loose_key(entry),
            0,
        ) < m.len() {
            r is Unreadable
        } else {
            r is NotFound
        },
    }
}

proof fn lemma_name_pos(m: Seq<ZipMember>, c: Seq<char>, i: int)
    requires
        0 <= i <= m.len(),
    ensures
        i <= name_pos(m, c, i) <= m.len(),
        name_pos(m, c, i) < m.len() ==> m[name_pos(m, c, i)].name@ == c,
    decreases m.len() - i,
{
    if i < m.len() && m[i].name@ != c {
        lemma_name_pos(m, c, i + 1);
    }
}

proof fn lemma_scan_stop(m: Seq<ZipMember>, t: Seq<u8>, i: int)
    requires
        0 <= i <= m.len(),
    ensures
        i <= scan_stop(m, t, i) <= m.len(),
    decreases m.len() - i,
{
    if i < m.len() && m[i].readable && !(safe_entry(m[i].name@) is Some && loose_key(m[i].name@)
        == t) {
        lemma_scan_stop(m, t, i + 1);
    }
}

/// An entry that the archive holds under exactly its own name, readable and
/// safe, is extracted from that member.
pub proof fn lemma_exact_member_wins(entry: Seq<char>, m: Seq<ZipMember>, r: MemberChoice)
    requires
        opens_by_name(m, entry),
        safe_entry(entry) is Some,
        member_choice_ok(entry, m, r),
    ensures
        r is Found && r->Found_0@ == entry,
{
    assert(entry_candidates_spec(entry)[0] == entry);
}

/// Whether opening the member named `c` succeeds (see `opens_by_name`).
fn opens_name(members: &Vec<ZipMember>, c: &str) -> (r: bool)
    ensures
        r == opens_by_name(members@, c@),
{
    let mut i: usize = 0;
    while i < members.len()
        invariant
            i <= members@.len(),
            name_pos(members@, c@, 0) == name_pos(members@, c@, i as int),
        decreases members@.len() - i,
    {
        if crate::logutil::str_eq(members[i].name.as_str(), c) {
            return members[i].readable;
        }
        i = i + 1;
    }
    false
}

/// The names tried first for an entry (see `entry_candidates_spec`).
pub fn entry_candidates(entry: &str) -> (r: Vec<String>)
    ensures
        r@.len() == 3,
        r@[0]@ == entry_candidates_spec(entry@)[0],
        r@[1]@ == entry_candidates_spec(entry@)[1],
        r@[2]@ == entry_candidates_spec(entry@)[2],
{
    let trimmed = trim_leading_str(entry, 47);
    proof {
        lemma_str_chars(entry);
        lemma_str_chars(trimmed);
        vstd::utf8::decode_utf8_encode_utf8(entry.spec_bytes());
    }
    let mut r: Vec<String> = Vec::new();
    r.push(entry.to_owned());
    r.push(trimmed.to_owned());
    r.push(concat_strs("/", entry));
    r
}

/// The loose key of a name (see `loose_key`).
fn loose_key_of(s: &str) -> (r: Vec<u8>)
    ensures
        r@ == loose_key(s@),
{
    let t = trim_leading_str(s, 47);
    proof {
        lemma_str_chars(s);
        vstd::utf8::decode_utf8_encode_utf8(s.spec_bytes());
    }
    lower_bytes(t.as_bytes())
}

/// Picks the archive member to extract an entry from: the first of the
/// `entry_candidates` that opens; else, scanning the members in index order,
/// the first safe one whose name matches the entry ignoring leading `/` and
/// ASCII case, where a member that cannot be read stops the scan with
/// `Unreadable`. A pick whose name could escape the cache is refused.
pub fn select_member(entry: &str, members: &Vec<ZipMember>) -> (r: MemberChoice)
    ensures
        member_choice_ok(entry@, members@, r),
{
    let ghost m = members@;
    let cands = entry_candidates(entry);
    let ghost cv = entry_candidates_spec(entry@);
    let mut found: Option<String> = None;
    let mut ci: usize = 0;
    while ci < 3
        invariant_except_break
            ci <= 3,
            cands@.len() == 3,
            cv == entry_candidates_spec(entry@),
            cv.len() == 3,
            forall|k: int| 0 <= k < 3 ==> #[trigger] cands@[k]@ == cv[k],
            first_opening(m, cv, 0) == first_opening(m, cv, ci as int),
            found is None,
            m == members@,
        ensures
            cv == entry_candidates_spec(entry@),
            match found {
                Some(f) => first_opening(m, cv, 0) == Some(f@),
                None => first_opening(m, cv, 0) is None,
            },
        decreases 3 - ci,
    {
        assert(cands@[ci as int]@ == cv[ci as int]);
        if opens_name(members, cands[ci].as_str()) {
            found = Some(cands[ci].clone());
            break;
        }
        ci = ci + 1;
    }
    if found.is_none() {
        let target = loose_key_of(entry);
        let mut i: usize = 0;
        while i < members.len()
            invariant_except_break
                i <= members@.len(),
                m == members@,
                found is None,
                scan_stop(m, target@, 0) == scan_stop(m, target@, i as int),
            ensures
                match found {
                    Some(f) => {
                        let k = scan_stop(m, target@, 0);
                        0 <= k < m.len() && m[k].readable && f@ == m[k].name@
                    },
                    None => true,
                },
                found is None ==> scan_stop(m, target@, 0) == i && i <= m.len() && (i == m.len() || !m[i as int].readable),
            decreases members@.len() - i,
        {
            let mb = &members[i];
            if !mb.readable {
                break;
            }
            let ns = mb.name.as_str();
            if safe_relative_entry(ns).is_some() {
                let key = loose_key_of(ns);
                if crate::paths::bytes_eq(key.as_slice(), target.as_slice()) {
                    found = Some(mb.name.clone());
                    break;
                }
            }
            i = i + 1;
        }
        if found.is_none() {
            proof {
                lemma_scan_stop(m, target@, 0);
            }
            if i < members.len() {
                return MemberChoice::Unreadable;
            }
            return MemberChoice::NotFound;
        }
    }
    match found {
        Some(name) => {
            if safe_relative_entry(name.as_str()).is_none() {
                MemberChoice::Traversal
            } else {
                MemberChoice::Found(name)
            }
        },
        None => MemberChoice::NotFound,
    }
}

// ---------------------------------------------------------------------------
// Laws
// ---------------------------------------------------------------------------

/// Hex digits read in either case: `0`-`9` are worth 0-9, `a`-`f` and `A`-`F`
/// are worth 10-15, and no other byte is a hex digit.
pub proof fn lemma_hex_digit_values(b: u8)
    ensures
        48 <= b <= 57 ==> hex_value(b) == Some((b - 48) as u8),
        97 <= b <= 102 ==> hex_value(b) == Some((b - 87) as u8),
        65 <= b <= 70 ==> hex_value(b) == Some((b - 55) as u8),
        65 <= b <= 70 ==> hex_value(b) == hex_value((b + 32) as u8),
        !(48 <= b <= 57 || 97 <= b <= 102 || 65 <= b <= 70) ==> hex_value(b) is None,
{
}

/// The value of a hex digit, written out.
pub open spec fn digit_worth(b: u8) -> int {
    if b <= 57 {
        b - 48
    } else if b <= 70 {
        b - 55
    } else {
        b - 87
    }
}

pub open spec fn is_hex_digit(b: u8) -> bool {
    48 <= b <= 57 || 97 <= b <= 102 || 65 <= b <= 70
}

/// A `%` escape with two hex digits, in either case, decodes to the one byte
/// they write: `16 * hi + lo`; the rest of the text is decoded after it.
pub proof fn lemma_percent_escape(h: u8, l: u8, rest: Seq<u8>)
    requires
        is_hex_digit(h),
        is_hex_digit(l),
    ensures
        percent_decoded(seq![37u8, h, l] + rest) == seq![(16 * digit_worth(h) + digit_worth(l)) as u8]
            + percent_decoded(rest),
{
    let s = seq![37u8, h, l] + rest;
    assert(s.subrange(3, s.len() as int) =~= rest);
}

/// The marker bytes of archive URIs in message bodies.
pub open spec fn archive_markers() -> Seq<Seq<u8>> {
    seq![
        seq![46u8, 106, 97, 114, 33],
        seq![46u8, 122, 105, 112, 33],
        seq![46u8, 74, 65, 82, 33],
        seq![46u8, 90, 73, 80, 33],
        seq![46u8, 106, 97, 114, 37, 50, 49],
        seq![46u8, 122, 105, 112, 37, 50, 49],
        seq![46u8, 106, 97, 114, 37, 50, 53, 50, 49],
        seq![106u8, 97, 114, 58, 102, 105, 108, 101, 58],
        seq![106u8, 97, 114, 58, 47, 47],
    ]
}

/// A body mentions an archive URI exactly when it holds one of the markers
/// `.jar!`, `.zip!`, `.JAR!`, `.ZIP!`, `.jar%21`, `.zip%21`, `.jar%2521`,
/// `jar:file:` or `jar://`.
pub proof fn lemma_archive_markers(body: Seq<u8>)
    ensures
        body_mentions_archive(body) <==> exists|k: int|
            0 <= k < archive_markers().len() && #[trigger] contains_seq(body, archive_markers()[k]),
{
    let m = archive_markers();
    reveal_strlit(".jar!");
    reveal_strlit(".zip!");
    reveal_strlit(".JAR!");
    reveal_strlit(".ZIP!");
    reveal_strlit(".jar%21");
    reveal_strlit(".zip%21");
    reveal_strlit(".jar%2521");
    reveal_strlit("jar:file:");
    reveal_strlit("jar://");
    assert(".jar!"@ =~= ascii_chars(m[0]));
    assert(".zip!"@ =~= ascii_chars(m[1]));
    assert(".JAR!"@ =~= ascii_chars(m[2]));
    assert(".ZIP!"@ =~= ascii_chars(m[3]));
    assert(".jar%21"@ =~= ascii_chars(m[4]));
    assert(".zip%21"@ =~= ascii_chars(m[5]));
    assert(".jar%2521"@ =~= ascii_chars(m[6]));
    assert("jar:file:"@ =~= ascii_chars(m[7]));
    assert("jar://"@ =~= ascii_chars(m[8]));
    lemma_literal_bytes(".jar!", m[0]);
    lemma_literal_bytes(".zip!", m[1]);
    lemma_literal_bytes(".JAR!", m[2]);
    lemma_literal_bytes(".ZIP!", m[3]);
    lemma_literal_bytes(".jar%21", m[4]);
    lemma_literal_bytes(".zip%21", m[5]);
    lemma_literal_bytes(".jar%2521", m[6]);
    lemma_literal_bytes("jar:file:", m[7]);
    lemma_literal_bytes("jar://", m[8]);
    if body_mentions_archive(body) {
        if contains_seq(body, m[0]) {
            assert(contains_seq(body, archive_markers()[0]));
        } else if contains_seq(body, m[1]) {
            assert(contains_seq(body, archive_markers()[1]));
        } else if contains_seq(body, m[2]) {
            assert(contains_seq(body, archive_markers()[2]));
        } else if contains_seq(body, m[3]) {
            assert(contains_seq(body, archive_markers()[3]));
        } else if contains_seq(body, m[4]) {
            assert(contains_seq(body, archive_markers()[4]));
        } else if contains_seq(body, m[5]) {
            assert(contains_seq(body, archive_markers()[5]));
        } else if contains_seq(body, m[6]) {
            assert(contains_seq(body, archive_markers()[6]));
        } else if contains_seq(body, m[7]) {
            assert(contains_seq(body, archive_markers()[7]));
        } else {
            assert(contains_seq(body, archive_markers()[8]));
        }
    }
}

/// Text without `%` decodes to itself.
pub proof fn lemma_percent_plain(s: Seq<u8>)
    requires
        forall|i: int| 0 <= i < s.len() ==> #[trigger] s[i] != 37,
    ensures
        percent_decoded(s) == s,
    decreases s.len(),
{
    if s.len() > 0 {
        let rest = s.subrange(1, s.len() as int);
        assert forall|i: int| 0 <= i < rest.len() implies #[trigger] rest[i] != 37 by {
            assert(rest[i] == s[i + 1]);
        }
        lemma_percent_plain(rest);
        assert(s =~= seq![s[0]] + rest);
    }
}

proof fn lemma_lower_byte_bang(x: u8)
    ensures
        lower_byte(x) == 33 <==> x == 33,
        lower_byte(lower_byte(x)) == lower_byte(x),
{
}

/// Whether a text looks like an archive URI does not depend on its ASCII case.
pub proof fn lemma_archive_uri_ignores_case(b: Seq<u8>)
    ensures
        is_archive_uri_text(lower(b)) == is_archive_uri_text(b),
{
    let l = lower(b);
    assert forall|i: int| 0 <= i < b.len() implies #[trigger] lower(l)[i] == l[i] by {
        lemma_lower_byte_bang(b[i]);
    }
    assert(lower(l) =~= l);
    let bang = seq![33u8];
    if contains_seq(b, bang) {
        let i = choose|i: int| occurs_at(b, bang, i);
        assert(b.subrange(i, i + 1)[0] == b[i]);
        lemma_lower_byte_bang(b[i]);
        assert(l.subrange(i, i + 1) =~= bang);
        assert(occurs_at(l, bang, i));
    }
    if contains_seq(l, bang) {
        let i = choose|i: int| occurs_at(l, bang, i);
        assert(l.subrange(i, i + 1)[0] == l[i]);
        lemma_lower_byte_bang(b[i]);
        assert(b.subrange(i, i + 1) =~= bang);
        assert(occurs_at(b, bang, i));
    }
}

/// A text looks like an archive URI exactly when, ignoring ASCII case, it
/// holds `.jar` or `.zip` or starts with `jar:`, and it holds `!` or `%21`.
pub proof fn lemma_archive_uri_markers(b: Seq<u8>)
    ensures
        is_archive_uri_text(b) <==> (contains_seq(lower(b), seq![46u8, 106, 97, 114])
            || contains_seq(lower(b), seq![46u8, 122, 105, 112]) || starts_with(
            lower(b),
            seq![106u8, 97, 114, 58],
        )) && (contains_seq(b, seq![33u8]) || contains_seq(lower(b), seq![37u8, 50, 49])),
{
    reveal_strlit(".jar");
    reveal_strlit(".zip");
    reveal_strlit("jar:");
    reveal_strlit("%21");
    assert(".jar"@ =~= ascii_chars(seq![46u8, 106, 97, 114]));
    assert(".zip"@ =~= ascii_chars(seq![46u8, 122, 105, 112]));
    assert("jar:"@ =~= ascii_chars(seq![106u8, 97, 114, 58]));
    assert("%21"@ =~= ascii_chars(seq![37u8, 50, 49]));
    lemma_literal_bytes(".jar", seq![46u8, 106, 97, 114]);
    lemma_literal_bytes(".zip", seq![46u8, 122, 105, 112]);
    lemma_literal_bytes("jar:", seq![106u8, 97, 114, 58]);
    lemma_literal_bytes("%21", seq![37u8, 50, 49]);
}

} // verus!
