//! The archive-location resolver used for kotlin-lsp navigation targets: it
//! splits `…/foo.jar!/inner/File.kt` (or `.zip!/`) URIs, names the temporary
//! file an entry is extracted to, and rewrites `uri`/`targetUri` of LSP
//! locations.

use vstd::prelude::*;
use vstd::string::StringSliceAdditionalSpecFns;
use vstd::utf8::*;

use crate::text::{
    all_ascii, ascii_chars, concat_strs, find_bytes, find_first, lemma_ascii_boundary,
    lemma_ascii_utf8, lemma_boundary_after_ascii, lemma_find_from, lemma_str_chars, lossy_string,
    lossy_text, lower, lower_bytes, lower_byte, occurs_at, str_slice, string_from_ascii,
    strip_prefix_str, text_bytes,
};
use crate::json::{
    copy_json, get_member, lemma_member_pos, member, member_index, member_pos, outcomes_view, Json,
    JsonV,
};
use crate::uri::{percent_decode, percent_decoded, strip_seq};

verus! {

broadcast use vstd::utf8::encode_utf8_valid_utf8;

/// `.jar!/`
pub open spec fn jar_marker() -> Seq<u8> {
    seq!['.' as u8, 'j' as u8, 'a' as u8, 'r' as u8, '!' as u8, '/' as u8]
}

/// `.zip!/`
pub open spec fn zip_marker() -> Seq<u8> {
    seq!['.' as u8, 'z' as u8, 'i' as u8, 'p' as u8, '!' as u8, '/' as u8]
}

/// Where an archive URI splits: just after the `.jar`/`.zip` of the first
/// `.jar!/` or `.zip!/` (ignoring ASCII case).
pub open spec fn archive_split_point(b: Seq<u8>) -> Option<int> {
    let l = lower(b);
    match (find_first(l, jar_marker()), find_first(l, zip_marker())) {
        (None, None) => None,
        (Some(x), None) => Some(x + 4),
        (None, Some(y)) => Some(y + 4),
        (Some(x), Some(y)) => Some(if x <= y {
            x
        } else {
            y
        } + 4),
    }
}

/// The archive part (with its scheme) and the entry part of an archive URI:
/// the bytes before the split point, and those after its `!/`.
pub open spec fn archive_uri_parts(b: Seq<u8>) -> Option<(Seq<u8>, Seq<u8>)> {
    match archive_split_point(b) {
        None => None,
        Some(s) => Some((b.subrange(0, s), b.subrange(s + 2, b.len() as int))),
    }
}

proof fn lemma_marker_at(b: Seq<u8>, m: Seq<u8>, x: int)
    requires
        m == jar_marker() || m == zip_marker(),
        occurs_at(lower(b), m, x),
    ensures
        x + 6 <= b.len(),
        b[x + 4] == 33,
        b[x + 5] == 47,
{
    assert(lower(b).subrange(x, x + 6)[4] == lower(b)[x + 4]);
    assert(lower(b).subrange(x, x + 6)[5] == lower(b)[x + 5]);
    assert(lower_byte(b[x + 4]) == 33);
    assert(lower_byte(b[x + 5]) == 47);
}

/// An archive URI is its archive part, `!/`, and its entry part, in that order.
pub proof fn lemma_archive_uri_rejoins(b: Seq<u8>)
    ensures
        archive_uri_parts(b) matches Some((a, i)) ==> b == a + seq!['!' as u8, '/' as u8] + i,
{
    let l = lower(b);
    lemma_find_from(l, jar_marker(), 0);
    lemma_find_from(l, zip_marker(), 0);
    match (find_first(l, jar_marker()), find_first(l, zip_marker())) {
        (Some(x), None) => lemma_marker_at(b, jar_marker(), x),
        (None, Some(y)) => lemma_marker_at(b, zip_marker(), y),
        (Some(x), Some(y)) => {
            lemma_marker_at(b, jar_marker(), x);
            lemma_marker_at(b, zip_marker(), y);
        },
        (None, None) => {},
    }
    if let Some(s) = archive_split_point(b) {
        assert(b =~= b.subrange(0, s) + seq!['!' as u8, '/' as u8] + b.subrange(s + 2, b.len() as int));
    }
}

/// Splits `…/foo.jar!/inner/File.kt` into `…/foo.jar` (with its scheme) and
/// `inner/File.kt`. Matches `.jar!/` and `.zip!/` ignoring ASCII case.
pub fn split_archive_uri(uri: &str) -> (r: Option<(&str, &str)>)
    ensures
        match r {
            Some((a, i)) => archive_uri_parts(uri.spec_bytes()) == Some((a.spec_bytes(), i.spec_bytes())),
            None => archive_uri_parts(uri.spec_bytes()) is None,
        },
{
    let b = uri.as_bytes();
    let lv = lower_bytes(b);
    let l = lv.as_slice();
    let jar: [u8; 6] = ['.' as u8, 'j' as u8, 'a' as u8, 'r' as u8, '!' as u8, '/' as u8];
    let zip: [u8; 6] = ['.' as u8, 'z' as u8, 'i' as u8, 'p' as u8, '!' as u8, '/' as u8];
    assert(jar@ =~= jar_marker());
    assert(zip@ =~= zip_marker());
    let j = find_bytes(l, &jar, 0);
    let z = find_bytes(l, &zip, 0);
    proof {
        lemma_find_from(l@, jar_marker(), 0);
        lemma_find_from(l@, zip_marker(), 0);
    }
    let x = match (j, z) {
        (None, None) => {
            return None;
        },
        (Some(x), None) => {
            proof {
                lemma_marker_at(b@, jar_marker(), x as int);
            }
            x
        },
        (None, Some(y)) => {
            proof {
                lemma_marker_at(b@, zip_marker(), y as int);
            }
            y
        },
        (Some(x), Some(y)) => {
            proof {
                lemma_marker_at(b@, jar_marker(), x as int);
                lemma_marker_at(b@, zip_marker(), y as int);
            }
            if x <= y {
                x
            } else {
                y
            }
        },
    };
    assert(x + 6 <= b@.len());
    assert(b@.len() == b.len());
    let sep = x + 4;
    proof {
        lemma_ascii_boundary(b@, sep as int);
        lemma_boundary_after_ascii(b@, sep + 2);
        is_char_boundary_start_end_of_seq(b@);
    }
    let archive = str_slice(uri, 0, sep);
    let inner = str_slice(uri, sep + 2, b.len());
    Some((archive, inner))
}

/// The file-system path of a `file://` archive URI: without the scheme,
/// percent-decoded.
pub open spec fn file_uri_path(b: Seq<u8>) -> Seq<char> {
    lossy_text(percent_decoded(strip_seq(b, "file://".spec_bytes())))
}

/// Turns a `file://` archive URI into a file-system path.
pub fn uri_to_path(archive_uri: &str) -> (r: String)
    ensures
        r@ == file_uri_path(archive_uri.spec_bytes()),
{
    let stripped = match strip_prefix_str(archive_uri, "file://") {
        Some(s) => s,
        None => archive_uri,
    };
    percent_decode(stripped)
}

/// `s` with every `\` replaced by `/`.
pub open spec fn slashes_forward(s: Seq<u8>) -> Seq<u8> {
    Seq::new(s.len(), |i: int| if s[i] == 92 { 47u8 } else { s[i] })
}

/// The `file://` URI of a path's text: backslashes become slashes, and a path
/// that does not start with `/` gets `file:///`.
pub open spec fn resolved_file_uri(path: Seq<u8>) -> Seq<u8> {
    let s = text_bytes(slashes_forward(path));
    if s.len() > 0 && s[0] == 47 {
        "file://".spec_bytes() + s
    } else {
        "file:///".spec_bytes() + s
    }
}

/// The `file://` URI of a path (see `resolved_file_uri`).
pub fn path_to_file_uri(path: &str) -> (r: String)
    ensures
        encode_utf8(r@) == resolved_file_uri(path.spec_bytes()),
{
    let b = path.as_bytes();
    let mut out: Vec<u8> = Vec::new();
    let mut i: usize = 0;
    while i < b.len()
        invariant
            i <= b@.len(),
            out@ =~= slashes_forward(b@).subrange(0, i as int),
        decreases b@.len() - i,
    {
        if b[i] == 92 {
            out.push(47);
        } else {
            out.push(b[i]);
        }
        i = i + 1;
        assert(out@ =~= slashes_forward(b@).subrange(0, i as int));
    }
    assert(slashes_forward(b@).subrange(0, b@.len() as int) =~= slashes_forward(b@));
    let s = lossy_string(out.as_slice());
    let ss = s.as_str();
    proof {
        lemma_str_chars(ss);
    }
    let sb = ss.as_bytes();
    if sb.len() > 0 && sb[0] == 47 {
        concat_strs("file://", ss)
    } else {
        concat_strs("file:///", ss)
    }
}

// ---------------------------------------------------------------------------
// Names for extracted entries
// ---------------------------------------------------------------------------

/// The position of the last `c` in `s`.
pub open spec fn last_pos(s: Seq<u8>, c: u8) -> Option<int>
    decreases s.len(),
{
    if s.len() == 0 {
        None
    } else if s.last() == c {
        Some(s.len() - 1)
    } else {
        last_pos(s.drop_last(), c)
    }
}

fn last_pos_exec(s: &[u8], c: u8) -> (r: Option<usize>)
    ensures
        match r {
            Some(k) => last_pos(s@, c) == Some(k as int),
            None => last_pos(s@, c) is None,
        },
{
    let mut k = s.len();
    assert(s@.subrange(0, k as int) =~= s@);
    while k > 0 && s[k - 1] != c
        invariant
            k <= s@.len(),
            last_pos(s@, c) == last_pos(s@.subrange(0, k as int), c),
        decreases k,
    {
        assert(s@.subrange(0, k as int).drop_last() =~= s@.subrange(0, k - 1));
        k = k - 1;
    }
    if k == 0 {
        assert(s@.subrange(0, 0) =~= Seq::<u8>::empty());
        None
    } else {
        Some(k - 1)
    }
}

/// The last `/`-separated part of `s` (`rsplit('/').next()`).
pub open spec fn last_segment(s: Seq<u8>) -> Seq<u8> {
    match last_pos(s, 47) {
        Some(k) => s.subrange(k + 1, s.len() as int),
        None => s,
    }
}

/// A file name's stem and extension: split at its last `.`; the extension is
/// `txt` when there is no `.`.
pub open spec fn stem_and_ext(name: Seq<u8>) -> (Seq<u8>, Seq<u8>) {
    match last_pos(name, 46) {
        Some(k) => (name.subrange(0, k), name.subrange(k + 1, name.len() as int)),
        None => (name, "txt".spec_bytes()),
    }
}

proof fn lemma_last_pos(s: Seq<u8>, c: u8)
    ensures
        match last_pos(s, c) {
            Some(k) => 0 <= k < s.len() && s[k] == c,
            None => true,
        },
    decreases s.len(),
{
    if s.len() > 0 && s.last() != c {
        lemma_last_pos(s.drop_last(), c);
    }
}

/// Where an archive entry is extracted to, before the hash is known.
pub struct ResolvePlan {
    /// The archive's file-system path.
    pub archive_path: String,
    /// The entry inside the archive, percent-decoded, without leading `/`.
    pub inner: String,
    /// The entry's file name up to its last `.`.
    pub stem: String,
    /// The entry's file name after its last `.` (`txt` without one).
    pub ext: String,
}

/// The entry part of an archive URI: without leading `/`, percent-decoded.
pub open spec fn resolved_inner(inner: Seq<u8>) -> Seq<char> {
    lossy_text(percent_decoded(crate::uri::trim_leading(inner, 47)))
}

/// What resolving an archive URI works with, when `uri` is one (see
/// `archive_uri_parts`).
pub fn resolve_plan(uri: &str) -> (r: Option<ResolvePlan>)
    ensures
        match r {
            None => archive_uri_parts(uri.spec_bytes()) is None,
            Some(p) => match archive_uri_parts(uri.spec_bytes()) {
                Some((a, i)) => {
                    let name = last_segment(encode_utf8(resolved_inner(i)));
                    &&& p.archive_path@ == file_uri_path(a)
                    &&& p.inner@ == resolved_inner(i)
                    &&& encode_utf8(p.stem@) == stem_and_ext(name).0
                    &&& encode_utf8(p.ext@) == stem_and_ext(name).1
                },
                None => false,
            },
        },
{
    let (archive_uri, inner) = match split_archive_uri(uri) {
        Some(parts) => parts,
        None => {
            return None;
        },
    };
    let archive_path = uri_to_path(archive_uri);
    let trimmed = trim_slashes(inner);
    let decoded = percent_decode(trimmed);
    let ds = decoded.as_str();
    proof {
        lemma_str_chars(ds);
    }
    let db = ds.as_bytes();
    let name = match last_pos_exec(db, 47) {
        Some(k) => {
            proof {
                lemma_last_pos(db@, 47);
                lemma_boundary_after_ascii(db@, k + 1);
                is_char_boundary_start_end_of_seq(db@);
                assert(db@.len() == db.len());
            }
            str_slice(ds, k + 1, db.len())
        },
        None => ds,
    };
    let nb = name.as_bytes();
    proof {
        lemma_str_chars(name);
    }
    let (stem, ext) = match last_pos_exec(nb, 46) {
        Some(k) => {
            proof {
                lemma_last_pos(nb@, 46);
                lemma_ascii_boundary(nb@, k as int);
                lemma_boundary_after_ascii(nb@, k + 1);
                is_char_boundary_start_end_of_seq(nb@);
                assert(nb@.len() == nb.len());
            }
            (str_slice(name, 0, k), str_slice(name, k + 1, nb.len()))
        },
        None => (name, "txt"),
    };
    proof {
        lemma_str_chars(stem);
        lemma_str_chars(ext);
    }
    Some(ResolvePlan { archive_path, inner: decoded.clone(), stem: stem.to_owned(), ext: ext.to_owned() })
}

/// `s` without its leading `/` bytes.
fn trim_slashes(s: &str) -> (r: &str)
    ensures
        r.spec_bytes() == crate::uri::trim_leading(s.spec_bytes(), 47),
{
    crate::uri::trim_leading_str(s, 47)
}

/// Fixed-width lowercase hex of `x`: the low `n` digits, most significant first.
pub open spec fn hex_fixed(x: nat, n: nat) -> Seq<u8>
    decreases n,
{
    if n == 0 {
        seq![]
    } else {
        hex_fixed(x / 16, (n - 1) as nat).push(crate::cache::hex_digit((x % 16) as u8))
    }
}

fn push_hex_fixed(x: u64, n: u64, out: &mut Vec<u8>)
    requires
        n <= 16,
    ensures
        final(out)@ == old(out)@ + hex_fixed(x as nat, n as nat),
    decreases n,
{
    if n > 0 {
        push_hex_fixed(x / 16, n - 1, out);
        let d = (x % 16) as u8;
        out.push(if d < 10 {
            d + 48
        } else {
            d + 87
        });
        assert(old(out)@ + hex_fixed(x as nat, n as nat) =~= old(out)@ + hex_fixed(
            (x / 16) as nat,
            (n - 1) as nat,
        ) + seq![crate::cache::hex_digit(d)]);
    } else {
        assert(old(out)@ + hex_fixed(x as nat, 0) =~= old(out)@);
    }
}

proof fn lemma_hex_fixed_ascii(x: nat, n: nat)
    ensures
        all_ascii(hex_fixed(x, n)),
        hex_fixed(x, n).len() == n,
    decreases n,
{
    if n > 0 {
        lemma_hex_fixed_ascii(x / 16, (n - 1) as nat);
    }
}

/// The name an extracted entry is stored under: `{stem}-{hash:016x}.{ext}`.
pub open spec fn extracted_name(stem: Seq<u8>, hash: u64, ext: Seq<u8>) -> Seq<u8> {
    stem + seq!['-' as u8] + hex_fixed(hash as nat, 16) + seq!['.' as u8] + ext
}

/// The name an extracted entry is stored under (see `extracted_name`).
pub fn extracted_file_name(stem: &str, hash: u64, ext: &str) -> (r: String)
    ensures
        encode_utf8(r@) == extracted_name(stem.spec_bytes(), hash, ext.spec_bytes()),
{
    let mut mid: Vec<u8> = Vec::new();
    mid.push('-' as u8);
    push_hex_fixed(hash, 16, &mut mid);
    mid.push('.' as u8);
    proof {
        lemma_hex_fixed_ascii(hash as nat, 16);
        assert(all_ascii(mid@));
    }
    let m = string_from_ascii(mid.as_slice());
    let ms = m.as_str();
    proof {
        lemma_str_chars(ms);
    }
    let a = concat_strs(stem, ms);
    let as_ = a.as_str();
    proof {
        lemma_str_chars(as_);
    }
    let r = concat_strs(as_, ext);
    assert(encode_utf8(r@) =~= extracted_name(stem.spec_bytes(), hash, ext.spec_bytes()));
    r
}

// ---------------------------------------------------------------------------
// Rewriting the locations of a response
// ---------------------------------------------------------------------------

/// `v.get(key).and_then(as_str)`.
pub open spec fn str_member(v: JsonV, key: Seq<char>) -> Option<Seq<char>> {
    match get_member(v, key) {
        Some(JsonV::Str(s)) => Some(s),
        _ => None,
    }
}

/// The locations of a `definition`-like response: the items of its `result`
/// when that is an array, the `result` itself when it is an object, none
/// otherwise.
pub open spec fn locations(msg: JsonV) -> Seq<JsonV> {
    match get_member(msg, "result"@) {
        Some(JsonV::Array(items)) => items,
        Some(JsonV::Object(k, v)) => seq![JsonV::Object(k, v)],
        _ => seq![],
    }
}

/// The member a slot refers to: `uri` for even slots, `targetUri` for odd ones.
pub open spec fn location_key(k: int) -> Seq<char> {
    if k == 0 {
        "uri"@
    } else {
        "targetUri"@
    }
}

/// The URIs of a response's locations by slot: slot `2 i` holds the `uri` of
/// location `i`, slot `2 i + 1` its `targetUri`, each `None` when the member is
/// missing or not a string.
pub open spec fn location_slots(msg: JsonV) -> Seq<Option<Seq<char>>> {
    let locs = locations(msg);
    Seq::new(2 * locs.len(), |s: int| str_member(locs[s / 2], location_key(s % 2)))
}

/// The outcome for slot `s`, `None` past the end.
pub open spec fn slot(o: Seq<Option<Seq<char>>>, s: int) -> Option<Seq<char>> {
    if 0 <= s < o.len() {
        o[s]
    } else {
        None
    }
}

/// `v` with the value of its first member named `key` replaced by `x`.
pub open spec fn set_member(v: JsonV, key: Seq<char>, x: JsonV) -> JsonV {
    match v {
        JsonV::Object(keys, vals) => {
            let k = member_pos(keys, key, 0);
            if 0 <= k < keys.len() && k < vals.len() {
                JsonV::Object(keys, vals.update(k, x))
            } else {
                v
            }
        },
        _ => v,
    }
}

/// A location whose string member `key` is replaced by `out` when it has one
/// and `out` is `Some`.
pub open spec fn replace_uri(loc: JsonV, key: Seq<char>, out: Option<Seq<char>>) -> JsonV {
    match (str_member(loc, key), out) {
        (Some(_), Some(n)) => set_member(loc, key, JsonV::Str(n)),
        _ => loc,
    }
}

/// Location `i` with its `uri` and `targetUri` replaced by the outcomes of its
/// slots.
pub open spec fn relocated(loc: JsonV, o: Seq<Option<Seq<char>>>, i: int) -> JsonV {
    replace_uri(replace_uri(loc, "uri"@, slot(o, 2 * i)), "targetUri"@, slot(o, 2 * i + 1))
}

/// The response with every location URI whose outcome is `Some` replaced by
/// it; everything else unchanged.
pub open spec fn relocated_response(msg: JsonV, o: Seq<Option<Seq<char>>>) -> JsonV {
    match get_member(msg, "result"@) {
        Some(JsonV::Array(items)) => set_member(
            msg,
            "result"@,
            JsonV::Array(Seq::new(items.len(), |i: int| relocated(items[i], o, i))),
        ),
        Some(JsonV::Object(k, v)) => set_member(msg, "result"@, relocated(JsonV::Object(k, v), o, 0)),
        _ => msg,
    }
}

/// Whether some slot holds a URI whose outcome is `Some`.
pub open spec fn any_relocated(msg: JsonV, o: Seq<Option<Seq<char>>>) -> bool {
    exists|s: int|
        0 <= s < location_slots(msg).len() && #[trigger] location_slots(msg)[s] is Some && slot(o, s)
            is Some
}

/// Setting one member leaves the string held by a member of another name as
/// it was.
proof fn lemma_set_other_member(v: JsonV, key: Seq<char>, x: JsonV, other: Seq<char>)
    requires
        key != other,
        v is Object ==> v->Object_0.len() == v->Object_1.len(),
    ensures
        str_member(set_member(v, key, x), other) == str_member(v, other),
        set_member(v, key, x) is Object ==> set_member(v, key, x)->Object_0.len() == set_member(
            v,
            key,
            x,
        )->Object_1.len(),
{
    if let JsonV::Object(keys, vals) = v {
        lemma_member_pos(keys, key, 0);
        lemma_member_pos(keys, other, 0);
    }
}

/// The string value of the first member named `key`.
fn str_member_of(v: &Json, key: &str) -> (r: Option<String>)
    ensures
        outcome_view(r) == str_member(v@, key@),
{
    match member(v, key) {
        Some(Json::String(s)) => Some(s.clone()),
        _ => None,
    }
}

pub open spec fn outcome_view(o: Option<String>) -> Option<Seq<char>> {
    match o {
        Some(s) => Some(s@),
        None => None,
    }
}

/// The URIs of a response's locations, slot by slot (see `location_slots`):
/// what the caller tries to resolve before `rewrite_archive_locations`.
pub fn archive_location_uris(msg: &Json) -> (r: Vec<Option<String>>)
    ensures
        outcomes_view(r@) == location_slots(msg@),
{
    let mut out: Vec<Option<String>> = Vec::new();
    let ghost locs = locations(msg@);
    match member(msg, "result") {
        Some(Json::Array(items)) => {
            let ghost iv = Seq::new(
                items@.len(),
                |i: int|
                    if 0 <= i < items@.len() {
                        items@[i]@
                    } else {
                        JsonV::Null
                    },
            );
            assert(locs =~= iv);
            let mut i: usize = 0;
            while i < items.len()
                invariant
                    i <= items@.len(),
                    locs == iv,
                    iv.len() == items@.len(),
                    forall|k: int| 0 <= k < items@.len() ==> #[trigger] iv[k] == items@[k]@,
                    out@.len() == 2 * i,
                    forall|s: int|
                        0 <= s < 2 * i ==> #[trigger] outcome_view(out@[s]) == str_member(
                            iv[s / 2],
                            location_key(s % 2),
                        ),
                decreases items@.len() - i,
            {
                let u = str_member_of(&items[i], "uri");
                let t = str_member_of(&items[i], "targetUri");
                out.push(u);
                out.push(t);
                proof {
                    assert forall|s: int| 0 <= s < 2 * i + 2 implies #[trigger] outcome_view(out@[s])
                        == str_member(iv[s / 2], location_key(s % 2)) by {
                        if s >= 2 * i {
                            assert(s / 2 == i);
                        }
                    }
                }
                i = i + 1;
            }
            assert forall|s: int| 0 <= s < out@.len() implies outcomes_view(out@)[s]
                == location_slots(msg@)[s] by {
                assert(outcome_view(out@[s]) == str_member(iv[s / 2], location_key(s % 2)));
            }
            assert(outcomes_view(out@) =~= location_slots(msg@));
        },
        Some(loc) => {
            if let Json::Object(_) = loc {
                let u = str_member_of(loc, "uri");
                let t = str_member_of(loc, "targetUri");
                out.push(u);
                out.push(t);
                assert(locs =~= seq![loc@]);
                assert(0int / 2 == 0 && 1int / 2 == 0 && 0int % 2 == 0 && 1int % 2 == 1);
                assert(location_slots(msg@)[0] == str_member(loc@, "uri"@));
                assert(location_slots(msg@)[1] == str_member(loc@, "targetUri"@));
            }
            assert(outcomes_view(out@) =~= location_slots(msg@));
        },
        None => {
            assert(outcomes_view(out@) =~= location_slots(msg@));
        },
    }
    out
}

/// The outcome for slot `2 i + k` (`k` is 0 or 1).
fn slot_at(o: &Vec<Option<String>>, i: usize, k: usize) -> (r: Option<String>)
    requires
        k < 2,
    ensures
        outcome_view(r) == slot(outcomes_view(o@), 2 * i + k),
{
    if (i as u128) * 2 + (k as u128) < (o.len() as u128) {
        let s = i * 2 + k;
        o[s].clone()
    } else {
        None
    }
}

/// `loc` with its string member `key` replaced by `out` (see `replace_uri`),
/// and whether it was.
fn replace_uri_of(loc: &Json, key: &str, out: &Option<String>) -> (r: (Json, bool))
    ensures
        r.0@ == replace_uri(loc@, key@, outcome_view(*out)),
        r.1 == (str_member(loc@, key@) is Some && out is Some),
{
    match (str_member_of(loc, key), out) {
        (Some(_), Some(n)) => (set_member_of(loc, key, Json::String(n.clone())), true),
        _ => (copy_json(loc), false),
    }
}

/// Location `i` with its `uri` and `targetUri` replaced by their outcomes
/// (see `relocated`), and whether either was.
fn relocate(loc: &Json, o: &Vec<Option<String>>, i: usize) -> (r: (Json, bool))
    ensures
        r.0@ == relocated(loc@, outcomes_view(o@), i as int),
        r.1 == ((str_member(loc@, "uri"@) is Some && slot(outcomes_view(o@), 2 * i) is Some) || (
        str_member(loc@, "targetUri"@) is Some && slot(outcomes_view(o@), 2 * i + 1) is Some)),
{
    let u = slot_at(o, i, 0);
    let t = slot_at(o, i, 1);
    let (a, c1) = replace_uri_of(loc, "uri", &u);
    let (b, c2) = replace_uri_of(&a, "targetUri", &t);
    proof {
        reveal_strlit("uri");
        reveal_strlit("targetUri");
        assert("uri"@.len() != "targetUri"@.len());
        lemma_json_object_lens(loc);
        if str_member(loc@, "uri"@) is Some && u is Some {
            lemma_set_other_member(loc@, "uri"@, JsonV::Str(u.unwrap()@), "targetUri"@);
        }
    }
    (b, c1 || c2)
}

/// The view of an object has as many values as names.
proof fn lemma_json_object_lens(j: &Json)
    ensures
        j@ is Object ==> j@->Object_0.len() == j@->Object_1.len(),
{
}

/// Rewrites the locations of a `definition`/`typeDefinition`/
/// `implementation`/`declaration`/`references` response: the `uri` and
/// `targetUri` strings of its locations (the items of `result` when it is an
/// array, `result` itself when it is an object) are replaced slot by slot (as
/// `archive_location_uris` lists them) by the outcomes that are `Some`.
/// Returns whether any URI was replaced.
pub fn rewrite_archive_locations(msg: &mut Json, outcomes: &Vec<Option<String>>) -> (r: bool)
    ensures
        final(msg)@ == relocated_response(old(msg)@, outcomes_view(outcomes@)),
        r == any_relocated(old(msg)@, outcomes_view(outcomes@)),
{
    let ghost o = outcomes_view(outcomes@);
    let ghost m = msg@;
    let (new_result, any) = match member(msg, "result") {
        Some(Json::Array(items)) => {
            let ghost iv = m->Object_1[member_pos(m->Object_0, "result"@, 0)]->Array_0;
            assert(iv.len() == items@.len());
            let mut out: Vec<Json> = Vec::new();
            let mut any = false;
            let mut i: usize = 0;
            while i < items.len()
                invariant
                    i <= items@.len(),
                    iv.len() == items@.len(),
                    forall|k: int| 0 <= k < items@.len() ==> #[trigger] iv[k] == items@[k]@,
                    o == outcomes_view(outcomes@),
                    out@.len() == i,
                    forall|k: int| 0 <= k < i ==> #[trigger] out@[k]@ == relocated(iv[k], o, k),
                    any == exists|s: int|
                        0 <= s < 2 * i && str_member(iv[s / 2], location_key(s % 2)) is Some
                            && #[trigger] slot(o, s) is Some,
                decreases items@.len() - i,
            {
                let (x, c) = relocate(&items[i], outcomes, i);
                proof {
                    let new_any = exists|s: int|
                        0 <= s < 2 * i + 2 && str_member(iv[s / 2], location_key(s % 2)) is Some
                            && #[trigger] slot(o, s) is Some;
                    if c {
                        if str_member(iv[i as int], "uri"@) is Some && slot(o, 2 * i) is Some {
                            assert((2 * i) / 2 == i && (2 * i) % 2 == 0);
                            assert(slot(o, 2 * i) is Some);
                        } else {
                            assert((2 * i + 1) / 2 == i && (2 * i + 1) % 2 == 1);
                            assert(slot(o, 2 * i + 1) is Some);
                        }
                        assert(new_any);
                    } else if new_any {
                        let s = choose|s: int|
                            0 <= s < 2 * i + 2 && str_member(iv[s / 2], location_key(s % 2))
                                is Some && #[trigger] slot(o, s) is Some;
                        if s >= 2 * i {
                            assert(s == 2 * i || s == 2 * i + 1);
                            assert(s / 2 == i);
                        }
                    }
                }
                any = any || c;
                out.push(x);
                i = i + 1;
            }
            let ghost outv = out@;
            let r = Json::Array(out);
            assert forall|k: int| 0 <= k < outv.len() implies #[trigger] r@->Array_0[k] == outv[k]@ by {}
            assert(r@->Array_0 =~= Seq::new(iv.len(), |k: int| relocated(iv[k], o, k)));
            (r, any)
        },
        Some(loc) => {
            if let Json::Object(_) = loc {
                relocate(loc, outcomes, 0)
            } else {
                return false;
            }
        },
        None => {
            return false;
        },
    };
    let new_msg = set_member_of(msg, "result", new_result);
    proof {
        let slots = location_slots(m);
        if any {
            if let Some(JsonV::Array(items)) = get_member(m, "result"@) {
                let s = choose|s: int|
                    0 <= s < 2 * items.len() && str_member(items[s / 2], location_key(s % 2)) is Some
                        && #[trigger] slot(o, s) is Some;
                assert(slots[s] is Some);
            } else {
                if str_member(locations(m)[0], "uri"@) is Some && slot(o, 0) is Some {
                    assert(slots[0] is Some);
                } else {
                    assert(slots[1] is Some);
                }
            }
        } else {
            if any_relocated(m, o) {
                let s = choose|s: int|
                    0 <= s < slots.len() && #[trigger] slots[s] is Some && slot(o, s) is Some;
                if let Some(JsonV::Array(items)) = get_member(m, "result"@) {
                    assert(str_member(items[s / 2], location_key(s % 2)) is Some && slot(o, s) is Some);
                } else {
                    assert(s == 0 || s == 1);
                }
            }
        }
    }
    *msg = new_msg;
    any
}

/// `v` with the value of its first member named `key` replaced by `x` (see
/// `set_member`).
fn set_member_of(v: &Json, key: &str, x: Json) -> (r: Json)
    ensures
        r@ == set_member(v@, key@, x@),
{
    match v {
        Json::Object(entries) => {
            let ghost keys = v@->Object_0;
            let ghost vals = v@->Object_1;
            assert(keys =~= Seq::new(entries@.len(), |k: int| entries@[k].0@));
            let pos = member_index(entries, key);
            proof {
                lemma_member_pos(keys, key@, 0);
            }
            if pos >= entries.len() {
                return copy_json(v);
            }
            let ghost xv = x@;
            let mut x = Some(x);
            let mut new_entries: Vec<(String, Json)> = Vec::new();
            let mut j: usize = 0;
            while j < entries.len()
                invariant
                    *v is Object,
                    *entries == (*v)->Object_0,
                    keys == v@->Object_0,
                    vals == v@->Object_1,
                    keys.len() == entries@.len(),
                    vals.len() == entries@.len(),
                    pos < entries@.len(),
                    forall|k: int| 0 <= k < entries@.len() ==> #[trigger] keys[k] == entries@[k].0@,
                    forall|k: int| 0 <= k < entries@.len() ==> #[trigger] vals[k] == entries@[k].1@,
                    j <= entries@.len(),
                    j <= pos ==> x is Some && x->0@ == xv,
                    new_entries@.len() == j,
                    forall|k: int| 0 <= k < j ==> #[trigger] new_entries@[k].0@ == entries@[k].0@,
                    forall|k: int|
                        0 <= k < j ==> #[trigger] new_entries@[k].1@ == vals.update(pos as int, xv)[k],
                decreases entries@.len() - j,
            {
                let e = if j == pos {
                    match x.take() {
                        Some(y) => y,
                        None => Json::Null,
                    }
                } else {
                    copy_json(&entries[j].1)
                };
                let k = entries[j].0.clone();
                let ghost before = new_entries@;
                new_entries.push((k, e));
                assert forall|q: int| #![trigger new_entries@[q]] 0 <= q <= j implies new_entries@[q].0@
                    == entries@[q].0@ && new_entries@[q].1@ == vals.update(pos as int, xv)[q] by {
                    if q < j {
                        assert(new_entries@[q] == before[q]);
                    }
                }
                j = j + 1;
            }
            let ghost nv = new_entries@;
            let r = Json::Object(new_entries);
            assert(r@->Object_0 =~= keys);
            assert forall|k: int| 0 <= k < nv.len() implies #[trigger] r@->Object_1[k] == nv[k].1@ by {}
            assert(r@->Object_1 =~= vals.update(pos as int, xv));
            r
        },
        _ => copy_json(v),
    }
}

/// Setting a member: the member set holds the new value when it was present,
/// and every member of another name keeps its value.
proof fn lemma_set_member_reads(v: JsonV, key: Seq<char>, x: JsonV, other: Seq<char>)
    ensures
        get_member(v, key) is Some ==> get_member(set_member(v, key, x), key) == Some(x),
        key != other ==> get_member(set_member(v, key, x), other) == get_member(v, other),
        v is Object ==> set_member(v, key, x) is Object,
{
    if let JsonV::Object(keys, vals) = v {
        lemma_member_pos(keys, key, 0);
        lemma_member_pos(keys, other, 0);
    }
}

/// What rewriting does to one URI member of a location: a string whose
/// outcome is `Some(n)` becomes `n`; otherwise the member is as it was.
pub open spec fn uri_after(before: Option<Seq<char>>, out: Option<Seq<char>>) -> Option<Seq<char>> {
    if before is Some && out is Some {
        out
    } else {
        before
    }
}

/// Rewriting a `definition`-like response keeps its locations (as many, in
/// order) and, in location `i`, replaces the `uri` string by the outcome of
/// slot `2 i` and the `targetUri` string by the outcome of slot `2 i + 1`
/// where those are `Some`, leaving each member as it was otherwise. This
/// holds for an array `result` and for a single-location object `result`.
pub proof fn lemma_relocated_uris(msg: JsonV, o: Seq<Option<Seq<char>>>, i: int)
    requires
        0 <= i < locations(msg).len(),
    ensures
        locations(relocated_response(msg, o)).len() == locations(msg).len(),
        str_member(locations(relocated_response(msg, o))[i], "uri"@) == uri_after(
            str_member(locations(msg)[i], "uri"@),
            slot(o, 2 * i),
        ),
        str_member(locations(relocated_response(msg, o))[i], "targetUri"@) == uri_after(
            str_member(locations(msg)[i], "targetUri"@),
            slot(o, 2 * i + 1),
        ),
{
    reveal_strlit("uri");
    reveal_strlit("targetUri");
    assert("uri"@.len() != "targetUri"@.len());
    let res = get_member(msg, "result"@).unwrap();
    let loc = locations(msg)[i];
    let a = replace_uri(loc, "uri"@, slot(o, 2 * i));
    let b = replace_uri(a, "targetUri"@, slot(o, 2 * i + 1));
    if str_member(loc, "uri"@) is Some && slot(o, 2 * i) is Some {
        lemma_set_member_reads(loc, "uri"@, JsonV::Str(slot(o, 2 * i).unwrap()), "uri"@);
        lemma_set_member_reads(loc, "uri"@, JsonV::Str(slot(o, 2 * i).unwrap()), "targetUri"@);
    }
    assert(str_member(a, "targetUri"@) == str_member(loc, "targetUri"@));
    assert(str_member(a, "uri"@) == uri_after(str_member(loc, "uri"@), slot(o, 2 * i)));
    if str_member(a, "targetUri"@) is Some && slot(o, 2 * i + 1) is Some {
        lemma_set_member_reads(a, "targetUri"@, JsonV::Str(slot(o, 2 * i + 1).unwrap()), "targetUri"@);
        lemma_set_member_reads(a, "targetUri"@, JsonV::Str(slot(o, 2 * i + 1).unwrap()), "uri"@);
    }
    assert(b == relocated(loc, o, i));
    match res {
        JsonV::Array(items) => {
            let new_res = JsonV::Array(Seq::new(items.len(), |k: int| relocated(items[k], o, k)));
            lemma_set_member_reads(msg, "result"@, new_res, "result"@);
            assert(locations(relocated_response(msg, o)) == new_res->Array_0);
        },
        JsonV::Object(k, v) => {
            let new_res = relocated(JsonV::Object(k, v), o, 0);
            lemma_set_member_reads(msg, "result"@, new_res, "result"@);
            if str_member(res, "uri"@) is Some && slot(o, 0) is Some {
                lemma_set_member_reads(res, "uri"@, JsonV::Str(slot(o, 0).unwrap()), "uri"@);
            }
            let a0 = replace_uri(res, "uri"@, slot(o, 0));
            if str_member(a0, "targetUri"@) is Some && slot(o, 1) is Some {
                lemma_set_member_reads(a0, "targetUri"@, JsonV::Str(slot(o, 1).unwrap()), "uri"@);
            }
            assert(new_res is Object);
            assert(locations(relocated_response(msg, o)) == seq![new_res]);
        },
        _ => {},
    }
}

/// Where an archive URI splits: the archive part ends, ignoring ASCII case,
/// in `.jar` or `.zip` and is followed by `!/`, and no `.jar!/` or `.zip!/`
/// (ignoring ASCII case) starts earlier; a URI with neither marker does not
/// split.
pub proof fn lemma_archive_split(b: Seq<u8>)
    ensures
        ({
            let jm = seq![46u8, 106, 97, 114, 33, 47];
            let zm = seq![46u8, 122, 105, 112, 33, 47];
            &&& archive_uri_parts(b) matches Some((a, i)) ==> {
                &&& b == a + seq![33u8, 47] + i
                &&& lower(a).len() >= 4
                &&& (lower(a).subrange(a.len() - 4, a.len() as int) == jm.subrange(0, 4)
                    || lower(a).subrange(a.len() - 4, a.len() as int) == zm.subrange(0, 4))
                &&& forall|j: int|
                    0 <= j < a.len() - 4 ==> !#[trigger] occurs_at(lower(b), jm, j) && !occurs_at(
                        lower(b),
                        zm,
                        j,
                    )
            }
            &&& archive_uri_parts(b) is None ==> forall|j: int|
                !#[trigger] occurs_at(lower(b), jm, j) && !occurs_at(lower(b), zm, j)
        }),
{
    let l = lower(b);
    assert(jar_marker() =~= seq![46u8, 106, 97, 114, 33, 47]);
    assert(zip_marker() =~= seq![46u8, 122, 105, 112, 33, 47]);
    lemma_find_from(l, jar_marker(), 0);
    lemma_find_from(l, zip_marker(), 0);
    lemma_archive_uri_rejoins(b);
    if let Some(sp) = archive_split_point(b) {
        let x = sp - 4;
        let a = b.subrange(0, sp);
        let m = if find_first(l, jar_marker()) == Some(x) {
            jar_marker()
        } else {
            zip_marker()
        };
        assert(occurs_at(l, m, x));
        assert(lower(a) =~= l.subrange(0, sp));
        assert(lower(a).subrange(a.len() - 4, a.len() as int) =~= l.subrange(x, x + 6).subrange(0, 4));
        if m == jar_marker() {
            assert(l.subrange(x, x + 6).subrange(0, 4) =~= jar_marker().subrange(0, 4));
        } else {
            assert(l.subrange(x, x + 6).subrange(0, 4) =~= zip_marker().subrange(0, 4));
        }
    }
}

} // verus!
