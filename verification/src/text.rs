//! Byte- and character-level text primitives shared by the URI, framing and
//! settings code: searching, ASCII case folding, Unicode trimming and line
//! splitting, decimal numbers, and slicing `&str` at ASCII positions.

use vstd::prelude::*;
use vstd::string::StringSliceAdditionalSpecFns;
use vstd::string::StrSliceExecFns;
use vstd::string::StringExecFns;
use vstd::utf8::*;

verus! {

broadcast use vstd::utf8::encode_utf8_valid_utf8;

// ---------------------------------------------------------------------------
// Searching in byte sequences
// ---------------------------------------------------------------------------

/// `n` occurs in `s` starting at byte `i`.
pub open spec fn occurs_at(s: Seq<u8>, n: Seq<u8>, i: int) -> bool {
    0 <= i && i + n.len() <= s.len() && s.subrange(i, i + n.len()) == n
}

/// `n` occurs somewhere in `s` (always true for an empty `n`).
pub open spec fn contains_seq(s: Seq<u8>, n: Seq<u8>) -> bool {
    exists|i: int| occurs_at(s, n, i)
}

/// The first position at or after `i` where `n` occurs in `s`.
pub open spec fn find_from(s: Seq<u8>, n: Seq<u8>, i: int) -> Option<int>
    decreases s.len() + 1 - i,
{
    if i < 0 || i + n.len() > s.len() {
        None
    } else if occurs_at(s, n, i) {
        Some(i)
    } else {
        find_from(s, n, i + 1)
    }
}

/// The first position where `n` occurs in `s`.
pub open spec fn find_first(s: Seq<u8>, n: Seq<u8>) -> Option<int> {
    find_from(s, n, 0)
}

pub open spec fn starts_with(s: Seq<u8>, p: Seq<u8>) -> bool {
    p.len() <= s.len() && s.subrange(0, p.len() as int) == p
}

pub open spec fn ends_with(s: Seq<u8>, p: Seq<u8>) -> bool {
    p.len() <= s.len() && s.subrange(s.len() - p.len(), s.len() as int) == p
}

/// What `find_from` returns, stated without recursion.
pub proof fn lemma_find_from(s: Seq<u8>, n: Seq<u8>, i: int)
    requires
        0 <= i,
    ensures
        match find_from(s, n, i) {
            Some(k) => i <= k && occurs_at(s, n, k) && forall|j: int|
                i <= j < k ==> !#[trigger] occurs_at(s, n, j),
            None => forall|j: int| i <= j ==> !#[trigger] occurs_at(s, n, j),
        },
    decreases s.len() + 1 - i,
{
    if i + n.len() > s.len() {
    } else if occurs_at(s, n, i) {
    } else {
        lemma_find_from(s, n, i + 1);
    }
}

/// `n` occurs in `s` exactly when a first occurrence exists.
pub proof fn lemma_contains_find(s: Seq<u8>, n: Seq<u8>)
    ensures
        contains_seq(s, n) <==> find_first(s, n) is Some,
{
    lemma_find_from(s, n, 0);
    if let Some(k) = find_first(s, n) {
        assert(occurs_at(s, n, k));
    }
}

/// Whether `n` occurs in `h` at byte `i`.
pub fn matches_at(h: &[u8], n: &[u8], i: usize) -> (r: bool)
    ensures
        r == occurs_at(h@, n@, i as int),
{
    if i > h.len() || n.len() > h.len() - i {
        return false;
    }
    let mut k: usize = 0;
    while k < n.len()
        invariant
            i + n.len() <= h.len(),
            k <= n.len(),
            forall|j: int| 0 <= j < k ==> h@[i + j] == n@[j],
        decreases n.len() - k,
    {
        if h[i + k] != n[k] {
            assert(h@.subrange(i as int, i + n.len())[k as int] != n@[k as int]);
            return false;
        }
        k = k + 1;
    }
    assert(h@.subrange(i as int, i + n.len()) =~= n@);
    true
}

/// The first position at or after `from` where `n` occurs in `h`.
pub fn find_bytes(h: &[u8], n: &[u8], from: usize) -> (r: Option<usize>)
    ensures
        match r {
            Some(k) => find_from(h@, n@, from as int) == Some(k as int),
            None => find_from(h@, n@, from as int) is None,
        },
{
    let mut i = from;
    while i <= h.len() && n.len() <= h.len() - i
        invariant
            from <= i,
            find_from(h@, n@, from as int) == find_from(h@, n@, i as int),
        decreases h.len() + 1 - i,
    {
        if matches_at(h, n, i) {
            return Some(i);
        }
        if i >= h.len() {
            assert(find_from(h@, n@, i + 1) is None);
            return None;
        }
        i = i + 1;
    }
    None
}

/// Whether `n` occurs anywhere in `h`.
pub fn contains_bytes(h: &[u8], n: &[u8]) -> (r: bool)
    ensures
        r == contains_seq(h@, n@),
{
    proof {
        lemma_contains_find(h@, n@);
    }
    find_bytes(h, n, 0).is_some()
}

pub fn starts_with_bytes(s: &[u8], p: &[u8]) -> (r: bool)
    ensures
        r == starts_with(s@, p@),
{
    matches_at(s, p, 0)
}

pub fn ends_with_bytes(s: &[u8], p: &[u8]) -> (r: bool)
    ensures
        r == ends_with(s@, p@),
{
    if p.len() > s.len() {
        false
    } else {
        matches_at(s, p, s.len() - p.len())
    }
}

// ---------------------------------------------------------------------------
// ASCII case folding
// ---------------------------------------------------------------------------

/// `u8::to_ascii_lowercase`.
pub open spec fn lower_byte(b: u8) -> u8 {
    if 65 <= b <= 90 {
        (b + 32) as u8
    } else {
        b
    }
}

/// `to_ascii_lowercase` of a byte string.
pub open spec fn lower(s: Seq<u8>) -> Seq<u8> {
    Seq::new(s.len(), |i: int| lower_byte(s[i]))
}

pub fn lower_byte_exec(b: u8) -> (r: u8)
    ensures
        r == lower_byte(b),
{
    if 65 <= b && b <= 90 {
        b + 32
    } else {
        b
    }
}

/// The ASCII lowercase copy of `s`.
pub fn lower_bytes(s: &[u8]) -> (r: Vec<u8>)
    ensures
        r@ == lower(s@),
{
    let mut out: Vec<u8> = Vec::new();
    let mut i: usize = 0;
    while i < s.len()
        invariant
            i <= s.len(),
            out@ =~= lower(s@.subrange(0, i as int)),
        decreases s.len() - i,
    {
        out.push(lower_byte_exec(s[i]));
        i = i + 1;
        assert(out@ =~= lower(s@.subrange(0, i as int)));
    }
    assert(s@.subrange(0, s.len() as int) =~= s@);
    out
}

// ---------------------------------------------------------------------------
// ASCII bytes and UTF-8
// ---------------------------------------------------------------------------

pub open spec fn all_ascii(b: Seq<u8>) -> bool {
    forall|i: int| 0 <= i < b.len() ==> #[trigger] b[i] < 0x80
}

pub open spec fn ascii_chars(b: Seq<u8>) -> Seq<char> {
    Seq::new(b.len(), |i: int| b[i] as char)
}

/// ASCII bytes are valid UTF-8 and decode to the characters with the same codes.
pub proof fn lemma_ascii_utf8(b: Seq<u8>)
    requires
        all_ascii(b),
    ensures
        valid_utf8(b),
        decode_utf8(b) == ascii_chars(b),
        encode_utf8(ascii_chars(b)) == b,
    decreases b.len(),
{
    broadcast use vstd::utf8::decode_utf8_encode_utf8;

    if b.len() > 0 {
        let x = b[0];
        assert(x < 0x80);
        assert((x & 0x7F) == x) by (bit_vector)
            requires
                x < 0x80,
        ;
        assert(decode_first_scalar(b) == x as u32);
        let rest = b.subrange(1, b.len() as int);
        assert(pop_first_scalar(b) =~= rest);
        lemma_ascii_utf8(rest);
        assert(ascii_chars(b) =~= seq![x as char] + ascii_chars(rest));
        assert(decode_utf8(b) == seq![decode_first_scalar(b) as char] + decode_utf8(rest));
    } else {
        assert(ascii_chars(b) =~= Seq::<char>::empty());
    }
}

/// A position in valid UTF-8 that holds an ASCII byte, or the end, is a character boundary.
pub proof fn lemma_ascii_boundary(b: Seq<u8>, i: int)
    requires
        valid_utf8(b),
        0 <= i <= b.len(),
        i == b.len() || b[i] < 0x80,
    ensures
        is_char_boundary(b, i),
{
    if i == b.len() {
        is_char_boundary_start_end_of_seq(b);
    } else {
        is_char_boundary_iff_not_is_continuation_byte(b, i);
    }
}

/// In valid UTF-8, the byte after an ASCII byte is not a continuation byte.
pub proof fn lemma_after_ascii(b: Seq<u8>, i: int)
    requires
        valid_utf8(b),
        1 <= i < b.len(),
        b[i - 1] < 0x80,
    ensures
        !is_continuation_byte(b[i]),
    decreases b.len(),
{
    let l = length_of_first_scalar(b);
    let rest = pop_first_scalar(b);
    assert(rest.len() == b.len() - l);
    if i - 1 < l {
        assert(i - 1 == 0);
        assert(l == 1);
        assert(rest[0] == b[i]);
        assert(valid_utf8(rest));
        assert(rest.len() > 0);
        assert(valid_first_scalar(rest));
    } else {
        assert(rest[i - l - 1] == b[i - 1]);
        assert(rest[i - l] == b[i]);
        lemma_after_ascii(rest, i - l);
    }
}

/// A position just after an ASCII byte is a character boundary.
pub proof fn lemma_boundary_after_ascii(b: Seq<u8>, i: int)
    requires
        valid_utf8(b),
        1 <= i <= b.len(),
        b[i - 1] < 0x80,
    ensures
        is_char_boundary(b, i),
{
    if i == b.len() {
        is_char_boundary_start_end_of_seq(b);
    } else {
        lemma_after_ascii(b, i);
        is_char_boundary_iff_not_is_continuation_byte(b, i);
    }
}

/// The end of a valid UTF-8 prefix is a character boundary.
pub proof fn lemma_prefix_boundary(p: Seq<u8>, r: Seq<u8>)
    requires
        valid_utf8(p),
        valid_utf8(p + r),
    ensures
        is_char_boundary(p + r, p.len() as int),
    decreases p.len(),
{
    let s = p + r;
    if p.len() > 0 {
        let l = length_of_first_scalar(p);
        assert(s[0] == p[0]);
        assert(length_of_first_scalar(s) == l);
        assert(pop_first_scalar(s) =~= pop_first_scalar(p) + r);
        lemma_prefix_boundary(pop_first_scalar(p), r);
    }
}

/// `s[a..b]` where `a` and `b` are character boundaries.
pub fn str_slice(s: &str, a: usize, b: usize) -> (r: &str)
    requires
        a <= b <= s.spec_bytes().len(),
        is_char_boundary(s.spec_bytes(), a as int),
        is_char_boundary(s.spec_bytes(), b as int),
    ensures
        r.spec_bytes() == s.spec_bytes().subrange(a as int, b as int),
{
    let ghost bytes = s.spec_bytes();
    let (left, _) = s.split_at(b);
    proof {
        let lb = left.spec_bytes();
        assert(lb =~= bytes.subrange(0, b as int));
        lemma_boundary_in_prefix(bytes, a as int, b as int);
    }
    let (_, mid) = left.split_at(a);
    assert(mid.spec_bytes() =~= bytes.subrange(a as int, b as int));
    mid
}

/// A character boundary before `b` stays one in the prefix up to `b`.
pub proof fn lemma_boundary_in_prefix(s: Seq<u8>, a: int, b: int)
    requires
        valid_utf8(s),
        0 <= a <= b <= s.len(),
        is_char_boundary(s, a),
        is_char_boundary(s, b),
    ensures
        is_char_boundary(s.subrange(0, b), a),
{
    valid_utf8_split(s, b);
    let t = s.subrange(0, b);
    if a == b {
        is_char_boundary_start_end_of_seq(t);
    } else {
        is_char_boundary_iff_not_is_continuation_byte(s, a);
        assert(t[a] == s[a]);
        is_char_boundary_iff_not_is_continuation_byte(t, a);
    }
}

/// The part of `s` after the prefix `p`, if `s` starts with `p`.
pub fn strip_prefix_str<'a>(s: &'a str, p: &str) -> (r: Option<&'a str>)
    ensures
        r is Some <==> starts_with(s.spec_bytes(), p.spec_bytes()),
        r matches Some(x) ==> x.spec_bytes() == s.spec_bytes().subrange(
            p.spec_bytes().len() as int,
            s.spec_bytes().len() as int,
        ),
{
    let sb = s.as_bytes();
    let pb = p.as_bytes();
    if !starts_with_bytes(sb, pb) {
        return None;
    }
    proof {
        let q = s.spec_bytes().subrange(p.spec_bytes().len() as int, s.spec_bytes().len() as int);
        assert(s.spec_bytes() =~= p.spec_bytes() + q);
        lemma_prefix_boundary(p.spec_bytes(), q);
        is_char_boundary_start_end_of_seq(s.spec_bytes());
    }
    Some(str_slice(s, pb.len(), sb.len()))
}

// ---------------------------------------------------------------------------
// Building strings
// ---------------------------------------------------------------------------

/// What `String::from_utf8_lossy` makes of a byte string: its characters when
/// the bytes are valid UTF-8, with U+FFFD in place of each invalid sequence
/// otherwise.
pub uninterp spec fn utf8_lossy(b: Seq<u8>) -> Seq<char>;

/// Calls `String::from_utf8_lossy` and takes the result as an owned `String`.
/// Its contract names the result `utf8_lossy(b)`, and states what the std
/// documentation promises for valid UTF-8: the string decodes the bytes
/// unchanged.
#[verifier::external_body]
pub(crate) fn string_from_utf8_lossy(b: &[u8]) -> (r: String)
    ensures
        r@ == utf8_lossy(b@),
        valid_utf8(b@) ==> r@ == decode_utf8(b@),
{
    String::from_utf8_lossy(b).into_owned()
}


/// The text that `String::from_utf8_lossy` makes of `b`: the decoded characters
/// of valid UTF-8, and `utf8_lossy(b)` otherwise.
pub open spec fn lossy_text(b: Seq<u8>) -> Seq<char> {
    if valid_utf8(b) {
        decode_utf8(b)
    } else {
        utf8_lossy(b)
    }
}

/// `String::from_utf8_lossy(b)`, as a `String`.
pub fn lossy_string(b: &[u8]) -> (r: String)
    ensures
        r@ == lossy_text(b@),
{
    string_from_utf8_lossy(b)
}


/// The UTF-8 bytes of a concatenation are the concatenated bytes.
pub proof fn lemma_encode_concat(a: Seq<char>, b: Seq<char>)
    ensures
        encode_utf8(a + b) == encode_utf8(a) + encode_utf8(b),
    decreases a.len(),
{
    if a.len() > 0 {
        assert((a + b).drop_first() =~= a.drop_first() + b);
        lemma_encode_concat(a.drop_first(), b);
    } else {
        assert(a + b =~= b);
    }
}

/// The bytes of the string `from_utf8_lossy` makes of `b`.
pub open spec fn text_bytes(b: Seq<u8>) -> Seq<u8> {
    encode_utf8(lossy_text(b))
}

/// `a` followed by `b`, as a new `String`.
pub fn concat_strs(a: &str, b: &str) -> (r: String)
    ensures
        r@ == a@ + b@,
        encode_utf8(r@) == a.spec_bytes() + b.spec_bytes(),
{
    let mut s = a.to_owned();
    s.append(b);
    proof {
        lemma_encode_concat(a@, b@);
    }
    s
}

/// The characters of a `str` are what its bytes decode to.
pub proof fn lemma_str_chars(s: &str)
    ensures
        s@ == decode_utf8(s.spec_bytes()),
        valid_utf8(s.spec_bytes()),
{
    broadcast use vstd::utf8::encode_utf8_decode_utf8;

}

/// A `String` that holds ASCII bytes.
pub fn string_from_ascii(b: &[u8]) -> (r: String)
    requires
        all_ascii(b@),
    ensures
        r@ == ascii_chars(b@),
        encode_utf8(r@) == b@,
{
    proof {
        lemma_ascii_utf8(b@);
    }
    string_from_utf8_lossy(b)
}

// ---------------------------------------------------------------------------
// Characters: whitespace, trimming, lines
// ---------------------------------------------------------------------------

/// `char::is_whitespace`: the Unicode `White_Space` property.
pub open spec fn is_ws(c: char) -> bool {
    ||| c == ' '
    ||| ('\u{9}' <= c <= '\u{d}')
    ||| c == '\u{85}'
    ||| c == '\u{a0}'
    ||| c == '\u{1680}'
    ||| ('\u{2000}' <= c <= '\u{200a}')
    ||| c == '\u{2028}'
    ||| c == '\u{2029}'
    ||| c == '\u{202f}'
    ||| c == '\u{205f}'
    ||| c == '\u{3000}'
}

pub fn is_ws_exec(c: char) -> (r: bool)
    ensures
        r == is_ws(c),
{
    c == ' ' || ('\u{9}' <= c && c <= '\u{d}') || c == '\u{85}' || c == '\u{a0}' || c == '\u{1680}'
        || ('\u{2000}' <= c && c <= '\u{200a}') || c == '\u{2028}' || c == '\u{2029}' || c
        == '\u{202f}' || c == '\u{205f}' || c == '\u{3000}'
}

/// Number of leading whitespace characters.
pub open spec fn lead_ws(s: Seq<char>) -> nat
    decreases s.len(),
{
    if s.len() > 0 && is_ws(s[0]) {
        1 + lead_ws(s.drop_first())
    } else {
        0
    }
}

/// Number of trailing whitespace characters.
pub open spec fn trail_ws(s: Seq<char>) -> nat
    decreases s.len(),
{
    if s.len() > 0 && is_ws(s.last()) {
        1 + trail_ws(s.drop_last())
    } else {
        0
    }
}

/// `str::trim` on characters.
pub open spec fn trim_chars(s: Seq<char>) -> Seq<char> {
    let a = lead_ws(s) as int;
    let t = s.subrange(a, s.len() as int);
    t.subrange(0, t.len() - trail_ws(t))
}

pub proof fn lemma_lead_ws(s: Seq<char>, k: int)
    requires
        0 <= k <= s.len(),
        forall|j: int| 0 <= j < k ==> is_ws(#[trigger] s[j]),
        k == s.len() || !is_ws(s[k]),
    ensures
        lead_ws(s) == k,
    decreases k,
{
    if k > 0 {
        lemma_lead_ws(s.drop_first(), k - 1);
    }
}

pub proof fn lemma_trail_ws(s: Seq<char>, k: int)
    requires
        0 <= k <= s.len(),
        forall|j: int| s.len() - k <= j < s.len() ==> is_ws(#[trigger] s[j]),
        k == s.len() || !is_ws(s[s.len() - k - 1]),
    ensures
        trail_ws(s) == k,
    decreases k,
{
    if k > 0 {
        lemma_trail_ws(s.drop_last(), k - 1);
    }
}

/// `str::trim`: `s` without leading and trailing whitespace.
pub fn trim(s: &str) -> (r: &str)
    ensures
        r@ == trim_chars(s@),
{
    let n = s.unicode_len();
    let mut a: usize = 0;
    while a < n && is_ws_exec(s.get_char(a))
        invariant
            n == s@.len(),
            a <= n,
            forall|j: int| 0 <= j < a ==> is_ws(#[trigger] s@[j]),
        decreases n - a,
    {
        a = a + 1;
    }
    proof {
        lemma_lead_ws(s@, a as int);
    }
    let mut b: usize = n;
    while b > a && is_ws_exec(s.get_char(b - 1))
        invariant
            n == s@.len(),
            a <= b <= n,
            forall|j: int| b <= j < n ==> is_ws(#[trigger] s@[j]),
        decreases b,
    {
        b = b - 1;
    }
    proof {
        let t = s@.subrange(a as int, n as int);
        assert forall|j: int| t.len() - (n - b) <= j < t.len() implies is_ws(#[trigger] t[j]) by {
            assert(t[j] == s@[a + j]);
        }
        if b > a {
            assert(t[t.len() - (n - b) - 1] == s@[b - 1]);
        }
        lemma_trail_ws(t, (n - b) as int);
        assert(t.subrange(0, t.len() - (n - b)) =~= s@.subrange(a as int, b as int));
    }
    s.substring_char(a, b)
}

/// The characters of `s`, collected.
pub fn chars_of(s: &str) -> (r: Vec<char>)
    ensures
        r@ == s@,
{
    let n = s.unicode_len();
    let mut out: Vec<char> = Vec::new();
    let mut i: usize = 0;
    while i < n
        invariant
            n == s@.len(),
            i <= n,
            out@ =~= s@.subrange(0, i as int),
        decreases n - i,
    {
        out.push(s.get_char(i));
        i = i + 1;
        assert(out@ =~= s@.subrange(0, i as int));
    }
    assert(s@.subrange(0, n as int) =~= s@);
    out
}


/// `char::to_ascii_lowercase`.
pub open spec fn lower_char(c: char) -> char {
    if 'A' <= c <= 'Z' {
        ((c as u32) + 32) as char
    } else {
        c
    }
}

pub fn lower_char_exec(c: char) -> (r: char)
    ensures
        r == lower_char(c),
{
    if 'A' <= c && c <= 'Z' {
        ((c as u8) + 32) as char
    } else {
        c
    }
}

/// The first position at or after `i` that holds `c`, or `s.len()`.
pub open spec fn char_pos_from(s: Seq<char>, c: char, i: int) -> int
    decreases s.len() - i,
{
    if i < 0 || i >= s.len() || s[i] == c {
        i
    } else {
        char_pos_from(s, c, i + 1)
    }
}

pub proof fn lemma_char_pos_from(s: Seq<char>, c: char, i: int)
    requires
        0 <= i <= s.len(),
    ensures
        i <= char_pos_from(s, c, i) <= s.len(),
        char_pos_from(s, c, i) < s.len() ==> s[char_pos_from(s, c, i)] == c,
        forall|j: int| i <= j < char_pos_from(s, c, i) ==> #[trigger] s[j] != c,
    decreases s.len() - i,
{
    if i < s.len() && s[i] != c {
        lemma_char_pos_from(s, c, i + 1);
    }
}

/// The first position in `[i, end)` of `t` that holds `c`, or `end`.
pub fn char_pos(t: &Vec<char>, c: char, i: usize, end: usize) -> (r: usize)
    requires
        i <= end <= t@.len(),
    ensures
        r == char_pos_from(t@.subrange(0, end as int), c, i as int),
        i <= r <= end,
{
    let ghost s = t@.subrange(0, end as int);
    let mut k = i;
    while k < end && t[k] != c
        invariant
            i <= k <= end,
            end <= t@.len(),
            s == t@.subrange(0, end as int),
            char_pos_from(s, c, i as int) == char_pos_from(s, c, k as int),
        decreases end - k,
    {
        assert(s[k as int] == t@[k as int]);
        k = k + 1;
    }
    proof {
        if k < end {
            assert(s[k as int] == t@[k as int]);
        }
    }
    k
}

/// A copy of `t[a..b]`.
pub fn copy_range(t: &Vec<char>, a: usize, b: usize) -> (r: Vec<char>)
    requires
        a <= b <= t@.len(),
    ensures
        r@ == t@.subrange(a as int, b as int),
{
    let mut out: Vec<char> = Vec::new();
    let mut k = a;
    while k < b
        invariant
            a <= k <= b,
            b <= t@.len(),
            out@ =~= t@.subrange(a as int, k as int),
        decreases b - k,
    {
        out.push(t[k]);
        k = k + 1;
        assert(out@ =~= t@.subrange(a as int, k as int));
    }
    out
}

/// The bounds of `trim_chars(t[a..b])` inside `t`.
pub fn trim_range(t: &Vec<char>, a: usize, b: usize) -> (r: (usize, usize))
    requires
        a <= b <= t@.len(),
    ensures
        a <= r.0 <= r.1 <= b,
        t@.subrange(r.0 as int, r.1 as int) == trim_chars(t@.subrange(a as int, b as int)),
{
    let ghost s = t@.subrange(a as int, b as int);
    let mut x = a;
    while x < b && is_ws_exec(t[x])
        invariant
            a <= x <= b,
            b <= t@.len(),
            s == t@.subrange(a as int, b as int),
            forall|j: int| 0 <= j < x - a ==> is_ws(#[trigger] s[j]),
        decreases b - x,
    {
        assert(s[x - a] == t@[x as int]);
        x = x + 1;
    }
    proof {
        if x < b {
            assert(s[x - a] == t@[x as int]);
        }
        lemma_lead_ws(s, x - a);
    }
    let mut y = b;
    while y > x && is_ws_exec(t[y - 1])
        invariant
            a <= x <= y <= b,
            b <= t@.len(),
            forall|j: int| y <= j < b ==> is_ws(#[trigger] t@[j]),
        decreases y,
    {
        y = y - 1;
    }
    proof {
        let u = s.subrange(x - a, s.len() as int);
        assert(u =~= t@.subrange(x as int, b as int));
        assert forall|j: int| u.len() - (b - y) <= j < u.len() implies is_ws(#[trigger] u[j]) by {
            assert(u[j] == t@[x + j]);
        }
        if y > x {
            assert(u[u.len() - (b - y) - 1] == t@[y - 1]);
        }
        lemma_trail_ws(u, (b - y) as int);
        assert(u.subrange(0, u.len() - (b - y)) =~= t@.subrange(x as int, y as int));
    }
    (x, y)
}

// ---------------------------------------------------------------------------
// Decimal numbers
// ---------------------------------------------------------------------------

pub open spec fn is_digit(c: char) -> bool {
    '0' <= c <= '9'
}

pub open spec fn all_digits(s: Seq<char>) -> bool {
    forall|i: int| 0 <= i < s.len() ==> is_digit(#[trigger] s[i])
}

/// The number that a string of decimal digits writes.
pub open spec fn digits_value(s: Seq<char>) -> nat
    decreases s.len(),
{
    if s.len() == 0 {
        0
    } else {
        digits_value(s.drop_last()) * 10 + ((s.last() as u32) - ('0' as u32)) as nat
    }
}

/// `str::parse::<usize>()`: an optional `+`, then one or more ASCII digits
/// whose value fits in `usize`.
pub open spec fn parse_usize(s: Seq<char>) -> Option<usize> {
    let d = if s.len() > 1 && s[0] == '+' {
        s.drop_first()
    } else {
        s
    };
    if d.len() == 0 || !all_digits(d) || digits_value(d) > usize::MAX {
        None
    } else {
        Some(digits_value(d) as usize)
    }
}

/// `str::parse::<u64>()`: an optional `+`, then one or more ASCII digits
/// whose value fits in `u64`.
pub open spec fn parse_u64(s: Seq<char>) -> Option<u64> {
    let d = if s.len() > 1 && s[0] == '+' {
        s.drop_first()
    } else {
        s
    };
    if d.len() == 0 || !all_digits(d) || digits_value(d) > u64::MAX {
        None
    } else {
        Some(digits_value(d) as u64)
    }
}

/// The value of the digits `d`, or `None` once it exceeds `limit`.
fn digits_value_upto(d: &Vec<char>, start: usize, limit: u64) -> (r: Option<u64>)
    requires
        start <= d@.len(),
        limit >= 9,
    ensures
        match r {
            Some(v) => all_digits(d@.subrange(start as int, d@.len() as int)) && v
                == digits_value(d@.subrange(start as int, d@.len() as int)) && v <= limit,
            None => !all_digits(d@.subrange(start as int, d@.len() as int)) || digits_value(
                d@.subrange(start as int, d@.len() as int),
            ) > limit,
        },
{
    let mut v: u64 = 0;
    let mut i: usize = start;
    while i < d.len()
        invariant
            start <= i <= d@.len(),
            limit >= 9,
            all_digits(d@.subrange(start as int, i as int)),
            v == digits_value(d@.subrange(start as int, i as int)),
            v <= limit,
        decreases d@.len() - i,
    {
        let c = d[i];
        let ghost prev = d@.subrange(start as int, i as int);
        let ghost next = d@.subrange(start as int, i + 1);
        assert(next.drop_last() =~= prev);
        if !('0' <= c && c <= '9') {
            proof {
                assert(!is_digit(d@.subrange(start as int, d@.len() as int)[i - start]));
            }
            return None;
        }
        let dv = (c as u32 - '0' as u32) as u64;
        assert(dv <= 9);
        if v > (limit - dv) / 10 {
            proof {
                let full = d@.subrange(start as int, d@.len() as int);
                assert(next.last() == c);
                assert(digits_value(next) == v * 10 + dv);
                assert(v * 10 + dv > limit) by (nonlinear_arith)
                    requires
                        v > (limit - dv) / 10,
                        dv <= 9,
                        limit >= 9,
                ;
                if all_digits(full) {
                    lemma_digits_value_prefix(full, i - start + 1);
                    assert(full.subrange(0, i - start + 1) =~= next);
                }
            }
            return None;
        }
        proof {
            assert(v * 10 + dv <= limit) by (nonlinear_arith)
                requires
                    v <= (limit - dv) / 10,
                    dv <= limit,
            ;
            assert(next.last() == c);
        }
        v = v * 10 + dv;
        i = i + 1;
    }
    proof {
        assert(d@.subrange(start as int, d@.len() as int) =~= d@.subrange(start as int, i as int));
    }
    Some(v)
}

/// The value of a digit string grows with its prefixes.
pub proof fn lemma_digits_value_prefix(s: Seq<char>, k: int)
    requires
        0 <= k <= s.len(),
        all_digits(s),
    ensures
        digits_value(s.subrange(0, k)) <= digits_value(s),
    decreases s.len(),
{
    if k < s.len() {
        assert(s.drop_last().subrange(0, k) =~= s.subrange(0, k));
        lemma_digits_value_prefix(s.drop_last(), k);
    } else {
        assert(s.subrange(0, k) =~= s);
    }
}

/// `str::parse::<u64>()` on characters.
pub fn parse_u64_chars(s: &Vec<char>) -> (r: Option<u64>)
    ensures
        r == parse_u64(s@),
{
    let start: usize = if s.len() > 1 && s[0] == '+' {
        1
    } else {
        0
    };
    let ghost d = s@.subrange(start as int, s@.len() as int);
    proof {
        if start == 1 {
            assert(d =~= s@.drop_first());
        } else {
            assert(d =~= s@);
        }
    }
    if start == s.len() {
        return None;
    }
    digits_value_upto(s, start, u64::MAX)
}

/// `str::parse::<usize>()` on characters.
pub fn parse_usize_chars(s: &Vec<char>) -> (r: Option<usize>)
    ensures
        r == parse_usize(s@),
{
    let start: usize = if s.len() > 1 && s[0] == '+' {
        1
    } else {
        0
    };
    let ghost d = s@.subrange(start as int, s@.len() as int);
    proof {
        if start == 1 {
            assert(d =~= s@.drop_first());
        } else {
            assert(d =~= s@);
        }
    }
    if start == s.len() {
        return None;
    }
    match digits_value_upto(s, start, usize::MAX as u64) {
        Some(v) => Some(v as usize),
        None => None,
    }
}

/// The decimal digits of `n`, most significant first, with no leading zero.
pub open spec fn decimal(n: nat) -> Seq<u8>
    decreases n,
{
    if n < 10 {
        seq![(n + 48) as u8]
    } else {
        decimal(n / 10).push(((n % 10) + 48) as u8)
    }
}

/// Appends the decimal digits of `n` to `out`.
pub fn push_decimal(n: usize, out: &mut Vec<u8>)
    ensures
        final(out)@ == old(out)@ + decimal(n as nat),
    decreases n,
{
    if n >= 10 {
        push_decimal(n / 10, out);
    }
    let d: u8 = (n % 10) as u8;
    out.push(d + 48);
    proof {
        if n >= 10 {
            assert(old(out)@ + decimal(n as nat) =~= old(out)@ + decimal((n / 10) as nat) + seq![(d + 48) as u8]);
        } else {
            assert(decimal(n as nat) =~= seq![(d + 48) as u8]);
        }
    }
}

/// Decimal digits are ASCII digit bytes, and the characters they decode to read
/// back as the same number.
pub proof fn lemma_decimal(n: nat)
    ensures
        decimal(n).len() >= 1,
        forall|i: int| 0 <= i < decimal(n).len() ==> 48 <= #[trigger] decimal(n)[i] <= 57,
        all_digits(ascii_chars(decimal(n))),
        digits_value(ascii_chars(decimal(n))) == n,
    decreases n,
{
    let d = decimal(n);
    let c = ascii_chars(d).last();
    assert(c == d.last() as char);
    assert(d.last() == ((n % 10) + 48) as u8);
    assert((c as u32) == (n % 10) + 48);
    if n >= 10 {
        lemma_decimal(n / 10);
        assert(ascii_chars(d).drop_last() =~= ascii_chars(decimal(n / 10)));
        assert(digits_value(ascii_chars(d)) == digits_value(ascii_chars(d).drop_last()) * 10 + ((
        c as u32) - ('0' as u32)) as nat);
        assert(digits_value(ascii_chars(d)) == (n / 10) * 10 + n % 10);
    } else {
        assert(ascii_chars(d).drop_last() =~= Seq::<char>::empty());
        assert(digits_value(ascii_chars(d)) == digits_value(ascii_chars(d).drop_last()) * 10 + ((
        c as u32) - ('0' as u32)) as nat);
    }
    assert forall|i: int| 0 <= i < ascii_chars(d).len() implies is_digit(
        #[trigger] ascii_chars(d)[i],
    ) by {
        assert(48 <= d[i] <= 57);
    }
}

/// Proves that a string literal holds the given ASCII bytes.
pub proof fn lemma_literal_bytes(s: &str, x: Seq<u8>)
    requires
        all_ascii(x),
        s@ == ascii_chars(x),
    ensures
        s.spec_bytes() == x,
{
    lemma_str_chars(s);
    lemma_ascii_utf8(x);
    vstd::utf8::decode_utf8_encode_utf8(s.spec_bytes());
}

} // verus!
