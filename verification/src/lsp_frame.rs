//! LSP stdio framing: `Content-Length: N\r\n\r\n` followed by `N` bytes of JSON.

use vstd::prelude::*;
use vstd::utf8::*;

use crate::text::{
    all_ascii, ascii_chars, is_ws, lemma_ascii_utf8, lemma_decimal, lemma_lead_ws, lemma_trail_ws,
    char_pos, char_pos_from, chars_of, copy_range, decimal, ends_with, ends_with_bytes, find_bytes,
    find_first, lemma_char_pos_from, lemma_find_from, lossy_string, lossy_text, lower_char,
    lower_char_exec, occurs_at, parse_usize, parse_usize_chars, push_decimal, trim_chars,
    trim_range,
};

verus! {

// ---------------------------------------------------------------------------
// The framing format
// ---------------------------------------------------------------------------

/// The bytes `\r\n\r\n` that end a header block.
pub open spec fn header_sep() -> Seq<u8> {
    seq![13u8, 10u8, 13u8, 10u8]
}

/// `Content-Length`, lowercased, as characters.
pub open spec fn content_length_lower() -> Seq<char> {
    seq!['c', 'o', 'n', 't', 'e', 'n', 't', '-', 'l', 'e', 'n', 'g', 't', 'h']
}

/// The bytes `Content-Length: ` that open the header this library writes.
pub open spec fn content_length_prefix() -> Seq<u8> {
    seq![
        67u8, 111u8, 110u8, 116u8, 101u8, 110u8, 116u8, 45u8, 76u8, 101u8, 110u8, 103u8, 116u8,
        104u8, 58u8, 32u8,
    ]
}

/// A header name equal to `Content-Length` up to ASCII case.
pub open spec fn is_content_length_name(name: Seq<char>) -> bool {
    name.len() == 14 && forall|i: int|
        0 <= i < 14 ==> lower_char(#[trigger] name[i]) == content_length_lower()[i]
}

/// What one header line says the content length is: the line splits at its
/// first `:` into a name equal to `Content-Length` up to ASCII case and a value
/// that, trimmed, parses as a `usize`.
pub open spec fn header_line_value(line: Seq<char>) -> Option<usize> {
    let k = char_pos_from(line, ':', 0);
    if k >= line.len() {
        None
    } else if !is_content_length_name(line.subrange(0, k)) {
        None
    } else {
        parse_usize(trim_chars(line.subrange(k + 1, line.len() as int)))
    }
}

/// The line of `t` that starts at `i`, as `str::lines` yields it: up to the next
/// `\n`, without the `\n` and without one `\r` before it.
pub open spec fn line_at(t: Seq<char>, i: int) -> Seq<char> {
    let e = char_pos_from(t, '\n', i);
    let raw = t.subrange(i, e);
    if e < t.len() && raw.len() > 0 && raw.last() == '\r' {
        raw.drop_last()
    } else {
        raw
    }
}

/// The value of the first line at or after position `i` that gives a content
/// length (`lines().find_map(..)`).
pub open spec fn content_length_from(t: Seq<char>, i: int) -> Option<usize>
    decreases t.len() + 1 - i,
{
    if i < 0 || i >= t.len() {
        None
    } else {
        proof {
            lemma_char_pos_from(t, '\n', i);
        }
        let e = char_pos_from(t, '\n', i);
        match header_line_value(line_at(t, i)) {
            Some(v) => Some(v),
            None => content_length_from(t, e + 1),
        }
    }
}

/// The content length that a header block announces, or 0 when no line gives one.
pub open spec fn content_length_of(header: Seq<u8>) -> usize {
    match content_length_from(lossy_text(header), 0) {
        Some(v) => v,
        None => 0,
    }
}

/// The length of the header block that opens `m`: up to and including the first
/// `\r\n\r\n`.
pub open spec fn header_len(m: Seq<u8>) -> Option<int> {
    match find_first(m, header_sep()) {
        Some(p) => Some(p + 4),
        None => None,
    }
}

/// `m` is one whole message: a header block, then exactly as many bytes as it
/// announces.
pub open spec fn is_complete_message(m: Seq<u8>) -> bool {
    match header_len(m) {
        Some(h) => m.len() == h + content_length_of(m.subrange(0, h)),
        None => false,
    }
}

/// The bytes after the first `\r\n\r\n`.
pub open spec fn body_of(raw: Seq<u8>) -> Option<Seq<u8>> {
    match header_len(raw) {
        Some(h) => Some(raw.subrange(h, raw.len() as int)),
        None => None,
    }
}

/// The message this library writes for a JSON text.
pub open spec fn framed(json: Seq<u8>) -> Seq<u8> {
    content_length_prefix() + decimal(json.len()) + header_sep() + json
}

// ---------------------------------------------------------------------------
// Parsing headers
// ---------------------------------------------------------------------------

fn content_length_name_at(t: &Vec<char>, a: usize, b: usize) -> (r: bool)
    requires
        a <= b <= t@.len(),
    ensures
        r == is_content_length_name(t@.subrange(a as int, b as int)),
{
    if b - a != 14 {
        return false;
    }
    let want: [char; 14] = ['c', 'o', 'n', 't', 'e', 'n', 't', '-', 'l', 'e', 'n', 'g', 't', 'h'];
    assert(want@ == content_length_lower());
    let ghost name = t@.subrange(a as int, b as int);
    let mut k: usize = 0;
    while k < 14
        invariant
            b - a == 14,
            b <= t@.len(),
            k <= 14,
            want@ == content_length_lower(),
            name == t@.subrange(a as int, b as int),
            forall|i: int| 0 <= i < k ==> lower_char(#[trigger] name[i]) == content_length_lower()[i],
        decreases 14 - k,
    {
        assert(name[k as int] == t@[a + k]);
        if lower_char_exec(t[a + k]) != want[k] {
            return false;
        }
        k = k + 1;
    }
    true
}

/// The content length that the line `t[a..b]` gives, if it gives one.
fn line_value(t: &Vec<char>, a: usize, b: usize) -> (r: Option<usize>)
    requires
        a <= b <= t@.len(),
    ensures
        r == header_line_value(t@.subrange(a as int, b as int)),
{
    let ghost line = t@.subrange(a as int, b as int);
    let k = char_pos(t, ':', a, b);
    proof {
        lemma_char_pos_from(t@.subrange(0, b as int), ':', a as int);
        lemma_char_pos_from(line, ':', 0);
        lemma_char_pos_shift(t@, ':', a as int, b as int);
    }
    if k >= b {
        return None;
    }
    proof {
        assert(line.subrange(0, k - a) =~= t@.subrange(a as int, k as int));
        assert(line.subrange(k - a + 1, line.len() as int) =~= t@.subrange(k + 1, b as int));
    }
    if !content_length_name_at(t, a, k) {
        return None;
    }
    let (x, y) = trim_range(t, k + 1, b);
    let v = copy_range(t, x, y);
    parse_usize_chars(&v)
}

/// `char_pos_from` inside `t[a..b]` agrees with `char_pos_from` on `t[..b]` from `a`.
proof fn lemma_char_pos_shift(t: Seq<char>, c: char, a: int, b: int)
    requires
        0 <= a <= b <= t.len(),
    ensures
        char_pos_from(t.subrange(a, b), c, 0) + a == char_pos_from(t.subrange(0, b), c, a),
{
    let s = t.subrange(a, b);
    let u = t.subrange(0, b);
    lemma_char_pos_from(s, c, 0);
    lemma_char_pos_from(u, c, a);
    let p = char_pos_from(s, c, 0);
    let q = char_pos_from(u, c, a);
    if p + a < q {
        assert(s[p] == u[p + a]);
    } else if q < p + a {
        assert(s[q - a] == u[q]);
    }
}

/// The value of the `Content-Length` header in a header block, or 0 when there
/// is none: the bytes are read as text (`String::from_utf8_lossy`), split into
/// lines, and the first line whose name before its first `:` is
/// `Content-Length` (ignoring ASCII case) and whose trimmed value parses as a
/// number gives the length.
pub fn parse_content_length(header: &[u8]) -> (r: usize)
    ensures
        r == content_length_of(header@),
{
    let text = lossy_string(header);
    let t = chars_of(text.as_str());
    let ghost tt = t@;
    assert(tt == lossy_text(header@));
    let n = t.len();
    let mut i: usize = 0;
    while i < n
        invariant
            n == t@.len(),
            tt == t@,
            tt == lossy_text(header@),
            i <= n,
            content_length_from(tt, 0) == content_length_from(tt, i as int),
        decreases n - i,
    {
        let e = char_pos(&t, '\n', i, n);
        proof {
            assert(t@.subrange(0, n as int) =~= tt);
            lemma_char_pos_from(tt, '\n', i as int);
        }
        let mut le = e;
        if e < n && le > i && t[le - 1] == '\r' {
            le = le - 1;
        }
        proof {
            let raw = tt.subrange(i as int, e as int);
            if e < n && e > i && tt[e - 1] == '\r' {
                assert(raw.last() == tt[e - 1]);
                assert(raw.drop_last() =~= tt.subrange(i as int, le as int));
            } else {
                if raw.len() > 0 {
                    assert(raw.last() == tt[e - 1]);
                }
            }
            assert(line_at(tt, i as int) =~= tt.subrange(i as int, le as int));
        }
        match line_value(&t, i, le) {
            Some(v) => {
                assert(content_length_from(tt, i as int) == Some(v));
                return v;
            },
            None => {},
        }
        assert(content_length_from(tt, i as int) == content_length_from(tt, e + 1));
        if e >= n {
            assert(content_length_from(tt, e + 1) is None);
            return 0;
        }
        i = e + 1;
    }
    0
}

// ---------------------------------------------------------------------------
// Messages
// ---------------------------------------------------------------------------

/// The body of a raw message: everything after the first `\r\n\r\n`, or `None`
/// when there is no such separator.
pub fn lsp_body(raw: &[u8]) -> (r: Option<&[u8]>)
    ensures
        match r {
            Some(b) => body_of(raw@) == Some(b@),
            None => body_of(raw@) is None,
        },
{
    let sep: [u8; 4] = [13, 10, 13, 10];
    assert(sep@ == header_sep());
    match find_bytes(raw, &sep, 0) {
        Some(p) => {
            proof {
                lemma_find_from(raw@, header_sep(), 0);
                assert(occurs_at(raw@, header_sep(), p as int));
                assert(p + 4 <= raw@.len());
                assert(raw@.len() == raw.len());
            }
            Some(vstd::slice::slice_subrange(raw, p + 4, raw.len()))
        },
        None => None,
    }
}

/// The message for a JSON text: `Content-Length: <byte length>\r\n\r\n<json>`.
pub fn frame_json(json: &[u8]) -> (r: Vec<u8>)
    ensures
        r@ == framed(json@),
{
    let prefix: [u8; 16] = [67, 111, 110, 116, 101, 110, 116, 45, 76, 101, 110, 103, 116, 104, 58, 32];
    assert(prefix@ == content_length_prefix());
    let mut out: Vec<u8> = Vec::new();
    let mut k: usize = 0;
    while k < 16
        invariant
            k <= 16,
            prefix@ == content_length_prefix(),
            out@ =~= content_length_prefix().subrange(0, k as int),
        decreases 16 - k,
    {
        out.push(prefix[k]);
        k = k + 1;
        assert(out@ =~= content_length_prefix().subrange(0, k as int));
    }
    push_decimal(json.len(), &mut out);
    out.push(13);
    out.push(10);
    out.push(13);
    out.push(10);
    let ghost before = out@;
    let mut j: usize = 0;
    while j < json.len()
        invariant
            j <= json@.len(),
            out@ =~= before + json@.subrange(0, j as int),
        decreases json@.len() - j,
    {
        out.push(json[j]);
        j = j + 1;
        assert(out@ =~= before + json@.subrange(0, j as int));
    }
    assert(json@.subrange(0, json@.len() as int) =~= json@);
    assert(out@ =~= framed(json@));
    out
}

// ---------------------------------------------------------------------------
// Reading messages
// ---------------------------------------------------------------------------

#[verifier::external_type_specification]
#[verifier::external_body]
pub struct ExIoError(std::io::Error);

#[verifier::external_type_specification]
pub struct ExIoErrorKind(std::io::ErrorKind);

/// What `std::io::Error::kind` returns for an error.
pub uninterp spec fn io_error_kind(e: std::io::Error) -> std::io::ErrorKind;

/// `std::io::Error::from(ErrorKind::UnexpectedEof)`, the error that
/// `Read::read_exact` reports when the input ends early. Its contract states
/// what std documents of this conversion: the error's `kind()` is
/// `UnexpectedEof`.
#[verifier::external_body]
fn unexpected_eof() -> (r: std::io::Error)
    ensures
        io_error_kind(r) == std::io::ErrorKind::UnexpectedEof,
{
    std::io::Error::from(std::io::ErrorKind::UnexpectedEof)
}

/// A stream of bytes that messages are read from, one byte at a time.
/// `Ok(None)` means the stream has ended.
pub trait ByteSource {
    fn read_byte(&mut self) -> std::io::Result<Option<u8>>;
}

/// What one read from the byte stream gave.
pub enum ReadEvent {
    Byte(u8),
    End,
    Failed(std::io::Error),
}

/// The event a read result stands for.
pub open spec fn event_of(r: std::io::Result<Option<u8>>) -> ReadEvent {
    match r {
        Ok(Some(b)) => ReadEvent::Byte(b),
        Ok(None) => ReadEvent::End,
        Err(e) => ReadEvent::Failed(e),
    }
}

/// One `Byte` event for each byte of `b`.
pub open spec fn byte_events(b: Seq<u8>) -> Seq<ReadEvent> {
    Seq::new(b.len(), |i: int| ReadEvent::Byte(b[i]))
}

/// Every event delivered a byte.
pub open spec fn all_bytes(ev: Seq<ReadEvent>) -> bool {
    forall|i: int| 0 <= i < ev.len() ==> #[trigger] ev[i] is Byte
}

/// The bytes that the events delivered.
pub open spec fn bytes_of(ev: Seq<ReadEvent>) -> Seq<u8> {
    Seq::new(ev.len(), |i: int| ev[i]->Byte_0)
}

/// The events of one call that stopped on its last event: there is one, and
/// every event before it delivered a byte.
pub open spec fn stopped(ev: Seq<ReadEvent>) -> bool {
    ev.len() > 0 && all_bytes(ev.drop_last())
}

/// The call read a byte past the largest buffer it can hold.
pub open spec fn limit_hit(ev: Seq<ReadEvent>) -> bool {
    ev.len() > 0 && ev.last() is Byte && ev.len() - 1 == usize::MAX
}

/// Bytes that do not yet hold a whole message: no complete header block, or
/// fewer bytes after it than it announces.
pub open spec fn incomplete(b: Seq<u8>) -> bool {
    match header_len(b) {
        None => true,
        Some(h) => b.len() < h + content_length_of(b.subrange(0, h)),
    }
}

/// The events after the first `n`.
pub open spec fn events_after(ev: Seq<ReadEvent>, n: nat) -> Seq<ReadEvent> {
    ev.subrange(n as int, ev.len() as int)
}

/// Reads whole LSP messages from a byte stream.
pub struct LspReader<R> {
    reader: R,
    events: Ghost<Seq<ReadEvent>>,
}

impl<R: ByteSource> LspReader<R> {
    /// The byte stream the reader reads from.
    pub closed spec fn source(&self) -> R {
        self.reader
    }

    /// Every read result the reader has seen, in order.
    pub closed spec fn events(&self) -> Seq<ReadEvent> {
        self.events@
    }

    pub fn new(reader: R) -> (r: Self)
        ensures
            r.source() == reader,
            r.events() == Seq::<ReadEvent>::empty(),
    {
        Self { reader, events: Ghost(Seq::empty()) }
    }

    /// Reads one byte, and records what the read gave.
    fn next_byte(&mut self) -> (r: std::io::Result<Option<u8>>)
        ensures
            final(self).events() == old(self).events().push(event_of(r)),
    {
        let r = self.reader.read_byte();
        self.events = Ghost(self.events@.push(event_of(r)));
        r
    }

    /// Reads the next message, header block included, by reading the stream
    /// one byte at a time, and stops at the first of:
    /// - a complete message (the header block up to its first `\r\n\r\n`,
    ///   then as many bytes as it announces): `Ok(Some(message))`;
    /// - the end of the stream before the header block is complete:
    ///   `Ok(None)`; also when the header block outgrows the largest buffer;
    /// - a failed read: that read's error;
    /// - the end of the stream inside the content (or content that outgrows
    ///   the largest buffer): an error of kind `UnexpectedEof`.
    ///
    /// The events of the call are what the stream gave during it.
    pub fn read_message(&mut self) -> (r: std::io::Result<Option<Vec<u8>>>)
        ensures
            old(self).events().len() <= final(self).events().len(),
            final(self).events().subrange(0, old(self).events().len() as int) == old(self).events(),
            ({
                let ev = events_after(final(self).events(), old(self).events().len());
                let b = bytes_of(ev.drop_last());
                match r {
                    Ok(Some(m)) => all_bytes(ev) && bytes_of(ev) == m@ && is_complete_message(m@),
                    Ok(None) => stopped(ev) && header_len(b) is None && (ev.last() is End
                        || limit_hit(ev)),
                    Err(e) => stopped(ev) && incomplete(b) && (ev.last() == ReadEvent::Failed(e)
                        || (header_len(b) is Some && (ev.last() is End || limit_hit(ev))
                        && io_error_kind(e) == std::io::ErrorKind::UnexpectedEof)),
                }
            }),
    {
        let ghost ev0 = self.events();
        let sep: [u8; 4] = [13, 10, 13, 10];
        assert(sep@ == header_sep());
        let mut header_buf: Vec<u8> = Vec::new();
        assert(ev0 + byte_events(header_buf@) =~= ev0);
        loop
            invariant_except_break
                sep@ == header_sep(),
                forall|j: int| !#[trigger] occurs_at(header_buf@, header_sep(), j),
                self.events() == ev0 + byte_events(header_buf@),
                ev0 == old(self).events(),
            ensures
                header_buf@.len() >= 4,
                ends_with(header_buf@, header_sep()),
                forall|j: int| 0 <= j < header_buf@.len() - 4 ==> !#[trigger] occurs_at(header_buf@, header_sep(), j),
                self.events() == ev0 + byte_events(header_buf@),
            decreases usize::MAX - header_buf@.len(),
        {
            let ghost old_buf = header_buf@;
            let got = self.next_byte();
            proof {
                lemma_no_header(old_buf);
                lemma_call_events(ev0, old_buf, event_of(got));
            }
            let byte = match got {
                Ok(Some(b)) => b,
                Ok(None) => {
                    return Ok(None);
                },
                Err(e) => {
                    return Err(e);
                },
            };
            if header_buf.len() == usize::MAX {
                return Ok(None);
            }
            header_buf.push(byte);
            proof {
                assert(byte_events(header_buf@) =~= byte_events(old_buf).push(ReadEvent::Byte(byte)));
                assert(ev0 + byte_events(header_buf@) =~= (ev0 + byte_events(old_buf)).push(
                    ReadEvent::Byte(byte),
                ));
            }
            if ends_with_bytes(&header_buf, &sep) {
                proof {
                    assert forall|j: int| 0 <= j < header_buf@.len() - 4 implies !#[trigger] occurs_at(header_buf@, header_sep(), j) by {
                        if occurs_at(header_buf@, header_sep(), j) {
                            assert(header_buf@.subrange(j, j + 4) =~= old_buf.subrange(j, j + 4));
                            assert(occurs_at(old_buf, header_sep(), j));
                        }
                    }
                }
                break;
            }
            proof {
                assert forall|j: int| !#[trigger] occurs_at(header_buf@, header_sep(), j) by {
                    if occurs_at(header_buf@, header_sep(), j) && j + 4 < header_buf@.len() {
                        assert(header_buf@.subrange(j, j + 4) =~= old_buf.subrange(j, j + 4));
                        assert(occurs_at(old_buf, header_sep(), j));
                    }
                    if occurs_at(header_buf@, header_sep(), j) && j + 4 == header_buf@.len() {
                        assert(ends_with(header_buf@, header_sep()));
                    }
                }
            }
        }
        let ghost header = header_buf@;
        let h = header_buf.len();
        proof {
            assert(header.subrange(h - 4, h as int) == header_sep());
            lemma_find_first_at(header, header_sep(), h - 4);
        }
        let content_length = parse_content_length(&header_buf);
        let mut message = header_buf;
        let mut read: usize = 0;
        assert(message@.subrange(0, h as int) =~= header);
        while read < content_length
            invariant
                read <= content_length,
                content_length == content_length_of(header),
                header_len(header) == Some(h as int),
                h == header.len(),
                message@.len() == h + read,
                message@.subrange(0, h as int) == header,
                self.events() == ev0 + byte_events(message@),
                ev0 == old(self).events(),
            decreases content_length - read,
        {
            let ghost before = message@;
            let got = self.next_byte();
            proof {
                lemma_header_prefix(header, before);
                lemma_call_events(ev0, before, event_of(got));
            }
            match got {
                Ok(Some(b)) => {
                    if message.len() == usize::MAX {
                        return Err(unexpected_eof());
                    }
                    message.push(b);
                    proof {
                        assert(message@.subrange(0, h as int) =~= header);
                        assert(byte_events(message@) =~= byte_events(before).push(ReadEvent::Byte(b)));
                        assert(ev0 + byte_events(message@) =~= (ev0 + byte_events(before)).push(
                            ReadEvent::Byte(b),
                        ));
                    }
                },
                Ok(None) => {
                    return Err(unexpected_eof());
                },
                Err(e) => {
                    return Err(e);
                },
            }
            read = read + 1;
        }
        proof {
            let m = message@;
            lemma_header_prefix(header, m);
            let ev = events_after(self.events(), ev0.len());
            assert(ev =~= byte_events(m));
            assert(bytes_of(ev) =~= m);
        }
        Ok(Some(message))
    }
}

/// Bytes with no header separator in them have no header block.
proof fn lemma_no_header(b: Seq<u8>)
    requires
        forall|j: int| !#[trigger] occurs_at(b, header_sep(), j),
    ensures
        header_len(b) is None,
        incomplete(b),
{
    lemma_find_from(b, header_sep(), 0);
    if let Some(k) = find_first(b, header_sep()) {
        assert(occurs_at(b, header_sep(), k));
    }
}

/// Bytes that begin with a header block have that header block, and are
/// incomplete while shorter than it announces.
proof fn lemma_header_prefix(header: Seq<u8>, m: Seq<u8>)
    requires
        header_len(header) == Some(header.len() as int),
        header.len() <= m.len(),
        m.subrange(0, header.len() as int) == header,
    ensures
        header_len(m) == Some(header.len() as int),
        m.len() < header.len() + content_length_of(header) ==> incomplete(m),
{
    let sep = header_sep();
    lemma_find_from(header, sep, 0);
    let k = header.len() - 4;
    assert(m.subrange(k, k + 4) =~= header.subrange(k, k + 4));
    assert forall|j: int| 0 <= j < k implies !#[trigger] occurs_at(m, sep, j) by {
        if occurs_at(m, sep, j) {
            assert(m.subrange(j, j + 4) =~= header.subrange(j, j + 4));
            assert(occurs_at(header, sep, j));
        }
    }
    lemma_find_first_at(m, sep, k);
}

/// The events of a call that read `b` and then saw `last`.
proof fn lemma_call_events(ev0: Seq<ReadEvent>, b: Seq<u8>, last: ReadEvent)
    ensures
        ({
            let all = (ev0 + byte_events(b)).push(last);
            let ev = events_after(all, ev0.len());
            &&& ev0.len() <= all.len()
            &&& all.subrange(0, ev0.len() as int) == ev0
            &&& ev == byte_events(b).push(last)
            &&& stopped(ev)
            &&& ev.last() == last
            &&& bytes_of(ev.drop_last()) == b
            &&& (limit_hit(ev) <==> (last is Byte && b.len() == usize::MAX))
        }),
{
    let all = (ev0 + byte_events(b)).push(last);
    let ev = events_after(all, ev0.len());
    assert(all.subrange(0, ev0.len() as int) =~= ev0);
    assert(ev =~= byte_events(b).push(last));
    assert(ev.drop_last() =~= byte_events(b));
    assert(bytes_of(ev.drop_last()) =~= b);
}

/// An occurrence with none before it is the first one.
pub proof fn lemma_find_first_at(s: Seq<u8>, n: Seq<u8>, k: int)
    requires
        occurs_at(s, n, k),
        forall|j: int| 0 <= j < k ==> !#[trigger] occurs_at(s, n, j),
    ensures
        find_first(s, n) == Some(k),
{
    lemma_find_from(s, n, 0);
}

// ---------------------------------------------------------------------------
// Laws
// ---------------------------------------------------------------------------

proof fn lemma_char_pos_is(s: Seq<char>, c: char, i: int, k: int)
    requires
        0 <= i <= k <= s.len(),
        k < s.len() ==> s[k] == c,
        forall|j: int| i <= j < k ==> #[trigger] s[j] != c,
    ensures
        char_pos_from(s, c, i) == k,
    decreases k - i,
{
    if i < k {
        lemma_char_pos_is(s, c, i + 1, k);
    }
}

/// A framed message is one whole message: reading it back finds a header block
/// that announces exactly the length of the JSON text, and its body is that
/// text.
pub proof fn lemma_frame_read_back(json: Seq<u8>)
    requires
        json.len() <= usize::MAX,
    ensures
        header_len(framed(json)) == Some(16 + decimal(json.len()).len() as int + 4),
        content_length_of(framed(json).subrange(0, 16 + decimal(json.len()).len() as int + 4))
            == json.len(),
        is_complete_message(framed(json)),
        body_of(framed(json)) == Some(json),
{
    let pre = content_length_prefix();
    let d = decimal(json.len());
    lemma_decimal(json.len());
    let hd = pre + d + header_sep();
    let m = framed(json);
    let q: int = 16 + d.len() as int;
    let h: int = q + 4;
    assert(m =~= hd + json);
    assert(m.subrange(0, h) =~= hd);
    assert(m.subrange(h, m.len() as int) =~= json);
    // (a) the first separator follows the digits
    assert forall|j: int| 0 <= j < q implies hd[j] != 13u8 && hd[j] != 10u8 && (j != 14 ==> hd[j] != 58u8) && (j != 15 ==> hd[j] != 32u8) by {
        if j < 16 {
            assert(hd[j] == pre[j]);
        } else {
            assert(hd[j] == d[j - 16]);
        }
    }
    assert(m.subrange(q, q + 4) =~= header_sep());
    assert forall|j: int| 0 <= j < q implies !#[trigger] occurs_at(m, header_sep(), j) by {
        if occurs_at(m, header_sep(), j) {
            assert(m.subrange(j, j + 4)[0] == m[j]);
            assert(m[j] == hd[j]);
        }
    }
    lemma_find_first_at(m, header_sep(), q);
    // (b) the header block is ASCII text
    assert(all_ascii(hd)) by {
        assert forall|j: int| 0 <= j < hd.len() implies #[trigger] hd[j] < 0x80 by {
            if j < 16 {
                assert(hd[j] == pre[j]);
            } else if j < q {
                assert(hd[j] == d[j - 16]);
            } else {
                assert(hd[j] == header_sep()[j - q]);
            }
        }
    }
    lemma_ascii_utf8(hd);
    let t = ascii_chars(hd);
    assert(lossy_text(hd) == t);
    // (c) its first line is `Content-Length: <digits>`
    assert(t[q + 1] == '\n');
    assert forall|j: int| 0 <= j < q + 1 implies #[trigger] t[j] != '\n' by {
        if j == q {
            assert(t[j] == (13u8 as char));
        } else {
            assert(t[j] == hd[j] as char);
        }
    }
    lemma_char_pos_is(t, '\n', 0, q + 1);
    let raw = t.subrange(0, q + 1);
    assert(raw.last() == '\r');
    let line = raw.drop_last();
    assert(line_at(t, 0) == line);
    assert(line =~= ascii_chars(pre + d));
    assert(line[14] == ':');
    assert forall|j: int| 0 <= j < 14 implies #[trigger] line[j] != ':' by {
        assert(line[j] == pre[j] as char);
    }
    lemma_char_pos_is(line, ':', 0, 14);
    let name = line.subrange(0, 14);
    assert forall|i: int| 0 <= i < 14 implies lower_char(#[trigger] name[i]) == content_length_lower()[i] by {
        assert(name[i] == pre[i] as char);
    }
    let value = line.subrange(15, line.len() as int);
    let digits = ascii_chars(d);
    assert(value =~= seq![' '] + digits);
    assert(is_ws(value[0]));
    assert(!is_ws(value[1])) by {
        assert(value[1] == digits[0]);
        assert(48 <= d[0] <= 57);
    }
    lemma_lead_ws(value, 1);
    let rest = value.subrange(1, value.len() as int);
    assert(rest =~= digits);
    assert(!is_ws(rest.last())) by {
        assert(rest.last() == digits[digits.len() - 1]);
        assert(48 <= d[d.len() - 1] <= 57);
    }
    lemma_trail_ws(rest, 0);
    assert(trim_chars(value) =~= digits);
    assert(digits[0] != '+') by {
        assert(48 <= d[0] <= 57);
    }
    assert(parse_usize(digits) == Some(json.len() as usize));
    assert(header_line_value(line) == Some(json.len() as usize));
    assert(content_length_from(t, 0) == Some(json.len() as usize));
}

/// The body of a whole message has exactly the length its header announces.
pub proof fn lemma_complete_message_body(m: Seq<u8>)
    requires
        is_complete_message(m),
    ensures
        match (header_len(m), body_of(m)) {
            (Some(h), Some(b)) => b.len() == content_length_of(m.subrange(0, h)) && m == m.subrange(0, h) + b,
            _ => false,
        },
{
    lemma_find_from(m, header_sep(), 0);
    let h = header_len(m).unwrap();
    assert(m =~= m.subrange(0, h) + m.subrange(h, m.len() as int));
}

} // verus!
