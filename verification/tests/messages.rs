use std::io;

use zed_kotlin::json::{archive_uri_candidates, copy_json, rewrite_archive_uris, Json};
use zed_kotlin::lsp_frame::{frame_json, lsp_body, parse_content_length, ByteSource, LspReader};
use zed_kotlin::relay::{message_needs_rewrite, relay_output, try_rewrite_message};
use zed_kotlin::spawn::{binary_candidates, resolve_language_server_binary};
use zed_kotlin::uri::materialize_target;

struct Bytes {
    data: Vec<u8>,
    pos: usize,
    fail_at: Option<usize>,
}

impl Bytes {
    fn new(data: &[u8]) -> Self {
        Bytes { data: data.to_vec(), pos: 0, fail_at: None }
    }
}

impl ByteSource for Bytes {
    fn read_byte(&mut self) -> io::Result<Option<u8>> {
        if Some(self.pos) == self.fail_at {
            return Err(io::Error::other("broken pipe"));
        }
        if self.pos < self.data.len() {
            self.pos += 1;
            Ok(Some(self.data[self.pos - 1]))
        } else {
            Ok(None)
        }
    }
}

fn obj(members: Vec<(&str, Json)>) -> Json {
    Json::Object(members.into_iter().map(|(k, v)| (k.to_string(), v)).collect())
}

fn s(x: &str) -> Json {
    Json::String(x.to_string())
}

fn member<'a>(v: &'a Json, key: &str) -> Option<&'a Json> {
    match v {
        Json::Object(m) => m.iter().find(|(k, _)| k == key).map(|(_, v)| v),
        _ => None,
    }
}

fn string_of(v: Option<&Json>) -> Option<String> {
    match v {
        Some(Json::String(s)) => Some(s.clone()),
        _ => None,
    }
}

#[test]
fn content_length_header_is_found_case_insensitively() {
    assert_eq!(parse_content_length(b"Content-Length: 12\r\n\r\n"), 12);
    assert_eq!(parse_content_length(b"content-length:\t7 \r\n\r\n"), 7);
    assert_eq!(
        parse_content_length(b"Content-Type: x\r\nCONTENT-LENGTH: 42\r\n\r\n"),
        42
    );
    assert_eq!(parse_content_length(b"Content-Length: abc\r\nContent-Length: 5\r\n\r\n"), 5);
    assert_eq!(parse_content_length(b"Content-Type: x\r\n\r\n"), 0);
    assert_eq!(parse_content_length(b"Content-Length 9\r\n\r\n"), 0);
    assert_eq!(parse_content_length(b""), 0);
}

#[test]
fn framing_then_reading_gives_the_body_back() {
    let json = br#"{"jsonrpc":"2.0","id":1,"result":null}"#;
    let framed = frame_json(json);
    assert_eq!(&framed[..20], b"Content-Length: 38\r\n");
    let mut reader = LspReader::new(Bytes::new(&framed));
    let msg = reader.read_message().unwrap().unwrap();
    assert_eq!(msg, framed);
    assert_eq!(lsp_body(&msg), Some(&json[..]));
    assert!(reader.read_message().unwrap().is_none());
}

#[test]
fn reads_consecutive_messages_and_reports_truncation() {
    let mut stream = frame_json(b"{}");
    stream.extend_from_slice(&frame_json(b"[1,2]"));
    stream.extend_from_slice(b"Content-Length: 10\r\n\r\n{\"a\"");
    let mut reader = LspReader::new(Bytes::new(&stream));
    assert_eq!(reader.read_message().unwrap().unwrap(), frame_json(b"{}"));
    assert_eq!(reader.read_message().unwrap().unwrap(), frame_json(b"[1,2]"));
    let err = reader.read_message().unwrap_err();
    assert_eq!(err.kind(), io::ErrorKind::UnexpectedEof);

    let mut partial = LspReader::new(Bytes::new(b"Content-Length: 2\r\n"));
    assert!(partial.read_message().unwrap().is_none());

    let mut broken = Bytes::new(&frame_json(b"{}"));
    broken.fail_at = Some(3);
    let mut reader = LspReader::new(broken);
    assert!(reader.read_message().is_err());
}

#[test]
fn body_needs_a_header_separator() {
    assert_eq!(lsp_body(b"Content-Length: 2\r\n\r\n{}"), Some(&b"{}"[..]));
    assert_eq!(lsp_body(b"no separator"), None);
    assert!(message_needs_rewrite(&frame_json(br#"{"uri":"jar:///a/b.jar!/C.java"}"#)));
    assert!(!message_needs_rewrite(&frame_json(br#"{"uri":"file:///a/C.java"}"#)));
    assert!(!message_needs_rewrite(b"jar:///a/b.jar!/C.java"));
}

#[test]
fn rewrite_failure_keeps_original_string() {
    let mut msg = obj(vec![("result", obj(vec![("uri", s("jar:///no/such/file.jar!/com/X.java"))]))]);
    let original = string_of(member(member(&msg, "result").unwrap(), "uri")).unwrap();
    let candidates = archive_uri_candidates(&msg);
    assert_eq!(candidates, vec![original.clone()]);
    // The archive does not exist, so materializing fails for every candidate.
    assert!(materialize_target(&candidates[0], None).is_some());
    let outcomes: Vec<Option<String>> = candidates.iter().map(|_| None).collect();
    let n = rewrite_archive_uris(&mut msg, &outcomes);
    assert_eq!(n, 0);
    assert_eq!(
        string_of(member(member(&msg, "result").unwrap(), "uri")).unwrap(),
        original
    );
}

#[test]
fn rewrites_archive_strings_in_document_order() {
    let mut msg = obj(vec![
        ("jsonrpc", s("2.0")),
        (
            "result",
            Json::Array(vec![
                obj(vec![
                    ("uri", s("/home/u/a-sources.jar!/org/A.java")),
                    ("range", obj(vec![("start", Json::Number("0".to_string()))])),
                ]),
                obj(vec![("uri", s("file:///home/u/b.kt"))]),
                obj(vec![("targetUri", s("jar:///home/u/c.jar!/C.java"))]),
            ]),
        ),
    ]);
    let before = copy_json(&msg);
    let candidates = archive_uri_candidates(&msg);
    assert_eq!(
        candidates,
        vec![
            "/home/u/a-sources.jar!/org/A.java".to_string(),
            "jar:///home/u/c.jar!/C.java".to_string()
        ]
    );
    let outcomes = vec![Some("file:///cache/A.java".to_string()), None];
    assert_eq!(try_rewrite_message(&mut msg, &outcomes), Some(1));
    // A second pass finds only the candidate whose materialization failed.
    assert_eq!(
        archive_uri_candidates(&msg),
        vec!["jar:///home/u/c.jar!/C.java".to_string()]
    );
    match member(&msg, "result").unwrap() {
        Json::Array(items) => {
            let uri = string_of(member(&items[0], "uri")).unwrap();
            assert!(uri.starts_with("file://"));
            assert!(!uri.contains(".jar!"));
            assert_eq!(string_of(member(&items[1], "uri")).unwrap(), "file:///home/u/b.kt");
            assert_eq!(
                string_of(member(&items[2], "targetUri")).unwrap(),
                "jar:///home/u/c.jar!/C.java"
            );
        }
        _ => panic!("result is not an array"),
    }
    let mut unchanged = before;
    assert_eq!(try_rewrite_message(&mut unchanged, &vec![None, None]), None);
    assert_eq!(archive_uri_candidates(&unchanged).len(), 2);
}

#[test]
fn language_server_binary_search_order() {
    let c = binary_candidates("kotlin-lsp/kotlin-lsp.sh", Some("/work"), Some("/work/bin"), Some("/proj"));
    assert_eq!(
        c,
        vec![
            "/work/kotlin-lsp/kotlin-lsp.sh".to_string(),
            "/work/bin/kotlin-lsp/kotlin-lsp.sh".to_string(),
            "/proj/kotlin-lsp/kotlin-lsp.sh".to_string()
        ]
    );
    assert!(binary_candidates("/abs/ls", Some("/work"), None, Some("/proj")).is_empty());
    assert_eq!(binary_candidates("ls", None, None, Some("/proj")), vec!["/proj/ls".to_string()]);
    assert_eq!(
        resolve_language_server_binary("ls", &c, &vec![false, true, true]),
        "/work/bin/kotlin-lsp/kotlin-lsp.sh"
    );
    assert_eq!(resolve_language_server_binary("ls", &c, &vec![false, false, false]), "ls");
}

#[test]
fn stream_ending_inside_the_content_is_unexpected_eof() {
    let mut reader = LspReader::new(Bytes::new(b"Content-Length: 10\r\n\r\n{}"));
    let err = reader.read_message().unwrap_err();
    assert_eq!(err.kind(), io::ErrorKind::UnexpectedEof);
}

#[test]
fn relay_forwards_the_rewrite_or_the_message_as_read() {
    let raw = frame_json(br#"{"uri":"jar:///a/b.jar!/C.java"}"#);
    assert_eq!(relay_output(&raw, None), raw);
    let text = br#"{"uri":"file:///c/C.java"}"#;
    assert_eq!(relay_output(&raw, Some(&text[..])), frame_json(text));
}
