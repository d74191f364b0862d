use std::path::PathBuf;

use zed_kotlin::resolve::{
    archive_location_uris, extracted_file_name, path_to_file_uri, resolve_plan,
    rewrite_archive_locations, split_archive_uri, uri_to_path,
};
use zed_kotlin::json::Json;
use zed_kotlin::security::safe_relative_entry;
use zed_kotlin::uri::{
    body_has_archive_uri, contains, filesystem_path_from_uri_prefix, looks_like_archive_uri,
    materialize_target, materialized_uri, percent_decode, select_member, split_archive_ref,
    MemberChoice, ZipMember,
};

#[test]
fn splits_jar_uri() {
    let (archive, inner) = split_archive_uri(
        "file:///home/u/.gradle/caches/kotlin-stdlib-2.3.0-sources.jar!/jvmMain/kotlin/Collections.kt",
    )
    .unwrap();
    assert_eq!(
        archive,
        "file:///home/u/.gradle/caches/kotlin-stdlib-2.3.0-sources.jar"
    );
    assert_eq!(inner, "jvmMain/kotlin/Collections.kt");
}

#[test]
fn splits_src_zip_uri() {
    let (archive, inner) =
        split_archive_uri("file:///opt/jdk/lib/src.zip!/java.base/java/time/Instant.java").unwrap();
    assert_eq!(archive, "file:///opt/jdk/lib/src.zip");
    assert_eq!(inner, "java.base/java/time/Instant.java");
}

#[test]
fn ignores_plain_files() {
    assert!(split_archive_uri("file:///home/u/project/src/Main.kt").is_none());
    assert!(resolve_plan("file:///home/u/project/src/Main.kt").is_none());
}

#[test]
fn strips_file_scheme() {
    assert_eq!(uri_to_path("file:///opt/jdk/lib/src.zip"), "/opt/jdk/lib/src.zip");
}

#[test]
fn decodes_percent_escapes() {
    assert_eq!(percent_decode("a%20b%2Fc"), "a b/c");
}

#[test]
fn rejects_zip_slip() {
    assert!(safe_relative_entry("../etc/passwd").is_none());
    assert!(safe_relative_entry("a/../../b").is_none());
    assert!(safe_relative_entry("//abs/path").is_none());
    // A single leading slash is normal for some jar members and is stripped.
    assert!(safe_relative_entry("/org/foo/Bar.java").is_some());
}

#[test]
fn accepts_normal_entry() {
    assert_eq!(
        PathBuf::from(safe_relative_entry("org/foo/Bar.java").unwrap()),
        PathBuf::from("org/foo/Bar.java")
    );
    assert_eq!(
        PathBuf::from(safe_relative_entry("/org/foo/Bar.java").unwrap()),
        PathBuf::from("org/foo/Bar.java")
    );
}

#[test]
fn splits_maven_sources_jar_path() {
    let uri = "/Users/x/.m2/repository/org/springframework/spring-web/7.0.8/spring-web-7.0.8-sources.jar!/org/springframework/web/bind/annotation/RequestParam.java";
    let (archive, entry) = split_archive_ref(uri, None).unwrap();
    assert!(archive.ends_with("spring-web-7.0.8-sources.jar"));
    assert_eq!(
        entry,
        "org/springframework/web/bind/annotation/RequestParam.java"
    );
}

#[test]
fn splits_percent_encoded_bang() {
    let uri = "file:///Users/x/lib/foo-sources.jar%21/com/Example.java";
    let (archive, entry) = split_archive_ref(uri, None).unwrap();
    assert_eq!(PathBuf::from(archive), PathBuf::from("/Users/x/lib/foo-sources.jar"));
    assert_eq!(entry, "com/Example.java");
}

#[test]
fn splits_file_uri_form() {
    let uri = "file:///Users/x/lib/foo-sources.jar!/com/Example.java";
    let (archive, entry) = split_archive_ref(uri, None).unwrap();
    assert_eq!(PathBuf::from(archive), PathBuf::from("/Users/x/lib/foo-sources.jar"));
    assert_eq!(entry, "com/Example.java");
}

#[test]
fn splits_jetbrains_jar_triple_slash_uri() {
    let uri = "jar:///Users/x/.m2/repository/org/springframework/spring-web/7.0.8/spring-web-7.0.8-sources.jar!/org/springframework/web/bind/annotation/RequestParam.java";
    let (archive, entry) = split_archive_ref(uri, None).unwrap();
    assert_eq!(
        PathBuf::from(archive),
        PathBuf::from(
            "/Users/x/.m2/repository/org/springframework/spring-web/7.0.8/spring-web-7.0.8-sources.jar"
        )
    );
    assert_eq!(
        entry,
        "org/springframework/web/bind/annotation/RequestParam.java"
    );
}

#[test]
fn splits_jar_file_scheme_and_expands_home() {
    let (archive, entry) =
        split_archive_ref("jar:file:///opt/jdk/lib/src.zip!/java.base/A.java", None).unwrap();
    assert_eq!(archive, "/opt/jdk/lib/src.zip");
    assert_eq!(entry, "java.base/A.java");
    assert_eq!(
        filesystem_path_from_uri_prefix("~/lib/a.jar", Some("/home/u")),
        Some("/home/u/lib/a.jar".to_string())
    );
    assert_eq!(
        filesystem_path_from_uri_prefix("~/lib/a.jar", None),
        Some("~/lib/a.jar".to_string())
    );
    assert_eq!(
        filesystem_path_from_uri_prefix("  file://localhost/x.jar ", None),
        Some("/x.jar".to_string())
    );
    assert_eq!(filesystem_path_from_uri_prefix("file://", None), None);
}

#[test]
fn refuses_references_without_entry_or_archive() {
    assert!(split_archive_ref("/a/b.jar!/", None).is_none());
    assert!(split_archive_ref("/a/b.txt!/x", None).is_none());
    assert!(split_archive_ref("/a/b.jar", None).is_none());
}

#[test]
fn zip_upper_case_marker_splits() {
    let (archive, inner) = split_archive_uri("file:///A/SRC.ZIP!/x/Y.java").unwrap();
    assert_eq!(archive, "file:///A/SRC.ZIP");
    assert_eq!(inner, "x/Y.java");
    // The earlier of the two markers wins.
    let (archive, inner) = split_archive_uri("/a.zip!/b.jar!/c").unwrap();
    assert_eq!(archive, "/a.zip");
    assert_eq!(inner, "b.jar!/c");
}

#[test]
fn percent_decoding_keeps_bad_escapes_and_replaces_invalid_utf8() {
    assert_eq!(percent_decode("100%"), "100%");
    assert_eq!(percent_decode("%zz%4"), "%zz%4");
    assert_eq!(percent_decode("%41%62"), "Ab");
    assert_eq!(percent_decode("a%FFb"), "a\u{FFFD}b");
}

#[test]
fn recognises_archive_uris() {
    assert!(looks_like_archive_uri("jar:///a/b.jar!/c"));
    assert!(looks_like_archive_uri("/a/B.JAR%21/c"));
    assert!(looks_like_archive_uri("/a/src.zip!/c"));
    assert!(!looks_like_archive_uri("/a/b.jar"));
    assert!(!looks_like_archive_uri("/a/b.txt!/c"));
    assert!(body_has_archive_uri(b"{\"uri\":\"/a/b.jar!/c\"}"));
    assert!(body_has_archive_uri(b"jar://x"));
    assert!(!body_has_archive_uri(b"{\"uri\":\"file:///a/b.kt\"}"));
    assert!(contains(b"abcdef", b"cde"));
    assert!(!contains(b"abc", b""));
    assert!(!contains(b"ab", b"abc"));
}

#[test]
fn materialize_target_keeps_safe_entries_only() {
    assert_eq!(
        materialize_target("jar:///no/such/file.jar!/com/X.java", None),
        Some(("/no/such/file.jar".to_string(), "com/X.java".to_string()))
    );
    assert_eq!(materialize_target("/a/b.jar!/../../etc/passwd", None), None);
    assert_eq!(materialize_target("/a/b.kt", None), None);
}

#[test]
fn materialized_uri_needs_a_non_empty_file() {
    assert_eq!(
        materialized_uri("/c/ab/X.java", Some((true, 10))),
        Some("file:///c/ab/X.java".to_string())
    );
    assert_eq!(materialized_uri("/c/ab/X.java", Some((true, 0))), None);
    assert_eq!(materialized_uri("/c/ab/X.java", Some((false, 10))), None);
    assert_eq!(materialized_uri("/c/ab/X.java", None), None);
}

fn members(list: &[(&str, bool)]) -> Vec<ZipMember> {
    list.iter()
        .map(|(n, r)| ZipMember { name: n.to_string(), readable: *r })
        .collect()
}

fn found(c: MemberChoice) -> Option<String> {
    match c {
        MemberChoice::Found(n) => Some(n),
        _ => None,
    }
}

#[test]
fn selects_the_exact_member_first() {
    let m = members(&[("org/a/B.java", true), ("org/a/b.java", true)]);
    assert_eq!(found(select_member("org/a/b.java", &m)), Some("org/a/b.java".to_string()));
    let m = members(&[("/org/a/B.java", true)]);
    assert_eq!(found(select_member("org/a/B.java", &m)), Some("/org/a/B.java".to_string()));
}

#[test]
fn selects_by_loose_name_in_index_order() {
    let m = members(&[("x/Y.java", true), ("ORG/A/B.JAVA", true), ("org/a/b.java2", true)]);
    assert_eq!(found(select_member("org/a/b.java", &m)), Some("ORG/A/B.JAVA".to_string()));
}

#[test]
fn member_selection_failures() {
    let m = members(&[("x/Y.java", false), ("ORG/A/B.JAVA", true)]);
    assert!(matches!(select_member("org/a/b.java", &m), MemberChoice::Unreadable));
    let m = members(&[("x/Y.java", true)]);
    assert!(matches!(select_member("org/a/b.java", &m), MemberChoice::NotFound));
    // An unreadable exact match is skipped; the scan then stops on it.
    let m = members(&[("org/a/b.java", false)]);
    assert!(matches!(select_member("org/a/b.java", &m), MemberChoice::Unreadable));
    // A traversal name is never picked by the loose scan.
    let m = members(&[("../org/a/b.java", true)]);
    assert!(matches!(select_member("org/a/b.java", &m), MemberChoice::NotFound));
    // An exact match whose name could escape is refused.
    let m = members(&[("a/../../b", true)]);
    assert!(matches!(select_member("a/../../b", &m), MemberChoice::Traversal));
}

#[test]
fn resolve_plan_names_the_extracted_file() {
    let p = resolve_plan("file:///opt/jdk/lib/src.zip!//java.base/java/time/Inst%61nt.java").unwrap();
    assert_eq!(p.archive_path, "/opt/jdk/lib/src.zip");
    assert_eq!(p.inner, "java.base/java/time/Instant.java");
    assert_eq!(p.stem, "Instant");
    assert_eq!(p.ext, "java");
    let p = resolve_plan("/a/b.jar!/META-INF/LICENSE").unwrap();
    assert_eq!(p.stem, "LICENSE");
    assert_eq!(p.ext, "txt");
    assert_eq!(
        extracted_file_name("Instant", 0x0123_4567_89ab_cdef, "java"),
        "Instant-0123456789abcdef.java"
    );
    assert_eq!(extracted_file_name("A", 255, "kt"), "A-00000000000000ff.kt");
    assert_eq!(path_to_file_uri("/tmp/x/A.kt"), "file:///tmp/x/A.kt");
    assert_eq!(path_to_file_uri("C:\\tmp\\A.kt"), "file:///C:/tmp/A.kt");
}

fn obj(members: Vec<(&str, Json)>) -> Json {
    Json::Object(members.into_iter().map(|(k, v)| (k.to_string(), v)).collect())
}

fn s(x: &str) -> Json {
    Json::String(x.to_string())
}

fn member<'a>(v: &'a Json, key: &str) -> Option<&'a Json> {
    match v {
        Json::Object(m) => m.iter().find(|(k, _)| k == key).map(|(_, v)| v),
        _ => None,
    }
}

fn string_of(v: Option<&Json>) -> Option<String> {
    match v {
        Some(Json::String(s)) => Some(s.clone()),
        _ => None,
    }
}

#[test]
fn rewrites_location_links_and_locations() {
    let mut msg = obj(vec![
        ("id", Json::Number("1".to_string())),
        (
            "result",
            Json::Array(vec![
                obj(vec![("uri", s("/a/b.jar!/X.java")), ("range", Json::Null)]),
                obj(vec![("targetUri", s("/a/b.jar!/Y.java"))]),
                s("not a location"),
            ]),
        ),
    ]);
    let slots = archive_location_uris(&msg);
    assert_eq!(
        slots,
        vec![
            Some("/a/b.jar!/X.java".to_string()),
            None,
            None,
            Some("/a/b.jar!/Y.java".to_string()),
            None,
            None
        ]
    );
    let outcomes = vec![Some("file:///c/X.java".to_string()), None, None, None];
    assert!(rewrite_archive_locations(&mut msg, &outcomes));
    let result = member(&msg, "result").unwrap();
    match result {
        Json::Array(items) => {
            assert_eq!(string_of(member(&items[0], "uri")), Some("file:///c/X.java".to_string()));
            assert_eq!(
                string_of(member(&items[1], "targetUri")),
                Some("/a/b.jar!/Y.java".to_string())
            );
            assert!(member(&items[0], "range").is_some());
        }
        _ => panic!("result is not an array"),
    }
    let mut single = obj(vec![("result", obj(vec![("uri", s("/a/b.jar!/X.java"))]))]);
    assert!(!rewrite_archive_locations(&mut single, &vec![None, None]));
    assert!(rewrite_archive_locations(&mut single, &vec![Some("file:///z".to_string())]));
    assert_eq!(
        string_of(member(member(&single, "result").unwrap(), "uri")),
        Some("file:///z".to_string())
    );
    let mut none = obj(vec![("result", Json::Null)]);
    assert!(archive_location_uris(&none).is_empty());
    assert!(!rewrite_archive_locations(&mut none, &vec![Some("x".to_string())]));
}
