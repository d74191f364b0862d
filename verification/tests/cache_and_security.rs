use sha2::{Digest, Sha256};

use zed_kotlin::cache::{
    cache_file_for, cache_root, hex_encode, max_cache_bytes, plan_gc, ArchiveStamp, CacheFile,
};
use zed_kotlin::logutil::{debug_enabled, env_flag, log_path};
use zed_kotlin::security::{archive_path_allowed, lexical_allowed, ArchiveFacts, TrustedDirs};
use zed_kotlin::uri::{extraction_target, ExtractionRefusal};

fn dirs() -> TrustedDirs {
    TrustedDirs { home: Some("/home/u".to_string()), userprofile: None, java_home: None }
}

fn facts(canonical: Option<&str>) -> ArchiveFacts {
    ArchiveFacts {
        allow_any: false,
        is_file: true,
        canonical: canonical.map(|c| c.to_string()),
        canonical_is_file: true,
    }
}

#[test]
fn hex_encoding_is_lowercase_pairs() {
    assert_eq!(hex_encode(&[0x00, 0x0f, 0xa5, 0xff]), "000fa5ff");
    assert_eq!(hex_encode(&[]), "");
}

#[test]
fn cache_root_prefers_the_override_then_home() {
    assert_eq!(cache_root(Some("/c"), Some("/home/u"), None, "/tmp"), "/c");
    assert_eq!(
        cache_root(None, Some("/home/u"), Some("C:/L"), "/tmp"),
        "/home/u/.cache/zed-kotlin-jar-sources"
    );
    assert_eq!(cache_root(None, None, Some("/l"), "/tmp"), "/l/zed-kotlin-jar-sources");
    assert_eq!(cache_root(None, None, None, "/tmp/"), "/tmp/zed-kotlin-jar-sources");
}

#[test]
fn cache_file_is_named_by_the_sha256_of_archive_stamp_and_entry() {
    let stamp = Some(ArchiveStamp { modified_secs: Some(1_700_000_000), len: 4096 });
    let path = cache_file_for("/c", "/home/u/a.jar", &stamp, "org/A.java");
    let mut h = Sha256::new();
    h.update(b"/home/u/a.jar");
    h.update(1_700_000_000u64.to_le_bytes());
    h.update(4096u64.to_le_bytes());
    h.update(b"org/A.java");
    let digest: String = h.finalize().iter().map(|b| format!("{b:02x}")).collect();
    assert_eq!(path, format!("/c/{}/org/A.java", &digest[..16]));
    // Without metadata only the path and the entry are hashed.
    let bare = cache_file_for("/c", "/home/u/a.jar", &None, "org/A.java");
    let mut h = Sha256::new();
    h.update(b"/home/u/a.jar");
    h.update(b"org/A.java");
    let digest: String = h.finalize().iter().map(|b| format!("{b:02x}")).collect();
    assert_eq!(bare, format!("/c/{}/org/A.java", &digest[..16]));
    assert_ne!(bare, path);
    let other = cache_file_for("/c", "/home/u/a.jar", &None, "org/B.java");
    assert_ne!(bare.rsplit_once('/').unwrap().0, other.rsplit_once('/').unwrap().0);
    assert!(other.starts_with("/c/"));
}

#[test]
fn cache_budget_in_bytes() {
    assert_eq!(max_cache_bytes(None), 512 * 1024 * 1024);
    assert_eq!(max_cache_bytes(Some("100")), 100 * 1024 * 1024);
    assert_eq!(max_cache_bytes(Some("12x")), 512 * 1024 * 1024);
    assert_eq!(max_cache_bytes(Some("+5")), 5 * 1024 * 1024);
    assert_eq!(max_cache_bytes(Some(" 1")), 512 * 1024 * 1024);
    assert_eq!(max_cache_bytes(Some("18446744073709551615")), u64::MAX);
}

fn file(name: &str, len: u64, modified: i128) -> CacheFile {
    CacheFile { file_name: Some(name.to_string()), len, modified }
}

#[test]
fn gc_removes_oldest_files_until_within_budget() {
    let files = vec![
        file("b", 40, 20),
        file("proxy.log", 1000, 0),
        file("a", 50, 10),
        file("c", 30, 30),
    ];
    let mut plan = plan_gc(&files, 60);
    let mut removed = Vec::new();
    while let Some(i) = plan.next_victim() {
        removed.push(files[i].file_name.clone().unwrap());
        plan.record(true);
    }
    assert_eq!(removed, vec!["a".to_string(), "b".to_string()]);
    assert_eq!(plan.removed(), 2);

    let mut failing = plan_gc(&files, 60);
    let mut tried = 0;
    while failing.next_victim().is_some() {
        failing.record(false);
        tried += 1;
    }
    assert_eq!(tried, 3);
    assert_eq!(failing.removed(), 0);

    let mut small = plan_gc(&files, 120);
    assert_eq!(small.next_victim(), None);
    small.record(true);
    assert_eq!(small.removed(), 0);
}

#[test]
fn allowlist_requires_archive_names_in_trusted_places() {
    let d = dirs();
    assert!(lexical_allowed("/home/u/.m2/x-sources.jar", &d));
    assert!(!lexical_allowed("/home/user2/x.jar", &d));
    assert!(!lexical_allowed("/home/u/notes.txt", &d));
    assert!(lexical_allowed("/usr/lib/jvm/java-21/lib/src.zip", &d));
    assert!(lexical_allowed("/opt/jdk-21/lib/src.zip", &d));
    assert!(lexical_allowed("C:/Program Files/Java/jdk-21/lib/src.zip", &d));
    assert!(!lexical_allowed("/srv/x.jar", &d));
}

#[test]
fn archive_access_uses_the_canonical_path() {
    let d = dirs();
    assert!(archive_path_allowed("/link/a.jar", &facts(Some("/home/u/a.jar")), &d));
    assert!(!archive_path_allowed("/home/u/a.jar", &facts(Some("/srv/a.jar")), &d));
    assert!(archive_path_allowed("/home/u/a.jar", &facts(None), &d));
    let mut f = facts(Some("/home/u/a.jar"));
    f.canonical_is_file = false;
    assert!(!archive_path_allowed("/home/u/a.jar", &f, &d));
    let any = ArchiveFacts { allow_any: true, is_file: true, canonical: None, canonical_is_file: false };
    assert!(archive_path_allowed("/srv/anything.bin", &any, &d));
    let any_missing = ArchiveFacts { allow_any: true, is_file: false, canonical: None, canonical_is_file: false };
    assert!(!archive_path_allowed("/srv/anything.bin", &any_missing, &d));
}

#[test]
fn flags_and_log_location() {
    assert!(env_flag(Some("YES")));
    assert!(env_flag(Some("true")));
    assert!(!env_flag(Some("on")));
    assert!(!env_flag(None));
    assert!(debug_enabled(Some("1")));
    assert!(!debug_enabled(Some("")));
    assert_eq!(log_path(Some("/var/log/p.log"), "/c"), "/var/log/p.log");
    assert_eq!(log_path(None, "/c"), "/c/proxy.log");
}

#[test]
fn extraction_needs_an_allowed_existing_archive() {
    let d = dirs();
    let stamp = Some(ArchiveStamp { modified_secs: None, len: 1 });
    let ok = extraction_target("/home/u/a.jar", "org/A.java", &facts(None), &d, true, "/c", &stamp);
    assert_eq!(ok.ok(), Some(cache_file_for("/c", "/home/u/a.jar", &stamp, "org/A.java")));
    assert!(matches!(
        extraction_target("/srv/a.jar", "org/A.java", &facts(None), &d, true, "/c", &stamp),
        Err(ExtractionRefusal::NotAllowed)
    ));
    assert!(matches!(
        extraction_target("/home/u/a.jar", "org/A.java", &facts(None), &d, false, "/c", &stamp),
        Err(ExtractionRefusal::Missing)
    ));
}
