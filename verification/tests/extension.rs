use zed_kotlin::json::Json;
use zed_kotlin::language_servers::kotlin_language_server::{find_asset, server_layout};
use zed_kotlin::language_servers::kotlin_lsp::{extract_version_from_markdown, teamcity_layout, KotlinLSP};
use zed_kotlin::language_servers::launch::{
    language_server_args, wrap_with_proxy, Architecture, DownloadedFileType, Os, ProxyChoice,
};
use zed_kotlin::language_servers::proxy::{
    absolutize_in_work_dir, extracted_candidates, github_repo, installed_proxy, platform_asset,
    proxy_disabled, proxy_download, proxy_exec_name, settle_extracted, versioned_proxy_path,
    ProxyLookup, ProxyProbe, PROXY_RELATIVE,
};
use zed_kotlin::language_servers::util::{is_install_dir, is_outdated_entry};
use zed_kotlin::settings::{
    launch_choice, launch_command, merge_proxy_settings, proxy_wanted, workspace_configuration,
    SourceProxySettings,
};

fn obj(members: Vec<(&str, Json)>) -> Json {
    Json::Object(members.into_iter().map(|(k, v)| (k.to_string(), v)).collect())
}

fn keys(v: &Json) -> Vec<String> {
    match v {
        Json::Object(m) => m.iter().map(|(k, _)| k.clone()).collect(),
        _ => vec![],
    }
}

#[test]
fn proxy_settings_first_value_wins_per_field() {
    let a = obj(vec![("sourceProxy", obj(vec![("enabled", Json::Bool(false))]))]);
    let b = obj(vec![(
        "sourceProxy",
        obj(vec![("enabled", Json::Bool(true)), ("debug", Json::Bool(true))]),
    )]);
    let s = merge_proxy_settings(&[a, b]);
    assert!(!s.enabled);
    assert!(s.debug);
    let d = merge_proxy_settings(&[obj(vec![("other", Json::Null)])]);
    assert!(d.enabled);
    assert!(!d.debug);
    let wrong_type = obj(vec![("sourceProxy", obj(vec![("enabled", Json::String("no".to_string()))]))]);
    assert!(merge_proxy_settings(&[wrong_type]).enabled);
    let def = SourceProxySettings::default();
    assert!(def.enabled && !def.debug);
}

#[test]
fn stripping_removes_only_the_proxy_settings() {
    let mut v = obj(vec![
        ("a", Json::Bool(true)),
        ("sourceProxy", obj(vec![("enabled", Json::Bool(false))])),
        ("b", Json::Null),
    ]);
    SourceProxySettings::strip_from(&mut v);
    assert_eq!(keys(&v), vec!["a".to_string(), "b".to_string()]);
    let mut not_object = Json::Bool(true);
    SourceProxySettings::strip_from(&mut not_object);
    assert!(matches!(not_object, Json::Bool(true)));
    let cfg = workspace_configuration(obj(vec![("x", Json::Null)]));
    assert_eq!(keys(&cfg), vec!["kotlin".to_string()]);
}

#[test]
fn proxy_wrapping_and_fail_open() {
    let args = vec!["--stdio".to_string()];
    let c = wrap_with_proxy(
        "kotlin-lsp-1/kotlin-lsp.sh".to_string(),
        args.clone(),
        ProxyChoice::Found {
            proxy: "bin/kotlin-lsp-proxy".to_string(),
            absolute_server: "/work/kotlin-lsp-1/kotlin-lsp.sh".to_string(),
            debug: true,
        },
    );
    assert_eq!(c.command, "bin/kotlin-lsp-proxy");
    assert_eq!(c.args, vec!["/work/kotlin-lsp-1/kotlin-lsp.sh".to_string(), "--stdio".to_string()]);
    assert_eq!(c.env, vec![("KOTLIN_LSP_PROXY_DEBUG".to_string(), "1".to_string())]);
    let d = wrap_with_proxy("server".to_string(), args.clone(), ProxyChoice::Missing);
    assert_eq!(d.command, "server");
    assert_eq!(d.args, args);
    assert!(d.env.is_empty());
    let e = wrap_with_proxy("server".to_string(), vec![], ProxyChoice::Disabled);
    assert_eq!(e.command, "server");
    assert!(e.args.is_empty());
}

#[test]
fn language_server_arguments_by_id() {
    assert_eq!(language_server_args("kotlin-language-server"), Ok(vec![]));
    assert_eq!(language_server_args("kotlin-lsp"), Ok(vec!["--stdio".to_string()]));
    assert_eq!(
        language_server_args("java"),
        Err("Unrecognized language server for Kotlin: java".to_string())
    );
}

#[test]
fn proxy_switches_and_paths() {
    assert!(proxy_disabled(Some("1")));
    assert!(proxy_disabled(Some("TRUE")));
    assert!(proxy_disabled(Some("yes")));
    assert!(!proxy_disabled(Some("YES")));
    assert!(!proxy_disabled(Some("0")));
    assert!(!proxy_disabled(None));
    assert_eq!(absolutize_in_work_dir("/abs/ls", Some("/work")), "/abs/ls");
    assert_eq!(absolutize_in_work_dir("ls/bin", Some("/work")), "/work/ls/bin");
    assert_eq!(absolutize_in_work_dir("ls/bin", Some("/work/")), "/work/ls/bin");
    assert_eq!(absolutize_in_work_dir("ls/bin", None), "ls/bin");
    assert_eq!(proxy_exec_name(Os::Windows), "kotlin-lsp-proxy.exe");
    assert_eq!(proxy_exec_name(Os::Linux), "kotlin-lsp-proxy");
    assert_eq!(github_repo(None), "zed-extensions/kotlin");
    assert_eq!(github_repo(Some("you/kotlin".to_string())), "you/kotlin");
    assert_eq!(
        versioned_proxy_path("/work", "0.4.0", Os::Mac),
        "/work/bin/v0.4.0/kotlin-lsp-proxy"
    );
}

#[test]
fn proxy_release_assets_by_platform() {
    assert_eq!(
        platform_asset(Os::Mac, Architecture::Aarch64),
        Ok(("kotlin-lsp-proxy-darwin-aarch64.tar.gz".to_string(), DownloadedFileType::GzipTar))
    );
    assert_eq!(
        platform_asset(Os::Linux, Architecture::X8664),
        Ok(("kotlin-lsp-proxy-linux-x86_64.tar.gz".to_string(), DownloadedFileType::GzipTar))
    );
    assert_eq!(
        platform_asset(Os::Windows, Architecture::X8664),
        Ok(("kotlin-lsp-proxy-windows-x86_64.zip".to_string(), DownloadedFileType::Zip))
    );
    assert_eq!(
        platform_asset(Os::Linux, Architecture::X86),
        Err("Unsupported architecture for kotlin-lsp-proxy".to_string())
    );
}

#[test]
fn proxy_download_layout_and_extraction() {
    let d = proxy_download("0.4.0", Os::Windows);
    assert_eq!(d.tag, "v0.4.0");
    assert_eq!(d.version_dir, "bin/v0.4.0");
    assert_eq!(d.binary_path, "bin/v0.4.0/kotlin-lsp-proxy.exe");
    let c = extracted_candidates(&d);
    assert_eq!(
        c,
        vec![
            "bin/v0.4.0/kotlin-lsp-proxy.exe".to_string(),
            "bin/v0.4.0/kotlin-lsp-proxy".to_string(),
            "bin/v0.4.0/kotlin-lsp-proxy.exe".to_string()
        ]
    );
    assert_eq!(settle_extracted(&d, &c, &vec![true, true, false]), Ok(None));
    assert_eq!(
        settle_extracted(&d, &c, &vec![false, true, true]),
        Ok(Some("bin/v0.4.0/kotlin-lsp-proxy".to_string()))
    );
    assert_eq!(
        settle_extracted(&d, &c, &vec![false, false, false]),
        Err("proxy binary not found after extract in bin/v0.4.0".to_string())
    );
}

fn probe() -> ProxyProbe {
    ProxyProbe {
        env_proxy: None,
        env_proxy_is_file: false,
        has_cwd: true,
        local_is_file: false,
        versioned: "/work/bin/v0.4.0/kotlin-lsp-proxy".to_string(),
        versioned_is_file: false,
    }
}

fn found(l: ProxyLookup) -> Option<String> {
    match l {
        ProxyLookup::Found(p) => Some(p),
        _ => None,
    }
}

#[test]
fn installed_proxy_search_order() {
    assert!(matches!(installed_proxy(true, &probe()), ProxyLookup::Disabled));
    assert!(matches!(installed_proxy(false, &probe()), ProxyLookup::Download));
    let mut p = probe();
    p.env_proxy = Some("/opt/proxy".to_string());
    p.env_proxy_is_file = true;
    p.local_is_file = true;
    assert_eq!(found(installed_proxy(false, &p)), Some("/opt/proxy".to_string()));
    p.env_proxy_is_file = false;
    assert_eq!(found(installed_proxy(false, &p)), Some(PROXY_RELATIVE.to_string()));
    p.local_is_file = false;
    p.versioned_is_file = true;
    assert_eq!(
        found(installed_proxy(false, &p)),
        Some("/work/bin/v0.4.0/kotlin-lsp-proxy".to_string())
    );
    p.has_cwd = false;
    assert!(matches!(installed_proxy(false, &p), ProxyLookup::Download));
}

#[test]
fn kotlin_lsp_version_and_layout() {
    let md = "# Releases\n\n### v262.4739.0\r\n- fixes\n### v261.1.0\n";
    assert_eq!(extract_version_from_markdown(md), Some("262.4739.0".to_string()));
    assert_eq!(extract_version_from_markdown("###v1\n### x\n"), None);
    assert_eq!(extract_version_from_markdown("### v  7.1  "), Some("7.1".to_string()));
    let l = teamcity_layout("262.1", Os::Mac, Architecture::Aarch64).unwrap();
    assert_eq!(
        l.url,
        "https://download-cdn.jetbrains.com/kotlin-lsp/262.1/kotlin-lsp-262.1-mac-aarch64.zip"
    );
    assert_eq!(l.target_dir, "kotlin-lsp-262.1");
    assert_eq!(l.script_path, "kotlin-lsp-262.1/kotlin-lsp.sh");
    let w = teamcity_layout("262.1", Os::Windows, Architecture::X8664).unwrap();
    assert!(w.url.ends_with("kotlin-lsp-262.1-win-x64.zip"));
    assert_eq!(w.script_path, "kotlin-lsp-262.1/kotlin-lsp.cmd");
    assert!(teamcity_layout("262.1", Os::Linux, Architecture::X86).is_err());
}

#[test]
fn kotlin_lsp_remembers_the_installed_launcher() {
    let mut k = KotlinLSP::new();
    assert_eq!(k.cached_binary_path(), None);
    let r = k.settle_binary_path(Err("offline".to_string()), Some(Err("also".to_string())));
    assert_eq!(r, Err("offline".to_string()));
    assert_eq!(k.cached_binary_path(), None);
    let r = k.settle_binary_path(Err("offline".to_string()), Some(Ok("fallback/kotlin-lsp.sh".to_string())));
    assert_eq!(r, Ok("fallback/kotlin-lsp.sh".to_string()));
    assert_eq!(k.cached_binary_path(), Some("fallback/kotlin-lsp.sh".to_string()));
    let r = k.settle_binary_path(Ok("latest/kotlin-lsp.sh".to_string()), None);
    assert_eq!(r, Ok("latest/kotlin-lsp.sh".to_string()));
    assert_eq!(k.cached_binary_path(), Some("latest/kotlin-lsp.sh".to_string()));
}

#[test]
fn kotlin_language_server_layout_and_asset() {
    let l = server_layout("1.3.13", Os::Windows);
    assert_eq!(l.version_dir, "kotlin-language-server-1.3.13");
    assert_eq!(
        l.binary_path,
        "kotlin-language-server-1.3.13/server/bin/kotlin-language-server.bat"
    );
    let l = server_layout("1.3.13", Os::Linux);
    assert_eq!(l.binary_path, "kotlin-language-server-1.3.13/server/bin/kotlin-language-server");
    let names = vec!["a.zip".to_string(), "server.zip".to_string(), "server.zip".to_string()];
    assert_eq!(find_asset(&names, "server.zip"), Some(1));
    assert_eq!(find_asset(&names, "client.zip"), None);
}

#[test]
fn install_directory_cleanup_rules() {
    assert!(is_outdated_entry(Some("kotlin-lsp-1.0"), "kotlin-lsp", "kotlin-lsp-2.0"));
    assert!(!is_outdated_entry(Some("kotlin-lsp-2.0"), "kotlin-lsp", "kotlin-lsp-2.0"));
    assert!(!is_outdated_entry(Some("bin"), "kotlin-lsp", "kotlin-lsp-2.0"));
    assert!(is_outdated_entry(None, "kotlin-lsp", "kotlin-lsp-2.0"));
    assert!(is_install_dir(Some("kotlin-lsp-2.0"), "kotlin-lsp"));
    assert!(!is_install_dir(None, "kotlin-lsp"));
    assert!(!is_install_dir(Some("other"), "kotlin-lsp"));
}

fn member<'a>(v: &'a Json, key: &str) -> Option<&'a Json> {
    match v {
        Json::Object(m) => m.iter().find(|(k, _)| k == key).map(|(_, v)| v),
        _ => None,
    }
}

#[test]
fn workspace_configuration_strips_proxy_settings() {
    let settings = obj(vec![
        ("sourceProxy", obj(vec![("enabled", Json::Bool(false))])),
        ("compiler", obj(vec![("jvm", Json::Null)])),
    ]);
    let cfg = workspace_configuration(settings);
    assert_eq!(keys(&cfg), vec!["kotlin".to_string()]);
    assert_eq!(keys(member(&cfg, "kotlin").unwrap()), vec!["compiler".to_string()]);
}

#[test]
fn settings_decide_the_launch_choice() {
    let off = SourceProxySettings { enabled: false, debug: false };
    let on = SourceProxySettings { enabled: true, debug: false };
    let verbose = SourceProxySettings { enabled: true, debug: true };
    let found = || Some("bin/kotlin-lsp-proxy".to_string());
    assert!(!proxy_wanted(&off, false));
    assert!(!proxy_wanted(&on, true));
    assert!(proxy_wanted(&on, false));
    let choose = |s: &SourceProxySettings, dis: bool, dbg: bool, f: Option<String>| {
        launch_choice(s, dis, dbg, f, "kotlin-lsp-1/kotlin-lsp.sh", Some("/work"))
    };
    assert!(matches!(choose(&off, false, true, found()), ProxyChoice::Disabled));
    assert!(matches!(choose(&on, true, false, found()), ProxyChoice::Disabled));
    assert!(matches!(choose(&on, false, false, None), ProxyChoice::Missing));
    match choose(&verbose, false, false, found()) {
        ProxyChoice::Found { proxy, absolute_server, debug } => {
            assert_eq!(proxy, "bin/kotlin-lsp-proxy");
            assert_eq!(absolute_server, "/work/kotlin-lsp-1/kotlin-lsp.sh");
            assert!(debug);
        }
        _ => panic!("expected the proxy"),
    }
    assert!(matches!(choose(&on, false, true, found()), ProxyChoice::Found { debug: true, .. }));
    assert!(matches!(choose(&on, false, false, found()), ProxyChoice::Found { debug: false, .. }));
    match launch_choice(&on, false, false, found(), "/opt/ls", Some("/work")) {
        ProxyChoice::Found { absolute_server, .. } => assert_eq!(absolute_server, "/opt/ls"),
        _ => panic!("expected the proxy"),
    }
}

#[test]
fn launch_command_wraps_the_absolute_server() {
    let on = SourceProxySettings { enabled: true, debug: false };
    let off = SourceProxySettings { enabled: false, debug: true };
    let args = vec!["--stdio".to_string()];
    let c = launch_command(
        "kotlin-lsp-1/kotlin-lsp.sh".to_string(),
        args.clone(),
        &on,
        false,
        true,
        Some("bin/kotlin-lsp-proxy".to_string()),
        Some("/work"),
    );
    assert_eq!(c.command, "bin/kotlin-lsp-proxy");
    assert_eq!(c.args, vec!["/work/kotlin-lsp-1/kotlin-lsp.sh".to_string(), "--stdio".to_string()]);
    assert_eq!(c.env, vec![("KOTLIN_LSP_PROXY_DEBUG".to_string(), "1".to_string())]);
    let d = launch_command(
        "kotlin-lsp-1/kotlin-lsp.sh".to_string(),
        args.clone(),
        &off,
        false,
        true,
        Some("bin/kotlin-lsp-proxy".to_string()),
        Some("/work"),
    );
    assert_eq!(d.command, "kotlin-lsp-1/kotlin-lsp.sh");
    assert_eq!(d.args, args);
    assert!(d.env.is_empty());
    let m = launch_command("ls".to_string(), vec![], &on, false, false, None, None);
    assert_eq!(m.command, "ls");
    assert!(m.args.is_empty());
}
