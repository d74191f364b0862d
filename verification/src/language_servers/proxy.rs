//! The source proxy binary: when it is turned off, where an installed copy is
//! looked for, how its release asset is named, and where a download goes.

use vstd::prelude::*;
use vstd::string::StringSliceAdditionalSpecFns;
use vstd::utf8::*;

use crate::language_servers::launch::{Architecture, DownloadedFileType, Os};
use crate::logutil::str_eq;
use crate::paths::{is_absolute, join, path_join};
use crate::text::{concat_strs, lemma_str_chars};

verus! {

/// Relative path under the extension work directory for a manually installed proxy.
pub const PROXY_RELATIVE: &'static str = "bin/kotlin-lsp-proxy";

/// The proxy executable's name, without the Windows suffix.
pub const PROXY_BINARY: &'static str = "kotlin-lsp-proxy";

/// The GitHub repository that publishes the proxy binaries on release tags
/// (`vX.Y.Z`), unless `KOTLIN_LSP_PROXY_GITHUB_REPO` names another.
pub const DEFAULT_GITHUB_REPO: &'static str = "zed-extensions/kotlin";

/// The values of `KOTLIN_LSP_PROXY_DISABLE` that turn the proxy off.
pub open spec fn disables_proxy(v: Seq<char>) -> bool {
    v == "1"@ || v == "true"@ || v == "TRUE"@ || v == "yes"@
}

/// Whether the proxy is turned off, given the value of
/// `KOTLIN_LSP_PROXY_DISABLE` (`None` when unset or not valid Unicode).
pub fn proxy_disabled(value: Option<&str>) -> (r: bool)
    ensures
        r == match value {
            Some(v) => disables_proxy(v@),
            None => false,
        },
{
    match value {
        Some(v) => str_eq(v, "1") || str_eq(v, "true") || str_eq(v, "TRUE") || str_eq(v, "yes"),
        None => false,
    }
}

/// The bytes of a path made absolute against the work directory `cwd`: an
/// absolute path, or any path when there is no work directory, stays as it is;
/// otherwise it is joined onto the work directory.
pub open spec fn absolutized(path: Seq<u8>, cwd: Option<Seq<u8>>) -> Seq<u8> {
    if is_absolute(path) {
        path
    } else {
        match cwd {
            Some(c) => path_join(c, path),
            None => path,
        }
    }
}

pub open spec fn opt_str_bytes(o: Option<&str>) -> Option<Seq<u8>> {
    match o {
        Some(s) => Some(s.spec_bytes()),
        None => None,
    }
}

/// A language-server path made absolute against the extension work directory
/// `cwd` (`None` when it could not be read): an absolute path, or any path
/// when there is no work directory, stays as it is.
pub fn absolutize_in_work_dir(path: &str, cwd: Option<&str>) -> (r: String)
    ensures
        encode_utf8(r@) == absolutized(path.spec_bytes(), opt_str_bytes(cwd)),
        is_absolute(path.spec_bytes()) || cwd is None ==> r@ == path@,
        !is_absolute(path.spec_bytes()) && cwd is Some ==> encode_utf8(r@) == path_join(
            cwd.unwrap().spec_bytes(),
            path.spec_bytes(),
        ),
        cwd is Some && is_absolute(cwd.unwrap().spec_bytes()) ==> is_absolute(encode_utf8(r@)),
{
    proof {
        lemma_str_chars(path);
        vstd::utf8::decode_utf8_encode_utf8(path.spec_bytes());
    }
    let pb = path.as_bytes();
    if pb.len() > 0 && pb[0] == 47 {
        return path.to_owned();
    }
    match cwd {
        Some(c) => join(c, path),
        None => path.to_owned(),
    }
}

pub open spec fn exec_name_of(os: Os) -> Seq<char> {
    if os == Os::Windows {
        "kotlin-lsp-proxy.exe"@
    } else {
        "kotlin-lsp-proxy"@
    }
}

/// The proxy executable's file name on a platform (`.exe` on Windows).
pub fn proxy_exec_name(os: Os) -> (r: String)
    ensures
        r@ == exec_name_of(os),
{
    match os {
        Os::Windows => "kotlin-lsp-proxy.exe".to_owned(),
        _ => PROXY_BINARY.to_owned(),
    }
}

/// The repository to download from: `KOTLIN_LSP_PROXY_GITHUB_REPO` when it
/// is set (`value`), else the default.
pub fn github_repo(value: Option<String>) -> (r: String)
    ensures
        r@ == match value {
            Some(v) => v@,
            None => DEFAULT_GITHUB_REPO@,
        },
{
    match value {
        Some(v) => v,
        None => DEFAULT_GITHUB_REPO.to_owned(),
    }
}

pub open spec fn os_tag(os: Os) -> Seq<char> {
    match os {
        Os::Mac => "darwin"@,
        Os::Linux => "linux"@,
        Os::Windows => "windows"@,
    }
}

pub open spec fn arch_tag(arch: Architecture) -> Seq<char> {
    if arch == Architecture::Aarch64 {
        "aarch64"@
    } else {
        "x86_64"@
    }
}

/// The release asset for a platform, `kotlin-lsp-proxy-{os}-{arch}.{ext}`, and
/// how it is packed: a zip on Windows, a gzipped tarball elsewhere. 32-bit x86
/// has no asset.
pub fn platform_asset(os: Os, arch: Architecture) -> (r: Result<(String, DownloadedFileType), String>)
    ensures
        match r {
            Err(e) => arch == Architecture::X86 && e@ == "Unsupported architecture for kotlin-lsp-proxy"@,
            Ok((name, file_type)) => {
                &&& arch != Architecture::X86
                &&& file_type == (if os == Os::Windows {
                    DownloadedFileType::Zip
                } else {
                    DownloadedFileType::GzipTar
                })
                &&& name@ == "kotlin-lsp-proxy-"@ + os_tag(os) + "-"@ + arch_tag(arch) + "."@ + (
                if os == Os::Windows {
                    "zip"@
                } else {
                    "tar.gz"@
                })
            },
        },
{
    let (os_str, file_type) = match os {
        Os::Mac => ("darwin", DownloadedFileType::GzipTar),
        Os::Linux => ("linux", DownloadedFileType::GzipTar),
        Os::Windows => ("windows", DownloadedFileType::Zip),
    };
    let arch_str = match arch {
        Architecture::Aarch64 => "aarch64",
        Architecture::X8664 => "x86_64",
        _ => {
            return Err("Unsupported architecture for kotlin-lsp-proxy".to_owned());
        },
    };
    let ext = match file_type {
        DownloadedFileType::Zip => "zip",
        _ => "tar.gz",
    };
    let n1 = concat_strs("kotlin-lsp-proxy-", os_str);
    let n2 = concat_strs(n1.as_str(), "-");
    let n3 = concat_strs(n2.as_str(), arch_str);
    let n4 = concat_strs(n3.as_str(), ".");
    let name = concat_strs(n4.as_str(), ext);
    Ok((name, file_type))
}

/// Where the proxy of an extension version is downloaded to.
pub struct ProxyDownload {
    /// The release tag, `v{version}`.
    pub tag: String,
    /// `bin/v{version}`, relative to the work directory.
    pub version_dir: String,
    /// `bin/v{version}/{exec name}`.
    pub binary_path: String,
}

/// The download layout of the proxy for an extension version on a platform.
pub fn proxy_download(version: &str, os: Os) -> (r: ProxyDownload)
    ensures
        r.tag@ == "v"@ + version@,
        r.version_dir@ == "bin/v"@ + version@,
        r.binary_path@ == "bin/v"@ + version@ + "/"@ + exec_name_of(os),
{
    let tag = concat_strs("v", version);
    let version_dir = concat_strs("bin/v", version);
    let exec_name = proxy_exec_name(os);
    let with_sep = concat_strs(version_dir.as_str(), "/");
    let binary_path = concat_strs(with_sep.as_str(), exec_name.as_str());
    ProxyDownload { tag, version_dir, binary_path }
}

pub open spec fn bytes_of(s: Seq<char>) -> Seq<u8> {
    encode_utf8(s)
}

/// Where an unpacked archive may have put the executable: the expected
/// `binary_path`, or `kotlin-lsp-proxy` / `kotlin-lsp-proxy.exe` directly in
/// the version directory.
pub fn extracted_candidates(d: &ProxyDownload) -> (r: Vec<String>)
    ensures
        r@.len() == 3,
        r@[0]@ == d.binary_path@,
        encode_utf8(r@[1]@) == path_join(bytes_of(d.version_dir@), PROXY_BINARY.spec_bytes()),
        encode_utf8(r@[2]@) == path_join(
            bytes_of(d.version_dir@),
            PROXY_BINARY.spec_bytes() + ".exe".spec_bytes(),
        ),
{
    let exe = concat_strs(PROXY_BINARY, ".exe");
    let vd = d.version_dir.as_str();
    let ex = exe.as_str();
    proof {
        lemma_str_chars(vd);
        vstd::utf8::decode_utf8_encode_utf8(vd.spec_bytes());
        lemma_str_chars(ex);
        vstd::utf8::decode_utf8_encode_utf8(ex.spec_bytes());
    }
    let plain = join(vd, PROXY_BINARY);
    let windows = join(vd, ex);
    let mut r: Vec<String> = Vec::new();
    r.push(d.binary_path.clone());
    r.push(plain);
    r.push(windows);
    r
}

/// What an unpacked download leaves to do, given which of the
/// `extracted_candidates` are files: `Err` when none is; `Ok(Some(found))`
/// when the first that is lies elsewhere than `binary_path` and is moved
/// there; `Ok(None)` when the executable is already in place.
pub fn settle_extracted(d: &ProxyDownload, candidates: &Vec<String>, is_file: &Vec<bool>) -> (r: Result<Option<String>, String>)
    requires
        candidates@.len() == is_file@.len(),
    ensures
        match r {
            Err(e) => {
                &&& forall|i: int| 0 <= i < is_file@.len() ==> !#[trigger] is_file@[i]
                &&& e@ == "proxy binary not found after extract in "@ + d.version_dir@
            },
            Ok(moved) => exists|i: int|
                {
                    &&& 0 <= i < is_file@.len()
                    &&& #[trigger] is_file@[i]
                    &&& forall|j: int| 0 <= j < i ==> !#[trigger] is_file@[j]
                    &&& match moved {
                        Some(f) => f@ == candidates@[i]@ && f@ != d.binary_path@,
                        None => candidates@[i]@ == d.binary_path@,
                    }
                },
        },
{
    let mut i: usize = 0;
    while i < is_file.len()
        invariant
            i <= is_file@.len(),
            candidates@.len() == is_file@.len(),
            forall|j: int| 0 <= j < i ==> !#[trigger] is_file@[j],
        decreases is_file@.len() - i,
    {
        if is_file[i] {
            let found = &candidates[i];
            if str_eq(found.as_str(), d.binary_path.as_str()) {
                return Ok(None);
            } else {
                return Ok(Some(found.clone()));
            }
        }
        i = i + 1;
    }
    Err(concat_strs("proxy binary not found after extract in ", d.version_dir.as_str()))
}

/// `{cwd}/bin/v{version}/{exec name}`: a proxy installed for this extension
/// version by hand.
pub fn versioned_proxy_path(cwd: &str, version: &str, os: Os) -> (r: String)
    ensures
        encode_utf8(r@) == path_join(
            path_join(path_join(cwd.spec_bytes(), "bin".spec_bytes()), bytes_of("v"@ + version@)),
            bytes_of(exec_name_of(os)),
        ),
{
    let bin = join(cwd, "bin");
    let v = concat_strs("v", version);
    let exec_name = proxy_exec_name(os);
    let bs = bin.as_str();
    let vs = v.as_str();
    let es = exec_name.as_str();
    proof {
        lemma_str_chars(bs);
        vstd::utf8::decode_utf8_encode_utf8(bs.spec_bytes());
        lemma_str_chars(vs);
        vstd::utf8::decode_utf8_encode_utf8(vs.spec_bytes());
        lemma_str_chars(es);
        vstd::utf8::decode_utf8_encode_utf8(es.spec_bytes());
    }
    let dir = join(bs, vs);
    let ds = dir.as_str();
    proof {
        lemma_str_chars(ds);
        vstd::utf8::decode_utf8_encode_utf8(ds.spec_bytes());
    }
    join(ds, es)
}

/// What the file system showed when looking for an installed proxy.
pub struct ProxyProbe {
    /// `$KOTLIN_LSP_PROXY`, when set.
    pub env_proxy: Option<String>,
    /// Whether `$KOTLIN_LSP_PROXY` names a file.
    pub env_proxy_is_file: bool,
    /// Whether the work directory could be read.
    pub has_cwd: bool,
    /// Whether `{cwd}/bin/kotlin-lsp-proxy` is a file.
    pub local_is_file: bool,
    /// The `versioned_proxy_path` in the work directory.
    pub versioned: String,
    /// Whether that path is a file.
    pub versioned_is_file: bool,
}

/// The outcome of looking for an installed proxy.
pub enum ProxyLookup {
    /// The proxy is turned off.
    Disabled,
    /// An installed proxy, by the path the editor should start.
    Found(String),
    /// None is installed: the managed download is next.
    Download,
}

/// Looks for an installed proxy, in order: `$KOTLIN_LSP_PROXY` when it names
/// a file; `bin/kotlin-lsp-proxy` in the work directory (returned relative, so
/// that the editor resolves it there); the versioned install
/// `bin/v{version}/{exec name}`. Otherwise the download is next.
pub fn installed_proxy(disabled: bool, probe: &ProxyProbe) -> (r: ProxyLookup)
    ensures
        disabled ==> r is Disabled,
        !disabled && probe.env_proxy is Some && probe.env_proxy_is_file ==> r is Found
            && r->Found_0@ == probe.env_proxy.unwrap()@,
        !disabled && !(probe.env_proxy is Some && probe.env_proxy_is_file) && probe.has_cwd
            && probe.local_is_file ==> r is Found && r->Found_0@ == PROXY_RELATIVE@,
        !disabled && !(probe.env_proxy is Some && probe.env_proxy_is_file) && probe.has_cwd
            && !probe.local_is_file && probe.versioned_is_file ==> r is Found && r->Found_0@
            == probe.versioned@,
        !disabled && !(probe.env_proxy is Some && probe.env_proxy_is_file) && !(probe.has_cwd && (
        probe.local_is_file || probe.versioned_is_file)) ==> r is Download,
{
    if disabled {
        return ProxyLookup::Disabled;
    }
    if let Some(p) = &probe.env_proxy {
        if probe.env_proxy_is_file {
            return ProxyLookup::Found(p.clone());
        }
    }
    if probe.has_cwd {
        if probe.local_is_file {
            return ProxyLookup::Found(PROXY_RELATIVE.to_owned());
        }
        if probe.versioned_is_file {
            return ProxyLookup::Found(probe.versioned.clone());
        }
    }
    ProxyLookup::Download
}

} // verus!
