//! JetBrains kotlin-lsp: picking the release version and the TeamCity
//! download, and remembering the installed launcher.

use vstd::prelude::*;
use vstd::string::StrSliceExecFns;

use crate::language_servers::launch::{Architecture, Os};
use crate::lsp_frame::line_at;
use crate::text::{char_pos, char_pos_from, chars_of, concat_strs, lemma_char_pos_from, trim_chars, trim_range};

verus! {

pub const LANGUAGE_SERVER_ID: &'static str = "kotlin-lsp";

/// A version known to work, used when installing the latest one fails.
pub const FALLBACK_VERSION: &'static str = "262.2310.0";

/// `### v`, the start of a release heading in RELEASES.md.
pub open spec fn release_heading() -> Seq<char> {
    seq!['#', '#', '#', ' ', 'v']
}

/// The version named by the first line at or after position `i` that starts
/// with `### v`: the rest of that line, trimmed.
pub open spec fn version_from(t: Seq<char>, i: int) -> Option<Seq<char>>
    decreases t.len() + 1 - i,
{
    if i < 0 || i >= t.len() {
        None
    } else {
        proof {
            lemma_char_pos_from(t, '\n', i);
        }
        let line = line_at(t, i);
        if line.len() >= 5 && line.subrange(0, 5) == release_heading() {
            Some(trim_chars(line.subrange(5, line.len() as int)))
        } else {
            version_from(t, char_pos_from(t, '\n', i) + 1)
        }
    }
}

fn heading_at(t: &Vec<char>, a: usize, b: usize) -> (r: bool)
    requires
        a <= b <= t@.len(),
    ensures
        r == (t@.subrange(a as int, b as int).len() >= 5 && t@.subrange(a as int, b as int).subrange(
            0,
            5,
        ) == release_heading()),
{
    if b - a < 5 {
        return false;
    }
    let ok = t[a] == '#' && t[a + 1] == '#' && t[a + 2] == '#' && t[a + 3] == ' ' && t[a + 4] == 'v';
    proof {
        let s = t@.subrange(a as int, b as int).subrange(0, 5);
        if ok {
            assert(s =~= release_heading());
        } else {
            assert(s[0] != '#' || s[1] != '#' || s[2] != '#' || s[3] != ' ' || s[4] != 'v');
        }
    }
    ok
}

/// The latest version in RELEASES.md: the rest of the first line that starts
/// with `### v`, trimmed.
pub fn extract_version_from_markdown(contents: &str) -> (r: Option<String>)
    ensures
        match r {
            Some(v) => version_from(contents@, 0) == Some(v@),
            None => version_from(contents@, 0) is None,
        },
{
    let t = chars_of(contents);
    let ghost tt = t@;
    let n = t.len();
    let mut i: usize = 0;
    while i < n
        invariant
            n == t@.len(),
            tt == t@,
            tt == contents@,
            i <= n,
            version_from(tt, 0) == version_from(tt, i as int),
        decreases n - i,
    {
        let e = char_pos(&t, '\n', i, n);
        proof {
            assert(t@.subrange(0, n as int) =~= tt);
            lemma_char_pos_from(tt, '\n', i as int);
        }
        let mut le = e;
        if e < n && le > i && t[le - 1] == '\r' {
            le = le - 1;
        }
        proof {
            let raw = tt.subrange(i as int, e as int);
            if e < n && e > i && tt[e - 1] == '\r' {
                assert(raw.last() == tt[e - 1]);
                assert(raw.drop_last() =~= tt.subrange(i as int, le as int));
            } else {
                if raw.len() > 0 {
                    assert(raw.last() == tt[e - 1]);
                }
            }
            assert(line_at(tt, i as int) =~= tt.subrange(i as int, le as int));
        }
        if heading_at(&t, i, le) {
            let (x, y) = trim_range(&t, i + 5, le);
            proof {
                let line = tt.subrange(i as int, le as int);
                assert(line.subrange(5, line.len() as int) =~= tt.subrange(i + 5, le as int));
            }
            let v = contents.substring_char(x, y);
            return Some(v.to_owned());
        }
        assert(version_from(tt, i as int) == version_from(tt, e + 1));
        if e >= n {
            assert(version_from(tt, e + 1) is None);
            return None;
        }
        i = e + 1;
    }
    None
}

/// Where a kotlin-lsp release is downloaded from and unpacked to.
pub struct TeamcityLayout {
    pub url: String,
    pub target_dir: String,
    pub script_path: String,
}

pub open spec fn platform_name(os: Os) -> Seq<char> {
    match os {
        Os::Mac => "mac"@,
        Os::Linux => "linux"@,
        Os::Windows => "win"@,
    }
}

/// The download for a version on a platform:
/// `https://download-cdn.jetbrains.com/kotlin-lsp/{v}/kotlin-lsp-{v}-{os}-{arch}.zip`,
/// unpacked to `kotlin-lsp-{v}` with the launcher `kotlin-lsp.sh`
/// (`kotlin-lsp.cmd` on Windows). 32-bit x86 is not supported.
pub fn teamcity_layout(version: &str, os: Os, arch: Architecture) -> (r: Result<TeamcityLayout, String>)
    ensures
        match r {
            Err(e) => arch == Architecture::X86 && e@
                == "Platform X86 is not supported by the Kotlin language server."@,
            Ok(l) => {
                let a = if arch == Architecture::Aarch64 {
                    "aarch64"@
                } else {
                    "x64"@
                };
                &&& arch != Architecture::X86
                &&& l.url@ == "https://download-cdn.jetbrains.com/kotlin-lsp/"@ + version@
                    + "/kotlin-lsp-"@ + version@ + "-"@ + platform_name(os) + "-"@ + a + ".zip"@
                &&& l.target_dir@ == "kotlin-lsp-"@ + version@
                &&& l.script_path@ == "kotlin-lsp-"@ + version@ + "/kotlin-lsp."@ + (if os
                    == Os::Windows {
                    "cmd"@
                } else {
                    "sh"@
                })
            },
        },
{
    let platform = match os {
        Os::Mac => "mac",
        Os::Linux => "linux",
        Os::Windows => "win",
    };
    let arch_name = match arch {
        Architecture::Aarch64 => "aarch64",
        Architecture::X8664 => "x64",
        Architecture::X86 => {
            return Err("Platform X86 is not supported by the Kotlin language server.".to_owned());
        },
    };
    let u1 = concat_strs("https://download-cdn.jetbrains.com/kotlin-lsp/", version);
    let u2 = concat_strs(u1.as_str(), "/kotlin-lsp-");
    let u3 = concat_strs(u2.as_str(), version);
    let u4 = concat_strs(u3.as_str(), "-");
    let u5 = concat_strs(u4.as_str(), platform);
    let u6 = concat_strs(u5.as_str(), "-");
    let u7 = concat_strs(u6.as_str(), arch_name);
    let url = concat_strs(u7.as_str(), ".zip");
    let target_dir = concat_strs("kotlin-lsp-", version);
    let s1 = concat_strs(target_dir.as_str(), "/kotlin-lsp.");
    let extension = match os {
        Os::Mac | Os::Linux => "sh",
        Os::Windows => "cmd",
    };
    let script_path = concat_strs(s1.as_str(), extension);
    Ok(TeamcityLayout { url, target_dir, script_path })
}

/// The kotlin-lsp server: remembers the launcher once it is installed.
pub struct KotlinLSP {
    cached_binary_path: Option<String>,
}

impl KotlinLSP {
    /// The launcher installed so far, if any.
    pub closed spec fn cached(&self) -> Option<Seq<char>> {
        match self.cached_binary_path {
            Some(p) => Some(p@),
            None => None,
        }
    }

    pub fn new() -> (r: Self)
        ensures
            r.cached() is None,
    {
        KotlinLSP { cached_binary_path: None }
    }

    /// The launcher installed earlier, which is used without checking again.
    pub fn cached_binary_path(&self) -> (r: Option<String>)
        ensures
            match r {
                Some(p) => self.cached() == Some(p@),
                None => self.cached() is None,
            },
    {
        match &self.cached_binary_path {
            Some(p) => Some(p.clone()),
            None => None,
        }
    }

    /// Settles an install attempt: the latest version's launcher when that
    /// installed; else the fallback version's launcher when that installed;
    /// else the error of the latest version. A launcher found is remembered.
    pub fn settle_binary_path(
        &mut self,
        latest: Result<String, String>,
        fallback: Option<Result<String, String>>,
    ) -> (r: Result<String, String>)
        ensures
            match latest {
                Ok(p) => r == Ok::<String, String>(p),
                Err(e) => match fallback {
                    Some(Ok(p)) => r == Ok::<String, String>(p),
                    _ => r == Err::<String, String>(e),
                },
            },
            match r {
                Ok(p) => final(self).cached() == Some(p@),
                Err(_) => final(self).cached() == old(self).cached(),
            },
    {
        let result = match latest {
            Ok(p) => Ok(p),
            Err(original) => match fallback {
                Some(Ok(p)) => Ok(p),
                _ => Err(original),
            },
        };
        if let Ok(p) = &result {
            self.cached_binary_path = Some(p.clone());
        }
        result
    }
}

} // verus!
