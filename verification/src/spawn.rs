//! Which language-server binary the proxy starts.

use vstd::prelude::*;
use vstd::string::StringSliceAdditionalSpecFns;
use vstd::utf8::*;

use crate::paths::{is_absolute, join, path_join};

verus! {

pub open spec fn joined(dir: Option<&str>, bin: &str) -> Seq<Seq<u8>> {
    match dir {
        Some(d) => seq![path_join(d.spec_bytes(), bin.spec_bytes())],
        None => seq![],
    }
}

/// The places a relative binary path is looked for, in order: under the work
/// directory (the parent of the directory holding the proxy executable),
/// under the directory holding the proxy executable, and under the current
/// directory, each where it is known. None for an absolute path.
pub open spec fn binary_candidates_spec(
    bin: &str,
    work_dir: Option<&str>,
    exe_dir: Option<&str>,
    cwd: Option<&str>,
) -> Seq<Seq<u8>> {
    if is_absolute(bin.spec_bytes()) {
        seq![]
    } else {
        joined(work_dir, bin) + joined(exe_dir, bin) + joined(cwd, bin)
    }
}

pub open spec fn bytes_view(v: Seq<String>) -> Seq<Seq<u8>> {
    Seq::new(v.len(), |i: int| encode_utf8(v[i]@))
}

fn push_joined(out: &mut Vec<String>, dir: Option<&str>, bin: &str)
    ensures
        bytes_view(final(out)@) == bytes_view(old(out)@) + joined(dir, bin),
{
    let ghost before = bytes_view(out@);
    match dir {
        Some(d) => {
            let p = join(d, bin);
            out.push(p);
            assert(bytes_view(out@) =~= before + joined(dir, bin));
        },
        None => {
            assert(bytes_view(out@) =~= before + joined(dir, bin));
        },
    }
}

/// The paths to try for the language-server binary (see
/// `binary_candidates_spec`).
pub fn binary_candidates(bin: &str, work_dir: Option<&str>, exe_dir: Option<&str>, cwd: Option<&str>) -> (r: Vec<String>)
    ensures
        bytes_view(r@) == binary_candidates_spec(bin, work_dir, exe_dir, cwd),
{
    let mut out: Vec<String> = Vec::new();
    let b = bin.as_bytes();
    if b.len() > 0 && b[0] == 47 {
        assert(bytes_view(out@) =~= Seq::<Seq<u8>>::empty());
        return out;
    }
    assert(bytes_view(out@) =~= Seq::<Seq<u8>>::empty());
    push_joined(&mut out, work_dir, bin);
    push_joined(&mut out, exe_dir, bin);
    push_joined(&mut out, cwd, bin);
    assert(bytes_view(out@) =~= binary_candidates_spec(bin, work_dir, exe_dir, cwd));
    out
}

/// The binary to start: the first candidate that is a file, else `bin` as
/// given.
pub fn resolve_language_server_binary(bin: &str, candidates: &Vec<String>, is_file: &Vec<bool>) -> (r: String)
    requires
        candidates@.len() == is_file@.len(),
    ensures
        (forall|i: int| 0 <= i < is_file@.len() ==> !#[trigger] is_file@[i]) ==> r@ == bin@,
        forall|i: int|
            0 <= i < is_file@.len() && #[trigger] is_file@[i] && (forall|j: int|
                0 <= j < i ==> !#[trigger] is_file@[j]) ==> r@ == candidates@[i]@,
{
    let mut i: usize = 0;
    while i < is_file.len()
        invariant
            i <= is_file@.len(),
            candidates@.len() == is_file@.len(),
            forall|j: int| 0 <= j < i ==> !#[trigger] is_file@[j],
        decreases is_file@.len() - i,
    {
        if is_file[i] {
            let r = candidates[i].clone();
            proof {
                assert forall|k: int|
                    0 <= k < is_file@.len() && #[trigger] is_file@[k] && (forall|j: int|
                        0 <= j < k ==> !#[trigger] is_file@[j]) implies k == i by {
                    if k < i {
                        assert(!is_file@[k]);
                    } else if k > i {
                        assert(!is_file@[i as int]);
                    }
                }
            }
            return r;
        }
        i = i + 1;
    }
    bin.to_owned()
}

} // verus!
