//! The on-disk cache for extracted archive entries: where it lives, the file
//! each entry is extracted to, and which files a size-based collection removes.

use vstd::prelude::*;
use vstd::string::StringSliceAdditionalSpecFns;
use vstd::utf8::*;

use crate::paths::{components, is_absolute, join, lemma_join_components, normal_parts, path_join, path_starts_with};
use crate::text::{
    all_ascii, ascii_chars, chars_of, lemma_ascii_utf8, lemma_str_chars, parse_u64,
    parse_u64_chars, string_from_ascii,
};

verus! {

broadcast use vstd::utf8::encode_utf8_valid_utf8;

// ---------------------------------------------------------------------------
// Hex and hashing
// ---------------------------------------------------------------------------

/// The lowercase hex digit for a value below 16.
pub open spec fn hex_digit(v: u8) -> u8 {
    if v < 10 {
        (v + 48) as u8
    } else {
        (v + 87) as u8
    }
}

/// Lowercase hex, two digits per byte, high nibble first.
pub open spec fn hex_lower(b: Seq<u8>) -> Seq<u8>
    decreases b.len(),
{
    if b.len() == 0 {
        seq![]
    } else {
        seq![hex_digit(b[0] / 16), hex_digit(b[0] % 16)] + hex_lower(b.subrange(1, b.len() as int))
    }
}

proof fn lemma_hex_lower(b: Seq<u8>)
    ensures
        hex_lower(b).len() == 2 * b.len(),
        all_ascii(hex_lower(b)),
        hex_lower(b).len() > 0 ==> 48 <= hex_lower(b)[0] <= 102,
    decreases b.len(),
{
    if b.len() > 0 {
        lemma_hex_lower(b.subrange(1, b.len() as int));
    }
}

fn hex_digit_exec(v: u8) -> (r: u8)
    requires
        v < 16,
    ensures
        r == hex_digit(v),
{
    if v < 10 {
        v + 48
    } else {
        v + 87
    }
}

/// Lowercase hex encoding of `bytes`.
pub fn hex_encode(bytes: &[u8]) -> (r: String)
    ensures
        encode_utf8(r@) == hex_lower(bytes@),
{
    let mut out: Vec<u8> = Vec::new();
    let mut i: usize = 0;
    assert(bytes@.subrange(0, bytes@.len() as int) =~= bytes@);
    while i < bytes.len()
        invariant
            i <= bytes@.len(),
            hex_lower(bytes@) == out@ + hex_lower(bytes@.subrange(i as int, bytes@.len() as int)),
        decreases bytes@.len() - i,
    {
        let b = bytes[i];
        let ghost rest = bytes@.subrange(i as int, bytes@.len() as int);
        assert(rest[0] == b);
        assert(rest.subrange(1, rest.len() as int) =~= bytes@.subrange(i + 1, bytes@.len() as int));
        out.push(hex_digit_exec(b / 16));
        out.push(hex_digit_exec(b % 16));
        i = i + 1;
        assert(hex_lower(bytes@) =~= out@ + hex_lower(bytes@.subrange(i as int, bytes@.len() as int)));
    }
    assert(bytes@.subrange(i as int, bytes@.len() as int) =~= Seq::<u8>::empty());
    assert(out@ =~= hex_lower(bytes@));
    proof {
        lemma_hex_lower(bytes@);
    }
    string_from_ascii(out.as_slice())
}

/// The SHA-256 digest of `data`.
pub uninterp spec fn sha256(data: Seq<u8>) -> Seq<u8>;

/// Calls `sha2::Sha256::digest` (from `sha2::Digest`) and copies the digest
/// into a vector. Its contract names the digest `sha256(data)` and states its
/// fixed size of 32 bytes (`Sha256`'s `OutputSize` is `U32`).
#[verifier::external_body]
fn sha256_digest(data: &[u8]) -> (r: Vec<u8>)
    ensures
        r@ == sha256(data@),
        r@.len() == 32,
{
    <sha2::Sha256 as sha2::Digest>::digest(data).to_vec()
}

/// `u64::to_le_bytes`: the low `n` bytes of `x`, least significant first.
pub open spec fn le_bytes(x: nat, n: nat) -> Seq<u8>
    decreases n,
{
    if n == 0 {
        seq![]
    } else {
        seq![(x % 256) as u8] + le_bytes(x / 256, (n - 1) as nat)
    }
}

fn push_le_bytes(x: u64, out: &mut Vec<u8>)
    ensures
        final(out)@ == old(out)@ + le_bytes(x as nat, 8),
{
    let mut rest = x;
    let mut k: u64 = 0;
    while k < 8
        invariant
            k <= 8,
            old(out)@ + le_bytes(x as nat, 8) == out@ + le_bytes(rest as nat, (8 - k) as nat),
        decreases 8 - k,
    {
        let ghost prev = out@;
        out.push((rest % 256) as u8);
        proof {
            assert(le_bytes(rest as nat, (8 - k) as nat) == seq![(rest % 256) as u8] + le_bytes(
                (rest / 256) as nat,
                (8 - k - 1) as nat,
            ));
            assert(prev + le_bytes(rest as nat, (8 - k) as nat) =~= out@ + le_bytes(
                (rest / 256) as nat,
                (8 - k - 1) as nat,
            ));
        }
        rest = rest / 256;
        k = k + 1;
    }
    assert(le_bytes(rest as nat, 0) =~= Seq::<u8>::empty());
    assert(out@ + le_bytes(rest as nat, 0) =~= out@);
}

// ---------------------------------------------------------------------------
// Cache locations
// ---------------------------------------------------------------------------

/// The cache directory: `$KOTLIN_LSP_PROXY_CACHE` when set; else
/// `$HOME/.cache/zed-kotlin-jar-sources`; else
/// `$LOCALAPPDATA/zed-kotlin-jar-sources`; else `zed-kotlin-jar-sources` under
/// the temporary directory.
pub open spec fn cache_root_path(
    cache_var: Option<Seq<u8>>,
    home: Option<Seq<u8>>,
    local_app_data: Option<Seq<u8>>,
    temp_dir: Seq<u8>,
) -> Seq<u8> {
    match cache_var {
        Some(c) => c,
        None => match home {
            Some(h) => path_join(path_join(h, ".cache".spec_bytes()), "zed-kotlin-jar-sources".spec_bytes()),
            None => match local_app_data {
                Some(l) => path_join(l, "zed-kotlin-jar-sources".spec_bytes()),
                None => path_join(temp_dir, "zed-kotlin-jar-sources".spec_bytes()),
            },
        },
    }
}

pub open spec fn opt_bytes(o: Option<&str>) -> Option<Seq<u8>> {
    match o {
        Some(s) => Some(s.spec_bytes()),
        None => None,
    }
}

/// The cache directory (see `cache_root_path`), given the environment values.
pub fn cache_root(
    cache_var: Option<&str>,
    home: Option<&str>,
    local_app_data: Option<&str>,
    temp_dir: &str,
) -> (r: String)
    ensures
        encode_utf8(r@) == cache_root_path(
            opt_bytes(cache_var),
            opt_bytes(home),
            opt_bytes(local_app_data),
            temp_dir.spec_bytes(),
        ),
{
    if let Some(dir) = cache_var {
        proof {
            lemma_str_chars(dir);
        }
        return dir.to_owned();
    }
    if let Some(h) = home {
        let dot_cache = join(h, ".cache");
        let dc = dot_cache.as_str();
        proof {
            lemma_str_chars(dc);
        }
        return join(dc, "zed-kotlin-jar-sources");
    }
    if let Some(l) = local_app_data {
        return join(l, "zed-kotlin-jar-sources");
    }
    join(temp_dir, "zed-kotlin-jar-sources")
}

/// What the file system says about an archive, for naming its cache entries.
pub struct ArchiveStamp {
    /// Modification time in whole seconds since the Unix epoch, when known.
    pub modified_secs: Option<u64>,
    /// Size in bytes.
    pub len: u64,
}

/// The bytes hashed for an archive's stamp: modification seconds (when known)
/// and size, each as 8 little-endian bytes; nothing without a stamp.
pub open spec fn stamp_bytes(meta: Option<ArchiveStamp>) -> Seq<u8> {
    match meta {
        None => seq![],
        Some(m) => (match m.modified_secs {
            Some(s) => le_bytes(s as nat, 8),
            None => seq![],
        }) + le_bytes(m.len as nat, 8),
    }
}

/// The file an archive entry is extracted to: under the cache root, in a
/// directory named by the first 16 hex digits of the SHA-256 of the archive
/// path, its stamp and the entry name, at the entry's relative path.
pub open spec fn cache_file_path(
    root: Seq<u8>,
    archive: Seq<u8>,
    meta: Option<ArchiveStamp>,
    entry: Seq<u8>,
) -> Seq<u8> {
    let digest = hex_lower(sha256(archive + stamp_bytes(meta) + entry));
    path_join(path_join(root, digest.subrange(0, 16)), entry)
}

fn push_all(out: &mut Vec<u8>, b: &[u8])
    ensures
        final(out)@ == old(out)@ + b@,
{
    let mut i: usize = 0;
    while i < b.len()
        invariant
            i <= b@.len(),
            out@ == old(out)@ + b@.subrange(0, i as int),
        decreases b@.len() - i,
    {
        out.push(b[i]);
        i = i + 1;
        assert(out@ =~= old(out)@ + b@.subrange(0, i as int));
    }
    assert(b@.subrange(0, b@.len() as int) =~= b@);
}

/// The cache file for an archive entry (see `cache_file_path`).
///
/// Extracted files stay in the cache: when the root is not empty and the entry
/// path is not absolute (as every name `safe_relative_entry` accepts), the
/// file lies under the root (`Path::starts_with`).
pub fn cache_file_for(root: &str, archive: &str, meta: &Option<ArchiveStamp>, entry: &str) -> (r: String)
    ensures
        encode_utf8(r@) == cache_file_path(root.spec_bytes(), archive.spec_bytes(), *meta, entry.spec_bytes()),
        root.spec_bytes().len() > 0 && !is_absolute(entry.spec_bytes()) ==> path_starts_with(
            encode_utf8(r@),
            root.spec_bytes(),
        ),
{
    let mut input: Vec<u8> = Vec::new();
    push_all(&mut input, archive.as_bytes());
    match meta {
        Some(m) => {
            match m.modified_secs {
                Some(s) => push_le_bytes(s, &mut input),
                None => {},
            }
            push_le_bytes(m.len, &mut input);
        },
        None => {},
    }
    push_all(&mut input, entry.as_bytes());
    assert(input@ =~= archive.spec_bytes() + stamp_bytes(*meta) + entry.spec_bytes());
    let digest = sha256_digest(input.as_slice());
    let hex = hex_encode(digest.as_slice());
    let hs = hex.as_str();
    proof {
        lemma_str_chars(hs);
        lemma_hex_lower(digest@);
        lemma_ascii_utf8(hex_lower(digest@));
    }
    let prefix = vstd::slice::slice_subrange(hs.as_bytes(), 0, 16);
    proof {
        assert(all_ascii(prefix@));
    }
    let dir = string_from_ascii(prefix);
    let ds = dir.as_str();
    proof {
        lemma_str_chars(ds);
    }
    proof {
        if root.spec_bytes().len() > 0 && !is_absolute(entry.spec_bytes()) {
            lemma_cache_file_under_root(root.spec_bytes(), archive.spec_bytes(), *meta, entry.spec_bytes());
        }
    }
    let sub = join(root, ds);
    let ss = sub.as_str();
    proof {
        lemma_str_chars(ss);
    }
    join(ss, entry)
}

/// A relative entry path joined under a digest directory stays under the root.
proof fn lemma_cache_file_under_root(
    root: Seq<u8>,
    archive: Seq<u8>,
    meta: Option<ArchiveStamp>,
    entry: Seq<u8>,
)
    requires
        root.len() > 0,
        !is_absolute(entry),
        sha256(archive + stamp_bytes(meta) + entry).len() == 32,
    ensures
        path_starts_with(cache_file_path(root, archive, meta, entry), root),
{
    let digest = hex_lower(sha256(archive + stamp_bytes(meta) + entry));
    lemma_hex_lower(sha256(archive + stamp_bytes(meta) + entry));
    let d = digest.subrange(0, 16);
    assert(d[0] == digest[0]);
    assert(!is_absolute(d));
    lemma_join_components(root, d);
    let mid = path_join(root, d);
    assert(mid.len() > 0);
    lemma_join_components(mid, entry);
    let full = components(path_join(mid, entry));
    assert(full =~= components(root) + normal_parts(d) + normal_parts(entry));
    assert(full.subrange(0, components(root).len() as int) =~= components(root));
}

/// The cache budget in bytes: `KOTLIN_LSP_PROXY_CACHE_MAX_MB` when it parses as
/// a `u64`, else 512, in MiB, multiplied out with saturation.
pub open spec fn max_cache_bytes_of(setting: Option<Seq<char>>) -> u64 {
    let mb: u64 = match setting {
        Some(s) => match parse_u64(s) {
            Some(v) => v,
            None => 512,
        },
        None => 512,
    };
    if mb * 1048576 > u64::MAX {
        u64::MAX
    } else {
        (mb * 1048576) as u64
    }
}

/// The cache budget in bytes (see `max_cache_bytes_of`).
pub fn max_cache_bytes(setting: Option<&str>) -> (r: u64)
    ensures
        r == max_cache_bytes_of(
            match setting {
                Some(s) => Some(s@),
                None => None,
            },
        ),
{
    let mb: u64 = match setting {
        Some(s) => {
            let cs = chars_of(s);
            match parse_u64_chars(&cs) {
                Some(v) => v,
                None => 512,
            }
        },
        None => 512,
    };
    if mb > u64::MAX / 1048576 {
        assert(mb * 1048576 > u64::MAX) by (nonlinear_arith)
            requires
                mb > u64::MAX / 1048576,
        ;
        u64::MAX
    } else {
        assert(mb * 1048576 <= u64::MAX) by (nonlinear_arith)
            requires
                mb <= u64::MAX / 1048576,
        ;
        mb * 1048576
    }
}

// ---------------------------------------------------------------------------
// Size-based collection
// ---------------------------------------------------------------------------

/// A regular file found in the cache directory.
pub struct CacheFile {
    /// The file's name, when it is valid UTF-8.
    pub file_name: Option<String>,
    /// Size in bytes.
    pub len: u64,
    /// Modification time in nanoseconds relative to the Unix epoch (the epoch
    /// itself when unknown).
    pub modified: i128,
}

/// The proxy's own log file, which collection never removes.
pub open spec fn is_log_file(f: CacheFile) -> bool {
    match f.file_name {
        Some(n) => n@ == "proxy.log"@,
        None => false,
    }
}

pub open spec fn sat_add(a: u64, b: u64) -> u64 {
    if a + b > u64::MAX {
        u64::MAX
    } else {
        (a + b) as u64
    }
}

pub open spec fn sat_sub(a: u64, b: u64) -> u64 {
    if a < b {
        0
    } else {
        (a - b) as u64
    }
}

/// The saturating total size of the first `n` files, the log file left out.
pub open spec fn total_size(files: Seq<CacheFile>, n: int) -> u64
    decreases n,
{
    if n <= 0 || n > files.len() {
        0
    } else if is_log_file(files[n - 1]) {
        total_size(files, n - 1)
    } else {
        sat_add(total_size(files, n - 1), files[n - 1].len)
    }
}

/// File `x` was modified before file `y`, or at the same time and found first.
pub open spec fn older(files: Seq<CacheFile>, x: int, y: int) -> bool {
    files[x].modified < files[y].modified || (files[x].modified == files[y].modified && x < y)
}

/// `order` lists every file but the log file exactly once, oldest first (a
/// stable sort by modification time).
pub open spec fn is_age_order(order: Seq<usize>, files: Seq<CacheFile>) -> bool {
    &&& forall|i: int| 0 <= i < order.len() ==> #[trigger] order[i] < files.len() && !is_log_file(files[order[i] as int])
    &&& forall|k: int| 0 <= k < files.len() && !is_log_file(files[k]) ==> order.contains(k as usize)
    &&& forall|a: int, b: int| 0 <= a < b < order.len() ==> older(files, #[trigger] order[a] as int, #[trigger] order[b] as int)
}

/// The sizes of the files.
pub open spec fn sizes(files: Seq<CacheFile>) -> Seq<u64> {
    Seq::new(files.len(), |i: int| files[i].len)
}

/// A collection in progress: oldest files are removed first until the total
/// size is within the budget.
pub struct GcPlan {
    total: u64,
    max: u64,
    order: Vec<usize>,
    lens: Vec<u64>,
    next: usize,
    removed: u64,
}

impl GcPlan {
    #[verifier::type_invariant]
    closed spec fn wf(&self) -> bool {
        &&& self.next <= self.order@.len()
        &&& self.removed <= self.next
        &&& forall|i: int| 0 <= i < self.order@.len() ==> #[trigger] self.order@[i] < self.lens@.len()
    }

    /// The size still counted.
    pub closed spec fn total(&self) -> u64 {
        self.total
    }

    /// The budget in bytes.
    pub closed spec fn budget(&self) -> u64 {
        self.max
    }

    /// The files to try, in the order to try them.
    pub closed spec fn order(&self) -> Seq<usize> {
        self.order@
    }

    /// The sizes of all files found.
    pub closed spec fn lens(&self) -> Seq<u64> {
        self.lens@
    }

    /// How many files of `order` have been tried.
    pub closed spec fn tried(&self) -> nat {
        self.next as nat
    }

    /// How many files have been removed.
    pub closed spec fn removed_spec(&self) -> u64 {
        self.removed
    }

    /// The next file to remove: the oldest untried one while the total exceeds
    /// the budget; `None` when the total is within budget or every file was tried.
    pub fn next_victim(&self) -> (r: Option<usize>)
        ensures
            r == (if self.total() > self.budget() && self.tried() < self.order().len() {
                Some(self.order()[self.tried() as int])
            } else {
                None
            }),
    {
        proof {
            use_type_invariant(self);
        }
        if self.total > self.max && self.next < self.order.len() {
            Some(self.order[self.next])
        } else {
            None
        }
    }

    /// Records what became of the file `next_victim` named: when it was
    /// removed, its size leaves the total (saturating) and the removal is
    /// counted. Does nothing once every file was tried.
    pub fn record(&mut self, removed_ok: bool)
        ensures
            final(self).budget() == old(self).budget(),
            final(self).order() == old(self).order(),
            final(self).lens() == old(self).lens(),
            old(self).tried() < old(self).order().len() ==> {
                let len = old(self).lens()[old(self).order()[old(self).tried() as int] as int];
                &&& final(self).tried() == old(self).tried() + 1
                &&& final(self).total() == (if removed_ok {
                    sat_sub(old(self).total(), len)
                } else {
                    old(self).total()
                })
                &&& final(self).removed_spec() == (if removed_ok {
                    old(self).removed_spec() + 1
                } else {
                    old(self).removed_spec() as int
                })
            },
            old(self).tried() >= old(self).order().len() ==> *final(self) == *old(self),
    {
        proof {
            use_type_invariant(&*self);
        }
        if self.next >= self.order.len() {
            return;
        }
        let len = self.lens[self.order[self.next]];
        self.next = self.next + 1;
        if removed_ok {
            self.total = if self.total < len {
                0
            } else {
                self.total - len
            };
            self.removed = self.removed + 1;
        }
    }

    /// How many files have been removed.
    pub fn removed(&self) -> (r: u64)
        ensures
            r == self.removed_spec(),
    {
        self.removed
    }
}

fn is_log_exec(f: &CacheFile) -> (r: bool)
    ensures
        r == is_log_file(*f),
{
    match &f.file_name {
        Some(n) => {
            let ns = n.as_str();
            proof {
                lemma_str_chars(ns);
                lemma_str_chars("proxy.log");
            }
            crate::paths::bytes_eq(ns.as_bytes(), "proxy.log".as_bytes())
        },
        None => false,
    }
}

/// Plans a collection of the cache: the log file is left out; when the total
/// size of the other files is within the budget nothing is to be removed;
/// otherwise they are to be tried oldest first.
pub fn plan_gc(files: &Vec<CacheFile>, max: u64) -> (r: GcPlan)
    ensures
        r.lens() == sizes(files@),
        r.budget() == max,
        r.tried() == 0,
        r.removed_spec() == 0,
        r.total() == total_size(files@, files@.len() as int),
        r.total() <= max ==> r.order().len() == 0,
        r.total() > max ==> is_age_order(r.order(), files@),
{
    let n = files.len();
    let mut lens: Vec<u64> = Vec::new();
    let mut total: u64 = 0;
    let mut i: usize = 0;
    while i < n
        invariant
            n == files@.len(),
            i <= n,
            lens@ =~= sizes(files@).subrange(0, i as int),
            total == total_size(files@, i as int),
        decreases n - i,
    {
        let f = &files[i];
        lens.push(f.len);
        if !is_log_exec(f) {
            total = if total > u64::MAX - f.len {
                u64::MAX
            } else {
                total + f.len
            };
        }
        i = i + 1;
        assert(lens@ =~= sizes(files@).subrange(0, i as int));
    }
    assert(sizes(files@).subrange(0, n as int) =~= sizes(files@));
    let mut order: Vec<usize> = Vec::new();
    if total > max {
        let mut k: usize = 0;
        while k < n
            invariant
                n == files@.len(),
                k <= n,
                forall|x: int| 0 <= x < order@.len() ==> #[trigger] order@[x] < k && !is_log_file(files@[order@[x] as int]),
                forall|y: int| 0 <= y < k && !is_log_file(files@[y]) ==> order@.contains(y as usize),
                forall|a: int, b: int| 0 <= a < b < order@.len() ==> older(files@, #[trigger] order@[a] as int, #[trigger] order@[b] as int),
            decreases n - k,
        {
            if !is_log_exec(&files[k]) {
                let m = files[k].modified;
                let mut p: usize = 0;
                while p < order.len() && files[order[p]].modified <= m
                    invariant
                        n == files@.len(),
                        k < n,
                        m == files@[k as int].modified,
                        p <= order@.len(),
                        forall|x: int| 0 <= x < order@.len() ==> #[trigger] order@[x] < k,
                        forall|x: int| 0 <= x < p ==> #[trigger] files@[order@[x] as int].modified <= m,
                    decreases order@.len() - p,
                {
                    p = p + 1;
                }
                let ghost old_order = order@;
                proof {
                    if p < old_order.len() {
                        assert(files@[old_order[p as int] as int].modified > m);
                        assert forall|a: int| p <= a < old_order.len() implies files@[#[trigger] old_order[a] as int].modified > m by {
                            if a > p {
                                assert(older(files@, old_order[p as int] as int, old_order[a] as int));
                            }
                        }
                    }
                }
                order.insert(p, k);
                proof {
                    assert(order@ == old_order.insert(p as int, k));
                    assert forall|a: int, b: int| 0 <= a < b < order@.len() implies older(files@, #[trigger] order@[a] as int, #[trigger] order@[b] as int) by {
                        if b < p {
                            assert(order@[a] == old_order[a] && order@[b] == old_order[b]);
                        } else if b == p {
                            assert(order@[a] == old_order[a]);
                        } else if a == p {
                            assert(order@[b] == old_order[b - 1]);
                        } else if a < p {
                            assert(order@[a] == old_order[a] && order@[b] == old_order[b - 1]);
                            assert(files@[old_order[a] as int].modified <= m);
                        } else {
                            assert(order@[a] == old_order[a - 1] && order@[b] == old_order[b - 1]);
                        }
                    }
                    assert forall|y: int| 0 <= y < k + 1 && !is_log_file(files@[y]) implies order@.contains(y as usize) by {
                        if y == k {
                            assert(order@[p as int] == k);
                        } else {
                            let w = choose|w: int| 0 <= w < old_order.len() && old_order[w] == y as usize;
                            if w < p {
                                assert(order@[w] == y as usize);
                            } else {
                                assert(order@[w + 1] == y as usize);
                            }
                        }
                    }
                    assert forall|x: int| 0 <= x < order@.len() implies #[trigger] order@[x] < k + 1 && !is_log_file(files@[order@[x] as int]) by {
                        if x < p {
                            assert(order@[x] == old_order[x]);
                        } else if x > p {
                            assert(order@[x] == old_order[x - 1]);
                        }
                    }
                }
            }
            k = k + 1;
        }
    }
    let r = GcPlan { total, max, order, lens, next: 0, removed: 0 };
    r
}

/// Hex encoding reads back: each byte becomes two lowercase hex digits that
/// hex-decode to its high and its low nibble.
pub proof fn lemma_hex_lower_reads_back(b: Seq<u8>, i: int)
    requires
        0 <= i < b.len(),
    ensures
        hex_lower(b).len() == 2 * b.len(),
        crate::uri::hex_value(hex_lower(b)[2 * i]) == Some((b[i] / 16) as u8),
        crate::uri::hex_value(hex_lower(b)[2 * i + 1]) == Some((b[i] % 16) as u8),
        !(65 <= hex_lower(b)[2 * i] <= 90) && !(65 <= hex_lower(b)[2 * i + 1] <= 90),
    decreases b.len(),
{
    lemma_hex_lower(b);
    let rest = b.subrange(1, b.len() as int);
    lemma_hex_lower(rest);
    assert(hex_lower(b) == seq![hex_digit(b[0] / 16), hex_digit(b[0] % 16)] + hex_lower(rest));
    if i > 0 {
        lemma_hex_lower_reads_back(rest, i - 1);
        assert(rest[i - 1] == b[i]);
        assert(hex_lower(b)[2 * i] == hex_lower(rest)[2 * (i - 1)]);
        assert(hex_lower(b)[2 * i + 1] == hex_lower(rest)[2 * (i - 1) + 1]);
    }
}

/// Collection order is by modification time: oldest first, and files of the
/// same age in the order they were found; the log file is never listed.
pub proof fn lemma_age_order_times(order: Seq<usize>, files: Seq<CacheFile>, a: int, b: int)
    requires
        is_age_order(order, files),
        0 <= a < b < order.len(),
    ensures
        files[order[a] as int].modified <= files[order[b] as int].modified,
        files[order[a] as int].modified == files[order[b] as int].modified ==> order[a] < order[b],
        !is_log_file(files[order[a] as int]) && !is_log_file(files[order[b] as int]),
        order[a] != order[b],
{
    assert(older(files, order[a] as int, order[b] as int));
}

} // verus!
