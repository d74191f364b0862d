//! Unix file-system paths as byte strings: joining (`PathBuf::join`), the file
//! name (`Path::file_name`), and the component sequence that `Path::starts_with`
//! compares.

use vstd::prelude::*;
use vstd::string::StringSliceAdditionalSpecFns;
use vstd::utf8::*;

use crate::text::{
    ascii_chars, concat_strs, find_bytes, find_first, find_from, lemma_ascii_utf8, lemma_find_from,
    matches_at, occurs_at,
};

verus! {

/// `PathBuf::join` on Unix: an absolute `rel` replaces `base`; otherwise a `/`
/// goes between them unless `base` is empty or already ends with one.
pub open spec fn path_join(base: Seq<u8>, rel: Seq<u8>) -> Seq<u8> {
    if rel.len() > 0 && rel[0] == 47 {
        rel
    } else if base.len() > 0 && base.last() != 47 {
        base + seq![47u8] + rel
    } else {
        base + rel
    }
}

/// `Path::is_absolute` on Unix: the path starts with `/`.
pub open spec fn is_absolute(p: Seq<u8>) -> bool {
    p.len() > 0 && p[0] == 47
}

/// `PathBuf::from(base).join(rel)`, as a `String`.
pub fn join(base: &str, rel: &str) -> (r: String)
    ensures
        encode_utf8(r@) == path_join(base.spec_bytes(), rel.spec_bytes()),
{
    let rb = rel.as_bytes();
    let bb = base.as_bytes();
    proof {
        crate::text::lemma_str_chars(rel);
        crate::text::lemma_str_chars(base);
    }
    if rb.len() > 0 && rb[0] == 47 {
        return rel.to_owned();
    }
    if bb.len() > 0 && bb[bb.len() - 1] != 47 {
        let with_sep = concat_strs(base, "/");
        let r = concat_strs(with_sep.as_str(), rel);
        proof {
            reveal_strlit("/");
            lemma_ascii_utf8(seq![47u8]);
            assert(ascii_chars(seq![47u8]) =~= "/"@);
            assert(bb@.last() == bb[bb.len() - 1]);
        }
        r
    } else {
        concat_strs(base, rel)
    }
}

// ---------------------------------------------------------------------------
// Components
// ---------------------------------------------------------------------------

/// Where the first path segment of `s` ends: at its first `/`, or its end.
pub open spec fn seg_end(s: Seq<u8>) -> int {
    match find_first(s, seq![47u8]) {
        Some(k) => k,
        None => s.len() as int,
    }
}

/// The `/`-separated segments of `s` that are neither empty nor `.`, in order.
pub open spec fn normal_parts(s: Seq<u8>) -> Seq<Seq<u8>>
    decreases s.len(),
{
    if s.len() == 0 {
        seq![]
    } else {
        let e = seg_end(s);
        let seg = s.subrange(0, e);
        let rest = if 0 <= e < s.len() {
            normal_parts(s.subrange(e + 1, s.len() as int))
        } else {
            seq![]
        };
        if seg.len() == 0 || seg == seq![46u8] {
            rest
        } else {
            seq![seg] + rest
        }
    }
}

/// `Path::components` on Unix, each component as bytes: `/` for the root, `.`
/// for a leading current directory, then every segment that is neither empty
/// nor `.` (`..` included).
pub open spec fn components(s: Seq<u8>) -> Seq<Seq<u8>> {
    if s.len() > 0 && s[0] == 47 {
        seq![seq![47u8]] + normal_parts(s.subrange(1, s.len() as int))
    } else if s.len() > 0 && s[0] == 46 && (s.len() == 1 || s[1] == 47) {
        seq![seq![46u8]] + normal_parts(s.subrange(1, s.len() as int))
    } else {
        normal_parts(s)
    }
}

/// `Path::starts_with`: the components of `base` begin the components of `p`.
pub open spec fn path_starts_with(p: Seq<u8>, base: Seq<u8>) -> bool {
    let cp = components(p);
    let cb = components(base);
    cb.len() <= cp.len() && cp.subrange(0, cb.len() as int) == cb
}

proof fn lemma_find_shift(s: Seq<u8>, n: Seq<u8>, i: int)
    requires
        0 <= i <= s.len(),
    ensures
        match (find_from(s, n, i), find_first(s.subrange(i, s.len() as int), n)) {
            (Some(a), Some(b)) => a == b + i,
            (None, None) => true,
            _ => false,
        },
{
    let t = s.subrange(i, s.len() as int);
    lemma_find_from(s, n, i);
    lemma_find_from(t, n, 0);
    assert forall|j: int| 0 <= j implies occurs_at(t, n, j) == occurs_at(s, n, j + i) by {
        if j + n.len() <= t.len() {
            assert(t.subrange(j, j + n.len()) =~= s.subrange(j + i, j + i + n.len()));
        }
    }
    match (find_from(s, n, i), find_first(t, n)) {
        (Some(a), Some(b)) => {
            assert(occurs_at(t, n, a - i));
            assert(occurs_at(s, n, b + i));
        },
        (Some(a), None) => {
            assert(occurs_at(t, n, a - i));
        },
        (None, Some(b)) => {
            assert(occurs_at(s, n, b + i));
        },
        _ => {},
    }
}

/// The byte strings held in a vector of byte vectors.
pub open spec fn parts_view(v: Seq<Vec<u8>>) -> Seq<Seq<u8>> {
    Seq::new(v.len(), |i: int| v[i]@)
}

/// Whether two byte strings are equal.
pub fn bytes_eq(a: &[u8], b: &[u8]) -> (r: bool)
    ensures
        r == (a@ == b@),
{
    if a.len() != b.len() {
        return false;
    }
    let r = matches_at(a, b, 0);
    assert(r ==> a@.subrange(0, b@.len() as int) =~= a@);
    proof {
        if a@ == b@ {
            assert(a@.subrange(0, b@.len() as int) =~= a@);
        }
    }
    r
}

/// The segments of `s[start..]` that are neither empty nor `.`.
fn normal_parts_from(s: &[u8], start: usize, out: &mut Vec<Vec<u8>>)
    requires
        start <= s@.len(),
    ensures
        parts_view(final(out)@) == parts_view(old(out)@) + normal_parts(
            s@.subrange(start as int, s@.len() as int),
        ),
{
    let slash: [u8; 1] = [47];
    assert(slash@ =~= seq![47u8]);
    let mut i = start;
    let ghost first = parts_view(out@);
    assert(s@.subrange(start as int, s@.len() as int) =~= s@.subrange(i as int, s@.len() as int));
    loop
        invariant
            start <= i <= s@.len(),
            slash@ == seq![47u8],
            parts_view(old(out)@) + normal_parts(s@.subrange(start as int, s@.len() as int))
                == parts_view(out@) + normal_parts(s@.subrange(i as int, s@.len() as int)),
        decreases s@.len() - i,
    {
        let ghost t = s@.subrange(i as int, s@.len() as int);
        if i == s.len() {
            assert(normal_parts(t) =~= Seq::<Seq<u8>>::empty());
            assert(parts_view(out@) + normal_parts(t) =~= parts_view(out@));
            return;
        }
        let e = match find_bytes(s, &slash, i) {
            Some(k) => k,
            None => s.len(),
        };
        proof {
            lemma_find_shift(s@, seq![47u8], i as int);
            lemma_find_from(s@, seq![47u8], i as int);
            assert(seg_end(t) == e - i);
        }
        let seg = vstd::slice::slice_subrange(s, i, e);
        let ghost rest_t = if e < s.len() {
            normal_parts(s@.subrange(e + 1, s@.len() as int))
        } else {
            Seq::<Seq<u8>>::empty()
        };
        proof {
            assert(t.subrange(0, e - i) =~= seg@);
            if e < s.len() {
                assert(t.subrange(e - i + 1, t.len() as int) =~= s@.subrange(e + 1, s@.len() as int));
            }
        }
        let dot: [u8; 1] = [46];
        assert(dot@ =~= seq![46u8]);
        if seg.len() != 0 && !bytes_eq(seg, &dot) {
            let v = vstd::slice::slice_to_vec(seg);
            let ghost before = parts_view(out@);
            let ghost vv = v@;
            out.push(v);
            proof {
                assert(vv == seg@);
                assert(parts_view(out@) =~= before.push(seg@));
                assert(normal_parts(t) == seq![seg@] + rest_t);
                assert(before + normal_parts(t) =~= parts_view(out@) + rest_t);
            }
        } else {
            assert(normal_parts(t) == rest_t);
        }
        if e == s.len() {
            assert(rest_t =~= Seq::<Seq<u8>>::empty());
            assert(parts_view(out@) + rest_t =~= parts_view(out@));
            return;
        }
        i = e + 1;
    }
}

/// The components of a Unix path, each as bytes (see `components`).
pub fn path_components(s: &[u8]) -> (r: Vec<Vec<u8>>)
    ensures
        parts_view(r@) == components(s@),
{
    let mut out: Vec<Vec<u8>> = Vec::new();
    assert(parts_view(out@) =~= Seq::<Seq<u8>>::empty());
    if s.len() > 0 && s[0] == 47 {
        let mut first: Vec<u8> = Vec::new();
        first.push(47);
        assert(first@ =~= seq![47u8]);
        out.push(first);
        assert(parts_view(out@) =~= seq![seq![47u8]]);
        normal_parts_from(s, 1, &mut out);
    } else if s.len() > 0 && s[0] == 46 && (s.len() == 1 || s[1] == 47) {
        let mut first: Vec<u8> = Vec::new();
        first.push(46);
        assert(first@ =~= seq![46u8]);
        out.push(first);
        assert(parts_view(out@) =~= seq![seq![46u8]]);
        normal_parts_from(s, 1, &mut out);
    } else {
        normal_parts_from(s, 0, &mut out);
        assert(s@.subrange(0, s@.len() as int) =~= s@);
    }
    out
}

/// `Path::new(p).starts_with(base)`: compares whole components.
pub fn starts_with_path(p: &[u8], base: &[u8]) -> (r: bool)
    ensures
        r == path_starts_with(p@, base@),
{
    let cp = path_components(p);
    let cb = path_components(base);
    if cb.len() > cp.len() {
        return false;
    }
    let mut k: usize = 0;
    while k < cb.len()
        invariant
            cb.len() <= cp.len(),
            k <= cb.len(),
            parts_view(cp@) == components(p@),
            parts_view(cb@) == components(base@),
            forall|j: int| 0 <= j < k ==> parts_view(cp@)[j] == parts_view(cb@)[j],
        decreases cb.len() - k,
    {
        assert(parts_view(cp@)[k as int] == cp@[k as int]@);
        assert(parts_view(cb@)[k as int] == cb@[k as int]@);
        if !bytes_eq(cp[k].as_slice(), cb[k].as_slice()) {
            assert(parts_view(cp@).subrange(0, cb.len() as int)[k as int] != parts_view(cb@)[k as int]);
            return false;
        }
        k = k + 1;
    }
    assert(parts_view(cp@).subrange(0, cb.len() as int) =~= parts_view(cb@));
    true
}

/// Where the first segment ends, stated without recursion.
proof fn lemma_seg_end(s: Seq<u8>)
    ensures
        0 <= seg_end(s) <= s.len(),
        seg_end(s) < s.len() ==> s[seg_end(s)] == 47,
        forall|j: int| 0 <= j < seg_end(s) ==> #[trigger] s[j] != 47,
{
    lemma_find_from(s, seq![47u8], 0);
    assert forall|j: int| 0 <= j < seg_end(s) implies #[trigger] s[j] != 47 by {
        if s[j] == 47 {
            assert(s.subrange(j, j + 1) =~= seq![47u8]);
            assert(occurs_at(s, seq![47u8], j));
        }
    }
    if seg_end(s) < s.len() {
        assert(occurs_at(s, seq![47u8], seg_end(s)));
        assert(s.subrange(seg_end(s), seg_end(s) + 1)[0] == s[seg_end(s)]);
    }
}

/// `seg_end` is the first `/`.
proof fn lemma_seg_end_is(s: Seq<u8>, k: int)
    requires
        0 <= k <= s.len(),
        k < s.len() ==> s[k] == 47,
        forall|j: int| 0 <= j < k ==> #[trigger] s[j] != 47,
    ensures
        seg_end(s) == k,
{
    lemma_seg_end(s);
    if seg_end(s) < k {
        assert(s[seg_end(s)] != 47);
    } else if k < seg_end(s) {
        assert(s[k] != 47);
    }
}

/// Joining with a `/` concatenates the segments.
pub proof fn lemma_normal_parts_concat(a: Seq<u8>, b: Seq<u8>)
    ensures
        normal_parts(a + seq![47u8] + b) == normal_parts(a) + normal_parts(b),
    decreases a.len(),
{
    let x = a + seq![47u8] + b;
    lemma_seg_end(a);
    let e = seg_end(a);
    if a.len() == 0 {
        lemma_seg_end_is(x, 0);
        assert(x.subrange(1, x.len() as int) =~= b);
        assert(x.subrange(0, 0) =~= Seq::<u8>::empty());
        assert(normal_parts(a) =~= Seq::<Seq<u8>>::empty());
    } else if e < a.len() {
        assert forall|j: int| 0 <= j < e implies #[trigger] x[j] != 47 by {
            assert(x[j] == a[j]);
        }
        assert(x[e] == a[e]);
        lemma_seg_end_is(x, e);
        let a2 = a.subrange(e + 1, a.len() as int);
        assert(x.subrange(e + 1, x.len() as int) =~= a2 + seq![47u8] + b);
        assert(x.subrange(0, e) =~= a.subrange(0, e));
        lemma_normal_parts_concat(a2, b);
    } else {
        assert forall|j: int| 0 <= j < a.len() implies #[trigger] x[j] != 47 by {
            assert(x[j] == a[j]);
        }
        lemma_seg_end_is(x, a.len() as int);
        assert(x.subrange(a.len() as int + 1, x.len() as int) =~= b);
        assert(x.subrange(0, a.len() as int) =~= a);
        assert(a.subrange(0, e) =~= a);
    }
}

/// The components of `root` joined with a relative path are those of `root`
/// followed by the relative path's segments that are neither empty nor `.`.
pub proof fn lemma_join_components(root: Seq<u8>, r: Seq<u8>)
    requires
        root.len() > 0,
        !is_absolute(r),
    ensures
        components(path_join(root, r)) == components(root) + normal_parts(r),
{
    let ends = root.last() == 47;
    let a = if ends {
        root.subrange(0, root.len() - 1)
    } else {
        root
    };
    let x = a + seq![47u8] + r;
    if ends {
        assert(root =~= a + seq![47u8]);
        assert(path_join(root, r) =~= x);
    } else {
        assert(path_join(root, r) =~= x);
    }
    lemma_normal_parts_concat(a, r);
    let empty = Seq::<u8>::empty();
    assert(normal_parts(empty) =~= Seq::<Seq<u8>>::empty());
    lemma_normal_parts_concat(a, empty);
    assert(a + seq![47u8] + empty =~= a + seq![47u8]);
    if a.len() == 0 {
        assert(root =~= seq![47u8]);
        assert(x.subrange(1, x.len() as int) =~= r);
        assert(root.subrange(1, 1) =~= empty);
    } else {
        let a1 = a.subrange(1, a.len() as int);
        lemma_normal_parts_concat(a1, r);
        lemma_normal_parts_concat(a1, empty);
        assert(a1 + seq![47u8] + empty =~= a1 + seq![47u8]);
        assert(x.subrange(1, x.len() as int) =~= a1 + seq![47u8] + r);
        assert(x[0] == a[0]);
        assert(root[0] == a[0]);
        if ends {
            assert(root.subrange(1, root.len() as int) =~= a1 + seq![47u8]);
        } else {
            assert(root.subrange(1, root.len() as int) =~= a1);
        }
        if a.len() > 1 {
            assert(x[1] == a[1]);
            assert(root[1] == a[1]);
        } else {
            assert(x[1] == 47);
            assert(a1 =~= empty);
        }
    }
}

/// Every segment of a relative path is one of its components.
pub proof fn lemma_normal_parts_in_components(e: Seq<u8>, k: int)
    requires
        e.len() > 0,
        e[0] != 47,
        0 <= k < normal_parts(e).len(),
    ensures
        components(e).contains(normal_parts(e)[k]),
{
    if e[0] == 46 && (e.len() == 1 || e[1] == 47) {
        let t = e.subrange(1, e.len() as int);
        if e.len() == 1 {
            lemma_seg_end_is(e, 1);
            assert(e.subrange(0, 1) =~= seq![46u8]);
            assert(normal_parts(e) =~= Seq::<Seq<u8>>::empty());
        } else {
            lemma_seg_end_is(e, 1);
            assert(e.subrange(0, 1) =~= seq![46u8]);
            lemma_seg_end_is(t, 0);
            assert(t.subrange(0, 0) =~= Seq::<u8>::empty());
            assert(t.subrange(1, t.len() as int) =~= e.subrange(2, e.len() as int));
            assert(normal_parts(e) == normal_parts(t));
            assert(components(e)[k + 1] == normal_parts(e)[k]);
        }
    } else {
        assert(components(e)[k] == normal_parts(e)[k]);
    }
}

} // verus!
