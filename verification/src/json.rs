//! A JSON document as the library holds it, and the rewrite of archive URIs
//! inside LSP messages.
//!
//! Rewriting works in two steps, with the file work in between done by the
//! caller: `archive_uri_candidates` lists, in document order, every string that
//! looks like an archive URI; the caller tries to materialize each one; and
//! `rewrite_archive_uris` puts each successful result in place of its string.
//! A string whose materialization failed keeps its original text (fail-open).

use vstd::prelude::*;
use vstd::utf8::*;

use crate::paths::bytes_eq;
use crate::text::lemma_str_chars;
use crate::uri::{is_archive_uri_text, looks_like_archive_uri};

verus! {

/// A JSON value. Object members keep their order; numbers keep their text.
pub enum Json {
    Null,
    Bool(bool),
    Number(String),
    String(String),
    Array(Vec<Json>),
    Object(Vec<(String, Json)>),
}

/// The mathematical view of a JSON value.
pub enum JsonV {
    Null,
    Bool(bool),
    Number(Seq<char>),
    Str(Seq<char>),
    Array(Seq<JsonV>),
    /// Member names and member values, in order.
    Object(Seq<Seq<char>>, Seq<JsonV>),
}

impl View for Json {
    type V = JsonV;

    open spec fn view(&self) -> JsonV
        decreases self,
    {
        match self {
            Json::Null => JsonV::Null,
            Json::Bool(b) => JsonV::Bool(*b),
            Json::Number(n) => JsonV::Number(n@),
            Json::String(s) => JsonV::Str(s@),
            Json::Array(v) => JsonV::Array(
                Seq::new(
                    v@.len(),
                    |i: int|
                        if 0 <= i < v@.len() {
                            v@[i].view()
                        } else {
                            JsonV::Null
                        },
                ),
            ),
            Json::Object(v) => JsonV::Object(
                Seq::new(v@.len(), |i: int| v@[i].0@),
                Seq::new(
                    v@.len(),
                    |i: int|
                        if 0 <= i < v@.len() {
                            v@[i].1.view()
                        } else {
                            JsonV::Null
                        },
                ),
            ),
        }
    }
}

/// The texts held by a vector of strings.
pub open spec fn strings_view(v: Seq<String>) -> Seq<Seq<char>> {
    Seq::new(v.len(), |i: int| v[i]@)
}

/// The outcomes held by a vector of optional strings.
pub open spec fn outcomes_view(v: Seq<Option<String>>) -> Seq<Option<Seq<char>>> {
    Seq::new(
        v.len(),
        |i: int|
            match v[i] {
                Some(s) => Some(s@),
                None => None,
            },
    )
}

/// A string value that looks like an archive URI.
pub open spec fn is_archive_chars(s: Seq<char>) -> bool {
    is_archive_uri_text(encode_utf8(s))
}

/// The strings of `v` that look like archive URIs, in document order.
pub open spec fn archive_strings(v: JsonV) -> Seq<Seq<char>>
    decreases v, 0nat,
{
    match v {
        JsonV::Str(s) => if is_archive_chars(s) {
            seq![s]
        } else {
            seq![]
        },
        JsonV::Array(items) => archive_strings_items(items, items.len() as int),
        JsonV::Object(_, vals) => archive_strings_items(vals, vals.len() as int),
        _ => seq![],
    }
}

/// `archive_strings` of the first `n` items, in order.
pub open spec fn archive_strings_items(items: Seq<JsonV>, n: int) -> Seq<Seq<char>>
    decreases items, n,
{
    if n <= 0 || n > items.len() {
        seq![]
    } else {
        archive_strings_items(items, n - 1) + archive_strings(items[n - 1])
    }
}

/// The outcomes left after the first `k`.
pub open spec fn drop_outcomes(o: Seq<Option<Seq<char>>>, k: int) -> Seq<Option<Seq<char>>> {
    if 0 <= k <= o.len() {
        o.subrange(k, o.len() as int)
    } else {
        Seq::empty()
    }
}

/// The next outcome, if any is left.
pub open spec fn first_outcome(o: Seq<Option<Seq<char>>>) -> Option<Seq<char>> {
    if o.len() > 0 {
        o[0]
    } else {
        None
    }
}

/// `v` with its archive-URI strings replaced, in document order, by the
/// outcomes `o`: a string whose outcome is `Some(r)` becomes `r`; one whose
/// outcome is `None`, or that has no outcome left, keeps its text. Everything
/// else is unchanged.
pub open spec fn rewritten(v: JsonV, o: Seq<Option<Seq<char>>>) -> JsonV
    decreases v,
{
    match v {
        JsonV::Str(s) => if is_archive_chars(s) {
            match first_outcome(o) {
                Some(r) => JsonV::Str(r),
                None => v,
            }
        } else {
            v
        },
        JsonV::Array(items) => JsonV::Array(
            Seq::new(
                items.len(),
                |i: int|
                    if 0 <= i < items.len() {
                        rewritten(
                            items[i],
                            drop_outcomes(o, archive_strings_items(items, i).len() as int),
                        )
                    } else {
                        JsonV::Null
                    },
            ),
        ),
        JsonV::Object(keys, vals) => JsonV::Object(
            keys,
            Seq::new(
                vals.len(),
                |i: int|
                    if 0 <= i < vals.len() {
                        rewritten(vals[i], drop_outcomes(o, archive_strings_items(vals, i).len() as int))
                    } else {
                        JsonV::Null
                    },
            ),
        ),
        _ => v,
    }
}

/// How many of the first `n` outcomes (of those there are) are `Some`.
pub open spec fn somes(o: Seq<Option<Seq<char>>>, n: int) -> nat
    decreases n,
{
    if n <= 0 || o.len() == 0 {
        0
    } else {
        (if o[0] is Some {
            1nat
        } else {
            0nat
        }) + somes(o.subrange(1, o.len() as int), n - 1)
    }
}

pub open spec fn min(a: int, b: int) -> int {
    if a <= b {
        a
    } else {
        b
    }
}

// ---------------------------------------------------------------------------
// Lemmas on outcomes
// ---------------------------------------------------------------------------

proof fn lemma_drop_drop(o: Seq<Option<Seq<char>>>, a: int, b: int)
    requires
        0 <= a <= o.len(),
        0 <= b,
    ensures
        drop_outcomes(drop_outcomes(o, a), b) == drop_outcomes(o, min(a + b, o.len() as int)),
{
    if a + b <= o.len() {
        assert(drop_outcomes(drop_outcomes(o, a), b) =~= drop_outcomes(o, a + b));
    } else {
        assert(drop_outcomes(o, o.len() as int) =~= Seq::<Option<Seq<char>>>::empty());
    }
}

proof fn lemma_somes_split(o: Seq<Option<Seq<char>>>, a: int, b: int)
    requires
        0 <= a,
        0 <= b,
    ensures
        somes(o, a + b) == somes(o, a) + somes(drop_outcomes(o, min(a, o.len() as int)), b),
    decreases a,
{
    if a == 0 {
        assert(drop_outcomes(o, 0) =~= o);
    } else if o.len() == 0 {
        assert(drop_outcomes(o, 0) =~= o);
    } else {
        let t = o.subrange(1, o.len() as int);
        lemma_somes_split(t, a - 1, b);
        assert(drop_outcomes(t, min(a - 1, t.len() as int)) =~= drop_outcomes(o, min(a, o.len() as int)));
    }
}

proof fn lemma_somes_bound(o: Seq<Option<Seq<char>>>, n: int)
    requires
        0 <= n,
    ensures
        somes(o, n) <= min(n, o.len() as int),
    decreases n,
{
    if n > 0 && o.len() > 0 {
        lemma_somes_bound(o.subrange(1, o.len() as int), n - 1);
    }
}

// ---------------------------------------------------------------------------
// Members
// ---------------------------------------------------------------------------

/// The position of the first member named `key`, or the member count.
pub open spec fn member_pos(keys: Seq<Seq<char>>, key: Seq<char>, i: int) -> int
    decreases keys.len() - i,
{
    if i < 0 || i >= keys.len() || keys[i] == key {
        i
    } else {
        member_pos(keys, key, i + 1)
    }
}

/// `Value::get(key)`: the value of the first member named `key`, when `v` is
/// an object that has one.
pub open spec fn get_member(v: JsonV, key: Seq<char>) -> Option<JsonV> {
    match v {
        JsonV::Object(keys, vals) => {
            let k = member_pos(keys, key, 0);
            if 0 <= k < keys.len() && k < vals.len() {
                Some(vals[k])
            } else {
                None
            }
        },
        _ => None,
    }
}

/// Whether the member name `k` is `key`.
pub fn key_is(k: &String, key: &str) -> (r: bool)
    ensures
        r == (k@ == key@),
{
    let ks = k.as_str();
    proof {
        lemma_str_chars(ks);
        lemma_str_chars(key);
    }
    bytes_eq(ks.as_bytes(), key.as_bytes())
}

/// The value of the first member named `key`.
pub fn member<'a>(v: &'a Json, key: &str) -> (r: Option<&'a Json>)
    ensures
        match r {
            Some(x) => get_member(v@, key@) == Some(x@),
            None => get_member(v@, key@) is None,
        },
{
    match v {
        Json::Object(entries) => {
            let ghost keys = v@->Object_0;
            let ghost vals = v@->Object_1;
            let mut i: usize = 0;
            while i < entries.len()
                invariant
                    *v is Object,
                    *entries == (*v)->Object_0,
                    keys == v@->Object_0,
                    vals == v@->Object_1,
                    keys.len() == entries@.len(),
                    vals.len() == entries@.len(),
                    i <= entries@.len(),
                    forall|k: int| 0 <= k < entries@.len() ==> #[trigger] keys[k] == entries@[k].0@,
                    forall|k: int| 0 <= k < entries@.len() ==> #[trigger] vals[k] == entries@[k].1@,
                    member_pos(keys, key@, 0) == member_pos(keys, key@, i as int),
                decreases entries@.len() - i,
            {
                assert(keys[i as int] == entries@[i as int].0@);
                if key_is(&entries[i].0, key) {
                    assert(vals[i as int] == entries@[i as int].1@);
                    return Some(&entries[i].1);
                }
                i = i + 1;
            }
            None
        },
        _ => None,
    }
}

/// Where `member_pos` lands: at or after `i`, and on a member named `key`
/// unless past the end.
pub proof fn lemma_member_pos(keys: Seq<Seq<char>>, key: Seq<char>, i: int)
    requires
        0 <= i <= keys.len(),
    ensures
        i <= member_pos(keys, key, i) <= keys.len(),
        member_pos(keys, key, i) < keys.len() ==> keys[member_pos(keys, key, i)] == key,
    decreases keys.len() - i,
{
    if i < keys.len() && keys[i] != key {
        lemma_member_pos(keys, key, i + 1);
    }
}

/// The position of the first member named `key` among `entries`, or their count.
pub fn member_index(entries: &Vec<(String, Json)>, key: &str) -> (r: usize)
    ensures
        r == member_pos(Seq::new(entries@.len(), |k: int| entries@[k].0@), key@, 0),
{
    let ghost keys = Seq::new(entries@.len(), |k: int| entries@[k].0@);
    let mut i: usize = 0;
    while i < entries.len()
        invariant
            keys == Seq::new(entries@.len(), |k: int| entries@[k].0@),
            i <= entries@.len(),
            member_pos(keys, key@, 0) == member_pos(keys, key@, i as int),
        decreases entries@.len() - i,
    {
        if key_is(&entries[i].0, key) {
            return i;
        }
        i = i + 1;
    }
    i
}

// ---------------------------------------------------------------------------
// Listing the candidates
// ---------------------------------------------------------------------------

fn collect_candidates(j: &Json, out: &mut Vec<String>)
    ensures
        strings_view(final(out)@) == strings_view(old(out)@) + archive_strings(j@),
    decreases j,
{
    match j {
        Json::String(s) => {
            if looks_like_archive_uri(s.as_str()) {
                let ghost before = strings_view(out@);
                out.push(s.clone());
                assert(strings_view(out@) =~= before + seq![s@]);
            } else {
                assert(strings_view(out@) + archive_strings(j@) =~= strings_view(out@));
            }
        },
        Json::Array(items) => {
            let ghost iv = Seq::new(
                items@.len(),
                |i: int|
                    if 0 <= i < items@.len() {
                        items@[i]@
                    } else {
                        JsonV::Null
                    },
            );
            assert(j@->Array_0 =~= iv);
            let ghost start = strings_view(out@);
            let mut i: usize = 0;
            while i < items.len()
                invariant
                    *j is Array,
                    *items == (*j)->Array_0,
                    i <= items@.len(),
                    iv.len() == items@.len(),
                    forall|k: int| 0 <= k < items@.len() ==> #[trigger] iv[k] == items@[k]@,
                    strings_view(out@) == start + archive_strings_items(iv, i as int),
                decreases items@.len() - i,
            {
                proof {
                    vstd::std_specs::vec::axiom_vec_index_decreases(*items, i as int);
                    assert(decreases_to!(*j => (*j)->Array_0));
                }
                collect_candidates(&items[i], out);
                assert(archive_strings_items(iv, i + 1) == archive_strings_items(iv, i as int)
                    + archive_strings(iv[i as int]));
                i = i + 1;
            }
        },
        Json::Object(entries) => {
            let ghost iv = Seq::new(
                entries@.len(),
                |i: int|
                    if 0 <= i < entries@.len() {
                        entries@[i].1@
                    } else {
                        JsonV::Null
                    },
            );
            assert(j@->Object_1 =~= iv);
            let ghost start = strings_view(out@);
            let mut i: usize = 0;
            while i < entries.len()
                invariant
                    *j is Object,
                    *entries == (*j)->Object_0,
                    i <= entries@.len(),
                    iv.len() == entries@.len(),
                    forall|k: int| 0 <= k < entries@.len() ==> #[trigger] iv[k] == entries@[k].1@,
                    strings_view(out@) == start + archive_strings_items(iv, i as int),
                decreases entries@.len() - i,
            {
                proof {
                    vstd::std_specs::vec::axiom_vec_index_decreases(*entries, i as int);
                    assert(decreases_to!(*j => (*j)->Object_0));
                    assert(decreases_to!(entries[i as int] => entries[i as int].1));
                }
                collect_candidates(&entries[i].1, out);
                assert(archive_strings_items(iv, i + 1) == archive_strings_items(iv, i as int)
                    + archive_strings(iv[i as int]));
                i = i + 1;
            }
        },
        _ => {
            assert(strings_view(out@) + archive_strings(j@) =~= strings_view(out@));
        },
    }
}

/// Every string in `value` that looks like an archive URI, in document order.
pub fn archive_uri_candidates(value: &Json) -> (r: Vec<String>)
    ensures
        strings_view(r@) == archive_strings(value@),
{
    let mut out: Vec<String> = Vec::new();
    assert(strings_view(out@) =~= Seq::<Seq<char>>::empty());
    collect_candidates(value, &mut out);
    assert(strings_view(out@) =~= archive_strings(value@));
    out
}

// ---------------------------------------------------------------------------
// Applying the outcomes
// ---------------------------------------------------------------------------

proof fn lemma_drop_cap(o: Seq<Option<Seq<char>>>, a: int)
    requires
        0 <= a,
    ensures
        drop_outcomes(o, a) == drop_outcomes(o, min(a, o.len() as int)),
{
    if a > o.len() {
        assert(drop_outcomes(o, o.len() as int) =~= Seq::<Option<Seq<char>>>::empty());
    }
}

/// A copy of a JSON value.
pub fn copy_json(j: &Json) -> (r: Json)
    ensures
        r@ == j@,
    decreases j,
{
    match j {
        Json::Null => Json::Null,
        Json::Bool(b) => Json::Bool(*b),
        Json::Number(n) => Json::Number(n.clone()),
        Json::String(s) => Json::String(s.clone()),
        Json::Array(items) => {
            let mut out: Vec<Json> = Vec::new();
            let mut i: usize = 0;
            while i < items.len()
                invariant
                    *j is Array,
                    *items == (*j)->Array_0,
                    i <= items@.len(),
                    out@.len() == i,
                    forall|k: int| 0 <= k < i ==> #[trigger] out@[k]@ == items@[k]@,
                decreases items@.len() - i,
            {
                proof {
                    vstd::std_specs::vec::axiom_vec_index_decreases(*items, i as int);
                    assert(decreases_to!(*j => (*j)->Array_0));
                }
                let x = copy_json(&items[i]);
                out.push(x);
                i = i + 1;
            }
            let ghost outv = out@;
            let r = Json::Array(out);
            assert(r@->Array_0.len() == outv.len());
            assert forall|k: int| 0 <= k < outv.len() implies #[trigger] r@->Array_0[k] == outv[k]@ by {}
            assert(r@->Array_0 =~= j@->Array_0);
            r
        },
        Json::Object(entries) => {
            let mut out: Vec<(String, Json)> = Vec::new();
            let mut i: usize = 0;
            while i < entries.len()
                invariant
                    *j is Object,
                    *entries == (*j)->Object_0,
                    i <= entries@.len(),
                    out@.len() == i,
                    forall|k: int| 0 <= k < i ==> #[trigger] out@[k].1@ == entries@[k].1@,
                    forall|k: int| 0 <= k < i ==> #[trigger] out@[k].0@ == entries@[k].0@,
                decreases entries@.len() - i,
            {
                proof {
                    vstd::std_specs::vec::axiom_vec_index_decreases(*entries, i as int);
                    assert(decreases_to!(*j => (*j)->Object_0));
                    assert(decreases_to!(entries[i as int] => entries[i as int].1));
                }
                let x = copy_json(&entries[i].1);
                let k = entries[i].0.clone();
                out.push((k, x));
                i = i + 1;
            }
            let ghost outv = out@;
            let r = Json::Object(out);
            assert forall|k: int| 0 <= k < outv.len() implies #[trigger] r@->Object_1[k] == outv[k].1@ by {}
            assert(r@->Object_0 =~= j@->Object_0);
            assert(r@->Object_1 =~= j@->Object_1);
            r
        },
    }
}

/// Rewrites `j` with the outcomes from position `pos` on; returns the new value,
/// the position after the outcomes it used, and how many strings it replaced.
fn rewrite_value(j: &Json, outs: &Vec<Option<String>>, pos: usize) -> (r: (Json, usize, usize))
    requires
        pos <= outs@.len(),
    ensures
        r.0@ == rewritten(j@, drop_outcomes(outcomes_view(outs@), pos as int)),
        r.1 == min(pos + archive_strings(j@).len(), outs@.len() as int),
        r.2 == somes(drop_outcomes(outcomes_view(outs@), pos as int), archive_strings(j@).len() as int),
        r.2 <= r.1 - pos,
    decreases j,
{
    let ghost ov = outcomes_view(outs@);
    let ghost o = drop_outcomes(ov, pos as int);
    match j {
        Json::String(s) => {
            if looks_like_archive_uri(s.as_str()) {
                if pos < outs.len() {
                    assert(o[0] == ov[pos as int]);
                    assert(o.subrange(1, o.len() as int).len() == o.len() - 1);
                    match &outs[pos] {
                        Some(t) => {
                            assert(archive_strings(j@).len() == 1);
                            assert(o[0] is Some);
                            assert(somes(o, 1) == 1 + somes(o.subrange(1, o.len() as int), 0));
                            (Json::String(t.clone()), pos + 1, 1)
                        },
                        None => {
                            assert(archive_strings(j@).len() == 1);
                            assert(o[0] is None);
                            assert(somes(o, 1) == 0 + somes(o.subrange(1, o.len() as int), 0));
                            (Json::String(s.clone()), pos + 1, 0)
                        },
                    }
                } else {
                    assert(o.len() == 0);
                    (Json::String(s.clone()), pos, 0)
                }
            } else {
                (Json::String(s.clone()), pos, 0)
            }
        },
        Json::Array(items) => {
            let ghost iv = j@->Array_0;
            let mut out: Vec<Json> = Vec::new();
            let mut p = pos;
            let mut acc: usize = 0;
            let mut i: usize = 0;
            while i < items.len()
                invariant
                    *j is Array,
                    *items == (*j)->Array_0,
                    iv == j@->Array_0,
                    iv.len() == items@.len(),
                    forall|k: int| 0 <= k < items@.len() ==> #[trigger] iv[k] == items@[k]@,
                    ov == outcomes_view(outs@),
                    o == drop_outcomes(ov, pos as int),
                    pos <= outs@.len(),
                    i <= items@.len(),
                    pos <= p <= outs@.len(),
                    p == min(pos + archive_strings_items(iv, i as int).len(), outs@.len() as int),
                    acc == somes(o, archive_strings_items(iv, i as int).len() as int),
                    acc <= p - pos,
                    out@.len() == i,
                    forall|k: int|
                        0 <= k < i ==> #[trigger] out@[k]@ == rewritten(
                            iv[k],
                            drop_outcomes(o, archive_strings_items(iv, k).len() as int),
                        ),
                decreases items@.len() - i,
            {
                proof {
                    vstd::std_specs::vec::axiom_vec_index_decreases(*items, i as int);
                    assert(decreases_to!(*j => (*j)->Array_0));
                }
                let (x, p2, c) = rewrite_value(&items[i], outs, p);
                let ghost before = archive_strings_items(iv, i as int).len();
                let ghost here = archive_strings(iv[i as int]).len();
                proof {
                    assert(archive_strings_items(iv, i + 1) == archive_strings_items(iv, i as int)
                        + archive_strings(iv[i as int]));
                    lemma_drop_drop(ov, pos as int, before as int);
                    lemma_drop_cap(o, before as int);
                    lemma_somes_split(o, before as int, here as int);
                    assert(o.len() == ov.len() - pos);
                }
                out.push(x);
                p = p2;
                acc = acc + c;
                i = i + 1;
            }
            let ghost outv = out@;
            let r = Json::Array(out);
            assert forall|k: int| 0 <= k < outv.len() implies #[trigger] r@->Array_0[k] == outv[k]@ by {}
            assert(r@->Array_0 =~= rewritten(j@, o)->Array_0);
            (r, p, acc)
        },
        Json::Object(entries) => {
            let ghost iv = j@->Object_1;
            let mut out: Vec<(String, Json)> = Vec::new();
            let mut p = pos;
            let mut acc: usize = 0;
            let mut i: usize = 0;
            while i < entries.len()
                invariant
                    *j is Object,
                    *entries == (*j)->Object_0,
                    iv == j@->Object_1,
                    iv.len() == entries@.len(),
                    forall|k: int| 0 <= k < entries@.len() ==> #[trigger] iv[k] == entries@[k].1@,
                    ov == outcomes_view(outs@),
                    o == drop_outcomes(ov, pos as int),
                    pos <= outs@.len(),
                    i <= entries@.len(),
                    pos <= p <= outs@.len(),
                    p == min(pos + archive_strings_items(iv, i as int).len(), outs@.len() as int),
                    acc == somes(o, archive_strings_items(iv, i as int).len() as int),
                    acc <= p - pos,
                    out@.len() == i,
                    forall|k: int| 0 <= k < i ==> #[trigger] out@[k].0@ == entries@[k].0@,
                    forall|k: int|
                        0 <= k < i ==> #[trigger] out@[k].1@ == rewritten(
                            iv[k],
                            drop_outcomes(o, archive_strings_items(iv, k).len() as int),
                        ),
                decreases entries@.len() - i,
            {
                proof {
                    vstd::std_specs::vec::axiom_vec_index_decreases(*entries, i as int);
                    assert(decreases_to!(*j => (*j)->Object_0));
                    assert(decreases_to!(entries[i as int] => entries[i as int].1));
                }
                let (x, p2, c) = rewrite_value(&entries[i].1, outs, p);
                let ghost before = archive_strings_items(iv, i as int).len();
                let ghost here = archive_strings(iv[i as int]).len();
                proof {
                    assert(archive_strings_items(iv, i + 1) == archive_strings_items(iv, i as int)
                        + archive_strings(iv[i as int]));
                    lemma_drop_drop(ov, pos as int, before as int);
                    lemma_drop_cap(o, before as int);
                    lemma_somes_split(o, before as int, here as int);
                    assert(o.len() == ov.len() - pos);
                }
                let k = entries[i].0.clone();
                out.push((k, x));
                p = p2;
                acc = acc + c;
                i = i + 1;
            }
            let ghost outv = out@;
            let r = Json::Object(out);
            assert forall|k: int| 0 <= k < outv.len() implies #[trigger] r@->Object_1[k] == outv[k].1@ by {}
            assert(r@->Object_0 =~= j@->Object_0);
            assert(r@->Object_1 =~= rewritten(j@, o)->Object_1);
            (r, p, acc)
        },
        _ => {
            let r = copy_json(j);
            (r, pos, 0)
        },
    }
}

/// Puts the materialization outcomes in place: the `i`-th string of `value`
/// that looks like an archive URI (in document order, as
/// `archive_uri_candidates` lists them) becomes `outcomes[i]` when that is
/// `Some`, and keeps its text otherwise. Returns how many strings changed.
pub fn rewrite_archive_uris(value: &mut Json, outcomes: &Vec<Option<String>>) -> (n: usize)
    ensures
        final(value)@ == rewritten(old(value)@, outcomes_view(outcomes@)),
        n == somes(outcomes_view(outcomes@), archive_strings(old(value)@).len() as int),
{
    let (v, _, n) = rewrite_value(value, outcomes, 0);
    assert(drop_outcomes(outcomes_view(outcomes@), 0) =~= outcomes_view(outcomes@));
    *value = v;
    n
}

// ---------------------------------------------------------------------------
// Laws
// ---------------------------------------------------------------------------

/// No outcome is `Some`.
pub open spec fn all_failed(o: Seq<Option<Seq<char>>>) -> bool {
    forall|i: int| 0 <= i < o.len() ==> #[trigger] o[i] is None
}

proof fn lemma_somes_all_failed(o: Seq<Option<Seq<char>>>, n: int)
    requires
        all_failed(o),
    ensures
        somes(o, n) == 0,
    decreases n,
{
    if n > 0 && o.len() > 0 {
        let t = o.subrange(1, o.len() as int);
        assert(all_failed(t)) by {
            assert forall|i: int| 0 <= i < t.len() implies #[trigger] t[i] is None by {
                assert(t[i] == o[i + 1]);
            }
        }
        lemma_somes_all_failed(t, n - 1);
    }
}

/// Fail-open: when materialization failed for every archive URI, rewriting
/// leaves the message exactly as it was and reports no change.
pub proof fn lemma_failed_rewrites_keep_message(v: JsonV, o: Seq<Option<Seq<char>>>)
    requires
        all_failed(o),
    ensures
        rewritten(v, o) == v,
        somes(o, archive_strings(v).len() as int) == 0,
    decreases v,
{
    lemma_somes_all_failed(o, archive_strings(v).len() as int);
    match v {
        JsonV::Array(items) => {
            assert forall|i: int| 0 <= i < items.len() implies #[trigger] rewritten(
                items[i],
                drop_outcomes(o, archive_strings_items(items, i).len() as int),
            ) == items[i] by {
                let d = drop_outcomes(o, archive_strings_items(items, i).len() as int);
                assert(all_failed(d)) by {
                    assert forall|x: int| 0 <= x < d.len() implies #[trigger] d[x] is None by {
                        assert(d[x] == o[x + archive_strings_items(items, i).len()]);
                    }
                }
                lemma_failed_rewrites_keep_message(items[i], d);
            }
            let rv = rewritten(v, o)->Array_0;
            assert(rv.len() == items.len());
            assert forall|i: int| 0 <= i < items.len() implies rv[i] == items[i] by {
                assert(rv[i] == rewritten(
                    items[i],
                    drop_outcomes(o, archive_strings_items(items, i).len() as int),
                ));
            }
            assert(rv =~= items);
        },
        JsonV::Object(keys, vals) => {
            assert forall|i: int| 0 <= i < vals.len() implies #[trigger] rewritten(
                vals[i],
                drop_outcomes(o, archive_strings_items(vals, i).len() as int),
            ) == vals[i] by {
                let d = drop_outcomes(o, archive_strings_items(vals, i).len() as int);
                assert(all_failed(d)) by {
                    assert forall|x: int| 0 <= x < d.len() implies #[trigger] d[x] is None by {
                        assert(d[x] == o[x + archive_strings_items(vals, i).len()]);
                    }
                }
                lemma_failed_rewrites_keep_message(vals[i], d);
            }
            let rv = rewritten(v, o)->Object_1;
            assert(rv.len() == vals.len());
            assert forall|i: int| 0 <= i < vals.len() implies rv[i] == vals[i] by {
                assert(rv[i] == rewritten(
                    vals[i],
                    drop_outcomes(o, archive_strings_items(vals, i).len() as int),
                ));
            }
            assert(rv =~= vals);
        },
        _ => {},
    }
}

/// The candidates, in order, whose outcome is not `Some` (or that have no
/// outcome left).
pub open spec fn kept_failed(c: Seq<Seq<char>>, o: Seq<Option<Seq<char>>>) -> Seq<Seq<char>>
    decreases c.len(),
{
    if c.len() == 0 {
        seq![]
    } else {
        (if first_outcome(o) is Some {
            seq![]
        } else {
            seq![c[0]]
        }) + kept_failed(c.drop_first(), drop_outcomes(o, 1))
    }
}

/// Every outcome that is `Some` is a string that does not look like an
/// archive URI.
pub open spec fn outcomes_settled(o: Seq<Option<Seq<char>>>) -> bool {
    forall|i: int| 0 <= i < o.len() && #[trigger] o[i] is Some ==> !is_archive_chars(o[i]->0)
}

proof fn lemma_drop_drop_any(o: Seq<Option<Seq<char>>>, a: int, b: int)
    requires
        0 <= a,
        0 <= b,
    ensures
        drop_outcomes(drop_outcomes(o, a), b) == drop_outcomes(o, a + b),
{
    if a <= o.len() && a + b <= o.len() {
        assert(drop_outcomes(drop_outcomes(o, a), b) =~= drop_outcomes(o, a + b));
    } else {
        assert(drop_outcomes(drop_outcomes(o, a), b) =~= Seq::<Option<Seq<char>>>::empty());
        assert(drop_outcomes(o, a + b) =~= Seq::<Option<Seq<char>>>::empty());
    }
}

proof fn lemma_settled_drop(o: Seq<Option<Seq<char>>>, k: int)
    requires
        0 <= k,
        outcomes_settled(o),
    ensures
        outcomes_settled(drop_outcomes(o, k)),
{
    let d = drop_outcomes(o, k);
    assert forall|i: int| 0 <= i < d.len() && #[trigger] d[i] is Some implies !is_archive_chars(
        d[i]->0,
    ) by {
        assert(d[i] == o[i + k]);
    }
}

proof fn lemma_kept_failed_concat(a: Seq<Seq<char>>, b: Seq<Seq<char>>, o: Seq<Option<Seq<char>>>)
    ensures
        kept_failed(a + b, o) == kept_failed(a, o) + kept_failed(b, drop_outcomes(o, a.len() as int)),
    decreases a.len(),
{
    if a.len() == 0 {
        assert(a + b =~= b);
        assert(drop_outcomes(o, 0) =~= o);
    } else {
        assert((a + b)[0] == a[0]);
        assert((a + b).drop_first() =~= a.drop_first() + b);
        lemma_kept_failed_concat(a.drop_first(), b, drop_outcomes(o, 1));
        lemma_drop_drop_any(o, 1, a.len() - 1);
        let head = if first_outcome(o) is Some {
            Seq::<Seq<char>>::empty()
        } else {
            seq![a[0]]
        };
        assert(kept_failed(a + b, o) == head + kept_failed(a.drop_first() + b, drop_outcomes(o, 1)));
        assert(kept_failed(a, o) == head + kept_failed(a.drop_first(), drop_outcomes(o, 1)));
        assert(head + (kept_failed(a.drop_first(), drop_outcomes(o, 1)) + kept_failed(
            b,
            drop_outcomes(o, a.len() as int),
        )) =~= (head + kept_failed(a.drop_first(), drop_outcomes(o, 1))) + kept_failed(
            b,
            drop_outcomes(o, a.len() as int),
        ));
    }
}

/// The candidates of the first `n` rewritten items are those of the first `n`
/// items whose outcome failed.
proof fn lemma_rewritten_items(items: Seq<JsonV>, new_items: Seq<JsonV>, o: Seq<Option<Seq<char>>>, n: int)
    requires
        0 <= n <= items.len(),
        new_items.len() == items.len(),
        outcomes_settled(o),
        forall|i: int|
            0 <= i < items.len() ==> #[trigger] new_items[i] == rewritten(
                items[i],
                drop_outcomes(o, archive_strings_items(items, i).len() as int),
            ),
        forall|i: int|
            0 <= i < items.len() ==> archive_strings(#[trigger] new_items[i]) == kept_failed(
                archive_strings(items[i]),
                drop_outcomes(o, archive_strings_items(items, i).len() as int),
            ),
    ensures
        archive_strings_items(new_items, n) == kept_failed(archive_strings_items(items, n), o),
    decreases n,
{
    if n == 0 {
    } else {
        lemma_rewritten_items(items, new_items, o, n - 1);
        let prev = archive_strings_items(items, n - 1);
        lemma_kept_failed_concat(prev, archive_strings(items[n - 1]), o);
    }
}

/// What a second pass would find: after rewriting, the strings that look like
/// archive URIs are exactly the candidates whose materialization failed, in
/// order, provided the successful outcomes do not look like archive URIs
/// themselves (as `file://` paths into the cache do not).
pub proof fn lemma_rewrite_leaves_failed_candidates(v: JsonV, o: Seq<Option<Seq<char>>>)
    requires
        outcomes_settled(o),
    ensures
        archive_strings(rewritten(v, o)) == kept_failed(archive_strings(v), o),
    decreases v,
{
    match v {
        JsonV::Str(s) => {
            if is_archive_chars(s) {
                let c = seq![s];
                assert(c.drop_first() =~= Seq::<Seq<char>>::empty());
                assert(kept_failed(c.drop_first(), drop_outcomes(o, 1)) =~= Seq::<Seq<char>>::empty());
                if first_outcome(o) is Some {
                    assert(o[0] is Some);
                    assert(!is_archive_chars(o[0]->0));
                    assert(archive_strings(rewritten(v, o)) =~= Seq::<Seq<char>>::empty());
                    assert(kept_failed(c, o) =~= Seq::<Seq<char>>::empty());
                } else {
                    assert(kept_failed(c, o) =~= c);
                }
            }
        },
        JsonV::Array(items) => {
            let new_items = rewritten(v, o)->Array_0;
            assert forall|i: int| 0 <= i < items.len() implies archive_strings(#[trigger] new_items[i])
                == kept_failed(
                archive_strings(items[i]),
                drop_outcomes(o, archive_strings_items(items, i).len() as int),
            ) by {
                let d = drop_outcomes(o, archive_strings_items(items, i).len() as int);
                lemma_settled_drop(o, archive_strings_items(items, i).len() as int);
                lemma_rewrite_leaves_failed_candidates(items[i], d);
            }
            lemma_rewritten_items(items, new_items, o, items.len() as int);
        },
        JsonV::Object(keys, vals) => {
            let new_vals = rewritten(v, o)->Object_1;
            assert forall|i: int| 0 <= i < vals.len() implies archive_strings(#[trigger] new_vals[i])
                == kept_failed(
                archive_strings(vals[i]),
                drop_outcomes(o, archive_strings_items(vals, i).len() as int),
            ) by {
                let d = drop_outcomes(o, archive_strings_items(vals, i).len() as int);
                lemma_settled_drop(o, archive_strings_items(vals, i).len() as int);
                lemma_rewrite_leaves_failed_candidates(vals[i], d);
            }
            lemma_rewritten_items(vals, new_vals, o, vals.len() as int);
        },
        _ => {},
    }
}

} // verus!
