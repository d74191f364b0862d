//! Extension-side settings for the jar/zip source proxy.
//!
//! Users may place a `sourceProxy` object (`{"enabled": bool, "debug": bool}`)
//! under either language server's `settings`. It is stripped before the
//! settings are forwarded to the language server.

use vstd::prelude::*;
use vstd::string::StringSliceAdditionalSpecFns;
use vstd::utf8::*;

use crate::language_servers::launch::{strings_view, wrap_with_proxy, LaunchCommand, ProxyChoice};
use crate::language_servers::proxy::{absolutize_in_work_dir, absolutized, opt_str_bytes};
use crate::json::{get_member, key_is, member, member_pos, Json, JsonV};

verus! {

/// The proxy settings the extension reads.
#[derive(Debug, Clone, Copy)]
pub struct SourceProxySettings {
    /// When false, the real language server is launched without the proxy.
    pub enabled: bool,
    /// When true, the proxy logs URI rewrites verbosely.
    pub debug: bool,
}

impl Default for SourceProxySettings {
    fn default() -> (r: Self)
        ensures
            r.enabled,
            !r.debug,
    {
        SourceProxySettings { enabled: true, debug: false }
    }
}

/// `v.get(key).and_then(as_bool)`.
pub open spec fn bool_member(v: JsonV, key: Seq<char>) -> Option<bool> {
    match get_member(v, key) {
        Some(JsonV::Bool(b)) => Some(b),
        _ => None,
    }
}

/// What one settings value says of the field `field` of `sourceProxy`.
pub open spec fn proxy_field(v: JsonV, field: Seq<char>) -> Option<bool> {
    match get_member(v, "sourceProxy"@) {
        Some(obj) => bool_member(obj, field),
        None => None,
    }
}

/// The first of the values `vs[i..]` that sets `field` decides it; `default`
/// when none does.
pub open spec fn first_setting(vs: Seq<JsonV>, field: Seq<char>, default: bool, i: int) -> bool
    decreases vs.len() - i,
{
    if i < 0 || i >= vs.len() {
        default
    } else {
        match proxy_field(vs[i], field) {
            Some(b) => b,
            None => first_setting(vs, field, default, i + 1),
        }
    }
}

/// The views of a slice of JSON values.
pub open spec fn values_view(vs: Seq<Json>) -> Seq<JsonV> {
    Seq::new(vs.len(), |i: int| vs[i]@)
}

/// `v.get(key).and_then(|x| x.as_bool())`.
fn bool_of(v: &Json, key: &str) -> (r: Option<bool>)
    ensures
        r == bool_member(v@, key@),
{
    match member(v, key) {
        Some(Json::Bool(b)) => Some(*b),
        _ => None,
    }
}

/// Merges the proxy settings from several settings values: for each field, the
/// first value whose `sourceProxy` object sets it as a boolean wins;
/// `enabled` defaults to true and `debug` to false.
pub fn merge_proxy_settings(values: &[Json]) -> (r: SourceProxySettings)
    ensures
        r.enabled == first_setting(values_view(values@), "enabled"@, true, 0),
        r.debug == first_setting(values_view(values@), "debug"@, false, 0),
{
    let ghost vs = values_view(values@);
    let mut out = SourceProxySettings { enabled: true, debug: false };
    let mut seen_enabled = false;
    let mut seen_debug = false;
    let mut i: usize = 0;
    while i < values.len()
        invariant
            vs == values_view(values@),
            i <= values@.len(),
            !seen_enabled ==> out.enabled,
            !seen_debug ==> !out.debug,
            seen_enabled ==> out.enabled == first_setting(vs, "enabled"@, true, 0),
            !seen_enabled ==> first_setting(vs, "enabled"@, true, 0) == first_setting(
                vs,
                "enabled"@,
                true,
                i as int,
            ),
            seen_debug ==> out.debug == first_setting(vs, "debug"@, false, 0),
            !seen_debug ==> first_setting(vs, "debug"@, false, 0) == first_setting(
                vs,
                "debug"@,
                false,
                i as int,
            ),
        decreases values@.len() - i,
    {
        let v = &values[i];
        assert(vs[i as int] == v@);
        if let Some(obj) = member(v, "sourceProxy") {
            if !seen_enabled {
                if let Some(e) = bool_of(obj, "enabled") {
                    out.enabled = e;
                    seen_enabled = true;
                }
            }
            if !seen_debug {
                if let Some(d) = bool_of(obj, "debug") {
                    out.debug = d;
                    seen_debug = true;
                }
            }
        }
        i = i + 1;
    }
    out
}

/// The positions among the first `n` members whose name is not `key`.
pub open spec fn kept_positions(keys: Seq<Seq<char>>, key: Seq<char>, n: int) -> Seq<int>
    decreases n,
{
    if n <= 0 || n > keys.len() {
        seq![]
    } else if keys[n - 1] != key {
        kept_positions(keys, key, n - 1).push(n - 1)
    } else {
        kept_positions(keys, key, n - 1)
    }
}

/// `v` without its members named `key` (other members keep their order);
/// values that are not objects are unchanged.
pub open spec fn without_member(v: JsonV, key: Seq<char>) -> JsonV {
    match v {
        JsonV::Object(keys, vals) => {
            let kept = kept_positions(keys, key, keys.len() as int);
            JsonV::Object(
                Seq::new(kept.len(), |j: int| keys[kept[j]]),
                Seq::new(kept.len(), |j: int| vals[kept[j]]),
            )
        },
        _ => v,
    }
}

impl SourceProxySettings {
    /// Removes `sourceProxy` so it is not sent to the Kotlin language server.
    pub fn strip_from(settings: &mut Json)
        ensures
            final(settings)@ == without_member(old(settings)@, "sourceProxy"@),
    {
        let ghost keys = settings@->Object_0;
        let ghost vals = settings@->Object_1;
        let ghost key = "sourceProxy"@;
        let mut kept: Vec<(String, Json)> = Vec::new();
        match &*settings {
            Json::Object(entries) => {
                let mut i: usize = 0;
                while i < entries.len()
                    invariant
                        *settings is Object,
                        *entries == (*settings)->Object_0,
                        keys == settings@->Object_0,
                        vals == settings@->Object_1,
                        key == "sourceProxy"@,
                        keys.len() == entries@.len(),
                        vals.len() == entries@.len(),
                        forall|k: int| 0 <= k < entries@.len() ==> #[trigger] keys[k] == entries@[k].0@,
                        forall|k: int| 0 <= k < entries@.len() ==> #[trigger] vals[k] == entries@[k].1@,
                        i <= entries@.len(),
                        kept@.len() == kept_positions(keys, key, i as int).len(),
                        forall|j: int|
                            0 <= j < kept@.len() ==> #[trigger] kept@[j].0@ == keys[kept_positions(
                                keys,
                                key,
                                i as int,
                            )[j]],
                        forall|j: int|
                            0 <= j < kept@.len() ==> #[trigger] kept@[j].1@ == vals[kept_positions(
                                keys,
                                key,
                                i as int,
                            )[j]],
                    decreases entries@.len() - i,
                {
                    assert(keys[i as int] == entries@[i as int].0@);
                    assert(vals[i as int] == entries@[i as int].1@);
                    let ghost before = kept_positions(keys, key, i as int);
                    if !key_is(&entries[i].0, "sourceProxy") {
                        let k = entries[i].0.clone();
                        let v = crate::json::copy_json(&entries[i].1);
                        let ghost kb = kept@;
                        kept.push((k, v));
                        assert(kept@[kb.len() as int].1@ == vals[i as int]);
                        assert(forall|j: int| 0 <= j < kb.len() ==> kept@[j] == kb[j]);
                        assert(kept_positions(keys, key, i + 1) == before.push(i as int));
                    } else {
                        assert(kept_positions(keys, key, i + 1) == before);
                    }
                    i = i + 1;
                }
            },
            _ => {
                return;
            },
        }
        let ghost kv = kept@;
        *settings = Json::Object(kept);
        proof {
            let kp = kept_positions(keys, key, keys.len() as int);
            let w = without_member(old(settings)@, key);
            assert(settings@->Object_0 =~= w->Object_0);
            assert forall|j: int| 0 <= j < kv.len() implies #[trigger] settings@->Object_1[j] == kv[j].1@ by {}
            assert(settings@->Object_1 =~= w->Object_1);
        }
    }
}

// ---------------------------------------------------------------------------
// Laws
// ---------------------------------------------------------------------------

/// First wins: once a settings value sets a field, values after it cannot
/// change the merged field.
pub proof fn lemma_first_setting_wins(
    vs: Seq<JsonV>,
    ws: Seq<JsonV>,
    field: Seq<char>,
    default: bool,
    i: int,
)
    requires
        0 <= i < vs.len(),
        proxy_field(vs[i], field) is Some,
    ensures
        first_setting(vs + ws, field, default, 0) == first_setting(vs, field, default, 0),
{
    lemma_first_setting_prefix(vs, ws, field, default, 0, i);
}

proof fn lemma_first_setting_prefix(
    vs: Seq<JsonV>,
    ws: Seq<JsonV>,
    field: Seq<char>,
    default: bool,
    k: int,
    i: int,
)
    requires
        0 <= k <= i < vs.len(),
        proxy_field(vs[i], field) is Some,
    ensures
        first_setting(vs + ws, field, default, k) == first_setting(vs, field, default, k),
    decreases i - k,
{
    assert((vs + ws)[k] == vs[k]);
    if k < i {
        lemma_first_setting_prefix(vs, ws, field, default, k + 1, i);
    }
}

proof fn lemma_kept_positions(keys: Seq<Seq<char>>, key: Seq<char>, n: int)
    requires
        0 <= n <= keys.len(),
    ensures
        forall|j: int|
            0 <= j < kept_positions(keys, key, n).len() ==> 0 <= #[trigger] kept_positions(
                keys,
                key,
                n,
            )[j] < n && keys[kept_positions(keys, key, n)[j]] != key,
    decreases n,
{
    if n > 0 {
        lemma_kept_positions(keys, key, n - 1);
        let prev = kept_positions(keys, key, n - 1);
        let cur = kept_positions(keys, key, n);
        assert forall|j: int| 0 <= j < cur.len() implies 0 <= #[trigger] cur[j] < n && keys[cur[j]] != key by {
            if j < prev.len() {
                assert(cur[j] == prev[j]);
            }
        }
    }
}

proof fn lemma_member_absent(keys: Seq<Seq<char>>, key: Seq<char>, i: int)
    requires
        0 <= i <= keys.len(),
        forall|j: int| 0 <= j < keys.len() ==> #[trigger] keys[j] != key,
    ensures
        member_pos(keys, key, i) == keys.len(),
    decreases keys.len() - i,
{
    if i < keys.len() {
        lemma_member_absent(keys, key, i + 1);
    }
}

/// What `strip_from` leaves has no `sourceProxy` member.
pub proof fn lemma_stripped_has_no_proxy_settings(v: JsonV)
    ensures
        get_member(without_member(v, "sourceProxy"@), "sourceProxy"@) is None,
{
    if let JsonV::Object(keys, vals) = v {
        let key = "sourceProxy"@;
        lemma_kept_positions(keys, key, keys.len() as int);
        let w = without_member(v, key);
        let wk = w->Object_0;
        assert forall|j: int| 0 <= j < wk.len() implies #[trigger] wk[j] != key by {
            assert(wk[j] == keys[kept_positions(keys, key, keys.len() as int)[j]]);
        }
        lemma_member_absent(wk, key, 0);
    }
}

/// The workspace configuration sent to the language server:
/// `{"kotlin": <settings>}`, with `sourceProxy` stripped from the settings
/// first.
pub fn workspace_configuration(settings: Json) -> (r: Json)
    ensures
        r@ == JsonV::Object(seq!["kotlin"@], seq![without_member(settings@, "sourceProxy"@)]),
{
    let mut stripped = settings;
    SourceProxySettings::strip_from(&mut stripped);
    let mut members: Vec<(String, Json)> = Vec::new();
    members.push(("kotlin".to_owned(), stripped));
    let ghost mv = members@;
    let r = Json::Object(members);
    assert(r@->Object_0 =~= seq!["kotlin"@]);
    assert(r@->Object_1 =~= seq![mv[0].1@]);
    r
}

/// Whether the proxy is to be used: the merged settings enable it and
/// `KOTLIN_LSP_PROXY_DISABLE` does not turn it off.
pub fn proxy_wanted(settings: &SourceProxySettings, env_disabled: bool) -> (r: bool)
    ensures
        r == (settings.enabled && !env_disabled),
{
    settings.enabled && !env_disabled
}

/// How a language server is launched, given the merged settings, the
/// environment flags `KOTLIN_LSP_PROXY_DISABLE` and `KOTLIN_LSP_PROXY_DEBUG`,
/// and, when the proxy is wanted, the proxy found: directly when the settings
/// or the environment turn the proxy off, or when none was found; otherwise
/// through the proxy, with the server's path made absolute against the work
/// directory `cwd`, logging verbosely when either the settings or the
/// environment ask for it.
pub fn launch_choice(
    settings: &SourceProxySettings,
    env_disabled: bool,
    env_debug: bool,
    found: Option<String>,
    binary_path: &str,
    cwd: Option<&str>,
) -> (r: ProxyChoice)
    ensures
        !settings.enabled || env_disabled ==> r is Disabled,
        settings.enabled && !env_disabled && found is None ==> r is Missing,
        settings.enabled && !env_disabled ==> (found matches Some(p) ==> (r matches ProxyChoice::Found {
            proxy,
            absolute_server,
            debug,
        } && proxy == p && encode_utf8(absolute_server@) == absolutized(
            binary_path.spec_bytes(),
            opt_str_bytes(cwd),
        ) && debug == (settings.debug || env_debug))),
{
    if !proxy_wanted(settings, env_disabled) {
        return ProxyChoice::Disabled;
    }
    match found {
        Some(proxy) => ProxyChoice::Found {
            proxy,
            absolute_server: absolutize_in_work_dir(binary_path, cwd),
            debug: settings.debug || env_debug,
        },
        None => ProxyChoice::Missing,
    }
}

/// The command that starts a language server (see `launch_choice` and
/// `wrap_with_proxy`): `proxy <absolute server> [server args]`, with
/// `KOTLIN_LSP_PROXY_DEBUG=1` in its environment when debugging, when the
/// proxy is wanted and found; the server itself with its arguments otherwise.
pub fn launch_command(
    binary_path: String,
    ls_args: Vec<String>,
    settings: &SourceProxySettings,
    env_disabled: bool,
    env_debug: bool,
    found: Option<String>,
    cwd: Option<&str>,
) -> (r: LaunchCommand)
    ensures
        match found {
            Some(p) if settings.enabled && !env_disabled => {
                let debug = settings.debug || env_debug;
                &&& r.command@ == p@
                &&& r.args@.len() == ls_args@.len() + 1
                &&& encode_utf8(r.args@[0]@) == absolutized(encode_utf8(binary_path@), opt_str_bytes(cwd))
                &&& forall|i: int| 0 <= i < ls_args@.len() ==> #[trigger] r.args@[i + 1]@ == ls_args@[i]@
                &&& r.env@.len() == (if debug { 1int } else { 0int })
                &&& debug ==> r.env@[0].0@ == "KOTLIN_LSP_PROXY_DEBUG"@ && r.env@[0].1@ == "1"@
            },
            _ => {
                &&& r.command@ == binary_path@
                &&& r.args@.len() == ls_args@.len()
                &&& forall|i: int| 0 <= i < ls_args@.len() ==> #[trigger] r.args@[i]@ == ls_args@[i]@
                &&& r.env@.len() == 0
            },
        },
{
    let bp = binary_path.as_str();
    proof {
        crate::text::lemma_str_chars(bp);
        vstd::utf8::decode_utf8_encode_utf8(bp.spec_bytes());
    }
    let choice = launch_choice(settings, env_disabled, env_debug, found, bp, cwd);
    let ghost args = ls_args@;
    let r = wrap_with_proxy(binary_path, ls_args, choice);
    proof {
        let rv = strings_view(r.args@);
        let av = strings_view(args);
        assert(rv.len() == r.args@.len());
        if settings.enabled && !env_disabled && found is Some {
            assert(rv == seq![rv[0]] + av);
            assert(r.args@[0]@ == rv[0]);
            assert forall|i: int| 0 <= i < args.len() implies #[trigger] r.args@[i + 1]@ == args[i]@ by {
                assert(rv[i + 1] == av[i]);
            }
        } else {
            assert forall|i: int| 0 <= i < args.len() implies #[trigger] r.args@[i]@ == args[i]@ by {
                assert(rv[i] == av[i]);
            }
        }
    }
    r
}

} // verus!
