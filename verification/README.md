# zed_kotlin

The Kotlin extension for Zed and its `kotlin-lsp-proxy`, with their logic
verified by Verus.

The proxy sits between Zed and a Kotlin language server. Language servers point
navigation targets at sources inside archives
(`jar:///…/lib-sources.jar!/pkg/File.java`, `file://…/src.zip!/…`, `%21`);
the proxy extracts such entries into a cache and rewrites the URIs to plain
`file://` paths. Whatever fails leaves the message as it was.

## Layout

- `src/` — the verified library.
  - `text`, `paths`: byte strings, UTF-8, trimming, number parsing; Unix path
    joining and components.
  - `lsp_frame`: `Content-Length` framing; reading whole messages.
  - `uri`: recognising and splitting archive URIs, percent-decoding, choosing
    the archive member an entry is extracted from.
  - `security`: zip-slip protection and the archive allowlist.
  - `cache`: cache locations, cache file names (SHA-256), size-based collection.
  - `json`, `relay`: the JSON model and the two-step rewrite of archive URIs.
  - `resolve`: the temporary-file resolver for `definition`-like responses.
  - `settings`, `logutil`, `spawn`: settings, flags, which binary to start.
  - `language_servers`: install layouts, release assets, the proxy lookup and
    the launch command of both Kotlin language servers.
- `app/` — the proxy program (process, threads, files, zip, serde_json) and the
  Zed extension glue; it computes what needs the file system or the network and
  hands plain values to the library.
- `tests/` — tests of the library.
