# privatium_core

The core of a local-first app host, as a Verus library: the rules are proved against
their contracts, and the program around them stays thin.

- `src/log/` — the append-only event log: envelopes, the writer and its batches, the
  reader and recovery on start, the Lamport counter, batch coverage, and reception of
  another device's log byte for byte.
- `src/lint/` — the app linter's rules: the manifest, SQL, templates and their
  attributes, HTML pages, JavaScript, stylesheets, page shape, spec references, and the
  order a report gives its findings.
- `src/lua/` — template compilation (`.lsp` scanning and the line map), view reloading,
  resource limits, and the error locations the host reports.
- `src/pair/` — pairing: the code and its renderings, the window and its attempts, the
  handshake's checks, the key exchange's plain data, the join URL and the QR code.
- `app/` — what touches the file system or needs floating point: reading an app folder
  for the linter, the contrast ratio, writing fixes, the JSON report, the log file sink,
  reading segments for recovery, reading `views/` for the template compiler, and the
  receiver's file handling.
- `tests/` — the library's tests, run against the compiled crate; the template tests
  run the compiled chunks in Lua through `mlua`.

Where a result comes from an outside crate (`serde_json`, `jiff`, `base64`,
`ed25519-dalek`, `qrcode`, `rand`), the call sits behind a trusted wrapper whose doc
comment says what its contract claims.
