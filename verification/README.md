# vidmesh

The core library of the Vidmesh protocol, written in Verus: every
function in `src/` carries a contract that Verus proves.

- `src/` — the verified library: canonical CBOR (`codec`, `decode`),
  signed records (`record`, `keys`, `crypto`), identity rotation chains
  (`identity`), content-addressed blobs and chunk proofs (`blob`),
  bundles (`bundle`), the typed record kinds (`kinds`), the JSON form
  (`json`), and the relay's frames, filters, proof of work, sync and
  storage decisions (`frames`, `filter`, `pow`, `sync`, `storage`,
  `relay`, `config`, `config_json`). The `*_laws` modules state and
  prove properties that span several functions: round trips of CBOR,
  JSON, frames, bundles and record kinds, and the order independence of identity
  chain verification.
- `tests/` — tests run against the compiled library.
- `app/` — the relay program around the library: the HTTP and
  WebSocket server, SQLite, the rate limiter, file I/O. It drives the
  library's decision functions and performs what they ask for.

BLAKE3, Ed25519 and JSON parsing are done by the `blake3`,
`ed25519-dalek` and `serde_json` crates, behind small trusted wrappers
whose contracts say what those crates do.

Left out: the optional bindings to the publisher core (the
`dmtap_core` crate, behind a feature that is off by default), since
that crate is not available here; and the desktop node program, which
is built on `tauri`.
