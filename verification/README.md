# srcwrtimer

SourceMod extensions written in Rust, with their logic verified by Verus.

`src/` is the verified library:

- `cstr` — C strings from plugin memory, and copying text into plugin buffers.
- `string_block` — a packed list of strings with lookup.
- `json/` — the JSON value model, JSON pointers and the SRCWRJSON natives'
  semantics (get, set, remove, toggle, structs packed into plugin cells),
  with laws relating writes and reads.
- `net` — IPv4 classification and the `-ip` command-line bind address.
- `http`, `ws` — request and response state of the HTTP extension, text
  decoding by charset, and the websocket registry and socket-task decisions.
- `bz2`, `util`, `syncer` — the bzip2, utility and git syncer extensions' decisions.
- `host` — the host's file handles and error buffers.
- `build_plan` — what the build scripts hand the C++ compiler for each target,
  and the Rust text generated from plugin headers.

Calls into outside crates (`memx`, `simdutf8`, `sha1`, `hex`, `bzip2`,
`regex`, `mime`, `encoding_rs`, `smallvec`, and the URL, method, header and
websocket-request validation of `reqwest`, `http` and `tungstenite`) go
through small trusted wrappers whose contracts say what the library relies on.

`app/` holds what cannot be verified: the exported C natives, the host's C
interface, files, threads, the tokio request thread and websockets, floats,
JSON text (serde_json), git, and the build scripts' use of the environment and the compiler.
