# fling

A Unix socket command relay. A **server** exposes a default-deny set of
commands, gated by per-argument glob rules. A **client** runs them with
stdin/stdout/stderr and the exit code forwarded verbatim.

## Layout

- `src/` — the verified library (Verus):
  - `glob` — glob patterns (`*`, `?`, `[a-z]`, `[!a]`, `{a,b}`, `\` escapes):
    a parser that rejects malformed patterns, and matching proved against a
    definition by reachable text positions;
  - `config` — commands, sandbox settings and their defaults, authorization,
    and the check that every `allow` pattern is a valid glob;
  - `path` — whole-component path prefixes and file names;
  - `sandbox` — the `bwrap` command line for a relayed command;
  - `protocol` — frames and handshake lines, with their size limits;
  - `client`, `server`, `cli` — the decisions each side takes.
- `app/` — the program: argument parsing, TOML and JSON, sockets, processes.
- `tests/` — tests of the library.

Run `cargo test` for the tests; the library verifies with Verus.
