# feox_server

A Redis-compatible protocol layer for the FeOx key-value store, written in
Verus: the executable code carries `requires`/`ensures` contracts that Verus
proves.

## Layout

- `src/protocol/resp.rs` — RESP values, their wire form (`resp_bytes`), the
  encoder and the incremental parser; a value whose wire form is received is
  read back as that value.
- `src/protocol/command/` — the command parser (`parser.rs`, exact against a
  specification of the accepted requests), KEYS/SCAN glob matching
  (`glob.rs`), hash commands over field keys with batched field counts
  (`hash.rs`) and the command executor (`executor.rs`).
- `src/pubsub/pattern.rs` — the pattern trie behind PSUBSCRIBE: which
  subscribers a channel reaches, and how subscribing or unsubscribing one
  client leaves the others.
- `src/watch_registry.rs` — key versions for WATCH/EXEC.
- `src/network/connection.rs` — the per-connection state machine: pipelining,
  authentication, MULTI/EXEC/DISCARD/WATCH and pub/sub mode.
- `src/store.rs`, `src/text.rs` — the calls into `feoxdb`, `itoa` and the
  standard library that the proofs rely on, each with the contract it is
  trusted to meet.
- `src/server.rs` — the INFO report's layout, and the start-up decisions
  (worker count, whether a store file's metadata is blank).
- `app/` — the server binary: arguments, logging, the mio event loops and the
  socket I/O around the connection state machine, and the INFO figures, whose
  fractional parts are floating-point.
- `tests/` — tests of the library on concrete values.

## Not implemented

- List commands (LPUSH, LRANGE, ...), CLIENT and the COMMAND table: the
  commands parse, and the server answers each of them with
  `ERR ... is not supported by this server`. The COMMAND subcommands that
  need no table (DOCS, HELP and unknown ones) are answered by the library.
- Pub/sub delivery between connections: the connection state machine keeps
  subscription counts and queues messages handed to it, and the pattern trie
  decides which subscribers a channel reaches, but the server has no registry
  that routes a PUBLISH to other connections; it answers pub/sub commands with
  `ERR pub/sub is not supported by this server`.
- Settings files: `Config::from_file` returns an error; the server is
  configured from its command-line arguments.
