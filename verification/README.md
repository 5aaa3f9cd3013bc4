# mini_redis

A small Redis-compatible server. The library (`src/`) holds the protocol codec, the command
parser, the key-value store and the dispatch of commands, each with its contract and proof;
`app/main.rs` runs the TCP server around it.

- `resp` — the RESP grammar as spec functions, the decoder and encoder proved against them;
  `resp_laws` — an encoded array reads back as it was when its elements are bulk strings,
  simple strings without CR or LF, integers other than `i64::MIN`, nulls, or such arrays
  (errors are written with a leading `-`, which the decoder does not take inside an array);
  and a decided prefix is not changed by later bytes.
- `command` — tokens of a request, the argument shapes of each command (`syntax`), and the
  parse from tokens to a `Command`.
- `storage` — the store as a map from keys to values or lists with expiry (in nanoseconds
  since the Unix epoch); that no key occurs twice is the store's type invariant.
- `clock` — the wall clock, read through chrono, bounded by the last date chrono can hold.
- `server` — the reply to each command, and the whole answer to a decoded request.
- `numeric`, `byte_strings` — decimal integers and byte-string helpers.
