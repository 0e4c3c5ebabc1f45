# stream

A live-streaming core: it takes encoded H.264 and AAC packets, keeps them in a
bounded buffer, muxes them into FLV, publishes them over RTMP with
reconnection, records them or cuts them into HLS segments, and accepts the
publishes of others.

- `src/` is the verified library. Each public function states in its contract
  what it returns or changes; the laws that span functions are public proof
  functions beside them (`mux_laws.rs`, `engine_laws.rs`, `rtmp/chunk_laws.rs` and
  `rtmp/laws.rs` hold those of the muxer, the engine, the chunk streams, and both
  ends of a connection).
- `app/` is the host side in ordinary Rust: sockets, files, the console, and
  handles that several threads share.
- `tests/` runs the library on concrete streams.

The library cannot reach the host's logger. Each part that logs keeps its
records, up to the level that `set_log_level` names; the host takes them with
`take_records` and delivers them to its `LogHub`.

Times are nanoseconds of a `Clock`, and timeouts and delays nanoseconds too;
media is timed in milliseconds. Doubles (AMF0 numbers, rates, ratios, means) are
held as their bit patterns: `rounding.rs` computes with them, and `figures.rs`
makes the reported figures of it.
