# my_redis

A small Redis-compatible key-value server. The library under `src/` holds the
logic and its proofs; `app/` is the server around it.

- `frame.rs` — RESP frames, their byte encoding (`serialize`) and the decoder
  (`check`, `parse`), with the laws that tie them together: a written frame
  reads back as itself when it is well formed (simple strings and errors
  without a `\r\n`, lengths that fit in an `i64`), a partly received frame is
  reported incomplete, and nothing but encodings is accepted.
- `connection.rs` — taking complete frames off the front of a receive buffer.
- `command.rs` — reading a command out of a request frame.
- `execute.rs` — what each command does to the store and the reply it gives,
  with the laws of the store (set then get, expiry, `DEL`, `INCR`/`DECR`,
  reads that keep the live entries).
- `store.rs` — the store: entries in a hash map by key, expiry, purging, and the
  snapshot that persistence saves and loads.
- `pubsub.rs` — the replies of `SUBSCRIBE` and `PUBLISH`.
- `decimal.rs`, `duration.rs`, `buffer.rs` — decimal text, time spans, and the
  byte buffer of the `bytes` crate.

Time in the store is a reading of the server's monotonic clock in nanoseconds;
the server passes the current reading to each command.

`app/` accepts connections (tokio), runs the read–execute–write loop, relays
pub/sub messages, purges expired entries every second, and writes snapshots
with bincode.
