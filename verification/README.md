# redis_clone

A small Redis-like in-memory key-value server. The library under `src/` is
verified with Verus; `app/` is the Tokio TCP server around it.

## Layout

- `src/decimal.rs` — canonical decimal text of integers, the lenient reading
  that `str::parse` performs, and the strict reading that RESP uses.
- `src/text.rs` — UTF-8 decoding, ASCII upper-casing, comparison and
  concatenation of strings.
- `src/resp.rs` — RESP values, their encoding, and a reader that takes one
  value off the front of a byte buffer (whole value, unfinished, or invalid).
  Proved: reading gives back every well-formed value from its encoding, every
  strict beginning of an encoding reads as unfinished, and what the reader
  accepts re-encodes to exactly the bytes it took.
- `src/command.rs` — commands read from RESP arrays, and their execution
  against a store.
- `src/store.rs` — the key-value store with lazily enforced expiry. Time is a
  count of milliseconds that the caller passes in.
- `src/server.rs` — what the server does with a client's buffered bytes:
  answer every whole command in order and keep an unfinished one. Proved:
  the answers, the bytes kept and the store do not depend on how the input is
  split into reads, for any number of reads, as long as the input up to the
  end of each read but the last holds no protocol error (an error empties the
  buffer, so what follows it is read afresh).
- `app/main.rs` — accepts TCP clients, shares one store between them behind a
  lock, reads the clock, and writes the answers back.

## Commands

`PING`, `ECHO`, `SET`, `GET`, `DEL`, `EXISTS`, `INCR`, `DECR`, `EXPIRE`, `TTL`.
