# kv_database

A local key-value store, verified with Verus.

Values are kept with an optional lifetime in seconds; a capacity bound is
enforced by evicting the key written longest ago; transactions buffer their
writes, let reads see them, and apply them in order on commit, all or
none.

Layout:

- `src/keymap.rs` — a map from string keys, kept as a list of pairs.
- `src/lru.rs` — the recency tracker: a doubly linked list in an arena.
- `src/types.rs`, `src/error.rs` — entries, the store summary, errors.
- `src/cache.rs` — the in-memory store and its model (`CacheView`).
- `src/transaction.rs` — buffered writes and their application.
- `src/codec.rs` — text values encoded with bincode.
- `src/db.rs` — the database bound to its file path; restoring saved entries.
- `src/text.rs`, `src/protocol.rs` — the line protocol of the server:
  parsing requests and building replies.
- `src/prompt.rs` — the interactive prompt: reading a typed line as a
  command and answering it on the database or inside a transaction.
- `src/laws.rs` — properties of the store as a whole.
- `src/clock.rs` — the system clock.
- `app/` — the command-line tool, the prompt's read-and-print loop, the
  TCP server, saving to and loading from files, and values of any serde
  type.
