# zeroclaw_sessions

Sessions of chat messages in a directory of files, conversation ids of channels, and the rotation of
log files, verified with Verus.

- `src/` is the library. It decides which file actions are performed, in which order, and what they
  amount to. `session_store` and `rotation` hand out one action at a time and take its outcome;
  `channel_session` asks a durable backend for conversation ids, or holds them in a bounded cache.
- `src/directory.rs` models the sessions directory. `src/store_laws.rs` and `src/turns.rs` state what
  the operations of a store keep: whatever fails, wherever they are broken off, and with any number
  of them at the same time. `src/channel_laws.rs` and `src/rotation_laws.rs` state what holds over
  many requests for ids and over many rotations.
- `app/` performs the actions on the file system.
- `tests/` runs the library on a directory in memory.
