# kv_storage_rust

A persistent key-value store whose logic is verified with Verus.

Data lives in memory. Every mutation is checked, logged and synchronised before it is
applied; from time to time a snapshot is written and the log is compacted. A restart loads
the snapshot and replays the log behind it. A damaged file is refused, never taken for an
empty store.

## Layout

- `src/` is the verified library.
  - `text`, `number`, `lines`, `text_map`: texts, numbers, lines of bytes, and a map that is
    ordered by the bytes of its keys.
  - `domain`: commands, replies, errors and the store in memory.
  - `persistence`: the record format (`format`), the log (`wal`), the snapshot (`snapshot`)
    and the order of work on files (`script`).
  - `engine`: keeps memory and files in step. It decides what is done next; the owner of the
    files does it and reports back.
  - `protocol`, `server`, `client`, `metrics`: the line protocol, the sessions of the server,
    what the client shows, and the counters.
  - `kv_server`, `kv_client`, `kv_memory_server`, `kv_bench`, `local`: what the programs
    decide by themselves.
- `app/` is ordinary Rust around the library: files, JSON documents, sockets, threads and the
  terminal.
- `tests/` runs the library.

## What is proved

Contracts state the results of all functions over sequences of characters and bytes and over
maps. Public proof functions named `law_*` state what holds across functions, among others:

- a mutation that was acknowledged is found after a restart, and one that was refused is
  never logged; a record that recovery would not accept is refused, not written;
- a restart gives back the engine with its count of mutations since the checkpoint;
- a checkpoint loses nothing, wherever the program stops and however large the data is;
- the scripts perform just the steps that carry out their actions;
- a record that was only written in part, or in which a byte was changed, is noticed;
- a checkpoint that is answered with an error leaves the whole log, whichever of its steps
  failed, and is tried again;
- a restart finds all data after any sequence of commands, checkpoints, clears and restarts
  that leaves no record half written and no clear half done;
- the file of a snapshot or a log stays as it is until its successor is complete;
- what a reply holds cannot break the line protocol;
- all data is removed only after a confirmation.

Three functions of the standard library are trusted with a contract: `String::push`,
`String::from_utf8` and `sort_unstable` of slices.
