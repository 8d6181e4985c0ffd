# decsync

A set of key-value entries kept in sync between devices using nothing but a shared directory. The
directory is mirrored by whatever file sync tool is already running. For each path plus key, the
newest timestamp wins.

The v2 file format is implemented. v1 directories are rejected, not upgraded.

The library is written in Rust and proved with Verus. It computes: given the texts of files, it
says what to write and tells the listeners. Reading and writing the files is done around it.

## Layout

- `src/` is the verified library.
  - `instance.rs`: one app's end of a directory, with its listeners.
  - `publish.rs`, `pull.rs`, `replay.rs`: setting entries, taking over those of other apps, and
    telling listeners about stored ones.
  - `store.rs`: the entries of one file, and merging newer ones into them.
  - `listener.rs`, `groups.rs`: who is told about which entries.
  - `sequences.rs`: what has changed, and what has been read.
  - `notifier.rs`: finding out that something arrived.
  - `entry.rs`, `json.rs`, `file_utils.rs`: the on-disk format.
  - `hash.rs`, `directory.rs`, `info.rs`: where things are, and which format a directory has.
  - `order.rs`, `text.rs`, `time.rs`: the orders and texts that all of it rests on.
  - `laws.rs`, `pull_laws.rs`, `telling.rs`: what holds of the synchronization as a whole, and of
    what the listeners are told.
- `tests/` runs the library on directories that are held in memory.
- `app/` puts the library on a disk: files, errors with messages, and a polling thread.

## What is trusted

JSON is read and written by `serde_json`, and the time is told by `chrono`. What is taken for
granted about them stands in the contracts of the functions marked `external_body`, in `json.rs`,
`sequences.rs`, `info.rs` and `time.rs`.

## Limits

- No v1 support.
- An instance is not safe to share across threads; keep one per thread or process.
- Values that nest more than 126 levels deep are written, but cannot be read back. A value that is
  tens of thousands of levels deep exhausts the stack when it is written or compared.
