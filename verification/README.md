# chunklog

chunklog is a version-control library for voxel worlds, inspired by Git's
object model: chunk data is stored as content-addressed blobs, a world
snapshot is a tree mapping chunk coordinates to blob addresses, and commits
chain snapshots into a history. Addresses are XXH3 64-bit digests of an
object's canonical bytes, so identical chunks are stored once.

The library is written in Verus: its functions are verified against
`requires`/`ensures` contracts. The few calls into other code (XXH3 hashing,
`str::trim`, `str::lines`, UTF-8 validation and the system clock) go through
small wrappers in `src/hash.rs`, `src/text.rs`, `src/staging.rs` and
`src/repo.rs` whose contracts are trusted; their doc comments say what each
one claims.

## Layout

- `src/hash.rs` – addresses, their hex text and its parser.
- `src/object.rs` – blobs, trees and commits and their canonical encoding;
  decoding the encoding gives the object back, and every accepted encoding
  is the encoding of what it decodes to.
- `src/store.rs` – the `ObjectStore` contract and the in-memory store.
- `src/repo.rs` – `Repository`: commits, history and the HEAD commit over any
  store; committing puts the new commit in front of the history, and a
  staged patch is committed on top of the head commit's world. `log_checked`
  walks the history and stops where the parent chain would loop.
- `src/staging.rs` – the staged patch of the command line: `<x>,<z>` chunk
  files and the `.remove` list.
- `src/opfs.rs` – the append-only object log of the browser store and its
  crash-tolerant recovery parser.
- `src/opfs_cache.rs` – the cached log, its committed index and the open
  write batch; publishing a batch appends one transaction.
- `src/codec.rs`, `src/text.rs` – big-endian fields, UTF-8 and trimming.
- `app/` – the `chunklog` command line, the filesystem and SQLite stores,
  and the browser store's file I/O. The command line writes `FORMAT`
  (`2` and a newline) on `init` and refuses to open a repository without
  it or with another marker (such as `1`, the earlier format), and replaces
  `HEAD` through a synced temporary file.
- `tests/` – tests of the library.

## Object encoding

Every object starts with `CHLG`, the format version 1 and a type tag.
Integers are big-endian and addresses are their eight little-endian bytes.

| Tag | Type | Body |
| ---: | --- | --- |
| 1 | Blob | `u64` length, the bytes |
| 2 | Tree | `u64` entry count, entries sorted by `(x, z)`: `i32 x`, `i32 z`, blob address |

A tree is one flat, sorted list of `(x, z, blob)` entries under tag 2. This
differs from the coordinate radix tree of branch (tag 2) and leaf (tag 3)
nodes described in the repository format notes: chunklog does not build or
read radix nodes, so tag 3 is not used and a commit's tree address names the
whole flat list.
| 4 | Commit | tree address, parent flag and parent address, `u64` timestamp, `u64` message length, UTF-8 message |

## Browser object log

The log starts with `CHOP`, version 1 and three zero bytes, followed by
records `kind: u8`, `length: u64` (big-endian), payload.

| Kind | Name | Payload |
| ---: | --- | --- |
| 1 | BEGIN | `u64` transaction id |
| 2 | PUT | 32-byte address field, object bytes |
| 3 | DELETE | 32-byte address field |
| 4 | COMMIT | `u64` transaction id |

The address field keeps the format's 32-byte width: the eight little-endian
bytes of the object's XXH3 address followed by 24 zero bytes. A PUT shorter
than the field, a DELETE of any other length, or nonzero padding is
corruption. Objects are written in
transactions (BEGIN, PUT/DELETE records, COMMIT). Reopening applies only
committed transactions; a torn final record or an unfinished final
transaction is cut off, and corruption before it is rejected.
