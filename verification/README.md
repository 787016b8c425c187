# forgedb_db

A schema-tailored application database (users, posts, tags, metrics and
documents, with a post–tag junction) whose core is verified with Verus.

## Layout

- `src/` — the verified library.
  - `records.rs` — the five record types, their validation and the `Record`
    trait that tells a table how to index a record.
  - `versions.rs` — the append-only row log with its id lookups; snapshot
    reads; compaction.
  - `keyindex.rs`, `ordered.rs` — hash and ordered secondary indexes (a map
    from key to a `HashSet` of ids; a `BTreeMap` from value to a `BTreeSet`
    of ids, walked by range).
  - `model.rs`, `table.rs` — one model's storage state: rows, index keys and
    indexes, writes (insert / update / delete), transactional staging,
    recovery and compaction, and the laws they keep (unique keys stay
    unique, a write is read back, snapshots are stable).
  - `maintenance.rs` — checkpoint and compaction bookkeeping.
  - `links.rs` — the post–tag junction, and its laws (linking twice is
    linking once; linking then unlinking gives every view back; pairs,
    tags of a post and posts of a tag agree).
  - `db.rs` — the database: cross-model rules (a post's author must be a
    live user; a user with posts cannot be deleted; deleting a post or tag
    unlinks it), replicated changes, journal recovery, manifest checks,
    and which attempts of a retrying transaction run again (conflicts only).
  - `tx.rs` — multi-model transactions: marks, staged writes, write sets,
    the commit journal, commit and rollback (a failed transaction leaves
    every model as it found it).
  - `journal.rs` — the transaction journal's record, written at commit
    and read back at recovery.
  - `concurrent.rs` — buffered transactions over a snapshot of a shared
    database: reads through the buffer, unique keys checked against the
    committed indexes and the keys already claimed, write sets, and staging
    a granted transaction's writes for commit.
  - `coordination.rs` — the decisions of a transaction waiting for a commit
    turn from a coordinator shared between processes.
  - `queries.rs`, `relations.rs` — lookups by index key (current and at a
    snapshot), range scans, and the post–tag and post–author relations;
    the laws of lookups (a unique key finds one record at most; snapshot
    reads survive later writes; a range query lists the records in range,
    once each, in order, and a limit keeps its first rows).
  - `wal.rs` — the write-ahead-log record frame and replay decisions.
  - `paging.rs` — scans and pages.
  - `keys.rs`, `ids.rs`, `text.rs`, `timestamps.rs`, `validate.rs`,
    `errors.rs`, `bench.rs` — encodings, timestamps, email checks, errors
    and the benchmark dataset.
- `tests/` — tests of the library.
- `app/` — the I/O around it: JSON forms of the records, per-model logs on
  disk, manifests, the transaction drivers (single-threaded, shared
  between threads with the commit sequencer, and coordinated between
  processes) and replication catch-up.
