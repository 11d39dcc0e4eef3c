# Papyrite engine

An embedded, append-only document store whose logic is verified with Verus.

Documents are JSON-like values (`Value`) kept in a log of records: a create or
an update appends a put record with the document's binary encoding, a delete
appends a delete record, and every read folds the log into the latest state of
each `_id`.

## Layout

- `src/` — the verified library.
  - `types.rs`: `Value`, its ordered object fields, and the mathematical model
    `Doc` that the contracts speak of.
  - `codec.rs`, `codec_laws.rs`: the binary value encoding; decoding an
    encoding gives the value back.
  - `record.rs`: the log records; reading a written record gives it back.
  - `paths.rs`: dotted paths — reading, setting, removing and changing in place.
  - `query.rs`: the id filter, find and update requests.
  - `db.rs`, `db_laws.rs`: the store over an in-memory log, and what holds
    across its operations (reads give back the last write, other documents are
    untouched, the log only grows, the dump agrees with reads by id).
  - `json.rs`: JSON values as plain trees — reading JSON text through
    `serde_json`, converting trees to documents and back.
  - `command.rs`: the command language of the command-line tool.
  - `abi.rs`: the outcome of a call through the C interface, as plain values.
  - `error.rs`, `bytes.rs`: errors, byte order of keys, UTF-8 helpers.
- `app/` — the `cli` program and the C interface: file I/O, printing JSON
  text through `serde_json`, raw pointers.
- `tests/` — tests of the library.
