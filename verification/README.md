# noda_core

The core of Noda, a Markdown notes vault that synchronises over WebDAV, written in
Verus. The functions under `src/` are verified against their contracts, except the small
trusted wrappers around outside crates and std, whose contracts are assumed; each
wrapper's doc comment says what it claims.

- `src/` — the verified library: note files and their frontmatter, tags and tasks,
  search ranking, folders, history snapshots, trash, attachments, conflicts, the
  master-password key handling, the sync queue, the three-way delta and the
  device-manifest synchronisation decisions, WebDAV response parsing and the path
  rules. Calls into outside crates (chrono, quick-xml, chacha20poly1305, argon2,
  base64, regex, gray_matter, html2md, readabilityrs, url, similar, ulid, uuid, rand,
  xxhash-rust, rusqlite) go through those wrappers.
- `tests/` — tests of the library on concrete values.
- `app/` — ordinary Rust around the library: files on disk, the SQLite index, the
  HTTP client and the synchronisation cycle, the file watcher, the key session's idle
  monitor, and the serialisable copies of the library's records.
