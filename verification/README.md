# stori

The verified core of sTori, a local-first ebook server and personal
reading room: a Rust/Axum server on port 1822 that serves a web reader to
phones on the home network, keeps its catalog in SQLite, scans ebook
folders read-only and downloads public-domain EPUBs.

`src/` is the library, written in Verus and proved against its contracts:

- `epub_validation`, `paths`, `zipfile`, `xml`, `opf` — structural checks
  of EPUB archives (entry names that cannot escape the archive, size and
  compression limits, container, manifest and reading order) and queries
  on package documents.
- `scanner` — what a scanned book's metadata, cover and warnings are.
- `importing` — what an imported EPUB says of itself, the package document
  written beside it, and how it is named and filed.
- `downloads` — trusted hosts, the Project Gutenberg catalog, job status
  changes and the transfer state machine.
- `db` — schema migrations and backups, checks on stored names and kinds,
  scan pruning and reader-token refresh.
- `server` — authorization, pairing codes and their rate limit, offered
  addresses and the library monitor.
- `startup` — explaining which process holds the server's port.
- `text`, `digest`, `json`, `models`, `error` — shared text functions,
  SHA-256 hex digests, the JSON mirror, records and errors.

`app/` is the server program around the library: HTTP handlers, SQL,
file and network I/O, and the floating-point parts (progress ratios,
series numbers). `tests/` exercise the library on concrete values.
