# mini_elasticsearch

A small full-text search engine: an inverted index with positional postings,
phrase, prefix and fuzzy queries, BM25 ranking, a write-ahead log and immutable
binary segments, served over HTTP.

The library (`src/`) is verified with Verus:

- `analyzer` — tokenization (alphanumeric runs, lowercased) with positions.
- `fuzzy` — Levenshtein distance and fuzzy term matching.
- `index` — the inverted index: indexing, deletion, prefix lookup, merging, with
  the invariants that indexing, deletion and merging keep, and the proofs that
  deleting a new document undoes indexing it and that merging agrees with
  indexing the other index's documents one by one; merging segments, and
  compaction, which also prunes the documents deleted since they were written.
- `engine` — query parsing, candidate documents for AND/OR/phrase/prefix/fuzzy
  queries, and the state machine of a persistent engine (log replay, flushes),
  with the proof that reopening (merging the segments written and replaying the
  log kept) gives back exactly the documents the engine had when it stopped.
- `storage::segment` — the binary segment format, its writer and reader, and the
  proof that reading back a written segment gives the index back.
- `storage::wal`, `config`, `server` — log records, settings, HTTP bodies.
- `lex`, `strmap`, `text` — code point order, a sorted string map with
  binary-search lookups, text helpers.

`app/` is the `mini-es` program: files, the HTTP server, the command line, and
BM25 scoring (floating point).
