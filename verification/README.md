# nanostore

Table engines for an embedded store, written in Rust and verified with Verus.

Every engine keeps the versions of its keys, so that a reader at a point of the log sees what was
committed there. The engines differ in how they find keys:

- `btree`: ordered tables, in memory and in pages of a store, with scans and streamed values
- `art`: an adaptive radix tree in memory
- `hash`: point lookups in memory
- `appendlog`: entries in segments that are rolled and retained by policy
- `bloom`: filters that never deny a key that was put in, in memory and in pages
- `blob`: large values in memory, in chains of pages, or in files
- `fulltext`: an inverted index with tokenizers and ranked results
- `graph`: vertices and edges with traversals
- `hnsw`: nearest-neighbour search in a layered graph of vectors

Around them stand `pager` (the pages of a store), `txn` and `mvcc` (versions and visibility),
`bytemap` (an ordered map of byte strings), `overflow` and `stream` (values over several pages) and
`wire` (records on disk, written and read by postcard and serde_json).

`src/` is the verified library. Its contracts speak of mathematical models: a table is a map from
keys to sequences of versions, a store a map from page numbers to pages. Proof functions named
`law_...` state what holds across several operations. What is opened from pages that anyone may
have written is tested by `is_sound` before it is changed. `tests/` runs the library on examples.
`app/` holds what lies outside of the proofs: files, the clock, JSON and floating-point numbers.
