# sift-core

A small hybrid search engine: each document has an id, a vector, a text and a
blob, and a query by vector and text together finds the best documents. The
documents live in a log-structured store; both search indexes are derived from
it and rebuilt when an engine is opened.

`src/` is the library, verified with Verus. It reads and writes no files: it
takes bytes and gives bytes, and its contracts say which. A write is made in two
steps. First the store gives the log record, for the caller to make durable;
then it takes the write. Flushing and compaction work in the same way.

Scores are floating-point numbers. The library holds them as their bits, ranks
them, and leaves their arithmetic to functions that the caller passes in.

`app/` keeps a store in a directory and holds the arithmetic of the scores. Its
program runs a short demonstration, or timings with the argument `bench`.

`tests/` runs the library on concrete values.

## Where to read

| Promise | Where |
| --- | --- |
| A log replays to what was appended, and a torn write takes nothing with it | `wal.rs` |
| A table gives back every version that was written to it | `table_laws.rs` |
| Merging tables keeps what a read of the newest state finds | `compaction_laws.rs` |
| Flush, compaction, restart and a crash between their steps lose nothing | `store.rs`, `lsm.rs` |
| A ranking holds the best, and a score that is no number never wins | `score.rs` |
| The inverted index describes exactly the documents it was given | `text.rs` |
| A text search finds exactly the documents that share a word with the query | `text_laws.rs` |
| A query finds stored documents only, as many as were asked for, with the blobs stored last | `engine_laws.rs` |
| Whatever operations were run, the documents are the last upserts that were not deleted | `history.rs` |
