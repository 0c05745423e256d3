# rrecall

Search over recorded assistant conversation transcripts (one JSONL file per
session, grouped in one directory per project), lexically with a
Lucene-style query language and, optionally, through a dense embedding index.

`src/` is the library, written in Verus and verified: reading transcript
lines into messages (each line's JSON parse is a `serde_json` call behind a
trusted wrapper),
the query language and its evaluation, session evaluation and result
windows, the text rendering of answers, the scope ladder and project
scoping, session grouping and ordering per tier, chunking and the
incremental-index bookkeeping (chunk hashes, manifests, reuse plans), and
the assembly of hybrid answers. Calls into `serde_json`,
`regex`, `tantivy-query-grammar` and `std::path` sit behind small trusted wrappers
whose contracts name what those calls return.

`app/` is the command-line program around it: argument parsing, file and
process I/O, the embedding model, the on-disk index, and the floating-point
ranking steps (cosine similarity, IDF weighting, score fusion).

`tests/` exercises the library with concrete inputs.
