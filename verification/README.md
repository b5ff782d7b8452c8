# docq

Local-first retrieval over your own documents: files are chunked, embedded
and indexed in SQLite (FTS5 for BM25, sqlite-vec for vectors); a query is
answered by fusing lexical and vector recall with reciprocal rank fusion,
optionally reranked; `ask` frames the top passages as numbered sources for
a local language model and reads the `[n]` citations back from its answer.

Layout:

- `src/` — the verified library (Verus): chunking (`split`, `merge`,
  `chunker`), content addressing (`hashing`), incremental indexing decisions
  (`indexer`), rank fusion (`fusion`), hit assembly (`search`), FTS5 query
  sanitising (`retriever`), `.docx` extraction (`docx`), file selection
  (`reader`), jieba pre-segmentation for full-text terms (`segment`),
  statement text and row decoding (`storage`), engine decisions
  (`engine`), context budgeting (`generation`), cited answers (`synth`), model
  defaults (`registry`),
  and the data model (`models`, `error`, `traits`, `verbose`, `hub`).
- `app/` — the `docq` command line: SQLite store, model download and
  inference backends, the async indexing and search pipelines, JSON output.
- `tests/` — tests of the library.
