# hips

A search engine for documents and source trees, with its core verified in
Verus.

`src/` is the library. Every function states what it returns in `requires` /
`ensures` clauses, and Verus proves it from the clauses of a few calls that it
takes on trust. Those are the calls into other crates and into std: parsing
JSON (`serde_json`), SHA-256 (`sha2`), quoting a text as `{:?}` does,
`String::push` and `char::is_alphanumeric`. A comment at each says what is taken
on trust. Its modules:

- lexical search: `bm25`, `postings`, `compress`, `block_max_wand`, `maxscore`,
  `work`, `indexer`, `segments`, `searcher`, `spell`, `reorder`
- building on disk: `external`, `migrate`
- vectors: `embeddings`, `embcache`, `ivf`, `pq`, `hnsw`, `hybrid`, `vectors`,
  `query`, `embedder`, `coreml`
- source trees: `chunk`, `doc_comment`, `ignore`, `repo`, `codeindex`, `paths`
- around it: `mcp`, `daemon`, `cli`, `grammar`, `eval`, `bench`, `json`, `text`

Scores are fixed-point numbers and vectors are the bit patterns of their
components, so that the library computes with integers alone.

`app/` is the `hips` program: files, processes, sockets, the command line, and
the arithmetic on floating-point numbers. `tests/` runs the library.
