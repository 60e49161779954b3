# search_engine_rust

An offline hybrid search engine (BM25 keyword search, n-gram vector search,
multi-signal ranking and answer extraction) whose document handling,
indexing, persistence layout, crawling decisions and dataset import are
written in Verus and proved against their contracts.

Layout:

- `src/` — the verified library. Text normalisation and tokenisation
  (`text`), chunking (`processing`), the inverted index and its on-disk
  postings layout (`term_index`, `postings`), spelling correction
  (`correction`), the engine's document state (`engine`), the query cache
  (`cache`), the text store layout (`text_store`), the saved-index records
  (`index_store`), the crawler's decisions: which task to fetch, robots
  rules, what a fetched page yields, the page budget and the frontier
  (`crawler`),
  page deduplication (`processor`), Wikipedia, WARC and OpenStreetMap import
  (`wiki`, `datasets`), proximity windows (`proximity`), n-gram counts for
  embeddings (`embedding`), evaluation counts (`evaluation`), answer word
  tests (`extraction`), pack sharding and manifests (`bundle`) and argument
  reading (`cli`).
  Calls into `md5`, `url`, `scraper` and std's lossy UTF-8 decoding sit
  behind small trusted wrappers whose contracts name their results.
- `tests/` — tests of the library on concrete values.
- `app/` — the program around it: file, network and memory-mapped I/O
  (including the loop that fetches pages over HTTP),
  the floating-point scoring (BM25 formula, vectors, ranking weights,
  answer scores, confidence), serialization, the FFI, and the command line.
