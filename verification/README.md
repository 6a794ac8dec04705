# redrob_vectordb

The verified core of Redrob VectorDB, a local-first desktop search application:
the rules by which files are found, read, split into passages, fingerprinted,
searched, and turned into a cited question to the Redrob API. Every function in
`src/` is checked by Verus against its `requires`/`ensures` contract.

## Layout

- `src/text.rs` — character-level text handling: trimming, line cleaning,
  truncation by characters, ASCII case rules.
- `src/models.rs` — the records of the application and the validation of its
  settings.
- `src/chunking.rs` — splitting extracted text into overlapping passages that
  end at sentence boundaries where possible.
- `src/extract.rs` — file-type rules and text extraction from PDF, DOCX, markup
  and plain text.
- `src/indexing.rs` — which files an indexing run takes, how a document is
  prepared and fingerprinted, embedding batches, the run's control flags and the
  progress it reports.
- `src/search.rs` — search planning, reciprocal-rank fusion, result filters and
  the full-text query.
- `src/redrob.rs` — the Ask flow: gates, source numbering, the evidence context
  within its budget, the chat request, and the classification of replies.
- `src/library.rs` — the library as a whole: folder and path order, which
  stored documents a scan removes, backups, schema migration decisions, key and
  token checks, source-path containment.
- `tests/` — tests of the library on concrete values.
- `app/` — the desktop application around the library: window and commands,
  SQLite storage, the vector index and embedding model, file walking and
  watching, HTTP, and the local API.

Calls into outside crates (`url`, `sha2`, `mime_guess`, `quick-xml`, `zip`)
and a few standard-library functions are made through small trusted wrappers
whose contracts are stated next to them. The PDF reader (`pdf-extract`) can
panic on malformed documents, so the application runs it under `catch_unwind`
and hands its text, or its failure, to `extract_sections`.
