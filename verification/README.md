# strata_search

An embeddable in-memory document index with exact term matching, typed
fields, field filters, facet counts, sorted retrieval and batch writes,
verified with Verus.

Layout of `src/`:

- `text.rs` — whitespace, words, terms (lowercased words), and the code-point
  order on texts that keys and names use.
- `keyed.rs` — sequences of entries kept in strictly increasing key order,
  with lookup and the lemmas for inserting, replacing and removing entries.
- `document.rs` — documents: key, body, typed fields in name order.
- `schema.rs` — field types and values, the order on values, declarations,
  schemas and validation.
- `filter.rs` — exact-match field filters and their checks.
- `index.rs` — the index: insert, replace, remove, lookup and search.
- `facet.rs`, `sort.rs`, `batch.rs` — facet counts, sorted retrieval, batches.
- `laws.rs` — properties relating several operations.

`app/` holds carriers of the library's errors that implement `Display` and
`std::error::Error`.
