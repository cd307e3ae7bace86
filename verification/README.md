# soma

The core of SOMA, an offline personal knowledge base: notes are chunked,
embedded by a local Ollama server, searched to answer chat questions, and
clustered to surface insights. The library in `src/` is written in Verus and
each public function carries a contract that Verus proves.

## Layout

- `src/` — the verified library
  - `chunking` — sentence-boundary chunking of notes
  - `clustering` — DBSCAN over a neighbourhood relation, with its laws
    (clusters are disjoint, have at least two members, each hold a core
    point, never join unlinked groups, keep neighbouring core points
    together; fewer than three points form none)
  - `prompts`, `chat`, `insight`, `line_insight` — prompt texts and the
    reading of the model's answers
  - `retrieval` — choosing between full-text and semantic search (semantic
    from 25 notes with embeddings by default, tunable), and which ranked
    notes answer a query
  - `records`, `json`, `ids` — building stored records; JSON, UUIDs and
    timestamps come from serde_json, uuid and chrono through trusted wrappers
  - `insight_loop` — the decisions of the insight-generation loop, one step
    at a time, which `app/` performs
  - `system`, `parse`, `settings`, `sql`, `temporal`, `text`, `embedding`,
    `models` — supporting parsers and text utilities
- `app/` — ordinary Rust around the library: SQLite storage (rusqlite), the
  Ollama HTTP client (reqwest, tokio), floating-point similarity, process and
  file I/O, and the command handlers
- `tests/` — tests of the library on concrete values

Similarity scores are floating-point and stay in `app/`; the library receives
their outcome as plain values (which points are within the clustering radius,
and which ranked candidates clear the relevance threshold).
