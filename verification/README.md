# MarkQL

Query Markdown documents with CSS-like selectors, with the library verified
by Verus.

A Markdown text is read into a syntax tree, a selector such as
`heading[level=2]`, `code_block[lang=python]`, `list > list_item`,
`blockquote emphasis`, `link[url*=github]` or `heading, code_block` is lexed and parsed, run
against the tree, and the matches are printed as JSON, Markdown, text, a
count or a tree.

## Layout

- `src/` — the verified library.
  - `text.rs`: character-level helpers (trimming, splitting, searching, decimal numbers).
  - `ast.rs`: the syntax tree `Node`, its model `SNode`, children, text content, attributes.
  - `lexer.rs`: the Markdown reader, block structure line by line and inline elements;
    `parse_md` states what it reads; every text reads as a document.
  - `query/mod.rs`: the query lexer and the selector parser.
  - `query/executor.rs`: running a selector against a tree (`exec_sel` states the matches).
  - `query/properties.rs`: what holds of every query result (placement, soundness and
    completeness of selectors and combinators, counts per kind, the level filter).
  - `document.rs`: what holds of every parsed document (the shape of its blocks, heading
    levels, plain text, code blocks read back from their Markdown).
  - `output.rs`, `json.rs`: the output formats; JSON text is written by `serde_json`.
  - `stats.rs`: node counts per kind and their ranking.
  - `display.rs`: texts shortened to a number of UTF-8 bytes for display.
- `tests/` — the tests of the library.
- `app/` — the command-line program (`query`, `ast`, `stats`, `types`, `demo`).
