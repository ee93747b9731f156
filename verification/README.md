# spelunk

Definition-level chunking of TypeScript/TSX repositories, the first stage of a
hybrid code search engine: the source files worth indexing are selected, and
each file is split into retrieval chunks (functions, methods, classes,
interfaces, enums, type aliases) plus module chunks for the code between
definitions.

The library in `src/` is written in Verus and verified:

- `lines` — the line index of a text and the exact text of a line span.
- `chunk` — the chunk type, window splitting of long spans, chunking of a
  source string or a file's bytes, signature and embedding text.
- `assemble` — nesting of captured definitions, class splitting, module
  chunks for uncovered lines, and the final order by span.
- `sitter` — the tree-sitter calls, each giving its result together with
  what it is (the language of a grammar or parser, the tree a node sits in
  and where), and the names for what tree-sitter computes.
- `syntax` — the rules that turn each match of a language's chunk query
  into a definition (export wrapper, doc comments, lines), and their order.
- `language` — the language registry and extension lookup.
- `walk` — selection and ordering of the files a repository walk found.
- `text`, `error` — whitespace and string helpers, the error type.

The contracts state what each function returns over mathematical models
(`Seq`, `int`). What tree-sitter computes (whether it accepts a grammar,
whether a query compiles, the matches of a query and the kinds, byte ranges
and positions of nodes) is a function of the grammar, the query text and
the source text; the library names these results and states its own
results exactly in terms of them: a file's chunks are those assembled from
the definitions its chunk query captures, with export wrappers and attached
doc comments, and chunking fails exactly when the grammar or the query is
rejected. The proof functions state the laws of chunking: chunks are
truthful line spans of their file, sorted by span; every top-level
definition becomes a chunk; no uncovered non-blank line is lost; long spans
split into consecutive windows that rejoin to the original text.

`app/` is the command line (`spelunk index [--print-chunks] [--json]`): it
walks the repository with `ignore`, reads files in parallel with `rayon`, and
prints the library's results.
