# rex_core

Core of the Rex tools, verified with Verus: the syntax of Rex (a compact
expression language that extends JSON), its formatter, its type model and
domain declarations, the runtime value encoding and heap, and the text
logic behind the editor integration. The functions in `src/` carry
`requires`/`ensures` contracts over mathematical models (`Seq`, `Map`,
`int`) and are proved free of panics and overflow. The lexer's tokens are
specified exactly (`lex_v`), and so is the parser's tree: `src/grammar.rs`
states the grammar as spec functions that give the outline of the tree
(`parse_v`), and the parser is proved to build exactly that tree. Contracts
over the tree (declarations read from `.rexd`, definitions, renaming) speak
of the parser's tree. `src/layout.rs` states the formatter's layout rules
the same way (`format_v`: spacing, indentation, line breaks), and the
formatter is proved to write exactly that text.

## Layout

- `src/text.rs`, `src/position.rs`, `src/cursor.rs` — characters, UTF-8
  widths, lines and columns, cursor positions and the words around them.
- `src/syntax.rs`, `src/lexer.rs`, `src/grammar.rs`, `src/parser.rs`,
  `src/ast.rs` — tokens, the grammar and the lossless syntax tree: the tree
  holds every character of the source, in order.
- `src/format.rs`, `src/layout.rs`, `src/markdown.rs` — the formatter, its
  layout rules, and the formatting of Rex blocks in markdown.
- `src/json.rs`, `src/report.rs` — JSON output of decoded values, and the
  report of diagnostics of a checked file.
- `src/types.rs`, `src/env.rs`, `src/rexd.rs` — the type model, the domain
  schema and the scoped environment, and reading `.rexd` declarations.
- `src/value.rs`, `src/heap.rs`, `src/rexc.rs`, `src/reader.rs`, `src/literal.rs`,
  `src/interpret.rs` — tagged runtime values, the heap, the compact encoding,
  string literals, a cursor over encoded bytecode, runtime errors and the
  built-in methods.
- `src/editor.rs`, `src/hover.rs`, `src/completion.rs`, `src/definition.rs`,
  `src/locals.rs`, `src/rename.rs`, `src/semantic.rs`, `src/suggest.rs`,
  `src/color.rs` — type rendering, hovers (also at a position of a
  document), completions, go-to-definition of declarations, local variables,
  keys of object types and object properties, renaming, semantic
  highlighting, suggestions and terminal colors.
- `app/` — the `rex` command line (files, terminal, arguments).
- `tests/` — tests of the library on concrete inputs.

Laws that relate several operations (interning, object and array updates,
scopes, value encodings, base64, offsets and positions, type assignability) are
public proof functions named `law_*`.
