# array_decl_parser

A verified parser for array declarations in a Pascal-like notation:

```text
var x, y: array [1..10, 0..n] of integer;
```

The library (`src/`) is written in Verus. Its parts:

- `token`, `text`: tokens and the text helpers used to build messages;
- `lexer`: the lexer over a byte string, with its step function `lex_next`
  as a specification;
- `grammar`: the grammar as a table of productions, what parsing a token
  stream yields (`parse_nt`, `parse_bytes`), and the proofs that parse trees
  follow the grammar and record the input's identifiers and numbers;
- `language`: the proof that the parser accepts exactly the declarations
  `var id {, id} : array [ range {, range} ] of id ;`;
- `parser`: the recursive-descent parser, proved to yield what the
  specification says, for every input;
- `node`: parse trees and their rendering as a DOT graph;
- `parse_error`: errors and their messages.

`app/main.rs` reads standard input, parses it and writes the tree as DOT to
standard output.
