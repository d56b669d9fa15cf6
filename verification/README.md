# abap_parser

A parser for ABAP sources, written and proved in Verus. It turns a source into a
semantic tree of programs, classes, methods, subroutines, their signatures and
their statements.

- `src/` is the verified library. `parser::parse_abap` parses a source: with the
  ABAP grammar for tree-sitter where the grammar supports it, with the line
  scanner of `scanner` everywhere else.
- `src/*_laws.rs` hold what is proved of all sources. Of the scanner's tree:
  nothing of a source is lost, changes show, spans nest, comments only move what
  follows them, and the case of an ASCII source changes no structure. The order
  of the source is kept where its blocks end in turn. Identifiers are unique
  there wherever no line reuses the number of a method that was cut off by the
  end of its class. In the grammar's tree they are unique wherever no signature
  bears the identifier of the first child, and a root other than the program
  leaves the program's alone.
- `tests/` holds the tests.
- `app/` makes a plugin of the library: it hands the trees to the host as JSON.

The calls into `tree_sitter` and its ABAP grammar are in `syntax`, those
functions of the standard library that Verus does not know in `text`.
