# mix

Mix is a small expression language for configuration: functions with
destructuring patterns and optional types, `let … in`, conditionals,
attribute sets with dotted and computed names, lists, and the pipe operators
`|>` and `<|`.

This crate is the front end of the language, written in Verus and verified:

- `lex` — the lexer. `Lexer::next_tok` is specified exactly: which token is
  read at each position and the byte range it covers.
- `parse` — a recursive-descent parser with error recovery. Parsing succeeds
  exactly when no error was reported, and then the tokens of the source spell
  the tree that comes out, by the grammar written as relations in
  `parse::grammar` (precedence climbing included). Parsing is also proved to
  succeed on every source whose tokens are operands (names, strings,
  integers, groups in parentheses, conditionals, `let` bindings of names,
  functions of a name, applications, `-` and `!` signs) joined by binary
  operators, where names bound by a function or a `let` may carry a type
  (names, list, tuple and set types, `|` and `->`)
  (`parse::grammar::operand_chain`).
- `mir` — lowering to the MIR. Parentheses and pipes disappear, statically
  named attributes of a set are merged into one tree, and names defined or
  bound twice, and `let` bindings that bind no name, are reported; a lowering
  that reports no error leaves every `let` binding named. The relation
  between the tree that is parsed and
  the one that is lowered, and the reports, are stated in `mir::lowering`.
- `formatter` — the pretty printer. Its output is specified as text for every
  expression and every set of options.
- `compiler` — compiling the MIR to bytecode. The code emitted for each
  expression is specified exactly, compiling only ever adds to a program,
  and no jump leaves the code of the expression it was emitted for.
- `bytecode` — programs, a code builder that lays out jumps, and listings
  with jump lanes that never overlap.
- `report` — diagnostics, their grouping by file, and undoing them.

`app/` is the `mix` command line: reading files, drawing reports with
`annotate-snippets`, compiling (and, with `--dump-bytecode`, listing the
instructions), and the `fmt` command. `tests/` runs the library on
examples.
