# scheme_interp

A small Scheme front end, written in Verus.

- `src/scan.rs`: character classes and token rules shared by both readers
  (whitespace, comments, where symbols and numbers end, which number texts
  are valid), and the errors on which reading stops.
- `src/read.rs`: a reader into `ScmObj` cons-cell trees (`'e` is `(quote e)`).
- `src/parse.rs`: a reader into `Expr` trees whose lists are vectors
  (`'e` is `(quote e)`, `(a . b)` is an improper list).
- `src/common.rs`: the data of an abstract machine: expressions, states,
  persistent environments (over `im::HashMap`), the store, values and
  continuations, each with a mathematical model.
- `src/eval.rs`: the objects the reader builds, and the machine's initial
  state and store.
- `app/main.rs`: a command-line front end that reads a file or a prompt and
  prints what was read.

Each reader is specified by a function on character sequences
(`read_expr_result`, `parse_expr_result`); `Parser::read_expr` requires text
on which reading does not stop, and `Parser::try_read_expr` reports the
`ReadError` where it does.
