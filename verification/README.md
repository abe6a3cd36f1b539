# cdc

A compiler from a small subset of C to x86-64 assembly (AT&T syntax), verified
with Verus.

A program is one function, `int main() { ... }`, over `int` locals, with
`return`, declarations (`int x;`, `int x = e;`), `if`/`else`, `while`, blocks,
assignment, `+ - * /`, comparisons and unary `-`/`+`. The output is a
stack-machine translation that keeps every local in a fixed 4096-byte frame.

## Layout

- `src/text.rs`: character classes, decimal text of integers, decimal parsing.
- `src/token.rs`, `src/lexer.rs`: tokens and the lexer, with `lex`, the
  lexing of a whole source as a spec function.
- `src/ast.rs`, `src/parser.rs`: the syntax tree and the recursive-descent
  parser, with the grammar as spec functions.
- `src/codegen.rs`: the code generator, with the translation as spec functions.
- `src/compiler.rs`: `compile_source`, whose contract is `compile`, the three
  stages composed.
- `src/laws.rs`: properties across functions (locals, labels, tokens, frames).
- `src/lex_laws.rs`: properties of every token sequence the lexer produces
  (where each token stands, their order, the shape of their text, comments,
  the names of token kinds).
- `src/expr_code.rs`: an expression's code read as stack instructions, and the
  law that it pushes exactly one value.
- `tests/`: tests on concrete programs.
- `app/main.rs`: the command-line driver (`cdc <input.c> [-o <output.s>]`).
