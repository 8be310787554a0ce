# ttparse

A front end for a small dependent type theory, written in Verus: a lexer and a
recursive-descent parser for the surface syntax (`λ`, application, `->`, `×`, `=`,
`𝒰 n`, signatures `x : T` and definitions `x :≡ e`), core terms with de Bruijn
indices (shifting, substitution, printing), and the commands of an interactive
prompt.

- `src/definitions.rs`: spans (byte offsets) and names.
- `src/parser/text.rs`: character classes, UTF-8 byte offsets, building strings.
- `src/parser/lexer.rs`: tokens, the token language as spec functions, the lexer.
- `src/parser/parser.rs`: what each step of the parser returns, as spec functions over
  the token list, and the parser.
- `src/parser/grammar.rs`: the grammar as derivations, and the proof that the parser
  returns exactly the trees it derives.
- `src/syntax/surface.rs`, `src/syntax/term.rs`: surface expressions and core terms.
- `src/repl.rs`: what the prompt does with a command line.
- `app/main.rs`: the prompt itself (line editing with `rustyline`).
