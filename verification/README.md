# css_autoprefixer

A CSS autoprefixer whose logic is verified with Verus. CSS text goes through
three stages:

- `src/lexer.rs`: text to tokens. `lex_from` states the tokens of a text, one
  `lex_step` at a time; `Lexer::tokenize` is proved to return exactly them.
- `src/parser.rs`: tokens to a tree of rules, at-rules, declarations and
  comments. `parse_spec` and the functions it calls state the tree (or the
  error) and the position reached; `Parser::to_ast` is proved to match.
- `src/generator.rs`: tree to CSS text, with `-webkit-` / `-moz-` copies of the
  declarations listed in `prefixes_for`; `Generator::generate` is proved to
  print `gen_nodes`.

`src/autoprefix.rs` joins the stages, `src/cli.rs` holds the argument check of
the program, and `src/text.rs` the character classes and string helpers.

`app/main.rs` is the command-line program: it reads the input file, calls the
library, writes the prefixed CSS, and optionally writes the tree as JSON.
