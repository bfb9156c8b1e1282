# regex

A regular expression engine that matches by Brzozowski derivatives, written in Verus.

Supported syntax: literals, `.`, concatenation, `|`, `*`, `+`, `?`, `{m}`, `{m,}`, `{m,n}`,
groups `(...)`, classes `[abc]`, `[^abc]`, `[a-z]`, anchors `^` and `$`, and the shorthands
`\d`, `\w`, `\s`. A match always spans the whole input; `^` matches only before the first
character and `$` only after the last.

Layout of `src/`:

- `lexer.rs`: the tokens, the token grammar over characters, and the lexer.
- `grammar.rs`: the grammar over tokens, as functions of a position, with the facts that
  the parser's positions only move forward, that repetition bounds come out in order and
  what a class comes to.
- `parser.rs`: the parse tree (`Node`) and the recursive-descent parser, proved to follow
  `grammar.rs`.
- `model.rs`: the mathematical value of a tree (`Re`) and the derivative, nullability and
  simplification that the matcher computes, each told whether it stands at the start or
  the end of the input.
- `language.rs`: the language of a tree, and the proofs that the derivative, nullability
  and the matcher agree with it.
- `derivative.rs`: the matcher.
- `regex.rs`: `Regex`, which lexes, parses and matches.
- `error.rs`: the error types.

`app/` holds the program and the error types with their messages.
