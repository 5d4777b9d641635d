# simple_interpreter

An interpreter for a small LOOP language, written in Verus: the lexer, the
parser (with its name resolution) and the interpreter are verified against
mathematical models of what they compute.

The language:

    PROGRAM     -> STATEMENT*
    STATEMENT   -> let IDENT ("=" EXPRESSION)? SEP
                 | IDENT "=" EXPRESSION SEP
                 | LOOP IDENT DO STATEMENT* END
                 | print IDENT SEP
                 | SEP
    EXPRESSION  -> TERM (("+" | "-") TERM)*     evaluated left to right, "-" saturating at 0
    TERM        -> NUMBER | IDENT
    SEP         -> ";" | newline

Variables hold unsigned integers and are declared with `let` before use; a
loop runs its body as many times as its variable held when the loop was
entered. Input is ASCII only.

Layout:

- `src/lexer`: bytes to tokens (`lex_ascii`), specified by `lex_spec`.
- `src/sem_parser`: tokens to a program (`parse`), specified by the
  recursive descent grammar in `grammar.rs`; `totality.rs` shows that the
  parser never gets stuck on what the lexer produced, `scoping.rs` that
  every variable of a parsed program is declared before it is used.
- `src/interpreter`: the frame machine (`Interpreter`, `exec_with_output`),
  shown to agree with the statement semantics in `semantics.rs`.
- `src/error.rs`: errors and their messages.
- `src/pipeline.rs`: what holds of lexing, parsing and running together.
- `app/main.rs`: the command line tool (`simple_interpreter -p file`).
