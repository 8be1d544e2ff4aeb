# hulk_compiler

Front-end pieces of a compiler for HULK, the teaching language of the University of
Havana, written in Verus: every function of the library carries a contract that Verus
proves.

## Layout

- `src/regex`: the regular-expression parser and its mathematical model (`RegexTree`).
- `src/nfa`: Thompson construction, joining automata, the simulator, renderings, and the
  proofs that the automaton built from a pattern accepts exactly the pattern's texts
  (`language.rs`, `run_paths.rs`, `tail.rs`, `anchored.rs`).
- `src/dfa`: subset construction, its relation to the joined automaton, and the proof that
  the resulting automaton recognises each token pattern's language (`tokens.rs`).
- `src/lexemes`, `src/lexer.rs`, `src/token_spec.rs`, `src/generator.rs`: token
  specifications and longest-match lexeme extraction, with the proof that each lexeme is the
  longest match with the best token (`lexemes/longest.rs`).
- `src/parser`: grammars, FIRST/FOLLOW sets, the LL(1) table and its CSV form, the
  predictive parser and its derivation trees; the conversion of a derivation tree into the
  program's syntax tree (`cst_to_ast.rs`, over the types of `syntax.rs`) and that tree as
  indented text (`ast_print.rs`).
- `src/typings`: the type hierarchy (ancestors, lowest common ancestor, method lookup,
  inheritance cycles).
- `src/semantic`: semantic error values, their messages and source excerpts, and the
  typing of a program's expressions with the errors it finds (`visitor.rs`).
- `app/main.rs`: the command-line program around the library (files, printing).
- `tests/`: tests on concrete values.
