# miniml

A small ML-like language with integers, booleans, first-class functions,
`let fun` and mutually recursive `let rec`, and the tools to run it:

- `src/syntax/`: identifiers, types and expressions; the tokenizer and
  recursive-descent parser (`parser.rs`), specified by the grammar in
  `grammar.rs`; the printed form of types and expressions (`show.rs`).
- `src/typecheck.rs` and `src/context.rs`: the type checker and its stack of
  bindings.
- `src/ir.rs`: the translation into an intermediate representation without
  `let`, where identifiers become numbers.
- `src/compile.rs`: the compiler to code for the abstract machine.
- `src/machine/` and `src/machine.rs`: the machine, its step semantics, and
  the collector of unreachable environments: it keeps exactly the captured
  environments that the machine can reach, and is proved not to change what
  a run computes.
- `src/safety.rs`: type safety. Code is typed as a transformer of the types
  on the value stack; the compiled code of a well-typed expression without
  `let rec` is so typed, and a typing of the whole machine state is kept by
  every step, so that such a program ends in a value of its type, a division
  by zero, an arithmetic overflow or the step limit.
- `src/recursion.rs`: what the translation of `let rec` does on the
  machine: its dispatcher, called with a function's tag, returns that
  function's closure, and inside a function of the group the name of another
  one, when called, enters that function with the argument bound.
- `app/`: the command-line front end (a read-eval-print loop, or a file to
  run).

Every function of the library is verified with Verus against a contract that
states its result in terms of the specification functions next to it.
