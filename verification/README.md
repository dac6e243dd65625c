# gluten

A small embeddable Lisp, verified with Verus.

- `src/` is the library. Its reader turns text into forms through a read
  table; its interpreter evaluates forms in chained environments with the
  special operators `quote`, `if`, `let`, `do`, `lambda` and `set`, expands
  macros (`defmacro`, `quasiquote`), and calls back into the embedding program
  for native functions and macros through the `Host` trait. Each function is
  proved against a mathematical model: `reader.rs` holds the grammar as spec
  functions, `semantics.rs` the evaluator as a function from state and form to
  result, and `laws.rs` the properties that hold across operations.
- `tests/` runs the library on concrete inputs.
- `app/` is a read–eval–print loop over standard input with a handful of
  native functions.
