# cfront

A front end that translates C programs to circuits, for multi-party computation and for proofs.

Functions are translated where they are called, loops are unrolled, and a branch becomes a condition
on every assignment in it. What the front end covers is a subset of C: integers, truth values, arrays,
structures, type names, functions, conditionals and counting loops.

## Layout

- `src/` is the library. Every item of it is verified.
  - `front` is the entry: from the syntax tree of a program to its circuit.
  - `ast` is the syntax tree, `ast_utils` what is read off it alone, `number` its literals.
  - `gen` walks over the program. Its contracts say that each step does what `translate` says.
  - `translate` says what the translation of each construct is.
  - `circ` is the circuit under construction: variables, scopes, conditions, memory, inputs.
  - `cterm`, `types` and `ir` are C values, their types, and the terms of the circuit with their
    meaning.
  - `single` counts the rounds of a loop, in single precision.
  - `list` and `table` are containers, `error` says why a program is not translated.
  - `places` says what an assignment may change and when it is turned down.
  - `kept`, `steps`, `wellformed` and `laws` state and prove what holds of the translation as a whole.
- `app/` reads C files and hands them to the library.
- `tests/` runs the library; circuits are evaluated on concrete inputs.

## Errors

The library does not panic. A translation that stops gives an error: `Reject` where the program is
turned down with a message, `Fault` where it is outside what the front end handles. A program that
calls itself without end has no circuit: its translation ends with the memory of the machine.
