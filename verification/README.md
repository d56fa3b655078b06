# sigcheck

Infers the signature of stack-machine code: how many values the code takes from the stack and how
many it leaves there. The code is run on virtual stacks of which only the heights and a few values
are known. How far down the run reaches gives the arguments; where it ends gives the outputs.

- `src/` is the library, verified with Verus.
  - `check.rs` holds the entry points (`instrs_signature` and its relatives) and the virtual
    environment that they run code in.
  - `model.rs` says what each instruction does to the stacks, and what a run is.
  - `instr.rs`, `value.rs`, `signature.rs` and `error.rs` hold the types.
  - `number.rs` reads repeat counts off binary64 bit patterns; `text.rs` writes decimals.
  - `laws/` holds what is proved of all code: what every instruction keeps, how effects and pieces
    of code add up, and what a signature says of the code.
- `app/` converts the values and errors of an interpreter that uses floating point and the traits
  of the standard library.
- `tests/` runs the library.
