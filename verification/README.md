# silverscript-lang (verified core)

The parts of the SilverScript compiler that decide, rather than only emit,
written in Verus with their contracts proved:

- `stack_order`, `stack_machine`, `stack_bindings`, `stack_laws`: the model of
  named values on the Kaspa script stack, the opcode plans that rebind, copy,
  drop and reorder them, and proofs that those plans, run on the library's
  own model of the opcodes' stack effects (`run_step`), do what the model
  says; tests check that model against the real script engine; `dense_layout`: pushes, rebindings and drops keep
  the depths `0..n-1` and the order of the bindings that stay.
- `entrypoint`: the bindings and types an entrypoint starts with and the steps that
  clear the stack at its end.
- `read_input_state`: lifting `readInputState(...)` call arguments into
  `State` locals, with proofs that none is left and that bodies without one
  stay as they were; `lowering_names`: the names the lowering takes are
  fresh temporaries, one per state read lifted.
- `state_layout`, `state_reads`: the byte layout of encoded state and the
  expressions that read a field of another input's state, with or without
  a template.
- `static_check`, `struct_checks`, `statements`: checks and decisions that
  need no type inference: state destructuring, struct destructuring, the
  types a contract declares, function signatures, the pragma, block scopes.
- `state_decoder_recording`: the state-decoder metadata.
- `template`: the canonical template hash, with the proof that its preimage
  binds the boundary between prefix and suffix.

`ast` holds the syntax tree the compiler core reads, `script` the view of
`kaspa_txscript`'s script builder, `opcodes` the opcode values.
