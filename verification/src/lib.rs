//! Verified core of the SilverScript compiler: the stack-binding model that
//! turns named locals into Kaspa script stack operations, the stack an
//! entrypoint starts from and the steps that clear it, the recorder of
//! state-decoder metadata, the lowering of `readInputState(...)` call
//! arguments, the byte layout of encoded contract state and the expressions
//! that read it back, the static checks that need no type inference, and the
//! canonical template hash.
#![allow(non_snake_case)]

pub mod ast;
pub mod opcodes;
pub mod script;
pub mod error;
pub mod stack_order;
pub mod stack_machine;
pub mod stack_bindings;
pub mod stack_laws;
pub mod dense_layout;
pub mod state_decoder_recording;
pub mod state_layout;
pub mod read_input_state;
pub mod lowering_names;
pub mod static_check;
pub mod template;
pub mod state_reads;
pub mod entrypoint;
pub mod statements;
pub mod output_state;
pub mod struct_checks;
