//! Opcode values of the Kaspa script language that the compiler emits.
use vstd::prelude::*;

verus! {

pub const OP_0: u8 = 0x00;
pub const OP_DATA_1: u8 = 0x01;
pub const OP_DATA_75: u8 = 0x4b;
pub const OP_PUSH_DATA_1: u8 = 0x4c;
pub const OP_PUSH_DATA_2: u8 = 0x4d;
pub const OP_PUSH_DATA_4: u8 = 0x4e;
pub const OP_1_NEGATE: u8 = 0x4f;
pub const OP_1: u8 = 0x51;
pub const OP_2: u8 = 0x52;
pub const OP_16: u8 = 0x60;
pub const OP_TRUE: u8 = 0x51;
pub const OP_VERIFY: u8 = 0x69;
pub const OP_TO_ALT_STACK: u8 = 0x6b;
pub const OP_FROM_ALT_STACK: u8 = 0x6c;
pub const OP_2_ROT: u8 = 0x71;
pub const OP_2_SWAP: u8 = 0x72;
pub const OP_DROP: u8 = 0x75;
pub const OP_DUP: u8 = 0x76;
pub const OP_PICK: u8 = 0x79;
pub const OP_ROLL: u8 = 0x7a;
pub const OP_ROT: u8 = 0x7b;
pub const OP_SWAP: u8 = 0x7c;
pub const OP_CAT: u8 = 0x7e;
pub const OP_EQUAL: u8 = 0x87;
pub const OP_ADD: u8 = 0x93;
pub const OP_SUB: u8 = 0x94;
pub const OP_BLAKE2B: u8 = 0xaa;

} // verus!
