//! The script builder of `kaspa_txscript`, seen through what it holds: the
//! bytes of the script built so far.
use vstd::prelude::*;
use kaspa_txscript::script_builder::{ScriptBuilder, ScriptBuilderError};
use crate::opcodes::OP_0;

verus! {

/// The largest script, in bytes, that the builder accepts
/// (`kaspa_txscript::MAX_SCRIPTS_SIZE`).
pub const MAX_SCRIPTS_SIZE: usize = 1_000_000;

#[verifier::external_type_specification]
#[verifier::external_body]
pub struct ExScriptBuilder(ScriptBuilder);

#[verifier::external_type_specification]
#[verifier::external_body]
pub struct ExScriptBuilderError(ScriptBuilderError);

/// The bytes of the script that a builder holds.
pub uninterp spec fn builder_script(builder: ScriptBuilder) -> Seq<u8>;

/// Little-endian bytes of a magnitude, least significant first, with no
/// trailing zero byte.
pub open spec fn magnitude_le_bytes(m: nat) -> Seq<u8>
    decreases m,
{
    if m == 0 {
        seq![]
    } else {
        seq![(m % 256) as u8] + magnitude_le_bytes(m / 256)
    }
}

/// The minimal sign-magnitude little-endian encoding of a script number:
/// the magnitude's bytes, one zero byte more where the top byte has its high
/// bit set, and the high bit of the last byte set for a negative number.
pub open spec fn script_num_bytes(v: int) -> Seq<u8> {
    let mag = magnitude_le_bytes(if v < 0 { (-v) as nat } else { v as nat });
    let padded = if mag.len() > 0 && mag.last() >= 0x80 { mag.push(0) } else { mag };
    if v < 0 {
        padded.update(padded.len() - 1, (padded.last() + 0x80) as u8)
    } else {
        padded
    }
}

/// What pushing an integer appends to a script: `OP_0` for zero, one of
/// `OP_1NEGATE`, `OP_1`..`OP_16` for -1 and 1..=16, and otherwise a data
/// push of the number's minimal encoding (at most eight bytes, so its length
/// is its own push opcode).
pub open spec fn i64_push_bytes(v: i64) -> Seq<u8> {
    if v == 0 {
        seq![OP_0]
    } else if v == -1 || (1 <= v && v <= 16) {
        seq![(0x50 + v) as u8]
    } else {
        seq![script_num_bytes(v as int).len() as u8] + script_num_bytes(v as int)
    }
}

/// `ScriptBuilder::add_op`: appends the opcode byte unless the script already
/// holds `MAX_SCRIPTS_SIZE` bytes, in which case it fails and leaves the
/// script as it was.
#[verifier::external_body]
pub(crate) fn builder_add_op(builder: &mut ScriptBuilder, opcode: u8) -> (r: Result<(), ScriptBuilderError>)
    ensures
        r is Ok <==> builder_script(*old(builder)).len() + 1 <= MAX_SCRIPTS_SIZE,
        r is Ok ==> builder_script(*final(builder)) == builder_script(*old(builder)).push(opcode),
        r is Err ==> builder_script(*final(builder)) == builder_script(*old(builder)),
{
    match builder.add_op(opcode) {
        Ok(_) => Ok(()),
        Err(e) => Err(e),
    }
}

/// `ScriptBuilder::add_i64`: appends `i64_push_bytes(value)`. It fails, and
/// leaves the script as it was, when the script would grow past
/// `MAX_SCRIPTS_SIZE` bytes or when the value is `i64::MIN`, whose encoding
/// takes nine bytes.
#[verifier::external_body]
pub(crate) fn builder_add_i64(builder: &mut ScriptBuilder, value: i64) -> (r: Result<(), ScriptBuilderError>)
    ensures
        r is Ok <==> (builder_script(*old(builder)).len() + i64_push_bytes(value).len() <= MAX_SCRIPTS_SIZE
            && value != i64::MIN),
        r is Ok ==> builder_script(*final(builder)) == builder_script(*old(builder)) + i64_push_bytes(value),
        r is Err ==> builder_script(*final(builder)) == builder_script(*old(builder)),
{
    match builder.add_i64(value) {
        Ok(_) => Ok(()),
        Err(e) => Err(e),
    }
}

} // verus!
