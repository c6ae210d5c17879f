use kaspa_txscript::opcodes::codes;
use silverscript_lang::opcodes;

#[test]
fn opcode_values_match_the_kaspa_script_language() {
    assert_eq!(opcodes::OP_0, codes::OpFalse);
    assert_eq!(opcodes::OP_1, codes::Op1);
    assert_eq!(opcodes::OP_2, codes::Op2);
    assert_eq!(opcodes::OP_16, codes::Op16);
    assert_eq!(opcodes::OP_TRUE, codes::OpTrue);
    assert_eq!(opcodes::OP_1_NEGATE, codes::Op1Negate);
    assert_eq!(opcodes::OP_DATA_1, codes::OpData1);
    assert_eq!(opcodes::OP_DATA_75, codes::OpData75);
    assert_eq!(opcodes::OP_PUSH_DATA_1, codes::OpPushData1);
    assert_eq!(opcodes::OP_PUSH_DATA_2, codes::OpPushData2);
    assert_eq!(opcodes::OP_PUSH_DATA_4, codes::OpPushData4);
    assert_eq!(opcodes::OP_VERIFY, codes::OpVerify);
    assert_eq!(opcodes::OP_TO_ALT_STACK, codes::OpToAltStack);
    assert_eq!(opcodes::OP_FROM_ALT_STACK, codes::OpFromAltStack);
    assert_eq!(opcodes::OP_2_ROT, codes::Op2Rot);
    assert_eq!(opcodes::OP_2_SWAP, codes::Op2Swap);
    assert_eq!(opcodes::OP_DROP, codes::OpDrop);
    assert_eq!(opcodes::OP_DUP, codes::OpDup);
    assert_eq!(opcodes::OP_PICK, codes::OpPick);
    assert_eq!(opcodes::OP_ROLL, codes::OpRoll);
    assert_eq!(opcodes::OP_ROT, codes::OpRot);
    assert_eq!(opcodes::OP_SWAP, codes::OpSwap);
    assert_eq!(opcodes::OP_CAT, codes::OpCat);
    assert_eq!(opcodes::OP_EQUAL, codes::OpEqual);
    assert_eq!(opcodes::OP_ADD, codes::OpAdd);
    assert_eq!(opcodes::OP_SUB, codes::OpSub);
    assert_eq!(opcodes::OP_BLAKE2B, codes::OpBlake2b);
}
