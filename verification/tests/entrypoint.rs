use kaspa_consensus_core::hashing::sighash::SigHashReusedValuesUnsync;
use kaspa_consensus_core::tx::PopulatedTransaction;
use kaspa_txscript::caches::Cache;
use kaspa_txscript::opcodes::codes::{Op1, Op2, OpDrop, OpRoll, OpTrue};
use kaspa_txscript::script_builder::ScriptBuilder;
use kaspa_txscript::{deserialize_i64, EngineFlags, TxScriptEngine};
use silverscript_lang::ast::{ConstantAst, ContractFieldAst, Expr, ParamAst, TypeBase, TypeRef};
use silverscript_lang::entrypoint::{emit_entrypoint_cleanup, entrypoint_stack_bindings, entrypoint_types};

fn int_type() -> TypeRef {
    TypeRef { base: TypeBase::Int, array_dims: Vec::new() }
}

fn run(script: Vec<u8>) -> Vec<i64> {
    let reused_values = SigHashReusedValuesUnsync::new();
    let sig_cache = Cache::new(16);
    let stacks = TxScriptEngine::<PopulatedTransaction, SigHashReusedValuesUnsync>::from_script(
        &script,
        &reused_values,
        &sig_cache,
        EngineFlags::default(),
    )
    .execute_and_return_stacks()
    .expect("script executes");
    stacks.dstack.iter().map(|entry| deserialize_i64(entry).expect("number")).collect()
}

#[test]
fn entrypoint_bindings_put_fields_above_parameters() {
    let params = vec![
        ParamAst { type_ref: int_type(), name: "a".to_string() },
        ParamAst { type_ref: int_type(), name: "b".to_string() },
        ParamAst { type_ref: int_type(), name: "c".to_string() },
    ];
    let fields = vec![ContractFieldAst { type_ref: int_type(), name: "f".to_string(), expr: Expr::int_literal(0) }];
    let bindings = entrypoint_stack_bindings(&params, &fields);
    assert_eq!(bindings.binding_order_top_to_bottom(), vec!["f", "c", "b", "a"]);
    assert_eq!(bindings.depth_from_top("a"), Some(3));
    assert_eq!(bindings.depth_from_top("f"), Some(0));
    assert_eq!(bindings.len(), 4);
}

#[test]
fn cleanup_without_returns_drops_every_binding_and_pushes_true() {
    let mut builder = ScriptBuilder::new();
    emit_entrypoint_cleanup(&mut builder, 2, 0).expect("cleanup");
    assert_eq!(builder.drain(), vec![OpDrop, OpDrop, OpTrue]);
}

#[test]
fn cleanup_with_returns_rolls_each_binding_from_under_them() {
    let mut builder = ScriptBuilder::new();
    emit_entrypoint_cleanup(&mut builder, 2, 1).expect("cleanup");
    assert_eq!(builder.drain(), vec![Op1, OpRoll, OpDrop, Op1, OpRoll, OpDrop]);
}

#[test]
fn cleanup_leaves_only_the_returned_values_on_the_engine_stack() {
    let mut cleanup = ScriptBuilder::new();
    emit_entrypoint_cleanup(&mut cleanup, 3, 2).expect("cleanup");
    let mut script = ScriptBuilder::new();
    for value in [30, 20, 10, 7, 8] {
        script.add_i64(value).expect("push");
    }
    script.add_ops(&cleanup.drain()).expect("append");
    assert_eq!(run(script.drain()), vec![7, 8]);

    let mut two = ScriptBuilder::new();
    emit_entrypoint_cleanup(&mut two, 1, 2).expect("cleanup");
    assert_eq!(two.drain(), vec![Op2, OpRoll, OpDrop]);
}

#[test]
fn entrypoint_scope_lets_function_params_and_then_fields_shadow_contract_names() {
    let scalar = |base: TypeBase| TypeRef { base, array_dims: Vec::new() };
    let contract_params = vec![ParamAst { type_ref: scalar(TypeBase::Int), name: "x".to_string() }];
    let constants = vec![ConstantAst { type_ref: scalar(TypeBase::Byte), name: "K".to_string(), expr: Expr::int_literal(1) }];
    let function_params = vec![
        ParamAst { type_ref: scalar(TypeBase::Bool), name: "x".to_string() },
        ParamAst { type_ref: scalar(TypeBase::Pubkey), name: "f".to_string() },
    ];
    let fields = vec![ContractFieldAst { type_ref: scalar(TypeBase::Int), name: "f".to_string(), expr: Expr::int_literal(0) }];
    let types = entrypoint_types(&contract_params, &constants, &function_params, &fields);
    assert!(matches!(types.get("x").unwrap().base, TypeBase::Bool));
    assert!(matches!(types.get("K").unwrap().base, TypeBase::Byte));
    assert!(matches!(types.get("f").unwrap().base, TypeBase::Int));
    assert!(types.get("missing").is_none());
}
