use silverscript_lang::ast::{
    ArrayDim, ConstantMap, ContractAst, ContractFieldAst, Expr, ExprKind, FunctionAst, ParamAst, PragmaAst, Span, Statement,
    StructBindingAst, StructFieldSpec, StructRegistry, StructSpec, TypeBase, TypeRef,
};
use silverscript_lang::error::CompilerError;
use silverscript_lang::static_check::{
    ensure_array_elements_have_known_size, initial_function_types, insert_type_binding, pragma_requirement_outcome,
    statement_contains_return, struct_name_for_state_bindings, validate_function_signature, validate_pragma_versions,
    validate_state_function_call_assign, TypeMap,
};

fn scalar(base: TypeBase) -> TypeRef {
    TypeRef { base, array_dims: Vec::new() }
}

fn array(base: TypeBase, dims: Vec<ArrayDim>) -> TypeRef {
    TypeRef { base, array_dims: dims }
}

fn binding(field: &str, type_ref: TypeRef, name: &str) -> StructBindingAst {
    StructBindingAst { field_name: field.to_string(), type_ref, name: name.to_string() }
}

fn field(name: &str, type_ref: TypeRef) -> ContractFieldAst {
    ContractFieldAst { type_ref, name: name.to_string(), expr: Expr::int_literal(0) }
}

fn spec_field(name: &str, type_ref: TypeRef) -> StructFieldSpec {
    StructFieldSpec { name: name.to_string(), type_ref }
}

fn registry() -> StructRegistry {
    StructRegistry {
        structs: vec![
            ("Pair".to_string(), StructSpec { fields: vec![spec_field("a", scalar(TypeBase::Int)), spec_field("b", scalar(TypeBase::Bool))] }),
            ("Single".to_string(), StructSpec { fields: vec![spec_field("x", scalar(TypeBase::Byte))] }),
            ("Outer".to_string(), StructSpec { fields: vec![spec_field("p", scalar(TypeBase::Custom("Pair".to_string())))] }),
        ],
    }
}

fn no_constants() -> ConstantMap {
    ConstantMap { entries: Vec::new() }
}

fn message(r: Result<(), CompilerError>) -> String {
    match r {
        Err(CompilerError::Unsupported(m)) => m,
        other => panic!("expected an unsupported error, got {:?}", other),
    }
}

fn args(n: usize) -> Vec<Expr> {
    (0..n).map(|i| Expr::int_literal(i as i64)).collect()
}

#[test]
fn read_input_state_assignment_accepts_bindings_of_every_contract_field() {
    let fields = vec![field("count", scalar(TypeBase::Int)), field("flag", scalar(TypeBase::Bool))];
    let bindings = vec![binding("flag", scalar(TypeBase::Bool), "f"), binding("count", scalar(TypeBase::Int), "c")];
    let r = validate_state_function_call_assign(None, &bindings, "readInputState", &args(1), &registry(), &no_constants(), &fields);
    assert!(r.is_ok());
}

#[test]
fn read_input_state_assignment_reports_each_error_kind() {
    let fields = vec![field("count", scalar(TypeBase::Int))];
    let good = vec![binding("count", scalar(TypeBase::Int), "c")];
    let reg = registry();
    let cs = no_constants();
    assert_eq!(
        message(validate_state_function_call_assign(None, &good, "readInputState", &args(2), &reg, &cs, &fields)),
        "readInputState(input_idx) expects 1 argument"
    );
    assert_eq!(
        message(validate_state_function_call_assign(None, &good, "readInputState", &args(1), &reg, &cs, &[])),
        "readInputState requires contract fields"
    );
    let wrong_name = vec![binding("other", scalar(TypeBase::Int), "c")];
    assert_eq!(
        message(validate_state_function_call_assign(None, &wrong_name, "readInputState", &args(1), &reg, &cs, &fields)),
        "readInputState bindings must include all contract fields exactly once"
    );
    let wrong_type = vec![binding("count", scalar(TypeBase::Bool), "c")];
    assert_eq!(
        message(validate_state_function_call_assign(None, &wrong_type, "readInputState", &args(1), &reg, &cs, &fields)),
        "readInputState binding 'c' expects int"
    );
}

#[test]
fn other_calls_are_not_checked_as_state_reads() {
    let r = validate_state_function_call_assign(None, &[], "somethingElse", &args(0), &registry(), &no_constants(), &[]);
    assert!(r.is_ok());
}

#[test]
fn template_state_assignment_finds_the_struct_and_checks_its_fields() {
    let reg = registry();
    let cs = no_constants();
    let pair = vec![binding("a", scalar(TypeBase::Int), "x"), binding("b", scalar(TypeBase::Bool), "y")];
    assert!(validate_state_function_call_assign(None, &pair, "readInputStateWithTemplate", &args(4), &reg, &cs, &[]).is_ok());
    assert_eq!(
        message(validate_state_function_call_assign(None, &pair, "readInputStateWithTemplate", &args(3), &reg, &cs, &[])),
        "readInputStateWithTemplate(input_idx, template_prefix_len, template_suffix_len, expected_template_hash) expects 4 arguments"
    );
    let nested = vec![binding("p", scalar(TypeBase::Custom("Pair".to_string())), "q")];
    assert_eq!(
        message(validate_state_function_call_assign(Some("Outer"), &nested, "readInputStateWithTemplate", &args(4), &reg, &cs, &[])),
        "readInputStateWithTemplate does not support nested struct fields in destructuring"
    );
    let wrong_type = vec![binding("x", scalar(TypeBase::Int), "v")];
    assert_eq!(
        message(validate_state_function_call_assign(Some("Single"), &wrong_type, "readInputStateWithTemplate", &args(4), &reg, &cs, &[])),
        "readInputStateWithTemplate binding 'v' expects byte"
    );
}

#[test]
fn state_binding_struct_is_named_or_inferred() {
    let reg = registry();
    let cs = no_constants();
    let single = vec![binding("x", scalar(TypeBase::Byte), "v")];
    assert_eq!(struct_name_for_state_bindings(None, &single, &reg, &cs).expect("one match"), "Single");
    assert_eq!(struct_name_for_state_bindings(Some("Pair"), &single, &reg, &cs).expect("named"), "Pair");
    match struct_name_for_state_bindings(Some("Missing"), &single, &reg, &cs) {
        Err(CompilerError::Unsupported(m)) => assert_eq!(m, "unknown struct 'Missing'"),
        other => panic!("unexpected {:?}", other),
    }
    match struct_name_for_state_bindings(None, &[binding("zz", scalar(TypeBase::Int), "v")], &reg, &cs) {
        Err(CompilerError::Unsupported(m)) => assert_eq!(m, "readInputStateWithTemplate bindings must match a declared struct layout"),
        other => panic!("unexpected {:?}", other),
    }
}

#[test]
fn state_binding_struct_inference_rejects_ambiguous_layouts() {
    let reg = StructRegistry {
        structs: vec![
            ("A".to_string(), StructSpec { fields: vec![spec_field("x", scalar(TypeBase::Int))] }),
            ("B".to_string(), StructSpec { fields: vec![spec_field("x", scalar(TypeBase::Int))] }),
        ],
    };
    match struct_name_for_state_bindings(None, &[binding("x", scalar(TypeBase::Int), "v")], &reg, &no_constants()) {
        Err(CompilerError::Unsupported(m)) => assert_eq!(
            m,
            "readInputStateWithTemplate bindings match multiple struct layouts; assign into an explicitly typed struct first"
        ),
        other => panic!("unexpected {:?}", other),
    }
}

#[test]
fn state_binding_types_match_through_constant_array_lengths() {
    let reg = StructRegistry {
        structs: vec![("Blob".to_string(), StructSpec { fields: vec![spec_field("data", array(TypeBase::Byte, vec![ArrayDim::Fixed(4)]))] })],
    };
    let cs = ConstantMap { entries: vec![("SIZE".to_string(), Expr::int_literal(4))] };
    let bindings = vec![binding("data", array(TypeBase::Byte, vec![ArrayDim::Constant("SIZE".to_string())]), "d")];
    assert_eq!(struct_name_for_state_bindings(None, &bindings, &reg, &cs).expect("resolved match"), "Blob");
}

#[test]
fn array_elements_need_a_fixed_size() {
    let reg = registry();
    let cs = no_constants();
    assert!(ensure_array_elements_have_known_size(&array(TypeBase::Int, vec![ArrayDim::Dynamic]), &reg, &cs, "int[]").is_ok());
    assert!(ensure_array_elements_have_known_size(&scalar(TypeBase::String), &reg, &cs, "string").is_ok());
    assert!(ensure_array_elements_have_known_size(
        &array(TypeBase::Custom("Outer".to_string()), vec![ArrayDim::Fixed(2)]),
        &reg,
        &cs,
        "Outer[2]"
    )
    .is_ok());
    assert_eq!(
        message(ensure_array_elements_have_known_size(&array(TypeBase::String, vec![ArrayDim::Fixed(2)]), &reg, &cs, "string[2]")),
        "array element type must have known size: string[2]"
    );
    assert_eq!(
        message(ensure_array_elements_have_known_size(
            &array(TypeBase::Int, vec![ArrayDim::Dynamic, ArrayDim::Fixed(3)]),
            &reg,
            &cs,
            "int[][3]"
        )),
        "array element type must have known size: int[][3]"
    );
}

#[test]
fn return_is_found_in_nested_branches() {
    let ret = Statement::Return { exprs: vec![Expr::int_literal(1)], span: Span::empty() };
    let nested = Statement::If {
        condition: Expr::new(ExprKind::Bool(true), Span::empty()),
        then_branch: vec![],
        else_branch: Some(vec![Statement::Block { body: vec![ret], span: Span::empty() }]),
        span: Span::empty(),
    };
    assert!(statement_contains_return(&nested));
    let plain = Statement::Require { expr: Expr::new(ExprKind::Bool(true), Span::empty()), message: None, span: Span::empty() };
    assert!(!statement_contains_return(&plain));
}

#[test]
fn function_parameters_shadow_contract_names() {
    let contract = ContractAst {
        name: "C".to_string(),
        params: vec![ParamAst { type_ref: scalar(TypeBase::Int), name: "x".to_string() }],
        fields: vec![field("y", scalar(TypeBase::Bool))],
        constants: Vec::new(),
        functions: Vec::new(),
        pragma: None,
    };
    let function = FunctionAst {
        name: "f".to_string(),
        params: vec![ParamAst { type_ref: scalar(TypeBase::Byte), name: "x".to_string() }],
        return_types: Vec::new(),
        body: Vec::new(),
        entrypoint: false,
    };
    let types = initial_function_types(&contract, &function).expect("types");
    assert_eq!(types.get("x").map(|t| t.type_text()), Some("byte".to_string()));
    assert_eq!(types.get("y").map(|t| t.type_text()), Some("bool".to_string()));
    assert!(types.get("z").is_none());

    let mut more = TypeMap::new();
    insert_type_binding(&mut more, "z", &scalar(TypeBase::Int));
    insert_type_binding(&mut more, "z", &scalar(TypeBase::Sig));
    assert_eq!(more.get("z").map(|t| t.type_text()), Some("sig".to_string()));
}

fn contract_with_pragma(name: &str, value: &str) -> ContractAst {
    ContractAst {
        name: "C".to_string(),
        params: Vec::new(),
        fields: Vec::new(),
        constants: Vec::new(),
        functions: Vec::new(),
        pragma: Some(PragmaAst { name: name.to_string(), value: value.to_string() }),
    }
}

#[test]
fn pragma_requirement_is_checked_against_the_compiler_version() {
    assert!(validate_pragma_versions(&contract_with_pragma("silverscript", "^0.1")).is_ok());
    assert!(validate_pragma_versions(&ContractAst { pragma: None, ..contract_with_pragma("x", "y") }).is_ok());
    assert_eq!(message(validate_pragma_versions(&contract_with_pragma("other", "^0.1"))), "unknown pragma 'other'");
    let invalid = message(validate_pragma_versions(&contract_with_pragma("silverscript", "not a version")));
    assert!(invalid.starts_with("invalid SilverScript version requirement 'not a version': "));
    assert_eq!(
        message(validate_pragma_versions(&contract_with_pragma("silverscript", ">=9.0.0"))),
        "SilverScript compiler version 0.1.0 does not satisfy pragma >=9.0.0"
    );
    assert!(pragma_requirement_outcome("^0.1", true).is_ok());
}

fn function_with(body: Vec<Statement>, return_types: Vec<TypeRef>, entrypoint: bool) -> FunctionAst {
    FunctionAst { name: "f".to_string(), params: Vec::new(), return_types, body, entrypoint }
}

fn ret() -> Statement {
    Statement::Return { exprs: vec![Expr::int_literal(1)], span: Span::empty() }
}

fn require_true() -> Statement {
    Statement::Require { expr: Expr::new(ExprKind::Bool(true), Span::empty()), message: None, span: Span::empty() }
}

#[test]
fn function_signature_checks_return_placement() {
    let reg = registry();
    let cs = no_constants();
    assert!(validate_function_signature(&function_with(vec![require_true(), ret()], vec![scalar(TypeBase::Int)], false), &reg, &cs, false).is_ok());
    assert_eq!(
        message(validate_function_signature(&function_with(vec![ret(), require_true()], vec![scalar(TypeBase::Int)], false), &reg, &cs, false)),
        "return statement must be the last statement"
    );
    assert_eq!(
        message(validate_function_signature(&function_with(vec![ret(), ret()], vec![scalar(TypeBase::Int)], false), &reg, &cs, false)),
        "return statement must be the last statement"
    );
    assert_eq!(
        message(validate_function_signature(&function_with(vec![ret()], vec![], false), &reg, &cs, false)),
        "return requires function return types"
    );
    assert_eq!(
        message(validate_function_signature(&function_with(vec![ret()], vec![scalar(TypeBase::Int)], true), &reg, &cs, false)),
        "entrypoint return requires allow_entrypoint_return=true"
    );
    assert!(validate_function_signature(&function_with(vec![ret()], vec![scalar(TypeBase::Int)], true), &reg, &cs, true).is_ok());
    let mut with_param = function_with(vec![], vec![], false);
    with_param.params.push(ParamAst { type_ref: array(TypeBase::String, vec![ArrayDim::Fixed(2)]), name: "p".to_string() });
    assert_eq!(
        message(validate_function_signature(&with_param, &reg, &cs, false)),
        "array element type must have known size: string[2]"
    );
}
