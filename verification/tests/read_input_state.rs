use silverscript_lang::ast::{
    ContractAst, Expr, ExprKind, FunctionAst, ParamAst, Span, Statement, TypeBase, TypeRef,
};
use silverscript_lang::read_input_state::lower_read_input_state_calls;

fn ident(name: &str) -> Expr {
    Expr::new(ExprKind::Identifier(name.to_string()), Span::empty())
}

fn int_type() -> TypeRef {
    TypeRef { base: TypeBase::Int, array_dims: Vec::new() }
}

fn state_type() -> TypeRef {
    TypeRef { base: TypeBase::Custom("State".to_string()), array_dims: Vec::new() }
}

fn contract_with_body(body: Vec<Statement>) -> ContractAst {
    ContractAst {
        name: "C".to_string(),
        params: vec![ParamAst { type_ref: int_type(), name: "owner".to_string() }],
        fields: Vec::new(),
        constants: Vec::new(),
        functions: vec![FunctionAst {
            name: "spend".to_string(),
            params: vec![ParamAst { type_ref: int_type(), name: "inputIndex".to_string() }],
            return_types: Vec::new(),
            body,
            entrypoint: true,
        }],
        pragma: None,
    }
}

fn read_state(arg: &str) -> Expr {
    Expr::call("readInputState", vec![ident(arg)])
}

fn check_state_call(arg: Expr) -> Statement {
    Statement::FunctionCall {
        name: "checkState".to_string(),
        args: vec![Expr::int_literal(1), arg, Expr::new(ExprKind::Bool(true), Span::empty())],
        span: Span::empty(),
    }
}

fn temp_definition(name: &str, value: Expr) -> Statement {
    Statement::VariableDefinition {
        type_ref: state_type(),
        modifiers: Vec::new(),
        name: name.to_string(),
        expr: Some(value),
        span: Span::empty(),
    }
}

#[test]
fn lowering_lifts_read_input_state_call_argument_into_local() {
    let contract = contract_with_body(vec![check_state_call(read_state("inputIndex"))]);
    let lowered = lower_read_input_state_calls(&contract).expect("lowering succeeds");

    let expected = vec![
        temp_definition("__read_input_state_0", read_state("inputIndex")),
        check_state_call(ident("__read_input_state_0")),
    ];
    assert_eq!(format!("{:?}", lowered.functions[0].body), format!("{:?}", expected));
}

#[test]
fn lowering_skips_temporary_names_already_in_use() {
    let taken = Statement::VariableDefinition {
        type_ref: int_type(),
        modifiers: Vec::new(),
        name: "__read_input_state_0".to_string(),
        expr: Some(Expr::int_literal(7)),
        span: Span::empty(),
    };
    let contract = contract_with_body(vec![taken, check_state_call(read_state("inputIndex"))]);
    let lowered = lower_read_input_state_calls(&contract).expect("lowering succeeds");

    let body = &lowered.functions[0].body;
    assert_eq!(body.len(), 3);
    match &body[1] {
        Statement::VariableDefinition { name, .. } => assert_eq!(name, "__read_input_state_1"),
        other => panic!("unexpected statement {:?}", other),
    }
}

#[test]
fn lowering_numbers_temporaries_in_order_and_lifts_nested_reads_first() {
    let nested = Expr::call("readInputState", vec![Expr::call("readInputState", vec![ident("inputIndex")])]);
    let contract = contract_with_body(vec![check_state_call(nested), check_state_call(read_state("inputIndex"))]);
    let lowered = lower_read_input_state_calls(&contract).expect("lowering succeeds");

    let expected = vec![
        temp_definition("__read_input_state_0", read_state("inputIndex")),
        temp_definition("__read_input_state_1", Expr::call("readInputState", vec![ident("__read_input_state_0")])),
        check_state_call(ident("__read_input_state_1")),
        temp_definition("__read_input_state_2", read_state("inputIndex")),
        check_state_call(ident("__read_input_state_2")),
    ];
    assert_eq!(format!("{:?}", lowered.functions[0].body), format!("{:?}", expected));
}

#[test]
fn lowering_keeps_bodies_without_state_read_arguments() {
    let require = Statement::Require { expr: read_state("inputIndex"), message: None, span: Span::empty() };
    let contract = contract_with_body(vec![require]);
    let before = format!("{:?}", contract.functions[0].body);
    let lowered = lower_read_input_state_calls(&contract).expect("lowering succeeds");

    assert_eq!(format!("{:?}", lowered.functions[0].body), before);
    assert_eq!(lowered.params.len(), 1);
    assert_eq!(lowered.functions[0].name, "spend");
}

#[test]
fn lowering_keeps_definitions_inside_nested_blocks() {
    let inner = check_state_call(read_state("inputIndex"));
    let block = Statement::Block { body: vec![inner], span: Span::empty() };
    let contract = contract_with_body(vec![block]);
    let lowered = lower_read_input_state_calls(&contract).expect("lowering succeeds");

    let body = &lowered.functions[0].body;
    assert_eq!(body.len(), 1);
    match &body[0] {
        Statement::Block { body, .. } => assert_eq!(body.len(), 2),
        other => panic!("unexpected statement {:?}", other),
    }
}
