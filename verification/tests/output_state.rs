use silverscript_lang::ast::{BinaryOp, ConstantMap, ContractFieldAst, Expr, ExprKind, Span, TypeBase, TypeRef};
use silverscript_lang::error::CompilerError;
use silverscript_lang::output_state::{check_output_state_call_arity, validate_output_state_plan, validate_output_template_plan};

fn ident(name: &str) -> Expr {
    Expr::new(ExprKind::Identifier(name.to_string()), Span::empty())
}

fn field(name: &str, base: TypeBase) -> ContractFieldAst {
    ContractFieldAst { type_ref: TypeRef { base, array_dims: Vec::new() }, name: name.to_string(), expr: Expr::int_literal(0) }
}

fn error_text<T>(r: Result<T, CompilerError>) -> String {
    match r {
        Err(CompilerError::Unsupported(m)) => m,
        Err(other) => panic!("unexpected {:?}", other),
        Ok(_) => panic!("expected an error"),
    }
}

#[test]
fn output_state_plan_pairs_fields_with_arguments() {
    let cs = ConstantMap { entries: Vec::new() };
    let fields = vec![field("count", TypeBase::Int), field("flag", TypeBase::Bool)];
    let args = vec![ident("out"), ident("c"), ident("f")];
    let plan = validate_output_state_plan(&args, &fields, 40, Some(90), &cs).expect("plan");
    assert_eq!(format!("{:?}", plan.output_idx), format!("{:?}", ident("out")));
    assert_eq!(plan.state_fields.len(), 2);
    assert_eq!(plan.state_fields[1].name, "flag");
    assert_eq!(format!("{:?}", plan.state_fields[1].expr), format!("{:?}", ident("f")));
    assert_eq!(plan.state_start_offset, 29);
    assert_eq!(plan.script_size, 90);
}

#[test]
fn output_state_plan_reports_each_error_kind() {
    let cs = ConstantMap { entries: Vec::new() };
    let fields = vec![field("count", TypeBase::Int)];
    assert_eq!(
        error_text(validate_output_state_plan(&[ident("out")], &fields, 40, Some(90), &cs)),
        "__validateOutputStateInner(output_idx, ..state_fields) expects 1 state field argument(s)"
    );
    assert_eq!(error_text(validate_output_state_plan(&[ident("out")], &[], 40, Some(90), &cs)), "validateOutputState requires contract fields");
    assert_eq!(
        error_text(validate_output_state_plan(&[ident("out"), ident("c")], &fields, 5, Some(90), &cs)),
        "validateOutputState state offset underflow"
    );
    assert_eq!(
        error_text(validate_output_state_plan(&[ident("out"), ident("c")], &fields, 40, None, &cs)),
        "validateOutputState requires this.scriptSize"
    );
    let unsized_fields = vec![field("count", TypeBase::Int), field("note", TypeBase::String)];
    assert_eq!(
        error_text(validate_output_state_plan(&[ident("out"), ident("c"), ident("n")], &unsized_fields, 40, Some(90), &cs)),
        "validateOutputState does not support field type string"
    );
}

#[test]
fn output_template_plan_splits_the_arguments_and_builds_the_preimage() {
    let args = vec![ident("out"), ident("a"), ident("b"), ident("prefix"), ident("suffix"), ident("hash")];
    let plan = validate_output_template_plan(&args).expect("plan");
    assert_eq!(plan.state_fields.len(), 2);
    assert_eq!(format!("{:?}", plan.expected_template_hash), format!("{:?}", ident("hash")));
    let bytes8 = |e: Expr| Expr::call("bytes", vec![Expr::call("length", vec![e]), Expr::int_literal(8)]);
    let add = |a: Expr, b: Expr| silverscript_lang::ast::binary_expr(BinaryOp::Add, a, b);
    let expected = add(add(bytes8(ident("prefix")), ident("prefix")), add(bytes8(ident("suffix")), ident("suffix")));
    assert_eq!(format!("{:?}", plan.template_preimage), format!("{:?}", expected));
    assert!(error_text(validate_output_template_plan(&args[..4])).ends_with("expects at least 5 arguments"));
}

#[test]
fn output_state_calls_take_their_fixed_argument_counts() {
    assert!(check_output_state_call_arity("validateOutputState", &[ident("o"), ident("s")]).is_ok());
    assert_eq!(
        error_text(check_output_state_call_arity("validateOutputState", &[ident("o")])),
        "validateOutputState(output_idx, new_state) expects 2 arguments"
    );
    let five = vec![ident("o"), ident("s"), ident("p"), ident("x"), ident("h")];
    assert!(check_output_state_call_arity("validateOutputStateWithTemplate", &five).is_ok());
    assert_eq!(
        error_text(check_output_state_call_arity("validateOutputStateWithTemplate", &five[..4])),
        "validateOutputStateWithTemplate(output_idx, new_state, template_prefix, template_suffix, expected_template_hash) expects 5 arguments"
    );
}
