use silverscript_lang::ast::{
    ConstantMap, ContractFieldAst, Expr, ExprKind, Span, StructBindingAst, StructFieldSpec, StructRegistry, StructSpec, TypeBase,
    TypeRef,
};
use silverscript_lang::error::CompilerError;
use silverscript_lang::state_layout::{
    read_input_state_field_expr, template_checks, templated_input_script_size_expr, TemplateChecks,
};
use silverscript_lang::state_reads::{read_input_state_definitions, read_input_state_with_template_definitions};

fn scalar(base: TypeBase) -> TypeRef {
    TypeRef { base, array_dims: Vec::new() }
}

fn field(name: &str, base: TypeBase) -> ContractFieldAst {
    ContractFieldAst { type_ref: scalar(base), name: name.to_string(), expr: Expr::int_literal(0) }
}

fn binding(field: &str, base: TypeBase, name: &str) -> StructBindingAst {
    StructBindingAst { field_name: field.to_string(), type_ref: scalar(base), name: name.to_string() }
}

fn ident(name: &str) -> Expr {
    Expr::new(ExprKind::Identifier(name.to_string()), Span::empty())
}

fn error(r: Result<Vec<(String, TypeRef, Expr)>, CompilerError>) -> String {
    match r {
        Err(CompilerError::Unsupported(m)) => m,
        Err(other) => panic!("unexpected {:?}", other),
        Ok(_) => panic!("expected an error"),
    }
}

#[test]
fn state_read_defines_each_binding_in_field_order() {
    let cs = ConstantMap { entries: Vec::new() };
    let fields = vec![field("count", TypeBase::Int), field("flag", TypeBase::Bool)];
    let bindings = vec![binding("flag", TypeBase::Bool, "f"), binding("count", TypeBase::Int, "c")];
    let defs = read_input_state_definitions(&bindings, &[ident("i")], &fields, 50, Some(120), &cs).expect("definitions");
    assert_eq!(defs.len(), 2);
    assert_eq!(defs[0].0, "c");
    assert_eq!(defs[1].0, "f");
    assert_eq!(defs[1].1.type_text(), "bool");
    let second = read_input_state_field_expr(
        &ident("i"),
        &scalar(TypeBase::Bool),
        Expr::int_literal(39),
        9,
        Expr::int_literal(120),
        &cs,
        "readInputState",
    )
    .expect("read");
    assert_eq!(format!("{:?}", defs[1].2), format!("{:?}", second));
}

#[test]
fn state_read_reports_each_error_kind() {
    let cs = ConstantMap { entries: Vec::new() };
    let fields = vec![field("count", TypeBase::Int)];
    let good = vec![binding("count", TypeBase::Int, "c")];
    let twice = vec![binding("count", TypeBase::Int, "c"), binding("count", TypeBase::Int, "d")];
    assert_eq!(error(read_input_state_definitions(&twice, &[ident("i")], &fields, 50, Some(1), &cs)), "duplicate state field 'count'");
    assert_eq!(error(read_input_state_definitions(&good, &[], &fields, 50, Some(1), &cs)), "readInputState(input_idx) expects 1 argument");
    assert_eq!(error(read_input_state_definitions(&good, &[ident("i")], &[], 50, Some(1), &cs)), "readInputState requires contract fields");
    assert_eq!(
        error(read_input_state_definitions(&good, &[ident("i")], &fields, 50, None, &cs)),
        "readInputState requires this.scriptSize"
    );
    assert_eq!(
        error(read_input_state_definitions(&good, &[ident("i")], &fields, 3, Some(1), &cs)),
        "readInputState state offset underflow"
    );
    let wrong = vec![binding("count", TypeBase::Bool, "c")];
    assert_eq!(error(read_input_state_definitions(&wrong, &[ident("i")], &fields, 50, Some(1), &cs)), "readInputState binding 'c' expects int");
    let missing = vec![binding("other", TypeBase::Int, "c")];
    assert_eq!(
        error(read_input_state_definitions(&missing, &[ident("i")], &fields, 50, Some(1), &cs)),
        "readInputState bindings must include all contract fields exactly once"
    );
}

fn point_registry() -> StructRegistry {
    StructRegistry {
        structs: vec![
            (
                "Point".to_string(),
                StructSpec {
                    fields: vec![
                        StructFieldSpec { name: "x".to_string(), type_ref: scalar(TypeBase::Int) },
                        StructFieldSpec { name: "y".to_string(), type_ref: scalar(TypeBase::Bool) },
                    ],
                },
            ),
            ("Text".to_string(), StructSpec { fields: vec![StructFieldSpec { name: "s".to_string(), type_ref: scalar(TypeBase::String) }] }),
        ],
    }
}

fn template_args() -> Vec<Expr> {
    vec![ident("i"), ident("pre"), ident("suf"), ident("hash")]
}

fn template_error(r: Result<(TemplateChecks, Vec<(String, TypeRef, Expr)>), CompilerError>) -> String {
    match r {
        Err(CompilerError::Unsupported(m)) => m,
        Err(other) => panic!("unexpected {:?}", other),
        Ok(_) => panic!("expected an error"),
    }
}

#[test]
fn template_state_read_checks_the_template_and_defines_each_field_after_the_prefix() {
    let cs = ConstantMap { entries: Vec::new() };
    let reg = point_registry();
    let layout = vec![scalar(TypeBase::Int), scalar(TypeBase::Bool)];
    let bindings = vec![binding("y", TypeBase::Bool, "b"), binding("x", TypeBase::Int, "a")];
    let (checks, defs) =
        read_input_state_with_template_definitions(None, &bindings, &template_args(), &reg, &layout, &cs).expect("definitions");
    let expected = template_checks(&template_args(), &layout, &cs).expect("checks");
    assert_eq!(format!("{:?}", checks.template), format!("{:?}", expected.template));
    assert_eq!(format!("{:?}", checks.expected_input_spk), format!("{:?}", expected.expected_input_spk));
    assert_eq!(defs.len(), 2);
    assert_eq!(defs[0].0, "a");
    assert_eq!(defs[1].0, "b");
    let size = templated_input_script_size_expr(&ident("pre"), &ident("suf"), &layout, &cs).expect("size");
    let second = read_input_state_field_expr(&ident("i"), &scalar(TypeBase::Bool), ident("pre"), 9, size, &cs, "readInputStateWithTemplate")
        .expect("read");
    assert_eq!(format!("{:?}", defs[1].2), format!("{:?}", second));
}

#[test]
fn template_state_read_reports_each_error_kind() {
    let cs = ConstantMap { entries: Vec::new() };
    let reg = point_registry();
    let layout = vec![scalar(TypeBase::Int), scalar(TypeBase::Bool)];
    let good = vec![binding("x", TypeBase::Int, "a"), binding("y", TypeBase::Bool, "b")];
    let args = template_args();
    let twice = vec![binding("x", TypeBase::Int, "a"), binding("x", TypeBase::Int, "b")];
    assert_eq!(
        template_error(read_input_state_with_template_definitions(None, &twice, &args, &reg, &layout, &cs)),
        "duplicate state field 'x'"
    );
    assert_eq!(
        template_error(read_input_state_with_template_definitions(None, &good, &args[..3], &reg, &layout, &cs)),
        "readInputStateWithTemplate(input_idx, template_prefix_len, template_suffix_len, expected_template_hash) expects 4 arguments"
    );
    assert_eq!(
        template_error(read_input_state_with_template_definitions(Some("Nope"), &good, &args, &reg, &layout, &cs)),
        "unknown struct 'Nope'"
    );
    let odd = vec![binding("x", TypeBase::Bool, "a"), binding("y", TypeBase::Bool, "b")];
    assert_eq!(
        template_error(read_input_state_with_template_definitions(None, &odd, &args, &reg, &layout, &cs)),
        "readInputStateWithTemplate bindings must match a declared struct layout"
    );
    let one = vec![binding("x", TypeBase::Int, "a")];
    assert_eq!(
        template_error(read_input_state_with_template_definitions(Some("Point"), &one, &args, &reg, &layout, &cs)),
        "readInputStateWithTemplate bindings must include all target fields exactly once"
    );
    assert_eq!(
        template_error(read_input_state_with_template_definitions(Some("Point"), &good, &args, &reg, &[], &cs)),
        "readInputStateWithTemplate requires a struct type"
    );
    let stray = vec![binding("x", TypeBase::Int, "a"), binding("z", TypeBase::Bool, "b")];
    assert_eq!(
        template_error(read_input_state_with_template_definitions(Some("Point"), &stray, &args, &reg, &layout, &cs)),
        "readInputStateWithTemplate bindings must include all target fields exactly once"
    );
    let text = vec![binding("s", TypeBase::String, "t")];
    assert_eq!(
        template_error(read_input_state_with_template_definitions(Some("Text"), &text, &args, &reg, &layout, &cs)),
        "readInputStateWithTemplate does not support field type string"
    );
}
