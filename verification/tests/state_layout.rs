use silverscript_lang::ast::{
    ArrayDim, BinaryOp, ConstantMap, ContractFieldAst, Expr, ExprKind, IntrospectionKind, NullaryOp, Span, StructBindingAst,
    StructFieldSpec, StructRegistry, StructSpec, TypeBase, TypeRef,
};
use silverscript_lang::error::CompilerError;
use silverscript_lang::state_layout::{
    byte_array_type, cast_read_input_state_expr, data_prefix, encoded_state_len, encoded_state_len_for_layout_field_types,
    encoded_type_chunk_size, fixed_plain_type_size, fixed_state_payload_len, input_script_pubkey_expr, read_input_state_field_expr,
    read_input_state_field_expr_symbolic, scalar_type, state_start_offset, struct_name_for_state_bindings, template_checks,
    templated_input_script_size_expr,
};

fn field(name: &str, type_ref: TypeRef) -> ContractFieldAst {
    ContractFieldAst { type_ref, name: name.to_string(), expr: Expr::int_literal(0) }
}

fn no_constants() -> ConstantMap {
    ConstantMap { entries: Vec::new() }
}

fn show(e: &Expr) -> String {
    format!("{:?}", e)
}

fn ident(name: &str) -> Expr {
    Expr::new(ExprKind::Identifier(name.to_string()), Span::empty())
}

fn add(a: Expr, b: Expr) -> Expr {
    silverscript_lang::ast::binary_expr(BinaryOp::Add, a, b)
}

fn sub(a: Expr, b: Expr) -> Expr {
    silverscript_lang::ast::binary_expr(BinaryOp::Sub, a, b)
}

fn unsupported(r: Result<usize, CompilerError>) -> String {
    match r {
        Err(CompilerError::Unsupported(m)) => m,
        other => panic!("expected an unsupported error, got {:?}", other),
    }
}

#[test]
fn data_prefix_uses_the_shortest_push() {
    assert_eq!(data_prefix(5), vec![5]);
    assert_eq!(data_prefix(75), vec![75]);
    assert_eq!(data_prefix(100), vec![0x4c, 100]);
    assert_eq!(data_prefix(300), vec![0x4d, 0x2c, 0x01]);
    assert_eq!(data_prefix(70000), vec![0x4e, 0x70, 0x11, 0x01, 0x00]);
}

#[test]
fn fixed_sizes_multiply_through_array_dimensions() {
    let cs = ConstantMap { entries: vec![("N".to_string(), Expr::int_literal(3))] };
    assert_eq!(fixed_plain_type_size(&scalar_type(TypeBase::Int), &cs), Some(8));
    assert_eq!(fixed_plain_type_size(&scalar_type(TypeBase::Pubkey), &cs), Some(32));
    assert_eq!(fixed_plain_type_size(&TypeRef { base: TypeBase::Sig, array_dims: vec![ArrayDim::Fixed(2)] }, &cs), Some(130));
    assert_eq!(
        fixed_plain_type_size(&TypeRef { base: TypeBase::Int, array_dims: vec![ArrayDim::Constant("N".to_string()), ArrayDim::Fixed(2)] }, &cs),
        Some(48)
    );
    assert_eq!(fixed_plain_type_size(&byte_array_type(ArrayDim::Dynamic), &cs), None);
    assert_eq!(fixed_plain_type_size(&scalar_type(TypeBase::String), &cs), None);
    assert_eq!(fixed_plain_type_size(&TypeRef { base: TypeBase::Int, array_dims: vec![ArrayDim::Constant("M".to_string())] }, &cs), None);
}

#[test]
fn encoded_state_adds_prefix_and_payload_of_each_field() {
    let cs = no_constants();
    let fields = vec![
        field("a", scalar_type(TypeBase::Int)),
        field("b", scalar_type(TypeBase::Bool)),
        field("c", byte_array_type(ArrayDim::Fixed(3))),
    ];
    assert_eq!(encoded_type_chunk_size(&scalar_type(TypeBase::Int), &cs).unwrap(), 9);
    assert_eq!(encoded_state_len(&fields, &cs).unwrap(), 15);
    let types: Vec<TypeRef> = fields.iter().map(|f| silverscript_lang::ast::clone_type(&f.type_ref)).collect();
    assert_eq!(encoded_state_len_for_layout_field_types(&types, &cs).unwrap(), 15);
    assert_eq!(state_start_offset(100, &fields, &cs).unwrap(), 85);
    assert_eq!(unsupported(state_start_offset(10, &fields, &cs)), "state offset underflow");
    let without_size = vec![field("s", scalar_type(TypeBase::String))];
    assert_eq!(unsupported(encoded_state_len(&without_size, &cs)), "readInputState does not support field type string");
    assert_eq!(unsupported(fixed_state_payload_len(&byte_array_type(ArrayDim::Dynamic), &cs)), "readInputState does not support field type byte[]");
}

#[test]
fn field_read_takes_the_payload_out_of_the_signature_script() {
    let cs = no_constants();
    let input = ident("i");
    let read = read_input_state_field_expr(&input, &scalar_type(TypeBase::Int), Expr::int_literal(40), 9, ident("size"), &cs, "readInputState")
        .expect("int field");
    let start = add(
        sub(Expr::call("OpTxInputScriptSigLen", vec![ident("i")]), ident("size")),
        add(Expr::int_literal(40), Expr::int_literal(10)),
    );
    let end = add(
        add(
            sub(Expr::call("OpTxInputScriptSigLen", vec![ident("i")]), ident("size")),
            add(Expr::int_literal(40), Expr::int_literal(10)),
        ),
        Expr::int_literal(8),
    );
    let expected = Expr::call("int", vec![Expr::call("OpTxInputScriptSigSubstr", vec![ident("i"), start, end])]);
    assert_eq!(show(&read), show(&expected));

    match read_input_state_field_expr(&input, &scalar_type(TypeBase::String), Expr::int_literal(0), 0, ident("size"), &cs, "readInputStateWithTemplate") {
        Err(CompilerError::Unsupported(m)) => assert_eq!(m, "readInputStateWithTemplate does not support field type string"),
        other => panic!("unexpected {:?}", other),
    }
}

#[test]
fn symbolic_field_read_starts_after_the_fields_and_uses_this_script_size() {
    let cs = no_constants();
    let fields = vec![field("a", scalar_type(TypeBase::Bool))];
    let read = read_input_state_field_expr_symbolic(&ident("i"), &fields[0], &fields, 12, 0, &cs).expect("bool field");
    let this_size = Expr::new(ExprKind::Nullary(NullaryOp::ThisScriptSize), Span::empty());
    let expected = read_input_state_field_expr(&ident("i"), &scalar_type(TypeBase::Bool), Expr::int_literal(10), 0, this_size, &cs, "readInputState")
        .expect("bool field");
    assert_eq!(show(&read), show(&expected));
}

#[test]
fn struct_fields_cannot_be_cast_from_state_bytes() {
    match cast_read_input_state_expr(ident("x"), &scalar_type(TypeBase::Custom("Pair".to_string()))) {
        Err(CompilerError::Unsupported(m)) => assert_eq!(m, "readInputState does not support field type Pair"),
        other => panic!("unexpected {:?}", other),
    }
    let cast = cast_read_input_state_expr(ident("x"), &byte_array_type(ArrayDim::Fixed(4))).expect("byte array");
    assert_eq!(show(&cast), show(&Expr::call("byte[4]", vec![ident("x")])));
}

#[test]
fn templated_script_size_adds_the_state_length_between_the_parts() {
    let cs = no_constants();
    let size = templated_input_script_size_expr(&ident("p"), &ident("s"), &[scalar_type(TypeBase::Int)], &cs).expect("sized");
    assert_eq!(show(&size), show(&add(add(ident("p"), Expr::int_literal(9)), ident("s"))));
}

#[test]
fn script_pubkey_of_an_input_is_an_introspection() {
    let e = input_script_pubkey_expr(&ident("i"));
    let expected = Expr::new(ExprKind::Introspection { kind: IntrospectionKind::InputScriptPubKey, index: Box::new(ident("i")) }, Span::empty());
    assert_eq!(show(&e), show(&expected));
}

#[test]
fn template_checks_compare_the_redeem_script_and_the_template() {
    let cs = no_constants();
    let args = vec![ident("i"), ident("p"), ident("s"), ident("h")];
    let checks = template_checks(&args, &[scalar_type(TypeBase::Bool)], &cs).expect("checks");
    assert_eq!(show(&checks.expected_template_hash), show(&ident("h")));
    assert_eq!(show(&checks.actual_input_spk), show(&input_script_pubkey_expr(&ident("i"))));
    match &checks.expected_input_spk.kind {
        ExprKind::New { name, args } => {
            assert_eq!(name, "ScriptPubKeyP2SHFromRedeemScript");
            assert_eq!(args.len(), 1);
        }
        other => panic!("unexpected {:?}", other),
    }
    match template_checks(&args[..3], &[scalar_type(TypeBase::Bool)], &cs) {
        Err(CompilerError::Unsupported(m)) => assert!(m.ends_with("expects 4 arguments")),
        other => panic!("unexpected {:?}", other.is_ok()),
    }
    match template_checks(&args, &[], &cs) {
        Err(CompilerError::Unsupported(m)) => assert_eq!(m, "readInputStateWithTemplate requires a struct type"),
        other => panic!("unexpected {:?}", other.is_ok()),
    }
}

#[test]
fn state_struct_is_found_by_exact_field_types() {
    let reg = StructRegistry {
        structs: vec![(
            "Blob".to_string(),
            StructSpec { fields: vec![StructFieldSpec { name: "data".to_string(), type_ref: byte_array_type(ArrayDim::Fixed(4)) }] },
        )],
    };
    let exact = vec![StructBindingAst { field_name: "data".to_string(), type_ref: byte_array_type(ArrayDim::Fixed(4)), name: "d".to_string() }];
    assert_eq!(struct_name_for_state_bindings(None, &exact, &reg).expect("exact"), "Blob");
    let other = vec![StructBindingAst { field_name: "data".to_string(), type_ref: byte_array_type(ArrayDim::Fixed(5)), name: "d".to_string() }];
    assert!(struct_name_for_state_bindings(None, &other, &reg).is_err());
}
