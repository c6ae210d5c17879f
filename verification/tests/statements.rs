use silverscript_lang::ast::{ArrayDim, Expr, ExprKind, Span, SplitPart, TypeBase, TypeRef};
use silverscript_lang::error::CompilerError;
use kaspa_txscript::opcodes::codes::{Op1, OpDrop, OpRoll};
use kaspa_txscript::script_builder::ScriptBuilder;
use silverscript_lang::stack_bindings::StackBindings;
use silverscript_lang::statements::{
    assign_statement_type, check_new_stack_variable, close_block_scope, check_state_function_call_assign_name, compile_console_statement,
    compile_function_call_assign_statement, function_call_statement_target, tuple_assignment_parts,
    variable_definition_initializer, InnerValidation,
};
use silverscript_lang::static_check::{insert_type_binding, TypeMap};

fn unsupported<T: std::fmt::Debug>(r: Result<T, CompilerError>) -> String {
    match r {
        Err(CompilerError::Unsupported(m)) => m,
        other => panic!("expected an unsupported error, got {:?}", other),
    }
}

fn ident(name: &str) -> Expr {
    Expr::new(ExprKind::Identifier(name.to_string()), Span::empty())
}

#[test]
fn tuple_assignment_takes_both_halves_of_a_split() {
    let split = Expr::new(
        ExprKind::Split { source: Box::new(ident("data")), index: Box::new(Expr::int_literal(2)), part: SplitPart::Left },
        Span { start: 3, end: 9 },
    );
    let (left, right) = tuple_assignment_parts(&split).expect("split");
    let expected_right = Expr::new(
        ExprKind::Split { source: Box::new(ident("data")), index: Box::new(Expr::int_literal(2)), part: SplitPart::Right },
        Span::empty(),
    );
    assert_eq!(format!("{:?}", right), format!("{:?}", expected_right));
    match left.kind {
        ExprKind::Split { part, .. } => assert_eq!(part, SplitPart::Left),
        other => panic!("unexpected {:?}", other),
    }
    match tuple_assignment_parts(&ident("x")) {
        Err(CompilerError::Unsupported(m)) => assert_eq!(m, "tuple assignment only supports split()"),
        other => panic!("unexpected {:?}", other.is_ok()),
    }
}

#[test]
fn console_compiles_to_nothing_and_call_assignments_must_be_inlined() {
    assert!(compile_console_statement().expect("console").is_empty());
    match compile_function_call_assign_statement("helper") {
        Err(CompilerError::Unsupported(m)) => {
            assert_eq!(m, "inline lowering must eliminate function call assignments before compilation, found 'helper()'")
        }
        other => panic!("unexpected {:?}", other.is_ok()),
    }
}

#[test]
fn variable_definition_starts_from_its_initializer_or_an_empty_array() {
    let int_type = TypeRef { base: TypeBase::Int, array_dims: Vec::new() };
    let bytes_type = TypeRef { base: TypeBase::Byte, array_dims: vec![ArrayDim::Dynamic] };
    let init = Expr::new(ExprKind::Identifier("x".to_string()), Span { start: 1, end: 2 });
    let r = variable_definition_initializer(&int_type, Some(&init)).expect("initializer");
    assert_eq!(format!("{:?}", r), format!("{:?}", init));
    let r = variable_definition_initializer(&bytes_type, None).expect("empty array");
    assert_eq!(format!("{:?}", r), format!("{:?}", Expr::new(ExprKind::Array(Vec::new()), Span::empty())));
    assert_eq!(unsupported(variable_definition_initializer(&int_type, None)), "variable definition requires initializer");
}

#[test]
fn stack_variables_and_assignments_respect_existing_bindings() {
    let stack = StackBindings::from_depths(vec![("a".to_string(), 0)]);
    assert!(check_new_stack_variable(&stack, "b").is_ok());
    assert_eq!(unsupported(check_new_stack_variable(&stack, "a")), "variable 'a' is already defined");

    let mut types = TypeMap::new();
    insert_type_binding(&mut types, "a", &TypeRef { base: TypeBase::Int, array_dims: Vec::new() });
    insert_type_binding(&mut types, "c", &TypeRef { base: TypeBase::Bool, array_dims: Vec::new() });
    let t = assign_statement_type(&types, &stack, "a").expect("bound");
    assert!(matches!(t.base, TypeBase::Int));
    assert_eq!(
        unsupported(assign_statement_type(&types, &stack, "c")),
        "assigned variable 'c' must be stack-bound before reassignment"
    );
    match assign_statement_type(&types, &stack, "zz") {
        Err(CompilerError::UndefinedIdentifier(n)) => assert_eq!(n, "zz"),
        other => panic!("unexpected {:?}", other),
    }
}

#[test]
fn function_call_statements_dispatch_to_inner_validations() {
    assert_eq!(function_call_statement_target("__validateOutputStateInner").unwrap(), InnerValidation::OutputState);
    assert_eq!(
        function_call_statement_target("__validateOutputStateWithTemplateInner").unwrap(),
        InnerValidation::OutputStateWithTemplate
    );
    assert_eq!(
        unsupported(function_call_statement_target("helper")),
        "inline lowering must eliminate internal function calls before compilation, found 'helper()'"
    );
    assert!(check_state_function_call_assign_name("readInputState").is_ok());
    assert!(check_state_function_call_assign_name("readInputStateWithTemplate").is_ok());
    assert_eq!(
        unsupported(check_state_function_call_assign_name("other")),
        "state destructuring assignment is only supported for readInputState()/readInputStateWithTemplate(), got 'other()'"
    );
}

#[test]
fn closing_a_block_drops_its_locals_from_stack_and_scope() {
    let int_type = TypeRef { base: TypeBase::Int, array_dims: Vec::new() };
    let mut stack = StackBindings::from_depths(vec![("a".to_string(), 0), ("b".to_string(), 1), ("c".to_string(), 2)]);
    let mut types = TypeMap::new();
    for name in ["a", "b", "c"] {
        insert_type_binding(&mut types, name, &int_type);
    }
    let mut builder = ScriptBuilder::new();
    close_block_scope(&mut stack, &mut types, &vec!["a".to_string(), "c".to_string()], &mut builder).expect("close");
    assert_eq!(builder.drain(), vec![OpDrop, Op1, OpRoll, OpDrop]);
    assert_eq!(stack.depth_from_top("b"), Some(0));
    assert!(!stack.contains("a") && !stack.contains("c"));
    assert!(types.get("a").is_none() && types.get("c").is_none());
    assert!(types.get("b").is_some());

    let mut empty = ScriptBuilder::new();
    close_block_scope(&mut stack, &mut types, &Vec::new(), &mut empty).expect("nothing to close");
    assert!(empty.drain().is_empty());
    assert_eq!(stack.depth_from_top("b"), Some(0));
}

#[test]
fn removing_a_name_takes_every_earlier_type_of_it_out_of_scope() {
    let mut types = TypeMap::new();
    insert_type_binding(&mut types, "x", &TypeRef { base: TypeBase::Int, array_dims: Vec::new() });
    insert_type_binding(&mut types, "y", &TypeRef { base: TypeBase::Bool, array_dims: Vec::new() });
    insert_type_binding(&mut types, "x", &TypeRef { base: TypeBase::Byte, array_dims: Vec::new() });
    types.remove("x");
    assert!(types.get("x").is_none());
    assert!(matches!(types.get("y").unwrap().base, TypeBase::Bool));
}
