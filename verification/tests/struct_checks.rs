use silverscript_lang::ast::{
    ArrayDim, ConstantAst, ConstantMap, ContractAst, ContractFieldAst, Expr, ParamAst, StructBindingAst, StructFieldSpec,
    StructRegistry, StructSpec, TypeBase, TypeRef,
};
use silverscript_lang::error::CompilerError;
use silverscript_lang::struct_checks::{
    ensure_known_or_builtin_type, validate_contract_struct_usage, validate_struct_destructure_bindings,
};

fn scalar(base: TypeBase) -> TypeRef {
    TypeRef { base, array_dims: Vec::new() }
}

fn custom(name: &str) -> TypeRef {
    scalar(TypeBase::Custom(name.to_string()))
}

fn binding(field: &str, type_ref: TypeRef, name: &str) -> StructBindingAst {
    StructBindingAst { field_name: field.to_string(), type_ref, name: name.to_string() }
}

fn spec_field(name: &str, type_ref: TypeRef) -> StructFieldSpec {
    StructFieldSpec { name: name.to_string(), type_ref }
}

fn registry() -> StructRegistry {
    StructRegistry {
        structs: vec![
            ("Pair".to_string(), StructSpec { fields: vec![spec_field("a", scalar(TypeBase::Int)), spec_field("b", scalar(TypeBase::Bool))] }),
            ("Outer".to_string(), StructSpec { fields: vec![spec_field("p", custom("Pair")), spec_field("n", scalar(TypeBase::Int))] }),
        ],
    }
}

fn no_constants() -> ConstantMap {
    ConstantMap { entries: Vec::new() }
}

fn message(r: Result<(), CompilerError>) -> String {
    match r {
        Err(CompilerError::Unsupported(m)) => m,
        other => panic!("expected an unsupported error, got {:?}", other),
    }
}

fn contract(params: Vec<TypeRef>, fields: Vec<TypeRef>, constants: Vec<TypeRef>) -> ContractAst {
    ContractAst {
        name: "C".to_string(),
        params: params.into_iter().enumerate().map(|(i, t)| ParamAst { type_ref: t, name: format!("p{i}") }).collect(),
        fields: fields
            .into_iter()
            .enumerate()
            .map(|(i, t)| ContractFieldAst { type_ref: t, name: format!("f{i}"), expr: Expr::int_literal(0) })
            .collect(),
        constants: constants
            .into_iter()
            .enumerate()
            .map(|(i, t)| ConstantAst { type_ref: t, name: format!("c{i}"), expr: Expr::int_literal(0) })
            .collect(),
        functions: Vec::new(),
        pragma: None,
    }
}

#[test]
fn builtin_and_declared_types_are_known() {
    let reg = registry();
    assert!(ensure_known_or_builtin_type(&scalar(TypeBase::Pubkey), &reg, "constant").is_ok());
    assert!(ensure_known_or_builtin_type(&custom("Pair"), &reg, "constant").is_ok());
    let arr = TypeRef { base: TypeBase::Custom("Pair".to_string()), array_dims: vec![ArrayDim::Fixed(2)] };
    assert!(ensure_known_or_builtin_type(&arr, &reg, "constant").is_ok());
    assert_eq!(
        message(ensure_known_or_builtin_type(&custom("Missing"), &reg, "contract field")),
        "unknown type 'Missing' in contract field"
    );
}

#[test]
fn contract_struct_usage_reports_the_first_undeclared_type_by_place() {
    let reg = registry();
    assert!(validate_contract_struct_usage(&contract(vec![custom("Pair")], vec![scalar(TypeBase::Int)], vec![custom("Outer")]), &reg).is_ok());
    assert_eq!(
        message(validate_contract_struct_usage(&contract(vec![custom("A")], vec![custom("B")], vec![]), &reg)),
        "unknown type 'A' in contract parameter"
    );
    assert_eq!(
        message(validate_contract_struct_usage(&contract(vec![], vec![custom("Pair"), custom("B")], vec![custom("C")]), &reg)),
        "unknown type 'B' in contract field"
    );
    assert_eq!(
        message(validate_contract_struct_usage(&contract(vec![], vec![], vec![custom("C")]), &reg)),
        "unknown type 'C' in constant"
    );
}

#[test]
fn struct_destructuring_accepts_each_field_bound_once_in_any_order() {
    let bindings = vec![binding("b", scalar(TypeBase::Bool), "y"), binding("a", scalar(TypeBase::Int), "x")];
    assert!(validate_struct_destructure_bindings(&bindings, &custom("Pair"), false, &registry(), &no_constants()).is_ok());
}

#[test]
fn struct_destructuring_reports_each_error() {
    let reg = registry();
    let cs = no_constants();
    let good = vec![binding("a", scalar(TypeBase::Int), "x"), binding("b", scalar(TypeBase::Bool), "y")];
    assert_eq!(
        message(validate_struct_destructure_bindings(&good, &scalar(TypeBase::Int), false, &reg, &cs)),
        "struct destructuring requires a struct value"
    );
    assert_eq!(
        message(validate_struct_destructure_bindings(&good, &custom("Missing"), false, &reg, &cs)),
        "struct destructuring requires a struct value"
    );
    let unknown = vec![binding("a", custom("Nope"), "x"), binding("b", scalar(TypeBase::Bool), "y")];
    assert_eq!(
        message(validate_struct_destructure_bindings(&unknown, &custom("Pair"), false, &reg, &cs)),
        "unknown type 'Nope' in struct destructuring"
    );
    let dup_field = vec![binding("a", scalar(TypeBase::Int), "x"), binding("a", scalar(TypeBase::Int), "y")];
    assert_eq!(
        message(validate_struct_destructure_bindings(&dup_field, &custom("Pair"), false, &reg, &cs)),
        "duplicate struct field 'a'"
    );
    let dup_name = vec![binding("a", scalar(TypeBase::Int), "x"), binding("b", scalar(TypeBase::Bool), "x")];
    assert_eq!(
        message(validate_struct_destructure_bindings(&dup_name, &custom("Pair"), false, &reg, &cs)),
        "duplicate binding name 'x'"
    );
    let short = vec![binding("a", scalar(TypeBase::Int), "x")];
    assert_eq!(
        message(validate_struct_destructure_bindings(&short, &custom("Pair"), false, &reg, &cs)),
        "struct destructuring must bind all fields exactly once"
    );
    let stray = vec![binding("a", scalar(TypeBase::Int), "x"), binding("c", scalar(TypeBase::Bool), "y")];
    assert_eq!(
        message(validate_struct_destructure_bindings(&stray, &custom("Pair"), false, &reg, &cs)),
        "struct destructuring must bind all fields exactly once"
    );
    let wrong_type = vec![binding("a", scalar(TypeBase::Bool), "x"), binding("b", scalar(TypeBase::Bool), "y")];
    assert_eq!(
        message(validate_struct_destructure_bindings(&wrong_type, &custom("Pair"), false, &reg, &cs)),
        "struct field 'a' expects int"
    );
}

#[test]
fn nested_struct_fields_are_refused_only_when_read_directly() {
    let reg = registry();
    let cs = no_constants();
    let bindings = vec![binding("p", custom("Pair"), "inner"), binding("n", scalar(TypeBase::Int), "k")];
    assert!(validate_struct_destructure_bindings(&bindings, &custom("Outer"), false, &reg, &cs).is_ok());
    assert_eq!(
        message(validate_struct_destructure_bindings(&bindings, &custom("Outer"), true, &reg, &cs)),
        "readInputState does not support nested struct fields"
    );
}
