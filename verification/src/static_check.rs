//! Static checks of a contract that need no type inference: the shape of
//! state destructuring assignments, the sizes of array elements, where
//! `return` may stand, the names a function body starts with, and the
//! compiler-version pragma.
use vstd::prelude::*;
use semver::{Version, VersionReq};
use crate::ast::{
    bases_same, binding_view, bindings_view, clone_type, constants_view, dim_view, dims_same, lemma_statements_view,
    statements_view, type_name_of, ArrayDim, ArrayDimV, ConstantAst, ConstantMap, ContractAst, ContractFieldAst, Expr,
    FunctionAst, ParamAst, Statement, StatementV, StructBindingAst, StructBindingV, StructRegistry, TypeBase, TypeBaseV,
    TypeRef, TypeRefV,
};
use crate::error::CompilerError;
use crate::state_layout::{
    binding_for, dim_len, dim_length, find_binding, layout_matches, matching_struct_names, registry_contains,
    registry_lookup, registry_view, registry_wf, state_struct_name, struct_fields_view,
};

verus! {

/// Two array dimensions have the same length: the lengths they fix, where
/// both fix one, or else the same dimension.
pub open spec fn dims_equal_s(x: ArrayDimV, y: ArrayDimV, cs: Seq<(Seq<char>, crate::ast::ExprV)>) -> bool {
    match (dim_len(x, cs), dim_len(y, cs)) {
        (Some(n), Some(m)) => n == m,
        _ => x == y,
    }
}

/// Two types are equal once constant array lengths are resolved.
pub open spec fn types_equal_s(a: TypeRefV, b: TypeRefV, cs: Seq<(Seq<char>, crate::ast::ExprV)>) -> bool {
    &&& a.base == b.base
    &&& a.array_dims.len() == b.array_dims.len()
    &&& forall|i: int| 0 <= i < a.array_dims.len() ==> dims_equal_s(#[trigger] a.array_dims[i], b.array_dims[i], cs)
}

/// The type is a declared struct, not an array of one.
pub open spec fn is_struct_s(t: TypeRefV, reg: Seq<(Seq<char>, Seq<(Seq<char>, TypeRefV)>)>) -> bool {
    &&& t.array_dims.len() == 0
    &&& (t.base matches TypeBaseV::Custom(n) && registry_lookup(reg, n) is Some)
}

/// Whether two array dimensions have the same length.
fn dims_equal(x: &ArrayDim, y: &ArrayDim, constants: &ConstantMap) -> (r: bool)
    ensures
        r == dims_equal_s(dim_view(*x), dim_view(*y), constants_view(*constants)),
{
    match (dim_length(x, constants), dim_length(y, constants)) {
        (Some(n), Some(m)) => n == m,
        _ => dims_same(x, y),
    }
}

/// Whether two types are equal once constant array lengths are resolved.
pub(crate) fn type_refs_equal(a: &TypeRef, b: &TypeRef, constants: &ConstantMap) -> (r: bool)
    ensures
        r == types_equal_s(a@, b@, constants_view(*constants)),
{
    if !bases_same(a, b) {
        return false;
    }
    if a.array_dims.len() != b.array_dims.len() {
        return false;
    }
    let mut i: usize = 0;
    while i < a.array_dims.len()
        invariant
            i <= a.array_dims@.len(),
            a.array_dims@.len() == b.array_dims@.len(),
            a@.base == b@.base,
            forall|j: int| 0 <= j < i ==> dims_equal_s(#[trigger] a@.array_dims[j], b@.array_dims[j], constants_view(*constants)),
        decreases a.array_dims@.len() - i,
    {
        assert(a@.array_dims[i as int] == dim_view(a.array_dims@[i as int]));
        assert(b@.array_dims[i as int] == dim_view(b.array_dims@[i as int]));
        if !dims_equal(&a.array_dims[i], &b.array_dims[i], constants) {
            return false;
        }
        i = i + 1;
    }
    true
}

/// Whether the type is a declared struct.
pub(crate) fn is_struct(t: &TypeRef, structs: &StructRegistry) -> (r: bool)
    ensures
        r == is_struct_s(t@, registry_view(*structs)),
{
    if t.array_dims.len() != 0 {
        return false;
    }
    match &t.base {
        TypeBase::Custom(name) => registry_contains(structs, name).is_some(),
        _ => false,
    }
}

/// Types are equal once constant array lengths are resolved.
pub open spec fn same_resolved(cs: Seq<(Seq<char>, crate::ast::ExprV)>) -> spec_fn(TypeRefV, TypeRefV) -> bool {
    |a: TypeRefV, b: TypeRefV| types_equal_s(a, b, cs)
}

/// Whether the bindings match the layout of a struct, with types equal
/// once constant array lengths are resolved.
fn layout_matches_resolved(spec: &crate::ast::StructSpec, bindings: &[StructBindingAst], constants: &ConstantMap) -> (r: bool)
    ensures
        r == layout_matches(struct_fields_view(*spec), bindings_view(bindings@), same_resolved(constants_view(*constants))),
{
    let ghost fields = struct_fields_view(*spec);
    let ghost bs = bindings_view(bindings@);
    let ghost same = same_resolved(constants_view(*constants));
    if spec.fields.len() != bindings.len() {
        return false;
    }
    let mut j: usize = 0;
    while j < spec.fields.len()
        invariant
            j <= spec.fields@.len(),
            fields == struct_fields_view(*spec),
            bs == bindings_view(bindings@),
            same == same_resolved(constants_view(*constants)),
            fields.len() == bs.len(),
            forall|i: int| 0 <= i < j ==> (binding_for(bs, #[trigger] fields[i].0) matches Some(b) && same(b.type_ref, fields[i].1)),
        decreases spec.fields@.len() - j,
    {
        assert(fields[j as int] == (spec.fields@[j as int].name@, spec.fields@[j as int].type_ref@));
        match find_binding(bindings, &spec.fields[j].name) {
            Some(k) => {
                if !type_refs_equal(&bindings[k].type_ref, &spec.fields[j].type_ref, constants) {
                    assert(bs[k as int] == binding_view(bindings@[k as int]));
                    assert(!same(bs[k as int].type_ref, fields[j as int].1));
                    assert(!(binding_for(bs, fields[j as int].0) matches Some(b) && same(b.type_ref, fields[j as int].1)));
                    return false;
                }
            },
            None => {
                assert(!(binding_for(bs, fields[j as int].0) matches Some(b) && same(b.type_ref, fields[j as int].1)));
                return false;
            },
        }
        j = j + 1;
    }
    true
}

/// The struct a `readInputStateWithTemplate` destructuring assigns into:
/// the named one, or else the one declared struct whose layout the bindings
/// match, with constant array lengths resolved.
pub fn struct_name_for_state_bindings(
    target_struct: Option<&str>,
    bindings: &[StructBindingAst],
    structs: &StructRegistry,
    constants: &ConstantMap,
) -> (r: Result<String, CompilerError>)
    requires
        registry_wf(*structs),
    ensures
        ({
            let target = match target_struct {
                Some(t) => Some(t@),
                None => None,
            };
            let expected = state_struct_name(
                target,
                bindings_view(bindings@),
                registry_view(*structs),
                same_resolved(constants_view(*constants)),
            );
            match r {
                Ok(n) => expected == Ok::<Seq<char>, Seq<char>>(n@),
                Err(CompilerError::Unsupported(m)) => expected == Err::<Seq<char>, Seq<char>>(m@),
                Err(_) => false,
            }
        }),
{
    let ghost same = same_resolved(constants_view(*constants));
    let ghost reg = registry_view(*structs);
    let ghost bs = bindings_view(bindings@);
    match target_struct {
        Some(t) => {
            let name = String::from_str(t);
            match registry_contains(structs, &name) {
                Some(_) => Ok(name),
                None => {
                    let mut m = String::from_str("unknown struct '");
                    m.append(t);
                    m.append("'");
                    Err(CompilerError::Unsupported(m))
                },
            }
        },
        None => {
            let mut found: Vec<usize> = Vec::new();
            let mut i: usize = 0;
            assert(reg.take(0) =~= Seq::<(Seq<char>, Seq<(Seq<char>, TypeRefV)>)>::empty());
            while i < structs.structs.len()
                invariant
                    i <= structs.structs@.len(),
                    reg == registry_view(*structs),
                    reg.len() == structs.structs@.len(),
                    bs == bindings_view(bindings@),
                    same == same_resolved(constants_view(*constants)),
                    found@.len() == matching_struct_names(reg.take(i as int), bs, same).len(),
                    forall|k: int| 0 <= k < found@.len() ==> #[trigger] found@[k] < structs.structs@.len()
                        && structs.structs@[found@[k] as int].0@ == matching_struct_names(reg.take(i as int), bs, same)[k],
                decreases structs.structs@.len() - i,
            {
                proof {
                    assert(reg.take(i + 1).drop_last() =~= reg.take(i as int));
                    assert(reg.take(i + 1).last() == reg[i as int]);
                    assert(reg[i as int] == (structs.structs@[i as int].0@, struct_fields_view(structs.structs@[i as int].1)));
                }
                if layout_matches_resolved(&structs.structs[i].1, bindings, constants) {
                    found.push(i);
                }
                i = i + 1;
            }
            assert(reg.take(reg.len() as int) =~= reg);
            if found.len() == 1 {
                Ok(structs.structs[found[0]].0.clone())
            } else if found.len() == 0 {
                Err(CompilerError::Unsupported(String::from_str("readInputStateWithTemplate bindings must match a declared struct layout")))
            } else {
                Err(CompilerError::Unsupported(String::from_str(
                    "readInputStateWithTemplate bindings match multiple struct layouts; assign into an explicitly typed struct first",
                )))
            }
        },
    }
}


/// What is wrong with the binding of one field, if anything: no binding
/// (`missing`), a struct-typed field where `nested` is refused, or a
/// binding whose type differs from the field's.
pub open spec fn field_binding_error(
    field: (Seq<char>, TypeRefV),
    bs: Seq<StructBindingV>,
    missing: Seq<char>,
    builtin: Seq<char>,
    cs: Seq<(Seq<char>, crate::ast::ExprV)>,
    reg: Seq<(Seq<char>, Seq<(Seq<char>, TypeRefV)>)>,
    nested: bool,
) -> Option<Seq<char>> {
    match binding_for(bs, field.0) {
        None => Some(missing),
        Some(b) => if nested && is_struct_s(field.1, reg) {
            Some("readInputStateWithTemplate does not support nested struct fields in destructuring"@)
        } else if !types_equal_s(b.type_ref, field.1, cs) {
            Some(builtin + " binding '"@ + b.name + "' expects "@ + type_name_of(field.1))
        } else {
            None
        },
    }
}

/// The error of the first field whose binding is wrong.
pub open spec fn first_field_error(
    fields: Seq<(Seq<char>, TypeRefV)>,
    bs: Seq<StructBindingV>,
    missing: Seq<char>,
    builtin: Seq<char>,
    cs: Seq<(Seq<char>, crate::ast::ExprV)>,
    reg: Seq<(Seq<char>, Seq<(Seq<char>, TypeRefV)>)>,
    nested: bool,
) -> Option<Seq<char>>
    decreases fields.len(),
{
    if fields.len() == 0 {
        None
    } else {
        match field_binding_error(fields[0], bs, missing, builtin, cs, reg, nested) {
            Some(m) => Some(m),
            None => first_field_error(fields.drop_first(), bs, missing, builtin, cs, reg, nested),
        }
    }
}

/// The names and types of the contract fields.
pub open spec fn contract_layout(fields: Seq<ContractFieldAst>) -> Seq<(Seq<char>, TypeRefV)> {
    fields.map_values(|f: ContractFieldAst| (f.name@, f.type_ref@))
}

/// The check of a state destructuring assignment `bindings = name(args)`
/// with `nargs` arguments: `Ok` or the error's text.
pub open spec fn state_assign_check(
    target: Option<Seq<char>>,
    bs: Seq<StructBindingV>,
    name: Seq<char>,
    nargs: nat,
    reg: Seq<(Seq<char>, Seq<(Seq<char>, TypeRefV)>)>,
    cs: Seq<(Seq<char>, crate::ast::ExprV)>,
    fields: Seq<(Seq<char>, TypeRefV)>,
) -> Result<(), Seq<char>> {
    let all_contract = "readInputState bindings must include all contract fields exactly once"@;
    let all_target = "readInputStateWithTemplate bindings must include all target fields exactly once"@;
    if name == "readInputState"@ {
        if nargs != 1 {
            Err("readInputState(input_idx) expects 1 argument"@)
        } else if fields.len() == 0 {
            Err("readInputState requires contract fields"@)
        } else if bs.len() != fields.len() {
            Err(all_contract)
        } else {
            match first_field_error(fields, bs, all_contract, "readInputState"@, cs, reg, false) {
                Some(m) => Err(m),
                None => Ok(()),
            }
        }
    } else if name == "readInputStateWithTemplate"@ {
        if nargs != 4 {
            Err(
                "readInputStateWithTemplate(input_idx, template_prefix_len, template_suffix_len, expected_template_hash) expects 4 arguments"@,
            )
        } else {
            match state_struct_name(target, bs, reg, same_resolved(cs)) {
                Err(m) => Err(m),
                Ok(sn) => match registry_lookup(reg, sn) {
                    None => Err("unknown struct '"@ + sn + "'"@),
                    Some(sf) => if bs.len() != sf.len() {
                        Err(all_target)
                    } else {
                        match first_field_error(sf, bs, all_target, "readInputStateWithTemplate"@, cs, reg, true) {
                            Some(m) => Err(m),
                            None => Ok(()),
                        }
                    },
                },
            }
        }
    } else {
        Ok(())
    }
}

/// The error for a binding whose type differs from its field's.
fn binding_type_error(builtin: &str, binding: &StructBindingAst, field_type: &TypeRef) -> (r: CompilerError)
    ensures
        r matches CompilerError::Unsupported(m) && m@ == builtin@ + " binding '"@ + binding.name@ + "' expects "@ + type_name_of(
            field_type@,
        ),
{
    let mut m = String::from_str(builtin);
    m.append(" binding '");
    m.append(binding.name.as_str());
    m.append("' expects ");
    let t = field_type.type_text();
    m.append(t.as_str());
    CompilerError::Unsupported(m)
}

/// Checks the bindings of the contract fields of `readInputState`: the
/// error of the first field whose binding is missing or of another type.
fn check_contract_field_bindings(bindings: &[StructBindingAst], contract_fields: &[ContractFieldAst], constants: &ConstantMap, structs: &StructRegistry) -> (r: Result<(), CompilerError>)
    ensures
        ({
            let all = "readInputState bindings must include all contract fields exactly once"@;
            match first_field_error(
                contract_layout(contract_fields@),
                bindings_view(bindings@),
                all,
                "readInputState"@,
                constants_view(*constants),
                registry_view(*structs),
                false,
            ) {
                Some(m) => r matches Err(CompilerError::Unsupported(x)) && x@ == m,
                None => r is Ok,
            }
        }),
{
    let ghost fields = contract_layout(contract_fields@);
    let ghost bs = bindings_view(bindings@);
    let ghost cs = constants_view(*constants);
    let ghost reg = registry_view(*structs);
    let ghost all = "readInputState bindings must include all contract fields exactly once"@;
    assert(fields.skip(0) =~= fields);
    let mut i: usize = 0;
    while i < contract_fields.len()
        invariant
            i <= contract_fields@.len(),
            fields == contract_layout(contract_fields@),
            fields.len() == contract_fields@.len(),
            bs == bindings_view(bindings@),
            cs == constants_view(*constants),
            reg == registry_view(*structs),
            all == "readInputState bindings must include all contract fields exactly once"@,
            first_field_error(fields, bs, all, "readInputState"@, cs, reg, false) == first_field_error(
                fields.skip(i as int),
                bs,
                all,
                "readInputState"@,
                cs,
                reg,
                false,
            ),
        decreases contract_fields@.len() - i,
    {
        let ghost rest = fields.skip(i as int);
        assert(rest[0] == (contract_fields@[i as int].name@, contract_fields@[i as int].type_ref@));
        assert(rest.drop_first() =~= fields.skip(i + 1));
        match find_binding(bindings, &contract_fields[i].name) {
            None => {
                return Err(CompilerError::Unsupported(
                    String::from_str("readInputState bindings must include all contract fields exactly once"),
                ));
            },
            Some(k) => {
                assert(bs[k as int] == binding_view(bindings@[k as int]));
                if !type_refs_equal(&bindings[k].type_ref, &contract_fields[i].type_ref, constants) {
                    return Err(binding_type_error("readInputState", &bindings[k], &contract_fields[i].type_ref));
                }
            },
        }
        i = i + 1;
    }
    Ok(())
}

/// Checks the bindings of the fields of a target struct of
/// `readInputStateWithTemplate`: the error of the first field whose binding
/// is missing, that is itself a struct, or whose binding is of another type.
fn check_target_field_bindings(bindings: &[StructBindingAst], spec: &crate::ast::StructSpec, constants: &ConstantMap, structs: &StructRegistry) -> (r: Result<(), CompilerError>)
    ensures
        ({
            let all = "readInputStateWithTemplate bindings must include all target fields exactly once"@;
            match first_field_error(
                struct_fields_view(*spec),
                bindings_view(bindings@),
                all,
                "readInputStateWithTemplate"@,
                constants_view(*constants),
                registry_view(*structs),
                true,
            ) {
                Some(m) => r matches Err(CompilerError::Unsupported(x)) && x@ == m,
                None => r is Ok,
            }
        }),
{
    let ghost fields = struct_fields_view(*spec);
    let ghost bs = bindings_view(bindings@);
    let ghost cs = constants_view(*constants);
    let ghost reg = registry_view(*structs);
    let ghost all = "readInputStateWithTemplate bindings must include all target fields exactly once"@;
    assert(fields.skip(0) =~= fields);
    let mut i: usize = 0;
    while i < spec.fields.len()
        invariant
            i <= spec.fields@.len(),
            fields == struct_fields_view(*spec),
            fields.len() == spec.fields@.len(),
            bs == bindings_view(bindings@),
            cs == constants_view(*constants),
            reg == registry_view(*structs),
            all == "readInputStateWithTemplate bindings must include all target fields exactly once"@,
            first_field_error(fields, bs, all, "readInputStateWithTemplate"@, cs, reg, true) == first_field_error(
                fields.skip(i as int),
                bs,
                all,
                "readInputStateWithTemplate"@,
                cs,
                reg,
                true,
            ),
        decreases spec.fields@.len() - i,
    {
        let ghost rest = fields.skip(i as int);
        assert(rest[0] == (spec.fields@[i as int].name@, spec.fields@[i as int].type_ref@));
        assert(rest.drop_first() =~= fields.skip(i + 1));
        match find_binding(bindings, &spec.fields[i].name) {
            None => {
                return Err(CompilerError::Unsupported(
                    String::from_str("readInputStateWithTemplate bindings must include all target fields exactly once"),
                ));
            },
            Some(k) => {
                assert(bs[k as int] == binding_view(bindings@[k as int]));
                if is_struct(&spec.fields[i].type_ref, structs) {
                    return Err(CompilerError::Unsupported(
                        String::from_str("readInputStateWithTemplate does not support nested struct fields in destructuring"),
                    ));
                }
                if !type_refs_equal(&bindings[k].type_ref, &spec.fields[i].type_ref, constants) {
                    return Err(binding_type_error("readInputStateWithTemplate", &bindings[k], &spec.fields[i].type_ref));
                }
            },
        }
        i = i + 1;
    }
    Ok(())
}

/// Checks a state destructuring assignment `bindings = name(args)`: for
/// `readInputState`, one argument and a binding of each contract field with
/// its type; for `readInputStateWithTemplate`, four arguments and a binding
/// of each field of the target struct, none of them a struct, with its
/// type. Other calls are not checked here.
pub fn validate_state_function_call_assign(
    target_struct: Option<&str>,
    bindings: &[StructBindingAst],
    name: &str,
    args: &[Expr],
    structs: &StructRegistry,
    constants: &ConstantMap,
    contract_fields: &[ContractFieldAst],
) -> (r: Result<(), CompilerError>)
    requires
        registry_wf(*structs),
    ensures
        ({
            let target = match target_struct {
                Some(t) => Some(t@),
                None => None,
            };
            match state_assign_check(
                target,
                bindings_view(bindings@),
                name@,
                args@.len(),
                registry_view(*structs),
                constants_view(*constants),
                contract_layout(contract_fields@),
            ) {
                Ok(()) => r is Ok,
                Err(m) => r matches Err(CompilerError::Unsupported(x)) && x@ == m,
            }
        }),
{
    let name_text = String::from_str(name);
    let read = String::from_str("readInputState");
    let read_template = String::from_str("readInputStateWithTemplate");
    if name_text == read {
        if args.len() != 1 {
            return Err(CompilerError::Unsupported(String::from_str("readInputState(input_idx) expects 1 argument")));
        }
        if contract_fields.len() == 0 {
            return Err(CompilerError::Unsupported(String::from_str("readInputState requires contract fields")));
        }
        if bindings.len() != contract_fields.len() {
            return Err(CompilerError::Unsupported(
                String::from_str("readInputState bindings must include all contract fields exactly once"),
            ));
        }
        check_contract_field_bindings(bindings, contract_fields, constants, structs)
    } else if name_text == read_template {
        if args.len() != 4 {
            return Err(CompilerError::Unsupported(String::from_str(
                "readInputStateWithTemplate(input_idx, template_prefix_len, template_suffix_len, expected_template_hash) expects 4 arguments",
            )));
        }
        let struct_name = match struct_name_for_state_bindings(target_struct, bindings, structs, constants) {
            Ok(n) => n,
            Err(e) => {
                return Err(e);
            },
        };
        let index = match registry_contains(structs, &struct_name) {
            Some(i) => i,
            None => {
                let mut m = String::from_str("unknown struct '");
                m.append(struct_name.as_str());
                m.append("'");
                return Err(CompilerError::Unsupported(m));
            },
        };
        let spec = &structs.structs[index].1;
        if bindings.len() != spec.fields.len() {
            return Err(CompilerError::Unsupported(
                String::from_str("readInputStateWithTemplate bindings must include all target fields exactly once"),
            ));
        }
        check_target_field_bindings(bindings, spec, constants, structs)
    } else {
        Ok(())
    }
}


/// A type with its outermost array dimension taken off.
pub open spec fn element_type_s(t: TypeRefV) -> TypeRefV {
    TypeRefV { base: t.base, array_dims: t.array_dims.drop_last() }
}

/// The fixed byte size of a type, within `fuel` levels of struct nesting:
/// `None` where the nesting goes deeper, `Some(None)` where the type has no
/// fixed size (a string, a tuple, an unknown struct, a dynamic or unresolved
/// array length, or a size past `usize::MAX`). Structs add up their fields
/// in order; arrays multiply the element size by their length.
pub open spec fn type_size_s(
    t: TypeRefV,
    reg: Seq<(Seq<char>, Seq<(Seq<char>, TypeRefV)>)>,
    cs: Seq<(Seq<char>, crate::ast::ExprV)>,
    fuel: nat,
) -> Option<Option<nat>>
    decreases fuel, 1nat, t.array_dims.len(),
{
    if t.array_dims.len() > 0 {
        match dim_len(t.array_dims.last(), cs) {
            None => Some(None),
            Some(n) => match type_size_s(element_type_s(t), reg, cs, fuel) {
                None => None,
                Some(None) => Some(None),
                Some(Some(e)) => if e * n <= usize::MAX {
                    Some(Some(e * n))
                } else {
                    Some(None)
                },
            },
        }
    } else {
        match t.base {
            TypeBaseV::Int => Some(Some(8)),
            TypeBaseV::Bool => Some(Some(1)),
            TypeBaseV::Byte => Some(Some(1)),
            TypeBaseV::Pubkey => Some(Some(32)),
            TypeBaseV::Sig => Some(Some(65)),
            TypeBaseV::Datasig => Some(Some(64)),
            TypeBaseV::Custom(name) => match registry_lookup(reg, name) {
                None => Some(None),
                Some(fields) => if fuel == 0 {
                    None
                } else {
                    fields_size_s(fields, 0, reg, cs, (fuel - 1) as nat)
                },
            },
            _ => Some(None),
        }
    }
}

/// The sizes of struct fields added to `acc` in order, as `type_size_s`
/// gives them; `Some(None)` at the first field without a size or once the
/// sum passes `usize::MAX`.
pub open spec fn fields_size_s(
    fs: Seq<(Seq<char>, TypeRefV)>,
    acc: nat,
    reg: Seq<(Seq<char>, Seq<(Seq<char>, TypeRefV)>)>,
    cs: Seq<(Seq<char>, crate::ast::ExprV)>,
    fuel: nat,
) -> Option<Option<nat>>
    decreases fuel, 2nat, fs.len(),
{
    if fs.len() == 0 {
        Some(Some(acc))
    } else {
        match type_size_s(fs[0].1, reg, cs, fuel) {
            None => None,
            Some(None) => Some(None),
            Some(Some(a)) => if acc + a <= usize::MAX {
                fields_size_s(fs.drop_first(), acc + a, reg, cs, fuel)
            } else {
                Some(None)
            },
        }
    }
}

/// The fixed byte size of a type; structs nest at most as deep as there
/// are declared structs, unless their declarations refer to each other in a
/// cycle.
pub open spec fn struct_aware_size(
    t: TypeRefV,
    reg: Seq<(Seq<char>, Seq<(Seq<char>, TypeRefV)>)>,
    cs: Seq<(Seq<char>, crate::ast::ExprV)>,
) -> Option<Option<nat>> {
    type_size_s(t, reg, cs, reg.len() + 1)
}

/// Every size found is at most `usize::MAX`.
proof fn lemma_type_size_bounded(
    t: TypeRefV,
    reg: Seq<(Seq<char>, Seq<(Seq<char>, TypeRefV)>)>,
    cs: Seq<(Seq<char>, crate::ast::ExprV)>,
    fuel: nat,
)
    ensures
        type_size_s(t, reg, cs, fuel) matches Some(Some(n)) ==> n <= usize::MAX,
    decreases fuel, 1nat, t.array_dims.len(),
{
    if t.array_dims.len() > 0 {
        lemma_type_size_bounded(element_type_s(t), reg, cs, fuel);
    } else {
        match t.base {
            TypeBaseV::Custom(name) => match registry_lookup(reg, name) {
                Some(fields) => if fuel > 0 {
                    lemma_fields_size_bounded(fields, 0, reg, cs, (fuel - 1) as nat);
                },
                None => {},
            },
            _ => {},
        }
    }
}

/// Every sum of field sizes found is at most `usize::MAX`.
proof fn lemma_fields_size_bounded(
    fs: Seq<(Seq<char>, TypeRefV)>,
    acc: nat,
    reg: Seq<(Seq<char>, Seq<(Seq<char>, TypeRefV)>)>,
    cs: Seq<(Seq<char>, crate::ast::ExprV)>,
    fuel: nat,
)
    requires
        acc <= usize::MAX,
    ensures
        fields_size_s(fs, acc, reg, cs, fuel) matches Some(Some(n)) ==> n <= usize::MAX,
    decreases fuel, 2nat, fs.len(),
{
    if fs.len() > 0 {
        lemma_type_size_bounded(fs[0].1, reg, cs, fuel);
        match type_size_s(fs[0].1, reg, cs, fuel) {
            Some(Some(a)) => if acc + a <= usize::MAX {
                lemma_fields_size_bounded(fs.drop_first(), acc + a, reg, cs, fuel);
            },
            _ => {},
        }
    }
}

/// A type with its outermost array dimension taken off.
fn array_element_type(t: &TypeRef) -> (r: TypeRef)
    requires
        t.array_dims@.len() > 0,
    ensures
        r@ == element_type_s(t@),
        r.array_dims@.len() == t.array_dims@.len() - 1,
{
    let mut e = clone_type(t);
    e.array_dims.pop();
    assert(crate::ast::dims_view(e.array_dims@) =~= t@.array_dims.drop_last());
    e
}

/// The fixed byte size of a type, struct fields added up.
fn fixed_type_size(type_ref: &TypeRef, structs: &StructRegistry, constants: &ConstantMap, Ghost(fuel): Ghost<nat>) -> (r: Option<usize>)
    requires
        type_size_s(type_ref@, registry_view(*structs), constants_view(*constants), fuel) is Some,
    ensures
        match type_size_s(type_ref@, registry_view(*structs), constants_view(*constants), fuel) {
            Some(Some(n)) => r == Some(n as usize),
            _ => r is None,
        },
    decreases fuel, 1nat, type_ref.array_dims@.len(),
{
    let ghost reg = registry_view(*structs);
    let ghost cs = constants_view(*constants);
    if type_ref.array_dims.len() > 0 {
        let last = type_ref.array_dims.len() - 1;
        assert(type_ref@.array_dims.last() == dim_view(type_ref.array_dims@[last as int]));
        let array_len = match dim_length(&type_ref.array_dims[last], constants) {
            Some(n) => n,
            None => {
                return None;
            },
        };
        let element = array_element_type(type_ref);
        proof {
            lemma_type_size_bounded(element@, reg, cs, fuel);
        }
        let element_size = match fixed_type_size(&element, structs, constants, Ghost(fuel)) {
            Some(n) => n,
            None => {
                return None;
            },
        };
        return element_size.checked_mul(array_len);
    }
    match &type_ref.base {
        TypeBase::Int => Some(8),
        TypeBase::Bool => Some(1),
        TypeBase::Byte => Some(1),
        TypeBase::Pubkey => Some(32),
        TypeBase::Sig => Some(65),
        TypeBase::Datasig => Some(64),
        TypeBase::String => None,
        TypeBase::Custom(name) => {
            let index = match registry_contains(structs, name) {
                Some(i) => i,
                None => {
                    return None;
                },
            };
            let spec = &structs.structs[index].1;
            let ghost fields = struct_fields_view(*spec);
            let ghost f1 = (fuel - 1) as nat;
            assert(fuel > 0);
            let mut total: usize = 0;
            let mut i: usize = 0;
            assert(fields.skip(0) =~= fields);
            while i < spec.fields.len()
                invariant
                    i <= spec.fields@.len(),
                    fuel > 0,
                    f1 == fuel - 1,
                    fields == struct_fields_view(*spec),
                    fields.len() == spec.fields@.len(),
                    reg == registry_view(*structs),
                    cs == constants_view(*constants),
                    fields_size_s(fields, 0, reg, cs, f1) == fields_size_s(fields.skip(i as int), total as nat, reg, cs, f1),
                    fields_size_s(fields, 0, reg, cs, f1) is Some,
                    type_size_s(type_ref@, reg, cs, fuel) == fields_size_s(fields, 0, reg, cs, f1),
                    total <= usize::MAX,
                decreases spec.fields@.len() - i,
            {
                let ghost rest = fields.skip(i as int);
                assert(rest[0] == (spec.fields@[i as int].name@, spec.fields@[i as int].type_ref@));
                assert(rest.drop_first() =~= fields.skip(i + 1));
                proof {
                    lemma_type_size_bounded(rest[0].1, reg, cs, f1);
                }
                let size = match fixed_type_size(&spec.fields[i].type_ref, structs, constants, Ghost(f1)) {
                    Some(n) => n,
                    None => {
                        return None;
                    },
                };
                total = match total.checked_add(size) {
                    Some(t) => t,
                    None => {
                        return None;
                    },
                };
                i = i + 1;
            }
            assert(fields.skip(i as int).len() == 0);
            Some(total)
        },
        TypeBase::Tuple(_) => None,
    }
}

/// An array type's elements must have a fixed size; the error names the
/// type as `shown_type`.
pub fn ensure_array_elements_have_known_size(type_ref: &TypeRef, structs: &StructRegistry, constants: &ConstantMap, shown_type: &str) -> (r: Result<(), CompilerError>)
    requires
        type_ref@.array_dims.len() > 0 ==> struct_aware_size(element_type_s(type_ref@), registry_view(*structs), constants_view(*constants)) is Some,
    ensures
        r is Ok <==> (type_ref@.array_dims.len() == 0 || struct_aware_size(
            element_type_s(type_ref@),
            registry_view(*structs),
            constants_view(*constants),
        ) matches Some(Some(_))),
        r matches Err(e) ==> e matches CompilerError::Unsupported(m) && m@ == "array element type must have known size: "@ + shown_type@,
{
    if type_ref.array_dims.len() > 0 {
        let element = array_element_type(type_ref);
        let ghost fuel = registry_view(*structs).len() + 1;
        if fixed_type_size(&element, structs, constants, Ghost(fuel)).is_none() {
            let mut m = String::from_str("array element type must have known size: ");
            m.append(shown_type);
            return Err(CompilerError::Unsupported(m));
        }
    }
    Ok(())
}

/// The statement is a `return`, or holds one in a nested block.
pub open spec fn stmt_contains_return_s(s: StatementV) -> bool
    decreases s, 0nat,
{
    match s {
        StatementV::Return { .. } => true,
        StatementV::Block { body, .. } => block_contains_return_s(body),
        StatementV::If { then_branch, else_branch, .. } => block_contains_return_s(then_branch) || match else_branch {
            Some(b) => block_contains_return_s(b),
            None => false,
        },
        StatementV::For { body, .. } => block_contains_return_s(body),
        _ => false,
    }
}

/// Some statement of the block contains a `return`.
pub open spec fn block_contains_return_s(ss: Seq<StatementV>) -> bool
    decreases ss, 0nat,
{
    ss.len() > 0 && (block_contains_return_s(ss.drop_last()) || stmt_contains_return_s(ss.last()))
}

/// Whether the statement is a `return` or holds one in a nested block.
pub fn statement_contains_return(stmt: &Statement) -> (r: bool)
    ensures
        r == stmt_contains_return_s(stmt@),
    decreases stmt, 0nat,
{
    match stmt {
        Statement::Return { .. } => true,
        Statement::Block { body, .. } => any_contains_return(body),
        Statement::If { then_branch, else_branch, .. } => {
            if any_contains_return(then_branch) {
                true
            } else {
                match else_branch {
                    Some(branch) => any_contains_return(branch),
                    None => false,
                }
            }
        },
        Statement::For { body, .. } => any_contains_return(body),
        _ => false,
    }
}

/// Whether some statement of the block contains a `return`.
fn any_contains_return(statements: &Vec<Statement>) -> (r: bool)
    ensures
        r == block_contains_return_s(statements_view(statements@)),
    decreases statements, 0nat,
{
    let ghost ss = statements_view(statements@);
    proof {
        lemma_statements_view(statements@);
    }
    let mut i: usize = 0;
    assert(ss.take(0) =~= Seq::<StatementV>::empty());
    while i < statements.len()
        invariant
            i <= statements@.len(),
            ss == statements_view(statements@),
            ss.len() == statements@.len(),
            forall|j: int| 0 <= j < statements@.len() ==> #[trigger] ss[j] == statements@[j]@,
            !block_contains_return_s(ss.take(i as int)),
        decreases statements@.len() - i,
    {
        assert(ss.take(i + 1).drop_last() =~= ss.take(i as int));
        assert(ss.take(i + 1).last() == ss[i as int]);
        if statement_contains_return(&statements[i]) {
            proof {
                lemma_block_contains_return_prefix(ss, i + 1);
            }
            return true;
        }
        i = i + 1;
    }
    assert(ss.take(ss.len() as int) =~= ss);
    false
}

/// A block whose prefix contains a `return` contains one.
proof fn lemma_block_contains_return_prefix(ss: Seq<StatementV>, k: int)
    requires
        0 <= k <= ss.len(),
        block_contains_return_s(ss.take(k)),
    ensures
        block_contains_return_s(ss),
    decreases ss.len() - k,
{
    if k == ss.len() {
        assert(ss.take(k) =~= ss);
    } else {
        assert(ss.take(k + 1).drop_last() =~= ss.take(k));
        lemma_block_contains_return_prefix(ss, k + 1);
    }
}


/// The type each name maps to after the pairs were inserted in order into
/// an empty map, a later pair replacing an earlier one of the same name.
pub open spec fn type_bindings_map(s: Seq<(String, TypeRef)>) -> Map<Seq<char>, TypeRefV>
    decreases s.len(),
{
    if s.len() == 0 {
        Map::empty()
    } else {
        type_bindings_map(s.drop_last()).insert(s.last().0@, s.last().1@)
    }
}

/// `m` with the pairs inserted in order.
pub open spec fn with_types(m: Map<Seq<char>, TypeRefV>, s: Seq<(Seq<char>, TypeRefV)>) -> Map<Seq<char>, TypeRefV>
    decreases s.len(),
{
    if s.len() == 0 {
        m
    } else {
        with_types(m, s.drop_last()).insert(s.last().0, s.last().1)
    }
}

/// The declared type of each name in scope.
#[derive(Debug)]
pub struct TypeMap {
    entries: Vec<(String, TypeRef)>,
}

impl View for TypeMap {
    type V = Map<Seq<char>, TypeRefV>;

    closed spec fn view(&self) -> Map<Seq<char>, TypeRefV> {
        type_bindings_map(self.entries@)
    }
}

/// Pairs after the last one named `k` do not change what `k` maps to.
proof fn lemma_type_bindings_tail(s: Seq<(String, TypeRef)>, m: int, k: Seq<char>)
    requires
        0 <= m <= s.len(),
        forall|j: int| m <= j < s.len() ==> (#[trigger] s[j]).0@ != k,
    ensures
        type_bindings_map(s).contains_key(k) == type_bindings_map(s.take(m)).contains_key(k),
        type_bindings_map(s)[k] == type_bindings_map(s.take(m))[k],
    decreases s.len() - m,
{
    if m == s.len() {
        assert(s.take(m) =~= s);
    } else {
        let t = s.drop_last();
        assert forall|j: int| m <= j < t.len() implies (#[trigger] t[j]).0@ != k by {
            assert(t[j] == s[j]);
        }
        lemma_type_bindings_tail(t, m, k);
        assert(t.take(m) =~= s.take(m));
    }
}

impl TypeMap {
    /// No names in scope.
    pub fn new() -> (r: TypeMap)
        ensures
            r@ == Map::<Seq<char>, TypeRefV>::empty(),
    {
        TypeMap { entries: Vec::new() }
    }

    /// The type of `name`, if it is in scope.
    pub fn get(&self, name: &str) -> (r: Option<TypeRef>)
        ensures
            match r {
                Some(t) => self@.contains_key(name@) && self@[name@] == t@,
                None => !self@.contains_key(name@),
            },
    {
        let key = String::from_str(name);
        let mut i: usize = self.entries.len();
        while i > 0
            invariant
                i <= self.entries@.len(),
                key@ == name@,
                forall|j: int| i <= j < self.entries@.len() ==> (#[trigger] self.entries@[j]).0@ != name@,
            decreases i,
        {
            if self.entries[i - 1].0 == key {
                proof {
                    lemma_type_bindings_tail(self.entries@, i as int, name@);
                    let t = self.entries@.take(i as int);
                    assert(t.drop_last() =~= self.entries@.take(i - 1));
                    assert(t.last() == self.entries@[i - 1]);
                }
                return Some(clone_type(&self.entries[i - 1].1));
            }
            i = i - 1;
        }
        proof {
            lemma_type_bindings_tail(self.entries@, 0, name@);
            assert(self.entries@.take(0) =~= Seq::<(String, TypeRef)>::empty());
        }
        None
    }

    /// Takes `name` out of scope.
    pub fn remove(&mut self, name: &str)
        ensures
            final(self)@ == old(self)@.remove(name@),
    {
        let ghost s = self.entries@;
        let key = String::from_str(name);
        let mut kept: Vec<(String, TypeRef)> = Vec::new();
        let mut i: usize = 0;
        assert(s.take(0) =~= Seq::<(String, TypeRef)>::empty());
        assert(type_bindings_map(kept@) =~= type_bindings_map(s.take(0)).remove(name@));
        while i < self.entries.len()
            invariant
                i <= s.len(),
                s == self.entries@,
                key@ == name@,
                type_bindings_map(kept@) == type_bindings_map(s.take(i as int)).remove(name@),
            decreases s.len() - i,
        {
            let ghost before = kept@;
            assert(s.take(i + 1).drop_last() =~= s.take(i as int));
            assert(s.take(i + 1).last() == s[i as int]);
            if !(self.entries[i].0 == key) {
                let entry = (self.entries[i].0.clone(), clone_type(&self.entries[i].1));
                kept.push(entry);
                assert(kept@.drop_last() =~= before);
                assert(type_bindings_map(kept@) =~= type_bindings_map(s.take(i + 1)).remove(name@));
            } else {
                assert(type_bindings_map(kept@) =~= type_bindings_map(s.take(i + 1)).remove(name@));
            }
            i = i + 1;
        }
        assert(s.take(s.len() as int) =~= s);
        self.entries = kept;
    }

    /// Puts `name` in scope with type `t`, replacing an earlier type.
    pub fn insert(&mut self, name: &str, t: &TypeRef)
        ensures
            final(self)@ == old(self)@.insert(name@, t@),
    {
        let ghost before = self.entries@;
        self.entries.push((String::from_str(name), clone_type(t)));
        assert(self.entries@.drop_last() =~= before);
    }
}

/// Puts `name` in scope with the type `type_ref`.
pub fn insert_type_binding(types: &mut TypeMap, name: &str, type_ref: &TypeRef)
    ensures
        final(types)@ == old(types)@.insert(name@, type_ref@),
{
    types.insert(name, type_ref);
}

/// The names and types of parameters.
pub open spec fn params_layout(ps: Seq<ParamAst>) -> Seq<(Seq<char>, TypeRefV)> {
    ps.map_values(|p: ParamAst| (p.name@, p.type_ref@))
}

/// The names and types of constants.
pub open spec fn constants_layout(ks: Seq<ConstantAst>) -> Seq<(Seq<char>, TypeRefV)> {
    ks.map_values(|k: ConstantAst| (k.name@, k.type_ref@))
}

/// The names in scope at the start of a function body: the contract's
/// parameters, fields and constants, then the function's parameters, a
/// later name replacing an earlier one.
pub open spec fn initial_types_s(c: ContractAst, f: FunctionAst) -> Map<Seq<char>, TypeRefV> {
    with_types(
        with_types(
            with_types(with_types(Map::empty(), params_layout(c.params@)), contract_layout(c.fields@)),
            constants_layout(c.constants@),
        ),
        params_layout(f.params@),
    )
}

/// Inserts name-type pairs one by one.
pub(crate) fn insert_params(types: &mut TypeMap, params: &Vec<ParamAst>)
    ensures
        final(types)@ == with_types(old(types)@, params_layout(params@)),
{
    let ghost m0 = types@;
    let ghost s = params_layout(params@);
    let mut i: usize = 0;
    assert(s.take(0) =~= Seq::<(Seq<char>, TypeRefV)>::empty());
    while i < params.len()
        invariant
            i <= params@.len(),
            s == params_layout(params@),
            s.len() == params@.len(),
            types@ == with_types(m0, s.take(i as int)),
        decreases params@.len() - i,
    {
        insert_type_binding(types, params[i].name.as_str(), &params[i].type_ref);
        assert(s.take(i + 1).drop_last() =~= s.take(i as int));
        assert(s.take(i + 1).last() == s[i as int]);
        i = i + 1;
    }
    assert(s.take(s.len() as int) =~= s);
}

/// The types of the names in scope at the start of a function body.
pub fn initial_function_types(contract: &ContractAst, function: &FunctionAst) -> (r: Result<TypeMap, CompilerError>)
    ensures
        r matches Ok(m) && m@ == initial_types_s(*contract, *function),
{
    let mut types = TypeMap::new();
    insert_params(&mut types, &contract.params);
    insert_fields(&mut types, &contract.fields);
    insert_constants(&mut types, &contract.constants);
    insert_params(&mut types, &function.params);
    Ok(types)
}

/// Inserts the contract fields' names and types one by one.
pub(crate) fn insert_fields(types: &mut TypeMap, fields: &Vec<ContractFieldAst>)
    ensures
        final(types)@ == with_types(old(types)@, contract_layout(fields@)),
{
    let ghost m0 = types@;
    let ghost s = contract_layout(fields@);
    let mut i: usize = 0;
    assert(s.take(0) =~= Seq::<(Seq<char>, TypeRefV)>::empty());
    while i < fields.len()
        invariant
            i <= fields@.len(),
            s == contract_layout(fields@),
            s.len() == fields@.len(),
            types@ == with_types(m0, s.take(i as int)),
        decreases fields@.len() - i,
    {
        insert_type_binding(types, fields[i].name.as_str(), &fields[i].type_ref);
        assert(s.take(i + 1).drop_last() =~= s.take(i as int));
        assert(s.take(i + 1).last() == s[i as int]);
        i = i + 1;
    }
    assert(s.take(s.len() as int) =~= s);
}

/// Inserts the constants' names and types one by one.
pub(crate) fn insert_constants(types: &mut TypeMap, constants: &Vec<ConstantAst>)
    ensures
        final(types)@ == with_types(old(types)@, constants_layout(constants@)),
{
    let ghost m0 = types@;
    let ghost s = constants_layout(constants@);
    let mut i: usize = 0;
    assert(s.take(0) =~= Seq::<(Seq<char>, TypeRefV)>::empty());
    while i < constants.len()
        invariant
            i <= constants@.len(),
            s == constants_layout(constants@),
            s.len() == constants@.len(),
            types@ == with_types(m0, s.take(i as int)),
        decreases constants@.len() - i,
    {
        insert_type_binding(types, constants[i].name.as_str(), &constants[i].type_ref);
        assert(s.take(i + 1).drop_last() =~= s.take(i as int));
        assert(s.take(i + 1).last() == s[i as int]);
        i = i + 1;
    }
    assert(s.take(s.len() as int) =~= s);
}

/// The compiler's own version, which a `pragma silverscript` requirement
/// is checked against.
pub const COMPILER_VERSION: &'static str = "0.1.0";

#[verifier::external_type_specification]
#[verifier::external_body]
pub struct ExVersion(Version);

#[verifier::external_type_specification]
#[verifier::external_body]
pub struct ExVersionReq(VersionReq);

#[verifier::external_type_specification]
#[verifier::external_body]
pub struct ExSemverError(semver::Error);

/// Whether `semver::Version::parse` accepts the text.
pub uninterp spec fn version_text_parses(text: Seq<char>) -> bool;

/// Whether `semver::VersionReq::parse` accepts the text.
pub uninterp spec fn requirement_text_parses(text: Seq<char>) -> bool;

/// `semver::Version::parse`: succeeds exactly on the texts that
/// `version_text_parses` names.
#[verifier::external_body]
fn parse_version(text: &str) -> (r: Result<Version, semver::Error>)
    ensures
        r is Ok == version_text_parses(text@),
{
    Version::parse(text)
}

/// `semver::VersionReq::parse`: succeeds exactly on the texts that
/// `requirement_text_parses` names.
#[verifier::external_body]
fn parse_version_req(text: &str) -> (r: Result<VersionReq, semver::Error>)
    ensures
        r is Ok == requirement_text_parses(text@),
{
    VersionReq::parse(text)
}

/// Whether the version text, parsed by `semver::Version::parse`, satisfies
/// the requirement text, parsed by `semver::VersionReq::parse`, as
/// `semver::VersionReq::matches` answers.
pub uninterp spec fn semver_req_matches(req: Seq<char>, version: Seq<char>) -> bool;

/// `semver::VersionReq::matches` on the requirement and the version that
/// the two texts parse to: the answer is the one `semver_req_matches` names,
/// which depends on the two texts alone.
#[verifier::external_body]
fn requirement_matches_text(req: &str, version: &str) -> (r: bool)
    requires
        requirement_text_parses(req@),
        version_text_parses(version@),
    ensures
        r == semver_req_matches(req@, version@),
{
    match (VersionReq::parse(req), Version::parse(version)) {
        (Ok(q), Ok(v)) => q.matches(&v),
        _ => false,
    }
}

/// The text of a semver parse error (its `Display`). Nothing is stated of
/// the text.
#[verifier::external_body]
fn semver_error_text(e: &semver::Error) -> (r: String) {
    e.to_string()
}

/// The answer to a `pragma silverscript <requirement>` once it is known
/// whether the compiler version satisfies the requirement.
pub fn pragma_requirement_outcome(requirement: &str, satisfied: bool) -> (r: Result<(), CompilerError>)
    ensures
        satisfied ==> r is Ok,
        !satisfied ==> (r matches Err(CompilerError::Unsupported(m)) && m@ == "SilverScript compiler version "@
            + COMPILER_VERSION@ + " does not satisfy pragma "@ + requirement@),
{
    if satisfied {
        Ok(())
    } else {
        let mut m = String::from_str("SilverScript compiler version ");
        m.append(COMPILER_VERSION);
        m.append(" does not satisfy pragma ");
        m.append(requirement);
        Err(CompilerError::Unsupported(m))
    }
}

/// Checks the contract's pragma, if any: it must be `silverscript`, with a
/// semver requirement that the compiler version satisfies.
pub fn validate_pragma_versions(contract: &ContractAst) -> (r: Result<(), CompilerError>)
    ensures
        match contract.pragma {
            None => r is Ok,
            Some(p) => if !version_text_parses(COMPILER_VERSION@) {
                r matches Err(CompilerError::Unsupported(m)) && ("invalid SilverScript compiler version '"@ + COMPILER_VERSION@
                    + "': "@).is_prefix_of(m@)
            } else if p.name@ != "silverscript"@ {
                r matches Err(CompilerError::Unsupported(m)) && m@ == "unknown pragma '"@ + p.name@ + "'"@
            } else if !requirement_text_parses(p.value@) {
                r matches Err(CompilerError::Unsupported(m)) && ("invalid SilverScript version requirement '"@ + p.value@
                    + "': "@).is_prefix_of(m@)
            } else if semver_req_matches(p.value@, COMPILER_VERSION@) {
                r is Ok
            } else {
                r matches Err(CompilerError::Unsupported(m)) && m@ == "SilverScript compiler version "@ + COMPILER_VERSION@
                    + " does not satisfy pragma "@ + p.value@
            },
        },
{
    let pragma = match &contract.pragma {
        Some(p) => p,
        None => {
            return Ok(());
        },
    };
    match parse_version(COMPILER_VERSION) {
        Ok(_) => {},
        Err(e) => {
            let mut m = String::from_str("invalid SilverScript compiler version '");
            m.append(COMPILER_VERSION);
            m.append("': ");
            let ghost head = m@;
            let text = semver_error_text(&e);
            m.append(text.as_str());
            assert(head.is_prefix_of(m@)) by {
                assert(m@.subrange(0, head.len() as int) =~= head);
            }
            return Err(CompilerError::Unsupported(m));
        },
    };
    let expected = String::from_str("silverscript");
    if pragma.name != expected {
        let mut m = String::from_str("unknown pragma '");
        m.append(pragma.name.as_str());
        m.append("'");
        return Err(CompilerError::Unsupported(m));
    }
    match parse_version_req(pragma.value.as_str()) {
        Ok(_) => {},
        Err(e) => {
            let mut m = String::from_str("invalid SilverScript version requirement '");
            m.append(pragma.value.as_str());
            m.append("': ");
            let ghost head = m@;
            let text = semver_error_text(&e);
            m.append(text.as_str());
            assert(head.is_prefix_of(m@)) by {
                assert(m@.subrange(0, head.len() as int) =~= head);
            }
            return Err(CompilerError::Unsupported(m));
        },
    };
    let satisfied = requirement_matches_text(pragma.value.as_str(), COMPILER_VERSION);
    pragma_requirement_outcome(pragma.value.as_str(), satisfied)
}


/// The first type in the list that is an array whose elements have no
/// fixed size.
pub open spec fn first_unsized_array(
    ts: Seq<TypeRefV>,
    reg: Seq<(Seq<char>, Seq<(Seq<char>, TypeRefV)>)>,
    cs: Seq<(Seq<char>, crate::ast::ExprV)>,
) -> Option<TypeRefV>
    decreases ts.len(),
{
    if ts.len() == 0 {
        None
    } else if ts[0].array_dims.len() > 0 && !(struct_aware_size(element_type_s(ts[0]), reg, cs) matches Some(Some(_))) {
        Some(ts[0])
    } else {
        first_unsized_array(ts.drop_first(), reg, cs)
    }
}

/// Every array type in the list has elements whose size computation ends.
pub open spec fn array_sizes_defined(
    ts: Seq<TypeRefV>,
    reg: Seq<(Seq<char>, Seq<(Seq<char>, TypeRefV)>)>,
    cs: Seq<(Seq<char>, crate::ast::ExprV)>,
) -> bool {
    forall|i: int| 0 <= i < ts.len() && (#[trigger] ts[i]).array_dims.len() > 0 ==> struct_aware_size(element_type_s(ts[i]), reg, cs) is Some
}

/// Where `return` may stand in a body: nowhere, or only as its last
/// statement, and then only in a function that declares return types.
pub open spec fn return_placement(body: Seq<StatementV>, return_count: nat) -> Result<(), Seq<char>> {
    if !block_contains_return_s(body) {
        Ok(())
    } else if !(body.last() is Return) {
        Err("return statement must be the last statement"@)
    } else if block_contains_return_s(body.drop_last()) {
        Err("return statement must be the last statement"@)
    } else if return_count == 0 {
        Err("return requires function return types"@)
    } else {
        Ok(())
    }
}

/// The signature checks of one function: array parameter and return types
/// need elements of a fixed size, an entrypoint yields values only where
/// that is allowed, and `return` stands only at the end of the body.
pub open spec fn function_signature_check(
    params: Seq<TypeRefV>,
    result_types: Seq<TypeRefV>,
    entrypoint: bool,
    allow_entrypoint_return: bool,
    body: Seq<StatementV>,
    reg: Seq<(Seq<char>, Seq<(Seq<char>, TypeRefV)>)>,
    cs: Seq<(Seq<char>, crate::ast::ExprV)>,
) -> Result<(), Seq<char>> {
    match first_unsized_array(params, reg, cs) {
        Some(t) => Err("array element type must have known size: "@ + type_name_of(t)),
        None => match first_unsized_array(result_types, reg, cs) {
            Some(t) => Err("array element type must have known size: "@ + type_name_of(t)),
            None => if entrypoint && !allow_entrypoint_return && result_types.len() > 0 {
                Err("entrypoint return requires allow_entrypoint_return=true"@)
            } else {
                return_placement(body, result_types.len())
            },
        },
    }
}

/// Checks that each array type of the list has elements of a fixed size.
fn ensure_known_array_sizes(ts: &Vec<TypeRef>, structs: &StructRegistry, constants: &ConstantMap) -> (r: Result<(), CompilerError>)
    requires
        array_sizes_defined(crate::ast::types_view(ts@), registry_view(*structs), constants_view(*constants)),
    ensures
        match first_unsized_array(crate::ast::types_view(ts@), registry_view(*structs), constants_view(*constants)) {
            Some(t) => r matches Err(CompilerError::Unsupported(m)) && m@ == "array element type must have known size: "@ + type_name_of(t),
            None => r is Ok,
        },
{
    let ghost tv = crate::ast::types_view(ts@);
    let ghost reg = registry_view(*structs);
    let ghost cs = constants_view(*constants);
    proof {
        crate::ast::lemma_types_view(ts@);
    }
    let mut i: usize = 0;
    assert(tv.skip(0) =~= tv);
    while i < ts.len()
        invariant
            i <= ts@.len(),
            tv == crate::ast::types_view(ts@),
            tv.len() == ts@.len(),
            forall|j: int| 0 <= j < ts@.len() ==> #[trigger] tv[j] == ts@[j]@,
            reg == registry_view(*structs),
            cs == constants_view(*constants),
            array_sizes_defined(tv, reg, cs),
            first_unsized_array(tv, reg, cs) == first_unsized_array(tv.skip(i as int), reg, cs),
        decreases ts@.len() - i,
    {
        let ghost rest = tv.skip(i as int);
        assert(rest[0] == tv[i as int]);
        assert(rest.drop_first() =~= tv.skip(i + 1));
        let text = ts[i].type_text();
        match ensure_array_elements_have_known_size(&ts[i], structs, constants, text.as_str()) {
            Ok(()) => {},
            Err(e) => {
                return Err(e);
            },
        }
        i = i + 1;
    }
    assert(tv.skip(i as int).len() == 0);
    Ok(())
}

/// The types of the parameters.
fn param_types(params: &Vec<ParamAst>) -> (r: Vec<TypeRef>)
    ensures
        crate::ast::types_view(r@) == params@.map_values(|p: ParamAst| p.type_ref@),
{
    let mut r: Vec<TypeRef> = Vec::new();
    let mut i: usize = 0;
    while i < params.len()
        invariant
            i <= params@.len(),
            r@.len() == i,
            forall|j: int| 0 <= j < i ==> #[trigger] r@[j]@ == params@[j].type_ref@,
        decreases params@.len() - i,
    {
        r.push(clone_type(&params[i].type_ref));
        i = i + 1;
    }
    proof {
        crate::ast::lemma_types_view(r@);
        assert forall|j: int| 0 <= j < r@.len() implies crate::ast::types_view(r@)[j] == params@.map_values(
            |p: ParamAst| p.type_ref@,
        )[j] by {
            assert(r@[j]@ == params@[j].type_ref@);
        }
    }
    assert(crate::ast::types_view(r@) =~= params@.map_values(|p: ParamAst| p.type_ref@));
    r
}

/// The signature checks of one function, before its statements are
/// checked: array parameter and return types need elements of a fixed
/// size, an entrypoint may declare return types only where
/// `allow_entrypoint_return` is set, and a `return` may only be the last
/// statement of the body of a function that declares return types.
pub fn validate_function_signature(
    function: &FunctionAst,
    structs: &StructRegistry,
    constants: &ConstantMap,
    allow_entrypoint_return: bool,
) -> (r: Result<(), CompilerError>)
    requires
        array_sizes_defined(function.params@.map_values(|p: ParamAst| p.type_ref@), registry_view(*structs), constants_view(*constants)),
        array_sizes_defined(crate::ast::types_view(function.return_types@), registry_view(*structs), constants_view(*constants)),
    ensures
        match function_signature_check(
            function.params@.map_values(|p: ParamAst| p.type_ref@),
            crate::ast::types_view(function.return_types@),
            function.entrypoint,
            allow_entrypoint_return,
            statements_view(function.body@),
            registry_view(*structs),
            constants_view(*constants),
        ) {
            Ok(()) => r is Ok,
            Err(m) => r matches Err(CompilerError::Unsupported(x)) && x@ == m,
        },
{
    let params = param_types(&function.params);
    match ensure_known_array_sizes(&params, structs, constants) {
        Ok(()) => {},
        Err(e) => {
            return Err(e);
        },
    }
    match ensure_known_array_sizes(&function.return_types, structs, constants) {
        Ok(()) => {},
        Err(e) => {
            return Err(e);
        },
    }
    proof {
        crate::ast::lemma_types_view(function.return_types@);
    }
    if function.entrypoint && !allow_entrypoint_return && function.return_types.len() > 0 {
        return Err(CompilerError::Unsupported(String::from_str("entrypoint return requires allow_entrypoint_return=true")));
    }
    let ghost body = statements_view(function.body@);
    proof {
        lemma_statements_view(function.body@);
    }
    let has_return = any_contains_return(&function.body);
    if has_return {
        let n = function.body.len();
        assert(n > 0);
        let last_is_return = match &function.body[n - 1] {
            Statement::Return { .. } => true,
            _ => false,
        };
        assert(body.last() == function.body@[n - 1]@);
        if !last_is_return {
            return Err(CompilerError::Unsupported(String::from_str("return statement must be the last statement")));
        }
        let mut earlier = false;
        let mut i: usize = 0;
        assert(body.drop_last().take(0) =~= Seq::<StatementV>::empty());
        while i < n - 1
            invariant
                n == function.body@.len(),
                n > 0,
                i <= n - 1,
                body == statements_view(function.body@),
                body.len() == n,
                forall|j: int| 0 <= j < n ==> #[trigger] body[j] == function.body@[j]@,
                earlier == block_contains_return_s(body.drop_last().take(i as int)),
            decreases n - 1 - i,
        {
            proof {
                let t = body.drop_last().take(i + 1);
                assert(t.drop_last() =~= body.drop_last().take(i as int));
                assert(t.last() == body[i as int]);
            }
            let c = statement_contains_return(&function.body[i]);
            earlier = earlier || c;
            i = i + 1;
        }
        assert(body.drop_last().take((n - 1) as int) =~= body.drop_last());
        if earlier {
            return Err(CompilerError::Unsupported(String::from_str("return statement must be the last statement")));
        }
        if function.return_types.len() == 0 {
            return Err(CompilerError::Unsupported(String::from_str("return requires function return types")));
        }
    }
    Ok(())
}


/// A block contains a `return` exactly when one of its statements does.
proof fn lemma_block_contains_return_any(ss: Seq<StatementV>)
    ensures
        block_contains_return_s(ss) <==> exists|i: int| 0 <= i < ss.len() && #[trigger] stmt_contains_return_s(ss[i]),
    decreases ss.len(),
{
    if ss.len() > 0 {
        let p = ss.drop_last();
        lemma_block_contains_return_any(p);
        assert(ss.last() == ss[ss.len() - 1]);
        if stmt_contains_return_s(ss[ss.len() - 1]) {
            assert(exists|i: int| 0 <= i < ss.len() && #[trigger] stmt_contains_return_s(ss[i]));
        }
        if block_contains_return_s(p) {
            let i = choose|i: int| 0 <= i < p.len() && #[trigger] stmt_contains_return_s(p[i]);
            assert(ss[i] == p[i]);
        }
        if exists|i: int| 0 <= i < ss.len() && #[trigger] stmt_contains_return_s(ss[i]) {
            let i = choose|i: int| 0 <= i < ss.len() && #[trigger] stmt_contains_return_s(ss[i]);
            if i < ss.len() - 1 {
                assert(p[i] == ss[i]);
            }
        }
    }
}

/// Where a `return` may hide: a statement contains one exactly when it is
/// a `return`, or a statement of its block, of either branch of its `if`,
/// or of its `for` body contains one. Every other statement contains none.
pub proof fn lemma_return_found_anywhere_nested(s: StatementV)
    ensures
        s is Return ==> stmt_contains_return_s(s),
        s matches StatementV::Block { body, .. } ==> (stmt_contains_return_s(s) <==> exists|i: int|
            0 <= i < body.len() && #[trigger] stmt_contains_return_s(body[i])),
        s matches StatementV::For { body, .. } ==> (stmt_contains_return_s(s) <==> exists|i: int|
            0 <= i < body.len() && #[trigger] stmt_contains_return_s(body[i])),
        s matches StatementV::If { then_branch, else_branch, .. } ==> (stmt_contains_return_s(s) <==> ((exists|i: int|
            0 <= i < then_branch.len() && #[trigger] stmt_contains_return_s(then_branch[i])) || (else_branch matches Some(
            eb,
        ) && exists|i: int| 0 <= i < eb.len() && #[trigger] stmt_contains_return_s(eb[i])))),
        !(s is Return) && !(s is Block) && !(s is For) && !(s is If) ==> !stmt_contains_return_s(s),
{
    match s {
        StatementV::Block { body, .. } => lemma_block_contains_return_any(body),
        StatementV::For { body, .. } => lemma_block_contains_return_any(body),
        StatementV::If { then_branch, else_branch, .. } => {
            lemma_block_contains_return_any(then_branch);
            match else_branch {
                Some(eb) => lemma_block_contains_return_any(eb),
                None => {},
            }
        },
        _ => {},
    }
}

} // verus!
