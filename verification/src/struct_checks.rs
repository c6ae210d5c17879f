//! Checks of the struct types a contract names: that every declared type is
//! a builtin type or a declared struct, and that a struct destructuring
//! binds each field of the struct once, with the field's type.
use vstd::prelude::*;
use crate::ast::{
    bindings_view, binding_view, constants_view, type_name_of, ConstantAst, ContractAst, ContractFieldAst, ParamAst,
    StructBindingAst, StructBindingV, StructRegistry, TypeBase, TypeBaseV, TypeRef, TypeRefV,
};
use crate::error::CompilerError;
use crate::stack_bindings::contains_name;
use crate::stack_order::views;
use crate::state_layout::{binding_for, find_binding, registry_contains, registry_lookup, registry_view, struct_fields_view};
use crate::static_check::{is_struct, is_struct_s, type_refs_equal, types_equal_s};

verus! {

/// The registry as a sequence of struct names with their fields.
pub type RegistryV = Seq<(Seq<char>, Seq<(Seq<char>, TypeRefV)>)>;

/// The name of the undeclared struct that a type's base names, if it names
/// one. Builtin bases, tuples among them, are known.
pub open spec fn unknown_type_name(t: TypeRefV, reg: RegistryV) -> Option<Seq<char>> {
    match t.base {
        TypeBaseV::Custom(n) => if registry_lookup(reg, n) is Some {
            None
        } else {
            Some(n)
        },
        _ => None,
    }
}

/// The error text for an undeclared type met in `context`.
pub open spec fn unknown_type_message(name: Seq<char>, context: Seq<char>) -> Seq<char> {
    "unknown type '"@ + name + "' in "@ + context
}

/// The undeclared struct named by the first type that names one.
pub open spec fn first_unknown_type(ts: Seq<TypeRefV>, reg: RegistryV) -> Option<Seq<char>>
    decreases ts.len(),
{
    if ts.len() == 0 {
        None
    } else {
        match unknown_type_name(ts[0], reg) {
            Some(n) => Some(n),
            None => first_unknown_type(ts.drop_first(), reg),
        }
    }
}

/// The check of the types a contract declares: its parameters, then its
/// fields, then its constants.
pub open spec fn contract_struct_usage_check(
    params: Seq<TypeRefV>,
    fields: Seq<TypeRefV>,
    constants: Seq<TypeRefV>,
    reg: RegistryV,
) -> Result<(), Seq<char>> {
    match first_unknown_type(params, reg) {
        Some(n) => Err(unknown_type_message(n, "contract parameter"@)),
        None => match first_unknown_type(fields, reg) {
            Some(n) => Err(unknown_type_message(n, "contract field"@)),
            None => match first_unknown_type(constants, reg) {
                Some(n) => Err(unknown_type_message(n, "constant"@)),
                None => Ok(()),
            },
        },
    }
}

/// Checks that the type's base is a builtin type or a declared struct; the
/// error names the undeclared struct and the `context` it was met in.
pub fn ensure_known_or_builtin_type(type_ref: &TypeRef, structs: &StructRegistry, context: &str) -> (r: Result<(), CompilerError>)
    ensures
        match unknown_type_name(type_ref@, registry_view(*structs)) {
            Some(n) => r matches Err(CompilerError::Unsupported(m)) && m@ == unknown_type_message(n, context@),
            None => r is Ok,
        },
{
    match &type_ref.base {
        TypeBase::Custom(name) => match registry_contains(structs, name) {
            Some(_) => Ok(()),
            None => {
                let mut m = String::from_str("unknown type '");
                m.append(name.as_str());
                m.append("' in ");
                m.append(context);
                Err(CompilerError::Unsupported(m))
            },
        },
        _ => Ok(()),
    }
}

/// The types of the parameters.
pub open spec fn param_types(ps: Seq<ParamAst>) -> Seq<TypeRefV> {
    ps.map_values(|p: ParamAst| p.type_ref@)
}

/// The types of the contract fields.
pub open spec fn field_types(fs: Seq<ContractFieldAst>) -> Seq<TypeRefV> {
    fs.map_values(|f: ContractFieldAst| f.type_ref@)
}

/// The types of the constants.
pub open spec fn constant_types(cs: Seq<ConstantAst>) -> Seq<TypeRefV> {
    cs.map_values(|c: ConstantAst| c.type_ref@)
}

/// Checks that every type the contract declares, for a parameter, a field
/// or a constant, is a builtin type or a declared struct.
pub fn validate_contract_struct_usage(contract: &ContractAst, structs: &StructRegistry) -> (r: Result<(), CompilerError>)
    ensures
        match contract_struct_usage_check(
            param_types(contract.params@),
            field_types(contract.fields@),
            constant_types(contract.constants@),
            registry_view(*structs),
        ) {
            Ok(()) => r is Ok,
            Err(m) => r matches Err(CompilerError::Unsupported(x)) && x@ == m,
        },
{
    let ghost reg = registry_view(*structs);
    let ghost ps = param_types(contract.params@);
    assert(ps.skip(0) =~= ps);
    let mut i: usize = 0;
    while i < contract.params.len()
        invariant
            i <= contract.params@.len(),
            ps == param_types(contract.params@),
            ps.len() == contract.params@.len(),
            reg == registry_view(*structs),
            first_unknown_type(ps, reg) == first_unknown_type(ps.skip(i as int), reg),
        decreases contract.params@.len() - i,
    {
        assert(ps.skip(i as int)[0] == contract.params@[i as int].type_ref@);
        assert(ps.skip(i as int).drop_first() =~= ps.skip(i + 1));
        match ensure_known_or_builtin_type(&contract.params[i].type_ref, structs, "contract parameter") {
            Err(e) => return Err(e),
            Ok(()) => {},
        }
        i = i + 1;
    }
    assert(ps.skip(i as int).len() == 0);
    let ghost fs = field_types(contract.fields@);
    assert(fs.skip(0) =~= fs);
    let mut j: usize = 0;
    while j < contract.fields.len()
        invariant
            j <= contract.fields@.len(),
            fs == field_types(contract.fields@),
            fs.len() == contract.fields@.len(),
            reg == registry_view(*structs),
            ps == param_types(contract.params@),
            first_unknown_type(ps, reg) is None,
            first_unknown_type(fs, reg) == first_unknown_type(fs.skip(j as int), reg),
        decreases contract.fields@.len() - j,
    {
        assert(fs.skip(j as int)[0] == contract.fields@[j as int].type_ref@);
        assert(fs.skip(j as int).drop_first() =~= fs.skip(j + 1));
        match ensure_known_or_builtin_type(&contract.fields[j].type_ref, structs, "contract field") {
            Err(e) => return Err(e),
            Ok(()) => {},
        }
        j = j + 1;
    }
    assert(fs.skip(j as int).len() == 0);
    let ghost cs = constant_types(contract.constants@);
    assert(cs.skip(0) =~= cs);
    let mut k: usize = 0;
    while k < contract.constants.len()
        invariant
            k <= contract.constants@.len(),
            cs == constant_types(contract.constants@),
            cs.len() == contract.constants@.len(),
            reg == registry_view(*structs),
            ps == param_types(contract.params@),
            first_unknown_type(ps, reg) is None,
            fs == field_types(contract.fields@),
            first_unknown_type(fs, reg) is None,
            first_unknown_type(cs, reg) == first_unknown_type(cs.skip(k as int), reg),
        decreases contract.constants@.len() - k,
    {
        assert(cs.skip(k as int)[0] == contract.constants@[k as int].type_ref@);
        assert(cs.skip(k as int).drop_first() =~= cs.skip(k + 1));
        match ensure_known_or_builtin_type(&contract.constants[k].type_ref, structs, "constant") {
            Err(e) => return Err(e),
            Ok(()) => {},
        }
        k = k + 1;
    }
    assert(cs.skip(k as int).len() == 0);
    Ok(())
}

/// The struct a value of the type is: the declared struct its base names,
/// where the type is no array.
pub open spec fn struct_name_of(t: TypeRefV, reg: RegistryV) -> Option<Seq<char>> {
    if is_struct_s(t, reg) {
        match t.base {
            TypeBaseV::Custom(n) => Some(n),
            _ => None,
        }
    } else {
        None
    }
}

/// The field names bound by the bindings.
pub open spec fn bound_fields(bs: Seq<StructBindingV>) -> Seq<Seq<char>> {
    bs.map_values(|b: StructBindingV| b.field_name)
}

/// The local names bound by the bindings.
pub open spec fn bound_names(bs: Seq<StructBindingV>) -> Seq<Seq<char>> {
    bs.map_values(|b: StructBindingV| b.name)
}

/// What is wrong with the binding at `i` of a struct destructuring, given
/// the bindings before it: a type that names an undeclared struct, a field
/// bound before, or a local name bound before.
pub open spec fn destructure_binding_error(bs: Seq<StructBindingV>, i: int, reg: RegistryV) -> Option<Seq<char>> {
    let b = bs[i];
    match unknown_type_name(b.type_ref, reg) {
        Some(n) => Some(unknown_type_message(n, "struct destructuring"@)),
        None => if bound_fields(bs.take(i)).contains(b.field_name) {
            Some("duplicate struct field '"@ + b.field_name + "'"@)
        } else if bound_names(bs.take(i)).contains(b.name) {
            Some("duplicate binding name '"@ + b.name + "'"@)
        } else {
            None
        },
    }
}

/// The error of the first binding, from `from` on, that is wrong.
pub open spec fn first_destructure_binding_error(bs: Seq<StructBindingV>, from: int, reg: RegistryV) -> Option<Seq<char>>
    decreases bs.len() - from,
{
    if 0 <= from < bs.len() {
        match destructure_binding_error(bs, from, reg) {
            Some(m) => Some(m),
            None => first_destructure_binding_error(bs, from + 1, reg),
        }
    } else {
        None
    }
}

/// What is wrong with the binding of one struct field, if anything: no
/// binding, a binding of another type, or a struct-typed binding of a
/// field read straight from `readInputState`.
pub open spec fn destructure_field_error(
    field: (Seq<char>, TypeRefV),
    bs: Seq<StructBindingV>,
    cs: Seq<(Seq<char>, crate::ast::ExprV)>,
    reg: RegistryV,
    direct: bool,
) -> Option<Seq<char>> {
    match binding_for(bs, field.0) {
        None => Some("struct destructuring must bind all fields exactly once"@),
        Some(b) => if !types_equal_s(b.type_ref, field.1, cs) {
            Some("struct field '"@ + field.0 + "' expects "@ + type_name_of(field.1))
        } else if direct && is_struct_s(b.type_ref, reg) {
            Some("readInputState does not support nested struct fields"@)
        } else {
            None
        },
    }
}

/// The error of the first struct field whose binding is wrong.
pub open spec fn first_destructure_field_error(
    fields: Seq<(Seq<char>, TypeRefV)>,
    bs: Seq<StructBindingV>,
    cs: Seq<(Seq<char>, crate::ast::ExprV)>,
    reg: RegistryV,
    direct: bool,
) -> Option<Seq<char>>
    decreases fields.len(),
{
    if fields.len() == 0 {
        None
    } else {
        match destructure_field_error(fields[0], bs, cs, reg, direct) {
            Some(m) => Some(m),
            None => first_destructure_field_error(fields.drop_first(), bs, cs, reg, direct),
        }
    }
}

/// The check of a struct destructuring `{ bindings } = e` where `e` has the
/// type `expr_type` (`direct`: `e` is a `readInputState` call): the type
/// is a declared struct; each binding has a known type, a field and a
/// local name of its own; there are as many bindings as fields; and each
/// field's binding has the field's type.
pub open spec fn struct_destructure_check(
    bs: Seq<StructBindingV>,
    expr_type: TypeRefV,
    direct: bool,
    reg: RegistryV,
    cs: Seq<(Seq<char>, crate::ast::ExprV)>,
) -> Result<(), Seq<char>> {
    match struct_name_of(expr_type, reg) {
        None => Err("struct destructuring requires a struct value"@),
        Some(sn) => match registry_lookup(reg, sn) {
            None => Err("unknown struct '"@ + sn + "'"@),
            Some(sf) => match first_destructure_binding_error(bs, 0, reg) {
                Some(m) => Err(m),
                None => if bs.len() != sf.len() {
                    Err("struct destructuring must bind all fields exactly once"@)
                } else {
                    match first_destructure_field_error(sf, bs, cs, reg, direct) {
                        Some(m) => Err(m),
                        None => Ok(()),
                    }
                },
            },
        },
    }
}

/// The declared struct a value of the type is, as an index into the
/// registry.
fn struct_index(t: &TypeRef, structs: &StructRegistry) -> (r: Option<usize>)
    ensures
        match r {
            Some(i) => i < structs.structs@.len() && struct_name_of(t@, registry_view(*structs)) == Some(
                structs.structs@[i as int].0@,
            ) && registry_lookup(registry_view(*structs), structs.structs@[i as int].0@) == Some(
                struct_fields_view(structs.structs@[i as int].1),
            ),
            None => struct_name_of(t@, registry_view(*structs)) is None,
        },
{
    if t.array_dims.len() != 0 {
        return None;
    }
    match &t.base {
        TypeBase::Custom(name) => registry_contains(structs, name),
        _ => None,
    }
}

/// The bindings of each struct field, checked one by one: the error of the
/// first field whose binding is missing, of another type, or a struct read
/// straight from `readInputState`.
fn check_destructure_fields(
    bindings: &[StructBindingAst],
    spec: &crate::ast::StructSpec,
    direct_read_input_state: bool,
    structs: &StructRegistry,
    constants: &crate::ast::ConstantMap,
) -> (r: Result<(), CompilerError>)
    ensures
        match first_destructure_field_error(
            struct_fields_view(*spec),
            bindings_view(bindings@),
            constants_view(*constants),
            registry_view(*structs),
            direct_read_input_state,
        ) {
            Some(m) => r matches Err(CompilerError::Unsupported(x)) && x@ == m,
            None => r is Ok,
        },
{
    let ghost fields = struct_fields_view(*spec);
    let ghost bs = bindings_view(bindings@);
    let ghost cs = constants_view(*constants);
    let ghost reg = registry_view(*structs);
    assert(fields.skip(0) =~= fields);
    let mut i: usize = 0;
    while i < spec.fields.len()
        invariant
            i <= spec.fields@.len(),
            fields == struct_fields_view(*spec),
            fields.len() == spec.fields@.len(),
            bs == bindings_view(bindings@),
            cs == constants_view(*constants),
            reg == registry_view(*structs),
            first_destructure_field_error(fields, bs, cs, reg, direct_read_input_state) == first_destructure_field_error(
                fields.skip(i as int),
                bs,
                cs,
                reg,
                direct_read_input_state,
            ),
        decreases spec.fields@.len() - i,
    {
        let ghost rest = fields.skip(i as int);
        assert(rest[0] == (spec.fields@[i as int].name@, spec.fields@[i as int].type_ref@));
        assert(rest.drop_first() =~= fields.skip(i + 1));
        match find_binding(bindings, &spec.fields[i].name) {
            None => {
                return Err(CompilerError::Unsupported(
                    String::from_str("struct destructuring must bind all fields exactly once"),
                ));
            },
            Some(k) => {
                assert(bs[k as int] == binding_view(bindings@[k as int]));
                if !type_refs_equal(&bindings[k].type_ref, &spec.fields[i].type_ref, constants) {
                    let mut m = String::from_str("struct field '");
                    m.append(spec.fields[i].name.as_str());
                    m.append("' expects ");
                    let t = spec.fields[i].type_ref.type_text();
                    m.append(t.as_str());
                    return Err(CompilerError::Unsupported(m));
                }
                if direct_read_input_state && is_struct(&bindings[k].type_ref, structs) {
                    return Err(CompilerError::Unsupported(
                        String::from_str("readInputState does not support nested struct fields"),
                    ));
                }
            },
        }
        i = i + 1;
    }
    assert(fields.skip(i as int).len() == 0);
    Ok(())
}

/// Checks the bindings of a struct destructuring `{ bindings } = e`, where
/// `e` has the type `expr_type` and `direct_read_input_state` tells whether
/// `e` is a `readInputState` call.
pub fn validate_struct_destructure_bindings(
    bindings: &[StructBindingAst],
    expr_type: &TypeRef,
    direct_read_input_state: bool,
    structs: &StructRegistry,
    constants: &crate::ast::ConstantMap,
) -> (r: Result<(), CompilerError>)
    ensures
        match struct_destructure_check(
            bindings_view(bindings@),
            expr_type@,
            direct_read_input_state,
            registry_view(*structs),
            constants_view(*constants),
        ) {
            Ok(()) => r is Ok,
            Err(m) => r matches Err(CompilerError::Unsupported(x)) && x@ == m,
        },
{
    let ghost bs = bindings_view(bindings@);
    let ghost reg = registry_view(*structs);
    let idx = match struct_index(expr_type, structs) {
        None => {
            return Err(CompilerError::Unsupported(String::from_str("struct destructuring requires a struct value")));
        },
        Some(i) => i,
    };
    let spec = &structs.structs[idx].1;
    let mut seen_fields: Vec<String> = Vec::new();
    let mut seen_names: Vec<String> = Vec::new();
    let mut i: usize = 0;
    assert(views(seen_fields@) =~= bound_fields(bs.take(0)));
    assert(views(seen_names@) =~= bound_names(bs.take(0)));
    while i < bindings.len()
        invariant
            i <= bindings@.len(),
            bs == bindings_view(bindings@),
            bs.len() == bindings@.len(),
            reg == registry_view(*structs),
            idx < structs.structs@.len(),
            struct_name_of(expr_type@, reg) == Some(structs.structs@[idx as int].0@),
            registry_lookup(reg, structs.structs@[idx as int].0@) == Some(struct_fields_view(structs.structs@[idx as int].1)),
            views(seen_fields@) == bound_fields(bs.take(i as int)),
            views(seen_names@) == bound_names(bs.take(i as int)),
            first_destructure_binding_error(bs, 0, reg) == first_destructure_binding_error(bs, i as int, reg),
        decreases bindings@.len() - i,
    {
        assert(bs[i as int] == binding_view(bindings@[i as int]));
        match ensure_known_or_builtin_type(&bindings[i].type_ref, structs, "struct destructuring") {
            Err(e) => return Err(e),
            Ok(()) => {},
        }
        if contains_name(&seen_fields, &bindings[i].field_name) {
            let mut m = String::from_str("duplicate struct field '");
            m.append(bindings[i].field_name.as_str());
            m.append("'");
            return Err(CompilerError::Unsupported(m));
        }
        if contains_name(&seen_names, &bindings[i].name) {
            let mut m = String::from_str("duplicate binding name '");
            m.append(bindings[i].name.as_str());
            m.append("'");
            return Err(CompilerError::Unsupported(m));
        }
        let ghost before_fields = views(seen_fields@);
        let ghost before_names = views(seen_names@);
        seen_fields.push(bindings[i].field_name.clone());
        seen_names.push(bindings[i].name.clone());
        assert(views(seen_fields@) =~= before_fields.push(bindings@[i as int].field_name@));
        assert(views(seen_names@) =~= before_names.push(bindings@[i as int].name@));
        assert(bs.take(i + 1) =~= bs.take(i as int).push(bs[i as int]));
        assert(views(seen_fields@) =~= bound_fields(bs.take(i + 1)));
        assert(views(seen_names@) =~= bound_names(bs.take(i + 1)));
        i = i + 1;
    }
    if bindings.len() != spec.fields.len() {
        return Err(CompilerError::Unsupported(String::from_str("struct destructuring must bind all fields exactly once")));
    }
    check_destructure_fields(bindings, spec, direct_read_input_state, structs, constants)
}


/// The first binding of a field is a binding of that field.
proof fn lemma_binding_for_found(bs: Seq<StructBindingV>, f: Seq<char>)
    requires
        binding_for(bs, f) is Some,
    ensures
        exists|j: int| 0 <= j < bs.len() && bs[j] == binding_for(bs, f).unwrap() && (#[trigger] bs[j]).field_name == f,
    decreases bs.len(),
{
    if bs[0].field_name != f {
        lemma_binding_for_found(bs.drop_first(), f);
        let j = choose|j: int| 0 <= j < bs.drop_first().len() && bs.drop_first()[j] == binding_for(bs.drop_first(), f).unwrap()
            && (#[trigger] bs.drop_first()[j]).field_name == f;
        assert(bs[j + 1] == bs.drop_first()[j]);
    } else {
        assert(bs[0] == binding_for(bs, f).unwrap());
    }
}

/// Where no binding from `from` on is wrong, none is.
proof fn lemma_no_binding_error(bs: Seq<StructBindingV>, from: int, reg: RegistryV)
    requires
        0 <= from,
        first_destructure_binding_error(bs, from, reg) is None,
    ensures
        forall|i: int| from <= i < bs.len() ==> #[trigger] destructure_binding_error(bs, i, reg) is None,
    decreases bs.len() - from,
{
    if from < bs.len() {
        lemma_no_binding_error(bs, from + 1, reg);
    }
}

/// Where no field's binding is wrong, each field has a binding of its type.
proof fn lemma_no_field_error(
    fields: Seq<(Seq<char>, TypeRefV)>,
    bs: Seq<StructBindingV>,
    cs: Seq<(Seq<char>, crate::ast::ExprV)>,
    reg: RegistryV,
    direct: bool,
)
    requires
        first_destructure_field_error(fields, bs, cs, reg, direct) is None,
    ensures
        forall|k: int| 0 <= k < fields.len() ==> (binding_for(bs, #[trigger] fields[k].0) matches Some(b) && types_equal_s(
            b.type_ref,
            fields[k].1,
            cs,
        )),
    decreases fields.len(),
{
    if fields.len() > 0 {
        lemma_no_field_error(fields.drop_first(), bs, cs, reg, direct);
        assert forall|k: int| 0 <= k < fields.len() implies (binding_for(bs, #[trigger] fields[k].0) matches Some(b)
            && types_equal_s(b.type_ref, fields[k].1, cs)) by {
            if k > 0 {
                assert(fields[k] == fields.drop_first()[k - 1]);
            }
        }
    }
}

/// An accepted struct destructuring binds each field of the struct exactly
/// once, with a type equal to the field's, and binds no field and no local
/// name twice; there are as many bindings as fields.
pub proof fn lemma_accepted_destructure_binds_each_field_once(
    bs: Seq<StructBindingV>,
    expr_type: TypeRefV,
    direct: bool,
    reg: RegistryV,
    cs: Seq<(Seq<char>, crate::ast::ExprV)>,
)
    requires
        struct_destructure_check(bs, expr_type, direct, reg, cs) is Ok,
    ensures
        struct_name_of(expr_type, reg) matches Some(sn) && registry_lookup(reg, sn) matches Some(sf) && {
            &&& bs.len() == sf.len()
            &&& bound_fields(bs).no_duplicates()
            &&& bound_names(bs).no_duplicates()
            &&& forall|k: int| 0 <= k < sf.len() ==> exists|j: int| 0 <= j < bs.len() && (#[trigger] bs[j]).field_name == (
                #[trigger] sf[k]).0 && types_equal_s(bs[j].type_ref, sf[k].1, cs)
        },
{
    let sn = struct_name_of(expr_type, reg).unwrap();
    let sf = registry_lookup(reg, sn).unwrap();
    lemma_no_binding_error(bs, 0, reg);
    assert forall|i: int, j: int| 0 <= i < j < bs.len() implies bound_fields(bs)[i] != bound_fields(bs)[j]
        && bound_names(bs)[i] != bound_names(bs)[j] by {
        assert(destructure_binding_error(bs, j, reg) is None);
        assert(bound_fields(bs.take(j))[i] == bs[i].field_name);
        assert(bound_names(bs.take(j))[i] == bs[i].name);
    }
    lemma_no_field_error(sf, bs, cs, reg, direct);
    assert forall|k: int| 0 <= k < sf.len() implies exists|j: int| 0 <= j < bs.len() && (#[trigger] bs[j]).field_name == (
        #[trigger] sf[k]).0 && types_equal_s(bs[j].type_ref, sf[k].1, cs) by {
        lemma_binding_for_found(bs, sf[k].0);
    }
}

} // verus!
