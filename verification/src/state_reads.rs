//! The local definitions that a `readInputState(...)` or
//! `readInputStateWithTemplate(...)` destructuring makes: one per field,
//! bound to the name its binding gives, whose value reads that field of
//! another input's encoded state.
use vstd::prelude::*;
use crate::ast::{
    binding_view, bindings_view, clone_expr, clone_type, constants_view, type_name_of, types_same, BinaryOp, ConstantMap,
    ContractFieldAst, Expr, ExprV, StructBindingAst, StructBindingV, StructRegistry, TypeRef, TypeRefV,
};
use crate::error::CompilerError;
use crate::stack_bindings::contains_name;
use crate::stack_order::views;
use crate::state_layout::{
    binding_for, chunk_size, data_prefix_bytes, encoded_len, encoded_len_fits, encoded_state_len, encoded_type_chunk_size,
    field_read_v, field_types, find_binding, first_unsized, int_v, read_input_state_field_expr, type_fixed_size,
    unsupported_field_message, binary_v, layout_types, registry_contains, registry_lookup, registry_view, registry_wf,
    same_type, state_struct_name, struct_fields_view, struct_name_for_state_bindings, template_checks, template_checks_v,
    templated_input_script_size_expr, TemplateChecks,
};

verus! {

/// The field name of the first binding whose field an earlier binding
/// (or one in `seen`) already binds.
pub open spec fn duplicate_field_from(bs: Seq<StructBindingV>, seen: Set<Seq<char>>) -> Option<Seq<char>>
    decreases bs.len(),
{
    if bs.len() == 0 {
        None
    } else if seen.contains(bs[0].field_name) {
        Some(bs[0].field_name)
    } else {
        duplicate_field_from(bs.drop_first(), seen.insert(bs[0].field_name))
    }
}

/// What is wrong with the binding of the first field whose binding is
/// missing or has another type than the field.
pub open spec fn first_read_binding_error(fields: Seq<(Seq<char>, TypeRefV)>, bs: Seq<StructBindingV>) -> Option<Seq<char>>
    decreases fields.len(),
{
    if fields.len() == 0 {
        None
    } else {
        match binding_for(bs, fields[0].0) {
            None => Some("readInputState bindings must include all contract fields exactly once"@),
            Some(b) => if b.type_ref != fields[0].1 {
                Some("readInputState binding '"@ + b.name + "' expects "@ + type_name_of(fields[0].1))
            } else {
                first_read_binding_error(fields.drop_first(), bs)
            },
        }
    }
}

/// The definition for field `k`: the binding's name and type, and the read
/// of the field out of input `input`'s state, which starts at `start` in a
/// redeem script of `size` bytes.
pub open spec fn read_definition(
    fields: Seq<(Seq<char>, TypeRefV)>,
    bs: Seq<StructBindingV>,
    k: int,
    input: ExprV,
    start: i64,
    size: i64,
    cs: Seq<(Seq<char>, ExprV)>,
) -> (Seq<char>, TypeRefV, ExprV) {
    let b = binding_for(bs, fields[k].0).unwrap();
    let ts = fields.map_values(|f: (Seq<char>, TypeRefV)| f.1);
    (
        b.name,
        b.type_ref,
        field_read_v(
            input,
            fields[k].1,
            int_v(start),
            encoded_len(ts.take(k), cs).unwrap(),
            int_v(size),
            type_fixed_size(fields[k].1, cs).unwrap(),
        ),
    )
}

/// The definitions a `readInputState(input)` destructuring with these
/// bindings makes, or the error it stops at: a field bound twice, other
/// than one argument, no contract fields, a binding count that differs
/// from the field count, no known script size, a field type without a
/// fixed size, a state longer than the fields end offset, or a field whose
/// binding is missing or of another type.
pub open spec fn read_input_state_plan(
    bs: Seq<StructBindingV>,
    args: Seq<ExprV>,
    fields: Seq<(Seq<char>, TypeRefV)>,
    end_offset: nat,
    script_size: Option<i64>,
    cs: Seq<(Seq<char>, ExprV)>,
) -> Result<Seq<(Seq<char>, TypeRefV, ExprV)>, Seq<char>> {
    let ts = fields.map_values(|f: (Seq<char>, TypeRefV)| f.1);
    match duplicate_field_from(bs, Set::empty()) {
        Some(f) => Err("duplicate state field '"@ + f + "'"@),
        None => if args.len() != 1 {
            Err("readInputState(input_idx) expects 1 argument"@)
        } else if fields.len() == 0 {
            Err("readInputState requires contract fields"@)
        } else if bs.len() != fields.len() {
            Err("readInputState bindings must include all contract fields exactly once"@)
        } else {
            match script_size {
                None => Err("readInputState requires this.scriptSize"@),
                Some(size) => match encoded_len(ts, cs) {
                    None => Err(unsupported_field_message("readInputState"@, ts[first_unsized(ts, cs)])),
                    Some(total) => if total > end_offset {
                        Err("readInputState state offset underflow"@)
                    } else {
                        match first_read_binding_error(fields, bs) {
                            Some(m) => Err(m),
                            None => Ok(
                                Seq::new(
                                    fields.len(),
                                    |k: int| read_definition(fields, bs, k, args[0], (end_offset - total) as i64, size, cs),
                                ),
                            ),
                        }
                    },
                },
            }
        },
    }
}

/// `readInputState` with these bindings, argument count, field count and
/// script size gets past its checks that need no layout, to the encoded
/// length of the state.
pub open spec fn read_reaches_layout(bs: Seq<StructBindingV>, nargs: nat, nfields: nat, script_size: Option<i64>) -> bool {
    &&& duplicate_field_from(bs, Set::empty()) is None
    &&& nargs == 1
    &&& nfields > 0
    &&& bs.len() == nfields
    &&& script_size is Some
}

/// `readInputStateWithTemplate` with these bindings and argument count
/// gets past its checks that need no layout: no field bound twice, four
/// arguments, a target struct with as many fields as bindings.
pub open spec fn template_read_reaches_layout(
    target: Option<Seq<char>>,
    bs: Seq<StructBindingV>,
    nargs: nat,
    reg: Seq<(Seq<char>, Seq<(Seq<char>, TypeRefV)>)>,
) -> bool {
    &&& duplicate_field_from(bs, Set::empty()) is None
    &&& nargs == 4
    &&& state_struct_name(target, bs, reg, |a: TypeRefV, b: TypeRefV| same_type(a, b)) matches Ok(sn)
    &&& registry_lookup(reg, sn) matches Some(sf)
    &&& bs.len() == sf.len()
}

/// The names and types of the contract fields.
pub open spec fn fields_layout(fields: Seq<ContractFieldAst>) -> Seq<(Seq<char>, TypeRefV)> {
    fields.map_values(|f: ContractFieldAst| (f.name@, f.type_ref@))
}

/// View of a list of definitions.
pub open spec fn definitions_view(ds: Seq<(String, TypeRef, Expr)>) -> Seq<(Seq<char>, TypeRefV, ExprV)> {
    ds.map_values(|d: (String, TypeRef, Expr)| (d.0@, d.1@, d.2@))
}

/// Every prefix of a list with an encoded length has one, no longer, and
/// every type in the list has a fixed size.
proof fn lemma_encoded_len_prefix(ts: Seq<TypeRefV>, cs: Seq<(Seq<char>, ExprV)>, k: int)
    requires
        encoded_len(ts, cs) is Some,
        0 <= k <= ts.len(),
    ensures
        encoded_len(ts.take(k), cs) is Some,
        encoded_len(ts.take(k), cs).unwrap() <= encoded_len(ts, cs).unwrap(),
        k < ts.len() ==> chunk_size(ts[k], cs) is Some,
        k < ts.len() ==> encoded_len(ts.take(k + 1), cs) == Some(
            encoded_len(ts.take(k), cs).unwrap() + chunk_size(ts[k], cs).unwrap(),
        ),
    decreases ts.len() - k,
{
    if k == ts.len() {
        assert(ts.take(k) =~= ts);
    } else {
        lemma_encoded_len_prefix(ts, cs, k + 1);
        assert(ts.take(k + 1).drop_last() =~= ts.take(k));
        assert(ts.take(k + 1).last() == ts[k]);
    }
}

/// The definitions that `readInputState(input)` with these bindings makes
/// for the contract's fields, or the error where it stops. The definitions
/// are computed without being compiled; a caller compiles them in order.
pub fn read_input_state_definitions(
    bindings: &[StructBindingAst],
    args: &[Expr],
    contract_fields: &[ContractFieldAst],
    contract_fields_end_offset: usize,
    script_size: Option<i64>,
    contract_constants: &ConstantMap,
) -> (r: Result<Vec<(String, TypeRef, Expr)>, CompilerError>)
    requires
        read_reaches_layout(bindings_view(bindings@), args@.len(), contract_fields@.len(), script_size) ==> encoded_len_fits(
            field_types(contract_fields@),
            constants_view(*contract_constants),
        ),
    ensures
        match read_input_state_plan(
            bindings_view(bindings@),
            args@.map_values(|e: Expr| e@),
            fields_layout(contract_fields@),
            contract_fields_end_offset as nat,
            script_size,
            constants_view(*contract_constants),
        ) {
            Ok(ds) => r matches Ok(v) && definitions_view(v@) == ds,
            Err(m) => r matches Err(CompilerError::Unsupported(x)) && x@ == m,
        },
{
    let ghost bs = bindings_view(bindings@);
    let ghost fields = fields_layout(contract_fields@);
    let ghost cs = constants_view(*contract_constants);
    let ghost ts = fields.map_values(|f: (Seq<char>, TypeRefV)| f.1);
    assert(ts =~= field_types(contract_fields@));
    let mut seen: Vec<String> = Vec::new();
    let mut i: usize = 0;
    assert(bs.skip(0) =~= bs);
    assert(views(seen@).to_set() =~= Set::<Seq<char>>::empty());
    while i < bindings.len()
        invariant
            i <= bindings@.len(),
            bs == bindings_view(bindings@),
            bs.len() == bindings@.len(),
            duplicate_field_from(bs, Set::empty()) == duplicate_field_from(bs.skip(i as int), views(seen@).to_set()),
        decreases bindings@.len() - i,
    {
        let ghost rest = bs.skip(i as int);
        assert(rest[0] == binding_view(bindings@[i as int]));
        assert(rest.drop_first() =~= bs.skip(i + 1));
        if contains_name(&seen, &bindings[i].field_name) {
            let mut m = String::from_str("duplicate state field '");
            m.append(bindings[i].field_name.as_str());
            m.append("'");
            return Err(CompilerError::Unsupported(m));
        }
        let ghost before = views(seen@);
        seen.push(bindings[i].field_name.clone());
        proof {
            assert(views(seen@) =~= before.push(bindings@[i as int].field_name@));
            before.lemma_push_to_set_commute(bindings@[i as int].field_name@);
        }
        i = i + 1;
    }
    assert(bs.skip(i as int).len() == 0);
    if args.len() != 1 {
        return Err(CompilerError::Unsupported(String::from_str("readInputState(input_idx) expects 1 argument")));
    }
    if contract_fields.len() == 0 {
        return Err(CompilerError::Unsupported(String::from_str("readInputState requires contract fields")));
    }
    if bindings.len() != contract_fields.len() {
        return Err(CompilerError::Unsupported(
            String::from_str("readInputState bindings must include all contract fields exactly once"),
        ));
    }
    let size = match script_size {
        Some(s) => s,
        None => {
            return Err(CompilerError::Unsupported(String::from_str("readInputState requires this.scriptSize")));
        },
    };
    proof {
        assert(ts.take(ts.len() as int) =~= ts);
    }
    let total = match encoded_state_len(contract_fields, contract_constants) {
        Ok(n) => n,
        Err(e) => {
            return Err(e);
        },
    };
    let start = match contract_fields_end_offset.checked_sub(total) {
        Some(s) => s,
        None => {
            return Err(CompilerError::Unsupported(String::from_str("readInputState state offset underflow")));
        },
    };
    let mut definitions: Vec<(String, TypeRef, Expr)> = Vec::new();
    let mut chunk_offset: usize = 0;
    i = 0;
    assert(fields.skip(0) =~= fields);
    assert(ts.take(0) =~= Seq::<TypeRefV>::empty());
    while i < contract_fields.len()
        invariant
            i <= contract_fields@.len(),
            fields == fields_layout(contract_fields@),
            fields.len() == contract_fields@.len(),
            ts == fields.map_values(|f: (Seq<char>, TypeRefV)| f.1),
            bs == bindings_view(bindings@),
            cs == constants_view(*contract_constants),
            args@.len() == 1,
            duplicate_field_from(bs, Set::empty()) is None,
            fields.len() > 0,
            bs.len() == fields.len(),
            script_size == Some(size),
            total <= contract_fields_end_offset,
            encoded_len(ts, cs) == Some(total as nat),
            total <= usize::MAX,
            start == contract_fields_end_offset - total,
            encoded_len(ts.take(i as int), cs) == Some(chunk_offset as nat),
            first_read_binding_error(fields, bs) == first_read_binding_error(fields.skip(i as int), bs),
            definitions@.len() == i,
            forall|k: int| 0 <= k < i ==> #[trigger] definitions_view(definitions@)[k] == read_definition(
                fields,
                bs,
                k,
                args@[0]@,
                start as i64,
                size,
                cs,
            ),
        decreases contract_fields@.len() - i,
    {
        let ghost rest = fields.skip(i as int);
        assert(rest[0] == (contract_fields@[i as int].name@, contract_fields@[i as int].type_ref@));
        assert(rest.drop_first() =~= fields.skip(i + 1));
        assert(ts[i as int] == contract_fields@[i as int].type_ref@);
        proof {
            lemma_encoded_len_prefix(ts, cs, i as int);
            lemma_encoded_len_prefix(ts, cs, i as int + 1);
            assert(chunk_offset + data_prefix_bytes(type_fixed_size(ts[i as int], cs).unwrap()).len() <= usize::MAX);
        }
        let k = match find_binding(bindings, &contract_fields[i].name) {
            Some(k) => k,
            None => {
                return Err(CompilerError::Unsupported(
                    String::from_str("readInputState bindings must include all contract fields exactly once"),
                ));
            },
        };
        assert(bs[k as int] == binding_view(bindings@[k as int]));
        if !types_same(&bindings[k].type_ref, &contract_fields[i].type_ref) {
            let mut m = String::from_str("readInputState binding '");
            m.append(bindings[k].name.as_str());
            m.append("' expects ");
            let t = contract_fields[i].type_ref.type_text();
            m.append(t.as_str());
            return Err(CompilerError::Unsupported(m));
        }
        let value = match read_input_state_field_expr(
            &args[0],
            &contract_fields[i].type_ref,
            Expr::int_literal(start as i64),
            chunk_offset,
            Expr::int_literal(size),
            contract_constants,
            "readInputState",
        ) {
            Ok(e) => e,
            Err(e) => {
                return Err(e);
            },
        };
        let chunk = match encoded_type_chunk_size(&contract_fields[i].type_ref, contract_constants) {
            Ok(c) => c,
            Err(e) => {
                return Err(e);
            },
        };
        let ghost before = definitions@;
        definitions.push((bindings[k].name.clone(), clone_type(&bindings[k].type_ref), value));
        proof {
            assert(definitions_view(definitions@)[i as int] == read_definition(fields, bs, i as int, args@[0]@, start as i64, size, cs));
            assert forall|j: int| 0 <= j < i + 1 implies #[trigger] definitions_view(definitions@)[j] == read_definition(
                fields,
                bs,
                j,
                args@[0]@,
                start as i64,
                size,
                cs,
            ) by {
                if j < i {
                    assert(definitions@[j] == before[j]);
                    assert(definitions_view(before)[j] == read_definition(fields, bs, j, args@[0]@, start as i64, size, cs));
                }
            }
            lemma_encoded_len_prefix(ts, cs, i as int + 1);
        }
        chunk_offset = chunk_offset + chunk;
        i = i + 1;
    }
    assert(fields.skip(i as int).len() == 0);
    proof {
        let ds = Seq::new(
            fields.len(),
            |k: int| read_definition(fields, bs, k, args@[0]@, start as i64, size, cs),
        );
        assert(args@.map_values(|e: Expr| e@)[0] == args@[0]@);
        assert(definitions_view(definitions@) =~= ds);
    }
    Ok(definitions)
}

/// The error of the first target field, in order, whose binding is missing
/// or whose type has no fixed size.
pub open spec fn first_template_read_error(
    fields: Seq<(Seq<char>, TypeRefV)>,
    bs: Seq<StructBindingV>,
    cs: Seq<(Seq<char>, ExprV)>,
) -> Option<Seq<char>>
    decreases fields.len(),
{
    if fields.len() == 0 {
        None
    } else {
        match binding_for(bs, fields[0].0) {
            None => Some("readInputStateWithTemplate bindings must include all target fields exactly once"@),
            Some(_) => if type_fixed_size(fields[0].1, cs) is None {
                Some(unsupported_field_message("readInputStateWithTemplate"@, fields[0].1))
            } else {
                first_template_read_error(fields.drop_first(), bs, cs)
            },
        }
    }
}

/// The definition for target field `k`: the binding's name and type, and
/// the read of the field out of input `input`'s state, which starts at
/// `start` in a redeem script of `size` bytes.
pub open spec fn template_read_definition(
    fields: Seq<(Seq<char>, TypeRefV)>,
    bs: Seq<StructBindingV>,
    k: int,
    input: ExprV,
    start: ExprV,
    size: ExprV,
    cs: Seq<(Seq<char>, ExprV)>,
) -> (Seq<char>, TypeRefV, ExprV) {
    let b = binding_for(bs, fields[k].0).unwrap();
    let ts = fields.map_values(|f: (Seq<char>, TypeRefV)| f.1);
    (
        b.name,
        b.type_ref,
        field_read_v(input, fields[k].1, start, encoded_len(ts.take(k), cs).unwrap(), size, type_fixed_size(fields[k].1, cs).unwrap()),
    )
}

/// What `readInputStateWithTemplate(input, prefix_len, suffix_len, hash)`
/// with these bindings checks and defines, where the target struct's
/// flattened field types are `layout`: the template checks (as
/// `template_checks_v`) and one definition per field of the target struct,
/// each read from a state that starts right after the template prefix in a
/// redeem script of prefix, encoded state and suffix; or the error it stops
/// at: a field bound twice, other than four arguments, no target struct, a
/// binding count that differs from the field count, an empty or unsized
/// layout, or a field whose binding is missing or whose type has no fixed
/// size.
pub open spec fn read_input_state_with_template_plan(
    target: Option<Seq<char>>,
    bs: Seq<StructBindingV>,
    args: Seq<ExprV>,
    reg: Seq<(Seq<char>, Seq<(Seq<char>, TypeRefV)>)>,
    layout: Seq<TypeRefV>,
    cs: Seq<(Seq<char>, ExprV)>,
) -> Result<((ExprV, ExprV, ExprV, ExprV), Seq<(Seq<char>, TypeRefV, ExprV)>), Seq<char>> {
    let all_target = "readInputStateWithTemplate bindings must include all target fields exactly once"@;
    match duplicate_field_from(bs, Set::empty()) {
        Some(f) => Err("duplicate state field '"@ + f + "'"@),
        None => if args.len() != 4 {
            Err(
                "readInputStateWithTemplate(input_idx, template_prefix_len, template_suffix_len, expected_template_hash) expects 4 arguments"@,
            )
        } else {
            match state_struct_name(target, bs, reg, |a: TypeRefV, b: TypeRefV| same_type(a, b)) {
                Err(m) => Err(m),
                Ok(sn) => match registry_lookup(reg, sn) {
                    None => Err("unknown struct '"@ + sn + "'"@),
                    Some(sf) => if bs.len() != sf.len() {
                        Err(all_target)
                    } else if layout.len() == 0 {
                        Err("readInputStateWithTemplate requires a struct type"@)
                    } else {
                        match encoded_len(layout, cs) {
                            None => Err(unsupported_field_message("readInputState"@, layout[first_unsized(layout, cs)])),
                            Some(n) => match first_template_read_error(sf, bs, cs) {
                                Some(m) => Err(m),
                                None => {
                                    let size = binary_v(BinaryOp::Add, binary_v(BinaryOp::Add, args[1], int_v(n as i64)), args[2]);
                                    Ok(
                                        (
                                            template_checks_v(args, n),
                                            Seq::new(
                                                sf.len(),
                                                |k: int| template_read_definition(sf, bs, k, args[0], args[1], size, cs),
                                            ),
                                        ),
                                    )
                                },
                            },
                        }
                    },
                },
            }
        },
    }
}

/// The field types of a struct declaration.
pub open spec fn spec_field_types(fields: Seq<(Seq<char>, TypeRefV)>) -> Seq<TypeRefV> {
    fields.map_values(|f: (Seq<char>, TypeRefV)| f.1)
}

/// The template checks and the definitions that
/// `readInputStateWithTemplate(input, prefix_len, suffix_len, hash)` with
/// these bindings makes, for a target struct whose flattened field types
/// are `layout_field_types`; or the error where it stops. Nothing is
/// compiled; a caller emits the checks and then the definitions in order.
pub fn read_input_state_with_template_definitions(
    target_struct: Option<&str>,
    bindings: &[StructBindingAst],
    args: &[Expr],
    structs: &StructRegistry,
    layout_field_types: &[TypeRef],
    contract_constants: &ConstantMap,
) -> (r: Result<(TemplateChecks, Vec<(String, TypeRef, Expr)>), CompilerError>)
    requires
        registry_wf(*structs),
        template_read_reaches_layout(
            match target_struct {
                Some(t) => Some(t@),
                None => None,
            },
            bindings_view(bindings@),
            args@.len(),
            registry_view(*structs),
        ) ==> {
            &&& encoded_len_fits(layout_types(layout_field_types@), constants_view(*contract_constants))
            &&& forall|j: int| 0 <= j < structs.structs@.len() ==> encoded_len_fits(
                #[trigger] spec_field_types(struct_fields_view(structs.structs@[j].1)),
                constants_view(*contract_constants),
            )
        },
    ensures
        ({
            let target = match target_struct {
                Some(t) => Some(t@),
                None => None,
            };
            match read_input_state_with_template_plan(
                target,
                bindings_view(bindings@),
                args@.map_values(|e: Expr| e@),
                registry_view(*structs),
                layout_types(layout_field_types@),
                constants_view(*contract_constants),
            ) {
                Ok((checks, ds)) => r matches Ok((c, v)) && (c.actual_input_spk@, c.expected_input_spk@, c.expected_template_hash@, c.template@)
                    == checks && definitions_view(v@) == ds,
                Err(m) => r matches Err(CompilerError::Unsupported(x)) && x@ == m,
            }
        }),
{
    let ghost bs = bindings_view(bindings@);
    let ghost cs = constants_view(*contract_constants);
    let ghost reg = registry_view(*structs);
    let ghost avs = args@.map_values(|e: Expr| e@);
    let mut seen: Vec<String> = Vec::new();
    let mut i: usize = 0;
    assert(bs.skip(0) =~= bs);
    assert(views(seen@).to_set() =~= Set::<Seq<char>>::empty());
    while i < bindings.len()
        invariant
            i <= bindings@.len(),
            bs == bindings_view(bindings@),
            bs.len() == bindings@.len(),
            duplicate_field_from(bs, Set::empty()) == duplicate_field_from(bs.skip(i as int), views(seen@).to_set()),
        decreases bindings@.len() - i,
    {
        let ghost rest = bs.skip(i as int);
        assert(rest[0] == binding_view(bindings@[i as int]));
        assert(rest.drop_first() =~= bs.skip(i + 1));
        if contains_name(&seen, &bindings[i].field_name) {
            let mut m = String::from_str("duplicate state field '");
            m.append(bindings[i].field_name.as_str());
            m.append("'");
            return Err(CompilerError::Unsupported(m));
        }
        let ghost before = views(seen@);
        seen.push(bindings[i].field_name.clone());
        proof {
            assert(views(seen@) =~= before.push(bindings@[i as int].field_name@));
            before.lemma_push_to_set_commute(bindings@[i as int].field_name@);
        }
        i = i + 1;
    }
    assert(bs.skip(i as int).len() == 0);
    if args.len() != 4 {
        return Err(CompilerError::Unsupported(String::from_str(
            "readInputStateWithTemplate(input_idx, template_prefix_len, template_suffix_len, expected_template_hash) expects 4 arguments",
        )));
    }
    let struct_name = match struct_name_for_state_bindings(target_struct, bindings, structs) {
        Ok(n) => n,
        Err(e) => {
            return Err(e);
        },
    };
    let idx = match registry_contains(structs, &struct_name) {
        Some(j) => j,
        None => {
            let mut m = String::from_str("unknown struct '");
            m.append(struct_name.as_str());
            m.append("'");
            return Err(CompilerError::Unsupported(m));
        },
    };
    let spec = &structs.structs[idx].1;
    if bindings.len() != spec.fields.len() {
        return Err(CompilerError::Unsupported(
            String::from_str("readInputStateWithTemplate bindings must include all target fields exactly once"),
        ));
    }
    let checks = match template_checks(args, layout_field_types, contract_constants) {
        Ok(c) => c,
        Err(e) => {
            return Err(e);
        },
    };
    let script_size_expr = match templated_input_script_size_expr(&args[1], &args[2], layout_field_types, contract_constants) {
        Ok(e) => e,
        Err(e) => {
            return Err(e);
        },
    };
    let ghost n = encoded_len(layout_types(layout_field_types@), cs).unwrap();
    let ghost target = match target_struct {
        Some(t) => Some(t@),
        None => None,
    };
    let ghost fields = struct_fields_view(*spec);
    let ghost ts = spec_field_types(fields);
    assert(encoded_len_fits(ts, cs));
    let mut definitions: Vec<(String, TypeRef, Expr)> = Vec::new();
    let mut chunk_offset: usize = 0;
    i = 0;
    assert(fields.skip(0) =~= fields);
    assert(ts.take(0) =~= Seq::<TypeRefV>::empty());
    while i < spec.fields.len()
        invariant
            i <= spec.fields@.len(),
            fields == struct_fields_view(*spec),
            fields.len() == spec.fields@.len(),
            ts == spec_field_types(fields),
            encoded_len_fits(ts, cs),
            bs == bindings_view(bindings@),
            cs == constants_view(*contract_constants),
            args@.len() == 4,
            avs == args@.map_values(|e: Expr| e@),
            target == (match target_struct {
                Some(t) => Some(t@),
                None => None,
            }),
            reg == registry_view(*structs),
            duplicate_field_from(bs, Set::empty()) is None,
            state_struct_name(target, bs, reg, |a: TypeRefV, b: TypeRefV| same_type(a, b)) == Ok::<Seq<char>, Seq<char>>(
                struct_name@,
            ),
            registry_lookup(reg, struct_name@) == Some(fields),
            bs.len() == fields.len(),
            layout_types(layout_field_types@).len() > 0,
            encoded_len(layout_types(layout_field_types@), cs) == Some(n),
            script_size_expr@ == binary_v(BinaryOp::Add, binary_v(BinaryOp::Add, args@[1]@, int_v(n as i64)), args@[2]@),
            encoded_len(ts.take(i as int), cs) == Some(chunk_offset as nat),
            first_template_read_error(fields, bs, cs) == first_template_read_error(fields.skip(i as int), bs, cs),
            definitions@.len() == i,
            forall|k: int| 0 <= k < i ==> #[trigger] definitions_view(definitions@)[k] == template_read_definition(
                fields,
                bs,
                k,
                args@[0]@,
                args@[1]@,
                script_size_expr@,
                cs,
            ),
        decreases spec.fields@.len() - i,
    {
        let ghost rest = fields.skip(i as int);
        assert(rest[0] == (spec.fields@[i as int].name@, spec.fields@[i as int].type_ref@));
        assert(rest.drop_first() =~= fields.skip(i + 1));
        assert(ts[i as int] == spec.fields@[i as int].type_ref@);
        let k = match find_binding(bindings, &spec.fields[i].name) {
            Some(k) => k,
            None => {
                return Err(CompilerError::Unsupported(
                    String::from_str("readInputStateWithTemplate bindings must include all target fields exactly once"),
                ));
            },
        };
        assert(bs[k as int] == binding_view(bindings@[k as int]));
        proof {
            assert(ts.take(i + 1).drop_last() =~= ts.take(i as int));
            assert(ts.take(i + 1).last() == ts[i as int]);
            assert(encoded_len(ts.take(i + 1), cs) matches Some(m) ==> m <= usize::MAX);
        }
        let value = match read_input_state_field_expr(
            &args[0],
            &spec.fields[i].type_ref,
            clone_expr(&args[1]),
            chunk_offset,
            clone_expr(&script_size_expr),
            contract_constants,
            "readInputStateWithTemplate",
        ) {
            Ok(e) => e,
            Err(e) => {
                return Err(e);
            },
        };
        let chunk = match encoded_type_chunk_size(&spec.fields[i].type_ref, contract_constants) {
            Ok(c) => c,
            Err(e) => {
                return Err(e);
            },
        };
        let ghost before = definitions@;
        definitions.push((bindings[k].name.clone(), clone_type(&bindings[k].type_ref), value));
        proof {
            assert(definitions_view(definitions@)[i as int] == template_read_definition(
                fields,
                bs,
                i as int,
                args@[0]@,
                args@[1]@,
                script_size_expr@,
                cs,
            ));
            assert forall|j: int| 0 <= j < i + 1 implies #[trigger] definitions_view(definitions@)[j] == template_read_definition(
                fields,
                bs,
                j,
                args@[0]@,
                args@[1]@,
                script_size_expr@,
                cs,
            ) by {
                if j < i {
                    assert(definitions@[j] == before[j]);
                    assert(definitions_view(before)[j] == template_read_definition(
                        fields,
                        bs,
                        j,
                        args@[0]@,
                        args@[1]@,
                        script_size_expr@,
                        cs,
                    ));
                }
            }
        }
        chunk_offset = chunk_offset + chunk;
        i = i + 1;
    }
    assert(fields.skip(i as int).len() == 0);
    proof {
        let size = binary_v(BinaryOp::Add, binary_v(BinaryOp::Add, avs[1], int_v(n as i64)), avs[2]);
        assert(avs[0] == args@[0]@ && avs[1] == args@[1]@ && avs[2] == args@[2]@);
        let ds = Seq::new(fields.len(), |k: int| template_read_definition(fields, bs, k, avs[0], avs[1], size, cs));
        assert(definitions_view(definitions@) =~= ds);
    }
    Ok((checks, definitions))
}


/// The definitions of a successful `readInputState(input)` read the
/// contract fields' chunks one after another, in field order, from the
/// start of the state to its end: the first field's chunk starts at offset
/// 0 of the state, each next field's chunk starts right where the one
/// before it ends, and the last one ends at `end_offset`, where the state
/// ends. Each read takes its field's payload out of the input's redeem
/// script of the known script size.
pub proof fn lemma_state_reads_tile_the_state(
    bs: Seq<StructBindingV>,
    args: Seq<ExprV>,
    fields: Seq<(Seq<char>, TypeRefV)>,
    end_offset: nat,
    script_size: Option<i64>,
    cs: Seq<(Seq<char>, ExprV)>,
)
    requires
        read_input_state_plan(bs, args, fields, end_offset, script_size, cs) is Ok,
    ensures
        ({
            let ds = read_input_state_plan(bs, args, fields, end_offset, script_size, cs)->Ok_0;
            let ts = fields.map_values(|f: (Seq<char>, TypeRefV)| f.1);
            let start = end_offset - encoded_len(ts, cs).unwrap();
            let st = int_v(start as i64);
            let sz = int_v(script_size.unwrap());
            let n = fields.len() as int;
            &&& ds.len() == n && n > 0
            &&& 0 <= start
            &&& ds[0].2 == field_read_v(args[0], ts[0], st, 0, sz, type_fixed_size(ts[0], cs).unwrap())
            &&& forall|k: int| 0 <= k < n - 1 ==> exists|c: nat| #![trigger field_read_v(args[0], ts[k], st, c, sz, type_fixed_size(ts[k], cs).unwrap())]
                #[trigger] ds[k].2 == field_read_v(args[0], ts[k], st, c, sz, type_fixed_size(ts[k], cs).unwrap())
                && ds[k + 1].2 == field_read_v(
                    args[0],
                    ts[k + 1],
                    st,
                    c + chunk_size(ts[k], cs).unwrap(),
                    sz,
                    type_fixed_size(ts[k + 1], cs).unwrap(),
                )
            &&& exists|c: nat| #![trigger field_read_v(args[0], ts[n - 1], st, c, sz, type_fixed_size(ts[n - 1], cs).unwrap())]
                ds[n - 1].2 == field_read_v(args[0], ts[n - 1], st, c, sz, type_fixed_size(ts[n - 1], cs).unwrap())
                && start + c + chunk_size(ts[n - 1], cs).unwrap() == end_offset
        }),
{
    let ds = read_input_state_plan(bs, args, fields, end_offset, script_size, cs)->Ok_0;
    let ts = fields.map_values(|f: (Seq<char>, TypeRefV)| f.1);
    let total = encoded_len(ts, cs).unwrap();
    let start = end_offset - total;
    let st = int_v(start as i64);
    let size = script_size.unwrap();
    let sz = int_v(size);
    let n = fields.len() as int;
    assert(ds == Seq::new(fields.len(), |k: int| read_definition(fields, bs, k, args[0], start as i64, size, cs)));
    assert(ts.take(0) =~= Seq::<TypeRefV>::empty());
    assert forall|k: int| 0 <= k < n - 1 implies exists|c: nat| #![trigger field_read_v(args[0], ts[k], st, c, sz, type_fixed_size(ts[k], cs).unwrap())]
        #[trigger] ds[k].2 == field_read_v(args[0], ts[k], st, c, sz, type_fixed_size(ts[k], cs).unwrap())
        && ds[k + 1].2 == field_read_v(
            args[0],
            ts[k + 1],
            st,
            c + chunk_size(ts[k], cs).unwrap(),
            sz,
            type_fixed_size(ts[k + 1], cs).unwrap(),
        ) by {
        lemma_encoded_len_prefix(ts, cs, k);
        lemma_encoded_len_prefix(ts, cs, k + 1);
        let c = encoded_len(ts.take(k), cs).unwrap();
        assert(ds[k].2 == field_read_v(args[0], ts[k], st, c, sz, type_fixed_size(ts[k], cs).unwrap()));
    }
    lemma_encoded_len_prefix(ts, cs, n - 1);
    assert(ts.take(n) =~= ts);
    let c = encoded_len(ts.take(n - 1), cs).unwrap();
    assert(ds[n - 1].2 == field_read_v(args[0], ts[n - 1], st, c, sz, type_fixed_size(ts[n - 1], cs).unwrap()));
}

/// The fields of the struct a `readInputStateWithTemplate` destructuring
/// with these bindings targets; empty where there is none.
pub open spec fn template_target_fields(
    target: Option<Seq<char>>,
    bs: Seq<StructBindingV>,
    reg: Seq<(Seq<char>, Seq<(Seq<char>, TypeRefV)>)>,
) -> Seq<(Seq<char>, TypeRefV)> {
    match state_struct_name(target, bs, reg, |a: TypeRefV, b: TypeRefV| same_type(a, b)) {
        Ok(sn) => match registry_lookup(reg, sn) {
            Some(sf) => sf,
            None => Seq::empty(),
        },
        Err(_) => Seq::empty(),
    }
}

/// The definitions of a successful `readInputStateWithTemplate(input,
/// prefix_len, suffix_len, hash)` read the target struct's fields' chunks
/// one after another, in field order, from the start of the state, which
/// sits right after the template prefix (at `prefix_len`), to its end: the
/// first chunk starts at offset 0 of the state, each next chunk starts
/// right where the one before it ends, and the last one ends after as many
/// bytes as the struct's encoded state takes. The redeem script is taken to
/// be prefix, encoded state and suffix long.
pub proof fn lemma_template_reads_tile_the_state(
    target: Option<Seq<char>>,
    bs: Seq<StructBindingV>,
    args: Seq<ExprV>,
    reg: Seq<(Seq<char>, Seq<(Seq<char>, TypeRefV)>)>,
    layout: Seq<TypeRefV>,
    cs: Seq<(Seq<char>, ExprV)>,
)
    requires
        read_input_state_with_template_plan(target, bs, args, reg, layout, cs) is Ok,
    ensures
        ({
            let ds = read_input_state_with_template_plan(target, bs, args, reg, layout, cs)->Ok_0.1;
            let sf = template_target_fields(target, bs, reg);
            let ts = sf.map_values(|f: (Seq<char>, TypeRefV)| f.1);
            let sz = binary_v(
                BinaryOp::Add,
                binary_v(BinaryOp::Add, args[1], int_v(encoded_len(layout, cs).unwrap() as i64)),
                args[2],
            );
            let st = args[1];
            let n = sf.len() as int;
            &&& ds.len() == n
            &&& n > 0 ==> ds[0].2 == field_read_v(args[0], ts[0], st, 0, sz, type_fixed_size(ts[0], cs).unwrap())
            &&& forall|k: int| 0 <= k < n - 1 ==> exists|c: nat| #![trigger field_read_v(args[0], ts[k], st, c, sz, type_fixed_size(ts[k], cs).unwrap())]
                #[trigger] ds[k].2 == field_read_v(args[0], ts[k], st, c, sz, type_fixed_size(ts[k], cs).unwrap())
                && ds[k + 1].2 == field_read_v(
                    args[0],
                    ts[k + 1],
                    st,
                    c + chunk_size(ts[k], cs).unwrap(),
                    sz,
                    type_fixed_size(ts[k + 1], cs).unwrap(),
                )
            &&& n > 0 ==> exists|c: nat| #![trigger field_read_v(args[0], ts[n - 1], st, c, sz, type_fixed_size(ts[n - 1], cs).unwrap())]
                ds[n - 1].2 == field_read_v(args[0], ts[n - 1], st, c, sz, type_fixed_size(ts[n - 1], cs).unwrap())
                && encoded_len(ts, cs) == Some(c + chunk_size(ts[n - 1], cs).unwrap())
        }),
{
    let ds = read_input_state_with_template_plan(target, bs, args, reg, layout, cs)->Ok_0.1;
    let sf = template_target_fields(target, bs, reg);
    let ts = sf.map_values(|f: (Seq<char>, TypeRefV)| f.1);
    let nl = encoded_len(layout, cs).unwrap();
    let sz = binary_v(BinaryOp::Add, binary_v(BinaryOp::Add, args[1], int_v(nl as i64)), args[2]);
    let st = args[1];
    let n = sf.len() as int;
    assert(ds == Seq::new(sf.len(), |k: int| template_read_definition(sf, bs, k, args[0], args[1], sz, cs)));
    lemma_template_reads_sized(sf, bs, cs);
    assert(ts.take(0) =~= Seq::<TypeRefV>::empty());
    assert forall|k: int| 0 <= k < n - 1 implies exists|c: nat| #![trigger field_read_v(args[0], ts[k], st, c, sz, type_fixed_size(ts[k], cs).unwrap())]
        #[trigger] ds[k].2 == field_read_v(args[0], ts[k], st, c, sz, type_fixed_size(ts[k], cs).unwrap())
        && ds[k + 1].2 == field_read_v(
            args[0],
            ts[k + 1],
            st,
            c + chunk_size(ts[k], cs).unwrap(),
            sz,
            type_fixed_size(ts[k + 1], cs).unwrap(),
        ) by {
        lemma_encoded_len_prefix(ts, cs, k);
        lemma_encoded_len_prefix(ts, cs, k + 1);
        let c = encoded_len(ts.take(k), cs).unwrap();
        assert(ds[k].2 == field_read_v(args[0], ts[k], st, c, sz, type_fixed_size(ts[k], cs).unwrap()));
    }
    if n > 0 {
        lemma_encoded_len_prefix(ts, cs, n - 1);
        assert(ts.take(n) =~= ts);
        let c = encoded_len(ts.take(n - 1), cs).unwrap();
        assert(ds[n - 1].2 == field_read_v(args[0], ts[n - 1], st, c, sz, type_fixed_size(ts[n - 1], cs).unwrap()));
    }
}

/// Fields none of which has a template read error all have fixed sizes,
/// so their encoded length exists.
proof fn lemma_template_reads_sized(fields: Seq<(Seq<char>, TypeRefV)>, bs: Seq<StructBindingV>, cs: Seq<(Seq<char>, ExprV)>)
    requires
        first_template_read_error(fields, bs, cs) is None,
    ensures
        encoded_len(fields.map_values(|f: (Seq<char>, TypeRefV)| f.1), cs) is Some,
    decreases fields.len(),
{
    let ts = fields.map_values(|f: (Seq<char>, TypeRefV)| f.1);
    if fields.len() > 0 {
        lemma_template_reads_sized(fields.drop_first(), bs, cs);
        assert(fields.drop_first().map_values(|f: (Seq<char>, TypeRefV)| f.1) =~= ts.drop_first());
        assert(ts[0] == fields[0].1);
        lemma_encoded_len_cons(ts, cs);
    }
}

/// A list has an encoded length where its first type has a fixed size and
/// the rest has one.
proof fn lemma_encoded_len_cons(ts: Seq<TypeRefV>, cs: Seq<(Seq<char>, ExprV)>)
    requires
        ts.len() > 0,
        chunk_size(ts[0], cs) is Some,
        encoded_len(ts.drop_first(), cs) is Some,
    ensures
        encoded_len(ts, cs) is Some,
    decreases ts.len(),
{
    if ts.len() > 1 {
        let p = ts.drop_last();
        let r = ts.drop_first();
        assert(p.drop_first() =~= r.drop_last());
        assert(r.last() == ts.last());
        assert(encoded_len(r.drop_last(), cs) is Some && chunk_size(r.last(), cs) is Some);
        assert(p[0] == ts[0]);
        lemma_encoded_len_cons(p, cs);
        assert(chunk_size(ts.last(), cs) is Some);
        assert(encoded_len(ts.drop_last(), cs) is Some);
    } else {
        assert(ts.drop_last() =~= Seq::<TypeRefV>::empty());
        assert(encoded_len(ts.drop_last(), cs) == Some(0nat));
        assert(ts.last() == ts[0]);
        assert(chunk_size(ts.last(), cs) is Some);
    }
}

} // verus!
