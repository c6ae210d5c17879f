//! The byte layout of encoded contract state, and the expressions that read
//! a field of another input's state out of its signature script.
use vstd::prelude::*;
use crate::ast::{
    binary_expr, clone_expr, const_value, constants_view, dim_view, dims_view, exprs_view, type_name_of, types_same,
    ArrayDim, ArrayDimV, BinaryOp, ConstantMap, ContractFieldAst, Expr, ExprKind, ExprKindV, ExprV, IntrospectionKind,
    NullaryOp, Span, StructBindingAst, StructBindingV, StructFieldSpec, StructRegistry, StructSpec, TypeBase, TypeBaseV,
    TypeRef, TypeRefV, binding_view, bindings_view,
};
use crate::error::CompilerError;

verus! {

/// The fixed byte size of a base type: 8 for `int`, 1 for `bool` and
/// `byte`, 32 for `pubkey`, 65 for `sig`, 64 for `datasig`; the others have
/// none.
pub open spec fn base_fixed_size(b: TypeBaseV) -> Option<nat> {
    match b {
        TypeBaseV::Int => Some(8),
        TypeBaseV::Bool => Some(1),
        TypeBaseV::Byte => Some(1),
        TypeBaseV::Pubkey => Some(32),
        TypeBaseV::Sig => Some(65),
        TypeBaseV::Datasig => Some(64),
        _ => None,
    }
}

/// The length an array dimension fixes: its number, or the non-negative
/// integer literal that its constant names (where it fits in a `usize`).
pub open spec fn dim_len(d: ArrayDimV, cs: Seq<(Seq<char>, ExprV)>) -> Option<nat> {
    match d {
        ArrayDimV::Dynamic => None,
        ArrayDimV::Fixed(n) => Some(n),
        ArrayDimV::Constant(c) => match const_value(cs, c) {
            Some(e) => match e.kind {
                ExprKindV::Int(v) => if 0 <= v <= usize::MAX { Some(v as nat) } else { None },
                _ => None,
            },
            None => None,
        },
    }
}

/// The fixed byte size of a type that holds no struct: the base size times
/// each dimension's length, where every part is fixed and no product
/// overflows a `usize`.
pub open spec fn plain_fixed_size(base: TypeBaseV, dims: Seq<ArrayDimV>, cs: Seq<(Seq<char>, ExprV)>) -> Option<nat>
    decreases dims.len(),
{
    if dims.len() == 0 {
        base_fixed_size(base)
    } else {
        match (plain_fixed_size(base, dims.drop_last(), cs), dim_len(dims.last(), cs)) {
            (Some(e), Some(n)) => if e * n <= usize::MAX { Some(e * n) } else { None },
            _ => None,
        }
    }
}

/// The fixed byte size of a type (structs have none here).
pub open spec fn type_fixed_size(t: TypeRefV, cs: Seq<(Seq<char>, ExprV)>) -> Option<nat> {
    plain_fixed_size(t.base, t.array_dims, cs)
}

/// The push prefix of `n` data bytes: the length itself up to 75, else
/// `OP_PUSHDATA1`, `OP_PUSHDATA2` or `OP_PUSHDATA4` followed by the length
/// in little-endian order (the last truncated to four bytes).
pub open spec fn data_prefix_bytes(n: nat) -> Seq<u8> {
    if n <= 75 {
        seq![n as u8]
    } else if n <= 255 {
        seq![0x4cu8, n as u8]
    } else if n <= 65535 {
        seq![0x4du8, (n % 256) as u8, (n / 256) as u8]
    } else {
        let m = n % 0x1_0000_0000;
        seq![0x4eu8, (m % 256) as u8, ((m / 256) % 256) as u8, ((m / 65536) % 256) as u8, (m / 16777216) as u8]
    }
}

/// The bytes one encoded field of type `t` takes: push prefix and payload.
pub open spec fn chunk_size(t: TypeRefV, cs: Seq<(Seq<char>, ExprV)>) -> Option<nat> {
    match type_fixed_size(t, cs) {
        Some(p) => Some(data_prefix_bytes(p).len() + p),
        None => None,
    }
}

/// The bytes an encoded state with fields of these types takes, where every
/// field has a fixed size.
pub open spec fn encoded_len(ts: Seq<TypeRefV>, cs: Seq<(Seq<char>, ExprV)>) -> Option<nat>
    decreases ts.len(),
{
    if ts.len() == 0 {
        Some(0)
    } else {
        match (encoded_len(ts.drop_last(), cs), chunk_size(ts.last(), cs)) {
            (Some(a), Some(b)) => Some(a + b),
            _ => None,
        }
    }
}

/// Every field has a fixed size and the running total stays within a
/// `usize`.
pub open spec fn encoded_len_fits(ts: Seq<TypeRefV>, cs: Seq<(Seq<char>, ExprV)>) -> bool {
    forall|k: int| 0 <= k <= ts.len() ==> (#[trigger] encoded_len(ts.take(k), cs) matches Some(n) ==> n <= usize::MAX)
}

/// The index of the first type without a fixed size.
pub open spec fn first_unsized(ts: Seq<TypeRefV>, cs: Seq<(Seq<char>, ExprV)>) -> int {
    choose|k: int| 0 <= k < ts.len() && type_fixed_size(ts[k], cs) is None
        && forall|j: int| 0 <= j < k ==> type_fixed_size(#[trigger] ts[j], cs) is Some
}

/// The message for a field type that a state builtin cannot encode.
pub open spec fn unsupported_field_message(builtin: Seq<char>, t: TypeRefV) -> Seq<char> {
    builtin + " does not support field type "@ + type_name_of(t)
}

/// An empty source range.
pub open spec fn no_span() -> Span {
    Span { start: 0, end: 0 }
}

/// The view of `call(name, args)` with an empty source range.
pub open spec fn call_v(name: Seq<char>, args: Seq<ExprV>) -> ExprV {
    ExprV { kind: ExprKindV::Call { name, args }, span: no_span() }
}

/// The view of `left op right` with an empty source range.
pub open spec fn binary_v(op: BinaryOp, left: ExprV, right: ExprV) -> ExprV {
    ExprV { kind: ExprKindV::Binary { op, left: Box::new(left), right: Box::new(right) }, span: no_span() }
}

/// The view of an integer literal with an empty source range.
pub open spec fn int_v(v: i64) -> ExprV {
    ExprV { kind: ExprKindV::Int(v), span: no_span() }
}

/// A scalar type.
pub fn scalar_type(base: TypeBase) -> (r: TypeRef)
    ensures
        r.base == base,
        r.array_dims@.len() == 0,
{
    TypeRef { base, array_dims: Vec::new() }
}

/// A one-dimensional byte array type.
pub fn byte_array_type(dimension: ArrayDim) -> (r: TypeRef)
    ensures
        r@ == (TypeRefV { base: TypeBaseV::Byte, array_dims: seq![dim_view(dimension)] }),
{
    let mut dims: Vec<ArrayDim> = Vec::new();
    dims.push(dimension);
    assert(dims_view(dims@) =~= seq![dim_view(dimension)]);
    TypeRef { base: TypeBase::Byte, array_dims: dims }
}

/// Where the foreign redeem script starts in the signature script of input
/// `input_idx`: its length minus the script's size.
pub fn input_sigscript_base_expr(input_idx: &Expr, script_size_expr: Expr) -> (r: Expr)
    ensures
        r@ == binary_v(BinaryOp::Sub, call_v("OpTxInputScriptSigLen"@, seq![input_idx@]), script_size_expr@),
{
    let mut args: Vec<Expr> = Vec::new();
    args.push(clone_expr(input_idx));
    assert(exprs_view(args@) =~= seq![input_idx@]) by {
        reveal_with_fuel(exprs_view, 2);
    }
    binary_expr(BinaryOp::Sub, Expr::call("OpTxInputScriptSigLen", args), script_size_expr)
}

/// The bytes `start..end` of the signature script of input `input_idx`.
pub fn input_sigscript_substr_expr(input_idx: &Expr, start: Expr, end: Expr) -> (r: Expr)
    ensures
        r@ == call_v("OpTxInputScriptSigSubstr"@, seq![input_idx@, start@, end@]),
{
    let ghost (sv, ev) = (start@, end@);
    let mut args: Vec<Expr> = Vec::new();
    args.push(clone_expr(input_idx));
    args.push(start);
    args.push(end);
    assert(exprs_view(args@) =~= seq![input_idx@, sv, ev]) by {
        reveal_with_fuel(exprs_view, 4);
    }
    Expr::call("OpTxInputScriptSigSubstr", args)
}

/// The script public key of input `input_idx`.
pub fn input_script_pubkey_expr(input_idx: &Expr) -> (r: Expr)
    ensures
        r@ == (ExprV {
            kind: ExprKindV::Introspection { kind: IntrospectionKind::InputScriptPubKey, index: Box::new(input_idx@) },
            span: no_span(),
        }),
{
    Expr::new(
        ExprKind::Introspection { kind: IntrospectionKind::InputScriptPubKey, index: Box::new(clone_expr(input_idx)) },
        Span::empty(),
    )
}

/// The length an array dimension fixes.
pub(crate) fn dim_length(d: &ArrayDim, constants: &ConstantMap) -> (r: Option<usize>)
    ensures
        match r {
            Some(n) => dim_len(dim_view(*d), constants_view(*constants)) == Some(n as nat),
            None => dim_len(dim_view(*d), constants_view(*constants)) is None,
        },
{
    match d {
        ArrayDim::Dynamic => None,
        ArrayDim::Fixed(n) => Some(*n),
        ArrayDim::Constant(c) => match constants.get(c) {
            Some(e) => match &e.kind {
                ExprKind::Int(v) => {
                    if *v >= 0 && (*v as u64) <= (usize::MAX as u64) {
                        Some(*v as usize)
                    } else {
                        None
                    }
                },
                _ => None,
            },
            None => None,
        },
    }
}

/// The fixed byte size of a type that holds no struct.
pub fn fixed_plain_type_size(type_ref: &TypeRef, constants: &ConstantMap) -> (r: Option<usize>)
    ensures
        match r {
            Some(n) => type_fixed_size(type_ref@, constants_view(*constants)) == Some(n as nat),
            None => type_fixed_size(type_ref@, constants_view(*constants)) is None,
        },
{
    let ghost cs = constants_view(*constants);
    let ghost base = type_ref@.base;
    let ghost dims = type_ref@.array_dims;
    let mut size: usize = match &type_ref.base {
        TypeBase::Int => 8,
        TypeBase::Bool => 1,
        TypeBase::Byte => 1,
        TypeBase::Pubkey => 32,
        TypeBase::Sig => 65,
        TypeBase::Datasig => 64,
        _ => {
            proof {
                lemma_plain_fixed_size_none(base, dims, cs, 0);
            }
            return None;
        },
    };
    assert(dims.take(0) =~= Seq::<ArrayDimV>::empty());
    let mut i: usize = 0;
    while i < type_ref.array_dims.len()
        invariant
            i <= type_ref.array_dims@.len(),
            cs == constants_view(*constants),
            base == type_ref@.base,
            dims == type_ref@.array_dims,
            dims.len() == type_ref.array_dims@.len(),
            plain_fixed_size(base, dims.take(i as int), cs) == Some(size as nat),
        decreases type_ref.array_dims@.len() - i,
    {
        proof {
            assert(dims.take(i + 1).drop_last() =~= dims.take(i as int));
            assert(dims.take(i + 1).last() == dim_view(type_ref.array_dims@[i as int]));
        }
        match dim_length(&type_ref.array_dims[i], constants) {
            Some(n) => match size.checked_mul(n) {
                Some(m) => {
                    size = m;
                },
                None => {
                    proof {
                        lemma_plain_fixed_size_none(base, dims, cs, i + 1);
                    }
                    return None;
                },
            },
            None => {
                proof {
                    lemma_plain_fixed_size_none(base, dims, cs, i + 1);
                }
                return None;
            },
        }
        i = i + 1;
    }
    assert(dims.take(dims.len() as int) =~= dims);
    Some(size)
}

/// Once a prefix of the dimensions has no fixed size, neither has the
/// whole type.
proof fn lemma_plain_fixed_size_none(base: TypeBaseV, dims: Seq<ArrayDimV>, cs: Seq<(Seq<char>, ExprV)>, k: int)
    requires
        0 <= k <= dims.len(),
        plain_fixed_size(base, dims.take(k), cs) is None,
    ensures
        plain_fixed_size(base, dims, cs) is None,
    decreases dims.len() - k,
{
    if k < dims.len() {
        assert(dims.take(k + 1).drop_last() =~= dims.take(k));
        lemma_plain_fixed_size_none(base, dims, cs, k + 1);
    } else {
        assert(dims.take(k) =~= dims);
    }
}

/// A type with a fixed size has a base with a fixed size.
proof fn lemma_fixed_size_base(base: TypeBaseV, dims: Seq<ArrayDimV>, cs: Seq<(Seq<char>, ExprV)>)
    requires
        plain_fixed_size(base, dims, cs) is Some,
    ensures
        base_fixed_size(base) is Some,
    decreases dims.len(),
{
    if dims.len() > 0 {
        lemma_fixed_size_base(base, dims.drop_last(), cs);
    }
}

/// The push prefix for `n` data bytes.
pub fn data_prefix(n: usize) -> (r: Vec<u8>)
    ensures
        r@ == data_prefix_bytes(n as nat),
{
    let mut r: Vec<u8> = Vec::new();
    if n <= 75 {
        r.push(n as u8);
    } else if n <= 255 {
        r.push(0x4c);
        r.push(n as u8);
    } else if n <= 65535 {
        r.push(0x4d);
        r.push((n % 256) as u8);
        r.push((n / 256) as u8);
    } else {
        let m: u64 = (n as u64) % 0x1_0000_0000;
        r.push(0x4e);
        r.push((m % 256) as u8);
        r.push(((m / 256) % 256) as u8);
        r.push(((m / 65536) % 256) as u8);
        r.push((m / 16777216) as u8);
    }
    assert(r@ =~= data_prefix_bytes(n as nat));
    r
}

/// The error for a field type that a state builtin cannot encode.
pub(crate) fn unsupported_field(builtin_name: &str, type_ref: &TypeRef) -> (r: CompilerError)
    ensures
        r matches CompilerError::Unsupported(m) && m@ == unsupported_field_message(builtin_name@, type_ref@),
{
    let mut m = String::from_str(builtin_name);
    m.append(" does not support field type ");
    let t = type_ref.type_text();
    m.append(t.as_str());
    CompilerError::Unsupported(m)
}

/// The payload size of a state field of this type; an error where the type
/// has no fixed size.
pub fn fixed_state_payload_len(type_ref: &TypeRef, contract_constants: &ConstantMap) -> (r: Result<usize, CompilerError>)
    ensures
        match type_fixed_size(type_ref@, constants_view(*contract_constants)) {
            Some(n) => r == Ok::<usize, CompilerError>(n as usize),
            None => r matches Err(CompilerError::Unsupported(m)) && m@ == unsupported_field_message("readInputState"@, type_ref@),
        },
{
    match fixed_plain_type_size(type_ref, contract_constants) {
        Some(n) => Ok(n),
        None => Err(unsupported_field("readInputState", type_ref)),
    }
}

/// The bytes one encoded state field of this type takes: push prefix and
/// payload.
pub fn encoded_type_chunk_size(type_ref: &TypeRef, contract_constants: &ConstantMap) -> (r: Result<usize, CompilerError>)
    requires
        chunk_size(type_ref@, constants_view(*contract_constants)) matches Some(n) ==> n <= usize::MAX,
    ensures
        match chunk_size(type_ref@, constants_view(*contract_constants)) {
            Some(n) => r == Ok::<usize, CompilerError>(n as usize),
            None => r matches Err(CompilerError::Unsupported(m)) && m@ == unsupported_field_message("readInputState"@, type_ref@),
        },
{
    let payload_size = fixed_state_payload_len(type_ref, contract_constants)?;
    let prefix = data_prefix(payload_size);
    Ok(prefix.len() + payload_size)
}

/// The bytes an encoded state with fields of these types takes; the error
/// of the first field whose type has no fixed size.
pub fn encoded_state_len_for_layout_field_types(layout_field_types: &[TypeRef], contract_constants: &ConstantMap) -> (r: Result<usize, CompilerError>)
    requires
        encoded_len_fits(layout_types(layout_field_types@), constants_view(*contract_constants)),
    ensures
        ({
            let ts = layout_types(layout_field_types@);
            let cs = constants_view(*contract_constants);
            match encoded_len(ts, cs) {
                Some(n) => r == Ok::<usize, CompilerError>(n as usize),
                None => r matches Err(CompilerError::Unsupported(m))
                    && m@ == unsupported_field_message("readInputState"@, ts[first_unsized(ts, cs)]),
            }
        }),
{
    let ghost ts = layout_types(layout_field_types@);
    let ghost cs = constants_view(*contract_constants);
    let mut acc: usize = 0;
    let mut i: usize = 0;
    assert(ts.take(0) =~= Seq::<TypeRefV>::empty());
    while i < layout_field_types.len()
        invariant
            i <= layout_field_types@.len(),
            ts == layout_types(layout_field_types@),
            cs == constants_view(*contract_constants),
            encoded_len_fits(ts, cs),
            encoded_len(ts.take(i as int), cs) == Some(acc as nat),
            forall|j: int| 0 <= j < i ==> type_fixed_size(#[trigger] ts[j], cs) is Some,
        decreases layout_field_types@.len() - i,
    {
        proof {
            assert(ts.take(i + 1).drop_last() =~= ts.take(i as int));
            assert(ts.take(i + 1).last() == ts[i as int]);
            assert(ts[i as int] == layout_field_types@[i as int]@);
            if chunk_size(ts[i as int], cs) is Some {
                assert(encoded_len(ts.take(i + 1), cs) matches Some(n) && n <= usize::MAX);
            }
        }
        match encoded_type_chunk_size(&layout_field_types[i], contract_constants) {
            Ok(size) => {
                acc = acc + size;
            },
            Err(e) => {
                proof {
                    lemma_first_unsized(ts, cs, i as int);
                    lemma_encoded_len_none(ts, cs, i as int + 1);
                }
                return Err(e);
            },
        }
        i = i + 1;
    }
    assert(ts.take(ts.len() as int) =~= ts);
    Ok(acc)
}

/// The first type without a fixed size is the one found.
pub(crate) proof fn lemma_first_unsized(ts: Seq<TypeRefV>, cs: Seq<(Seq<char>, ExprV)>, i: int)
    requires
        0 <= i < ts.len(),
        type_fixed_size(ts[i], cs) is None,
        forall|j: int| 0 <= j < i ==> type_fixed_size(#[trigger] ts[j], cs) is Some,
    ensures
        first_unsized(ts, cs) == i,
{
    let k = first_unsized(ts, cs);
    assert(0 <= k < ts.len() && type_fixed_size(ts[k], cs) is None
        && forall|j: int| 0 <= j < k ==> type_fixed_size(#[trigger] ts[j], cs) is Some);
    if k < i {
        assert(type_fixed_size(ts[k], cs) is Some);
    } else if i < k {
        assert(type_fixed_size(ts[i], cs) is Some);
    }
}

/// Once a prefix has no encoded length, neither has the whole list.
pub(crate) proof fn lemma_encoded_len_none(ts: Seq<TypeRefV>, cs: Seq<(Seq<char>, ExprV)>, k: int)
    requires
        0 <= k <= ts.len(),
        encoded_len(ts.take(k), cs) is None,
    ensures
        encoded_len(ts, cs) is None,
    decreases ts.len() - k,
{
    if k < ts.len() {
        assert(ts.take(k + 1).drop_last() =~= ts.take(k));
        lemma_encoded_len_none(ts, cs, k + 1);
    } else {
        assert(ts.take(k) =~= ts);
    }
}

/// The field types of contract fields.
pub open spec fn field_types(fields: Seq<ContractFieldAst>) -> Seq<TypeRefV> {
    fields.map_values(|f: ContractFieldAst| f.type_ref@)
}

/// The bytes the encoded state of these contract fields takes.
pub fn encoded_state_len(contract_fields: &[ContractFieldAst], contract_constants: &ConstantMap) -> (r: Result<usize, CompilerError>)
    requires
        encoded_len_fits(field_types(contract_fields@), constants_view(*contract_constants)),
    ensures
        ({
            let ts = field_types(contract_fields@);
            let cs = constants_view(*contract_constants);
            match encoded_len(ts, cs) {
                Some(n) => r == Ok::<usize, CompilerError>(n as usize),
                None => r matches Err(CompilerError::Unsupported(m))
                    && m@ == unsupported_field_message("readInputState"@, ts[first_unsized(ts, cs)]),
            }
        }),
{
    let ghost ts = field_types(contract_fields@);
    let ghost cs = constants_view(*contract_constants);
    let mut acc: usize = 0;
    let mut i: usize = 0;
    assert(ts.take(0) =~= Seq::<TypeRefV>::empty());
    while i < contract_fields.len()
        invariant
            i <= contract_fields@.len(),
            ts == field_types(contract_fields@),
            cs == constants_view(*contract_constants),
            encoded_len_fits(ts, cs),
            encoded_len(ts.take(i as int), cs) == Some(acc as nat),
            forall|j: int| 0 <= j < i ==> type_fixed_size(#[trigger] ts[j], cs) is Some,
        decreases contract_fields@.len() - i,
    {
        proof {
            assert(ts.take(i + 1).drop_last() =~= ts.take(i as int));
            assert(ts.take(i + 1).last() == ts[i as int]);
            assert(ts[i as int] == contract_fields@[i as int].type_ref@);
            if chunk_size(ts[i as int], cs) is Some {
                assert(encoded_len(ts.take(i + 1), cs) matches Some(n) && n <= usize::MAX);
            }
        }
        match encoded_type_chunk_size(&contract_fields[i].type_ref, contract_constants) {
            Ok(size) => {
                acc = acc + size;
            },
            Err(e) => {
                proof {
                    lemma_first_unsized(ts, cs, i as int);
                    lemma_encoded_len_none(ts, cs, i as int + 1);
                }
                return Err(e);
            },
        }
        i = i + 1;
    }
    assert(ts.take(ts.len() as int) =~= ts);
    Ok(acc)
}


/// Where the encoded state starts: the end of the contract fields minus the
/// encoded state's length.
pub fn state_start_offset(contract_fields_end_offset: usize, contract_fields: &[ContractFieldAst], contract_constants: &ConstantMap) -> (r: Result<usize, CompilerError>)
    requires
        encoded_len_fits(field_types(contract_fields@), constants_view(*contract_constants)),
    ensures
        ({
            let ts = field_types(contract_fields@);
            let cs = constants_view(*contract_constants);
            match encoded_len(ts, cs) {
                Some(n) => if n <= contract_fields_end_offset {
                    r == Ok::<usize, CompilerError>((contract_fields_end_offset - n) as usize)
                } else {
                    r matches Err(CompilerError::Unsupported(m)) && m@ == "state offset underflow"@
                },
                None => r matches Err(CompilerError::Unsupported(m))
                    && m@ == unsupported_field_message("readInputState"@, ts[first_unsized(ts, cs)]),
            }
        }),
{
    proof {
        let ts = field_types(contract_fields@);
        assert(ts.take(ts.len() as int) =~= ts);
    }
    let total_state_len = match encoded_state_len(contract_fields, contract_constants) {
        Ok(n) => n,
        Err(e) => {
            return Err(e);
        },
    };
    match contract_fields_end_offset.checked_sub(total_state_len) {
        Some(offset) => Ok(offset),
        None => Err(CompilerError::Unsupported(String::from_str("state offset underflow"))),
    }
}

/// The views of a list of types.
pub open spec fn layout_types(ts: Seq<TypeRef>) -> Seq<TypeRefV> {
    ts.map_values(|t: TypeRef| t@)
}

/// The size of a templated foreign redeem script: prefix length, encoded
/// state length and suffix length added up.
pub fn templated_input_script_size_expr(
    template_prefix_len: &Expr,
    template_suffix_len: &Expr,
    layout_field_types: &[TypeRef],
    contract_constants: &ConstantMap,
) -> (r: Result<Expr, CompilerError>)
    requires
        encoded_len_fits(layout_types(layout_field_types@), constants_view(*contract_constants)),
    ensures
        ({
            let ts = layout_types(layout_field_types@);
            let cs = constants_view(*contract_constants);
            match encoded_len(ts, cs) {
                Some(n) => r matches Ok(e) && e@ == binary_v(
                    BinaryOp::Add,
                    binary_v(BinaryOp::Add, template_prefix_len@, int_v(n as i64)),
                    template_suffix_len@,
                ),
                None => r matches Err(CompilerError::Unsupported(m))
                    && m@ == unsupported_field_message("readInputState"@, ts[first_unsized(ts, cs)]),
            }
        }),
{
    proof {
        let ts = layout_types(layout_field_types@);
        assert(ts.take(ts.len() as int) =~= ts);
    }
    let total_state_len = match encoded_state_len_for_layout_field_types(layout_field_types, contract_constants) {
        Ok(n) => n,
        Err(e) => {
            return Err(e);
        },
    };
    Ok(binary_expr(
        BinaryOp::Add,
        binary_expr(BinaryOp::Add, clone_expr(template_prefix_len), Expr::int_literal(total_state_len as i64)),
        clone_expr(template_suffix_len),
    ))
}

/// The expression that reads a field of `payload` bytes, at `chunk_offset`
/// into a state that starts at `start` in a redeem script of `size` bytes,
/// out of the signature script of input `input`, and casts it to `t`.
pub open spec fn field_read_v(input: ExprV, t: TypeRefV, start: ExprV, chunk_offset: nat, size: ExprV, payload: nat) -> ExprV {
    let from = binary_v(
        BinaryOp::Add,
        binary_v(BinaryOp::Sub, call_v("OpTxInputScriptSigLen"@, seq![input]), size),
        binary_v(BinaryOp::Add, start, int_v((chunk_offset + data_prefix_bytes(payload).len()) as i64)),
    );
    let to = binary_v(BinaryOp::Add, from, int_v(payload as i64));
    call_v(type_name_of(t), seq![call_v("OpTxInputScriptSigSubstr"@, seq![input, from, to])])
}

/// The expression that reads one state field out of another input's
/// signature script and casts it to the field's type; the error names
/// `builtin_name` where the type has no fixed size.
pub fn read_input_state_field_expr(
    input_idx: &Expr,
    field_type: &TypeRef,
    state_start_offset_expr: Expr,
    field_chunk_offset: usize,
    script_size_expr: Expr,
    contract_constants: &ConstantMap,
    builtin_name: &str,
) -> (r: Result<Expr, CompilerError>)
    requires
        type_fixed_size(field_type@, constants_view(*contract_constants)) matches Some(p)
            ==> field_chunk_offset + data_prefix_bytes(p).len() <= usize::MAX,
    ensures
        match type_fixed_size(field_type@, constants_view(*contract_constants)) {
            Some(p) => r matches Ok(e) && e@ == field_read_v(
                input_idx@,
                field_type@,
                state_start_offset_expr@,
                field_chunk_offset as nat,
                script_size_expr@,
                p,
            ),
            None => r matches Err(CompilerError::Unsupported(m)) && m@ == unsupported_field_message(builtin_name@, field_type@),
        },
{
    let field_payload_len = match fixed_state_payload_len(field_type, contract_constants) {
        Ok(n) => n,
        Err(_) => {
            return Err(unsupported_field(builtin_name, field_type));
        },
    };
    let prefix = data_prefix(field_payload_len);
    let field_payload_offset = binary_expr(
        BinaryOp::Add,
        state_start_offset_expr,
        Expr::int_literal((field_chunk_offset + prefix.len()) as i64),
    );
    let start = binary_expr(BinaryOp::Add, input_sigscript_base_expr(input_idx, script_size_expr), field_payload_offset);
    let end = binary_expr(BinaryOp::Add, clone_expr(&start), Expr::int_literal(field_payload_len as i64));
    let substr = input_sigscript_substr_expr(input_idx, start, end);
    proof {
        lemma_fixed_size_base(field_type@.base, field_type@.array_dims, constants_view(*contract_constants));
    }
    cast_read_input_state_expr(substr, field_type)
}

/// `substr` cast to the type `type_ref` by a call named after the type; an
/// error for a struct type.
pub fn cast_read_input_state_expr(substr: Expr, type_ref: &TypeRef) -> (r: Result<Expr, CompilerError>)
    ensures
        match type_ref@.base {
            TypeBaseV::Custom(_) => r matches Err(CompilerError::Unsupported(m))
                && m@ == unsupported_field_message("readInputState"@, type_ref@),
            _ => r matches Ok(e) && e@ == call_v(type_name_of(type_ref@), seq![substr@]),
        },
{
    match &type_ref.base {
        TypeBase::Custom(_) => Err(unsupported_field("readInputState", type_ref)),
        _ => {
            let ghost sv = substr@;
            let text = type_ref.type_text();
            let mut args: Vec<Expr> = Vec::new();
            args.push(substr);
            assert(exprs_view(args@) =~= seq![sv]) by {
                reveal_with_fuel(exprs_view, 2);
            }
            Ok(Expr::call(text.as_str(), args))
        },
    }
}

/// The expression that reads a field of this contract's own state layout
/// out of another input that runs the same script.
pub fn read_input_state_field_expr_symbolic(
    input_idx: &Expr,
    field: &ContractFieldAst,
    contract_fields: &[ContractFieldAst],
    contract_fields_end_offset: usize,
    field_chunk_offset: usize,
    contract_constants: &ConstantMap,
) -> (r: Result<Expr, CompilerError>)
    requires
        encoded_len_fits(field_types(contract_fields@), constants_view(*contract_constants)),
        type_fixed_size(field.type_ref@, constants_view(*contract_constants)) matches Some(p)
            ==> field_chunk_offset + data_prefix_bytes(p).len() <= usize::MAX,
    ensures
        ({
            let ts = field_types(contract_fields@);
            let cs = constants_view(*contract_constants);
            let size = ExprV { kind: ExprKindV::Nullary(NullaryOp::ThisScriptSize), span: no_span() };
            match encoded_len(ts, cs) {
                None => r matches Err(CompilerError::Unsupported(m))
                    && m@ == unsupported_field_message("readInputState"@, ts[first_unsized(ts, cs)]),
                Some(n) => if n > contract_fields_end_offset {
                    r matches Err(CompilerError::Unsupported(m)) && m@ == "state offset underflow"@
                } else {
                    match type_fixed_size(field.type_ref@, cs) {
                        Some(p) => r matches Ok(e) && e@ == field_read_v(
                            input_idx@,
                            field.type_ref@,
                            int_v((contract_fields_end_offset - n) as i64),
                            field_chunk_offset as nat,
                            size,
                            p,
                        ),
                        None => r matches Err(CompilerError::Unsupported(m))
                            && m@ == unsupported_field_message("readInputState"@, field.type_ref@),
                    }
                },
            }
        }),
{
    let state_start = match state_start_offset(contract_fields_end_offset, contract_fields, contract_constants) {
        Ok(n) => n,
        Err(e) => {
            return Err(e);
        },
    };
    let script_size_expr = Expr::new(ExprKind::Nullary(NullaryOp::ThisScriptSize), Span::empty());
    read_input_state_field_expr(
        input_idx,
        &field.type_ref,
        Expr::int_literal(state_start as i64),
        field_chunk_offset,
        script_size_expr,
        contract_constants,
        "readInputState",
    )
}


/// View of a struct declaration: name and type of each field, in order.
pub open spec fn struct_fields_view(s: StructSpec) -> Seq<(Seq<char>, TypeRefV)> {
    s.fields@.map_values(|f: StructFieldSpec| (f.name@, f.type_ref@))
}

/// View of a struct registry: each struct's name with its fields.
pub open spec fn registry_view(r: StructRegistry) -> Seq<(Seq<char>, Seq<(Seq<char>, TypeRefV)>)> {
    r.structs@.map_values(|e: (String, StructSpec)| (e.0@, struct_fields_view(e.1)))
}

/// No struct name is declared twice.
pub open spec fn registry_wf(r: StructRegistry) -> bool {
    registry_view(r).map_values(|e: (Seq<char>, Seq<(Seq<char>, TypeRefV)>)| e.0).no_duplicates()
}

/// The fields of the struct `name`, where one is declared.
pub open spec fn registry_lookup(reg: Seq<(Seq<char>, Seq<(Seq<char>, TypeRefV)>)>, name: Seq<char>) -> Option<
    Seq<(Seq<char>, TypeRefV)>,
>
    decreases reg.len(),
{
    if reg.len() == 0 {
        None
    } else if reg[0].0 == name {
        Some(reg[0].1)
    } else {
        registry_lookup(reg.drop_first(), name)
    }
}

/// The first binding of the struct field `field`.
pub open spec fn binding_for(bs: Seq<StructBindingV>, field: Seq<char>) -> Option<StructBindingV>
    decreases bs.len(),
{
    if bs.len() == 0 {
        None
    } else if bs[0].field_name == field {
        Some(bs[0])
    } else {
        binding_for(bs.drop_first(), field)
    }
}

/// The bindings bind exactly the fields of a struct: as many bindings as
/// fields, and each field's first binding has a type `same` as the field's.
pub open spec fn layout_matches(
    fields: Seq<(Seq<char>, TypeRefV)>,
    bs: Seq<StructBindingV>,
    same: spec_fn(TypeRefV, TypeRefV) -> bool,
) -> bool {
    &&& fields.len() == bs.len()
    &&& forall|i: int| 0 <= i < fields.len() ==> (binding_for(bs, #[trigger] fields[i].0) matches Some(b) && same(b.type_ref, fields[i].1))
}

/// The names of the registered structs whose layout the bindings match, in
/// registry order.
pub open spec fn matching_struct_names(
    reg: Seq<(Seq<char>, Seq<(Seq<char>, TypeRefV)>)>,
    bs: Seq<StructBindingV>,
    same: spec_fn(TypeRefV, TypeRefV) -> bool,
) -> Seq<Seq<char>>
    decreases reg.len(),
{
    if reg.len() == 0 {
        Seq::empty()
    } else {
        let rest = matching_struct_names(reg.drop_last(), bs, same);
        if layout_matches(reg.last().1, bs, same) {
            rest.push(reg.last().0)
        } else {
            rest
        }
    }
}

/// The struct a state destructuring assigns into: the named one where a
/// name is given (an error if it is not declared), else the one declared
/// struct whose layout the bindings match (an error for none or several).
pub open spec fn state_struct_name(
    target: Option<Seq<char>>,
    bs: Seq<StructBindingV>,
    reg: Seq<(Seq<char>, Seq<(Seq<char>, TypeRefV)>)>,
    same: spec_fn(TypeRefV, TypeRefV) -> bool,
) -> Result<Seq<char>, Seq<char>> {
    match target {
        Some(t) => if registry_lookup(reg, t) is Some {
            Ok(t)
        } else {
            Err("unknown struct '"@ + t + "'"@)
        },
        None => {
            let ms = matching_struct_names(reg, bs, same);
            if ms.len() == 1 {
                Ok(ms[0])
            } else if ms.len() == 0 {
                Err("readInputStateWithTemplate bindings must match a declared struct layout"@)
            } else {
                Err("readInputStateWithTemplate bindings match multiple struct layouts; assign into an explicitly typed struct first"@)
            }
        },
    }
}

/// Types are the same.
pub open spec fn same_type(a: TypeRefV, b: TypeRefV) -> bool {
    a == b
}

/// Whether the struct `name` is declared.
pub fn registry_contains(structs: &StructRegistry, name: &String) -> (r: Option<usize>)
    ensures
        match r {
            Some(i) => i < structs.structs@.len() && registry_lookup(registry_view(*structs), name@) == Some(
                struct_fields_view(structs.structs@[i as int].1),
            ) && structs.structs@[i as int].0@ == name@,
            None => registry_lookup(registry_view(*structs), name@) is None,
        },
{
    let ghost reg = registry_view(*structs);
    assert(reg.skip(0) =~= reg);
    let mut i: usize = 0;
    while i < structs.structs.len()
        invariant
            i <= structs.structs@.len(),
            reg == registry_view(*structs),
            reg.len() == structs.structs@.len(),
            registry_lookup(reg, name@) == registry_lookup(reg.skip(i as int), name@),
        decreases structs.structs@.len() - i,
    {
        let ghost rest = reg.skip(i as int);
        assert(rest[0] == (structs.structs@[i as int].0@, struct_fields_view(structs.structs@[i as int].1)));
        if structs.structs[i].0 == *name {
            return Some(i);
        }
        assert(rest.drop_first() =~= reg.skip(i + 1));
        i = i + 1;
    }
    assert(reg.skip(i as int).len() == 0);
    None
}

/// The index of the first binding of the struct field `field`.
pub fn find_binding(bindings: &[StructBindingAst], field: &String) -> (r: Option<usize>)
    ensures
        match r {
            Some(k) => k < bindings@.len() && binding_for(bindings_view(bindings@), field@) == Some(
                binding_view(bindings@[k as int]),
            ),
            None => binding_for(bindings_view(bindings@), field@) is None,
        },
{
    let ghost bs = bindings_view(bindings@);
    assert(bs.skip(0) =~= bs);
    let mut i: usize = 0;
    while i < bindings.len()
        invariant
            i <= bindings@.len(),
            bs == bindings_view(bindings@),
            bs.len() == bindings@.len(),
            binding_for(bs, field@) == binding_for(bs.skip(i as int), field@),
        decreases bindings@.len() - i,
    {
        let ghost rest = bs.skip(i as int);
        assert(rest[0] == binding_view(bindings@[i as int]));
        if bindings[i].field_name == *field {
            return Some(i);
        }
        assert(rest.drop_first() =~= bs.skip(i + 1));
        i = i + 1;
    }
    assert(bs.skip(i as int).len() == 0);
    None
}

/// Whether the bindings match the layout of a struct, with the same types.
fn layout_matches_exactly(spec: &StructSpec, bindings: &[StructBindingAst]) -> (r: bool)
    ensures
        r == layout_matches(struct_fields_view(*spec), bindings_view(bindings@), |a: TypeRefV, b: TypeRefV| same_type(a, b)),
{
    let ghost fields = struct_fields_view(*spec);
    let ghost bs = bindings_view(bindings@);
    let ghost same = |a: TypeRefV, b: TypeRefV| same_type(a, b);
    if spec.fields.len() != bindings.len() {
        return false;
    }
    let mut j: usize = 0;
    while j < spec.fields.len()
        invariant
            j <= spec.fields@.len(),
            fields == struct_fields_view(*spec),
            bs == bindings_view(bindings@),
            same == (|a: TypeRefV, b: TypeRefV| same_type(a, b)),
            fields.len() == bs.len(),
            forall|i: int| 0 <= i < j ==> (binding_for(bs, #[trigger] fields[i].0) matches Some(b) && same(b.type_ref, fields[i].1)),
        decreases spec.fields@.len() - j,
    {
        assert(fields[j as int] == (spec.fields@[j as int].name@, spec.fields@[j as int].type_ref@));
        match find_binding(bindings, &spec.fields[j].name) {
            Some(k) => {
                if !types_same(&bindings[k].type_ref, &spec.fields[j].type_ref) {
                    assert(!same(bs[k as int].type_ref, fields[j as int].1));
                    assert(bs[k as int] == binding_view(bindings@[k as int]));
                    assert(!(binding_for(bs, fields[j as int].0) matches Some(b) && same(b.type_ref, fields[j as int].1)));
                    return false;
                }
            },
            None => {
                assert(!(binding_for(bs, fields[j as int].0) matches Some(b) && same(b.type_ref, fields[j as int].1)));
                return false;
            },
        }
        j = j + 1;
    }
    true
}

/// The struct a `readInputStateWithTemplate` destructuring assigns into:
/// the named one, or else the one declared struct whose layout the bindings
/// match exactly.
pub fn struct_name_for_state_bindings(target_struct: Option<&str>, bindings: &[StructBindingAst], structs: &StructRegistry) -> (r: Result<String, CompilerError>)
    requires
        registry_wf(*structs),
    ensures
        ({
            let target = match target_struct {
                Some(t) => Some(t@),
                None => None,
            };
            let expected = state_struct_name(
                target,
                bindings_view(bindings@),
                registry_view(*structs),
                |a: TypeRefV, b: TypeRefV| same_type(a, b),
            );
            match r {
                Ok(n) => expected == Ok::<Seq<char>, Seq<char>>(n@),
                Err(CompilerError::Unsupported(m)) => expected == Err::<Seq<char>, Seq<char>>(m@),
                Err(_) => false,
            }
        }),
{
    let ghost same = |a: TypeRefV, b: TypeRefV| same_type(a, b);
    let ghost reg = registry_view(*structs);
    let ghost bs = bindings_view(bindings@);
    match target_struct {
        Some(t) => {
            let name = String::from_str(t);
            match registry_contains(structs, &name) {
                Some(_) => Ok(name),
                None => {
                    let mut m = String::from_str("unknown struct '");
                    m.append(t);
                    m.append("'");
                    Err(CompilerError::Unsupported(m))
                },
            }
        },
        None => {
            let mut found: Vec<usize> = Vec::new();
            let mut i: usize = 0;
            assert(reg.take(0) =~= Seq::<(Seq<char>, Seq<(Seq<char>, TypeRefV)>)>::empty());
            while i < structs.structs.len()
                invariant
                    i <= structs.structs@.len(),
                    reg == registry_view(*structs),
                    reg.len() == structs.structs@.len(),
                    bs == bindings_view(bindings@),
                    same == (|a: TypeRefV, b: TypeRefV| same_type(a, b)),
                    found@.len() == matching_struct_names(reg.take(i as int), bs, same).len(),
                    forall|k: int| 0 <= k < found@.len() ==> #[trigger] found@[k] < structs.structs@.len()
                        && structs.structs@[found@[k] as int].0@ == matching_struct_names(reg.take(i as int), bs, same)[k],
                decreases structs.structs@.len() - i,
            {
                proof {
                    assert(reg.take(i + 1).drop_last() =~= reg.take(i as int));
                    assert(reg.take(i + 1).last() == reg[i as int]);
                    assert(reg[i as int] == (structs.structs@[i as int].0@, struct_fields_view(structs.structs@[i as int].1)));
                }
                if layout_matches_exactly(&structs.structs[i].1, bindings) {
                    found.push(i);
                }
                i = i + 1;
            }
            assert(reg.take(reg.len() as int) =~= reg);
            if found.len() == 1 {
                Ok(structs.structs[found[0]].0.clone())
            } else if found.len() == 0 {
                Err(CompilerError::Unsupported(String::from_str("readInputStateWithTemplate bindings must match a declared struct layout")))
            } else {
                Err(CompilerError::Unsupported(String::from_str(
                    "readInputStateWithTemplate bindings match multiple struct layouts; assign into an explicitly typed struct first",
                )))
            }
        },
    }
}


/// The expressions that `readInputStateWithTemplate(input, prefix_len,
/// suffix_len, hash)` compares before it reads any field: the foreign
/// input's script public key against the P2SH key of the redeem script it
/// carries, and the expected template hash against the template taken out
/// of that redeem script.
pub struct TemplateChecks {
    pub actual_input_spk: Expr,
    pub expected_input_spk: Expr,
    pub expected_template_hash: Expr,
    pub template: Expr,
}

/// The view of `new name(args)` with an empty source range.
pub open spec fn new_v(name: Seq<char>, args: Seq<ExprV>) -> ExprV {
    ExprV { kind: ExprKindV::New { name, args }, span: no_span() }
}

/// The view of the bytes `start..end` of the signature script of `input`.
pub open spec fn substr_v(input: ExprV, start: ExprV, end: ExprV) -> ExprV {
    call_v("OpTxInputScriptSigSubstr"@, seq![input, start, end])
}

/// What `template_checks` builds, as views.
pub open spec fn template_checks_v(args: Seq<ExprV>, state_len: nat) -> (ExprV, ExprV, ExprV, ExprV) {
    let input = args[0];
    let prefix_len = args[1];
    let suffix_len = args[2];
    let size = binary_v(BinaryOp::Add, binary_v(BinaryOp::Add, prefix_len, int_v(state_len as i64)), suffix_len);
    let base = binary_v(BinaryOp::Sub, call_v("OpTxInputScriptSigLen"@, seq![input]), size);
    let prefix_end = binary_v(BinaryOp::Add, base, prefix_len);
    let script_end = binary_v(BinaryOp::Add, base, size);
    let suffix_start = binary_v(BinaryOp::Add, prefix_end, int_v(state_len as i64));
    let suffix_end = binary_v(BinaryOp::Add, suffix_start, suffix_len);
    let redeem = substr_v(input, base, script_end);
    let prefix = substr_v(input, base, prefix_end);
    let suffix = substr_v(input, suffix_start, suffix_end);
    let encoded_prefix_len = call_v("bytes"@, seq![prefix_len, int_v(8)]);
    let encoded_suffix_len = call_v("bytes"@, seq![suffix_len, int_v(8)]);
    (
        ExprV {
            kind: ExprKindV::Introspection { kind: IntrospectionKind::InputScriptPubKey, index: Box::new(input) },
            span: no_span(),
        },
        new_v("ScriptPubKeyP2SHFromRedeemScript"@, seq![redeem]),
        args[3],
        binary_v(
            BinaryOp::Add,
            binary_v(BinaryOp::Add, encoded_prefix_len, prefix),
            binary_v(BinaryOp::Add, encoded_suffix_len, suffix),
        ),
    )
}

/// A call of `name` with two arguments.
fn call2(name: &str, a: Expr, b: Expr) -> (r: Expr)
    ensures
        r@ == call_v(name@, seq![a@, b@]),
{
    let ghost (av, bv) = (a@, b@);
    let mut args: Vec<Expr> = Vec::new();
    args.push(a);
    args.push(b);
    assert(exprs_view(args@) =~= seq![av, bv]) by {
        reveal_with_fuel(exprs_view, 3);
    }
    Expr::call(name, args)
}

/// The expressions `readInputStateWithTemplate(input, prefix_len,
/// suffix_len, hash)` compares before it reads any field, for a target
/// struct whose flattened field types are `layout_field_types`; an error
/// for other than four arguments, an empty layout, or a field type without
/// a fixed size.
pub fn template_checks(args: &[Expr], layout_field_types: &[TypeRef], contract_constants: &ConstantMap) -> (r: Result<TemplateChecks, CompilerError>)
    requires
        args@.len() == 4 && layout_field_types@.len() > 0 ==> encoded_len_fits(
            layout_types(layout_field_types@),
            constants_view(*contract_constants),
        ),
    ensures
        ({
            let ts = layout_types(layout_field_types@);
            let cs = constants_view(*contract_constants);
            let avs = args@.map_values(|e: Expr| e@);
            if args@.len() != 4 {
                r matches Err(CompilerError::Unsupported(m))
                    && m@ == "readInputStateWithTemplate(input_idx, template_prefix_len, template_suffix_len, expected_template_hash) expects 4 arguments"@
            } else if ts.len() == 0 {
                r matches Err(CompilerError::Unsupported(m)) && m@ == "readInputStateWithTemplate requires a struct type"@
            } else {
                match encoded_len(ts, cs) {
                    Some(n) => r matches Ok(c) && (c.actual_input_spk@, c.expected_input_spk@, c.expected_template_hash@, c.template@)
                        == template_checks_v(avs, n),
                    None => r matches Err(CompilerError::Unsupported(m))
                        && m@ == unsupported_field_message("readInputState"@, ts[first_unsized(ts, cs)]),
                }
            }
        }),
{
    if args.len() != 4 {
        return Err(CompilerError::Unsupported(String::from_str(
            "readInputStateWithTemplate(input_idx, template_prefix_len, template_suffix_len, expected_template_hash) expects 4 arguments",
        )));
    }
    if layout_field_types.len() == 0 {
        return Err(CompilerError::Unsupported(String::from_str("readInputStateWithTemplate requires a struct type")));
    }
    let input_idx = &args[0];
    let template_prefix_len = &args[1];
    let template_suffix_len = &args[2];
    let script_size_expr = match templated_input_script_size_expr(
        template_prefix_len,
        template_suffix_len,
        layout_field_types,
        contract_constants,
    ) {
        Ok(e) => e,
        Err(e) => {
            return Err(e);
        },
    };
    proof {
        let ts = layout_types(layout_field_types@);
        assert(ts.take(ts.len() as int) =~= ts);
    }
    let state_len = match encoded_state_len_for_layout_field_types(layout_field_types, contract_constants) {
        Ok(n) => n,
        Err(e) => {
            return Err(e);
        },
    };
    let script_base_expr = input_sigscript_base_expr(input_idx, clone_expr(&script_size_expr));
    let prefix_end_expr = binary_expr(BinaryOp::Add, clone_expr(&script_base_expr), clone_expr(template_prefix_len));
    let script_end_expr = binary_expr(BinaryOp::Add, clone_expr(&script_base_expr), script_size_expr);
    let suffix_start_expr = binary_expr(BinaryOp::Add, clone_expr(&prefix_end_expr), Expr::int_literal(state_len as i64));
    let suffix_end_expr = binary_expr(BinaryOp::Add, clone_expr(&suffix_start_expr), clone_expr(template_suffix_len));
    let input_redeem_script_expr = input_sigscript_substr_expr(input_idx, clone_expr(&script_base_expr), script_end_expr);
    let prefix_expr = input_sigscript_substr_expr(input_idx, script_base_expr, prefix_end_expr);
    let suffix_expr = input_sigscript_substr_expr(input_idx, suffix_start_expr, suffix_end_expr);
    let encoded_prefix_len_expr = call2("bytes", clone_expr(template_prefix_len), Expr::int_literal(8));
    let encoded_suffix_len_expr = call2("bytes", clone_expr(template_suffix_len), Expr::int_literal(8));
    let template_expr = binary_expr(
        BinaryOp::Add,
        binary_expr(BinaryOp::Add, encoded_prefix_len_expr, prefix_expr),
        binary_expr(BinaryOp::Add, encoded_suffix_len_expr, suffix_expr),
    );
    let ghost redeem_v = input_redeem_script_expr@;
    let mut spk_args: Vec<Expr> = Vec::new();
    spk_args.push(input_redeem_script_expr);
    assert(exprs_view(spk_args@) =~= seq![redeem_v]) by {
        reveal_with_fuel(exprs_view, 2);
    }
    let expected_input_spk_expr = Expr::new(
        ExprKind::New { name: String::from_str("ScriptPubKeyP2SHFromRedeemScript"), args: spk_args },
        Span::empty(),
    );
    let actual_input_spk_expr = input_script_pubkey_expr(input_idx);
    let checks = TemplateChecks {
        actual_input_spk: actual_input_spk_expr,
        expected_input_spk: expected_input_spk_expr,
        expected_template_hash: clone_expr(&args[3]),
        template: template_expr,
    };
    proof {
        let avs = args@.map_values(|e: Expr| e@);
        assert(avs[0] == args@[0]@);
        assert(avs[1] == args@[1]@);
        assert(avs[2] == args@[2]@);
        assert(avs[3] == args@[3]@);
    }
    Ok(checks)
}


/// `e` is the signature-script substring of `input` that starts at `from`
/// and is `len` bytes long.
pub open spec fn is_sigscript_slice(e: ExprV, input: ExprV, from: ExprV, len: ExprV) -> bool {
    e == substr_v(input, from, binary_v(BinaryOp::Add, from, len))
}

/// The template that `readInputStateWithTemplate(input, prefix_len,
/// suffix_len, hash)` compares with `hash` is the preimage the template
/// hash is taken of, in its order: the prefix length in eight bytes, then
/// the prefix (the first `prefix_len` bytes of the foreign redeem script,
/// which starts where the redeem script the P2SH key is built from
/// starts), then the suffix length in eight bytes, then the suffix (the
/// `suffix_len` bytes right after the prefix and the `state_len` bytes of
/// encoded state).
pub proof fn lemma_template_is_prefix_then_suffix(args: Seq<ExprV>, state_len: nat)
    ensures
        ({
            let (actual, expected, hash, template) = template_checks_v(args, state_len);
            exists|redeem_start: ExprV, redeem_end: ExprV, prefix: ExprV, suffix: ExprV| {
                &&& expected == new_v("ScriptPubKeyP2SHFromRedeemScript"@, seq![substr_v(args[0], redeem_start, redeem_end)])
                &&& is_sigscript_slice(prefix, args[0], redeem_start, args[1])
                &&& is_sigscript_slice(
                    suffix,
                    args[0],
                    binary_v(BinaryOp::Add, binary_v(BinaryOp::Add, redeem_start, args[1]), int_v(state_len as i64)),
                    args[2],
                )
                &&& template == binary_v(
                    BinaryOp::Add,
                    binary_v(BinaryOp::Add, call_v("bytes"@, seq![args[1], int_v(8)]), prefix),
                    binary_v(BinaryOp::Add, call_v("bytes"@, seq![args[2], int_v(8)]), suffix),
                )
            }
        }),
        template_checks_v(args, state_len).2 == args[3],
{
    let input = args[0];
    let prefix_len = args[1];
    let suffix_len = args[2];
    let size = binary_v(BinaryOp::Add, binary_v(BinaryOp::Add, prefix_len, int_v(state_len as i64)), suffix_len);
    let base = binary_v(BinaryOp::Sub, call_v("OpTxInputScriptSigLen"@, seq![input]), size);
    let prefix_end = binary_v(BinaryOp::Add, base, prefix_len);
    let script_end = binary_v(BinaryOp::Add, base, size);
    let suffix_start = binary_v(BinaryOp::Add, prefix_end, int_v(state_len as i64));
    let suffix_end = binary_v(BinaryOp::Add, suffix_start, suffix_len);
    let prefix = substr_v(input, base, prefix_end);
    let suffix = substr_v(input, suffix_start, suffix_end);
    let (actual, expected, hash, template) = template_checks_v(args, state_len);
    assert(is_sigscript_slice(prefix, input, base, prefix_len));
    assert(is_sigscript_slice(suffix, input, suffix_start, suffix_len));
    assert(expected == new_v("ScriptPubKeyP2SHFromRedeemScript"@, seq![substr_v(input, base, script_end)]));
}

} // verus!
