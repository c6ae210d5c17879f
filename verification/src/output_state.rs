//! What the inner output-state validations decide before they emit code:
//! which argument is the output index, which are the new state's fields,
//! and (for the template form) which are the template parts and the
//! preimage whose hash must match.
use vstd::prelude::*;
use crate::ast::{
    clone_expr, constants_view, exprs_view, fields_view, lemma_fields_view_push, BinaryOp, ConstantMap, ContractFieldAst,
    Expr, ExprV, StateFieldExpr, StateFieldV,
};
use crate::error::CompilerError;
use crate::state_layout::{
    fixed_state_payload_len, lemma_encoded_len_none, lemma_first_unsized, type_fixed_size, unsupported_field, binary_v, call_v, encoded_len, encoded_len_fits, encoded_state_len, field_types, first_unsized, int_v,
    unsupported_field_message,
};

verus! {

/// The name under which the inner form of `validateOutputState` is called.
pub const VALIDATE_OUTPUT_STATE_INNER: &'static str = "__validateOutputStateInner";

/// The name under which the inner form of `validateOutputStateWithTemplate`
/// is called.
pub const VALIDATE_OUTPUT_STATE_WITH_TEMPLATE_INNER: &'static str = "__validateOutputStateWithTemplateInner";

/// The new state of `validateOutputState`: each contract field's name with
/// the argument after the output index at its place, at that argument's
/// source range.
pub open spec fn new_state_fields(fields: Seq<ContractFieldAst>, args: Seq<Expr>) -> Seq<StateFieldV> {
    Seq::new(fields.len(), |k: int| StateFieldV { name: fields[k].name@, expr: args[k + 1]@, span: args[k + 1].span })
}

/// What `__validateOutputStateInner(output_idx, ..state_fields)` checks
/// before it emits code: one argument per contract field after the output
/// index, at least one contract field, an encoded state that fits before
/// the end of the contract fields, and a known script size. On success, the
/// output index, the new state's fields, where the old state starts, and
/// the script size.
pub open spec fn output_state_plan(
    args: Seq<Expr>,
    fields: Seq<ContractFieldAst>,
    end_offset: nat,
    script_size: Option<i64>,
    cs: Seq<(Seq<char>, ExprV)>,
) -> Result<(ExprV, Seq<StateFieldV>, nat, i64), Seq<char>> {
    let ts = field_types(fields);
    if args.len() != fields.len() + 1 {
        Err(VALIDATE_OUTPUT_STATE_INNER@ + "(output_idx, ..state_fields) expects "@ + crate::ast::decimal(fields.len())
            + " state field argument(s)"@)
    } else if fields.len() == 0 {
        Err("validateOutputState requires contract fields"@)
    } else {
        match encoded_len(ts, cs) {
            None => Err(unsupported_field_message("validateOutputState"@, ts[first_unsized(ts, cs)])),
            Some(total) => if total > end_offset {
                Err("validateOutputState state offset underflow"@)
            } else {
                match script_size {
                    None => Err("validateOutputState requires this.scriptSize"@),
                    Some(size) => Ok((args[0]@, new_state_fields(fields, args), (end_offset - total) as nat, size)),
                }
            },
        }
    }
}

/// The decided parts of `__validateOutputStateInner`.
pub struct OutputStatePlan {
    pub output_idx: Expr,
    pub state_fields: Vec<StateFieldExpr>,
    pub state_start_offset: usize,
    pub script_size: i64,
}

/// Checks that every contract field's type has a fixed size, as encoding
/// the new state for `validateOutputState` needs; the error names the first
/// type that has none.
fn check_fields_sized(contract_fields: &[ContractFieldAst], contract_constants: &ConstantMap) -> (r: Result<(), CompilerError>)
    ensures
        ({
            let ts = field_types(contract_fields@);
            let cs = constants_view(*contract_constants);
            match encoded_len(ts, cs) {
                Some(_) => r is Ok,
                None => r matches Err(CompilerError::Unsupported(m)) && m@ == unsupported_field_message(
                    "validateOutputState"@,
                    ts[first_unsized(ts, cs)],
                ),
            }
        }),
{
    let ghost ts = field_types(contract_fields@);
    let ghost cs = constants_view(*contract_constants);
    let mut k: usize = 0;
    assert(ts.take(0) =~= Seq::<crate::ast::TypeRefV>::empty());
    while k < contract_fields.len()
        invariant
            k <= contract_fields@.len(),
            ts == field_types(contract_fields@),
            ts.len() == contract_fields@.len(),
            cs == constants_view(*contract_constants),
            forall|j: int| 0 <= j < k ==> type_fixed_size(#[trigger] ts[j], cs) is Some,
            encoded_len(ts.take(k as int), cs) is Some,
        decreases contract_fields@.len() - k,
    {
        assert(ts[k as int] == contract_fields@[k as int].type_ref@);
        assert(ts.take(k + 1).drop_last() =~= ts.take(k as int));
        assert(ts.take(k + 1).last() == ts[k as int]);
        match fixed_state_payload_len(&contract_fields[k].type_ref, contract_constants) {
            Err(_) => {
                proof {
                    lemma_first_unsized(ts, cs, k as int);
                    lemma_encoded_len_none(ts, cs, k + 1);
                }
                return Err(unsupported_field("validateOutputState", &contract_fields[k].type_ref));
            },
            Ok(_) => {},
        }
        k = k + 1;
    }
    assert(ts.take(ts.len() as int) =~= ts);
    Ok(())
}

/// The decisions of `__validateOutputStateInner(output_idx, ..state_fields)`
/// before code is emitted, or the error it stops at.
pub fn validate_output_state_plan(
    args: &[Expr],
    contract_fields: &[ContractFieldAst],
    contract_fields_end_offset: usize,
    script_size: Option<i64>,
    contract_constants: &ConstantMap,
) -> (r: Result<OutputStatePlan, CompilerError>)
    requires
        args@.len() == contract_fields@.len() + 1 && contract_fields@.len() > 0 ==> encoded_len_fits(
            field_types(contract_fields@),
            constants_view(*contract_constants),
        ),
    ensures
        match output_state_plan(args@, contract_fields@, contract_fields_end_offset as nat, script_size, constants_view(*contract_constants)) {
            Ok((idx, fs, start, size)) => r matches Ok(p) && p.output_idx@ == idx && fields_view(p.state_fields@) == fs
                && p.state_start_offset == start && p.script_size == size,
            Err(m) => r matches Err(CompilerError::Unsupported(x)) && x@ == m,
        },
{
    if args.len() == 0 || args.len() - 1 != contract_fields.len() {
        let mut m = String::from_str(VALIDATE_OUTPUT_STATE_INNER);
        m.append("(output_idx, ..state_fields) expects ");
        let count = crate::ast::usize_decimal(contract_fields.len());
        m.append(count.as_str());
        m.append(" state field argument(s)");
        return Err(CompilerError::Unsupported(m));
    }
    let output_idx = clone_expr(&args[0]);
    let mut state_fields: Vec<StateFieldExpr> = Vec::new();
    let mut i: usize = 0;
    while i < contract_fields.len()
        invariant
            i <= contract_fields@.len(),
            args@.len() == contract_fields@.len() + 1,
            fields_view(state_fields@) == new_state_fields(contract_fields@, args@).take(i as int),
        decreases contract_fields@.len() - i,
    {
        let f = StateFieldExpr { name: contract_fields[i].name.clone(), expr: clone_expr(&args[i + 1]), span: args[i + 1].span };
        proof {
            lemma_fields_view_push(state_fields@, f);
            assert(new_state_fields(contract_fields@, args@).take(i + 1) =~= new_state_fields(contract_fields@, args@).take(
                i as int,
            ).push(StateFieldV { name: f.name@, expr: f.expr@, span: f.span }));
        }
        state_fields.push(f);
        i = i + 1;
    }
    assert(new_state_fields(contract_fields@, args@).take(contract_fields@.len() as int) =~= new_state_fields(
        contract_fields@,
        args@,
    ));
    if contract_fields.len() == 0 {
        return Err(CompilerError::Unsupported(String::from_str("validateOutputState requires contract fields")));
    }
    match check_fields_sized(contract_fields, contract_constants) {
        Err(e) => return Err(e),
        Ok(()) => {},
    }
    proof {
        let ts = field_types(contract_fields@);
        assert(ts.take(ts.len() as int) =~= ts);
    }
    let total = match encoded_state_len(contract_fields, contract_constants) {
        Ok(n) => n,
        Err(e) => {
            return Err(e);
        },
    };
    let start = match contract_fields_end_offset.checked_sub(total) {
        Some(s) => s,
        None => {
            return Err(CompilerError::Unsupported(String::from_str("validateOutputState state offset underflow")));
        },
    };
    let size = match script_size {
        Some(s) => s,
        None => {
            return Err(CompilerError::Unsupported(String::from_str("validateOutputState requires this.scriptSize")));
        },
    };
    Ok(OutputStatePlan { output_idx, state_fields, state_start_offset: start, script_size: size })
}

/// The view of `bytes(x, 8)`: `x` as eight little-endian bytes.
pub open spec fn eight_bytes_v(x: ExprV) -> ExprV {
    call_v("bytes"@, seq![x, int_v(8)])
}

/// The template preimage the output's template hash is checked against:
/// the prefix length in eight bytes, the prefix, the suffix length in eight
/// bytes, the suffix.
pub open spec fn template_preimage_v(prefix: ExprV, suffix: ExprV) -> ExprV {
    binary_v(
        BinaryOp::Add,
        binary_v(BinaryOp::Add, eight_bytes_v(call_v("length"@, seq![prefix])), prefix),
        binary_v(BinaryOp::Add, eight_bytes_v(call_v("length"@, seq![suffix])), suffix),
    )
}

/// The decided parts of `__validateOutputStateWithTemplateInner`.
pub struct OutputTemplatePlan {
    pub output_idx: Expr,
    pub state_fields: Vec<Expr>,
    pub template_prefix: Expr,
    pub template_suffix: Expr,
    pub expected_template_hash: Expr,
    pub template_preimage: Expr,
}

/// A call of `name` with one argument.
fn call1(name: &str, a: Expr) -> (r: Expr)
    ensures
        r@ == call_v(name@, seq![a@]),
{
    let ghost av = a@;
    let mut args: Vec<Expr> = Vec::new();
    args.push(a);
    assert(exprs_view(args@) =~= seq![av]) by {
        reveal_with_fuel(exprs_view, 2);
    }
    Expr::call(name, args)
}

/// `bytes(x, 8)`.
fn eight_bytes(x: Expr) -> (r: Expr)
    ensures
        r@ == eight_bytes_v(x@),
{
    let ghost xv = x@;
    let mut args: Vec<Expr> = Vec::new();
    args.push(x);
    args.push(Expr::int_literal(8));
    assert(exprs_view(args@) =~= seq![xv, int_v(8)]) by {
        reveal_with_fuel(exprs_view, 3);
    }
    Expr::call("bytes", args)
}

/// The decisions of `__validateOutputStateWithTemplateInner(output_idx,
/// ..state_fields, template_prefix, template_suffix,
/// expected_template_hash)` before code is emitted: at least five
/// arguments (so at least one state field), and the preimage to hash.
pub fn validate_output_template_plan(args: &[Expr]) -> (r: Result<OutputTemplatePlan, CompilerError>)
    ensures
        args@.len() < 5 ==> (r matches Err(CompilerError::Unsupported(m))
            && m@ == "__validateOutputStateWithTemplateInner(output_idx, ..state_fields, template_prefix, template_suffix, expected_template_hash) expects at least 5 arguments"@),
        args@.len() >= 5 ==> ({
            let n = args@.len() as int;
            r matches Ok(p) && p.output_idx@ == args@[0]@
                && exprs_view(p.state_fields@) == args@.subrange(1, n - 3).map_values(|e: Expr| e@)
                && p.template_prefix@ == args@[n - 3]@ && p.template_suffix@ == args@[n - 2]@
                && p.expected_template_hash@ == args@[n - 1]@
                && p.template_preimage@ == template_preimage_v(args@[n - 3]@, args@[n - 2]@)
        }),
{
    let n = args.len();
    if n < 5 {
        return Err(CompilerError::Unsupported(String::from_str(
            "__validateOutputStateWithTemplateInner(output_idx, ..state_fields, template_prefix, template_suffix, expected_template_hash) expects at least 5 arguments",
        )));
    }
    let mut state_fields: Vec<Expr> = Vec::new();
    let mut i: usize = 1;
    while i < n - 3
        invariant
            n == args@.len(),
            n >= 5,
            1 <= i <= n - 3,
            state_fields@.len() == i - 1,
            forall|k: int| 0 <= k < state_fields@.len() ==> #[trigger] state_fields@[k]@ == args@[k + 1]@,
        decreases n - 3 - i,
    {
        state_fields.push(clone_expr(&args[i]));
        i = i + 1;
    }
    proof {
        crate::ast::lemma_exprs_view(state_fields@);
        let want = args@.subrange(1, n - 3).map_values(|e: Expr| e@);
        assert(want.len() == state_fields@.len());
        assert forall|k: int| 0 <= k < want.len() implies exprs_view(state_fields@)[k] == want[k] by {
            assert(state_fields@[k]@ == args@[k + 1]@);
            assert(args@.subrange(1, n - 3)[k] == args@[k + 1]);
        }
        assert(exprs_view(state_fields@) =~= want);
    }
    if state_fields.len() == 0 {
        return Err(CompilerError::Unsupported(String::from_str("validateOutputStateWithTemplate requires contract fields")));
    }
    let prefix = clone_expr(&args[n - 3]);
    let suffix = clone_expr(&args[n - 2]);
    let encoded_prefix_len = eight_bytes(call1("length", clone_expr(&prefix)));
    let encoded_suffix_len = eight_bytes(call1("length", clone_expr(&suffix)));
    let preimage = crate::ast::binary_expr(
        BinaryOp::Add,
        crate::ast::binary_expr(BinaryOp::Add, encoded_prefix_len, clone_expr(&prefix)),
        crate::ast::binary_expr(BinaryOp::Add, encoded_suffix_len, clone_expr(&suffix)),
    );
    Ok(OutputTemplatePlan {
        output_idx: clone_expr(&args[0]),
        state_fields,
        template_prefix: prefix,
        template_suffix: suffix,
        expected_template_hash: clone_expr(&args[n - 1]),
        template_preimage: preimage,
    })
}


/// The argument counts of `validateOutputState(output_idx, new_state)` and
/// of `validateOutputStateWithTemplate(output_idx, new_state,
/// template_prefix, template_suffix, expected_template_hash)`: two and
/// five; an error that names the form for any other count. The argument
/// types are checked by type inference, not here.
pub fn check_output_state_call_arity(name: &str, args: &[Expr]) -> (r: Result<(), CompilerError>)
    requires
        name@ == "validateOutputState"@ || name@ == "validateOutputStateWithTemplate"@,
    ensures
        name@ == "validateOutputState"@ ==> if args@.len() == 2 {
            r is Ok
        } else {
            r matches Err(CompilerError::Unsupported(m)) && m@ == "validateOutputState(output_idx, new_state) expects 2 arguments"@
        },
        name@ != "validateOutputState"@ ==> if args@.len() == 5 {
            r is Ok
        } else {
            r matches Err(CompilerError::Unsupported(m)) && m@
                == "validateOutputStateWithTemplate(output_idx, new_state, template_prefix, template_suffix, expected_template_hash) expects 5 arguments"@
        },
{
    if String::from_str(name) == String::from_str("validateOutputState") {
        if args.len() == 2 {
            Ok(())
        } else {
            Err(CompilerError::Unsupported(String::from_str("validateOutputState(output_idx, new_state) expects 2 arguments")))
        }
    } else if args.len() == 5 {
        Ok(())
    } else {
        Err(CompilerError::Unsupported(String::from_str(
            "validateOutputStateWithTemplate(output_idx, new_state, template_prefix, template_suffix, expected_template_hash) expects 5 arguments",
        )))
    }
}

} // verus!
