//! The names the `readInputState(...)` lowering introduces: every name it
//! takes is a `__read_input_state_<k>` not in use before the lowering (not
//! a contract, parameter or local name), it takes one new name per state
//! read it lifts, and the lowered body defines exactly the names of the
//! original body together with the names taken.
use vstd::prelude::*;
use crate::ast::{ContractAst, FunctionAst, ExprKindV, ExprV, StateFieldV, StatementV, statements_view};
use crate::read_input_state::{
    block_names_s, grows, is_read_input_state_call, lemma_next_temp_fresh, lower_args_s, lower_block_s, lower_call_arg_s,
    lower_expr_s, lower_fields_s, lower_list_s, lower_stmt_s, lowered_body, names_in_use, next_temp, stmt_names_s,
    temp_definition, temp_name, NameState,
};

verus! {

/// The name is a temporary name `__read_input_state_<k>`.
pub open spec fn is_temp(x: Seq<char>) -> bool {
    exists|k: nat| x == temp_name(k)
}

/// Going from `a` to `b`, the lowering took the names that `defs` define,
/// and only those, each a temporary name not in `a`.
pub open spec fn takes_temps(a: NameState, b: NameState, defs: Seq<StatementV>) -> bool {
    &&& grows(a, b)
    &&& block_names_s(defs) == b.0.difference(a.0)
    &&& forall|x: Seq<char>| #[trigger] b.0.contains(x) && !a.0.contains(x) ==> is_temp(x)
}

/// Going from `a` to `b`, the lowering of statement `s` into `s2` with the
/// definitions `defs` before it defines the names of `s` and the names
/// taken, each a temporary name not in `a`.
pub open spec fn stmt_takes_temps(a: NameState, b: NameState, defs: Seq<StatementV>, s: StatementV, s2: StatementV) -> bool {
    &&& grows(a, b)
    &&& block_names_s(defs) + stmt_names_s(s2) == stmt_names_s(s) + b.0.difference(a.0)
    &&& forall|x: Seq<char>| #[trigger] b.0.contains(x) && !a.0.contains(x) ==> is_temp(x)
}

proof fn lemma_block_names_add(x: Seq<StatementV>, y: Seq<StatementV>)
    ensures
        block_names_s(x + y) == block_names_s(x) + block_names_s(y),
    decreases y.len(),
{
    if y.len() == 0 {
        assert(x + y =~= x);
        assert(block_names_s(x) + block_names_s(y) =~= block_names_s(x));
    } else {
        assert((x + y).drop_last() =~= x + y.drop_last());
        assert((x + y).last() == y.last());
        lemma_block_names_add(x, y.drop_last());
        assert(block_names_s(x + y) =~= block_names_s(x) + block_names_s(y));
    }
}

proof fn lemma_block_names_push(x: Seq<StatementV>, s: StatementV)
    ensures
        block_names_s(x.push(s)) == block_names_s(x) + stmt_names_s(s),
{
    assert(x.push(s).drop_last() =~= x);
    assert(x.push(s).last() == s);
}

proof fn lemma_takes_none(a: NameState)
    ensures
        takes_temps(a, a, Seq::empty()),
{
    assert(block_names_s(Seq::<StatementV>::empty()) =~= a.0.difference(a.0));
}

proof fn lemma_takes_chain(a: NameState, m: NameState, b: NameState, d1: Seq<StatementV>, d2: Seq<StatementV>)
    requires
        takes_temps(a, m, d1),
        takes_temps(m, b, d2),
    ensures
        takes_temps(a, b, d1 + d2),
{
    lemma_block_names_add(d1, d2);
    assert(block_names_s(d1) + block_names_s(d2) =~= b.0.difference(a.0));
    assert forall|x: Seq<char>| #[trigger] b.0.contains(x) && !a.0.contains(x) implies is_temp(x) by {
        if m.0.contains(x) {
            assert(m.0.contains(x) && !a.0.contains(x));
        } else {
            assert(b.0.contains(x) && !m.0.contains(x));
        }
    }
}

/// Lowering an expression takes temporary names only, each defined once
/// by the definitions it puts before the expression.
pub proof fn lemma_expr_takes_temps(e: ExprV, st: NameState)
    requires
        st.0.finite(),
    ensures
        takes_temps(st, lower_expr_s(e, st).2, lower_expr_s(e, st).0),
    decreases e, 0nat,
{
    match e.kind {
        ExprKindV::Array(vs) => {
            lemma_list_takes_temps(vs, st);
        },
        ExprKindV::Call { name, args } => {
            lemma_args_takes_temps(args, st);
        },
        ExprKindV::New { name, args } => {
            lemma_args_takes_temps(args, st);
        },
        ExprKindV::Split { source, index, part } => {
            let a = lower_expr_s(*source, st);
            lemma_expr_takes_temps(*source, st);
            lemma_expr_takes_temps(*index, a.2);
            lemma_takes_chain(st, a.2, lower_expr_s(*index, a.2).2, a.0, lower_expr_s(*index, a.2).0);
        },
        ExprKindV::Slice { source, start, end } => {
            let a = lower_expr_s(*source, st);
            let b = lower_expr_s(*start, a.2);
            let c = lower_expr_s(*end, b.2);
            lemma_expr_takes_temps(*source, st);
            lemma_expr_takes_temps(*start, a.2);
            lemma_expr_takes_temps(*end, b.2);
            lemma_takes_chain(st, a.2, b.2, a.0, b.0);
            lemma_takes_chain(st, b.2, c.2, a.0 + b.0, c.0);
        },
        ExprKindV::Append { source, args } => {
            let a = lower_expr_s(*source, st);
            lemma_expr_takes_temps(*source, st);
            lemma_args_takes_temps(args, a.2);
            lemma_takes_chain(st, a.2, lower_args_s(args, a.2).2, a.0, lower_args_s(args, a.2).0);
        },
        ExprKindV::ArrayIndex { source, index } => {
            let a = lower_expr_s(*source, st);
            lemma_expr_takes_temps(*source, st);
            lemma_expr_takes_temps(*index, a.2);
            lemma_takes_chain(st, a.2, lower_expr_s(*index, a.2).2, a.0, lower_expr_s(*index, a.2).0);
        },
        ExprKindV::Unary { op, expr } => {
            lemma_expr_takes_temps(*expr, st);
        },
        ExprKindV::Binary { op, left, right } => {
            let a = lower_expr_s(*left, st);
            lemma_expr_takes_temps(*left, st);
            lemma_expr_takes_temps(*right, a.2);
            lemma_takes_chain(st, a.2, lower_expr_s(*right, a.2).2, a.0, lower_expr_s(*right, a.2).0);
        },
        ExprKindV::IfElse { condition, then_expr, else_expr } => {
            let a = lower_expr_s(*condition, st);
            let b = lower_expr_s(*then_expr, a.2);
            let c = lower_expr_s(*else_expr, b.2);
            lemma_expr_takes_temps(*condition, st);
            lemma_expr_takes_temps(*then_expr, a.2);
            lemma_expr_takes_temps(*else_expr, b.2);
            lemma_takes_chain(st, a.2, b.2, a.0, b.0);
            lemma_takes_chain(st, b.2, c.2, a.0 + b.0, c.0);
        },
        ExprKindV::Introspection { kind, index } => {
            lemma_expr_takes_temps(*index, st);
        },
        ExprKindV::StructLiteral(fs) => {
            lemma_fields_takes_temps(fs, st);
        },
        ExprKindV::FieldAccess { source, field } => {
            lemma_expr_takes_temps(*source, st);
        },
        ExprKindV::UnarySuffix { source, kind } => {
            lemma_expr_takes_temps(*source, st);
        },
        _ => {
            lemma_takes_none(st);
        },
    }
}

/// Lowering a list takes temporary names only.
pub proof fn lemma_list_takes_temps(es: Seq<ExprV>, st: NameState)
    requires
        st.0.finite(),
    ensures
        takes_temps(st, lower_list_s(es, st).2, lower_list_s(es, st).0),
    decreases es, 0nat,
{
    if es.len() == 0 {
        lemma_takes_none(st);
    } else {
        let a = lower_list_s(es.drop_last(), st);
        lemma_list_takes_temps(es.drop_last(), st);
        lemma_expr_takes_temps(es.last(), a.2);
        lemma_takes_chain(st, a.2, lower_expr_s(es.last(), a.2).2, a.0, lower_expr_s(es.last(), a.2).0);
    }
}

/// Lowering call arguments takes temporary names only.
pub proof fn lemma_args_takes_temps(es: Seq<ExprV>, st: NameState)
    requires
        st.0.finite(),
    ensures
        takes_temps(st, lower_args_s(es, st).2, lower_args_s(es, st).0),
    decreases es, 0nat,
{
    if es.len() == 0 {
        lemma_takes_none(st);
    } else {
        let a = lower_args_s(es.drop_last(), st);
        lemma_args_takes_temps(es.drop_last(), st);
        lemma_call_arg_takes_temps(es.last(), a.2);
        lemma_takes_chain(st, a.2, lower_call_arg_s(es.last(), a.2).2, a.0, lower_call_arg_s(es.last(), a.2).0);
    }
}

/// Lowering a call argument takes temporary names only; a lifted state
/// read takes one more, not in use before.
pub proof fn lemma_call_arg_takes_temps(e: ExprV, st: NameState)
    requires
        st.0.finite(),
    ensures
        takes_temps(st, lower_call_arg_s(e, st).2, lower_call_arg_s(e, st).0),
    decreases e, 1nat,
{
    lemma_expr_takes_temps(e, st);
    if is_read_input_state_call(e) {
        let a = lower_expr_s(e, st);
        let t = next_temp(a.2);
        lemma_next_temp_fresh(a.2);
        let d = temp_definition(t.0, a.1, e.span);
        lemma_block_names_push(a.0, d);
        assert(stmt_names_s(d) == set![t.0]);
        let r = lower_call_arg_s(e, st);
        assert(r.0 == a.0.push(d));
        assert(r.2 == t.1);
        assert(block_names_s(r.0) =~= r.2.0.difference(st.0));
        assert forall|x: Seq<char>| #[trigger] r.2.0.contains(x) && !st.0.contains(x) implies is_temp(x) by {
            if x == t.0 {
                assert(x == temp_name(crate::read_input_state::first_free(a.2.0, a.2.1)));
            } else {
                assert(a.2.0.contains(x));
            }
        }
    }
}

/// Lowering struct-literal fields takes temporary names only.
pub proof fn lemma_fields_takes_temps(fs: Seq<StateFieldV>, st: NameState)
    requires
        st.0.finite(),
    ensures
        takes_temps(st, lower_fields_s(fs, st).2, lower_fields_s(fs, st).0),
    decreases fs, 0nat,
{
    if fs.len() == 0 {
        lemma_takes_none(st);
    } else {
        let a = lower_fields_s(fs.drop_last(), st);
        lemma_fields_takes_temps(fs.drop_last(), st);
        lemma_expr_takes_temps(fs.last().expr, a.2);
        lemma_takes_chain(st, a.2, lower_expr_s(fs.last().expr, a.2).2, a.0, lower_expr_s(fs.last().expr, a.2).0);
    }
}

/// Where the lowered statement defines the same names, the statement
/// defines its names and the names taken.
proof fn lemma_same_names_step(a: NameState, b: NameState, defs: Seq<StatementV>, s: StatementV, s2: StatementV)
    requires
        takes_temps(a, b, defs),
        stmt_names_s(s2) == stmt_names_s(s),
    ensures
        stmt_takes_temps(a, b, defs, s, s2),
{
    assert(block_names_s(defs) + stmt_names_s(s2) =~= stmt_names_s(s) + b.0.difference(a.0));
}

/// Lowering a statement takes temporary names only, and the definitions
/// and the lowered statement define the statement's names and the names
/// taken.
pub proof fn lemma_stmt_takes_temps(s: StatementV, st: NameState)
    requires
        st.0.finite(),
    ensures
        stmt_takes_temps(st, lower_stmt_s(s, st).2, lower_stmt_s(s, st).0, s, lower_stmt_s(s, st).1),
    decreases s, 0nat,
{
    let r = lower_stmt_s(s, st);
    match s {
        StatementV::VariableDefinition { expr, .. } => match expr {
            Some(x) => {
                lemma_expr_takes_temps(x, st);
                lemma_same_names_step(st, r.2, r.0, s, r.1);
            },
            None => {
                lemma_takes_none(st);
                lemma_same_names_step(st, r.2, r.0, s, r.1);
            },
        },
        StatementV::TupleAssignment { expr, .. } => {
            lemma_expr_takes_temps(expr, st);
            lemma_same_names_step(st, r.2, r.0, s, r.1);
        },
        StatementV::FunctionCall { args, .. } => {
            lemma_args_takes_temps(args, st);
            lemma_same_names_step(st, r.2, r.0, s, r.1);
        },
        StatementV::FunctionCallAssign { args, .. } => {
            lemma_args_takes_temps(args, st);
            lemma_same_names_step(st, r.2, r.0, s, r.1);
        },
        StatementV::StateFunctionCallAssign { args, .. } => {
            lemma_args_takes_temps(args, st);
            lemma_same_names_step(st, r.2, r.0, s, r.1);
        },
        StatementV::StructDestructure { expr, .. } => {
            lemma_expr_takes_temps(expr, st);
            lemma_same_names_step(st, r.2, r.0, s, r.1);
        },
        StatementV::Assign { expr, .. } => {
            lemma_expr_takes_temps(expr, st);
            lemma_same_names_step(st, r.2, r.0, s, r.1);
        },
        StatementV::TimeOp { expr, .. } => {
            lemma_expr_takes_temps(expr, st);
            lemma_same_names_step(st, r.2, r.0, s, r.1);
        },
        StatementV::Require { expr, .. } => {
            lemma_expr_takes_temps(expr, st);
            lemma_same_names_step(st, r.2, r.0, s, r.1);
        },
        StatementV::Block { body, .. } => {
            lemma_block_takes_temps(body, st);
            assert(block_names_s(r.0) + stmt_names_s(r.1) =~= stmt_names_s(s) + r.2.0.difference(st.0));
        },
        StatementV::If { condition, then_branch, else_branch, .. } => {
            let c = lower_expr_s(condition, st);
            let t = lower_block_s(then_branch, c.2);
            lemma_expr_takes_temps(condition, st);
            lemma_block_takes_temps(then_branch, c.2);
            match else_branch {
                Some(eb) => {
                    let e = lower_block_s(eb, t.1);
                    lemma_block_takes_temps(eb, t.1);
                    assert(block_names_s(r.0) + stmt_names_s(r.1) =~= stmt_names_s(s) + r.2.0.difference(st.0));
                },
                None => {
                    assert(block_names_s(r.0) + stmt_names_s(r.1) =~= stmt_names_s(s) + r.2.0.difference(st.0));
                },
            }
        },
        StatementV::For { start, end, max_iterations, body, .. } => {
            let a = lower_expr_s(start, st);
            let b = lower_expr_s(end, a.2);
            let m = lower_expr_s(max_iterations, b.2);
            lemma_expr_takes_temps(start, st);
            lemma_expr_takes_temps(end, a.2);
            lemma_expr_takes_temps(max_iterations, b.2);
            lemma_takes_chain(st, a.2, b.2, a.0, b.0);
            lemma_takes_chain(st, b.2, m.2, a.0 + b.0, m.0);
            lemma_block_takes_temps(body, m.2);
            assert(block_names_s(r.0) + stmt_names_s(r.1) =~= stmt_names_s(s) + r.2.0.difference(st.0));
        },
        StatementV::Return { exprs, .. } => {
            lemma_list_takes_temps(exprs, st);
            lemma_same_names_step(st, r.2, r.0, s, r.1);
        },
        StatementV::Console { args, .. } => {
            lemma_args_takes_temps(args, st);
            lemma_same_names_step(st, r.2, r.0, s, r.1);
        },
    }
}

/// Lowering a block takes temporary names only, and the lowered block
/// defines the block's names and the names taken.
pub proof fn lemma_block_takes_temps(ss: Seq<StatementV>, st: NameState)
    requires
        st.0.finite(),
    ensures
        grows(st, lower_block_s(ss, st).1),
        block_names_s(lower_block_s(ss, st).0) == block_names_s(ss) + lower_block_s(ss, st).1.0.difference(st.0),
        forall|x: Seq<char>| #[trigger] lower_block_s(ss, st).1.0.contains(x) && !st.0.contains(x) ==> is_temp(x),
    decreases ss, 0nat,
{
    if ss.len() == 0 {
        assert(block_names_s(lower_block_s(ss, st).0) =~= block_names_s(ss) + st.0.difference(st.0));
    } else {
        let a = lower_block_s(ss.drop_last(), st);
        lemma_block_takes_temps(ss.drop_last(), st);
        let b = lower_stmt_s(ss.last(), a.1);
        lemma_stmt_takes_temps(ss.last(), a.1);
        let r = lower_block_s(ss, st);
        lemma_block_names_add(a.0, b.0.push(b.1));
        lemma_block_names_push(b.0, b.1);
        assert(block_names_s(r.0) =~= block_names_s(ss) + r.1.0.difference(st.0));
        assert forall|x: Seq<char>| #[trigger] r.1.0.contains(x) && !st.0.contains(x) implies is_temp(x) by {
            if a.1.0.contains(x) {
                assert(a.1.0.contains(x) && !st.0.contains(x));
            } else {
                assert(b.2.0.contains(x) && !a.1.0.contains(x));
            }
        }
    }
}

/// The names a statement defines form a finite set.
proof fn lemma_stmt_names_finite(s: StatementV)
    ensures
        stmt_names_s(s).finite(),
    decreases s, 0nat,
{
    broadcast use vstd::seq_lib::seq_to_set_is_finite;
    match s {
        StatementV::Block { body, .. } => lemma_block_names_finite(body),
        StatementV::If { then_branch, else_branch, .. } => {
            lemma_block_names_finite(then_branch);
            match else_branch {
                Some(b) => lemma_block_names_finite(b),
                None => {},
            }
        },
        StatementV::For { body, .. } => lemma_block_names_finite(body),
        _ => {},
    }
}

/// The names a block defines form a finite set.
proof fn lemma_block_names_finite(ss: Seq<StatementV>)
    ensures
        block_names_s(ss).finite(),
    decreases ss, 0nat,
{
    if ss.len() > 0 {
        lemma_block_names_finite(ss.drop_last());
        lemma_stmt_names_finite(ss.last());
    }
}

/// The names a function's lowering takes are all temporary names
/// `__read_input_state_<k>`, none of them a contract, parameter or local
/// name in use before; the lowered body defines exactly the names of the
/// original body and the names taken; the names in use afterwards are
/// those in use before together with the names taken; and there are as many
/// names taken as state reads lifted, so no two lifted definitions share a
/// name.
pub proof fn lemma_lowering_takes_fresh_temps(c: ContractAst, f: FunctionAst)
    ensures
        ({
            let used = names_in_use(c, f);
            let after = lowered_body(c, f);
            let taken = after.1.0.difference(used);
            &&& block_names_s(after.0) == block_names_s(statements_view(f.body@)) + taken
            &&& forall|x: Seq<char>| #[trigger] taken.contains(x) ==> is_temp(x) && !used.contains(x)
            &&& after.1.0 == used + taken
            &&& taken.finite() && taken.len() == block_reads(statements_view(f.body@))
        }),
{
    broadcast use vstd::seq_lib::seq_to_set_is_finite;
    lemma_block_names_finite(statements_view(f.body@));
    let used = names_in_use(c, f);
    assert(used.finite());
    lemma_block_takes_temps(statements_view(f.body@), (used, 0));
    let after = lowered_body(c, f);
    assert(after.1.0 =~= used + after.1.0.difference(used));
    lemma_block_count(statements_view(f.body@), (used, 0));
    let taken = after.1.0.difference(used);
    vstd::set_lib::lemma_set_disjoint_lens(used, taken);
    assert(used.disjoint(taken));
}


/// How many `readInputState(...)` call arguments an expression holds.
pub open spec fn expr_reads(e: ExprV) -> nat
    decreases e, 0nat,
{
    match e.kind {
        ExprKindV::Array(vs) => list_reads(vs),
        ExprKindV::Call { args, .. } => args_reads(args),
        ExprKindV::New { args, .. } => args_reads(args),
        ExprKindV::Split { source, index, .. } => expr_reads(*source) + expr_reads(*index),
        ExprKindV::Slice { source, start, end } => expr_reads(*source) + expr_reads(*start) + expr_reads(*end),
        ExprKindV::Append { source, args } => expr_reads(*source) + args_reads(args),
        ExprKindV::ArrayIndex { source, index } => expr_reads(*source) + expr_reads(*index),
        ExprKindV::Unary { expr, .. } => expr_reads(*expr),
        ExprKindV::Binary { left, right, .. } => expr_reads(*left) + expr_reads(*right),
        ExprKindV::IfElse { condition, then_expr, else_expr } => expr_reads(*condition) + expr_reads(*then_expr) + expr_reads(
            *else_expr,
        ),
        ExprKindV::Introspection { index, .. } => expr_reads(*index),
        ExprKindV::StructLiteral(fs) => fields_reads(fs),
        ExprKindV::FieldAccess { source, .. } => expr_reads(*source),
        ExprKindV::UnarySuffix { source, .. } => expr_reads(*source),
        _ => 0,
    }
}

/// How many `readInputState(...)` call arguments a list holds.
pub open spec fn list_reads(es: Seq<ExprV>) -> nat
    decreases es, 0nat,
{
    if es.len() == 0 {
        0
    } else {
        list_reads(es.drop_last()) + expr_reads(es.last())
    }
}

/// How many `readInputState(...)` call arguments call arguments are or hold.
pub open spec fn args_reads(es: Seq<ExprV>) -> nat
    decreases es, 0nat,
{
    if es.len() == 0 {
        0
    } else {
        args_reads(es.drop_last()) + call_arg_reads(es.last())
    }
}

/// How many `readInputState(...)` call arguments a call argument is or
/// holds.
pub open spec fn call_arg_reads(e: ExprV) -> nat
    decreases e, 1nat,
{
    expr_reads(e) + if is_read_input_state_call(e) {
        1nat
    } else {
        0nat
    }
}

/// How many `readInputState(...)` call arguments struct-literal fields hold.
pub open spec fn fields_reads(fs: Seq<StateFieldV>) -> nat
    decreases fs, 0nat,
{
    if fs.len() == 0 {
        0
    } else {
        fields_reads(fs.drop_last()) + expr_reads(fs.last().expr)
    }
}

/// How many `readInputState(...)` call arguments a statement holds,
/// nested blocks included.
pub open spec fn stmt_reads(s: StatementV) -> nat
    decreases s, 0nat,
{
    match s {
        StatementV::VariableDefinition { expr, .. } => match expr {
            Some(x) => expr_reads(x),
            None => 0,
        },
        StatementV::TupleAssignment { expr, .. } => expr_reads(expr),
        StatementV::FunctionCall { args, .. } => args_reads(args),
        StatementV::FunctionCallAssign { args, .. } => args_reads(args),
        StatementV::StateFunctionCallAssign { args, .. } => args_reads(args),
        StatementV::StructDestructure { expr, .. } => expr_reads(expr),
        StatementV::Assign { expr, .. } => expr_reads(expr),
        StatementV::TimeOp { expr, .. } => expr_reads(expr),
        StatementV::Require { expr, .. } => expr_reads(expr),
        StatementV::Block { body, .. } => block_reads(body),
        StatementV::If { condition, then_branch, else_branch, .. } => expr_reads(condition) + block_reads(then_branch) + match else_branch {
            Some(b) => block_reads(b),
            None => 0,
        },
        StatementV::For { start, end, max_iterations, body, .. } => expr_reads(start) + expr_reads(end) + expr_reads(
            max_iterations,
        ) + block_reads(body),
        StatementV::Return { exprs, .. } => list_reads(exprs),
        StatementV::Console { args, .. } => args_reads(args),
    }
}

/// How many `readInputState(...)` call arguments a block holds.
pub open spec fn block_reads(ss: Seq<StatementV>) -> nat
    decreases ss, 0nat,
{
    if ss.len() == 0 {
        0
    } else {
        block_reads(ss.drop_last()) + stmt_reads(ss.last())
    }
}

/// `b` has `n` names more than `a`, and is finite.
pub open spec fn adds(a: NameState, b: NameState, n: nat) -> bool {
    &&& b.0.finite()
    &&& b.0.len() == a.0.len() + n
}

/// Lowering an expression takes one new name per state read it lifts.
pub proof fn lemma_expr_count(e: ExprV, st: NameState)
    requires
        st.0.finite(),
    ensures
        adds(st, lower_expr_s(e, st).2, expr_reads(e)),
    decreases e, 0nat,
{
    match e.kind {
        ExprKindV::Array(vs) => lemma_list_count(vs, st),
        ExprKindV::Call { name, args } => lemma_args_count(args, st),
        ExprKindV::New { name, args } => lemma_args_count(args, st),
        ExprKindV::Split { source, index, part } => {
            lemma_expr_count(*source, st);
            lemma_expr_count(*index, lower_expr_s(*source, st).2);
        },
        ExprKindV::Slice { source, start, end } => {
            let a = lower_expr_s(*source, st);
            let b = lower_expr_s(*start, a.2);
            lemma_expr_count(*source, st);
            lemma_expr_count(*start, a.2);
            lemma_expr_count(*end, b.2);
        },
        ExprKindV::Append { source, args } => {
            lemma_expr_count(*source, st);
            lemma_args_count(args, lower_expr_s(*source, st).2);
        },
        ExprKindV::ArrayIndex { source, index } => {
            lemma_expr_count(*source, st);
            lemma_expr_count(*index, lower_expr_s(*source, st).2);
        },
        ExprKindV::Unary { op, expr } => lemma_expr_count(*expr, st),
        ExprKindV::Binary { op, left, right } => {
            lemma_expr_count(*left, st);
            lemma_expr_count(*right, lower_expr_s(*left, st).2);
        },
        ExprKindV::IfElse { condition, then_expr, else_expr } => {
            let a = lower_expr_s(*condition, st);
            let b = lower_expr_s(*then_expr, a.2);
            lemma_expr_count(*condition, st);
            lemma_expr_count(*then_expr, a.2);
            lemma_expr_count(*else_expr, b.2);
        },
        ExprKindV::Introspection { kind, index } => lemma_expr_count(*index, st),
        ExprKindV::StructLiteral(fs) => lemma_fields_count(fs, st),
        ExprKindV::FieldAccess { source, field } => lemma_expr_count(*source, st),
        ExprKindV::UnarySuffix { source, kind } => lemma_expr_count(*source, st),
        _ => {},
    }
}

/// Lowering a list takes one new name per state read it lifts.
pub proof fn lemma_list_count(es: Seq<ExprV>, st: NameState)
    requires
        st.0.finite(),
    ensures
        adds(st, lower_list_s(es, st).2, list_reads(es)),
    decreases es, 0nat,
{
    if es.len() > 0 {
        lemma_list_count(es.drop_last(), st);
        lemma_expr_count(es.last(), lower_list_s(es.drop_last(), st).2);
    }
}

/// Lowering call arguments takes one new name per state read it lifts.
pub proof fn lemma_args_count(es: Seq<ExprV>, st: NameState)
    requires
        st.0.finite(),
    ensures
        adds(st, lower_args_s(es, st).2, args_reads(es)),
    decreases es, 0nat,
{
    if es.len() > 0 {
        lemma_args_count(es.drop_last(), st);
        lemma_call_arg_count(es.last(), lower_args_s(es.drop_last(), st).2);
    }
}

/// Lowering a call argument takes one new name per state read it lifts.
pub proof fn lemma_call_arg_count(e: ExprV, st: NameState)
    requires
        st.0.finite(),
    ensures
        adds(st, lower_call_arg_s(e, st).2, call_arg_reads(e)),
    decreases e, 1nat,
{
    lemma_expr_count(e, st);
    if is_read_input_state_call(e) {
        let a = lower_expr_s(e, st);
        lemma_next_temp_fresh(a.2);
    }
}

/// Lowering struct-literal fields takes one new name per state read it
/// lifts.
pub proof fn lemma_fields_count(fs: Seq<StateFieldV>, st: NameState)
    requires
        st.0.finite(),
    ensures
        adds(st, lower_fields_s(fs, st).2, fields_reads(fs)),
    decreases fs, 0nat,
{
    if fs.len() > 0 {
        lemma_fields_count(fs.drop_last(), st);
        lemma_expr_count(fs.last().expr, lower_fields_s(fs.drop_last(), st).2);
    }
}

/// Lowering a statement takes one new name per state read it lifts.
pub proof fn lemma_stmt_count(s: StatementV, st: NameState)
    requires
        st.0.finite(),
    ensures
        adds(st, lower_stmt_s(s, st).2, stmt_reads(s)),
    decreases s, 0nat,
{
    match s {
        StatementV::VariableDefinition { expr, .. } => match expr {
            Some(x) => lemma_expr_count(x, st),
            None => {},
        },
        StatementV::TupleAssignment { expr, .. } => lemma_expr_count(expr, st),
        StatementV::FunctionCall { args, .. } => lemma_args_count(args, st),
        StatementV::FunctionCallAssign { args, .. } => lemma_args_count(args, st),
        StatementV::StateFunctionCallAssign { args, .. } => lemma_args_count(args, st),
        StatementV::StructDestructure { expr, .. } => lemma_expr_count(expr, st),
        StatementV::Assign { expr, .. } => lemma_expr_count(expr, st),
        StatementV::TimeOp { expr, .. } => lemma_expr_count(expr, st),
        StatementV::Require { expr, .. } => lemma_expr_count(expr, st),
        StatementV::Block { body, .. } => lemma_block_count(body, st),
        StatementV::If { condition, then_branch, else_branch, .. } => {
            let c = lower_expr_s(condition, st);
            lemma_expr_count(condition, st);
            lemma_block_count(then_branch, c.2);
            match else_branch {
                Some(eb) => lemma_block_count(eb, lower_block_s(then_branch, c.2).1),
                None => {},
            }
        },
        StatementV::For { start, end, max_iterations, body, .. } => {
            let a = lower_expr_s(start, st);
            let b = lower_expr_s(end, a.2);
            let m = lower_expr_s(max_iterations, b.2);
            lemma_expr_count(start, st);
            lemma_expr_count(end, a.2);
            lemma_expr_count(max_iterations, b.2);
            lemma_block_count(body, m.2);
        },
        StatementV::Return { exprs, .. } => lemma_list_count(exprs, st),
        StatementV::Console { args, .. } => lemma_args_count(args, st),
    }
}

/// Lowering a block takes one new name per state read it lifts.
pub proof fn lemma_block_count(ss: Seq<StatementV>, st: NameState)
    requires
        st.0.finite(),
    ensures
        adds(st, lower_block_s(ss, st).1, block_reads(ss)),
    decreases ss, 0nat,
{
    if ss.len() > 0 {
        lemma_block_count(ss.drop_last(), st);
        lemma_stmt_count(ss.last(), lower_block_s(ss.drop_last(), st).1);
    }
}

} // verus!
