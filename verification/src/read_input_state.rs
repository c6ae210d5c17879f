//! Lifting of `readInputState(...)` call arguments into local variables.
//!
//! Later stages represent structs as several scalar stack values; a state
//! read that is a call argument gets a binding of its own first, so that
//! those stages flatten it through the ordinary local-variable path:
//! `checkState(1, readInputState(i), true);` becomes
//! `State __read_input_state_0 = readInputState(i);` followed by
//! `checkState(1, __read_input_state_0, true);`.
use vstd::prelude::*;
use crate::ast::{
    bindings_view, clone_type, clone_types, lemma_statements_view, types_view, ConstantAst, ContractAst, ContractFieldAst,
    FunctionAst, PragmaAst, opt_string_view, params_view, strings_view, ParamAst, StructBindingAst, clone_expr, decimal, exprs_view, lemma_exprs_view_push, lemma_fields_view_push, TypeBase, TypeRef, fields_view, lemma_exprs_view, lemma_statements_view_push, statements_view, usize_decimal, Expr,
    ExprKind, ExprKindV, ExprV, ParamV, Span, StateFieldExpr, StateFieldV, Statement, StatementV, StructBindingV,
    TypeBaseV, TypeRefV, STATE_TYPE_NAME,
};
use crate::error::CompilerError;
use crate::stack_bindings::contains_name;
use crate::stack_order::views;

verus! {

/// The names in use and the index the next temporary name is tried from.
pub type NameState = (Set<Seq<char>>, nat);

/// The `k`-th temporary name.
pub open spec fn temp_name(k: nat) -> Seq<char> {
    "__read_input_state_"@ + decimal(k)
}

/// `k` is the first index from `from` on whose temporary name is not in use.
pub open spec fn is_first_free(used: Set<Seq<char>>, from: nat, k: nat) -> bool {
    &&& from <= k
    &&& !used.contains(temp_name(k))
    &&& forall|j: nat| from <= j < k ==> used.contains(#[trigger] temp_name(j))
}

/// The first index from `from` on whose temporary name is not in use.
pub open spec fn first_free(used: Set<Seq<char>>, from: nat) -> nat {
    choose|k: nat| is_first_free(used, from, k)
}

/// The next temporary name and the state after it is taken.
pub open spec fn next_temp(st: NameState) -> (Seq<char>, NameState) {
    let k = first_free(st.0, st.1);
    (temp_name(k), (st.0.insert(temp_name(k)), k + 1))
}

/// A decimal numeral has at least one digit, and two digits from ten on.
proof fn lemma_decimal_len(n: nat)
    ensures
        decimal(n).len() >= 1,
        n < 10 ==> decimal(n).len() == 1,
        n >= 10 ==> decimal(n).len() >= 2,
    decreases n,
{
    if n >= 10 {
        lemma_decimal_len(n / 10);
    }
}

/// Different numbers have different numerals.
proof fn lemma_decimal_injective(a: nat, b: nat)
    requires
        decimal(a) == decimal(b),
    ensures
        a == b,
    decreases a,
{
    lemma_decimal_len(a);
    lemma_decimal_len(b);
    if a < 10 && b < 10 {
        let ca = ((('0' as u8) + a) as char);
        let cb = ((('0' as u8) + b) as char);
        assert(decimal(a) == seq![ca]);
        assert(decimal(b) == seq![cb]);
        assert(seq![ca][0] == ca);
        assert(seq![cb][0] == cb);
        assert(ca == cb);
        assert(ca as int == ('0' as u8) + a);
        assert(cb as int == ('0' as u8) + b);
    } else if a >= 10 && b >= 10 {
        assert(decimal(a).drop_last() == decimal(a / 10));
        assert(decimal(b).drop_last() == decimal(b / 10));
        lemma_decimal_injective(a / 10, b / 10);
        let ca = ((('0' as u8) + (a % 10)) as char);
        let cb = ((('0' as u8) + (b % 10)) as char);
        assert(decimal(a) == decimal(a / 10).push(ca));
        assert(decimal(b) == decimal(b / 10).push(cb));
        assert(decimal(a).last() == ca);
        assert(decimal(b).last() == cb);
        assert(ca as int == ('0' as u8) + (a % 10));
        assert(cb as int == ('0' as u8) + (b % 10));
        assert(a == 10 * (a / 10) + a % 10);
        assert(b == 10 * (b / 10) + b % 10);
    } else {
        assert(decimal(a).len() != decimal(b).len());
    }
}

/// Different indices give different temporary names.
pub proof fn lemma_temp_name_injective(a: nat, b: nat)
    requires
        temp_name(a) == temp_name(b),
    ensures
        a == b,
{
    let p = "__read_input_state_"@;
    assert(temp_name(a).skip(p.len() as int) =~= decimal(a));
    assert(temp_name(b).skip(p.len() as int) =~= decimal(b));
    lemma_decimal_injective(a, b);
}

/// A finite set of names leaves some temporary name free from any index on.
pub proof fn lemma_first_free_exists(used: Set<Seq<char>>, from: nat)
    requires
        used.finite(),
    ensures
        is_first_free(used, from, first_free(used, from)),
    decreases used.len(),
{
    if !used.contains(temp_name(from)) {
        assert(is_first_free(used, from, from));
    } else {
        let rest = used.remove(temp_name(from));
        lemma_first_free_exists(rest, from + 1);
        let k = first_free(rest, from + 1);
        if temp_name(k) == temp_name(from) {
            lemma_temp_name_injective(k, from);
        }
        assert forall|j: nat| from <= j < k implies used.contains(#[trigger] temp_name(j)) by {
            if j > from {
                assert(rest.contains(temp_name(j)));
            }
        }
        assert(is_first_free(used, from, k));
    }
}

/// The first free index is the only one with its property.
proof fn lemma_first_free_unique(used: Set<Seq<char>>, from: nat, k: nat)
    requires
        used.finite(),
        is_first_free(used, from, k),
    ensures
        first_free(used, from) == k,
{
    lemma_first_free_exists(used, from);
    let c = first_free(used, from);
    if c < k {
        assert(used.contains(temp_name(c)));
    } else if k < c {
        assert(used.contains(temp_name(k)));
    }
}

/// A set that holds the first `n` temporary names has at least `n`
/// elements.
proof fn lemma_temps_fit(used: Set<Seq<char>>, n: nat)
    requires
        used.finite(),
        forall|j: nat| j < n ==> used.contains(#[trigger] temp_name(j)),
    ensures
        n <= used.len(),
    decreases n,
{
    if n > 0 {
        let rest = used.remove(temp_name((n - 1) as nat));
        assert forall|j: nat| j < (n - 1) as nat implies rest.contains(#[trigger] temp_name(j)) by {
            if temp_name(j) == temp_name((n - 1) as nat) {
                lemma_temp_name_injective(j, (n - 1) as nat);
            }
        }
        lemma_temps_fit(rest, (n - 1) as nat);
    }
}

/// The names in use, and the index of the next temporary name to try.
struct LoweringContext {
    used_names: Vec<String>,
    temp_index: usize,
}

impl LoweringContext {
    spec fn state(&self) -> NameState {
        (views(self.used_names@).to_set(), self.temp_index as nat)
    }

    /// No name is held twice, and every temporary name before the index is
    /// in use.
    spec fn wf(&self) -> bool {
        &&& views(self.used_names@).no_duplicates()
        &&& forall|j: nat| j < self.temp_index ==> views(self.used_names@).to_set().contains(#[trigger] temp_name(j))
    }

    /// A temporary name not in use yet, which is then in use.
    fn next_temp_name(&mut self) -> (r: String)
        requires
            old(self).wf(),
            old(self).used_names@.len() < usize::MAX,
        ensures
            final(self).wf(),
            (r@, final(self).state()) == next_temp(old(self).state()),
            !old(self).state().0.contains(r@),
            final(self).used_names@.len() == old(self).used_names@.len() + 1,
    {
        let ghost used = views(self.used_names@).to_set();
        let ghost from = self.temp_index as nat;
        proof {
            views(self.used_names@).unique_seq_to_set();
            lemma_first_free_exists(used, from);
        }
        let ghost k = first_free(used, from);
        proof {
            assert forall|j: nat| j < k implies used.contains(#[trigger] temp_name(j)) by {}
            lemma_temps_fit(used, k);
        }
        loop
            invariant
                views(self.used_names@).to_set() == used,
                used == old(self).state().0,
                from == old(self).state().1,
                self.used_names@.len() == old(self).used_names@.len(),
                views(self.used_names@).no_duplicates(),
                views(self.used_names@).len() == self.used_names@.len(),
                used.len() == self.used_names@.len(),
                self.used_names@.len() < usize::MAX,
                from <= self.temp_index <= k,
                k <= used.len(),
                is_first_free(used, from, k),
                forall|j: nat| j < from ==> used.contains(#[trigger] temp_name(j)),
            decreases k - self.temp_index,
        {
            let mut name = String::from_str("__read_input_state_");
            let digits = usize_decimal(self.temp_index);
            name.append(digits.as_str());
            let ghost idx = self.temp_index as nat;
            assert(name@ == temp_name(idx));
            self.temp_index = self.temp_index + 1;
            if !contains_name(&self.used_names, &name) {
                assert(!used.contains(temp_name(idx)));
                assert(idx == k);
                let ghost before = self.used_names@;
                self.used_names.push(name.clone());
                proof {
                    assert(views(self.used_names@) =~= views(before).push(name@));
                    views(before).lemma_push_to_set_commute(name@);
                    assert(views(self.used_names@).to_set() =~= used.insert(name@));
                    lemma_first_free_unique(used, from, k);
                    assert forall|j: nat| j < self.temp_index implies views(self.used_names@).to_set().contains(
                        #[trigger] temp_name(j),
                    ) by {
                        if j < from {
                        } else if j < k {
                        }
                    }
                }
                return name;
            }
            assert(views(self.used_names@).to_set().contains(temp_name(idx)));
        }
    }
}


/// A call of `readInputState`.
pub open spec fn is_read_input_state_call(e: ExprV) -> bool {
    e.kind matches ExprKindV::Call { name, .. } && name == "readInputState"@
}

/// The type `State`.
pub open spec fn state_type_v() -> TypeRefV {
    TypeRefV { base: TypeBaseV::Custom(STATE_TYPE_NAME@), array_dims: Seq::empty() }
}

/// `State name = value;` at `span`.
pub open spec fn temp_definition(name: Seq<char>, value: ExprV, span: Span) -> StatementV {
    StatementV::VariableDefinition { type_ref: state_type_v(), modifiers: Seq::empty(), name, expr: Some(value), span }
}

/// The lowering of an expression from a name state: the definitions it
/// needs before it, the lowered expression, and the state after it.
pub open spec fn lower_expr_s(e: ExprV, st: NameState) -> (Seq<StatementV>, ExprV, NameState)
    decreases e, 0nat,
{
    match e.kind {
        ExprKindV::Array(vs) => {
            let r = lower_list_s(vs, st);
            (r.0, ExprV { kind: ExprKindV::Array(r.1), span: e.span }, r.2)
        },
        ExprKindV::Call { name, args } => {
            let r = lower_args_s(args, st);
            (r.0, ExprV { kind: ExprKindV::Call { name, args: r.1 }, span: e.span }, r.2)
        },
        ExprKindV::New { name, args } => {
            let r = lower_args_s(args, st);
            (r.0, ExprV { kind: ExprKindV::New { name, args: r.1 }, span: e.span }, r.2)
        },
        ExprKindV::Split { source, index, part } => {
            let a = lower_expr_s(*source, st);
            let b = lower_expr_s(*index, a.2);
            (a.0 + b.0, ExprV { kind: ExprKindV::Split { source: Box::new(a.1), index: Box::new(b.1), part }, span: e.span }, b.2)
        },
        ExprKindV::Slice { source, start, end } => {
            let a = lower_expr_s(*source, st);
            let b = lower_expr_s(*start, a.2);
            let c = lower_expr_s(*end, b.2);
            (
                a.0 + b.0 + c.0,
                ExprV {
                    kind: ExprKindV::Slice { source: Box::new(a.1), start: Box::new(b.1), end: Box::new(c.1) },
                    span: e.span,
                },
                c.2,
            )
        },
        ExprKindV::Append { source, args } => {
            let a = lower_expr_s(*source, st);
            let b = lower_args_s(args, a.2);
            (a.0 + b.0, ExprV { kind: ExprKindV::Append { source: Box::new(a.1), args: b.1 }, span: e.span }, b.2)
        },
        ExprKindV::ArrayIndex { source, index } => {
            let a = lower_expr_s(*source, st);
            let b = lower_expr_s(*index, a.2);
            (a.0 + b.0, ExprV { kind: ExprKindV::ArrayIndex { source: Box::new(a.1), index: Box::new(b.1) }, span: e.span }, b.2)
        },
        ExprKindV::Unary { op, expr } => {
            let a = lower_expr_s(*expr, st);
            (a.0, ExprV { kind: ExprKindV::Unary { op, expr: Box::new(a.1) }, span: e.span }, a.2)
        },
        ExprKindV::Binary { op, left, right } => {
            let a = lower_expr_s(*left, st);
            let b = lower_expr_s(*right, a.2);
            (a.0 + b.0, ExprV { kind: ExprKindV::Binary { op, left: Box::new(a.1), right: Box::new(b.1) }, span: e.span }, b.2)
        },
        ExprKindV::IfElse { condition, then_expr, else_expr } => {
            let a = lower_expr_s(*condition, st);
            let b = lower_expr_s(*then_expr, a.2);
            let c = lower_expr_s(*else_expr, b.2);
            (
                a.0 + b.0 + c.0,
                ExprV {
                    kind: ExprKindV::IfElse { condition: Box::new(a.1), then_expr: Box::new(b.1), else_expr: Box::new(c.1) },
                    span: e.span,
                },
                c.2,
            )
        },
        ExprKindV::Introspection { kind, index } => {
            let a = lower_expr_s(*index, st);
            (a.0, ExprV { kind: ExprKindV::Introspection { kind, index: Box::new(a.1) }, span: e.span }, a.2)
        },
        ExprKindV::StructLiteral(fs) => {
            let r = lower_fields_s(fs, st);
            (r.0, ExprV { kind: ExprKindV::StructLiteral(r.1), span: e.span }, r.2)
        },
        ExprKindV::FieldAccess { source, field } => {
            let a = lower_expr_s(*source, st);
            (a.0, ExprV { kind: ExprKindV::FieldAccess { source: Box::new(a.1), field }, span: e.span }, a.2)
        },
        ExprKindV::UnarySuffix { source, kind } => {
            let a = lower_expr_s(*source, st);
            (a.0, ExprV { kind: ExprKindV::UnarySuffix { source: Box::new(a.1), kind }, span: e.span }, a.2)
        },
        _ => (Seq::empty(), e, st),
    }
}

/// The lowering of a list of expressions, left to right.
pub open spec fn lower_list_s(es: Seq<ExprV>, st: NameState) -> (Seq<StatementV>, Seq<ExprV>, NameState)
    decreases es, 0nat,
{
    if es.len() == 0 {
        (Seq::empty(), Seq::empty(), st)
    } else {
        let a = lower_list_s(es.drop_last(), st);
        let b = lower_expr_s(es.last(), a.2);
        (a.0 + b.0, a.1.push(b.1), b.2)
    }
}

/// The lowering of call arguments, left to right.
pub open spec fn lower_args_s(es: Seq<ExprV>, st: NameState) -> (Seq<StatementV>, Seq<ExprV>, NameState)
    decreases es, 0nat,
{
    if es.len() == 0 {
        (Seq::empty(), Seq::empty(), st)
    } else {
        let a = lower_args_s(es.drop_last(), st);
        let b = lower_call_arg_s(es.last(), a.2);
        (a.0 + b.0, a.1.push(b.1), b.2)
    }
}

/// The lowering of one call argument: a `readInputState(...)` call is
/// lowered, bound to the next temporary name, and replaced by that name.
pub open spec fn lower_call_arg_s(e: ExprV, st: NameState) -> (Seq<StatementV>, ExprV, NameState)
    decreases e, 1nat,
{
    if is_read_input_state_call(e) {
        let a = lower_expr_s(e, st);
        let t = next_temp(a.2);
        (a.0.push(temp_definition(t.0, a.1, e.span)), ExprV { kind: ExprKindV::Identifier(t.0), span: e.span }, t.1)
    } else {
        lower_expr_s(e, st)
    }
}

/// The lowering of struct-literal fields, left to right.
pub open spec fn lower_fields_s(fs: Seq<StateFieldV>, st: NameState) -> (Seq<StatementV>, Seq<StateFieldV>, NameState)
    decreases fs, 0nat,
{
    if fs.len() == 0 {
        (Seq::empty(), Seq::empty(), st)
    } else {
        let a = lower_fields_s(fs.drop_last(), st);
        let f = fs.last();
        let b = lower_expr_s(f.expr, a.2);
        (a.0 + b.0, a.1.push(StateFieldV { name: f.name, expr: b.1, span: f.span }), b.2)
    }
}

/// `b` holds every name of `a`, and is finite where `a` is.
pub open spec fn grows(a: NameState, b: NameState) -> bool {
    &&& a.0.subset_of(b.0)
    &&& a.0.finite() ==> b.0.finite()
}

/// Lowering only adds names.
pub proof fn lemma_expr_grows(e: ExprV, st: NameState)
    ensures
        grows(st, lower_expr_s(e, st).2),
    decreases e, 0nat,
{
    match e.kind {
        ExprKindV::Array(vs) => {
            lemma_list_grows(vs, st);
        },
        ExprKindV::Call { name, args } => {
            lemma_args_grows(args, st);
        },
        ExprKindV::New { name, args } => {
            lemma_args_grows(args, st);
        },
        ExprKindV::Split { source, index, part } => {
            lemma_expr_grows(*source, st);
            lemma_expr_grows(*index, lower_expr_s(*source, st).2);
        },
        ExprKindV::Slice { source, start, end } => {
            let a = lower_expr_s(*source, st);
            let b = lower_expr_s(*start, a.2);
            lemma_expr_grows(*source, st);
            lemma_expr_grows(*start, a.2);
            lemma_expr_grows(*end, b.2);
        },
        ExprKindV::Append { source, args } => {
            lemma_expr_grows(*source, st);
            lemma_args_grows(args, lower_expr_s(*source, st).2);
        },
        ExprKindV::ArrayIndex { source, index } => {
            lemma_expr_grows(*source, st);
            lemma_expr_grows(*index, lower_expr_s(*source, st).2);
        },
        ExprKindV::Unary { op, expr } => {
            lemma_expr_grows(*expr, st);
        },
        ExprKindV::Binary { op, left, right } => {
            lemma_expr_grows(*left, st);
            lemma_expr_grows(*right, lower_expr_s(*left, st).2);
        },
        ExprKindV::IfElse { condition, then_expr, else_expr } => {
            let a = lower_expr_s(*condition, st);
            let b = lower_expr_s(*then_expr, a.2);
            lemma_expr_grows(*condition, st);
            lemma_expr_grows(*then_expr, a.2);
            lemma_expr_grows(*else_expr, b.2);
        },
        ExprKindV::Introspection { kind, index } => {
            lemma_expr_grows(*index, st);
        },
        ExprKindV::StructLiteral(fs) => {
            lemma_fields_grows(fs, st);
        },
        ExprKindV::FieldAccess { source, field } => {
            lemma_expr_grows(*source, st);
        },
        ExprKindV::UnarySuffix { source, kind } => {
            lemma_expr_grows(*source, st);
        },
        _ => {},
    }
}

/// Lowering a list only adds names.
pub proof fn lemma_list_grows(es: Seq<ExprV>, st: NameState)
    ensures
        grows(st, lower_list_s(es, st).2),
    decreases es, 0nat,
{
    if es.len() > 0 {
        lemma_list_grows(es.drop_last(), st);
        lemma_expr_grows(es.last(), lower_list_s(es.drop_last(), st).2);
    }
}

/// Lowering call arguments only adds names.
pub proof fn lemma_args_grows(es: Seq<ExprV>, st: NameState)
    ensures
        grows(st, lower_args_s(es, st).2),
    decreases es, 0nat,
{
    if es.len() > 0 {
        lemma_args_grows(es.drop_last(), st);
        lemma_call_arg_grows(es.last(), lower_args_s(es.drop_last(), st).2);
    }
}

/// Lowering a call argument only adds names.
pub proof fn lemma_call_arg_grows(e: ExprV, st: NameState)
    ensures
        grows(st, lower_call_arg_s(e, st).2),
    decreases e, 1nat,
{
    lemma_expr_grows(e, st);
}

/// Lowering struct-literal fields only adds names.
pub proof fn lemma_fields_grows(fs: Seq<StateFieldV>, st: NameState)
    ensures
        grows(st, lower_fields_s(fs, st).2),
    decreases fs, 0nat,
{
    if fs.len() > 0 {
        lemma_fields_grows(fs.drop_last(), st);
        lemma_expr_grows(fs.last().expr, lower_fields_s(fs.drop_last(), st).2);
    }
}


/// A set with a finite subset in the other is no larger.
proof fn lemma_room(a: NameState, b: NameState)
    requires
        grows(a, b),
        a.0.finite(),
    ensures
        a.0.len() <= b.0.len(),
{
    vstd::set_lib::lemma_len_subset(a.0, b.0);
}

/// `grows` is transitive.
proof fn lemma_grows_trans(a: NameState, b: NameState, c: NameState)
    requires
        grows(a, b),
        grows(b, c),
    ensures
        grows(a, c),
{
}

/// Lowering a prefix of a list ends in a state that the whole list grows.
proof fn lemma_list_prefix_grows(es: Seq<ExprV>, k: int, st: NameState)
    requires
        0 <= k <= es.len(),
    ensures
        grows(lower_list_s(es.take(k), st).2, lower_list_s(es, st).2),
    decreases es.len() - k,
{
    if k == es.len() {
        assert(es.take(k) =~= es);
    } else {
        lemma_list_prefix_grows(es, k + 1, st);
        assert(es.take(k + 1).drop_last() =~= es.take(k));
        lemma_expr_grows(es[k], lower_list_s(es.take(k), st).2);
    }
}

/// Lowering a prefix of call arguments ends in a state that all of them grow.
proof fn lemma_args_prefix_grows(es: Seq<ExprV>, k: int, st: NameState)
    requires
        0 <= k <= es.len(),
    ensures
        grows(lower_args_s(es.take(k), st).2, lower_args_s(es, st).2),
    decreases es.len() - k,
{
    if k == es.len() {
        assert(es.take(k) =~= es);
    } else {
        lemma_args_prefix_grows(es, k + 1, st);
        assert(es.take(k + 1).drop_last() =~= es.take(k));
        lemma_call_arg_grows(es[k], lower_args_s(es.take(k), st).2);
    }
}

/// Lowering a prefix of struct-literal fields ends in a state that all of
/// them grow.
proof fn lemma_fields_prefix_grows(fs: Seq<StateFieldV>, k: int, st: NameState)
    requires
        0 <= k <= fs.len(),
    ensures
        grows(lower_fields_s(fs.take(k), st).2, lower_fields_s(fs, st).2),
    decreases fs.len() - k,
{
    if k == fs.len() {
        assert(fs.take(k) =~= fs);
    } else {
        lemma_fields_prefix_grows(fs, k + 1, st);
        assert(fs.take(k + 1).drop_last() =~= fs.take(k));
        lemma_expr_grows(fs[k].expr, lower_fields_s(fs.take(k), st).2);
    }
}

/// The view of a list of struct-literal fields, one by one.
proof fn lemma_fields_view(s: Seq<StateFieldExpr>)
    ensures
        fields_view(s).len() == s.len(),
        forall|j: int| 0 <= j < s.len() ==> #[trigger] fields_view(s)[j] == (StateFieldV {
            name: s[j].name@,
            expr: s[j].expr@,
            span: s[j].span,
        }),
    decreases s.len(),
{
    if s.len() > 0 {
        lemma_fields_view(s.drop_last());
        assert forall|j: int| 0 <= j < s.len() implies #[trigger] fields_view(s)[j] == (StateFieldV {
            name: s[j].name@,
            expr: s[j].expr@,
            span: s[j].span,
        }) by {
            if j < s.len() - 1 {
                assert(s.drop_last()[j] == s[j]);
            }
        }
    }
}

/// Whether an expression is a call of `readInputState`.
fn is_read_input_state(e: &Expr) -> (r: bool)
    ensures
        r == is_read_input_state_call(e@),
{
    match &e.kind {
        ExprKind::Call { name, .. } => {
            let target = String::from_str("readInputState");
            *name == target
        },
        _ => false,
    }
}

/// The lowering of an expression: definitions go to `prefix`.
fn lower_expr(expr: &Expr, prefix: &mut Vec<Statement>, context: &mut LoweringContext) -> (r: Expr)
    requires
        old(context).wf(),
        lower_expr_s(expr@, old(context).state()).2.0.len() <= usize::MAX,
    ensures
        final(context).wf(),
        statements_view(final(prefix)@) == statements_view(old(prefix)@) + lower_expr_s(expr@, old(context).state()).0,
        r@ == lower_expr_s(expr@, old(context).state()).1,
        final(context).state() == lower_expr_s(expr@, old(context).state()).2,
    decreases expr, 0nat,
{
    let ghost st = context.state();
    let ghost p0 = statements_view(prefix@);
    let ghost l = lower_expr_s(expr@, st);
    proof {
        vstd::seq_lib::seq_to_set_is_finite(views(context.used_names@));
    }
    match &expr.kind {
        ExprKind::Array(values) => {
            let vs = lower_exprs(values, prefix, context);
            Expr::new(ExprKind::Array(vs), expr.span)
        },
        ExprKind::Call { name, args } => {
            let lowered = lower_call_args(args, prefix, context);
            Expr::new(ExprKind::Call { name: name.clone(), args: lowered }, expr.span)
        },
        ExprKind::New { name, args } => {
            let lowered = lower_call_args(args, prefix, context);
            Expr::new(ExprKind::New { name: name.clone(), args: lowered }, expr.span)
        },
        ExprKind::Split { source, index, part } => {
            proof {
                let a = lower_expr_s((**source)@, st);
                lemma_expr_grows((**source)@, st);
                lemma_expr_grows((**index)@, a.2);
                lemma_room(a.2, l.2);
            }
            let s1 = lower_expr(source, prefix, context);
            let s2 = lower_expr(index, prefix, context);
            proof {
                let a = lower_expr_s((**source)@, st);
                let b = lower_expr_s((**index)@, a.2);
                assert(p0 + a.0 + b.0 =~= p0 + (a.0 + b.0));
            }
            Expr::new(ExprKind::Split { source: Box::new(s1), index: Box::new(s2), part: *part }, expr.span)
        },
        ExprKind::Slice { source, start, end } => {
            proof {
                let a = lower_expr_s((**source)@, st);
                let b = lower_expr_s((**start)@, a.2);
                lemma_expr_grows((**source)@, st);
                lemma_expr_grows((**start)@, a.2);
                lemma_expr_grows((**end)@, b.2);
                lemma_room(a.2, l.2);
                lemma_room(b.2, l.2);
            }
            let s1 = lower_expr(source, prefix, context);
            let s2 = lower_expr(start, prefix, context);
            let s3 = lower_expr(end, prefix, context);
            proof {
                let a = lower_expr_s((**source)@, st);
                let b = lower_expr_s((**start)@, a.2);
                let c = lower_expr_s((**end)@, b.2);
                assert(p0 + a.0 + b.0 + c.0 =~= p0 + (a.0 + b.0 + c.0));
            }
            Expr::new(ExprKind::Slice { source: Box::new(s1), start: Box::new(s2), end: Box::new(s3) }, expr.span)
        },
        ExprKind::Append { source, args } => {
            proof {
                let a = lower_expr_s((**source)@, st);
                lemma_expr_grows((**source)@, st);
                lemma_args_grows(exprs_view(args@), a.2);
                lemma_room(a.2, l.2);
            }
            let s1 = lower_expr(source, prefix, context);
            let lowered = lower_call_args(args, prefix, context);
            proof {
                let a = lower_expr_s((**source)@, st);
                let b = lower_args_s(exprs_view(args@), a.2);
                assert(p0 + a.0 + b.0 =~= p0 + (a.0 + b.0));
            }
            Expr::new(ExprKind::Append { source: Box::new(s1), args: lowered }, expr.span)
        },
        ExprKind::ArrayIndex { source, index } => {
            proof {
                let a = lower_expr_s((**source)@, st);
                lemma_expr_grows((**source)@, st);
                lemma_expr_grows((**index)@, a.2);
                lemma_room(a.2, l.2);
            }
            let s1 = lower_expr(source, prefix, context);
            let s2 = lower_expr(index, prefix, context);
            proof {
                let a = lower_expr_s((**source)@, st);
                let b = lower_expr_s((**index)@, a.2);
                assert(p0 + a.0 + b.0 =~= p0 + (a.0 + b.0));
            }
            Expr::new(ExprKind::ArrayIndex { source: Box::new(s1), index: Box::new(s2) }, expr.span)
        },
        ExprKind::Unary { op, expr: inner } => {
            let s1 = lower_expr(inner, prefix, context);
            Expr::new(ExprKind::Unary { op: *op, expr: Box::new(s1) }, expr.span)
        },
        ExprKind::Binary { op, left, right } => {
            proof {
                let a = lower_expr_s((**left)@, st);
                lemma_expr_grows((**left)@, st);
                lemma_expr_grows((**right)@, a.2);
                lemma_room(a.2, l.2);
            }
            let s1 = lower_expr(left, prefix, context);
            let s2 = lower_expr(right, prefix, context);
            proof {
                let a = lower_expr_s((**left)@, st);
                let b = lower_expr_s((**right)@, a.2);
                assert(p0 + a.0 + b.0 =~= p0 + (a.0 + b.0));
            }
            Expr::new(ExprKind::Binary { op: *op, left: Box::new(s1), right: Box::new(s2) }, expr.span)
        },
        ExprKind::IfElse { condition, then_expr, else_expr } => {
            proof {
                let a = lower_expr_s((**condition)@, st);
                let b = lower_expr_s((**then_expr)@, a.2);
                lemma_expr_grows((**condition)@, st);
                lemma_expr_grows((**then_expr)@, a.2);
                lemma_expr_grows((**else_expr)@, b.2);
                lemma_room(a.2, l.2);
                lemma_room(b.2, l.2);
            }
            let s1 = lower_expr(condition, prefix, context);
            let s2 = lower_expr(then_expr, prefix, context);
            let s3 = lower_expr(else_expr, prefix, context);
            proof {
                let a = lower_expr_s((**condition)@, st);
                let b = lower_expr_s((**then_expr)@, a.2);
                let c = lower_expr_s((**else_expr)@, b.2);
                assert(p0 + a.0 + b.0 + c.0 =~= p0 + (a.0 + b.0 + c.0));
            }
            Expr::new(
                ExprKind::IfElse { condition: Box::new(s1), then_expr: Box::new(s2), else_expr: Box::new(s3) },
                expr.span,
            )
        },
        ExprKind::Introspection { kind, index } => {
            let s1 = lower_expr(index, prefix, context);
            Expr::new(ExprKind::Introspection { kind: *kind, index: Box::new(s1) }, expr.span)
        },
        ExprKind::StructLiteral(fields) => {
            let lowered = lower_fields(fields, prefix, context);
            Expr::new(ExprKind::StructLiteral(lowered), expr.span)
        },
        ExprKind::FieldAccess { source, field } => {
            let s1 = lower_expr(source, prefix, context);
            Expr::new(ExprKind::FieldAccess { source: Box::new(s1), field: field.clone() }, expr.span)
        },
        ExprKind::UnarySuffix { source, kind } => {
            let s1 = lower_expr(source, prefix, context);
            Expr::new(ExprKind::UnarySuffix { source: Box::new(s1), kind: *kind }, expr.span)
        },
        _ => {
            assert(p0 + Seq::<StatementV>::empty() =~= p0);
            clone_expr(expr)
        },
    }
}

/// The lowering of a list of expressions, each as an expression.
fn lower_exprs(values: &Vec<Expr>, prefix: &mut Vec<Statement>, context: &mut LoweringContext) -> (r: Vec<Expr>)
    requires
        old(context).wf(),
        lower_list_s(exprs_view(values@), old(context).state()).2.0.len() <= usize::MAX,
    ensures
        final(context).wf(),
        statements_view(final(prefix)@) == statements_view(old(prefix)@) + lower_list_s(exprs_view(values@), old(context).state()).0,
        exprs_view(r@) == lower_list_s(exprs_view(values@), old(context).state()).1,
        final(context).state() == lower_list_s(exprs_view(values@), old(context).state()).2,
    decreases values, 0nat,
{
    let ghost es = exprs_view(values@);
    let ghost st0 = context.state();
    let ghost p0 = statements_view(prefix@);
    proof {
        lemma_exprs_view(values@);
        assert(es.take(0) =~= Seq::<ExprV>::empty());
        assert(p0 + Seq::<StatementV>::empty() =~= p0);
    }
    let mut out: Vec<Expr> = Vec::new();
    let mut i: usize = 0;
    while i < values.len()
        invariant
            i <= values@.len(),
            es == exprs_view(values@),
            es.len() == values@.len(),
            forall|j: int| 0 <= j < values@.len() ==> #[trigger] es[j] == values@[j]@,
            context.wf(),
            statements_view(prefix@) == p0 + lower_list_s(es.take(i as int), st0).0,
            exprs_view(out@) == lower_list_s(es.take(i as int), st0).1,
            context.state() == lower_list_s(es.take(i as int), st0).2,
            lower_list_s(es, st0).2.0.len() <= usize::MAX,
            st0.0.finite(),
        decreases values@.len() - i,
    {
        let ghost a = lower_list_s(es.take(i as int), st0);
        proof {
            assert(es.take(i + 1).drop_last() =~= es.take(i as int));
            assert(es.take(i + 1).last() == es[i as int]);
            lemma_list_prefix_grows(es, i + 1, st0);
            lemma_list_grows(es.take(i + 1), st0);
            lemma_grows_trans(st0, lower_list_s(es.take(i + 1), st0).2, lower_list_s(es, st0).2);
            lemma_room(lower_list_s(es.take(i + 1), st0).2, lower_list_s(es, st0).2);
            lemma_list_grows(es.take(i as int), st0);
        }
        let x = lower_expr(&values[i], prefix, context);
        proof {
            lemma_exprs_view_push(out@, x);
            let b = lower_expr_s(es[i as int], a.2);
            assert(p0 + a.0 + b.0 =~= p0 + (a.0 + b.0));
        }
        out.push(x);
        i = i + 1;
    }
    assert(es.take(es.len() as int) =~= es);
    out
}

/// The lowering of call arguments.
fn lower_call_args(args: &Vec<Expr>, prefix: &mut Vec<Statement>, context: &mut LoweringContext) -> (r: Vec<Expr>)
    requires
        old(context).wf(),
        lower_args_s(exprs_view(args@), old(context).state()).2.0.len() <= usize::MAX,
    ensures
        final(context).wf(),
        statements_view(final(prefix)@) == statements_view(old(prefix)@) + lower_args_s(exprs_view(args@), old(context).state()).0,
        exprs_view(r@) == lower_args_s(exprs_view(args@), old(context).state()).1,
        final(context).state() == lower_args_s(exprs_view(args@), old(context).state()).2,
    decreases args, 0nat,
{
    let ghost es = exprs_view(args@);
    let ghost st0 = context.state();
    let ghost p0 = statements_view(prefix@);
    proof {
        lemma_exprs_view(args@);
        assert(es.take(0) =~= Seq::<ExprV>::empty());
        assert(p0 + Seq::<StatementV>::empty() =~= p0);
    }
    let mut out: Vec<Expr> = Vec::new();
    let mut i: usize = 0;
    while i < args.len()
        invariant
            i <= args@.len(),
            es == exprs_view(args@),
            es.len() == args@.len(),
            forall|j: int| 0 <= j < args@.len() ==> #[trigger] es[j] == args@[j]@,
            context.wf(),
            statements_view(prefix@) == p0 + lower_args_s(es.take(i as int), st0).0,
            exprs_view(out@) == lower_args_s(es.take(i as int), st0).1,
            context.state() == lower_args_s(es.take(i as int), st0).2,
            lower_args_s(es, st0).2.0.len() <= usize::MAX,
            st0.0.finite(),
        decreases args@.len() - i,
    {
        let ghost a = lower_args_s(es.take(i as int), st0);
        proof {
            assert(es.take(i + 1).drop_last() =~= es.take(i as int));
            assert(es.take(i + 1).last() == es[i as int]);
            lemma_args_prefix_grows(es, i + 1, st0);
            lemma_args_grows(es.take(i + 1), st0);
            lemma_room(lower_args_s(es.take(i + 1), st0).2, lower_args_s(es, st0).2);
            lemma_args_grows(es.take(i as int), st0);
        }
        let x = lower_call_arg(&args[i], prefix, context);
        proof {
            lemma_exprs_view_push(out@, x);
            let b = lower_call_arg_s(es[i as int], a.2);
            assert(p0 + a.0 + b.0 =~= p0 + (a.0 + b.0));
        }
        out.push(x);
        i = i + 1;
    }
    assert(es.take(es.len() as int) =~= es);
    out
}

/// The lowering of struct-literal fields.
fn lower_fields(fields: &Vec<StateFieldExpr>, prefix: &mut Vec<Statement>, context: &mut LoweringContext) -> (r: Vec<
    StateFieldExpr,
>)
    requires
        old(context).wf(),
        lower_fields_s(fields_view(fields@), old(context).state()).2.0.len() <= usize::MAX,
    ensures
        final(context).wf(),
        statements_view(final(prefix)@) == statements_view(old(prefix)@) + lower_fields_s(fields_view(fields@), old(context).state()).0,
        fields_view(r@) == lower_fields_s(fields_view(fields@), old(context).state()).1,
        final(context).state() == lower_fields_s(fields_view(fields@), old(context).state()).2,
    decreases fields, 0nat,
{
    let ghost fs = fields_view(fields@);
    let ghost st0 = context.state();
    let ghost p0 = statements_view(prefix@);
    proof {
        lemma_fields_view(fields@);
        assert(fs.take(0) =~= Seq::<StateFieldV>::empty());
        assert(p0 + Seq::<StatementV>::empty() =~= p0);
    }
    let mut out: Vec<StateFieldExpr> = Vec::new();
    let mut i: usize = 0;
    while i < fields.len()
        invariant
            i <= fields@.len(),
            fs == fields_view(fields@),
            fs.len() == fields@.len(),
            forall|j: int| 0 <= j < fields@.len() ==> #[trigger] fs[j] == (StateFieldV {
                name: fields@[j].name@,
                expr: fields@[j].expr@,
                span: fields@[j].span,
            }),
            context.wf(),
            statements_view(prefix@) == p0 + lower_fields_s(fs.take(i as int), st0).0,
            fields_view(out@) == lower_fields_s(fs.take(i as int), st0).1,
            context.state() == lower_fields_s(fs.take(i as int), st0).2,
            lower_fields_s(fs, st0).2.0.len() <= usize::MAX,
            st0.0.finite(),
        decreases fields@.len() - i,
    {
        let ghost a = lower_fields_s(fs.take(i as int), st0);
        proof {
            assert(fs.take(i + 1).drop_last() =~= fs.take(i as int));
            assert(fs.take(i + 1).last() == fs[i as int]);
            lemma_fields_prefix_grows(fs, i + 1, st0);
            lemma_fields_grows(fs.take(i + 1), st0);
            lemma_room(lower_fields_s(fs.take(i + 1), st0).2, lower_fields_s(fs, st0).2);
            lemma_fields_grows(fs.take(i as int), st0);
        }
        let x = lower_expr(&fields[i].expr, prefix, context);
        let f = StateFieldExpr { name: fields[i].name.clone(), expr: x, span: fields[i].span };
        proof {
            lemma_fields_view_push(out@, f);
            let b = lower_expr_s(fs[i as int].expr, a.2);
            assert(p0 + a.0 + b.0 =~= p0 + (a.0 + b.0));
        }
        out.push(f);
        i = i + 1;
    }
    assert(fs.take(fs.len() as int) =~= fs);
    out
}

/// The lowering of one call argument: a `readInputState(...)` call is bound
/// to a fresh temporary name, whose definition goes to `prefix`.
fn lower_call_arg(arg: &Expr, prefix: &mut Vec<Statement>, context: &mut LoweringContext) -> (r: Expr)
    requires
        old(context).wf(),
        lower_call_arg_s(arg@, old(context).state()).2.0.len() <= usize::MAX,
    ensures
        final(context).wf(),
        statements_view(final(prefix)@) == statements_view(old(prefix)@) + lower_call_arg_s(arg@, old(context).state()).0,
        r@ == lower_call_arg_s(arg@, old(context).state()).1,
        final(context).state() == lower_call_arg_s(arg@, old(context).state()).2,
    decreases arg, 1nat,
{
    let ghost st = context.state();
    let ghost p0 = statements_view(prefix@);
    if is_read_input_state(arg) {
        let ghost a = lower_expr_s(arg@, st);
        proof {
            vstd::seq_lib::seq_to_set_is_finite(views(context.used_names@));
            lemma_expr_grows(arg@, st);
            lemma_first_free_exists(a.2.0, a.2.1);
            lemma_room(a.2, next_temp(a.2).1);
        }
        let value = lower_expr(arg, prefix, context);
        proof {
            views(context.used_names@).unique_seq_to_set();
        }
        let temp = context.next_temp_name();
        let ghost pv = prefix@;
        let state_type = TypeRef { base: TypeBase::Custom(String::from_str(STATE_TYPE_NAME)), array_dims: Vec::new() };
        proof {
            assert(crate::ast::dims_view(state_type.array_dims@) =~= Seq::<crate::ast::ArrayDimV>::empty());
            assert(state_type@ == state_type_v());
        }
        let definition = Statement::VariableDefinition {
            type_ref: state_type,
            modifiers: Vec::new(),
            name: temp.clone(),
            expr: Some(value),
            span: arg.span,
        };
        proof {
            assert(crate::ast::strings_view(Seq::<String>::empty()) =~= Seq::<Seq<char>>::empty());
            assert(definition@ == temp_definition(temp@, a.1, arg.span));
            lemma_statements_view_push(pv, definition);
            assert(p0 + a.0.push(temp_definition(temp@, a.1, arg.span)) =~= (p0 + a.0).push(temp_definition(temp@, a.1, arg.span)));
        }
        prefix.push(definition);
        Expr::new(ExprKind::Identifier(temp), arg.span)
    } else {
        lower_expr(arg, prefix, context)
    }
}


/// The lowering of a statement from a name state: the definitions it needs
/// before it, the lowered statement, and the state after it. Blocks lower
/// their own bodies, so their definitions stay inside them.
pub open spec fn lower_stmt_s(s: StatementV, st: NameState) -> (Seq<StatementV>, StatementV, NameState)
    decreases s, 0nat,
{
    match s {
        StatementV::VariableDefinition { type_ref, modifiers, name, expr, span } => match expr {
            Some(x) => {
                let a = lower_expr_s(x, st);
                (a.0, StatementV::VariableDefinition { type_ref, modifiers, name, expr: Some(a.1), span }, a.2)
            },
            None => (Seq::empty(), s, st),
        },
        StatementV::TupleAssignment { left_type_ref, left_name, right_type_ref, right_name, expr, span } => {
            let a = lower_expr_s(expr, st);
            (a.0, StatementV::TupleAssignment { left_type_ref, left_name, right_type_ref, right_name, expr: a.1, span }, a.2)
        },
        StatementV::FunctionCall { name, args, span } => {
            let a = lower_args_s(args, st);
            (a.0, StatementV::FunctionCall { name, args: a.1, span }, a.2)
        },
        StatementV::FunctionCallAssign { bindings, name, args, span } => {
            let a = lower_args_s(args, st);
            (a.0, StatementV::FunctionCallAssign { bindings, name, args: a.1, span }, a.2)
        },
        StatementV::StateFunctionCallAssign { target_struct, bindings, name, args, span } => {
            let a = lower_args_s(args, st);
            (a.0, StatementV::StateFunctionCallAssign { target_struct, bindings, name, args: a.1, span }, a.2)
        },
        StatementV::StructDestructure { bindings, expr, span } => {
            let a = lower_expr_s(expr, st);
            (a.0, StatementV::StructDestructure { bindings, expr: a.1, span }, a.2)
        },
        StatementV::Assign { name, expr, span } => {
            let a = lower_expr_s(expr, st);
            (a.0, StatementV::Assign { name, expr: a.1, span }, a.2)
        },
        StatementV::TimeOp { tx_var, expr, message, span } => {
            let a = lower_expr_s(expr, st);
            (a.0, StatementV::TimeOp { tx_var, expr: a.1, message, span }, a.2)
        },
        StatementV::Require { expr, message, span } => {
            let a = lower_expr_s(expr, st);
            (a.0, StatementV::Require { expr: a.1, message, span }, a.2)
        },
        StatementV::Block { body, span } => {
            let b = lower_block_s(body, st);
            (Seq::empty(), StatementV::Block { body: b.0, span }, b.1)
        },
        StatementV::If { condition, then_branch, else_branch, span } => {
            let c = lower_expr_s(condition, st);
            let t = lower_block_s(then_branch, c.2);
            match else_branch {
                Some(eb) => {
                    let e = lower_block_s(eb, t.1);
                    (c.0, StatementV::If { condition: c.1, then_branch: t.0, else_branch: Some(e.0), span }, e.1)
                },
                None => (c.0, StatementV::If { condition: c.1, then_branch: t.0, else_branch: None, span }, t.1),
            }
        },
        StatementV::For { ident, start, end, max_iterations, body, span } => {
            let a = lower_expr_s(start, st);
            let b = lower_expr_s(end, a.2);
            let m = lower_expr_s(max_iterations, b.2);
            let d = lower_block_s(body, m.2);
            (a.0 + b.0 + m.0, StatementV::For { ident, start: a.1, end: b.1, max_iterations: m.1, body: d.0, span }, d.1)
        },
        StatementV::Return { exprs, span } => {
            let a = lower_list_s(exprs, st);
            (a.0, StatementV::Return { exprs: a.1, span }, a.2)
        },
        StatementV::Console { args, span } => {
            let a = lower_args_s(args, st);
            (a.0, StatementV::Console { args: a.1, span }, a.2)
        },
    }
}

/// The lowering of a block: each statement preceded by the definitions it
/// needs.
pub open spec fn lower_block_s(ss: Seq<StatementV>, st: NameState) -> (Seq<StatementV>, NameState)
    decreases ss, 0nat,
{
    if ss.len() == 0 {
        (Seq::empty(), st)
    } else {
        let a = lower_block_s(ss.drop_last(), st);
        let b = lower_stmt_s(ss.last(), a.1);
        (a.0 + b.0.push(b.1), b.2)
    }
}

/// Lowering a statement only adds names.
pub proof fn lemma_stmt_grows(s: StatementV, st: NameState)
    ensures
        grows(st, lower_stmt_s(s, st).2),
    decreases s, 0nat,
{
    match s {
        StatementV::VariableDefinition { expr, .. } => match expr {
            Some(x) => lemma_expr_grows(x, st),
            None => {},
        },
        StatementV::TupleAssignment { expr, .. } => lemma_expr_grows(expr, st),
        StatementV::FunctionCall { args, .. } => lemma_args_grows(args, st),
        StatementV::FunctionCallAssign { args, .. } => lemma_args_grows(args, st),
        StatementV::StateFunctionCallAssign { args, .. } => lemma_args_grows(args, st),
        StatementV::StructDestructure { expr, .. } => lemma_expr_grows(expr, st),
        StatementV::Assign { expr, .. } => lemma_expr_grows(expr, st),
        StatementV::TimeOp { expr, .. } => lemma_expr_grows(expr, st),
        StatementV::Require { expr, .. } => lemma_expr_grows(expr, st),
        StatementV::Block { body, .. } => lemma_block_grows(body, st),
        StatementV::If { condition, then_branch, else_branch, .. } => {
            let c = lower_expr_s(condition, st);
            lemma_expr_grows(condition, st);
            lemma_block_grows(then_branch, c.2);
            match else_branch {
                Some(eb) => lemma_block_grows(eb, lower_block_s(then_branch, c.2).1),
                None => {},
            }
        },
        StatementV::For { start, end, max_iterations, body, .. } => {
            let a = lower_expr_s(start, st);
            let b = lower_expr_s(end, a.2);
            let m = lower_expr_s(max_iterations, b.2);
            lemma_expr_grows(start, st);
            lemma_expr_grows(end, a.2);
            lemma_expr_grows(max_iterations, b.2);
            lemma_block_grows(body, m.2);
        },
        StatementV::Return { exprs, .. } => lemma_list_grows(exprs, st),
        StatementV::Console { args, .. } => lemma_args_grows(args, st),
    }
}

/// Lowering a block only adds names.
pub proof fn lemma_block_grows(ss: Seq<StatementV>, st: NameState)
    ensures
        grows(st, lower_block_s(ss, st).1),
    decreases ss, 0nat,
{
    if ss.len() > 0 {
        lemma_block_grows(ss.drop_last(), st);
        lemma_stmt_grows(ss.last(), lower_block_s(ss.drop_last(), st).1);
    }
}

/// Lowering a prefix of a block ends in a state that the whole block grows.
proof fn lemma_block_prefix_grows(ss: Seq<StatementV>, k: int, st: NameState)
    requires
        0 <= k <= ss.len(),
    ensures
        grows(lower_block_s(ss.take(k), st).1, lower_block_s(ss, st).1),
    decreases ss.len() - k,
{
    if k == ss.len() {
        assert(ss.take(k) =~= ss);
    } else {
        lemma_block_prefix_grows(ss, k + 1, st);
        assert(ss.take(k + 1).drop_last() =~= ss.take(k));
        lemma_stmt_grows(ss[k], lower_block_s(ss.take(k), st).1);
    }
}

/// The view of two statement lists joined is the join of their views.
proof fn lemma_statements_view_add(a: Seq<Statement>, b: Seq<Statement>)
    ensures
        statements_view(a + b) == statements_view(a) + statements_view(b),
    decreases b.len(),
{
    if b.len() == 0 {
        assert(a + b =~= a);
        assert(statements_view(a) + statements_view(b) =~= statements_view(a));
    } else {
        lemma_statements_view_add(a, b.drop_last());
        assert((a + b).drop_last() =~= a + b.drop_last());
        assert(statements_view(a) + statements_view(b) =~= (statements_view(a) + statements_view(b.drop_last())).push(
            statement_view_of(b.last()),
        ));
    }
}

spec fn statement_view_of(s: Statement) -> StatementV {
    s@
}

/// A copy of a list of strings.
fn clone_strings(v: &Vec<String>) -> (r: Vec<String>)
    ensures
        strings_view(r@) == strings_view(v@),
{
    let mut r: Vec<String> = Vec::new();
    let mut i: usize = 0;
    while i < v.len()
        invariant
            i <= v@.len(),
            r@.len() == i,
            forall|j: int| 0 <= j < i ==> #[trigger] r@[j]@ == v@[j]@,
        decreases v@.len() - i,
    {
        r.push(v[i].clone());
        i = i + 1;
    }
    assert(strings_view(r@) =~= strings_view(v@));
    r
}

/// A copy of a list of parameters.
fn clone_params(v: &Vec<ParamAst>) -> (r: Vec<ParamAst>)
    ensures
        params_view(r@) == params_view(v@),
{
    let mut r: Vec<ParamAst> = Vec::new();
    let mut i: usize = 0;
    while i < v.len()
        invariant
            i <= v@.len(),
            r@.len() == i,
            forall|j: int| 0 <= j < i ==> #[trigger] crate::ast::param_view(r@[j]) == crate::ast::param_view(v@[j]),
        decreases v@.len() - i,
    {
        r.push(ParamAst { type_ref: clone_type(&v[i].type_ref), name: v[i].name.clone() });
        i = i + 1;
    }
    assert(params_view(r@) =~= params_view(v@));
    r
}

/// A copy of a list of struct-field bindings.
fn clone_bindings(v: &Vec<StructBindingAst>) -> (r: Vec<StructBindingAst>)
    ensures
        bindings_view(r@) == bindings_view(v@),
{
    let mut r: Vec<StructBindingAst> = Vec::new();
    let mut i: usize = 0;
    while i < v.len()
        invariant
            i <= v@.len(),
            r@.len() == i,
            forall|j: int| 0 <= j < i ==> #[trigger] crate::ast::binding_view(r@[j]) == crate::ast::binding_view(v@[j]),
        decreases v@.len() - i,
    {
        r.push(
            StructBindingAst {
                field_name: v[i].field_name.clone(),
                type_ref: clone_type(&v[i].type_ref),
                name: v[i].name.clone(),
            },
        );
        i = i + 1;
    }
    assert(bindings_view(r@) =~= bindings_view(v@));
    r
}

/// A copy of an optional string.
fn clone_opt_string(o: &Option<String>) -> (r: Option<String>)
    ensures
        opt_string_view(r) == opt_string_view(*o),
{
    match o {
        Some(x) => Some(x.clone()),
        None => None,
    }
}


/// The lowering of a statement: the definitions it needs, and the lowered
/// statement.
fn lower_statement(statement: &Statement, context: &mut LoweringContext) -> (r: (Vec<Statement>, Statement))
    requires
        old(context).wf(),
        lower_stmt_s(statement@, old(context).state()).2.0.len() <= usize::MAX,
    ensures
        final(context).wf(),
        statements_view(r.0@) == lower_stmt_s(statement@, old(context).state()).0,
        r.1@ == lower_stmt_s(statement@, old(context).state()).1,
        final(context).state() == lower_stmt_s(statement@, old(context).state()).2,
    decreases statement, 0nat,
{
    let ghost st = context.state();
    let ghost l = lower_stmt_s(statement@, st);
    let mut prefix: Vec<Statement> = Vec::new();
    proof {
        vstd::seq_lib::seq_to_set_is_finite(views(context.used_names@));
        assert(statements_view(prefix@) =~= Seq::<StatementV>::empty());
    }
    let lowered = match statement {
        Statement::VariableDefinition { type_ref, modifiers, name, expr, span } => {
            let value = match expr {
                Some(x) => Some(lower_expr(x, &mut prefix, context)),
                None => None,
            };
            Statement::VariableDefinition {
                type_ref: clone_type(type_ref),
                modifiers: clone_strings(modifiers),
                name: name.clone(),
                expr: value,
                span: *span,
            }
        },
        Statement::TupleAssignment { left_type_ref, left_name, right_type_ref, right_name, expr, span } => {
            let value = lower_expr(expr, &mut prefix, context);
            Statement::TupleAssignment {
                left_type_ref: clone_type(left_type_ref),
                left_name: left_name.clone(),
                right_type_ref: clone_type(right_type_ref),
                right_name: right_name.clone(),
                expr: value,
                span: *span,
            }
        },
        Statement::FunctionCall { name, args, span } => {
            let lowered_args = lower_call_args(args, &mut prefix, context);
            Statement::FunctionCall { name: name.clone(), args: lowered_args, span: *span }
        },
        Statement::FunctionCallAssign { bindings, name, args, span } => {
            let lowered_args = lower_call_args(args, &mut prefix, context);
            Statement::FunctionCallAssign { bindings: clone_params(bindings), name: name.clone(), args: lowered_args, span: *span }
        },
        Statement::StateFunctionCallAssign { target_struct, bindings, name, args, span } => {
            let lowered_args = lower_call_args(args, &mut prefix, context);
            Statement::StateFunctionCallAssign {
                target_struct: clone_opt_string(target_struct),
                bindings: clone_bindings(bindings),
                name: name.clone(),
                args: lowered_args,
                span: *span,
            }
        },
        Statement::StructDestructure { bindings, expr, span } => {
            let value = lower_expr(expr, &mut prefix, context);
            Statement::StructDestructure { bindings: clone_bindings(bindings), expr: value, span: *span }
        },
        Statement::Assign { name, expr, span } => {
            let value = lower_expr(expr, &mut prefix, context);
            Statement::Assign { name: name.clone(), expr: value, span: *span }
        },
        Statement::TimeOp { tx_var, expr, message, span } => {
            let value = lower_expr(expr, &mut prefix, context);
            Statement::TimeOp { tx_var: *tx_var, expr: value, message: clone_opt_string(message), span: *span }
        },
        Statement::Require { expr, message, span } => {
            let value = lower_expr(expr, &mut prefix, context);
            Statement::Require { expr: value, message: clone_opt_string(message), span: *span }
        },
        Statement::Block { body, span } => {
            let lowered_body = lower_block(body, context);
            Statement::Block { body: lowered_body, span: *span }
        },
        Statement::If { condition, then_branch, else_branch, span } => {
            let ghost c = lower_expr_s(condition@, st);
            let ghost t = lower_block_s(statements_view(then_branch@), c.2);
            proof {
                lemma_expr_grows(condition@, st);
                lemma_block_grows(statements_view(then_branch@), c.2);
                match else_branch {
                    Some(eb) => {
                        lemma_block_grows(statements_view(eb@), t.1);
                        lemma_grows_trans(c.2, t.1, l.2);
                    },
                    None => {},
                }
                lemma_room(c.2, l.2);
                lemma_room(t.1, l.2);
            }
            let lowered_condition = lower_expr(condition, &mut prefix, context);
            let lowered_then = lower_block(then_branch, context);
            let lowered_else = match else_branch {
                Some(branch) => Some(lower_block(branch, context)),
                None => None,
            };
            Statement::If { condition: lowered_condition, then_branch: lowered_then, else_branch: lowered_else, span: *span }
        },
        Statement::For { ident, start, end, max_iterations, body, span } => {
            let ghost a = lower_expr_s(start@, st);
            let ghost b = lower_expr_s(end@, a.2);
            let ghost m = lower_expr_s(max_iterations@, b.2);
            proof {
                lemma_expr_grows(start@, st);
                lemma_expr_grows(end@, a.2);
                lemma_expr_grows(max_iterations@, b.2);
                lemma_block_grows(statements_view(body@), m.2);
                lemma_room(a.2, l.2);
                lemma_room(b.2, l.2);
                lemma_room(m.2, l.2);
            }
            let lowered_start = lower_expr(start, &mut prefix, context);
            let lowered_end = lower_expr(end, &mut prefix, context);
            let lowered_max = lower_expr(max_iterations, &mut prefix, context);
            let lowered_body = lower_block(body, context);
            proof {
                assert(Seq::<StatementV>::empty() + a.0 + b.0 + m.0 =~= a.0 + b.0 + m.0);
            }
            Statement::For {
                ident: ident.clone(),
                start: lowered_start,
                end: lowered_end,
                max_iterations: lowered_max,
                body: lowered_body,
                span: *span,
            }
        },
        Statement::Return { exprs, span } => {
            let lowered_exprs = lower_exprs(exprs, &mut prefix, context);
            Statement::Return { exprs: lowered_exprs, span: *span }
        },
        Statement::Console { args, span } => {
            let lowered_args = lower_call_args(args, &mut prefix, context);
            Statement::Console { args: lowered_args, span: *span }
        },
    };
    assert(Seq::<StatementV>::empty() + l.0 =~= l.0);
    (prefix, lowered)
}

/// The lowering of a block: each statement preceded by the definitions it
/// needs.
fn lower_block(statements: &Vec<Statement>, context: &mut LoweringContext) -> (r: Vec<Statement>)
    requires
        old(context).wf(),
        lower_block_s(statements_view(statements@), old(context).state()).1.0.len() <= usize::MAX,
    ensures
        final(context).wf(),
        statements_view(r@) == lower_block_s(statements_view(statements@), old(context).state()).0,
        final(context).state() == lower_block_s(statements_view(statements@), old(context).state()).1,
    decreases statements, 0nat,
{
    let ghost ss = statements_view(statements@);
    let ghost st0 = context.state();
    proof {
        vstd::seq_lib::seq_to_set_is_finite(views(context.used_names@));
        lemma_statements_view(statements@);
        assert(ss.take(0) =~= Seq::<StatementV>::empty());
    }
    let mut lowered: Vec<Statement> = Vec::new();
    assert(statements_view(lowered@) =~= Seq::<StatementV>::empty());
    let mut i: usize = 0;
    while i < statements.len()
        invariant
            i <= statements@.len(),
            ss == statements_view(statements@),
            ss.len() == statements@.len(),
            forall|j: int| 0 <= j < statements@.len() ==> #[trigger] ss[j] == statements@[j]@,
            context.wf(),
            statements_view(lowered@) == lower_block_s(ss.take(i as int), st0).0,
            context.state() == lower_block_s(ss.take(i as int), st0).1,
            lower_block_s(ss, st0).1.0.len() <= usize::MAX,
            st0.0.finite(),
        decreases statements@.len() - i,
    {
        let ghost a = lower_block_s(ss.take(i as int), st0);
        proof {
            assert(ss.take(i + 1).drop_last() =~= ss.take(i as int));
            assert(ss.take(i + 1).last() == ss[i as int]);
            lemma_block_prefix_grows(ss, i + 1, st0);
            lemma_block_grows(ss.take(i + 1), st0);
            lemma_room(lower_block_s(ss.take(i + 1), st0).1, lower_block_s(ss, st0).1);
            lemma_block_grows(ss.take(i as int), st0);
        }
        let (mut pre, stmt) = lower_statement(&statements[i], context);
        let ghost lv = lowered@;
        let ghost pv = pre@;
        lowered.append(&mut pre);
        proof {
            lemma_statements_view_add(lv, pv);
            lemma_statements_view_push(lv + pv, stmt);
            let b = lower_stmt_s(ss[i as int], a.1);
            assert(a.0 + b.0.push(b.1) =~= (a.0 + b.0).push(b.1));
        }
        lowered.push(stmt);
        i = i + 1;
    }
    assert(ss.take(ss.len() as int) =~= ss);
    lowered
}


/// The local names a statement introduces, its nested blocks included.
pub open spec fn stmt_names_s(s: StatementV) -> Set<Seq<char>>
    decreases s, 0nat,
{
    match s {
        StatementV::VariableDefinition { name, .. } => set![name],
        StatementV::Assign { name, .. } => set![name],
        StatementV::TupleAssignment { left_name, right_name, .. } => set![left_name, right_name],
        StatementV::FunctionCallAssign { bindings, .. } => bindings.map_values(|b: ParamV| b.name).to_set(),
        StatementV::StateFunctionCallAssign { bindings, .. } => bindings.map_values(|b: StructBindingV| b.name).to_set(),
        StatementV::StructDestructure { bindings, .. } => bindings.map_values(|b: StructBindingV| b.name).to_set(),
        StatementV::Block { body, .. } => block_names_s(body),
        StatementV::If { then_branch, else_branch, .. } => block_names_s(then_branch) + match else_branch {
            Some(b) => block_names_s(b),
            None => Set::empty(),
        },
        StatementV::For { ident, body, .. } => set![ident] + block_names_s(body),
        _ => Set::empty(),
    }
}

/// The local names a block introduces.
pub open spec fn block_names_s(ss: Seq<StatementV>) -> Set<Seq<char>>
    decreases ss, 0nat,
{
    if ss.len() == 0 {
        Set::empty()
    } else {
        block_names_s(ss.drop_last()) + stmt_names_s(ss.last())
    }
}

/// Adds a name unless it is already held.
fn insert_name(names: &mut Vec<String>, name: &String)
    requires
        views(old(names)@).no_duplicates(),
    ensures
        views(final(names)@).no_duplicates(),
        views(final(names)@).to_set() == views(old(names)@).to_set().insert(name@),
{
    let ghost before = views(names@);
    if !contains_name(names, name) {
        names.push(name.clone());
        proof {
            assert(views(names@) =~= before.push(name@));
            before.lemma_push_to_set_commute(name@);
            assert forall|a: int, b: int| 0 <= a < b < views(names@).len() implies views(names@)[a] != views(names@)[b] by {
                if b == before.len() {
                    assert(before.contains(before[a]));
                }
            }
        }
    } else {
        assert(views(names@).to_set() =~= before.to_set().insert(name@));
    }
}

/// Adds the names of parameter bindings.
fn insert_param_names(bindings: &Vec<ParamAst>, names: &mut Vec<String>)
    requires
        views(old(names)@).no_duplicates(),
    ensures
        views(final(names)@).no_duplicates(),
        views(final(names)@).to_set() == views(old(names)@).to_set() + params_view(bindings@).map_values(|b: ParamV| b.name).to_set(),
{
    let ghost start = views(names@).to_set();
    let ghost all = params_view(bindings@).map_values(|b: ParamV| b.name);
    let mut i: usize = 0;
    assert(all.take(0).to_set() =~= Set::<Seq<char>>::empty());
    assert(start + Set::<Seq<char>>::empty() =~= start);
    while i < bindings.len()
        invariant
            i <= bindings@.len(),
            all == params_view(bindings@).map_values(|b: ParamV| b.name),
            all.len() == bindings@.len(),
            views(names@).no_duplicates(),
            views(names@).to_set() == start + all.take(i as int).to_set(),
        decreases bindings@.len() - i,
    {
        insert_name(names, &bindings[i].name);
        proof {
            assert(all[i as int] == bindings@[i as int].name@);
            assert(all.take(i + 1) =~= all.take(i as int).push(all[i as int]));
            all.take(i as int).lemma_push_to_set_commute(all[i as int]);
            assert(views(names@).to_set() =~= start + all.take(i + 1).to_set());
        }
        i = i + 1;
    }
    assert(all.take(all.len() as int) =~= all);
}

/// Adds the names of struct-field bindings.
fn insert_binding_names(bindings: &Vec<StructBindingAst>, names: &mut Vec<String>)
    requires
        views(old(names)@).no_duplicates(),
    ensures
        views(final(names)@).no_duplicates(),
        views(final(names)@).to_set() == views(old(names)@).to_set() + bindings_view(bindings@).map_values(
            |b: StructBindingV| b.name,
        ).to_set(),
{
    let ghost start = views(names@).to_set();
    let ghost all = bindings_view(bindings@).map_values(|b: StructBindingV| b.name);
    let mut i: usize = 0;
    assert(all.take(0).to_set() =~= Set::<Seq<char>>::empty());
    assert(start + Set::<Seq<char>>::empty() =~= start);
    while i < bindings.len()
        invariant
            i <= bindings@.len(),
            all == bindings_view(bindings@).map_values(|b: StructBindingV| b.name),
            all.len() == bindings@.len(),
            views(names@).no_duplicates(),
            views(names@).to_set() == start + all.take(i as int).to_set(),
        decreases bindings@.len() - i,
    {
        insert_name(names, &bindings[i].name);
        proof {
            assert(all[i as int] == bindings@[i as int].name@);
            assert(all.take(i + 1) =~= all.take(i as int).push(all[i as int]));
            all.take(i as int).lemma_push_to_set_commute(all[i as int]);
            assert(views(names@).to_set() =~= start + all.take(i + 1).to_set());
        }
        i = i + 1;
    }
    assert(all.take(all.len() as int) =~= all);
}

/// Adds the local names a statement introduces.
fn collect_statement_names(statement: &Statement, names: &mut Vec<String>)
    requires
        views(old(names)@).no_duplicates(),
    ensures
        views(final(names)@).no_duplicates(),
        views(final(names)@).to_set() == views(old(names)@).to_set() + stmt_names_s(statement@),
    decreases statement, 0nat,
{
    let ghost start = views(names@).to_set();
    match statement {
        Statement::VariableDefinition { name, .. } => {
            insert_name(names, name);
            assert(views(names@).to_set() =~= start + set![name@]);
        },
        Statement::Assign { name, .. } => {
            insert_name(names, name);
            assert(views(names@).to_set() =~= start + set![name@]);
        },
        Statement::TupleAssignment { left_name, right_name, .. } => {
            insert_name(names, left_name);
            insert_name(names, right_name);
            assert(views(names@).to_set() =~= start + set![left_name@, right_name@]);
        },
        Statement::FunctionCallAssign { bindings, .. } => {
            insert_param_names(bindings, names);
        },
        Statement::StateFunctionCallAssign { bindings, .. } => {
            insert_binding_names(bindings, names);
        },
        Statement::StructDestructure { bindings, .. } => {
            insert_binding_names(bindings, names);
        },
        Statement::Block { body, .. } => {
            collect_local_names(body, names);
        },
        Statement::If { then_branch, else_branch, .. } => {
            collect_local_names(then_branch, names);
            match else_branch {
                Some(branch) => {
                    collect_local_names(branch, names);
                    assert(views(names@).to_set() =~= start + stmt_names_s(statement@));
                },
                None => {
                    assert(views(names@).to_set() =~= start + stmt_names_s(statement@));
                },
            }
        },
        Statement::For { ident, body, .. } => {
            insert_name(names, ident);
            collect_local_names(body, names);
            assert(views(names@).to_set() =~= start + stmt_names_s(statement@));
        },
        _ => {
            assert(views(names@).to_set() =~= start + stmt_names_s(statement@));
        },
    }
}

/// Adds the local names a block introduces, nested blocks included.
fn collect_local_names(statements: &Vec<Statement>, names: &mut Vec<String>)
    requires
        views(old(names)@).no_duplicates(),
    ensures
        views(final(names)@).no_duplicates(),
        views(final(names)@).to_set() == views(old(names)@).to_set() + block_names_s(statements_view(statements@)),
    decreases statements, 0nat,
{
    let ghost start = views(names@).to_set();
    let ghost ss = statements_view(statements@);
    proof {
        lemma_statements_view(statements@);
        assert(ss.take(0) =~= Seq::<StatementV>::empty());
        assert(start + Set::<Seq<char>>::empty() =~= start);
    }
    let mut i: usize = 0;
    while i < statements.len()
        invariant
            i <= statements@.len(),
            ss == statements_view(statements@),
            ss.len() == statements@.len(),
            forall|j: int| 0 <= j < statements@.len() ==> #[trigger] ss[j] == statements@[j]@,
            views(names@).no_duplicates(),
            views(names@).to_set() == start + block_names_s(ss.take(i as int)),
        decreases statements@.len() - i,
    {
        collect_statement_names(&statements[i], names);
        proof {
            assert(ss.take(i + 1).drop_last() =~= ss.take(i as int));
            assert(ss.take(i + 1).last() == ss[i as int]);
            assert(views(names@).to_set() =~= start + block_names_s(ss.take(i + 1)));
        }
        i = i + 1;
    }
    assert(ss.take(ss.len() as int) =~= ss);
}


/// View of a contract field: type, name, initial value.
pub open spec fn contract_field_view(f: ContractFieldAst) -> (TypeRefV, Seq<char>, ExprV) {
    (f.type_ref@, f.name@, f.expr@)
}

/// View of a contract constant: type, name, value.
pub open spec fn constant_view(c: ConstantAst) -> (TypeRefV, Seq<char>, ExprV) {
    (c.type_ref@, c.name@, c.expr@)
}

/// View of an optional pragma: name and value.
pub open spec fn pragma_view(p: Option<PragmaAst>) -> Option<(Seq<char>, Seq<char>)> {
    match p {
        Some(x) => Some((x.name@, x.value@)),
        None => None,
    }
}

/// The names of the contract's parameters, fields and constants.
pub open spec fn contract_names(c: ContractAst) -> Set<Seq<char>> {
    c.params@.map_values(|p: ParamAst| p.name@).to_set() + c.fields@.map_values(|f: ContractFieldAst| f.name@).to_set()
        + c.constants@.map_values(|k: ConstantAst| k.name@).to_set()
}

/// The names in use in a function before its lowering: the contract's
/// names, the function's parameters and the locals its body introduces.
pub open spec fn names_in_use(c: ContractAst, f: FunctionAst) -> Set<Seq<char>> {
    contract_names(c) + params_view(f.params@).map_values(|b: ParamV| b.name).to_set() + block_names_s(
        statements_view(f.body@),
    )
}

/// The lowering of a function's body, with temporary names tried from
/// index 0 on.
pub open spec fn lowered_body(c: ContractAst, f: FunctionAst) -> (Seq<StatementV>, NameState) {
    lower_block_s(statements_view(f.body@), (names_in_use(c, f), 0))
}

/// `g` is `f` of contract `c` with its body lowered.
pub open spec fn lowered_function(c: ContractAst, f: FunctionAst, g: FunctionAst) -> bool {
    &&& g.name@ == f.name@
    &&& params_view(g.params@) == params_view(f.params@)
    &&& types_view(g.return_types@) == types_view(f.return_types@)
    &&& g.entrypoint == f.entrypoint
    &&& statements_view(g.body@) == lowered_body(c, f).0
}

/// `out` is `c` with every function body lowered.
pub open spec fn lowered_contract(c: ContractAst, out: ContractAst) -> bool {
    &&& out.name@ == c.name@
    &&& params_view(out.params@) == params_view(c.params@)
    &&& out.fields@.map_values(|f: ContractFieldAst| contract_field_view(f)) == c.fields@.map_values(
        |f: ContractFieldAst| contract_field_view(f),
    )
    &&& out.constants@.map_values(|k: ConstantAst| constant_view(k)) == c.constants@.map_values(|k: ConstantAst| constant_view(k))
    &&& pragma_view(out.pragma) == pragma_view(c.pragma)
    &&& out.functions@.len() == c.functions@.len()
    &&& forall|i: int| 0 <= i < c.functions@.len() ==> #[trigger] lowered_function(c, c.functions@[i], out.functions@[i])
}

/// Lifts every `readInputState(...)` call argument of every function into a
/// `State` local defined just before the statement that holds it, named by
/// the first `__read_input_state_<n>` not in use in that function.
pub fn lower_read_input_state_calls(contract: &ContractAst) -> (r: Result<ContractAst, CompilerError>)
    requires
        forall|i: int|
            0 <= i < contract.functions@.len() ==> #[trigger] lowered_body(*contract, contract.functions@[i]).1.0.len()
                <= usize::MAX,
    ensures
        r matches Ok(out) && lowered_contract(*contract, out),
{
    let mut names: Vec<String> = Vec::new();
    let ghost ps = contract.params@.map_values(|p: ParamAst| p.name@);
    let ghost fs = contract.fields@.map_values(|f: ContractFieldAst| f.name@);
    let ghost ks = contract.constants@.map_values(|k: ConstantAst| k.name@);
    assert(views(names@).to_set() =~= ps.take(0).to_set());
    let mut i: usize = 0;
    while i < contract.params.len()
        invariant
            i <= contract.params@.len(),
            ps == contract.params@.map_values(|p: ParamAst| p.name@),
            views(names@).no_duplicates(),
            views(names@).to_set() == ps.take(i as int).to_set(),
        decreases contract.params@.len() - i,
    {
        insert_name(&mut names, &contract.params[i].name);
        proof {
            assert(ps.take(i + 1) =~= ps.take(i as int).push(ps[i as int]));
            ps.take(i as int).lemma_push_to_set_commute(ps[i as int]);
        }
        i = i + 1;
    }
    assert(ps.take(ps.len() as int) =~= ps);
    assert(views(names@).to_set() =~= ps.to_set() + fs.take(0).to_set());
    i = 0;
    while i < contract.fields.len()
        invariant
            i <= contract.fields@.len(),
            ps == contract.params@.map_values(|p: ParamAst| p.name@),
            fs == contract.fields@.map_values(|f: ContractFieldAst| f.name@),
            views(names@).no_duplicates(),
            views(names@).to_set() == ps.to_set() + fs.take(i as int).to_set(),
        decreases contract.fields@.len() - i,
    {
        insert_name(&mut names, &contract.fields[i].name);
        proof {
            assert(fs.take(i + 1) =~= fs.take(i as int).push(fs[i as int]));
            fs.take(i as int).lemma_push_to_set_commute(fs[i as int]);
            assert(views(names@).to_set() =~= ps.to_set() + fs.take(i + 1).to_set());
        }
        i = i + 1;
    }
    assert(fs.take(fs.len() as int) =~= fs);
    assert(views(names@).to_set() =~= ps.to_set() + fs.to_set() + ks.take(0).to_set());
    i = 0;
    while i < contract.constants.len()
        invariant
            i <= contract.constants@.len(),
            ps == contract.params@.map_values(|p: ParamAst| p.name@),
            fs == contract.fields@.map_values(|f: ContractFieldAst| f.name@),
            ks == contract.constants@.map_values(|k: ConstantAst| k.name@),
            views(names@).no_duplicates(),
            views(names@).to_set() == ps.to_set() + fs.to_set() + ks.take(i as int).to_set(),
        decreases contract.constants@.len() - i,
    {
        insert_name(&mut names, &contract.constants[i].name);
        proof {
            assert(ks.take(i + 1) =~= ks.take(i as int).push(ks[i as int]));
            ks.take(i as int).lemma_push_to_set_commute(ks[i as int]);
            assert(views(names@).to_set() =~= ps.to_set() + fs.to_set() + ks.take(i + 1).to_set());
        }
        i = i + 1;
    }
    assert(ks.take(ks.len() as int) =~= ks);
    assert(views(names@).to_set() == contract_names(*contract));
    let mut functions: Vec<FunctionAst> = Vec::new();
    i = 0;
    while i < contract.functions.len()
        invariant
            i <= contract.functions@.len(),
            views(names@).no_duplicates(),
            views(names@).to_set() == contract_names(*contract),
            functions@.len() == i,
            forall|j: int|
                0 <= j < contract.functions@.len() ==> #[trigger] lowered_body(*contract, contract.functions@[j]).1.0.len()
                    <= usize::MAX,
            forall|j: int| 0 <= j < i ==> #[trigger] lowered_function(*contract, contract.functions@[j], functions@[j]),
        decreases contract.functions@.len() - i,
    {
        let function = &contract.functions[i];
        let mut used = clone_strings(&names);
        assert(views(used@) =~= views(names@));
        insert_param_names(&function.params, &mut used);
        collect_local_names(&function.body, &mut used);
        let mut context = LoweringContext { used_names: used, temp_index: 0 };
        assert(context.state() == (names_in_use(*contract, *function), 0nat));
        assert(lowered_body(*contract, contract.functions@[i as int]).1.0.len() <= usize::MAX);
        let body = lower_block(&function.body, &mut context);
        let lowered = FunctionAst {
            name: function.name.clone(),
            params: clone_params(&function.params),
            return_types: clone_types(&function.return_types),
            body,
            entrypoint: function.entrypoint,
        };
        assert(lowered_function(*contract, contract.functions@[i as int], lowered));
        functions.push(lowered);
        i = i + 1;
    }
    let out = ContractAst {
        name: contract.name.clone(),
        params: clone_params(&contract.params),
        fields: clone_contract_fields(&contract.fields),
        constants: clone_constants(&contract.constants),
        functions,
        pragma: clone_pragma(&contract.pragma),
    };
    Ok(out)
}

/// A copy of the contract fields.
fn clone_contract_fields(v: &Vec<ContractFieldAst>) -> (r: Vec<ContractFieldAst>)
    ensures
        r@.map_values(|f: ContractFieldAst| contract_field_view(f)) == v@.map_values(|f: ContractFieldAst| contract_field_view(f)),
{
    let mut r: Vec<ContractFieldAst> = Vec::new();
    let mut i: usize = 0;
    while i < v.len()
        invariant
            i <= v@.len(),
            r@.len() == i,
            forall|j: int| 0 <= j < i ==> #[trigger] contract_field_view(r@[j]) == contract_field_view(v@[j]),
        decreases v@.len() - i,
    {
        r.push(ContractFieldAst { type_ref: clone_type(&v[i].type_ref), name: v[i].name.clone(), expr: clone_expr(&v[i].expr) });
        i = i + 1;
    }
    assert(r@.map_values(|f: ContractFieldAst| contract_field_view(f)) =~= v@.map_values(|f: ContractFieldAst| contract_field_view(f)));
    r
}

/// A copy of the contract constants.
fn clone_constants(v: &Vec<ConstantAst>) -> (r: Vec<ConstantAst>)
    ensures
        r@.map_values(|k: ConstantAst| constant_view(k)) == v@.map_values(|k: ConstantAst| constant_view(k)),
{
    let mut r: Vec<ConstantAst> = Vec::new();
    let mut i: usize = 0;
    while i < v.len()
        invariant
            i <= v@.len(),
            r@.len() == i,
            forall|j: int| 0 <= j < i ==> #[trigger] constant_view(r@[j]) == constant_view(v@[j]),
        decreases v@.len() - i,
    {
        r.push(ConstantAst { type_ref: clone_type(&v[i].type_ref), name: v[i].name.clone(), expr: clone_expr(&v[i].expr) });
        i = i + 1;
    }
    assert(r@.map_values(|k: ConstantAst| constant_view(k)) =~= v@.map_values(|k: ConstantAst| constant_view(k)));
    r
}

/// A copy of an optional pragma.
fn clone_pragma(p: &Option<PragmaAst>) -> (r: Option<PragmaAst>)
    ensures
        pragma_view(r) == pragma_view(*p),
{
    match p {
        Some(x) => Some(PragmaAst { name: x.name.clone(), value: x.value.clone() }),
        None => None,
    }
}


/// Some call argument inside the expression is a `readInputState(...)`
/// call.
pub open spec fn expr_has_read_arg(e: ExprV) -> bool
    decreases e, 0nat,
{
    match e.kind {
        ExprKindV::Array(vs) => list_has_read_arg(vs),
        ExprKindV::Call { args, .. } => args_have_read_arg(args),
        ExprKindV::New { args, .. } => args_have_read_arg(args),
        ExprKindV::Split { source, index, .. } => expr_has_read_arg(*source) || expr_has_read_arg(*index),
        ExprKindV::Slice { source, start, end } => expr_has_read_arg(*source) || expr_has_read_arg(*start)
            || expr_has_read_arg(*end),
        ExprKindV::Append { source, args } => expr_has_read_arg(*source) || args_have_read_arg(args),
        ExprKindV::ArrayIndex { source, index } => expr_has_read_arg(*source) || expr_has_read_arg(*index),
        ExprKindV::Unary { expr, .. } => expr_has_read_arg(*expr),
        ExprKindV::Binary { left, right, .. } => expr_has_read_arg(*left) || expr_has_read_arg(*right),
        ExprKindV::IfElse { condition, then_expr, else_expr } => expr_has_read_arg(*condition) || expr_has_read_arg(
            *then_expr,
        ) || expr_has_read_arg(*else_expr),
        ExprKindV::Introspection { index, .. } => expr_has_read_arg(*index),
        ExprKindV::StructLiteral(fs) => fields_have_read_arg(fs),
        ExprKindV::FieldAccess { source, .. } => expr_has_read_arg(*source),
        ExprKindV::UnarySuffix { source, .. } => expr_has_read_arg(*source),
        _ => false,
    }
}

/// Some expression of the list has a `readInputState(...)` call argument.
pub open spec fn list_has_read_arg(es: Seq<ExprV>) -> bool
    decreases es, 0nat,
{
    es.len() > 0 && (list_has_read_arg(es.drop_last()) || expr_has_read_arg(es.last()))
}

/// Some argument is a `readInputState(...)` call or has one as a call
/// argument.
pub open spec fn args_have_read_arg(es: Seq<ExprV>) -> bool
    decreases es, 0nat,
{
    es.len() > 0 && (args_have_read_arg(es.drop_last()) || is_read_input_state_call(es.last()) || expr_has_read_arg(
        es.last(),
    ))
}

/// Some struct-literal field has a `readInputState(...)` call argument.
pub open spec fn fields_have_read_arg(fs: Seq<StateFieldV>) -> bool
    decreases fs, 0nat,
{
    fs.len() > 0 && (fields_have_read_arg(fs.drop_last()) || expr_has_read_arg(fs.last().expr))
}

/// Some call argument in the statement is a `readInputState(...)` call.
pub open spec fn stmt_has_read_arg(s: StatementV) -> bool
    decreases s, 0nat,
{
    match s {
        StatementV::VariableDefinition { expr, .. } => match expr {
            Some(x) => expr_has_read_arg(x),
            None => false,
        },
        StatementV::TupleAssignment { expr, .. } => expr_has_read_arg(expr),
        StatementV::FunctionCall { args, .. } => args_have_read_arg(args),
        StatementV::FunctionCallAssign { args, .. } => args_have_read_arg(args),
        StatementV::StateFunctionCallAssign { args, .. } => args_have_read_arg(args),
        StatementV::StructDestructure { expr, .. } => expr_has_read_arg(expr),
        StatementV::Assign { expr, .. } => expr_has_read_arg(expr),
        StatementV::TimeOp { expr, .. } => expr_has_read_arg(expr),
        StatementV::Require { expr, .. } => expr_has_read_arg(expr),
        StatementV::Block { body, .. } => block_has_read_arg(body),
        StatementV::If { condition, then_branch, else_branch, .. } => expr_has_read_arg(condition) || block_has_read_arg(
            then_branch,
        ) || match else_branch {
            Some(b) => block_has_read_arg(b),
            None => false,
        },
        StatementV::For { start, end, max_iterations, body, .. } => expr_has_read_arg(start) || expr_has_read_arg(end)
            || expr_has_read_arg(max_iterations) || block_has_read_arg(body),
        StatementV::Return { exprs, .. } => list_has_read_arg(exprs),
        StatementV::Console { args, .. } => args_have_read_arg(args),
    }
}

/// Some statement of the block has a `readInputState(...)` call argument.
pub open spec fn block_has_read_arg(ss: Seq<StatementV>) -> bool
    decreases ss, 0nat,
{
    ss.len() > 0 && (block_has_read_arg(ss.drop_last()) || stmt_has_read_arg(ss.last()))
}

/// A joined block has a `readInputState(...)` call argument exactly where
/// one of its parts has.
pub proof fn lemma_block_has_add(a: Seq<StatementV>, b: Seq<StatementV>)
    ensures
        block_has_read_arg(a + b) == (block_has_read_arg(a) || block_has_read_arg(b)),
    decreases b.len(),
{
    if b.len() == 0 {
        assert(a + b =~= a);
    } else {
        lemma_block_has_add(a, b.drop_last());
        assert((a + b).drop_last() =~= a + b.drop_last());
        assert((a + b).last() == b.last());
    }
}

/// Lowering an expression leaves no `readInputState(...)` call argument,
/// neither in the expression nor in its definitions, and keeps whether the
/// expression itself is such a call.
pub proof fn lemma_expr_lowered_clean(e: ExprV, st: NameState)
    ensures
        !expr_has_read_arg(lower_expr_s(e, st).1),
        !block_has_read_arg(lower_expr_s(e, st).0),
        is_read_input_state_call(lower_expr_s(e, st).1) == is_read_input_state_call(e),
    decreases e, 0nat,
{
    match e.kind {
        ExprKindV::Array(vs) => lemma_list_lowered_clean(vs, st),
        ExprKindV::Call { args, .. } => lemma_args_lowered_clean(args, st),
        ExprKindV::New { args, .. } => lemma_args_lowered_clean(args, st),
        ExprKindV::Split { source, index, .. } => {
            let a = lower_expr_s(*source, st);
            lemma_expr_lowered_clean(*source, st);
            lemma_expr_lowered_clean(*index, a.2);
            lemma_block_has_add(a.0, lower_expr_s(*index, a.2).0);
        },
        ExprKindV::Slice { source, start, end } => {
            let a = lower_expr_s(*source, st);
            let b = lower_expr_s(*start, a.2);
            lemma_expr_lowered_clean(*source, st);
            lemma_expr_lowered_clean(*start, a.2);
            lemma_expr_lowered_clean(*end, b.2);
            lemma_block_has_add(a.0, b.0);
            lemma_block_has_add(a.0 + b.0, lower_expr_s(*end, b.2).0);
        },
        ExprKindV::Append { source, args } => {
            let a = lower_expr_s(*source, st);
            lemma_expr_lowered_clean(*source, st);
            lemma_args_lowered_clean(args, a.2);
            lemma_block_has_add(a.0, lower_args_s(args, a.2).0);
        },
        ExprKindV::ArrayIndex { source, index } => {
            let a = lower_expr_s(*source, st);
            lemma_expr_lowered_clean(*source, st);
            lemma_expr_lowered_clean(*index, a.2);
            lemma_block_has_add(a.0, lower_expr_s(*index, a.2).0);
        },
        ExprKindV::Unary { expr, .. } => lemma_expr_lowered_clean(*expr, st),
        ExprKindV::Binary { left, right, .. } => {
            let a = lower_expr_s(*left, st);
            lemma_expr_lowered_clean(*left, st);
            lemma_expr_lowered_clean(*right, a.2);
            lemma_block_has_add(a.0, lower_expr_s(*right, a.2).0);
        },
        ExprKindV::IfElse { condition, then_expr, else_expr } => {
            let a = lower_expr_s(*condition, st);
            let b = lower_expr_s(*then_expr, a.2);
            lemma_expr_lowered_clean(*condition, st);
            lemma_expr_lowered_clean(*then_expr, a.2);
            lemma_expr_lowered_clean(*else_expr, b.2);
            lemma_block_has_add(a.0, b.0);
            lemma_block_has_add(a.0 + b.0, lower_expr_s(*else_expr, b.2).0);
        },
        ExprKindV::Introspection { index, .. } => lemma_expr_lowered_clean(*index, st),
        ExprKindV::StructLiteral(fs) => lemma_fields_lowered_clean(fs, st),
        ExprKindV::FieldAccess { source, .. } => lemma_expr_lowered_clean(*source, st),
        ExprKindV::UnarySuffix { source, .. } => lemma_expr_lowered_clean(*source, st),
        _ => {},
    }
}

/// Lowering a list leaves no `readInputState(...)` call argument.
pub proof fn lemma_list_lowered_clean(es: Seq<ExprV>, st: NameState)
    ensures
        !list_has_read_arg(lower_list_s(es, st).1),
        !block_has_read_arg(lower_list_s(es, st).0),
        lower_list_s(es, st).1.len() == es.len(),
    decreases es, 0nat,
{
    if es.len() > 0 {
        let a = lower_list_s(es.drop_last(), st);
        lemma_list_lowered_clean(es.drop_last(), st);
        lemma_expr_lowered_clean(es.last(), a.2);
        lemma_block_has_add(a.0, lower_expr_s(es.last(), a.2).0);
        assert(lower_list_s(es, st).1.drop_last() =~= a.1);
    }
}

/// Lowering call arguments leaves none that is, or holds, a
/// `readInputState(...)` call argument.
pub proof fn lemma_args_lowered_clean(es: Seq<ExprV>, st: NameState)
    ensures
        !args_have_read_arg(lower_args_s(es, st).1),
        !block_has_read_arg(lower_args_s(es, st).0),
        lower_args_s(es, st).1.len() == es.len(),
    decreases es, 0nat,
{
    if es.len() > 0 {
        let a = lower_args_s(es.drop_last(), st);
        lemma_args_lowered_clean(es.drop_last(), st);
        lemma_call_arg_lowered_clean(es.last(), a.2);
        lemma_block_has_add(a.0, lower_call_arg_s(es.last(), a.2).0);
        assert(lower_args_s(es, st).1.drop_last() =~= a.1);
    }
}

/// A lowered call argument is no `readInputState(...)` call and holds none
/// as a call argument.
pub proof fn lemma_call_arg_lowered_clean(e: ExprV, st: NameState)
    ensures
        !is_read_input_state_call(lower_call_arg_s(e, st).1),
        !expr_has_read_arg(lower_call_arg_s(e, st).1),
        !block_has_read_arg(lower_call_arg_s(e, st).0),
    decreases e, 1nat,
{
    lemma_expr_lowered_clean(e, st);
    if is_read_input_state_call(e) {
        let a = lower_expr_s(e, st);
        let t = next_temp(a.2);
        let d = temp_definition(t.0, a.1, e.span);
        assert(a.0.push(d) =~= a.0 + seq![d]);
        lemma_block_has_add(a.0, seq![d]);
        assert(seq![d].drop_last() =~= Seq::<StatementV>::empty());
        assert(!stmt_has_read_arg(d));
        assert(!block_has_read_arg(Seq::<StatementV>::empty()));
        assert(seq![d].last() == d);
        assert(!block_has_read_arg(seq![d]));
    }
}

/// Lowering struct-literal fields leaves no `readInputState(...)` call
/// argument.
pub proof fn lemma_fields_lowered_clean(fs: Seq<StateFieldV>, st: NameState)
    ensures
        !fields_have_read_arg(lower_fields_s(fs, st).1),
        !block_has_read_arg(lower_fields_s(fs, st).0),
        lower_fields_s(fs, st).1.len() == fs.len(),
    decreases fs, 0nat,
{
    if fs.len() > 0 {
        let a = lower_fields_s(fs.drop_last(), st);
        lemma_fields_lowered_clean(fs.drop_last(), st);
        lemma_expr_lowered_clean(fs.last().expr, a.2);
        lemma_block_has_add(a.0, lower_expr_s(fs.last().expr, a.2).0);
        assert(lower_fields_s(fs, st).1.drop_last() =~= a.1);
    }
}

/// Lowering a statement leaves no `readInputState(...)` call argument,
/// neither in the statement nor in its definitions.
pub proof fn lemma_stmt_lowered_clean(s: StatementV, st: NameState)
    ensures
        !stmt_has_read_arg(lower_stmt_s(s, st).1),
        !block_has_read_arg(lower_stmt_s(s, st).0),
    decreases s, 0nat,
{
    match s {
        StatementV::VariableDefinition { expr, .. } => match expr {
            Some(x) => lemma_expr_lowered_clean(x, st),
            None => {},
        },
        StatementV::TupleAssignment { expr, .. } => lemma_expr_lowered_clean(expr, st),
        StatementV::FunctionCall { args, .. } => lemma_args_lowered_clean(args, st),
        StatementV::FunctionCallAssign { args, .. } => lemma_args_lowered_clean(args, st),
        StatementV::StateFunctionCallAssign { args, .. } => lemma_args_lowered_clean(args, st),
        StatementV::StructDestructure { expr, .. } => lemma_expr_lowered_clean(expr, st),
        StatementV::Assign { expr, .. } => lemma_expr_lowered_clean(expr, st),
        StatementV::TimeOp { expr, .. } => lemma_expr_lowered_clean(expr, st),
        StatementV::Require { expr, .. } => lemma_expr_lowered_clean(expr, st),
        StatementV::Block { body, .. } => lemma_block_lowered_clean(body, st),
        StatementV::If { condition, then_branch, else_branch, .. } => {
            let c = lower_expr_s(condition, st);
            lemma_expr_lowered_clean(condition, st);
            lemma_block_lowered_clean(then_branch, c.2);
            match else_branch {
                Some(eb) => lemma_block_lowered_clean(eb, lower_block_s(then_branch, c.2).1),
                None => {},
            }
        },
        StatementV::For { start, end, max_iterations, body, .. } => {
            let a = lower_expr_s(start, st);
            let b = lower_expr_s(end, a.2);
            let m = lower_expr_s(max_iterations, b.2);
            lemma_expr_lowered_clean(start, st);
            lemma_expr_lowered_clean(end, a.2);
            lemma_expr_lowered_clean(max_iterations, b.2);
            lemma_block_lowered_clean(body, m.2);
            lemma_block_has_add(a.0, b.0);
            lemma_block_has_add(a.0 + b.0, m.0);
        },
        StatementV::Return { exprs, .. } => lemma_list_lowered_clean(exprs, st),
        StatementV::Console { args, .. } => lemma_args_lowered_clean(args, st),
    }
}

/// Lowering a block leaves no `readInputState(...)` call argument in it.
pub proof fn lemma_block_lowered_clean(ss: Seq<StatementV>, st: NameState)
    ensures
        !block_has_read_arg(lower_block_s(ss, st).0),
    decreases ss, 0nat,
{
    if ss.len() > 0 {
        let a = lower_block_s(ss.drop_last(), st);
        let b = lower_stmt_s(ss.last(), a.1);
        lemma_block_lowered_clean(ss.drop_last(), st);
        lemma_stmt_lowered_clean(ss.last(), a.1);
        lemma_block_has_add(a.0, b.0);
        let c = a.0 + b.0;
        assert(c.push(b.1).drop_last() =~= c);
    }
}


/// An expression without `readInputState(...)` call arguments lowers to
/// itself, with no definitions and no name taken.
pub proof fn lemma_expr_unchanged(e: ExprV, st: NameState)
    requires
        !expr_has_read_arg(e),
    ensures
        lower_expr_s(e, st) == (Seq::<StatementV>::empty(), e, st),
    decreases e, 0nat,
{
    match e.kind {
        ExprKindV::Array(vs) => lemma_list_unchanged(vs, st),
        ExprKindV::Call { args, .. } => lemma_args_unchanged(args, st),
        ExprKindV::New { args, .. } => lemma_args_unchanged(args, st),
        ExprKindV::Split { source, index, .. } => {
            lemma_expr_unchanged(*source, st);
            lemma_expr_unchanged(*index, st);
            assert(Seq::<StatementV>::empty() + Seq::<StatementV>::empty() =~= Seq::<StatementV>::empty());
        },
        ExprKindV::Slice { source, start, end } => {
            lemma_expr_unchanged(*source, st);
            lemma_expr_unchanged(*start, st);
            lemma_expr_unchanged(*end, st);
            assert(Seq::<StatementV>::empty() + Seq::<StatementV>::empty() + Seq::<StatementV>::empty()
                =~= Seq::<StatementV>::empty());
        },
        ExprKindV::Append { source, args } => {
            lemma_expr_unchanged(*source, st);
            lemma_args_unchanged(args, st);
            assert(Seq::<StatementV>::empty() + Seq::<StatementV>::empty() =~= Seq::<StatementV>::empty());
        },
        ExprKindV::ArrayIndex { source, index } => {
            lemma_expr_unchanged(*source, st);
            lemma_expr_unchanged(*index, st);
            assert(Seq::<StatementV>::empty() + Seq::<StatementV>::empty() =~= Seq::<StatementV>::empty());
        },
        ExprKindV::Unary { expr, .. } => lemma_expr_unchanged(*expr, st),
        ExprKindV::Binary { left, right, .. } => {
            lemma_expr_unchanged(*left, st);
            lemma_expr_unchanged(*right, st);
            assert(Seq::<StatementV>::empty() + Seq::<StatementV>::empty() =~= Seq::<StatementV>::empty());
        },
        ExprKindV::IfElse { condition, then_expr, else_expr } => {
            lemma_expr_unchanged(*condition, st);
            lemma_expr_unchanged(*then_expr, st);
            lemma_expr_unchanged(*else_expr, st);
            assert(Seq::<StatementV>::empty() + Seq::<StatementV>::empty() + Seq::<StatementV>::empty()
                =~= Seq::<StatementV>::empty());
        },
        ExprKindV::Introspection { index, .. } => lemma_expr_unchanged(*index, st),
        ExprKindV::StructLiteral(fs) => lemma_fields_unchanged(fs, st),
        ExprKindV::FieldAccess { source, .. } => lemma_expr_unchanged(*source, st),
        ExprKindV::UnarySuffix { source, .. } => lemma_expr_unchanged(*source, st),
        _ => {},
    }
}

/// A list without `readInputState(...)` call arguments lowers to itself.
pub proof fn lemma_list_unchanged(es: Seq<ExprV>, st: NameState)
    requires
        !list_has_read_arg(es),
    ensures
        lower_list_s(es, st) == (Seq::<StatementV>::empty(), es, st),
    decreases es, 0nat,
{
    if es.len() > 0 {
        lemma_list_unchanged(es.drop_last(), st);
        lemma_expr_unchanged(es.last(), st);
        assert(Seq::<StatementV>::empty() + Seq::<StatementV>::empty() =~= Seq::<StatementV>::empty());
        assert(es.drop_last().push(es.last()) =~= es);
    }
}

/// Call arguments none of which is or holds a `readInputState(...)` call
/// argument lower to themselves.
pub proof fn lemma_args_unchanged(es: Seq<ExprV>, st: NameState)
    requires
        !args_have_read_arg(es),
    ensures
        lower_args_s(es, st) == (Seq::<StatementV>::empty(), es, st),
    decreases es, 0nat,
{
    if es.len() > 0 {
        lemma_args_unchanged(es.drop_last(), st);
        lemma_expr_unchanged(es.last(), st);
        assert(!is_read_input_state_call(es.last()));
        assert(lower_call_arg_s(es.last(), st) == lower_expr_s(es.last(), st));
        assert(Seq::<StatementV>::empty() + Seq::<StatementV>::empty() =~= Seq::<StatementV>::empty());
        assert(es.drop_last().push(es.last()) =~= es);
    }
}

/// Struct-literal fields without `readInputState(...)` call arguments lower
/// to themselves.
pub proof fn lemma_fields_unchanged(fs: Seq<StateFieldV>, st: NameState)
    requires
        !fields_have_read_arg(fs),
    ensures
        lower_fields_s(fs, st) == (Seq::<StatementV>::empty(), fs, st),
    decreases fs, 0nat,
{
    if fs.len() > 0 {
        lemma_fields_unchanged(fs.drop_last(), st);
        lemma_expr_unchanged(fs.last().expr, st);
        assert(Seq::<StatementV>::empty() + Seq::<StatementV>::empty() =~= Seq::<StatementV>::empty());
        assert(fs.drop_last().push(fs.last()) =~= fs);
    }
}

/// A statement without `readInputState(...)` call arguments lowers to
/// itself.
pub proof fn lemma_stmt_unchanged(s: StatementV, st: NameState)
    requires
        !stmt_has_read_arg(s),
    ensures
        lower_stmt_s(s, st) == (Seq::<StatementV>::empty(), s, st),
    decreases s, 0nat,
{
    match s {
        StatementV::VariableDefinition { expr, .. } => match expr {
            Some(x) => lemma_expr_unchanged(x, st),
            None => {},
        },
        StatementV::TupleAssignment { expr, .. } => lemma_expr_unchanged(expr, st),
        StatementV::FunctionCall { args, .. } => lemma_args_unchanged(args, st),
        StatementV::FunctionCallAssign { args, .. } => lemma_args_unchanged(args, st),
        StatementV::StateFunctionCallAssign { args, .. } => lemma_args_unchanged(args, st),
        StatementV::StructDestructure { expr, .. } => lemma_expr_unchanged(expr, st),
        StatementV::Assign { expr, .. } => lemma_expr_unchanged(expr, st),
        StatementV::TimeOp { expr, .. } => lemma_expr_unchanged(expr, st),
        StatementV::Require { expr, .. } => lemma_expr_unchanged(expr, st),
        StatementV::Block { body, .. } => lemma_block_unchanged(body, st),
        StatementV::If { condition, then_branch, else_branch, .. } => {
            lemma_expr_unchanged(condition, st);
            lemma_block_unchanged(then_branch, st);
            match else_branch {
                Some(eb) => lemma_block_unchanged(eb, st),
                None => {},
            }
        },
        StatementV::For { start, end, max_iterations, body, .. } => {
            lemma_expr_unchanged(start, st);
            lemma_expr_unchanged(end, st);
            lemma_expr_unchanged(max_iterations, st);
            lemma_block_unchanged(body, st);
            assert(Seq::<StatementV>::empty() + Seq::<StatementV>::empty() + Seq::<StatementV>::empty()
                =~= Seq::<StatementV>::empty());
        },
        StatementV::Return { exprs, .. } => lemma_list_unchanged(exprs, st),
        StatementV::Console { args, .. } => lemma_args_unchanged(args, st),
    }
}

/// A block without `readInputState(...)` call arguments lowers to itself.
pub proof fn lemma_block_unchanged(ss: Seq<StatementV>, st: NameState)
    requires
        !block_has_read_arg(ss),
    ensures
        lower_block_s(ss, st) == (ss, st),
    decreases ss, 0nat,
{
    if ss.len() > 0 {
        lemma_block_unchanged(ss.drop_last(), st);
        lemma_stmt_unchanged(ss.last(), st);
        assert(ss.drop_last() + Seq::<StatementV>::empty().push(ss.last()) =~= ss);
    }
}

/// After lowering, no call argument anywhere in a function body is a
/// `readInputState(...)` call: each was bound to a local first.
pub proof fn lemma_lowered_contract_has_no_read_args(c: ContractAst, out: ContractAst)
    requires
        lowered_contract(c, out),
    ensures
        forall|i: int| 0 <= i < out.functions@.len() ==> !block_has_read_arg(#[trigger] statements_view(out.functions@[i].body@)),
{
    assert forall|i: int| 0 <= i < out.functions@.len() implies !block_has_read_arg(
        #[trigger] statements_view(out.functions@[i].body@),
    ) by {
        assert(lowered_function(c, c.functions@[i], out.functions@[i]));
        lemma_block_lowered_clean(statements_view(c.functions@[i].body@), (names_in_use(c, c.functions@[i]), 0));
    }
}

/// A contract whose function bodies have no `readInputState(...)` call
/// argument keeps its bodies unchanged.
pub proof fn lemma_lowering_without_read_args_is_identity(c: ContractAst, out: ContractAst)
    requires
        lowered_contract(c, out),
        forall|i: int| 0 <= i < c.functions@.len() ==> !block_has_read_arg(#[trigger] statements_view(c.functions@[i].body@)),
    ensures
        forall|i: int|
            0 <= i < c.functions@.len() ==> #[trigger] statements_view(out.functions@[i].body@) == statements_view(
                c.functions@[i].body@,
            ),
{
    assert forall|i: int| 0 <= i < c.functions@.len() implies #[trigger] statements_view(out.functions@[i].body@)
        == statements_view(c.functions@[i].body@) by {
        assert(lowered_function(c, c.functions@[i], out.functions@[i]));
        lemma_block_unchanged(statements_view(c.functions@[i].body@), (names_in_use(c, c.functions@[i]), 0));
    }
}

/// The temporary name taken is not in use before, and is in use after.
pub proof fn lemma_next_temp_fresh(st: NameState)
    requires
        st.0.finite(),
    ensures
        !st.0.contains(next_temp(st).0),
        next_temp(st).1.0 == st.0.insert(next_temp(st).0),
        next_temp(st).1.0.finite(),
{
    lemma_first_free_exists(st.0, st.1);
}

} // verus!
