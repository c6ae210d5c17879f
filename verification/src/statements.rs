//! The parts of statement compilation that decide without compiling an
//! expression: how a tuple assignment splits its value, what a variable
//! definition is initialised with, which names an assignment or a
//! definition may use, how a block's locals leave the stack and the scope,
//! which inner validation a call stands for, and the
//! statements that must be gone, or that emit nothing, by the time code is
//! generated.
use vstd::prelude::*;
use crate::ast::{clone_expr, Expr, ExprKind, ExprKindV, ExprV, SplitPart, Span, TypeRef};
use crate::error::CompilerError;
use crate::output_state::{VALIDATE_OUTPUT_STATE_INNER, VALIDATE_OUTPUT_STATE_WITH_TEMPLATE_INNER};
use crate::script::builder_script;
use crate::stack_bindings::{drop_model, drop_plan, StackBindings};
use crate::stack_machine::{steps_bytes, steps_fit};
use crate::stack_order::views;
use crate::static_check::TypeMap;
use kaspa_txscript::script_builder::ScriptBuilder;

verus! {

/// The two halves a tuple assignment defines: `split(source, index)` taken
/// as its left and its right part, each with an empty source range.
pub open spec fn split_halves(e: ExprV) -> Option<(ExprV, ExprV)> {
    match e.kind {
        ExprKindV::Split { source, index, .. } => Some(
            (
                ExprV { kind: ExprKindV::Split { source, index, part: SplitPart::Left }, span: Span { start: 0, end: 0 } },
                ExprV { kind: ExprKindV::Split { source, index, part: SplitPart::Right }, span: Span { start: 0, end: 0 } },
            ),
        ),
        _ => None,
    }
}

/// The values of the two names of a tuple assignment `(l, r) = expr`: the
/// left and right parts of a `split(...)`; an error for any other value.
pub fn tuple_assignment_parts(expr: &Expr) -> (r: Result<(Expr, Expr), CompilerError>)
    ensures
        match split_halves(expr@) {
            Some((left, right)) => r matches Ok((a, b)) && a@ == left && b@ == right,
            None => r matches Err(CompilerError::Unsupported(m)) && m@ == "tuple assignment only supports split()"@,
        },
{
    match &expr.kind {
        ExprKind::Split { source, index, .. } => {
            let left = Expr::new(
                ExprKind::Split { source: Box::new(clone_expr(source)), index: Box::new(clone_expr(index)), part: SplitPart::Left },
                Span::empty(),
            );
            let right = Expr::new(
                ExprKind::Split { source: Box::new(clone_expr(source)), index: Box::new(clone_expr(index)), part: SplitPart::Right },
                Span::empty(),
            );
            Ok((left, right))
        },
        _ => Err(CompilerError::Unsupported(String::from_str("tuple assignment only supports split()"))),
    }
}

/// A `console` statement compiles to nothing and binds no local.
pub fn compile_console_statement() -> (r: Result<Vec<String>, CompilerError>)
    ensures
        r matches Ok(v) && v@.len() == 0,
{
    Ok(Vec::new())
}

/// A function call assignment must have been inlined before code is
/// generated; meeting one is an error that names the function.
pub fn compile_function_call_assign_statement(name: &str) -> (r: Result<Vec<String>, CompilerError>)
    ensures
        r matches Err(CompilerError::Unsupported(m)) && m@
            == "inline lowering must eliminate function call assignments before compilation, found '"@ + name@ + "()'"@,
{
    let mut m = String::from_str("inline lowering must eliminate function call assignments before compilation, found '");
    m.append(name);
    m.append("()'");
    Err(CompilerError::Unsupported(m))
}

/// The value a variable definition starts with: its initializer; for an
/// array without one, an empty array literal; for any other type without
/// one, an error.
pub fn variable_definition_initializer(type_ref: &TypeRef, expr: Option<&Expr>) -> (r: Result<Expr, CompilerError>)
    ensures
        match expr {
            Some(e) => r matches Ok(x) && x@ == e@,
            None => if type_ref@.array_dims.len() > 0 {
                r matches Ok(x) && x@ == (ExprV { kind: ExprKindV::Array(Seq::empty()), span: Span { start: 0, end: 0 } })
            } else {
                r matches Err(CompilerError::Unsupported(m)) && m@ == "variable definition requires initializer"@
            },
        },
{
    match expr {
        Some(e) => Ok(clone_expr(e)),
        None => if type_ref.array_dims.len() > 0 {
            let x = Expr::new(ExprKind::Array(Vec::new()), Span::empty());
            assert(x@.kind == ExprKindV::Array(Seq::<ExprV>::empty())) by {
                assert(crate::ast::exprs_view(Seq::<Expr>::empty()) =~= Seq::<ExprV>::empty());
            }
            Ok(x)
        } else {
            Err(CompilerError::Unsupported(String::from_str("variable definition requires initializer")))
        },
    }
}

/// A stack variable may be defined only under a name that is not bound on
/// the stack yet.
pub fn check_new_stack_variable(stack_bindings: &StackBindings, name: &str) -> (r: Result<(), CompilerError>)
    requires
        stack_bindings.wf(),
    ensures
        if stack_bindings@.contains_key(name@) {
            r matches Err(CompilerError::Unsupported(m)) && m@ == "variable '"@ + name@ + "' is already defined"@
        } else {
            r is Ok
        },
{
    if stack_bindings.contains(name) {
        let mut m = String::from_str("variable '");
        m.append(name);
        m.append("' is already defined");
        return Err(CompilerError::Unsupported(m));
    }
    Ok(())
}

/// The declared type an assignment `name = expr` compiles its value
/// against: the name must be in scope and bound on the stack.
pub fn assign_statement_type(types: &TypeMap, stack_bindings: &StackBindings, name: &str) -> (r: Result<TypeRef, CompilerError>)
    requires
        stack_bindings.wf(),
    ensures
        if !types@.contains_key(name@) {
            r matches Err(CompilerError::UndefinedIdentifier(n)) && n@ == name@
        } else if !stack_bindings@.contains_key(name@) {
            r matches Err(CompilerError::Unsupported(m)) && m@ == "assigned variable '"@ + name@
                + "' must be stack-bound before reassignment"@
        } else {
            r matches Ok(t) && t@ == types@[name@]
        },
{
    match types.get(name) {
        Some(t) => {
            if !stack_bindings.contains(name) {
                let mut m = String::from_str("assigned variable '");
                m.append(name);
                m.append("' must be stack-bound before reassignment");
                return Err(CompilerError::Unsupported(m));
            }
            Ok(t)
        },
        None => Err(CompilerError::UndefinedIdentifier(String::from_str(name))),
    }
}

/// The inner output-state validation a function call statement stands for.
#[derive(Debug, PartialEq, Eq, Structural)]
pub enum InnerValidation {
    OutputState,
    OutputStateWithTemplate,
}

/// Which inner validation a function call statement compiles to; any other
/// call must have been inlined before code is generated.
pub fn function_call_statement_target(name: &str) -> (r: Result<InnerValidation, CompilerError>)
    ensures
        if name@ == VALIDATE_OUTPUT_STATE_INNER@ {
            r matches Ok(InnerValidation::OutputState)
        } else if name@ == VALIDATE_OUTPUT_STATE_WITH_TEMPLATE_INNER@ {
            r matches Ok(InnerValidation::OutputStateWithTemplate)
        } else {
            r matches Err(CompilerError::Unsupported(m)) && m@
                == "inline lowering must eliminate internal function calls before compilation, found '"@ + name@ + "()'"@
        },
{
    let n = String::from_str(name);
    if n == String::from_str(VALIDATE_OUTPUT_STATE_INNER) {
        return Ok(InnerValidation::OutputState);
    }
    if n == String::from_str(VALIDATE_OUTPUT_STATE_WITH_TEMPLATE_INNER) {
        return Ok(InnerValidation::OutputStateWithTemplate);
    }
    let mut m = String::from_str("inline lowering must eliminate internal function calls before compilation, found '");
    m.append(name);
    m.append("()'");
    Err(CompilerError::Unsupported(m))
}

/// A state destructuring assignment compiles only from `readInputState` or
/// `readInputStateWithTemplate`.
pub fn check_state_function_call_assign_name(name: &str) -> (r: Result<(), CompilerError>)
    ensures
        if name@ == "readInputState"@ || name@ == "readInputStateWithTemplate"@ {
            r is Ok
        } else {
            r matches Err(CompilerError::Unsupported(m)) && m@
                == "state destructuring assignment is only supported for readInputState()/readInputStateWithTemplate(), got '"@
                + name@ + "()'"@
        },
{
    let n = String::from_str(name);
    if n == String::from_str("readInputState") || n == String::from_str("readInputStateWithTemplate") {
        return Ok(());
    }
    let mut m = String::from_str(
        "state destructuring assignment is only supported for readInputState()/readInputStateWithTemplate(), got '",
    );
    m.append(name);
    m.append("()'");
    Err(CompilerError::Unsupported(m))
}


/// Ends a block: the locals it added leave the stack, dropped from the top
/// down (see `StackBindings::emit_drop_bindings`), and then leave the
/// scope. Where the builder refuses a step, the script keeps the steps
/// before it and the stack model and the scope are left as they were.
pub fn close_block_scope(
    stack_bindings: &mut StackBindings,
    types: &mut TypeMap,
    added: &Vec<String>,
    builder: &mut ScriptBuilder,
) -> (r: Result<(), CompilerError>)
    requires
        old(stack_bindings).wf(),
    ensures
        final(stack_bindings).wf(),
        ({
            let plan = drop_plan(old(stack_bindings)@, old(stack_bindings).order(), views(added@));
            &&& r is Ok <==> steps_fit(builder_script(*old(builder)).len() as int, plan)
            &&& r is Ok ==> builder_script(*final(builder)) == builder_script(*old(builder)) + steps_bytes(plan)
            &&& r is Ok ==> final(stack_bindings)@ == drop_model(
                old(stack_bindings)@,
                old(stack_bindings).order(),
                views(added@),
            )
            &&& r is Ok ==> final(types)@ == old(types)@.remove_keys(views(added@).to_set())
            &&& r is Err ==> final(stack_bindings)@ == old(stack_bindings)@ && final(types)@ == old(types)@
            &&& r is Err ==> exists|k: int| 0 <= k < plan.len() && builder_script(*final(builder))
                == builder_script(*old(builder)) + steps_bytes(plan.take(k))
        }),
{
    if added.len() == 0 {
        proof {
            crate::stack_bindings::lemma_drop_nothing(stack_bindings@, stack_bindings.order(), views(added@));
        }
        assert(types@.remove_keys(views(added@).to_set()) =~= types@);
        return Ok(());
    }
    match stack_bindings.emit_drop_bindings(added.as_slice(), builder) {
        Err(e) => return Err(e),
        Ok(()) => {},
    }
    let ghost t0 = types@;
    let mut i: usize = 0;
    assert(t0.remove_keys(views(added@).take(0).to_set()) =~= t0);
    while i < added.len()
        invariant
            i <= added@.len(),
            types@ == t0.remove_keys(views(added@).take(i as int).to_set()),
        decreases added@.len() - i,
    {
        types.remove(added[i].as_str());
        assert(views(added@).take(i + 1) =~= views(added@).take(i as int).push(added@[i as int]@));
        proof {
            views(added@).take(i as int).lemma_push_to_set_commute(added@[i as int]@);
        }
        assert(types@ =~= t0.remove_keys(views(added@).take(i + 1).to_set()));
        i = i + 1;
    }
    assert(views(added@).take(added@.len() as int) =~= views(added@));
    Ok(())
}

} // verus!
