//! Script steps as the compiler plans them, what they do to the script
//! engine's stacks, and how they are written into a script builder.
use vstd::prelude::*;
use kaspa_txscript::script_builder::ScriptBuilder;
use crate::error::CompilerError;
use crate::opcodes::{OP_DROP, OP_FROM_ALT_STACK, OP_PICK, OP_ROLL, OP_TO_ALT_STACK, OP_TRUE};
use crate::script::{builder_add_i64, builder_add_op, builder_script, i64_push_bytes, MAX_SCRIPTS_SIZE};
use crate::stack_order::local_effect;

verus! {

/// One planned script step: push a number, or run an opcode.
#[derive(Debug, Clone, Copy, PartialEq, Eq)]
pub enum ScriptStep {
    Push(i64),
    Op(u8),
}

/// An item on the engine's stack: a value the compiler tracks (identified
/// by `A`), or a number that the script pushed.
pub enum Item<A> {
    Value(A),
    Num(i64),
}

/// The bytes a step adds to a script.
pub open spec fn step_bytes(step: ScriptStep) -> Seq<u8> {
    match step {
        ScriptStep::Push(v) => i64_push_bytes(v),
        ScriptStep::Op(op) => seq![op],
    }
}

/// The bytes a sequence of steps adds to a script.
pub open spec fn steps_bytes(steps: Seq<ScriptStep>) -> Seq<u8>
    decreases steps.len(),
{
    if steps.len() == 0 {
        Seq::empty()
    } else {
        steps_bytes(steps.drop_last()) + step_bytes(steps.last())
    }
}

/// The builder accepts all of `steps` after a script of `len` bytes: the
/// script stays within `MAX_SCRIPTS_SIZE` and no step pushes `i64::MIN`.
pub open spec fn steps_fit(len: int, steps: Seq<ScriptStep>) -> bool {
    steps.len() > 0 ==> steps_fit_nonempty(len, steps)
}

/// The bounds that `steps_fit` checks once there is a step.
pub open spec fn steps_fit_nonempty(len: int, steps: Seq<ScriptStep>) -> bool {
    &&& len + steps_bytes(steps).len() <= MAX_SCRIPTS_SIZE
    &&& forall|i: int| 0 <= i < steps.len() ==> steps[i] != ScriptStep::Push(i64::MIN)
}

/// What one step does to the main and alternate stacks (both listed top
/// first); `None` where the engine would fail.
///
/// `OP_TRUE` pushes the number 1; `OP_DROP` removes the top item; `OP_ROLL`
/// and `OP_PICK` take a number `n`
/// off the top and then move (`ROLL`) or copy (`PICK`) the item `n` deep to
/// the top; `OP_TOALTSTACK` and `OP_FROMALTSTACK` move the top item between
/// the stacks; the local operations act as `local_effect` says.
pub open spec fn run_step<A>(main: Seq<Item<A>>, alt: Seq<Item<A>>, step: ScriptStep) -> Option<(Seq<Item<A>>, Seq<Item<A>>)> {
    match step {
        ScriptStep::Push(v) => Some((seq![Item::Num(v)] + main, alt)),
        ScriptStep::Op(op) => {
            if op == OP_TRUE {
                Some((seq![Item::Num(1)] + main, alt))
            } else if op == OP_DROP {
                if main.len() >= 1 { Some((main.drop_first(), alt)) } else { None }
            } else if op == OP_ROLL || op == OP_PICK {
                if main.len() >= 1 && main[0] is Num {
                    let n = main[0]->Num_0 as int;
                    let rest = main.drop_first();
                    if 0 <= n < rest.len() {
                        if op == OP_ROLL {
                            Some((seq![rest[n]] + rest.remove(n), alt))
                        } else {
                            Some((seq![rest[n]] + rest, alt))
                        }
                    } else {
                        None
                    }
                } else {
                    None
                }
            } else if op == OP_TO_ALT_STACK {
                if main.len() >= 1 { Some((main.drop_first(), seq![main[0]] + alt)) } else { None }
            } else if op == OP_FROM_ALT_STACK {
                if alt.len() >= 1 { Some((seq![alt[0]] + main, alt.drop_first())) } else { None }
            } else {
                match local_effect(main, op) {
                    Some(t) => Some((t, alt)),
                    None => None,
                }
            }
        },
    }
}

/// Running steps one after another.
pub open spec fn run_steps<A>(main: Seq<Item<A>>, alt: Seq<Item<A>>, steps: Seq<ScriptStep>) -> Option<(Seq<Item<A>>, Seq<Item<A>>)>
    decreases steps.len(),
{
    if steps.len() == 0 {
        Some((main, alt))
    } else {
        match run_step(main, alt, steps[0]) {
            Some((m, a)) => run_steps(m, a, steps.drop_first()),
            None => None,
        }
    }
}

/// Running `a + b` is running `a`, then `b`.
pub proof fn lemma_run_steps_append<A>(main: Seq<Item<A>>, alt: Seq<Item<A>>, a: Seq<ScriptStep>, b: Seq<ScriptStep>)
    ensures
        run_steps(main, alt, a + b) == match run_steps(main, alt, a) {
            Some((m, x)) => run_steps(m, x, b),
            None => None,
        },
    decreases a.len(),
{
    if a.len() == 0 {
        assert(a + b =~= b);
    } else {
        assert((a + b)[0] == a[0]);
        assert((a + b).drop_first() =~= a.drop_first() + b);
        match run_step(main, alt, a[0]) {
            Some((m, x)) => lemma_run_steps_append(m, x, a.drop_first(), b),
            None => {},
        }
    }
}

/// The bytes of `a + b` are those of `a`, then those of `b`.
pub proof fn lemma_steps_bytes_append(a: Seq<ScriptStep>, b: Seq<ScriptStep>)
    ensures
        steps_bytes(a + b) == steps_bytes(a) + steps_bytes(b),
    decreases b.len(),
{
    if b.len() == 0 {
        assert(a + b =~= a);
        assert(steps_bytes(a) + steps_bytes(b) =~= steps_bytes(a));
    } else {
        assert((a + b).drop_last() =~= a + b.drop_last());
        assert((a + b).last() == b.last());
        lemma_steps_bytes_append(a, b.drop_last());
        assert(steps_bytes(a + b) =~= steps_bytes(a) + steps_bytes(b));
    }
}

/// Writes the steps into the builder, one after another, stopping at the
/// first one the builder refuses.
pub fn emit_steps(builder: &mut ScriptBuilder, steps: &Vec<ScriptStep>) -> (r: Result<(), CompilerError>)
    ensures
        r is Ok <==> steps_fit(builder_script(*old(builder)).len() as int, steps@),
        r is Ok ==> builder_script(*final(builder)) == builder_script(*old(builder)) + steps_bytes(steps@),
        r is Err ==> exists|k: int| 0 <= k < steps@.len()
            && builder_script(*final(builder)) == builder_script(*old(builder)) + steps_bytes(steps@.take(k)),
        r matches Err(e) ==> e is ScriptBuilder,
{
    let ghost start = builder_script(*builder);
    assert(start == builder_script(*old(builder)));
    let mut i: usize = 0;
    assert(steps@.take(0) =~= Seq::<ScriptStep>::empty());
    while i < steps.len()
        invariant
            i <= steps@.len(),
            start == builder_script(*old(builder)),
            builder_script(*builder) == start + steps_bytes(steps@.take(i as int)),
            i > 0 ==> start.len() + steps_bytes(steps@.take(i as int)).len() <= MAX_SCRIPTS_SIZE,
            forall|j: int| 0 <= j < i ==> steps@[j] != ScriptStep::Push(i64::MIN),
        decreases steps@.len() - i,
    {
        let ghost before = builder_script(*builder);
        let step = steps[i];
        let res = match step {
            ScriptStep::Push(v) => builder_add_i64(builder, v),
            ScriptStep::Op(op) => builder_add_op(builder, op),
        };
        proof {
            assert(steps@.take(i + 1).drop_last() =~= steps@.take(i as int));
            assert(steps@.take(i + 1).last() == step);
        }
        match res {
            Ok(()) => {},
            Err(e) => {
                proof {
                    lemma_steps_bytes_append(steps@.take(i + 1), steps@.skip(i + 1));
                    assert(steps@.take(i + 1) + steps@.skip(i + 1) =~= steps@);
                    assert(steps_bytes(steps@.take(i + 1)) == steps_bytes(steps@.take(i as int)) + step_bytes(step));
                    assert(steps_bytes(steps@).len() >= steps_bytes(steps@.take(i + 1)).len());
                    if step == ScriptStep::Push(i64::MIN) {
                        assert(steps@[i as int] == ScriptStep::Push(i64::MIN));
                    } else {
                        assert(before.len() + step_bytes(step).len() > MAX_SCRIPTS_SIZE);
                        assert(!steps_fit(start.len() as int, steps@));
                    }
                    assert(builder_script(*builder) == start + steps_bytes(steps@.take(i as int)));
                    assert(0 <= i < steps@.len() && builder_script(*builder) == builder_script(*old(builder)) + steps_bytes(steps@.take(i as int)));
                }
                return Err(CompilerError::ScriptBuilder(e));
            },
        }
        i = i + 1;
    }
    assert(steps@.take(steps@.len() as int) =~= steps@);
    Ok(())
}

} // verus!
