//! The stack-binding model stays in step with the stack as `run_step`
//! models the opcodes' effects: running the steps that each operation
//! writes does to that stack what the operation does to the model.
use vstd::prelude::*;
use crate::opcodes::{OP_2_SWAP, OP_DROP, OP_FROM_ALT_STACK, OP_PICK, OP_ROLL, OP_ROT, OP_SWAP, OP_TO_ALT_STACK};
use crate::stack_bindings::{
    after_drop, copy_steps, drop_model, drop_plan, drop_step, index_map, move_steps, rebinding_steps, rebound,
    remaining_after, reorder_plan, restore_steps,
};
use crate::stack_machine::{lemma_run_steps_append, run_step, run_steps, Item, ScriptStep};
use crate::stack_order::{
    first_pair, first_single, is_subseq, keep_start, lemma_subseq_extend, local_effect, local_effects, local_op, local_plan,
    pair_works, single_works,
};

verus! {

/// The stack items for a top-first order of names.
pub open spec fn items(s: Seq<Seq<char>>) -> Seq<Item<Seq<char>>> {
    s.map_values(|k: Seq<char>| Item::Value(k))
}

/// The stack agrees with the model: each bound name's value sits at the
/// name's depth.
pub open spec fn stack_matches(main: Seq<Item<Seq<char>>>, m: Map<Seq<char>, i64>) -> bool {
    forall|k: Seq<char>| #[trigger] m.contains_key(k) ==> 0 <= m[k] < main.len() && main[m[k] as int] == Item::Value(k)
}

proof fn lemma_run_one(main: Seq<Item<Seq<char>>>, alt: Seq<Item<Seq<char>>>, s: ScriptStep)
    ensures
        run_steps(main, alt, seq![s]) == run_step(main, alt, s),
{
    assert(seq![s].drop_first() =~= Seq::<ScriptStep>::empty());
    match run_step(main, alt, s) {
        Some((m, a)) => {
            assert(run_steps(m, a, Seq::<ScriptStep>::empty()) == Some((m, a)));
        },
        None => {},
    }
}

/// Rebinding: with the new value of `name` on top of a stack that agrees
/// with the model, the rebinding steps remove the old value, and the stack
/// then agrees with the rebound model.
pub proof fn lemma_rebinding_in_step(
    m: Map<Seq<char>, i64>,
    name: Seq<char>,
    main: Seq<Item<Seq<char>>>,
    alt: Seq<Item<Seq<char>>>,
)
    requires
        stack_matches(main, m),
        m.contains_key(name),
        m[name] < i64::MAX,
    ensures
        run_steps(seq![Item::Value(name)] + main, alt, rebinding_steps(m[name]))
            == Some((seq![Item::Value(name)] + main.remove(m[name] as int), alt)),
        stack_matches(seq![Item::Value(name)] + main.remove(m[name] as int), rebound(m, name, m[name])),
{
    let d = m[name];
    let s0 = seq![Item::Value(name)] + main;
    let steps = rebinding_steps(d);
    assert(steps =~= seq![ScriptStep::Push((d + 1) as i64)] + (seq![ScriptStep::Op(OP_ROLL)] + seq![ScriptStep::Op(OP_DROP)]));
    lemma_run_steps_append(s0, alt, seq![ScriptStep::Push((d + 1) as i64)], seq![ScriptStep::Op(OP_ROLL)] + seq![ScriptStep::Op(OP_DROP)]);
    lemma_run_one(s0, alt, ScriptStep::Push((d + 1) as i64));
    let s1 = seq![Item::Num((d + 1) as i64)] + s0;
    lemma_run_steps_append(s1, alt, seq![ScriptStep::Op(OP_ROLL)], seq![ScriptStep::Op(OP_DROP)]);
    lemma_run_one(s1, alt, ScriptStep::Op(OP_ROLL));
    assert(s1.drop_first() =~= s0);
    let s2 = seq![s0[d + 1]] + s0.remove(d + 1);
    lemma_run_one(s2, alt, ScriptStep::Op(OP_DROP));
    assert(s2.drop_first() =~= seq![Item::Value(name)] + main.remove(d as int));
    let r = rebound(m, name, d);
    let s3 = seq![Item::Value(name)] + main.remove(d as int);
    assert forall|k: Seq<char>| #[trigger] r.contains_key(k) implies 0 <= r[k] < s3.len() && s3[r[k] as int] == Item::Value(k) by {
        if k != name {
            assert(m.contains_key(k));
            assert(m[k] != d);
        }
    }
}

/// Copying: with `extra` items above a stack that agrees with the model,
/// the copy steps put the value of `name` on top.
pub proof fn lemma_copy_in_step(
    m: Map<Seq<char>, i64>,
    name: Seq<char>,
    extra: Seq<Item<Seq<char>>>,
    main: Seq<Item<Seq<char>>>,
    alt: Seq<Item<Seq<char>>>,
)
    requires
        stack_matches(main, m),
        m.contains_key(name),
        m[name] + extra.len() <= i64::MAX,
    ensures
        run_steps(extra + main, alt, copy_steps((m[name] + extra.len()) as i64))
            == Some((seq![Item::Value(name)] + extra + main, alt)),
{
    let d = (m[name] + extra.len()) as i64;
    let s0 = extra + main;
    lemma_run_steps_append(s0, alt, seq![ScriptStep::Push(d)], seq![ScriptStep::Op(OP_PICK)]);
    assert(copy_steps(d) =~= seq![ScriptStep::Push(d)] + seq![ScriptStep::Op(OP_PICK)]);
    lemma_run_one(s0, alt, ScriptStep::Push(d));
    let s1 = seq![Item::Num(d)] + s0;
    lemma_run_one(s1, alt, ScriptStep::Op(OP_PICK));
    assert(s1.drop_first() =~= s0);
    assert(s0[d as int] == Item::Value(name));
    assert(seq![s0[d as int]] + s0 =~= seq![Item::Value(name)] + extra + main);
}

proof fn lemma_drop_step_in_step(m: Map<Seq<char>, i64>, k: Seq<char>, main: Seq<Item<Seq<char>>>, alt: Seq<Item<Seq<char>>>)
    requires
        stack_matches(main, m),
        m.contains_key(k),
    ensures
        run_steps(main, alt, drop_step(m[k])) == Some((main.remove(m[k] as int), alt)),
        stack_matches(main.remove(m[k] as int), after_drop(m, k)),
{
    let d = m[k];
    if d == 0 {
        lemma_run_one(main, alt, ScriptStep::Op(OP_DROP));
        assert(main.drop_first() =~= main.remove(0));
    } else {
        assert(drop_step(d) =~= seq![ScriptStep::Push(d)] + (seq![ScriptStep::Op(OP_ROLL)] + seq![ScriptStep::Op(OP_DROP)]));
        lemma_run_steps_append(main, alt, seq![ScriptStep::Push(d)], seq![ScriptStep::Op(OP_ROLL)] + seq![ScriptStep::Op(OP_DROP)]);
        lemma_run_one(main, alt, ScriptStep::Push(d));
        let s1 = seq![Item::Num(d)] + main;
        lemma_run_steps_append(s1, alt, seq![ScriptStep::Op(OP_ROLL)], seq![ScriptStep::Op(OP_DROP)]);
        lemma_run_one(s1, alt, ScriptStep::Op(OP_ROLL));
        assert(s1.drop_first() =~= main);
        let s2 = seq![main[d as int]] + main.remove(d as int);
        lemma_run_one(s2, alt, ScriptStep::Op(OP_DROP));
        assert(s2.drop_first() =~= main.remove(d as int));
    }
    let r = after_drop(m, k);
    let s3 = main.remove(d as int);
    assert forall|x: Seq<char>| #[trigger] r.contains_key(x) implies 0 <= r[x] < s3.len() && s3[r[x] as int] == Item::Value(x) by {
        assert(m.contains_key(x));
        assert(m[x] != d);
    }
}

/// Dropping bindings: on a stack that agrees with the model, the drop steps
/// run without failing and leave a stack that agrees with the model after the
/// drop; the alternate stack is not touched.
pub proof fn lemma_drop_in_step(
    m: Map<Seq<char>, i64>,
    order: Seq<Seq<char>>,
    names: Seq<Seq<char>>,
    main: Seq<Item<Seq<char>>>,
    alt: Seq<Item<Seq<char>>>,
)
    requires
        stack_matches(main, m),
        order.no_duplicates(),
        forall|i: int| 0 <= i < order.len() ==> m.contains_key(#[trigger] order[i]),
    ensures
        run_steps(main, alt, drop_plan(m, order, names)) matches Some((main2, alt2))
            && alt2 == alt && stack_matches(main2, drop_model(m, order, names)),
        forall|x: Seq<char>| #[trigger] drop_model(m, order, names).contains_key(x)
            <==> (m.contains_key(x) && !(order.contains(x) && names.contains(x))),
    decreases order.len(),
{
    if order.len() > 0 {
        let o0 = order.drop_last();
        let k = order.last();
        assert(o0.no_duplicates()) by {
            assert forall|a: int, b: int| 0 <= a < o0.len() && 0 <= b < o0.len() && a != b implies o0[a] != o0[b] by {
                assert(o0[a] == order[a] && o0[b] == order[b]);
            }
        }
        assert forall|i: int| 0 <= i < o0.len() implies m.contains_key(#[trigger] o0[i]) by {
            assert(o0[i] == order[i]);
        }
        lemma_drop_in_step(m, o0, names, main, alt);
        let m0 = drop_model(m, o0, names);
        let main1 = run_steps(main, alt, drop_plan(m, o0, names))->Some_0.0;
        assert(!o0.contains(k)) by {
            if o0.contains(k) {
                let j = choose|j: int| 0 <= j < o0.len() && o0[j] == k;
                assert(order[j] == order[order.len() - 1]);
            }
        }
        assert forall|x: Seq<char>| order.contains(x) <==> (o0.contains(x) || x == k) by {
            if order.contains(x) {
                let j = choose|j: int| 0 <= j < order.len() && order[j] == x;
                if j < order.len() - 1 {
                    assert(o0[j] == x);
                }
            }
            if o0.contains(x) {
                let j = choose|j: int| 0 <= j < o0.len() && o0[j] == x;
                assert(order[j] == x);
            }
            if x == k {
                assert(order[order.len() - 1] == x);
            }
        }
        assert(m.contains_key(order[order.len() - 1]));
        if names.contains(k) {
            assert(m0.contains_key(k));
            lemma_drop_step_in_step(m0, k, main1, alt);
            lemma_run_steps_append(main, alt, drop_plan(m, o0, names), drop_step(m0[k]));
        }
    }
}


/// A local operation does to the stack items what it does to the names, and
/// leaves the items below them alone.
proof fn lemma_local_effect_lift(s: Seq<Seq<char>>, r: Seq<Item<Seq<char>>>, op: u8)
    requires
        local_effect(s, op) is Some,
    ensures
        local_effect(items(s) + r, op) == Some(items(local_effect(s, op)->Some_0) + r),
{
    let x = items(s) + r;
    let t = local_effect(s, op)->Some_0;
    if op == OP_SWAP {
        assert(seq![x[1], x[0]] + x.skip(2) =~= items(t) + r);
    } else if op == OP_ROT {
        assert(seq![x[2], x[0], x[1]] + x.skip(3) =~= items(t) + r);
    } else if op == OP_2_SWAP {
        assert(seq![x[2], x[3], x[0], x[1]] + x.skip(4) =~= items(t) + r);
    } else {
        assert(seq![x[4], x[5], x[0], x[1], x[2], x[3]] + x.skip(6) =~= items(t) + r);
    }
}

/// Running one of the local operations is its `local_effect`.
proof fn lemma_run_local(s: Seq<Seq<char>>, r: Seq<Item<Seq<char>>>, alt: Seq<Item<Seq<char>>>, a: int)
    requires
        0 <= a < 4,
        local_effect(s, local_op(a)) is Some,
    ensures
        run_steps(items(s) + r, alt, seq![ScriptStep::Op(local_op(a))])
            == Some((items(local_effect(s, local_op(a))->Some_0) + r, alt)),
{
    lemma_local_effect_lift(s, r, local_op(a));
    lemma_run_one(items(s) + r, alt, ScriptStep::Op(local_op(a)));
}

/// Bringing `xs.len()` items back from an alternate stack that holds `xs`
/// reversed on top puts `xs` on the main stack.
proof fn lemma_restore<A>(xs: Seq<Item<A>>, main: Seq<Item<A>>, alt: Seq<Item<A>>)
    ensures
        run_steps(main, xs.reverse() + alt, restore_steps(xs.len())) == Some((xs + main, alt)),
    decreases xs.len(),
{
    if xs.len() == 0 {
        assert(xs.reverse() + alt =~= alt);
        assert(xs + main =~= main);
        assert(restore_steps(0) =~= Seq::<ScriptStep>::empty());
    } else {
        let n = xs.len();
        let x0 = xs.drop_last();
        let a1 = xs.reverse() + alt;
        assert(a1[0] == xs.last());
        assert(a1.drop_first() =~= x0.reverse() + alt);
        assert(restore_steps(n)[0] == ScriptStep::Op(OP_FROM_ALT_STACK));
        assert(restore_steps(n).drop_first() =~= restore_steps((n - 1) as nat));
        lemma_restore(x0, seq![xs.last()] + main, alt);
        assert(x0 + (seq![xs.last()] + main) =~= xs + main);
    }
}

/// A sequence is a subsequence of itself.
proof fn lemma_subseq_refl<A>(x: Seq<A>)
    ensures
        is_subseq(x, x),
    decreases x.len(),
{
    if x.len() > 0 {
        lemma_subseq_refl(x.drop_first());
    }
}

/// The items of a subsequence occur in the sequence.
proof fn lemma_subseq_contains<A>(x: Seq<A>, z: Seq<A>, e: A)
    requires
        is_subseq(x, z),
        x.contains(e),
    ensures
        z.contains(e),
    decreases z.len(),
{
    if x[0] == z[0] && is_subseq(x.drop_first(), z.drop_first()) {
        if x[0] == e {
            assert(z[0] == e);
        } else {
            let j = choose|j: int| 0 <= j < x.len() && x[j] == e;
            assert(x.drop_first()[j - 1] == e);
            lemma_subseq_contains(x.drop_first(), z.drop_first(), e);
            let q = choose|q: int| 0 <= q < z.drop_first().len() && z.drop_first()[q] == e;
            assert(z[q + 1] == e);
        }
    } else {
        lemma_subseq_contains(x, z.drop_first(), e);
        let q = choose|q: int| 0 <= q < z.drop_first().len() && z.drop_first()[q] == e;
        assert(z[q + 1] == e);
    }
}

/// Removing an item from a subsequence leaves a subsequence.
proof fn lemma_subseq_remove<A>(x: Seq<A>, z: Seq<A>, p: int)
    requires
        is_subseq(x, z),
        0 <= p < x.len(),
    ensures
        is_subseq(x.remove(p), z),
    decreases z.len(),
{
    if x[0] == z[0] && is_subseq(x.drop_first(), z.drop_first()) {
        if p == 0 {
            assert(x.remove(0) =~= x.drop_first());
            lemma_subseq_extend(x.drop_first(), z, 1, 0);
            assert(z.skip(1) =~= z.drop_first());
            assert(z.skip(0) =~= z);
        } else {
            lemma_subseq_remove(x.drop_first(), z.drop_first(), p - 1);
            let y = x.remove(p);
            assert(y[0] == x[0]);
            assert(y.drop_first() =~= x.drop_first().remove(p - 1));
        }
    } else {
        lemma_subseq_remove(x, z.drop_first(), p);
        if x.remove(p).len() > 0 {
            assert(is_subseq(x.remove(p), z));
        }
    }
}

/// Two subsequences of a sequence without repeats that hold the same items,
/// each once, are equal.
proof fn lemma_subseq_unique<A>(c: Seq<A>, x: Seq<A>, y: Seq<A>)
    requires
        c.no_duplicates(),
        x.no_duplicates(),
        y.no_duplicates(),
        is_subseq(x, c),
        is_subseq(y, c),
        forall|e: A| x.contains(e) <==> y.contains(e),
    ensures
        x == y,
    decreases c.len(),
{
    if c.len() == 0 {
        if x.len() > 0 {
            assert(!is_subseq(x, c));
        }
        if y.len() > 0 {
            assert(!is_subseq(y, c));
        }
        assert(x =~= y);
    } else {
        let c0 = c[0];
        let c1 = c.drop_first();
        assert(c1.no_duplicates());
        assert(!c1.contains(c0)) by {
            if c1.contains(c0) {
                let j = choose|j: int| 0 <= j < c1.len() && c1[j] == c0;
                assert(c[j + 1] == c[0]);
            }
        }
        if x.contains(c0) {
            // c0 leads both
            assert(x.len() > 0 && x[0] == c0 && is_subseq(x.drop_first(), c1)) by {
                if !(x[0] == c0 && is_subseq(x.drop_first(), c1)) {
                    lemma_subseq_contains(x, c1, c0);
                }
            }
            assert(y.contains(c0));
            assert(y.len() > 0 && y[0] == c0 && is_subseq(y.drop_first(), c1)) by {
                if !(y[0] == c0 && is_subseq(y.drop_first(), c1)) {
                    lemma_subseq_contains(y, c1, c0);
                }
            }
            let x1 = x.drop_first();
            let y1 = y.drop_first();
            assert forall|e: A| x1.contains(e) <==> y1.contains(e) by {
                if x1.contains(e) {
                    let j = choose|j: int| 0 <= j < x1.len() && x1[j] == e;
                    assert(x[j + 1] == e);
                    assert(e != c0);
                    assert(y.contains(e));
                    let q = choose|q: int| 0 <= q < y.len() && y[q] == e;
                    assert(q != 0);
                    assert(y1[q - 1] == e);
                }
                if y1.contains(e) {
                    let j = choose|j: int| 0 <= j < y1.len() && y1[j] == e;
                    assert(y[j + 1] == e);
                    assert(e != c0);
                    assert(x.contains(e));
                    let q = choose|q: int| 0 <= q < x.len() && x[q] == e;
                    assert(q != 0);
                    assert(x1[q - 1] == e);
                }
            }
            lemma_subseq_unique(c1, x1, y1);
            assert(x =~= seq![c0] + x1);
            assert(y =~= seq![c0] + y1);
        } else {
            assert(!y.contains(c0));
            assert(is_subseq(x, c1)) by {
                if x.len() > 0 && x[0] == c0 {
                    assert(x.contains(c0));
                }
            }
            assert(is_subseq(y, c1)) by {
                if y.len() > 0 && y[0] == c0 {
                    assert(y.contains(c0));
                }
            }
            lemma_subseq_unique(c1, x, y);
        }
    }
}

/// Moving names to the alternate stack one by one: the stack then holds the
/// other names in their order, and the alternate stack the moved ones, the
/// last moved on top.
proof fn lemma_move_steps(
    cur: Seq<Seq<char>>,
    moves: Seq<Seq<char>>,
    rest: Seq<Item<Seq<char>>>,
    alt: Seq<Item<Seq<char>>>,
)
    requires
        cur.no_duplicates(),
        moves.no_duplicates(),
        forall|i: int| 0 <= i < moves.len() ==> cur.contains(#[trigger] moves[i]),
        cur.len() < i64::MAX,
    ensures
        run_steps(items(cur) + rest, alt, move_steps(cur, moves))
            == Some((items(remaining_after(cur, moves)) + rest, items(moves).reverse() + alt)),
        remaining_after(cur, moves).no_duplicates(),
        is_subseq(remaining_after(cur, moves), cur),
        remaining_after(cur, moves).len() <= cur.len(),
        forall|e: Seq<char>| remaining_after(cur, moves).contains(e) <==> (cur.contains(e) && !moves.contains(e)),
    decreases moves.len(),
{
    if moves.len() == 0 {
        assert(items(moves).reverse() + alt =~= alt);
        lemma_subseq_refl(cur);
        assert(move_steps(cur, moves) =~= Seq::<ScriptStep>::empty());
    } else {
        let m0 = moves.drop_last();
        let mv = moves.last();
        assert(m0.no_duplicates());
        assert forall|i: int| 0 <= i < m0.len() implies cur.contains(#[trigger] m0[i]) by {
            assert(m0[i] == moves[i]);
        }
        lemma_move_steps(cur, m0, rest, alt);
        let r = remaining_after(cur, m0);
        assert(!m0.contains(mv)) by {
            if m0.contains(mv) {
                let j = choose|j: int| 0 <= j < m0.len() && m0[j] == mv;
                assert(moves[j] == moves[moves.len() - 1]);
            }
        }
        assert(cur.contains(moves[moves.len() - 1]));
        assert(r.contains(mv));
        let p = r.index_of(mv);
        assert(0 <= p < r.len() && r[p] == mv);
        let main1 = items(r) + rest;
        let alt1 = items(m0).reverse() + alt;
        let step3 = seq![ScriptStep::Push(p as i64), ScriptStep::Op(OP_ROLL), ScriptStep::Op(OP_TO_ALT_STACK)];
        lemma_run_steps_append(items(cur) + rest, alt, move_steps(cur, m0), step3);
        assert(step3 =~= seq![ScriptStep::Push(p as i64)] + (seq![ScriptStep::Op(OP_ROLL)] + seq![ScriptStep::Op(OP_TO_ALT_STACK)]));
        lemma_run_steps_append(main1, alt1, seq![ScriptStep::Push(p as i64)], seq![ScriptStep::Op(OP_ROLL)] + seq![ScriptStep::Op(OP_TO_ALT_STACK)]);
        lemma_run_one(main1, alt1, ScriptStep::Push(p as i64));
        let s1 = seq![Item::Num(p as i64)] + main1;
        lemma_run_steps_append(s1, alt1, seq![ScriptStep::Op(OP_ROLL)], seq![ScriptStep::Op(OP_TO_ALT_STACK)]);
        lemma_run_one(s1, alt1, ScriptStep::Op(OP_ROLL));
        assert(s1.drop_first() =~= main1);
        assert(main1[p] == Item::Value(mv));
        let s2 = seq![main1[p]] + main1.remove(p);
        lemma_run_one(s2, alt1, ScriptStep::Op(OP_TO_ALT_STACK));
        assert(s2.drop_first() =~= items(r.remove(p)) + rest);
        assert(seq![s2[0]] + alt1 =~= items(moves).reverse() + alt);
        lemma_subseq_remove(r, cur, p);
        assert(r.remove(p).no_duplicates()) by {
            assert forall|a: int, b: int| 0 <= a < r.remove(p).len() && 0 <= b < r.remove(p).len() && a != b
                implies r.remove(p)[a] != r.remove(p)[b] by {
                let a0 = if a < p { a } else { a + 1 };
                let b0 = if b < p { b } else { b + 1 };
                assert(r[a0] != r[b0]);
            }
        }
        assert forall|e: Seq<char>| r.remove(p).contains(e) <==> (cur.contains(e) && !moves.contains(e)) by {
            if r.remove(p).contains(e) {
                let j = choose|j: int| 0 <= j < r.remove(p).len() && r.remove(p)[j] == e;
                let j0 = if j < p { j } else { j + 1 };
                assert(r[j0] == e);
                assert(e != mv);
                if moves.contains(e) {
                    let q = choose|q: int| 0 <= q < moves.len() && moves[q] == e;
                    assert(m0[q] == e);
                }
            }
            if cur.contains(e) && !moves.contains(e) {
                assert(!m0.contains(e)) by {
                    if m0.contains(e) {
                        let q = choose|q: int| 0 <= q < m0.len() && m0[q] == e;
                        assert(moves[q] == e);
                    }
                }
                assert(r.contains(e));
                let j = choose|j: int| 0 <= j < r.len() && r[j] == e;
                assert(e != mv) by {
                    assert(moves[moves.len() - 1] == mv);
                }
                assert(j != p);
                let j1 = if j < p { j } else { j - 1 };
                assert(r.remove(p)[j1] == e);
            }
        }
    }
}

/// There is a start with the properties of `keep_start`.
proof fn lemma_keep_start_exists(cur: Seq<Seq<char>>, tgt: Seq<Seq<char>>, r: int)
    requires
        0 <= r <= tgt.len(),
        is_subseq(tgt.skip(r), cur),
    ensures
        exists|k: int| 0 <= k <= tgt.len() && is_subseq(#[trigger] tgt.skip(k), cur) && (k > 0 ==> !is_subseq(tgt.skip(k - 1), cur)),
    decreases r,
{
    if r > 0 && is_subseq(tgt.skip(r - 1), cur) {
        lemma_keep_start_exists(cur, tgt, r - 1);
    } else {
        assert(0 <= r <= tgt.len() && is_subseq(tgt.skip(r), cur) && (r > 0 ==> !is_subseq(tgt.skip(r - 1), cur)));
    }
}

/// Reordering: with the names of `cur` on top of the stack in that order,
/// running the reordering plan leaves the names of `tgt` there in that
/// order, with the items below and the alternate stack as they were.
pub proof fn lemma_reordering_in_step(
    cur: Seq<Seq<char>>,
    tgt: Seq<Seq<char>>,
    rest: Seq<Item<Seq<char>>>,
    alt: Seq<Item<Seq<char>>>,
)
    requires
        cur.no_duplicates(),
        tgt.no_duplicates(),
        cur.to_set() == tgt.to_set(),
        cur.len() < i64::MAX,
    ensures
        run_steps(items(cur) + rest, alt, reorder_plan(cur, tgt)) == Some((items(tgt) + rest, alt)),
{
    match local_plan(cur, tgt) {
        Some(ops) => {
            let plan = ops.map_values(|op: u8| ScriptStep::Op(op));
            if exists|a: int| 0 <= a < 4 && single_works(cur, tgt, a) {
                let f = first_single(cur, tgt);
                assert(plan =~= seq![ScriptStep::Op(local_op(f))]);
                lemma_run_local(cur, rest, alt, f);
            } else {
                let (a, b) = first_pair(cur, tgt);
                assert(pair_works(cur, tgt, a, b));
                assert(plan =~= seq![ScriptStep::Op(local_op(a))] + seq![ScriptStep::Op(local_op(b))]);
                let ops2 = seq![local_op(a), local_op(b)];
                assert(ops2.drop_first() =~= seq![local_op(b)]);
                assert(seq![local_op(b)].drop_first() =~= Seq::<u8>::empty());
                reveal_with_fuel(local_effects, 3);
                let mid = local_effect(cur, local_op(a))->Some_0;
                lemma_run_steps_append(items(cur) + rest, alt, seq![ScriptStep::Op(local_op(a))], seq![ScriptStep::Op(local_op(b))]);
                lemma_run_local(cur, rest, alt, a);
                lemma_run_local(mid, rest, alt, b);
            }
        },
        None => {
            let n = tgt.len() as int;
            assert(tgt.skip(n) =~= Seq::<Seq<char>>::empty());
            lemma_keep_start_exists(cur, tgt, n);
            let k = keep_start(cur, tgt);
            assert(0 <= k <= tgt.len() && is_subseq(tgt.skip(k), cur));
            let moves = tgt.take(k);
            assert(moves.no_duplicates());
            assert forall|i: int| 0 <= i < moves.len() implies cur.contains(#[trigger] moves[i]) by {
                assert(tgt.to_set().contains(tgt[i]));
            }
            lemma_move_steps(cur, moves, rest, alt);
            let r = remaining_after(cur, moves);
            let y = tgt.skip(k);
            assert(y.no_duplicates());
            assert forall|e: Seq<char>| r.contains(e) <==> y.contains(e) by {
                if y.contains(e) {
                    let j = choose|j: int| 0 <= j < y.len() && y[j] == e;
                    assert(tgt[j + k] == e);
                    assert(tgt.to_set().contains(e));
                    assert(cur.contains(e));
                    if moves.contains(e) {
                        let q = choose|q: int| 0 <= q < moves.len() && moves[q] == e;
                        assert(tgt[q] == tgt[j + k]);
                    }
                }
                if r.contains(e) {
                    assert(cur.to_set().contains(e));
                    assert(tgt.contains(e));
                    let j = choose|j: int| 0 <= j < tgt.len() && tgt[j] == e;
                    if j < k {
                        assert(moves[j] == e);
                    } else {
                        assert(y[j - k] == e);
                    }
                }
            }
            lemma_subseq_unique(cur, r, y);
            let plan = move_steps(cur, moves) + restore_steps(k as nat);
            lemma_run_steps_append(items(cur) + rest, alt, move_steps(cur, moves), restore_steps(k as nat));
            assert(items(moves).len() == k);
            lemma_restore(items(moves), items(y) + rest, alt);
            assert(items(moves) + (items(y) + rest) =~= items(tgt) + rest);
        },
    }
}

/// The stack that lists the names of `t` on top, in order, agrees with the
/// model that puts them at depths `0, 1, 2, ...`.
pub proof fn lemma_index_map_matches(t: Seq<Seq<char>>, rest: Seq<Item<Seq<char>>>)
    requires
        t.no_duplicates(),
        t.len() < i64::MAX,
    ensures
        stack_matches(items(t) + rest, index_map(t)),
{
    assert forall|k: Seq<char>| #[trigger] index_map(t).contains_key(k)
        implies 0 <= index_map(t)[k] < (items(t) + rest).len() && (items(t) + rest)[index_map(t)[k] as int] == Item::Value(k) by {
        let j = t.index_of(k);
        assert(0 <= j < t.len() && t[j] == k);
    }
}


/// No two bindings share a depth.
pub open spec fn depths_distinct(m: Map<Seq<char>, i64>) -> bool {
    forall|a: Seq<char>, b: Seq<char>| #[trigger] m.contains_key(a) && #[trigger] m.contains_key(b) && a != b ==> m[a] != m[b]
}

/// Dropping one binding keeps the other bindings' depths distinct and in
/// the same order.
proof fn lemma_after_drop_order(m: Map<Seq<char>, i64>, k: Seq<char>)
    requires
        depths_distinct(m),
        m.contains_key(k),
    ensures
        depths_distinct(after_drop(m, k)),
        forall|x: Seq<char>, y: Seq<char>| #[trigger] after_drop(m, k).contains_key(x) && #[trigger] after_drop(m, k).contains_key(y)
            && m[x] < m[y] ==> after_drop(m, k)[x] < after_drop(m, k)[y],
{
    let n = after_drop(m, k);
    assert forall|x: Seq<char>, y: Seq<char>| #[trigger] n.contains_key(x) && #[trigger] n.contains_key(y) && m[x] < m[y]
        implies n[x] < n[y] by {
        assert(m[x] != m[k]);
        assert(m[y] != m[k]);
    }
    assert forall|a: Seq<char>, b: Seq<char>| #[trigger] n.contains_key(a) && #[trigger] n.contains_key(b) && a != b
        implies n[a] != n[b] by {
        assert(m[a] != m[b]);
        assert(m[a] != m[k]);
        assert(m[b] != m[k]);
    }
}

/// Dropping named bindings removes exactly the names that `order` lists
/// and `names` holds, keeps the other bindings' depths distinct, and keeps
/// their order: a binding above another stays above it.
pub proof fn lemma_drop_keeps_survivor_order(m: Map<Seq<char>, i64>, order: Seq<Seq<char>>, names: Seq<Seq<char>>)
    requires
        depths_distinct(m),
        order.no_duplicates(),
        forall|i: int| 0 <= i < order.len() ==> m.contains_key(#[trigger] order[i]),
    ensures
        depths_distinct(drop_model(m, order, names)),
        forall|x: Seq<char>| #[trigger] drop_model(m, order, names).contains_key(x) <==> (m.contains_key(x) && !(order.contains(x)
            && names.contains(x))),
        forall|x: Seq<char>, y: Seq<char>| #[trigger] drop_model(m, order, names).contains_key(x)
            && #[trigger] drop_model(m, order, names).contains_key(y) && m[x] < m[y] ==> drop_model(m, order, names)[x]
            < drop_model(m, order, names)[y],
    decreases order.len(),
{
    if order.len() > 0 {
        let o = order.drop_last();
        let k = order.last();
        assert(o.no_duplicates()) by {
            assert forall|a: int, b: int| 0 <= a < b < o.len() implies o[a] != o[b] by {
                assert(order[a] != order[b]);
            }
        }
        lemma_drop_keeps_survivor_order(m, o, names);
        let m0 = drop_model(m, o, names);
        assert(!o.contains(k)) by {
            if o.contains(k) {
                let j = choose|j: int| 0 <= j < o.len() && o[j] == k;
                assert(order[j] == order[order.len() - 1]);
            }
        }
        assert(m.contains_key(order[order.len() - 1]));
        assert forall|x: Seq<char>| order.contains(x) <==> (o.contains(x) || x == k) by {
            if order.contains(x) {
                let j = choose|j: int| 0 <= j < order.len() && order[j] == x;
                if j < order.len() - 1 {
                    assert(o[j] == x);
                }
            }
            if o.contains(x) {
                let j = choose|j: int| 0 <= j < o.len() && o[j] == x;
                assert(order[j] == x);
            }
            if x == k {
                assert(order[order.len() - 1] == x);
            }
        }
        if names.contains(k) {
            assert(m0.contains_key(k));
            lemma_after_drop_order(m0, k);
            let n = after_drop(m0, k);
            assert forall|x: Seq<char>, y: Seq<char>| #[trigger] n.contains_key(x) && #[trigger] n.contains_key(y) && m[x] < m[y]
                implies n[x] < n[y] by {
                assert(m0.contains_key(x) && m0.contains_key(y));
                assert(m0[x] < m0[y]);
            }
        }
    }
}

} // verus!
