//! Dense layouts: the bound names sit at depths `0, 1, ..., n - 1`, each
//! depth taken once. Pushing a binding, rebinding one and dropping some keep
//! a layout dense; dropping keeps the order of the other bindings; and a
//! drop plan drops each name from its old depth less the number of names
//! dropped before it.
use vstd::prelude::*;
use crate::stack_bindings::{after_drop, drop_model, drop_plan, drop_step, index_map, is_order_of, rebound, StackBindings};
use crate::stack_laws::{depths_distinct, lemma_drop_keeps_survivor_order};
use crate::stack_machine::ScriptStep;

verus! {

/// Some binding sits at depth `d`.
pub open spec fn depth_taken(m: Map<Seq<char>, i64>, d: int) -> bool {
    exists|k: Seq<char>| m.contains_key(k) && m[k] == d
}

/// The depths are exactly `0, 1, ..., n - 1` for `n` bindings, each once.
pub open spec fn dense(m: Map<Seq<char>, i64>) -> bool {
    &&& m.dom().finite()
    &&& depths_distinct(m)
    &&& forall|k: Seq<char>| #[trigger] m.contains_key(k) ==> 0 <= m[k] < m.dom().len()
    &&& forall|d: int| 0 <= d < m.dom().len() ==> #[trigger] depth_taken(m, d)
}

/// Dropping one binding of a dense layout leaves a dense layout of the
/// other bindings.
pub proof fn lemma_after_drop_dense(m: Map<Seq<char>, i64>, k: Seq<char>)
    requires
        dense(m),
        m.contains_key(k),
    ensures
        dense(after_drop(m, k)),
        after_drop(m, k).dom() == m.dom().remove(k),
{
    let n = after_drop(m, k);
    assert(n.dom() =~= m.dom().remove(k));
    assert(n.dom().len() == m.dom().len() - 1);
    assert forall|a: Seq<char>, b: Seq<char>| #[trigger] n.contains_key(a) && #[trigger] n.contains_key(b) && a != b
        implies n[a] != n[b] by {
        assert(m[a] != m[b]);
        assert(m[a] != m[k]);
        assert(m[b] != m[k]);
    }
    assert forall|x: Seq<char>| #[trigger] n.contains_key(x) implies 0 <= n[x] < n.dom().len() by {
        assert(m[x] != m[k]);
    }
    assert forall|d: int| 0 <= d < n.dom().len() implies #[trigger] depth_taken(n, d) by {
        if d < m[k] {
            assert(depth_taken(m, d));
            let w = choose|w: Seq<char>| m.contains_key(w) && m[w] == d;
            assert(n.contains_key(w) && n[w] == d);
        } else {
            assert(depth_taken(m, d + 1));
            let w = choose|w: Seq<char>| m.contains_key(w) && m[w] == d + 1;
            assert(n.contains_key(w) && n[w] == d);
        }
    }
}

/// Dropping, in the order of `order`, the names that `names` holds keeps a
/// dense layout dense.
pub proof fn lemma_drop_model_dense(m: Map<Seq<char>, i64>, order: Seq<Seq<char>>, names: Seq<Seq<char>>)
    requires
        dense(m),
        order.no_duplicates(),
        forall|i: int| 0 <= i < order.len() ==> m.contains_key(#[trigger] order[i]),
    ensures
        dense(drop_model(m, order, names)),
    decreases order.len(),
{
    if order.len() > 0 {
        let o = order.drop_last();
        let l = order.last();
        assert(o.no_duplicates()) by {
            assert forall|a: int, b: int| 0 <= a < b < o.len() implies o[a] != o[b] by {
                assert(order[a] != order[b]);
            }
        }
        assert forall|i: int| 0 <= i < o.len() implies m.contains_key(#[trigger] o[i]) by {
            assert(o[i] == order[i]);
        }
        lemma_drop_model_dense(m, o, names);
        if names.contains(l) {
            lemma_drop_keeps_survivor_order(m, o, names);
            assert(!o.contains(l)) by {
                if o.contains(l) {
                    let j = choose|j: int| 0 <= j < o.len() && o[j] == l;
                    assert(order[j] == order[order.len() - 1]);
                }
            }
            assert(m.contains_key(order[order.len() - 1]));
            lemma_after_drop_dense(drop_model(m, o, names), l);
        }
    }
}

/// Dropping bindings from a dense model, as `emit_drop_bindings` does,
/// leaves a dense model of exactly the bindings not named, in the same
/// order: a binding above another stays above it.
pub proof fn lemma_drop_bindings_keep_dense(b: StackBindings, names: Seq<Seq<char>>)
    requires
        b.wf(),
        dense(b@),
    ensures
        dense(drop_model(b@, b.order(), names)),
        forall|x: Seq<char>| #[trigger] drop_model(b@, b.order(), names).contains_key(x) <==> (b@.contains_key(x)
            && !names.contains(x)),
        forall|x: Seq<char>, y: Seq<char>| #[trigger] drop_model(b@, b.order(), names).contains_key(x)
            && #[trigger] drop_model(b@, b.order(), names).contains_key(y) && b@[x] < b@[y] ==> drop_model(
            b@,
            b.order(),
            names,
        )[x] < drop_model(b@, b.order(), names)[y],
{
    b.lemma_order();
    lemma_drop_model_dense(b@, b.order(), names);
    lemma_drop_keeps_survivor_order(b@, b.order(), names);
}

/// How many names of `o` the list `names` holds.
pub open spec fn count_named(o: Seq<Seq<char>>, names: Seq<Seq<char>>) -> int
    decreases o.len(),
{
    if o.len() == 0 {
        0
    } else {
        count_named(o.drop_last(), names) + if names.contains(o.last()) {
            1int
        } else {
            0int
        }
    }
}

/// The drop plan with each depth given by the layout before any drop: the
/// name is dropped from its old depth less the number of names dropped
/// before it.
pub open spec fn closed_drop_plan(m: Map<Seq<char>, i64>, order: Seq<Seq<char>>, names: Seq<Seq<char>>) -> Seq<ScriptStep>
    decreases order.len(),
{
    if order.len() == 0 {
        Seq::empty()
    } else {
        let o = order.drop_last();
        closed_drop_plan(m, o, names) + if names.contains(order.last()) {
            drop_step((m[order.last()] - count_named(o, names)) as i64)
        } else {
            Seq::empty()
        }
    }
}

/// The names of `o` lie strictly shallower than one another in order.
pub open spec fn strictly_sorted(m: Map<Seq<char>, i64>, o: Seq<Seq<char>>) -> bool {
    forall|i: int, j: int| 0 <= i < j < o.len() ==> m[#[trigger] o[i]] < m[#[trigger] o[j]]
}

/// A binding deeper than every name of `o`, and not among them, is still
/// bound after the drops, its depth less the number of names dropped.
proof fn lemma_deeper_binding_after_drops(m: Map<Seq<char>, i64>, o: Seq<Seq<char>>, names: Seq<Seq<char>>, x: Seq<char>)
    requires
        strictly_sorted(m, o),
        forall|i: int| 0 <= i < o.len() ==> m.contains_key(#[trigger] o[i]),
        m.contains_key(x),
        forall|i: int| 0 <= i < o.len() ==> m[#[trigger] o[i]] < m[x],
    ensures
        drop_model(m, o, names).contains_key(x),
        drop_model(m, o, names)[x] == m[x] - count_named(o, names),
    decreases o.len(),
{
    if o.len() > 0 {
        let p = o.drop_last();
        let l = o.last();
        assert forall|i: int, j: int| 0 <= i < j < p.len() implies m[#[trigger] p[i]] < m[#[trigger] p[j]] by {
            assert(p[i] == o[i] && p[j] == o[j]);
        }
        assert forall|i: int| 0 <= i < p.len() implies m.contains_key(#[trigger] p[i]) && m[p[i]] < m[x] by {
            assert(p[i] == o[i]);
        }
        lemma_deeper_binding_after_drops(m, p, names, x);
        if names.contains(l) {
            assert(m.contains_key(o[o.len() - 1]));
            assert forall|i: int| 0 <= i < p.len() implies m[#[trigger] p[i]] < m[l] by {
                assert(p[i] == o[i]);
                assert(m[o[i]] < m[o[o.len() - 1]]);
            }
            lemma_deeper_binding_after_drops(m, p, names, l);
            assert(m[o[o.len() - 1]] < m[x]);
        }
    }
}

/// Along a strictly sorted order, the drop plan drops each name from its
/// old depth less the number of names dropped before it.
pub proof fn lemma_drop_plan_closed(m: Map<Seq<char>, i64>, order: Seq<Seq<char>>, names: Seq<Seq<char>>)
    requires
        strictly_sorted(m, order),
        forall|i: int| 0 <= i < order.len() ==> m.contains_key(#[trigger] order[i]),
    ensures
        drop_plan(m, order, names) == closed_drop_plan(m, order, names),
    decreases order.len(),
{
    if order.len() > 0 {
        let o = order.drop_last();
        let l = order.last();
        assert forall|i: int, j: int| 0 <= i < j < o.len() implies m[#[trigger] o[i]] < m[#[trigger] o[j]] by {
            assert(o[i] == order[i] && o[j] == order[j]);
        }
        assert forall|i: int| 0 <= i < o.len() implies m.contains_key(#[trigger] o[i]) && m[o[i]] < m[l] by {
            assert(o[i] == order[i]);
            assert(m[order[i]] < m[order[order.len() - 1]]);
        }
        lemma_drop_plan_closed(m, o, names);
        assert(m.contains_key(order[order.len() - 1]));
        lemma_deeper_binding_after_drops(m, o, names, l);
        if !names.contains(l) {
            assert(closed_drop_plan(m, order, names) =~= closed_drop_plan(m, o, names));
        }
    }
}

/// For a dense model, the steps `emit_drop_bindings` writes drop each named
/// binding, top first, from its old depth less the number of named
/// bindings dropped before it.
pub proof fn lemma_drop_bindings_closed_plan(b: StackBindings, names: Seq<Seq<char>>)
    requires
        b.wf(),
        dense(b@),
    ensures
        drop_plan(b@, b.order(), names) == closed_drop_plan(b@, b.order(), names),
{
    b.lemma_order();
    let o = b.order();
    assert forall|i: int, j: int| 0 <= i < j < o.len() implies b@[#[trigger] o[i]] < b@[#[trigger] o[j]] by {
        assert(b@[o[i]] <= b@[o[j]]);
        assert(o[i] != o[j]);
    }
    lemma_drop_plan_closed(b@, o, names);
}

/// Pushing a new name onto a dense model, as `push_binding` does, keeps it
/// dense, one binding larger, with every depth below `i64::MAX` before the
/// push as long as the bindings number fewer than `i64::MAX`.
pub proof fn lemma_push_keeps_dense(m: Map<Seq<char>, i64>, name: Seq<char>)
    requires
        dense(m),
        !m.contains_key(name),
        m.dom().len() < i64::MAX,
    ensures
        forall|k: Seq<char>| m.contains_key(k) ==> m[k] < i64::MAX,
        dense(m.map_values(|d: i64| (d + 1) as i64).insert(name, 0)),
        m.map_values(|d: i64| (d + 1) as i64).insert(name, 0).dom().len() == m.dom().len() + 1,
{
    let n = m.map_values(|d: i64| (d + 1) as i64).insert(name, 0);
    assert(n.dom() =~= m.dom().insert(name));
    assert forall|a: Seq<char>, b: Seq<char>| #[trigger] n.contains_key(a) && #[trigger] n.contains_key(b) && a != b
        implies n[a] != n[b] by {
        if a != name && b != name {
            assert(m[a] != m[b]);
        }
    }
    assert forall|d: int| 0 <= d < n.dom().len() implies #[trigger] depth_taken(n, d) by {
        if d == 0 {
            assert(n.contains_key(name) && n[name] == 0);
        } else {
            assert(depth_taken(m, d - 1));
            let w = choose|w: Seq<char>| m.contains_key(w) && m[w] == d - 1;
            assert(n.contains_key(w) && n[w] == d);
        }
    }
}

/// Rebinding a name of a dense model, as `emit_update_stack_for_rebinding`
/// does, keeps it dense over the same names.
pub proof fn lemma_rebinding_keeps_dense(m: Map<Seq<char>, i64>, name: Seq<char>)
    requires
        dense(m),
        m.contains_key(name),
    ensures
        dense(rebound(m, name, m[name])),
        rebound(m, name, m[name]).dom() == m.dom(),
{
    let d = m[name];
    let n = rebound(m, name, d);
    assert(n.dom() =~= m.dom());
    assert forall|a: Seq<char>, b: Seq<char>| #[trigger] n.contains_key(a) && #[trigger] n.contains_key(b) && a != b
        implies n[a] != n[b] by {
        assert(m[a] != m[b]);
        assert(a != name ==> m[a] != d);
        assert(b != name ==> m[b] != d);
    }
    assert forall|x: Seq<char>| #[trigger] n.contains_key(x) implies 0 <= n[x] < n.dom().len() by {
        assert(x != name ==> m[x] != d);
    }
    assert forall|e: int| 0 <= e < n.dom().len() implies #[trigger] depth_taken(n, e) by {
        if e == 0 {
            assert(n.contains_key(name) && n[name] == 0);
        } else if e <= d {
            assert(depth_taken(m, e - 1));
            let w = choose|w: Seq<char>| m.contains_key(w) && m[w] == e - 1;
            assert(w != name);
            assert(n.contains_key(w) && n[w] == e);
        } else {
            assert(depth_taken(m, e));
            let w = choose|w: Seq<char>| m.contains_key(w) && m[w] == e;
            assert(w != name);
            assert(n.contains_key(w) && n[w] == e);
        }
    }
}


/// `o` without the names that `names` holds, in the same order.
pub open spec fn without(o: Seq<Seq<char>>, names: Seq<Seq<char>>) -> Seq<Seq<char>>
    decreases o.len(),
{
    if o.len() == 0 {
        Seq::empty()
    } else {
        let w = without(o.drop_last(), names);
        if names.contains(o.last()) {
            w
        } else {
            w.push(o.last())
        }
    }
}

proof fn lemma_without(o: Seq<Seq<char>>, names: Seq<Seq<char>>, m: Map<Seq<char>, i64>)
    requires
        o.no_duplicates(),
        strictly_sorted(m, o),
    ensures
        forall|x: Seq<char>| #[trigger] without(o, names).contains(x) <==> (o.contains(x) && !names.contains(x)),
        without(o, names).no_duplicates(),
        strictly_sorted(m, without(o, names)),
    decreases o.len(),
{
    if o.len() > 0 {
        let p = o.drop_last();
        let l = o.last();
        assert(p.no_duplicates()) by {
            assert forall|a: int, b: int| 0 <= a < b < p.len() implies p[a] != p[b] by {
                assert(o[a] != o[b]);
            }
        }
        assert forall|i: int, j: int| 0 <= i < j < p.len() implies m[#[trigger] p[i]] < m[#[trigger] p[j]] by {
            assert(p[i] == o[i] && p[j] == o[j]);
        }
        lemma_without(p, names, m);
        let w = without(p, names);
        assert forall|x: Seq<char>| o.contains(x) <==> (p.contains(x) || x == l) by {
            if o.contains(x) {
                let j = choose|j: int| 0 <= j < o.len() && o[j] == x;
                if j < o.len() - 1 {
                    assert(p[j] == x);
                }
            }
            if p.contains(x) {
                let j = choose|j: int| 0 <= j < p.len() && p[j] == x;
                assert(o[j] == x);
            }
            if x == l {
                assert(o[o.len() - 1] == x);
            }
        }
        assert(!p.contains(l)) by {
            if p.contains(l) {
                let j = choose|j: int| 0 <= j < p.len() && p[j] == l;
                assert(o[j] == o[o.len() - 1]);
            }
        }
        if !names.contains(l) {
            let w2 = w.push(l);
            assert forall|x: Seq<char>| #[trigger] w2.contains(x) <==> (w.contains(x) || x == l) by {
                if w2.contains(x) {
                    let j = choose|j: int| 0 <= j < w2.len() && w2[j] == x;
                    if j < w.len() {
                        assert(w[j] == x);
                    }
                }
                if w.contains(x) {
                    let j = choose|j: int| 0 <= j < w.len() && w[j] == x;
                    assert(w2[j] == x);
                }
                if x == l {
                    assert(w2[w.len() as int] == x);
                }
            }
            assert forall|a: int, b: int| 0 <= a < b < w2.len() implies w2[a] != w2[b] by {
                if b < w.len() {
                    assert(w[a] != w[b]);
                } else {
                    assert(w.contains(w[a]));
                }
            }
            assert forall|i: int, j: int| 0 <= i < j < w2.len() implies m[#[trigger] w2[i]] < m[#[trigger] w2[j]] by {
                if j < w.len() {
                    assert(m[w[i]] < m[w[j]]);
                } else {
                    assert(w.contains(w[i]));
                    assert(p.contains(w[i]));
                    let k = choose|k: int| 0 <= k < p.len() && p[k] == w[i];
                    assert(o[k] == w[i]);
                    assert(m[o[k]] < m[o[o.len() - 1]]);
                }
            }
        }
    }
}

/// Two orders of the same model with distinct depths are the same.
proof fn lemma_order_unique(o1: Seq<Seq<char>>, o2: Seq<Seq<char>>, m: Map<Seq<char>, i64>)
    requires
        is_order_of(o1, m),
        is_order_of(o2, m),
        depths_distinct(m),
    ensures
        o1 == o2,
    decreases o1.len(),
{
    if o1.len() == 0 {
        if o2.len() > 0 {
            assert(m.contains_key(o2[0]));
            assert(o1.contains(o2[0]));
        }
        assert(o1 =~= o2);
    } else {
        assert(m.contains_key(o1[0]));
        assert(o2.contains(o1[0]));
        let j = choose|j: int| 0 <= j < o2.len() && o2[j] == o1[0];
        assert(m.contains_key(o2[0]));
        assert(o1.contains(o2[0]));
        let i = choose|i: int| 0 <= i < o1.len() && o1[i] == o2[0];
        assert(m[o1[0]] <= m[o1[i]]);
        assert(m[o2[0]] <= m[o2[j]]);
        assert(o1[0] == o2[0]);
        let k = o1[0];
        let m2 = m.remove(k);
        let p1 = o1.drop_first();
        let p2 = o2.drop_first();
        assert forall|a: int| 0 <= a < p1.len() implies m2.contains_key(#[trigger] p1[a]) by {
            assert(o1[a + 1] != o1[0]);
        }
        assert forall|a: int| 0 <= a < p2.len() implies m2.contains_key(#[trigger] p2[a]) by {
            assert(o2[a + 1] != o2[0]);
        }
        assert forall|x: Seq<char>| m2.contains_key(x) implies p1.contains(x) && p2.contains(x) by {
            assert(o1.contains(x));
            let a = choose|a: int| 0 <= a < o1.len() && o1[a] == x;
            assert(a != 0);
            assert(p1[a - 1] == x);
            assert(o2.contains(x));
            let b = choose|b: int| 0 <= b < o2.len() && o2[b] == x;
            assert(b != 0);
            assert(p2[b - 1] == x);
        }
        assert forall|a: int, b: int| 0 <= a <= b < p1.len() implies m2[#[trigger] p1[a]] <= m2[#[trigger] p1[b]] by {
            assert(m[o1[a + 1]] <= m[o1[b + 1]]);
        }
        assert forall|a: int, b: int| 0 <= a <= b < p2.len() implies m2[#[trigger] p2[a]] <= m2[#[trigger] p2[b]] by {
            assert(m[o2[a + 1]] <= m[o2[b + 1]]);
        }
        assert(p1.no_duplicates()) by {
            assert forall|a: int, b: int| 0 <= a < b < p1.len() implies p1[a] != p1[b] by {
                assert(o1[a + 1] != o1[b + 1]);
            }
        }
        assert(p2.no_duplicates()) by {
            assert forall|a: int, b: int| 0 <= a < b < p2.len() implies p2[a] != p2[b] by {
                assert(o2[a + 1] != o2[b + 1]);
            }
        }
        lemma_order_unique(p1, p2, m2);
        assert(o1 =~= o2) by {
            assert forall|a: int| 0 <= a < o1.len() implies o1[a] == o2[a] by {
                if a > 0 {
                    assert(o1[a] == p1[a - 1]);
                    assert(o2[a] == p2[a - 1]);
                }
            }
        }
    }
}

/// After dropping bindings from a model with distinct depths, as
/// `emit_drop_bindings` does, the bindings listed from the top down are
/// those listed before, without the names dropped, in the same order.
pub proof fn lemma_drop_bindings_order(before: StackBindings, after: StackBindings, names: Seq<Seq<char>>)
    requires
        before.wf(),
        after.wf(),
        depths_distinct(before@),
        after@ == drop_model(before@, before.order(), names),
    ensures
        after.order() == without(before.order(), names),
{
    before.lemma_order();
    after.lemma_order();
    let o = before.order();
    let m = before@;
    let n = after@;
    lemma_drop_keeps_survivor_order(m, o, names);
    assert forall|i: int, j: int| 0 <= i < j < o.len() implies m[#[trigger] o[i]] < m[#[trigger] o[j]] by {
        assert(m[o[i]] <= m[o[j]]);
        assert(o[i] != o[j]);
    }
    lemma_without(o, names, m);
    let w = without(o, names);
    assert forall|a: int| 0 <= a < w.len() implies n.contains_key(#[trigger] w[a]) by {
        assert(w.contains(w[a]));
    }
    assert forall|x: Seq<char>| n.contains_key(x) implies w.contains(x) by {
        assert(o.contains(x));
    }
    assert forall|a: int, b: int| 0 <= a <= b < w.len() implies n[#[trigger] w[a]] <= n[#[trigger] w[b]] by {
        if a < b {
            assert(m[w[a]] < m[w[b]]);
            assert(w.contains(w[a]) && w.contains(w[b]));
        }
    }
    lemma_order_unique(after.order(), w, n);
}


/// Along a strictly sorted order, depths grow at least by the distance.
proof fn lemma_sorted_gaps(m: Map<Seq<char>, i64>, o: Seq<Seq<char>>, i: int, j: int)
    requires
        strictly_sorted(m, o),
        0 <= i <= j < o.len(),
    ensures
        m[o[j]] - m[o[i]] >= j - i,
    decreases j - i,
{
    if i < j {
        lemma_sorted_gaps(m, o, i, j - 1);
        assert(m[o[j - 1]] < m[o[j]]);
    }
}

/// A dense model is the one that puts the names of its top-down order at
/// depths `0, 1, 2, ...`: each name's depth is its place in the order.
pub proof fn lemma_dense_is_index_map(b: StackBindings)
    requires
        b.wf(),
        dense(b@),
    ensures
        b@ == index_map(b.order()),
{
    b.lemma_order();
    let o = b.order();
    let m = b@;
    assert(o.to_set() =~= m.dom());
    o.unique_seq_to_set();
    let n = o.len();
    assert forall|i: int, j: int| 0 <= i < j < o.len() implies m[#[trigger] o[i]] < m[#[trigger] o[j]] by {
        assert(m[o[i]] <= m[o[j]]);
        assert(o[i] != o[j]);
    }
    assert forall|i: int| 0 <= i < n implies m[#[trigger] o[i]] == i by {
        lemma_sorted_gaps(m, o, 0, i);
        lemma_sorted_gaps(m, o, i, n - 1);
        assert(m.contains_key(o[0]) && m.contains_key(o[n - 1]));
    }
    let t = index_map(o);
    assert forall|k: Seq<char>| m.contains_key(k) <==> t.contains_key(k) by {}
    assert forall|k: Seq<char>| #[trigger] m.contains_key(k) implies m[k] == t[k] by {
        let j = o.index_of(k);
        assert(0 <= j < o.len() && o[j] == k);
        assert(m[o[j]] == j);
    }
    assert(m =~= t);
}

} // verus!
