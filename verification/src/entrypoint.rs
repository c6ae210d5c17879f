//! The stack an entrypoint starts from and the steps that clear it at the
//! end: the parameters lie on the stack with the last one on top, the
//! contract fields are pushed above them, and at the end every binding is
//! dropped from under the returned values (or replaced by `true` where
//! nothing is returned). Also the declared types an entrypoint body starts
//! with.
use vstd::prelude::*;
use kaspa_txscript::script_builder::ScriptBuilder;
use crate::ast::{ConstantAst, ContractFieldAst, ParamAst, TypeRefV};
use crate::error::CompilerError;
use crate::opcodes::{OP_DROP, OP_ROLL, OP_TRUE};
use crate::script::builder_script;
use crate::stack_bindings::{pairs_to_map, StackBindings};
use crate::stack_machine::{emit_steps, lemma_run_steps_append, run_steps, steps_bytes, steps_fit, Item, ScriptStep};
use crate::static_check::{
    constants_layout, contract_layout, insert_constants, insert_fields, insert_params, params_layout, with_types, TypeMap,
};

verus! {

/// The parameters with their depths: the last parameter on top.
pub open spec fn param_pairs(ps: Seq<Seq<char>>) -> Seq<(Seq<char>, i64)> {
    Seq::new(ps.len(), |i: int| (ps[i], (ps.len() - 1 - i) as i64))
}

/// `m` with the pairs inserted in order, a later depth replacing an
/// earlier one of the same name.
pub open spec fn insert_pairs(m: Map<Seq<char>, i64>, s: Seq<(Seq<char>, i64)>) -> Map<Seq<char>, i64>
    decreases s.len(),
{
    if s.len() == 0 {
        m
    } else {
        insert_pairs(m, s.drop_last()).insert(s.last().0, s.last().1)
    }
}

/// `m` after the names were pushed one by one: each push moves every
/// binding one deeper and puts the name on top.
pub open spec fn push_names(m: Map<Seq<char>, i64>, ns: Seq<Seq<char>>) -> Map<Seq<char>, i64>
    decreases ns.len(),
{
    if ns.len() == 0 {
        m
    } else {
        push_names(m, ns.drop_last()).map_values(|d: i64| (d + 1) as i64).insert(ns.last(), 0)
    }
}

/// The bindings an entrypoint starts with.
pub open spec fn entrypoint_model(ps: Seq<Seq<char>>, fs: Seq<Seq<char>>) -> Map<Seq<char>, i64> {
    push_names(insert_pairs(Map::empty(), param_pairs(ps)), fs)
}

/// The names of parameters.
pub open spec fn param_names(ps: Seq<ParamAst>) -> Seq<Seq<char>> {
    ps.map_values(|p: ParamAst| p.name@)
}

/// The names of contract fields.
pub open spec fn field_names(fs: Seq<ContractFieldAst>) -> Seq<Seq<char>> {
    fs.map_values(|f: ContractFieldAst| f.name@)
}

/// The stack bindings an entrypoint starts with: parameter `i` of `n` at
/// depth `n - 1 - i`, then each contract field pushed on top in order.
pub fn entrypoint_stack_bindings(params: &Vec<ParamAst>, contract_fields: &Vec<ContractFieldAst>) -> (r: StackBindings)
    requires
        params@.len() + contract_fields@.len() < i64::MAX,
    ensures
        r.wf(),
        r@ == entrypoint_model(param_names(params@), field_names(contract_fields@)),
{
    let ghost ps = param_names(params@);
    let ghost fs = field_names(contract_fields@);
    let param_count = params.len();
    let mut depths: Vec<(String, i64)> = Vec::new();
    let mut i: usize = 0;
    assert(param_pairs(ps).take(0) =~= Seq::<(Seq<char>, i64)>::empty());
    while i < param_count
        invariant
            i <= param_count,
            param_count == params@.len(),
            param_count < i64::MAX,
            ps == param_names(params@),
            depths@.len() == i,
            pairs_to_map(depths@) == insert_pairs(Map::empty(), param_pairs(ps).take(i as int)),
            forall|k: Seq<char>| #[trigger] pairs_to_map(depths@).contains_key(k) ==> 0 <= pairs_to_map(depths@)[k] < param_count,
        decreases param_count - i,
    {
        let ghost before = depths@;
        let depth = (param_count - 1 - i) as i64;
        depths.push((params[i].name.clone(), depth));
        proof {
            let t = param_pairs(ps).take(i + 1);
            assert(t.drop_last() =~= param_pairs(ps).take(i as int));
            assert(t.last() == (ps[i as int], depth));
            assert(depths@.drop_last() =~= before);
        }
        i = i + 1;
    }
    assert(param_pairs(ps).take(param_count as int) =~= param_pairs(ps));
    let mut stack_bindings = StackBindings::from_depths(depths);
    let ghost m0 = stack_bindings@;
    let mut j: usize = 0;
    assert(fs.take(0) =~= Seq::<Seq<char>>::empty());
    while j < contract_fields.len()
        invariant
            j <= contract_fields@.len(),
            param_count + contract_fields@.len() < i64::MAX,
            fs == field_names(contract_fields@),
            stack_bindings.wf(),
            stack_bindings@ == push_names(m0, fs.take(j as int)),
            forall|k: Seq<char>| #[trigger] stack_bindings@.contains_key(k) ==> 0 <= stack_bindings@[k] < param_count + j,
        decreases contract_fields@.len() - j,
    {
        stack_bindings.push_binding(contract_fields[j].name.as_str());
        proof {
            let t = fs.take(j + 1);
            assert(t.drop_last() =~= fs.take(j as int));
            assert(t.last() == fs[j as int]);
        }
        j = j + 1;
    }
    assert(fs.take(fs.len() as int) =~= fs);
    stack_bindings
}

/// The names of name-depth pairs.
pub open spec fn pair_names(s: Seq<(Seq<char>, i64)>) -> Seq<Seq<char>> {
    s.map_values(|e: (Seq<char>, i64)| e.0)
}

/// Inserting pairs with distinct names: each name maps to its own depth,
/// and nothing else is added.
proof fn lemma_insert_pairs_distinct(s: Seq<(Seq<char>, i64)>)
    requires
        pair_names(s).no_duplicates(),
    ensures
        forall|i: int| 0 <= i < s.len() ==> #[trigger] insert_pairs(Map::empty(), s).contains_key(s[i].0)
            && insert_pairs(Map::empty(), s)[s[i].0] == s[i].1,
        forall|k: Seq<char>| #[trigger] insert_pairs(Map::empty(), s).contains_key(k) ==> exists|i: int| 0 <= i < s.len() && s[i].0 == k,
    decreases s.len(),
{
    if s.len() > 0 {
        let t = s.drop_last();
        assert(pair_names(t).no_duplicates()) by {
            assert forall|a: int, b: int| 0 <= a < b < t.len() implies #[trigger] pair_names(t)[a] != #[trigger] pair_names(t)[b] by {
                assert(pair_names(s)[a] != pair_names(s)[b]);
            }
        }
        lemma_insert_pairs_distinct(t);
        assert forall|i: int| 0 <= i < s.len() implies #[trigger] insert_pairs(Map::empty(), s).contains_key(s[i].0)
            && insert_pairs(Map::empty(), s)[s[i].0] == s[i].1 by {
            if i < s.len() - 1 {
                assert(t[i] == s[i]);
                assert(pair_names(s)[i] != pair_names(s)[s.len() - 1]);
                assert(insert_pairs(Map::empty(), t).contains_key(t[i].0));
            }
        }
        assert forall|k: Seq<char>| #[trigger] insert_pairs(Map::empty(), s).contains_key(k) implies exists|i: int|
            0 <= i < s.len() && s[i].0 == k by {
            if k != s.last().0 {
                assert(insert_pairs(Map::empty(), t).contains_key(k));
                let i = choose|i: int| 0 <= i < t.len() && t[i].0 == k;
                assert(s[i] == t[i]);
            } else {
                assert(s[s.len() - 1].0 == k);
            }
        }
    }
}

/// Pushing distinct names that are not bound yet: name `j` of `n` ends at
/// depth `n - 1 - j`, and every earlier binding `n` deeper.
proof fn lemma_push_names_distinct(m: Map<Seq<char>, i64>, ns: Seq<Seq<char>>, bound: int)
    requires
        ns.no_duplicates(),
        forall|j: int| 0 <= j < ns.len() ==> !m.contains_key(#[trigger] ns[j]),
        forall|k: Seq<char>| #[trigger] m.contains_key(k) ==> 0 <= m[k] <= bound,
        bound >= 0,
        bound + ns.len() <= i64::MAX,
    ensures
        forall|j: int| 0 <= j < ns.len() ==> #[trigger] push_names(m, ns).contains_key(ns[j]) && push_names(m, ns)[ns[j]]
            == ns.len() - 1 - j,
        forall|k: Seq<char>| #[trigger] m.contains_key(k) ==> push_names(m, ns).contains_key(k) && push_names(m, ns)[k]
            == m[k] + ns.len(),
        forall|k: Seq<char>| #[trigger] push_names(m, ns).contains_key(k) ==> m.contains_key(k) || ns.contains(k),
    decreases ns.len(),
{
    if ns.len() > 0 {
        let t = ns.drop_last();
        assert(t.no_duplicates()) by {
            assert forall|a: int, b: int| 0 <= a < b < t.len() implies t[a] != t[b] by {
                assert(ns[a] != ns[b]);
            }
        }
        lemma_push_names_distinct(m, t, bound);
        let p = push_names(m, t);
        assert forall|j: int| 0 <= j < ns.len() implies #[trigger] push_names(m, ns).contains_key(ns[j])
            && push_names(m, ns)[ns[j]] == ns.len() - 1 - j by {
            if j < ns.len() - 1 {
                assert(t[j] == ns[j]);
                assert(ns[j] != ns[ns.len() - 1]);
                assert(push_names(m, t).contains_key(t[j]));
                assert(p.contains_key(ns[j]) && p[ns[j]] == t.len() - 1 - j);
                assert(p.map_values(|d: i64| (d + 1) as i64)[ns[j]] == (p[ns[j]] + 1) as i64);
                assert(push_names(m, ns)[ns[j]] == p.map_values(|d: i64| (d + 1) as i64)[ns[j]]);
            } else {
                assert(ns[j] == ns.last());
            }
        }
        assert forall|k: Seq<char>| #[trigger] m.contains_key(k) implies push_names(m, ns).contains_key(k)
            && push_names(m, ns)[k] == m[k] + ns.len() by {
            assert(p.contains_key(k) && p[k] == m[k] + t.len());
            if k == ns.last() {
                assert(!m.contains_key(ns[ns.len() - 1]));
            }
        }
        assert forall|k: Seq<char>| #[trigger] push_names(m, ns).contains_key(k) implies m.contains_key(k) || ns.contains(k) by {
            if k == ns.last() {
                assert(ns[ns.len() - 1] == k);
            } else {
                assert(p.contains_key(k));
                if !m.contains_key(k) {
                    assert(t.contains(k));
                    let a = choose|a: int| 0 <= a < t.len() && t[a] == k;
                    assert(ns[a] == k);
                }
            }
        }
    }
}

/// Where every parameter and field name is distinct, contract field `j` of
/// `f` sits at depth `f - 1 - j`, parameter `i` of `p` at depth
/// `f + p - 1 - i`, and nothing else is bound: the fields lie above the
/// parameters, each group with its last name on top.
pub proof fn lemma_entrypoint_depths(ps: Seq<Seq<char>>, fs: Seq<Seq<char>>)
    requires
        (ps + fs).no_duplicates(),
        ps.len() + fs.len() < i64::MAX,
    ensures
        forall|j: int| 0 <= j < fs.len() ==> #[trigger] entrypoint_model(ps, fs).contains_key(fs[j])
            && entrypoint_model(ps, fs)[fs[j]] == fs.len() - 1 - j,
        forall|i: int| 0 <= i < ps.len() ==> #[trigger] entrypoint_model(ps, fs).contains_key(ps[i])
            && entrypoint_model(ps, fs)[ps[i]] == fs.len() + ps.len() - 1 - i,
        forall|k: Seq<char>| #[trigger] entrypoint_model(ps, fs).contains_key(k) ==> ps.contains(k) || fs.contains(k),
{
    let pp = param_pairs(ps);
    assert(pair_names(pp) =~= ps);
    assert(ps.no_duplicates()) by {
        assert forall|a: int, b: int| 0 <= a < b < ps.len() implies ps[a] != ps[b] by {
            assert((ps + fs)[a] == ps[a]);
            assert((ps + fs)[b] == ps[b]);
        }
    }
    assert(fs.no_duplicates()) by {
        assert forall|a: int, b: int| 0 <= a < b < fs.len() implies fs[a] != fs[b] by {
            assert((ps + fs)[ps.len() + a] == fs[a]);
            assert((ps + fs)[ps.len() + b] == fs[b]);
        }
    }
    lemma_insert_pairs_distinct(pp);
    let m = insert_pairs(Map::empty(), pp);
    assert forall|j: int| 0 <= j < fs.len() implies !m.contains_key(#[trigger] fs[j]) by {
        if m.contains_key(fs[j]) {
            let i = choose|i: int| 0 <= i < pp.len() && pp[i].0 == fs[j];
            assert((ps + fs)[i] == (ps + fs)[ps.len() + j]);
        }
    }
    assert forall|k: Seq<char>| #[trigger] m.contains_key(k) implies 0 <= m[k] <= ps.len() by {
        let i = choose|i: int| 0 <= i < pp.len() && pp[i].0 == k;
        assert(pp[i].0 == ps[i]);
    }
    lemma_push_names_distinct(m, fs, ps.len() as int);
    assert forall|i: int| 0 <= i < ps.len() implies #[trigger] entrypoint_model(ps, fs).contains_key(ps[i])
        && entrypoint_model(ps, fs)[ps[i]] == fs.len() + ps.len() - 1 - i by {
        assert(pp[i].0 == ps[i]);
        assert(m.contains_key(ps[i]));
    }
    assert forall|k: Seq<char>| #[trigger] entrypoint_model(ps, fs).contains_key(k) implies ps.contains(k) || fs.contains(k) by {
        if m.contains_key(k) {
            let i = choose|i: int| 0 <= i < pp.len() && pp[i].0 == k;
            assert(ps[i] == k);
        }
    }
}

/// A strictly increasing list of `n` numbers below `n`, from 0 on, counts
/// `0, 1, ..., n - 1`.
proof fn lemma_increasing_is_identity(a: Seq<int>)
    requires
        forall|i: int| 0 <= i < a.len() ==> 0 <= #[trigger] a[i] < a.len(),
        forall|i: int, j: int| 0 <= i < j < a.len() ==> #[trigger] a[i] < #[trigger] a[j],
    ensures
        forall|i: int| 0 <= i < a.len() ==> #[trigger] a[i] == i,
{
    assert forall|i: int| 0 <= i < a.len() implies a[i] >= i by {
        lemma_increasing_lower(a, i);
    }
    assert forall|i: int| 0 <= i < a.len() implies a[i] <= i by {
        lemma_increasing_upper(a, i);
    }
}

proof fn lemma_increasing_lower(a: Seq<int>, i: int)
    requires
        0 <= i < a.len(),
        forall|k: int| 0 <= k < a.len() ==> 0 <= #[trigger] a[k] < a.len(),
        forall|k: int, j: int| 0 <= k < j < a.len() ==> #[trigger] a[k] < #[trigger] a[j],
    ensures
        a[i] >= i,
    decreases i,
{
    if i > 0 {
        lemma_increasing_lower(a, i - 1);
        assert(a[i - 1] < a[i]);
    }
}

proof fn lemma_increasing_upper(a: Seq<int>, i: int)
    requires
        0 <= i < a.len(),
        forall|k: int| 0 <= k < a.len() ==> 0 <= #[trigger] a[k] < a.len(),
        forall|k: int, j: int| 0 <= k < j < a.len() ==> #[trigger] a[k] < #[trigger] a[j],
    ensures
        a[i] <= i,
    decreases a.len() - i,
{
    if i < a.len() - 1 {
        lemma_increasing_upper(a, i + 1);
        assert(a[i] < a[i + 1]);
    }
}

/// Where every parameter and field name is distinct, the entrypoint's
/// bindings listed from the top of the stack down are the contract fields
/// from last to first, then the parameters from last to first.
pub proof fn lemma_entrypoint_order(sb: StackBindings, ps: Seq<Seq<char>>, fs: Seq<Seq<char>>)
    requires
        sb.wf(),
        sb@ == entrypoint_model(ps, fs),
        (ps + fs).no_duplicates(),
        ps.len() + fs.len() < i64::MAX,
    ensures
        sb.order() == fs.reverse() + ps.reverse(),
{
    let m = sb@;
    let o = sb.order();
    let e = fs.reverse() + ps.reverse();
    let n = ps.len() + fs.len();
    sb.lemma_order();
    lemma_entrypoint_depths(ps, fs);
    assert(e.len() == n);
    assert forall|k: int| 0 <= k < n implies #[trigger] m.contains_key(e[k]) && m[e[k]] == k by {
        if k < fs.len() {
            assert(e[k] == fs[fs.len() - 1 - k]);
            assert(entrypoint_model(ps, fs).contains_key(fs[fs.len() - 1 - k]));
        } else {
            assert(e[k] == ps[ps.len() - 1 - (k - fs.len())]);
            assert(entrypoint_model(ps, fs).contains_key(ps[ps.len() - 1 - (k - fs.len())]));
        }
    }
    assert forall|x: Seq<char>| #[trigger] m.contains_key(x) implies e.contains(x) by {
        if ps.contains(x) {
            let i = choose|i: int| 0 <= i < ps.len() && ps[i] == x;
            assert(e[fs.len() + (ps.len() - 1 - i)] == x);
        } else {
            let j = choose|j: int| 0 <= j < fs.len() && fs[j] == x;
            assert(e[fs.len() - 1 - j] == x);
        }
    }
    // Each key sits at the depth of its place in `e`.
    assert forall|i: int| 0 <= i < o.len() implies 0 <= #[trigger] m[o[i]] < n && e[m[o[i]] as int] == o[i] by {
        assert(m.contains_key(o[i]));
        assert(e.contains(o[i]));
        let k = choose|k: int| 0 <= k < e.len() && e[k] == o[i];
        assert(m[e[k]] == k);
    }
    // The order has exactly `n` entries.
    assert(o.len() == n) by {
        assert(o.to_set() =~= e.to_set()) by {
            assert forall|x: Seq<char>| o.to_set().contains(x) <==> e.to_set().contains(x) by {
                if o.contains(x) {
                    let i = choose|i: int| 0 <= i < o.len() && o[i] == x;
                    assert(m.contains_key(o[i]));
                }
                if e.contains(x) {
                    let k = choose|k: int| 0 <= k < e.len() && e[k] == x;
                    assert(m.contains_key(e[k]));
                }
            }
        }
        assert(e.no_duplicates()) by {
            assert forall|a: int, b: int| 0 <= a < b < e.len() implies e[a] != e[b] by {
                assert(m.contains_key(e[a]) && m[e[a]] == a);
                assert(m.contains_key(e[b]) && m[e[b]] == b);
            }
        }
        o.unique_seq_to_set();
        e.unique_seq_to_set();
    }
    let depths = Seq::new(o.len(), |i: int| m[o[i]] as int);
    assert forall|i: int, j: int| 0 <= i < j < depths.len() implies #[trigger] depths[i] < #[trigger] depths[j] by {
        assert(m[o[i]] <= m[o[j]]);
        if m[o[i]] == m[o[j]] {
            assert(e[m[o[i]] as int] == o[i]);
            assert(e[m[o[j]] as int] == o[j]);
        }
    }
    lemma_increasing_is_identity(depths);
    assert forall|i: int| 0 <= i < o.len() implies o[i] == e[i] by {
        assert(depths[i] == i);
        assert(e[m[o[i]] as int] == o[i]);
    }
    assert(o =~= e);
}

/// `n` drops.
pub open spec fn drops(n: nat) -> Seq<ScriptStep>
    decreases n,
{
    if n == 0 {
        Seq::empty()
    } else {
        seq![ScriptStep::Op(OP_DROP)] + drops((n - 1) as nat)
    }
}

/// `n` times: push `k`, roll the item `k` deep to the top, drop it.
pub open spec fn roll_drops(n: nat, k: i64) -> Seq<ScriptStep>
    decreases n,
{
    if n == 0 {
        Seq::empty()
    } else {
        seq![ScriptStep::Push(k), ScriptStep::Op(OP_ROLL), ScriptStep::Op(OP_DROP)] + roll_drops((n - 1) as nat, k)
    }
}

/// The steps that end an entrypoint holding `binding_count` bindings under
/// `return_count` returned values: with nothing returned, drop every
/// binding and push `true`; else take each binding from under the returned
/// values and drop it.
pub open spec fn cleanup_steps(binding_count: nat, return_count: i64) -> Seq<ScriptStep> {
    if return_count == 0 {
        drops(binding_count).push(ScriptStep::Op(OP_TRUE))
    } else {
        roll_drops(binding_count, return_count)
    }
}

/// Dropping `n` items off a stack of at least `n`.
proof fn lemma_drops<A>(main: Seq<Item<A>>, alt: Seq<Item<A>>, n: nat)
    requires
        n <= main.len(),
    ensures
        run_steps(main, alt, drops(n)) == Some((main.skip(n as int), alt)),
    decreases n,
{
    if n == 0 {
        assert(main.skip(0) =~= main);
    } else {
        let s = drops(n);
        assert(s[0] == ScriptStep::Op(OP_DROP));
        assert(s.drop_first() =~= drops((n - 1) as nat));
        lemma_drops(main.drop_first(), alt, (n - 1) as nat);
        assert(main.drop_first().skip(n - 1) =~= main.skip(n as int));
    }
}

/// Taking `n` items from under `k` returned values and dropping them.
proof fn lemma_roll_drops<A>(rets: Seq<Item<A>>, below: Seq<Item<A>>, alt: Seq<Item<A>>, n: nat, k: i64)
    requires
        rets.len() == k,
        k >= 0,
        n <= below.len(),
    ensures
        run_steps(rets + below, alt, roll_drops(n, k)) == Some((rets + below.skip(n as int), alt)),
    decreases n,
{
    if n == 0 {
        assert(below.skip(0) =~= below);
    } else {
        let triple = seq![ScriptStep::Push(k), ScriptStep::Op(OP_ROLL), ScriptStep::Op(OP_DROP)];
        let rest = roll_drops((n - 1) as nat, k);
        assert(roll_drops(n, k) == triple + rest);
        lemma_run_steps_append(rets + below, alt, triple, rest);
        let main = rets + below;
        let after_push = seq![Item::Num(k)] + main;
        assert(after_push.drop_first() =~= main);
        assert(main[k as int] == below[0]);
        let rolled = seq![main[k as int]] + main.remove(k as int);
        assert(main.remove(k as int) =~= rets + below.drop_first());
        assert(rolled.drop_first() =~= rets + below.drop_first());
        assert(triple.drop_first() =~= seq![ScriptStep::Op(OP_ROLL), ScriptStep::Op(OP_DROP)]);
        assert(triple.drop_first().drop_first() =~= seq![ScriptStep::Op(OP_DROP)]);
        assert(triple.drop_first().drop_first().drop_first() =~= Seq::<ScriptStep>::empty());
        assert(run_steps(main, alt, triple) == Some((rets + below.drop_first(), alt))) by {
            reveal_with_fuel(run_steps, 4);
            assert(triple[0] == ScriptStep::Push(k));
            assert(triple.drop_first()[0] == ScriptStep::Op(OP_ROLL));
            assert(triple.drop_first().drop_first()[0] == ScriptStep::Op(OP_DROP));
            assert(after_push[0] == Item::<A>::Num(k));
        }
        lemma_roll_drops(rets, below.drop_first(), alt, (n - 1) as nat, k);
        assert(below.drop_first().skip(n - 1) =~= below.skip(n as int));
    }
}

/// Clearing an entrypoint's stack: with `k > 0` returned values on top of
/// exactly `n` bindings, the returned values are all that stays; with none
/// returned, the bindings make way for a single `true`.
pub proof fn lemma_cleanup_leaves_returns<A>(rets: Seq<Item<A>>, bindings: Seq<Item<A>>, alt: Seq<Item<A>>, k: i64)
    requires
        rets.len() == k,
        k >= 0,
    ensures
        run_steps(rets + bindings, alt, cleanup_steps(bindings.len(), k)) == Some(
            (if k == 0 { seq![Item::Num(1)] } else { rets }, alt),
        ),
{
    let n = bindings.len();
    if k == 0 {
        assert(rets + bindings =~= bindings);
        lemma_drops(bindings, alt, n);
        lemma_run_steps_append(bindings, alt, drops(n), seq![ScriptStep::Op(OP_TRUE)]);
        assert(drops(n).push(ScriptStep::Op(OP_TRUE)) =~= drops(n) + seq![ScriptStep::Op(OP_TRUE)]);
        assert(bindings.skip(n as int) =~= Seq::<Item<A>>::empty());
        assert(seq![ScriptStep::Op(OP_TRUE)].drop_first() =~= Seq::<ScriptStep>::empty());
        assert(seq![Item::<A>::Num(1)] + Seq::<Item<A>>::empty() =~= seq![Item::<A>::Num(1)]);
        assert(run_steps(Seq::<Item<A>>::empty(), alt, seq![ScriptStep::Op(OP_TRUE)]) == Some((seq![Item::<A>::Num(1)], alt))) by {
            reveal_with_fuel(run_steps, 2);
        }
    } else {
        lemma_roll_drops(rets, bindings, alt, n, k);
        assert(bindings.skip(n as int) =~= Seq::<Item<A>>::empty());
        assert(rets + Seq::<Item<A>>::empty() =~= rets);
    }
}

/// The cleanup steps as a list.
fn cleanup_step_list(binding_count: usize, return_count: i64) -> (r: Vec<ScriptStep>)
    ensures
        r@ == cleanup_steps(binding_count as nat, return_count),
{
    let mut r: Vec<ScriptStep> = Vec::new();
    let mut i: usize = 0;
    if return_count == 0 {
        while i < binding_count
            invariant
                i <= binding_count,
                r@ == drops(i as nat),
            decreases binding_count - i,
        {
            r.push(ScriptStep::Op(OP_DROP));
            proof {
                lemma_drops_push(i as nat);
            }
            i = i + 1;
        }
        r.push(ScriptStep::Op(OP_TRUE));
    } else {
        while i < binding_count
            invariant
                i <= binding_count,
                r@ == roll_drops(i as nat, return_count),
            decreases binding_count - i,
        {
            let ghost before = r@;
            r.push(ScriptStep::Push(return_count));
            r.push(ScriptStep::Op(OP_ROLL));
            r.push(ScriptStep::Op(OP_DROP));
            proof {
                lemma_roll_drops_push(i as nat, return_count);
                assert(r@ =~= before + seq![ScriptStep::Push(return_count), ScriptStep::Op(OP_ROLL), ScriptStep::Op(OP_DROP)]);
            }
            i = i + 1;
        }
    }
    r
}

/// One more drop goes at the end.
proof fn lemma_drops_push(n: nat)
    ensures
        drops(n + 1) == drops(n).push(ScriptStep::Op(OP_DROP)),
    decreases n,
{
    if n > 0 {
        lemma_drops_push((n - 1) as nat);
        assert(drops(n + 1) =~= drops(n).push(ScriptStep::Op(OP_DROP)));
    } else {
        assert(drops(0) == Seq::<ScriptStep>::empty());
        assert(drops(1) =~= seq![ScriptStep::Op(OP_DROP)]);
    }
}

/// One more push-roll-drop goes at the end.
proof fn lemma_roll_drops_push(n: nat, k: i64)
    ensures
        roll_drops(n + 1, k) == roll_drops(n, k) + seq![ScriptStep::Push(k), ScriptStep::Op(OP_ROLL), ScriptStep::Op(OP_DROP)],
    decreases n,
{
    let triple = seq![ScriptStep::Push(k), ScriptStep::Op(OP_ROLL), ScriptStep::Op(OP_DROP)];
    if n > 0 {
        lemma_roll_drops_push((n - 1) as nat, k);
        assert(roll_drops(n + 1, k) =~= roll_drops(n, k) + triple);
    } else {
        assert(roll_drops(0, k) == Seq::<ScriptStep>::empty());
        assert(roll_drops(1, k) =~= triple);
    }
}

/// Writes the steps that end an entrypoint holding `binding_count`
/// bindings under `return_count` returned values; an error where the
/// builder refuses a step.
pub fn emit_entrypoint_cleanup(builder: &mut ScriptBuilder, binding_count: usize, return_count: usize) -> (r: Result<(), CompilerError>)
    requires
        return_count <= i64::MAX,
    ensures
        r is Ok <==> steps_fit(builder_script(*old(builder)).len() as int, cleanup_steps(binding_count as nat, return_count as i64)),
        r is Ok ==> builder_script(*final(builder)) == builder_script(*old(builder)) + steps_bytes(
            cleanup_steps(binding_count as nat, return_count as i64),
        ),
        r is Err ==> exists|k: int| 0 <= k < cleanup_steps(binding_count as nat, return_count as i64).len() && builder_script(
            *final(builder),
        ) == builder_script(*old(builder)) + steps_bytes(#[trigger] cleanup_steps(binding_count as nat, return_count as i64).take(k)),
{
    let steps = cleanup_step_list(binding_count, return_count as i64);
    emit_steps(builder, &steps)
}


/// The types in scope in an entrypoint body: the contract's parameters and
/// constants, the function's parameters, then the contract fields, a later
/// name replacing an earlier one.
pub open spec fn entrypoint_types_s(
    contract_params: Seq<ParamAst>,
    contract_constants: Seq<ConstantAst>,
    function_params: Seq<ParamAst>,
    contract_fields: Seq<ContractFieldAst>,
) -> Map<Seq<char>, TypeRefV> {
    with_types(
        with_types(
            with_types(with_types(Map::empty(), params_layout(contract_params)), constants_layout(contract_constants)),
            params_layout(function_params),
        ),
        contract_layout(contract_fields),
    )
}

/// The declared types an entrypoint body starts with.
pub fn entrypoint_types(
    contract_params: &Vec<ParamAst>,
    contract_constants: &Vec<ConstantAst>,
    function_params: &Vec<ParamAst>,
    contract_fields: &Vec<ContractFieldAst>,
) -> (r: TypeMap)
    ensures
        r@ == entrypoint_types_s(contract_params@, contract_constants@, function_params@, contract_fields@),
{
    let mut types = TypeMap::new();
    insert_params(&mut types, contract_params);
    insert_constants(&mut types, contract_constants);
    insert_params(&mut types, function_params);
    insert_fields(&mut types, contract_fields);
    types
}

} // verus!
