//! The compiler's model of where each named local sits on the script stack.
//!
//! A binding maps a name to its depth counted from the top of the stack
//! (depth `0` is the top item). The model is kept in step with the stack
//! operations that the compiler emits.
use vstd::prelude::*;
use kaspa_txscript::script_builder::ScriptBuilder;
use crate::error::CompilerError;
use crate::opcodes::{OP_DROP, OP_FROM_ALT_STACK, OP_PICK, OP_ROLL, OP_TO_ALT_STACK};
use crate::script::builder_script;
use crate::stack_machine::{emit_steps, steps_bytes, steps_fit, ScriptStep};
use crate::stack_order::{
    keep_start, lemma_keep_start_unique, local_plan, local_stack_reordering_opcodes, longest_keepable_suffix_start,
    same_names, views,
};

verus! {

/// Whether some entry of `s` carries the name `k`.
pub open spec fn has_name(s: Seq<(String, i64)>, k: Seq<char>) -> bool {
    exists|i: int| 0 <= i < s.len() && (#[trigger] s[i]).0@ == k
}

/// The names of the entries, in entry order.
pub open spec fn entry_names(s: Seq<(String, i64)>) -> Seq<Seq<char>> {
    s.map_values(|e: (String, i64)| e.0@)
}

/// The name-to-depth map that a sequence of entries with distinct names
/// stands for.
pub open spec fn entries_map(s: Seq<(String, i64)>) -> Map<Seq<char>, i64> {
    Map::new(
        |k: Seq<char>| has_name(s, k),
        |k: Seq<char>| s[name_index(s, k)].1,
    )
}

/// Some index of an entry named `k` (the only one where names are distinct).
pub open spec fn name_index(s: Seq<(String, i64)>, k: Seq<char>) -> int {
    choose|i: int| 0 <= i < s.len() && (#[trigger] s[i]).0@ == k
}

/// The map that inserting the pairs of `s` one after another into an empty
/// map yields: where a name occurs twice, the later depth wins.
pub open spec fn pairs_to_map(s: Seq<(String, i64)>) -> Map<Seq<char>, i64>
    decreases s.len(),
{
    if s.len() == 0 {
        Map::empty()
    } else {
        pairs_to_map(s.drop_last()).insert(s.last().0@, s.last().1)
    }
}

/// Looking up an entry's name in `entries_map` gives that entry's depth.
pub proof fn lemma_entries_map_index(s: Seq<(String, i64)>, i: int)
    requires
        entry_names(s).no_duplicates(),
        0 <= i < s.len(),
    ensures
        entries_map(s).contains_key(s[i].0@),
        entries_map(s)[s[i].0@] == s[i].1,
{
    let k = s[i].0@;
    assert(has_name(s, k));
    let j = name_index(s, k);
    assert(entry_names(s)[i] == k);
    assert(entry_names(s)[j] == k);
    assert(j == i);
    assert(entries_map(s)[k] == s[j].1);
}

/// The domain of `entries_map` is the set of entry names.
pub proof fn lemma_entries_map_dom(s: Seq<(String, i64)>)
    ensures
        entries_map(s).dom() == entry_names(s).to_set(),
{
    assert forall|k: Seq<char>| entries_map(s).dom().contains(k) <==> entry_names(s).to_set().contains(k) by {
        if has_name(s, k) {
            let i = choose|i: int| 0 <= i < s.len() && (#[trigger] s[i]).0@ == k;
            assert(entry_names(s)[i] == k);
        }
        if entry_names(s).to_set().contains(k) {
            let i = choose|i: int| 0 <= i < entry_names(s).len() && entry_names(s)[i] == k;
            assert(s[i].0@ == k);
        }
    }
    assert(entries_map(s).dom() =~= entry_names(s).to_set());
}

/// Two entry sequences with distinct names and the same map agree on each
/// name's depth; stated as: equal maps from pointwise agreement.
pub proof fn lemma_entries_map_ext(s: Seq<(String, i64)>, m: Map<Seq<char>, i64>)
    requires
        entry_names(s).no_duplicates(),
        forall|i: int| 0 <= i < s.len() ==> m.contains_key((#[trigger] s[i]).0@) && m[s[i].0@] == s[i].1,
        forall|k: Seq<char>| m.contains_key(k) ==> has_name(s, k),
    ensures
        entries_map(s) == m,
{
    assert forall|k: Seq<char>| #[trigger] entries_map(s).contains_key(k) <==> m.contains_key(k) by {
        if has_name(s, k) {
            let i = choose|i: int| 0 <= i < s.len() && (#[trigger] s[i]).0@ == k;
        }
    }
    assert forall|k: Seq<char>| #[trigger] entries_map(s).contains_key(k) implies entries_map(s)[k] == m[k] by {
        let i = choose|i: int| 0 <= i < s.len() && (#[trigger] s[i]).0@ == k;
        lemma_entries_map_index(s, i);
    }
    assert(entries_map(s) =~= m);
}

/// The number of leading entries of `s` at depth at most `d`, counted up to
/// the first deeper one: where an entry of depth `d` goes in `s` so that it
/// follows every entry at its depth.
pub open spec fn first_deeper(s: Seq<(String, i64)>, d: i64) -> int
    decreases s.len(),
{
    if s.len() == 0 {
        0
    } else if s[0].1 > d {
        0
    } else {
        1 + first_deeper(s.drop_first(), d)
    }
}

/// The entries ordered by depth, shallowest first; entries at the same
/// depth keep their relative order.
pub open spec fn sort_by_depth(s: Seq<(String, i64)>) -> Seq<(String, i64)>
    decreases s.len(),
{
    if s.len() == 0 {
        Seq::empty()
    } else {
        let t = sort_by_depth(s.drop_last());
        t.insert(first_deeper(t, s.last().1), s.last())
    }
}

/// Depths never decrease along `s`.
pub open spec fn depth_sorted(s: Seq<(String, i64)>) -> bool {
    forall|i: int, j: int| 0 <= i <= j < s.len() ==> (#[trigger] s[i]).1 <= (#[trigger] s[j]).1
}

/// `order` lists the names bound in `m`, each once, shallowest first.
pub open spec fn is_order_of(order: Seq<Seq<char>>, m: Map<Seq<char>, i64>) -> bool {
    &&& order.no_duplicates()
    &&& forall|i: int| 0 <= i < order.len() ==> m.contains_key(#[trigger] order[i])
    &&& forall|k: Seq<char>| m.contains_key(k) ==> order.contains(k)
    &&& forall|i: int, j: int| 0 <= i <= j < order.len() ==> m[#[trigger] order[i]] <= m[#[trigger] order[j]]
}

proof fn lemma_first_deeper(s: Seq<(String, i64)>, d: i64)
    ensures
        0 <= first_deeper(s, d) <= s.len(),
        forall|k: int| 0 <= k < first_deeper(s, d) ==> (#[trigger] s[k]).1 <= d,
        first_deeper(s, d) < s.len() ==> s[first_deeper(s, d)].1 > d,
    decreases s.len(),
{
    if s.len() > 0 && s[0].1 <= d {
        lemma_first_deeper(s.drop_first(), d);
        assert forall|k: int| 0 <= k < first_deeper(s, d) implies (#[trigger] s[k]).1 <= d by {
            if k > 0 {
                assert(s[k] == s.drop_first()[k - 1]);
            }
        }
    }
}

proof fn lemma_first_deeper_at(s: Seq<(String, i64)>, d: i64, i: int)
    requires
        0 <= i <= s.len(),
        forall|k: int| 0 <= k < i ==> (#[trigger] s[k]).1 <= d,
        i < s.len() ==> s[i].1 > d,
    ensures
        first_deeper(s, d) == i,
    decreases i,
{
    if i > 0 {
        assert forall|k: int| 0 <= k < i - 1 implies (#[trigger] s.drop_first()[k]).1 <= d by {
            assert(s.drop_first()[k] == s[k + 1]);
        }
        lemma_first_deeper_at(s.drop_first(), d, i - 1);
    }
}

/// Sorting keeps the entries, orders them by depth, and keeps names distinct.
#[verifier::spinoff_prover]
#[verifier::rlimit(40)]
pub proof fn lemma_sort_by_depth(s: Seq<(String, i64)>)
    ensures
        sort_by_depth(s).len() == s.len(),
        depth_sorted(sort_by_depth(s)),
        forall|i: int| 0 <= i < s.len() ==> sort_by_depth(s).contains(#[trigger] s[i]),
        forall|i: int| 0 <= i < s.len() ==> s.contains(#[trigger] sort_by_depth(s)[i]),
        entry_names(s).no_duplicates() ==> entry_names(sort_by_depth(s)).no_duplicates(),
    decreases s.len(),
{
    if s.len() > 0 {
        let s0 = s.drop_last();
        let e = s.last();
        let t = sort_by_depth(s0);
        lemma_sort_by_depth(s0);
        let p = first_deeper(t, e.1);
        lemma_first_deeper(t, e.1);
        let r = t.insert(p, e);
        t.insert_ensures(p, e);
        assert(sort_by_depth(s) == r);
        assert forall|i: int, j: int| 0 <= i <= j < r.len() implies (#[trigger] r[i]).1 <= (#[trigger] r[j]).1 by {
            if i < p && j < p {
                assert(t[i].1 <= t[j].1);
            } else if i < p && j == p {
            } else if i < p {
                assert(t[i].1 <= t[j - 1].1);
            } else if i == p && j == p {
            } else if i == p {
                assert(t[p].1 <= t[j - 1].1);
            } else {
                assert(t[i - 1].1 <= t[j - 1].1);
            }
        }
        assert forall|i: int| 0 <= i < s.len() implies r.contains(#[trigger] s[i]) by {
            if i == s.len() - 1 {
                assert(r[p] == e);
            } else {
                assert(s[i] == s0[i]);
                assert(t.contains(s0[i]));
                let k = choose|k: int| 0 <= k < t.len() && t[k] == s0[i];
                if k < p {
                    assert(r[k] == t[k]);
                } else {
                    assert(r[k + 1] == t[k]);
                }
            }
        }
        assert forall|i: int| 0 <= i < r.len() implies s.contains(#[trigger] r[i]) by {
            if i == p {
                assert(s[s.len() - 1] == e);
            } else {
                let k = if i < p { i } else { i - 1 };
                assert(r[i] == t[k]);
                assert(s0.contains(t[k]));
                let j = choose|j: int| 0 <= j < s0.len() && s0[j] == t[k];
                assert(s[j] == s0[j]);
            }
        }
        if entry_names(s).no_duplicates() {
            assert(entry_names(s0).no_duplicates()) by {
                assert forall|a: int, b: int| 0 <= a < s0.len() && 0 <= b < s0.len() && a != b
                    implies entry_names(s0)[a] != entry_names(s0)[b] by {
                    assert(entry_names(s0)[a] == entry_names(s)[a]);
                    assert(entry_names(s0)[b] == entry_names(s)[b]);
                }
            }
            assert forall|k: int| 0 <= k < t.len() implies (#[trigger] t[k]).0@ != e.0@ by {
                assert(s0.contains(t[k]));
                let j = choose|j: int| 0 <= j < s0.len() && s0[j] == t[k];
                assert(entry_names(s)[j] != entry_names(s)[s.len() - 1]);
            }
            assert forall|a: int, b: int| 0 <= a < r.len() && 0 <= b < r.len() && a != b
                implies entry_names(r)[a] != entry_names(r)[b] by {
                assert(entry_names(r)[a] == r[a].0@);
                assert(entry_names(r)[b] == r[b].0@);
                let ka = if a < p { a } else { a - 1 };
                let kb = if b < p { b } else { b - 1 };
                if a != p && b != p {
                    assert(entry_names(t)[ka] != entry_names(t)[kb]);
                } else if a == p {
                    assert(r[b] == t[kb]);
                } else {
                    assert(r[a] == t[ka]);
                }
            }
        }
    }
}


/// For distinct names, inserting the pairs one by one gives the same map as
/// reading them off.
pub proof fn lemma_pairs_to_map_distinct(s: Seq<(String, i64)>)
    requires
        entry_names(s).no_duplicates(),
    ensures
        pairs_to_map(s) == entries_map(s),
    decreases s.len(),
{
    if s.len() > 0 {
        let s0 = s.drop_last();
        assert(entry_names(s0).no_duplicates()) by {
            assert forall|a: int, b: int| 0 <= a < s0.len() && 0 <= b < s0.len() && a != b
                implies entry_names(s0)[a] != entry_names(s0)[b] by {
                assert(entry_names(s0)[a] == entry_names(s)[a]);
                assert(entry_names(s0)[b] == entry_names(s)[b]);
            }
        }
        lemma_pairs_to_map_distinct(s0);
        let m = pairs_to_map(s);
        assert forall|j: int| 0 <= j < s.len() implies m.contains_key((#[trigger] s[j]).0@) && m[s[j].0@] == s[j].1 by {
            if j < s.len() - 1 {
                assert(s[j] == s0[j]);
                lemma_entries_map_index(s0, j);
                assert(entry_names(s)[j] != entry_names(s)[s.len() - 1]);
            }
        }
        assert forall|k: Seq<char>| m.contains_key(k) implies has_name(s, k) by {
            if k == s.last().0@ {
                assert(s[s.len() - 1].0@ == k);
            } else {
                let j = choose|j: int| 0 <= j < s0.len() && (#[trigger] s0[j]).0@ == k;
                assert(s[j] == s0[j]);
            }
        }
        lemma_entries_map_ext(s, m);
    } else {
        assert(entries_map(s) =~= Map::<Seq<char>, i64>::empty());
    }
}


/// The model after the binding `k` leaves the stack: `k` is gone and every
/// binding below it moves up by one.
pub open spec fn after_drop(m: Map<Seq<char>, i64>, k: Seq<char>) -> Map<Seq<char>, i64> {
    Map::new(
        |x: Seq<char>| m.contains_key(x) && x != k,
        |x: Seq<char>| if m[x] > m[k] { (m[x] - 1) as i64 } else { m[x] },
    )
}

/// The steps that remove the item at depth `d`: `OP_DROP` for the top,
/// otherwise roll it up and drop it.
pub open spec fn drop_step(d: i64) -> Seq<ScriptStep> {
    if d == 0 {
        seq![ScriptStep::Op(OP_DROP)]
    } else {
        seq![ScriptStep::Push(d), ScriptStep::Op(OP_ROLL), ScriptStep::Op(OP_DROP)]
    }
}

/// The model after dropping, in the order of `order`, those of its names
/// that `names` holds.
pub open spec fn drop_model(m: Map<Seq<char>, i64>, order: Seq<Seq<char>>, names: Seq<Seq<char>>) -> Map<Seq<char>, i64>
    decreases order.len(),
{
    if order.len() == 0 {
        m
    } else {
        let m0 = drop_model(m, order.drop_last(), names);
        if names.contains(order.last()) { after_drop(m0, order.last()) } else { m0 }
    }
}

/// The steps that drop, in the order of `order`, those of its names that
/// `names` holds, each from its depth at the time.
pub open spec fn drop_plan(m: Map<Seq<char>, i64>, order: Seq<Seq<char>>, names: Seq<Seq<char>>) -> Seq<ScriptStep>
    decreases order.len(),
{
    if order.len() == 0 {
        Seq::empty()
    } else {
        let p0 = drop_plan(m, order.drop_last(), names);
        if names.contains(order.last()) {
            p0 + drop_step(drop_model(m, order.drop_last(), names)[order.last()])
        } else {
            p0
        }
    }
}

/// The steps that replace the value of a binding at depth `d` by the new
/// value on top of the stack: roll the old value up (it sits at `d + 1`
/// under the new one) and drop it.
pub open spec fn rebinding_steps(d: i64) -> Seq<ScriptStep> {
    seq![ScriptStep::Push((d + 1) as i64), ScriptStep::Op(OP_ROLL), ScriptStep::Op(OP_DROP)]
}

/// The model after `name`, bound at depth `d`, is rebound to the value on
/// top: `name` goes to depth 0 and the bindings above its old slot move one
/// deeper.
pub open spec fn rebound(m: Map<Seq<char>, i64>, name: Seq<char>, d: i64) -> Map<Seq<char>, i64> {
    Map::new(
        |x: Seq<char>| m.contains_key(x),
        |x: Seq<char>| if x == name { 0 } else if m[x] < d { (m[x] + 1) as i64 } else { m[x] },
    )
}

/// The steps that copy the item at depth `d` to the top.
pub open spec fn copy_steps(d: i64) -> Seq<ScriptStep> {
    seq![ScriptStep::Push(d), ScriptStep::Op(OP_PICK)]
}


/// Dropping none of the names changes nothing and writes nothing.
pub proof fn lemma_drop_nothing(m: Map<Seq<char>, i64>, order: Seq<Seq<char>>, names: Seq<Seq<char>>)
    requires
        names.len() == 0,
    ensures
        drop_plan(m, order, names) == Seq::<ScriptStep>::empty(),
        drop_model(m, order, names) == m,
    decreases order.len(),
{
    if order.len() > 0 {
        lemma_drop_nothing(m, order.drop_last(), names);
    }
}

/// Whether `names` holds the text of `name`.
pub fn contains_name(names: &[String], name: &String) -> (r: bool)
    ensures
        r == views(names@).contains(name@),
{
    let mut i: usize = 0;
    while i < names.len()
        invariant
            i <= names@.len(),
            forall|j: int| 0 <= j < i ==> names@[j]@ != name@,
        decreases names@.len() - i,
    {
        if names[i] == *name {
            assert(views(names@)[i as int] == name@);
            return true;
        }
        i = i + 1;
    }
    assert forall|j: int| 0 <= j < views(names@).len() implies views(names@)[j] != name@ by {
        assert(views(names@)[j] == names@[j]@);
    }
    false
}


/// The model in which the names of `t` sit at depths `0, 1, 2, ...` in
/// order.
pub open spec fn index_map(t: Seq<Seq<char>>) -> Map<Seq<char>, i64> {
    Map::new(|k: Seq<char>| t.contains(k), |k: Seq<char>| t.index_of(k) as i64)
}

/// The order `cur` after the names of `moves` were taken out of it one by
/// one.
pub open spec fn remaining_after(cur: Seq<Seq<char>>, moves: Seq<Seq<char>>) -> Seq<Seq<char>>
    decreases moves.len(),
{
    if moves.len() == 0 {
        cur
    } else {
        let r = remaining_after(cur, moves.drop_last());
        r.remove(r.index_of(moves.last()))
    }
}

/// The steps that take the names of `moves`, one by one, from their
/// positions in what is left of `cur`, rolling each to the top and moving it
/// to the alternate stack.
pub open spec fn move_steps(cur: Seq<Seq<char>>, moves: Seq<Seq<char>>) -> Seq<ScriptStep>
    decreases moves.len(),
{
    if moves.len() == 0 {
        Seq::empty()
    } else {
        let r = remaining_after(cur, moves.drop_last());
        move_steps(cur, moves.drop_last())
            + seq![ScriptStep::Push(r.index_of(moves.last()) as i64), ScriptStep::Op(OP_ROLL), ScriptStep::Op(OP_TO_ALT_STACK)]
    }
}

/// `k` steps that bring items back from the alternate stack.
pub open spec fn restore_steps(k: nat) -> Seq<ScriptStep> {
    Seq::new(k, |i: int| ScriptStep::Op(OP_FROM_ALT_STACK))
}

/// The steps that turn the stack order `cur` into `tgt`: the planner's local
/// operations where there are some, otherwise the names before the longest
/// keepable suffix of `tgt` are parked on the alternate stack, last first,
/// and brought back.
pub open spec fn reorder_plan(cur: Seq<Seq<char>>, tgt: Seq<Seq<char>>) -> Seq<ScriptStep> {
    match local_plan(cur, tgt) {
        Some(ops) => ops.map_values(|op: u8| ScriptStep::Op(op)),
        None => move_steps(cur, tgt.take(keep_start(cur, tgt))) + restore_steps(keep_start(cur, tgt) as nat),
    }
}

/// Whether the two sequences hold the same set of texts.
pub fn same_name_sets(a: &[String], b: &[String]) -> (r: bool)
    ensures
        r == (views(a@).to_set() == views(b@).to_set()),
{
    let mut i: usize = 0;
    while i < a.len()
        invariant
            i <= a@.len(),
            forall|j: int| 0 <= j < i ==> views(b@).contains(#[trigger] views(a@)[j]),
        decreases a@.len() - i,
    {
        if !contains_name(b, &a[i]) {
            assert(!views(b@).to_set().contains(views(a@)[i as int]));
            assert(views(a@).to_set().contains(views(a@)[i as int]));
            return false;
        }
        i = i + 1;
    }
    let mut j: usize = 0;
    while j < b.len()
        invariant
            j <= b@.len(),
            forall|k: int| 0 <= k < a@.len() ==> views(b@).contains(#[trigger] views(a@)[k]),
            forall|k: int| 0 <= k < j ==> views(a@).contains(#[trigger] views(b@)[k]),
        decreases b@.len() - j,
    {
        if !contains_name(a, &b[j]) {
            assert(!views(a@).to_set().contains(views(b@)[j as int]));
            assert(views(b@).to_set().contains(views(b@)[j as int]));
            return false;
        }
        j = j + 1;
    }
    assert forall|x: Seq<char>| views(a@).to_set().contains(x) <==> views(b@).to_set().contains(x) by {
        if views(a@).contains(x) {
            let k = choose|k: int| 0 <= k < views(a@).len() && views(a@)[k] == x;
        }
        if views(b@).contains(x) {
            let k = choose|k: int| 0 <= k < views(b@).len() && views(b@)[k] == x;
        }
    }
    assert(views(a@).to_set() =~= views(b@).to_set());
    true
}

/// The position of `name` in `names`, whose texts are distinct.
fn position_of(names: &Vec<String>, name: &String) -> (r: usize)
    requires
        views(names@).contains(name@),
        views(names@).no_duplicates(),
    ensures
        r < names@.len(),
        r as int == views(names@).index_of(name@),
{
    let mut i: usize = 0;
    while i < names.len()
        invariant
            i <= names@.len(),
            views(names@).contains(name@),
            views(names@).no_duplicates(),
            forall|j: int| 0 <= j < i ==> names@[j]@ != name@,
        decreases names@.len() - i,
    {
        if names[i] == *name {
            proof {
                let v = views(names@);
                assert(v[i as int] == name@);
                assert(v.contains(name@));
                let j = v.index_of(name@);
                assert(0 <= j < v.len() && v[j] == name@);
                if j != i {
                    assert(v[j] != v[i as int]);
                }
            }
            return i;
        }
        i = i + 1;
    }
    proof {
        let k = choose|k: int| 0 <= k < views(names@).len() && views(names@)[k] == name@;
        assert(names@[k]@ == name@);
    }
    0
}

/// The stack-binding model: each bound name with its depth from the top.
#[derive(Debug, Clone)]
pub struct StackBindings {
    entries: Vec<(String, i64)>,
}

impl View for StackBindings {
    type V = Map<Seq<char>, i64>;

    closed spec fn view(&self) -> Map<Seq<char>, i64> {
        entries_map(self.entries@)
    }
}

impl StackBindings {
    /// The model is well formed: no name is bound twice.
    pub closed spec fn wf(&self) -> bool {
        entry_names(self.entries@).no_duplicates()
    }

    /// Index of the entry named `name`, if any.
    fn find(&self, name: &String) -> (r: Option<usize>)
        requires
            self.wf(),
        ensures
            match r {
                Some(i) => i < self.entries@.len() && self.entries@[i as int].0@ == name@,
                None => !has_name(self.entries@, name@),
            },
            r is Some <==> self@.contains_key(name@),
    {
        let mut i: usize = 0;
        while i < self.entries.len()
            invariant
                i <= self.entries@.len(),
                forall|j: int| 0 <= j < i ==> (#[trigger] self.entries@[j]).0@ != name@,
            decreases self.entries@.len() - i,
        {
            if self.entries[i].0 == *name {
                return Some(i);
            }
            i = i + 1;
        }
        None
    }

    /// An empty model.
    pub fn new() -> (r: Self)
        ensures
            r.wf(),
            r@ == Map::<Seq<char>, i64>::empty(),
    {
        let r = StackBindings { entries: Vec::new() };
        assert(r@ =~= Map::<Seq<char>, i64>::empty());
        r
    }

    /// Builds a model from name-depth pairs, inserted in order (a later pair
    /// for the same name replaces an earlier one).
    pub fn from_depths(depths: Vec<(String, i64)>) -> (r: Self)
        ensures
            r.wf(),
            r@ == pairs_to_map(depths@),
    {
        let mut r = StackBindings::new();
        let mut i: usize = 0;
        while i < depths.len()
            invariant
                i <= depths@.len(),
                r.wf(),
                r@ == pairs_to_map(depths@.take(i as int)),
            decreases depths@.len() - i,
        {
            let name = depths[i].0.clone();
            r.set_depth_from_top(name.as_str(), depths[i].1);
            assert(depths@.take(i + 1).drop_last() == depths@.take(i as int));
            i = i + 1;
        }
        assert(depths@.take(depths@.len() as int) == depths@);
        r
    }

    /// Binds `name` at `depth`, replacing any earlier depth of that name.
    pub fn set_depth_from_top(&mut self, name: &str, depth: i64)
        requires
            old(self).wf(),
        ensures
            final(self).wf(),
            final(self)@ == old(self)@.insert(name@, depth),
    {
        let key = name.to_owned();
        let ghost old_entries = self.entries@;
        match self.find(&key) {
            Some(i) => {
                self.entries.set(i, (key, depth));
                proof {
                    let s = self.entries@;
                    assert(entry_names(s) =~= entry_names(old_entries).update(i as int, name@));
                    assert forall|a: int, b: int| 0 <= a < b < entry_names(s).len() implies entry_names(s)[a] != entry_names(s)[b] by {
                        assert(entry_names(old_entries)[a] != entry_names(old_entries)[b]);
                    }
                    let m = old_entries.len();
                    assert forall|j: int| 0 <= j < s.len() implies old(self)@.insert(name@, depth).contains_key((#[trigger] s[j]).0@)
                        && old(self)@.insert(name@, depth)[s[j].0@] == s[j].1 by {
                        if j != i {
                            lemma_entries_map_index(old_entries, j);
                            assert(entry_names(old_entries)[j] != entry_names(old_entries)[i as int]);
                        }
                    }
                    assert forall|k: Seq<char>| old(self)@.insert(name@, depth).contains_key(k) implies has_name(s, k) by {
                        if k == name@ {
                            assert(s[i as int].0@ == k);
                        } else {
                            let j = choose|j: int| 0 <= j < old_entries.len() && (#[trigger] old_entries[j]).0@ == k;
                            assert(s[j].0@ == k);
                        }
                    }
                    lemma_entries_map_ext(s, old(self)@.insert(name@, depth));
                }
            }
            None => {
                self.entries.push((key, depth));
                proof {
                    let s = self.entries@;
                    assert(entry_names(s) =~= entry_names(old_entries).push(name@));
                    assert forall|a: int, b: int| 0 <= a < b < entry_names(s).len() implies entry_names(s)[a] != entry_names(s)[b] by {
                        if b == s.len() - 1 {
                            assert(old_entries[a].0@ == entry_names(old_entries)[a]);
                        } else {
                            assert(entry_names(old_entries)[a] != entry_names(old_entries)[b]);
                        }
                    }
                    assert forall|j: int| 0 <= j < s.len() implies old(self)@.insert(name@, depth).contains_key((#[trigger] s[j]).0@)
                        && old(self)@.insert(name@, depth)[s[j].0@] == s[j].1 by {
                        if j < old_entries.len() {
                            lemma_entries_map_index(old_entries, j);
                        }
                    }
                    assert forall|k: Seq<char>| old(self)@.insert(name@, depth).contains_key(k) implies has_name(s, k) by {
                        if k == name@ {
                            assert(s[s.len() - 1].0@ == k);
                        } else {
                            let j = choose|j: int| 0 <= j < old_entries.len() && (#[trigger] old_entries[j]).0@ == k;
                            assert(s[j].0@ == k);
                        }
                    }
                    lemma_entries_map_ext(s, old(self)@.insert(name@, depth));
                }
            }
        }
    }


    /// The names in the order `binding_order_top_to_bottom` lists them.
    pub closed spec fn order(&self) -> Seq<Seq<char>> {
        entry_names(sort_by_depth(self.entries@))
    }

    /// The order lists every bound name once, shallowest first.
    pub proof fn lemma_order(&self)
        requires
            self.wf(),
        ensures
            is_order_of(self.order(), self@),
    {
        let s = self.entries@;
        let t = sort_by_depth(s);
        lemma_sort_by_depth(s);
        let o = self.order();
        assert forall|i: int| 0 <= i < o.len() implies self@.contains_key(#[trigger] o[i]) && self@[o[i]] == t[i].1 by {
            assert(s.contains(t[i]));
            let j = choose|j: int| 0 <= j < s.len() && s[j] == t[i];
            lemma_entries_map_index(s, j);
        }
        assert forall|k: Seq<char>| self@.contains_key(k) implies o.contains(k) by {
            let j = choose|j: int| 0 <= j < s.len() && (#[trigger] s[j]).0@ == k;
            assert(t.contains(s[j]));
            let i = choose|i: int| 0 <= i < t.len() && t[i] == s[j];
            assert(o[i] == k);
        }
        assert forall|i: int, j: int| 0 <= i <= j < o.len() implies self@[#[trigger] o[i]] <= self@[#[trigger] o[j]] by {
            assert(t[i].1 <= t[j].1);
        }
    }

    /// The entries sorted by depth.
    fn sorted_entries(&self) -> (r: Vec<(String, i64)>)
        ensures
            r@ == sort_by_depth(self.entries@),
    {
        let mut r: Vec<(String, i64)> = Vec::new();
        let mut i: usize = 0;
        while i < self.entries.len()
            invariant
                i <= self.entries@.len(),
                r@ == sort_by_depth(self.entries@.take(i as int)),
            decreases self.entries@.len() - i,
        {
            let d = self.entries[i].1;
            let e = (self.entries[i].0.clone(), d);
            assert(e == self.entries@[i as int]);
            let mut p: usize = 0;
            while p < r.len() && r[p].1 <= d
                invariant
                    p <= r@.len(),
                    forall|k: int| 0 <= k < p ==> (#[trigger] r@[k]).1 <= d,
                decreases r@.len() - p,
            {
                p = p + 1;
            }
            proof {
                lemma_first_deeper_at(r@, d, p as int);
                let s = self.entries@.take(i + 1);
                assert(s.drop_last() =~= self.entries@.take(i as int));
                assert(s.last() == e);
            }
            r.insert(p, e);
            i = i + 1;
        }
        assert(self.entries@.take(self.entries@.len() as int) =~= self.entries@);
        r
    }

    /// The bound names ordered from the top of the stack down.
    pub fn binding_order_top_to_bottom(&self) -> (r: Vec<String>)
        requires
            self.wf(),
        ensures
            views(r@) == self.order(),
            is_order_of(self.order(), self@),
    {
        let sorted = self.sorted_entries();
        let mut r: Vec<String> = Vec::new();
        let mut i: usize = 0;
        while i < sorted.len()
            invariant
                i <= sorted@.len(),
                views(r@) == entry_names(sorted@).take(i as int),
            decreases sorted@.len() - i,
        {
            let ghost before = r@;
            let name = sorted[i].0.clone();
            r.push(name);
            assert(views(r@) =~= views(before).push(entry_names(sorted@)[i as int]));
            assert(views(r@) =~= entry_names(sorted@).take(i + 1));
            i = i + 1;
        }
        assert(entry_names(sorted@).take(sorted@.len() as int) =~= entry_names(sorted@));
        proof {
            self.lemma_order();
        }
        r
    }

    /// The bound names, each once, in no particular order.
    pub fn keys(&self) -> (r: Vec<String>)
        requires
            self.wf(),
        ensures
            views(r@).no_duplicates(),
            views(r@).to_set() == self@.dom(),
    {
        let mut r: Vec<String> = Vec::new();
        let mut i: usize = 0;
        while i < self.entries.len()
            invariant
                i <= self.entries@.len(),
                views(r@) == entry_names(self.entries@).take(i as int),
            decreases self.entries@.len() - i,
        {
            let ghost before = r@;
            let name = self.entries[i].0.clone();
            r.push(name);
            assert(views(r@) =~= views(before).push(entry_names(self.entries@)[i as int]));
            assert(views(r@) =~= entry_names(self.entries@).take(i + 1));
            i = i + 1;
        }
        assert(entry_names(self.entries@).take(self.entries@.len() as int) =~= entry_names(self.entries@));
        proof {
            lemma_entries_map_dom(self.entries@);
        }
        r
    }

    /// The name-depth pairs of the model, each name once.
    pub fn clone_depths(&self) -> (r: Vec<(String, i64)>)
        requires
            self.wf(),
        ensures
            entry_names(r@).no_duplicates(),
            pairs_to_map(r@) == self@,
    {
        let mut r: Vec<(String, i64)> = Vec::new();
        let mut i: usize = 0;
        while i < self.entries.len()
            invariant
                i <= self.entries@.len(),
                r@ == self.entries@.take(i as int),
            decreases self.entries@.len() - i,
        {
            let e = (self.entries[i].0.clone(), self.entries[i].1);
            r.push(e);
            assert(r@ =~= self.entries@.take(i + 1));
            i = i + 1;
        }
        assert(self.entries@.take(self.entries@.len() as int) =~= self.entries@);
        proof {
            lemma_pairs_to_map_distinct(r@);
        }
        r
    }

    /// Pushes a new binding: every bound name moves one deeper and `name`
    /// takes the top.
    pub fn push_binding(&mut self, name: &str)
        requires
            old(self).wf(),
            forall|k: Seq<char>| old(self)@.contains_key(k) ==> old(self)@[k] < i64::MAX,
        ensures
            final(self).wf(),
            final(self)@ == old(self)@.map_values(|d: i64| (d + 1) as i64).insert(name@, 0),
    {
        let ghost old_entries = self.entries@;
        assert(old(self)@ == entries_map(old_entries));
        let mut i: usize = 0;
        while i < self.entries.len()
            invariant
                i <= self.entries@.len(),
                self.entries@.len() == old_entries.len(),
                entry_names(old_entries).no_duplicates(),
                forall|k: Seq<char>| entries_map(old_entries).contains_key(k) ==> entries_map(old_entries)[k] < i64::MAX,
                forall|j: int| 0 <= j < self.entries@.len() ==> (#[trigger] self.entries@[j]).0 == old_entries[j].0,
                forall|j: int| 0 <= j < i ==> (#[trigger] self.entries@[j]).1 == old_entries[j].1 + 1,
                forall|j: int| i <= j < self.entries@.len() ==> (#[trigger] self.entries@[j]).1 == old_entries[j].1,
            decreases self.entries@.len() - i,
        {
            proof {
                lemma_entries_map_index(old_entries, i as int);
            }
            let d = self.entries[i].1;
            let name_i = self.entries[i].0.clone();
            self.entries.set(i, (name_i, d + 1));
            i = i + 1;
        }
        proof {
            let s = self.entries@;
            assert(entry_names(s) =~= entry_names(old_entries));
            let m = old(self)@.map_values(|d: i64| (d + 1) as i64);
            assert forall|j: int| 0 <= j < s.len() implies m.contains_key((#[trigger] s[j]).0@) && m[s[j].0@] == s[j].1 by {
                lemma_entries_map_index(old_entries, j);
            }
            assert forall|k: Seq<char>| m.contains_key(k) implies has_name(s, k) by {
                let j = choose|j: int| 0 <= j < old_entries.len() && (#[trigger] old_entries[j]).0@ == k;
                assert(s[j].0@ == k);
            }
            lemma_entries_map_ext(s, m);
        }
        self.set_depth_from_top(name, 0);
    }


    /// Removes the binding `name` and moves every deeper binding up by one.
    fn remove_binding(&mut self, name: &String)
        requires
            old(self).wf(),
            old(self)@.contains_key(name@),
        ensures
            final(self).wf(),
            final(self)@ == after_drop(old(self)@, name@),
    {
        let ghost m = self@;
        let i = match self.find(name) {
            Some(i) => i,
            None => { return; },
        };
        proof {
            lemma_entries_map_index(self.entries@, i as int);
        }
        let d = self.entries[i].1;
        let ghost e0 = self.entries@;
        self.entries.remove(i);
        let ghost e1 = self.entries@;
        proof {
            assert forall|a: int, b: int| 0 <= a < e1.len() && 0 <= b < e1.len() && a != b
                implies entry_names(e1)[a] != entry_names(e1)[b] by {
                let a0 = if a < i { a } else { a + 1 };
                let b0 = if b < i { b } else { b + 1 };
                assert(e1[a] == e0[a0]);
                assert(e1[b] == e0[b0]);
                assert(entry_names(e0)[a0] != entry_names(e0)[b0]);
            }
        }
        let mut j: usize = 0;
        while j < self.entries.len()
            invariant
                j <= self.entries@.len(),
                self.entries@.len() == e1.len(),
                entry_names(e1).no_duplicates(),
                forall|k: int| 0 <= k < self.entries@.len() ==> (#[trigger] self.entries@[k]).0 == e1[k].0,
                forall|k: int| 0 <= k < j ==> (#[trigger] self.entries@[k]).1 == (if e1[k].1 > d { (e1[k].1 - 1) as i64 } else { e1[k].1 }),
                forall|k: int| j <= k < self.entries@.len() ==> (#[trigger] self.entries@[k]).1 == e1[k].1,
            decreases self.entries@.len() - j,
        {
            let dj = self.entries[j].1;
            if dj > d {
                let nj = self.entries[j].0.clone();
                self.entries.set(j, (nj, dj - 1));
            }
            j = j + 1;
        }
        proof {
            let s = self.entries@;
            assert(entry_names(s) =~= entry_names(e1));
            let t = after_drop(m, name@);
            assert forall|k: int| 0 <= k < s.len() implies t.contains_key((#[trigger] s[k]).0@) && t[s[k].0@] == s[k].1 by {
                let k0 = if k < i { k } else { k + 1 };
                assert(e1[k] == e0[k0]);
                lemma_entries_map_index(e0, k0);
                assert(entry_names(e0)[k0] != entry_names(e0)[i as int]);
            }
            assert forall|x: Seq<char>| t.contains_key(x) implies has_name(s, x) by {
                let k0 = choose|k0: int| 0 <= k0 < e0.len() && (#[trigger] e0[k0]).0@ == x;
                assert(k0 != i);
                let k = if k0 < i { k0 } else { k0 - 1 };
                assert(s[k].0@ == x);
            }
            lemma_entries_map_ext(s, t);
        }
    }

    /// Updates the model after a scalar reassignment whose new value is on
    /// top of the stack, and writes the steps that drop the old value: the
    /// old value is rolled up from one below its slot (the new value sits
    /// above it) and dropped. `name` then sits at depth 0, bindings that
    /// were above its old slot move one deeper, deeper ones stay.
    ///
    /// The steps are written one by one, and the model changes only once all
    /// of them are written. Where the builder refuses a step, the script
    /// keeps the steps before it, the model is left as it was, and the
    /// builder's error is returned: a refused step ends the compilation, so
    /// the model is not read again.
    pub fn emit_update_stack_for_rebinding(&mut self, name: &str, builder: &mut ScriptBuilder) -> (r: Result<(), CompilerError>)
        requires
            old(self).wf(),
            old(self)@.contains_key(name@),
            old(self)@[name@] < i64::MAX,
        ensures
            final(self).wf(),
            ({
                let d = old(self)@[name@];
                &&& r is Ok <==> steps_fit(builder_script(*old(builder)).len() as int, rebinding_steps(d))
                &&& r is Ok ==> builder_script(*final(builder)) == builder_script(*old(builder)) + steps_bytes(rebinding_steps(d))
                &&& r is Ok ==> final(self)@ == rebound(old(self)@, name@, d)
                &&& r is Err ==> final(self)@ == old(self)@
                &&& r is Err ==> exists|k: int| 0 <= k < rebinding_steps(d).len() && builder_script(*final(builder))
                    == builder_script(*old(builder)) + steps_bytes(rebinding_steps(d).take(k))
            }),
            r matches Err(e) ==> e is ScriptBuilder,
    {
        let key = name.to_owned();
        let i = match self.find(&key) {
            Some(i) => i,
            None => { return Ok(()); },
        };
        proof {
            lemma_entries_map_index(self.entries@, i as int);
        }
        let d = self.entries[i].1;
        let mut steps: Vec<ScriptStep> = Vec::new();
        steps.push(ScriptStep::Push(d + 1));
        steps.push(ScriptStep::Op(OP_ROLL));
        steps.push(ScriptStep::Op(OP_DROP));
        assert(steps@ =~= rebinding_steps(d));
        emit_steps(builder, &steps)?;
        let ghost m = self@;
        let ghost e0 = self.entries@;
        let mut j: usize = 0;
        while j < self.entries.len()
            invariant
                j <= self.entries@.len(),
                self.entries@.len() == e0.len(),
                entry_names(e0).no_duplicates(),
                0 <= i < e0.len(),
                e0[i as int].0@ == name@,
                e0[i as int].1 == d,
                d < i64::MAX,
                forall|k: int| 0 <= k < self.entries@.len() ==> (#[trigger] self.entries@[k]).0 == e0[k].0,
                forall|k: int| 0 <= k < j ==> (#[trigger] self.entries@[k]).1 == (if k == i { 0 } else if e0[k].1 < d { (e0[k].1 + 1) as i64 } else { e0[k].1 }),
                forall|k: int| j <= k < self.entries@.len() ==> (#[trigger] self.entries@[k]).1 == e0[k].1,
            decreases self.entries@.len() - j,
        {
            let dj = self.entries[j].1;
            if j == i {
                let nj = self.entries[j].0.clone();
                self.entries.set(j, (nj, 0));
            } else if dj < d {
                let nj = self.entries[j].0.clone();
                self.entries.set(j, (nj, dj + 1));
            }
            j = j + 1;
        }
        proof {
            let s = self.entries@;
            assert(entry_names(s) =~= entry_names(e0));
            let t = rebound(m, name@, d);
            assert forall|k: int| 0 <= k < s.len() implies t.contains_key((#[trigger] s[k]).0@) && t[s[k].0@] == s[k].1 by {
                lemma_entries_map_index(e0, k);
                if k != i {
                    assert(entry_names(e0)[k] != entry_names(e0)[i as int]);
                }
            }
            assert forall|x: Seq<char>| t.contains_key(x) implies has_name(s, x) by {
                let k = choose|k: int| 0 <= k < e0.len() && (#[trigger] e0[k]).0@ == x;
                assert(s[k].0@ == x);
            }
            lemma_entries_map_ext(s, t);
        }
        Ok(())
    }

    /// Copies the value bound to `name` to the top of the stack, where
    /// `stack_depth` more items already sit above the bindings, and counts
    /// the copy in `stack_depth`. Returns `false`, and writes nothing, where
    /// `name` is not bound.
    pub fn emit_copy_binding_to_top(&self, name: &str, stack_depth: &mut i64, builder: &mut ScriptBuilder) -> (r: Result<bool, CompilerError>)
        requires
            self.wf(),
            self@.contains_key(name@) ==> i64::MIN <= self@[name@] + *old(stack_depth) <= i64::MAX,
            self@.contains_key(name@) ==> *old(stack_depth) < i64::MAX,
        ensures
            !self@.contains_key(name@) ==> r == Ok::<bool, CompilerError>(false)
                && *final(stack_depth) == *old(stack_depth)
                && builder_script(*final(builder)) == builder_script(*old(builder)),
            self@.contains_key(name@) ==> ({
                let steps = copy_steps((self@[name@] + *old(stack_depth)) as i64);
                &&& r is Ok <==> steps_fit(builder_script(*old(builder)).len() as int, steps)
                &&& r is Ok ==> r == Ok::<bool, CompilerError>(true)
                    && builder_script(*final(builder)) == builder_script(*old(builder)) + steps_bytes(steps)
                    && *final(stack_depth) == *old(stack_depth) + 1
                &&& r is Err ==> *final(stack_depth) == *old(stack_depth) && exists|k: int| 0 <= k < steps.len()
                    && builder_script(*final(builder)) == builder_script(*old(builder)) + steps_bytes(steps.take(k))
            }),
            r matches Err(e) ==> e is ScriptBuilder,
    {
        let index = match self.depth_from_top(name) {
            Some(d) => d,
            None => { return Ok(false); },
        };
        let mut steps: Vec<ScriptStep> = Vec::new();
        steps.push(ScriptStep::Push(index + *stack_depth));
        steps.push(ScriptStep::Op(OP_PICK));
        assert(steps@ =~= copy_steps((index + *stack_depth) as i64));
        emit_steps(builder, &steps)?;
        *stack_depth = *stack_depth + 1;
        Ok(true)
    }


    /// A copy of the entries.
    fn copy_entries(&self) -> (r: Vec<(String, i64)>)
        ensures
            r@ == self.entries@,
    {
        let mut r: Vec<(String, i64)> = Vec::new();
        let mut i: usize = 0;
        while i < self.entries.len()
            invariant
                i <= self.entries@.len(),
                r@ == self.entries@.take(i as int),
            decreases self.entries@.len() - i,
        {
            let e = (self.entries[i].0.clone(), self.entries[i].1);
            r.push(e);
            assert(r@ =~= self.entries@.take(i + 1));
            i = i + 1;
        }
        assert(self.entries@.take(self.entries@.len() as int) =~= self.entries@);
        r
    }

    /// Removes the named bindings from the stack while preserving the
    /// relative order of all surviving bindings.
    ///
    /// The bindings are removed from the top down, each with `OP_DROP` when
    /// it is on top and otherwise by rolling it up from its depth at that
    /// moment and dropping it; every binding below a removed one moves up by
    /// one. Names that are not bound are ignored.
    ///
    /// The steps are written one by one, and the model changes only once all
    /// of them are written. Where the builder refuses a step, the script
    /// keeps the steps before it, the model is left as it was, and the
    /// builder's error is returned: a refused step ends the compilation, so
    /// the model is not read again.
    pub fn emit_drop_bindings(&mut self, names: &[String], builder: &mut ScriptBuilder) -> (r: Result<(), CompilerError>)
        requires
            old(self).wf(),
        ensures
            final(self).wf(),
            ({
                let plan = drop_plan(old(self)@, old(self).order(), views(names@));
                &&& r is Ok <==> steps_fit(builder_script(*old(builder)).len() as int, plan)
                &&& r is Ok ==> builder_script(*final(builder)) == builder_script(*old(builder)) + steps_bytes(plan)
                &&& r is Ok ==> final(self)@ == drop_model(old(self)@, old(self).order(), views(names@))
                &&& r is Err ==> final(self)@ == old(self)@
                &&& r is Err ==> exists|k: int| 0 <= k < plan.len() && builder_script(*final(builder))
                    == builder_script(*old(builder)) + steps_bytes(plan.take(k))
            }),
            r matches Err(e) ==> e is ScriptBuilder,
    {
        if names.len() == 0 {
            proof {
                lemma_drop_nothing(self@, self.order(), views(names@));
            }
            return Ok(());
        }
        let ghost m = self@;
        let ghost o = self.order();
        let ghost d_names = views(names@);
        let order = self.binding_order_top_to_bottom();
        let mut work = StackBindings { entries: self.copy_entries() };
        let mut steps: Vec<ScriptStep> = Vec::new();
        assert(o.take(0) =~= Seq::<Seq<char>>::empty());
        let mut i: usize = 0;
        while i < order.len()
            invariant
                i <= order@.len(),
                views(order@) == o,
                is_order_of(o, m),
                d_names == views(names@),
                work.wf(),
                work@ == drop_model(m, o.take(i as int), d_names),
                steps@ == drop_plan(m, o.take(i as int), d_names),
                forall|j: int| i <= j < o.len() ==> work@.contains_key(#[trigger] o[j]),
            decreases order@.len() - i,
        {
            proof {
                assert(o.take(i + 1).drop_last() =~= o.take(i as int));
                assert(o.take(i + 1).last() == o[i as int]);
                assert(order@[i as int]@ == o[i as int]);
            }
            if contains_name(names, &order[i]) {
                let d = match work.depth_from_top(order[i].as_str()) {
                    Some(d) => d,
                    None => { return Ok(()); },
                };
                if d == 0 {
                    steps.push(ScriptStep::Op(OP_DROP));
                } else {
                    steps.push(ScriptStep::Push(d));
                    steps.push(ScriptStep::Op(OP_ROLL));
                    steps.push(ScriptStep::Op(OP_DROP));
                }
                let ghost w0 = work@;
                work.remove_binding(&order[i]);
                proof {
                    assert(steps@ =~= drop_plan(m, o.take(i as int), d_names) + drop_step(d));
                    assert forall|j: int| i + 1 <= j < o.len() implies work@.contains_key(#[trigger] o[j]) by {
                        assert(w0.contains_key(o[j]));
                        assert(o[j] != o[i as int]);
                    }
                }
            }
            i = i + 1;
        }
        assert(o.take(o.len() as int) =~= o);
        emit_steps(builder, &steps)?;
        self.entries = work.entries;
        Ok(())
    }


    /// Makes the model list the names of `target_order` at depths
    /// `0, 1, 2, ...`.
    fn reset_to_target_order(&mut self, target_order: &[String])
        requires
            views(target_order@).no_duplicates(),
        ensures
            final(self).wf(),
            final(self)@ == index_map(views(target_order@)),
    {
        let ghost t = views(target_order@);
        let mut entries: Vec<(String, i64)> = Vec::new();
        let mut i: usize = 0;
        while i < target_order.len()
            invariant
                i <= target_order@.len(),
                t == views(target_order@),
                entries@.len() == i,
                forall|j: int| 0 <= j < i ==> (#[trigger] entries@[j]).0@ == t[j] && entries@[j].1 == j as i64,
            decreases target_order@.len() - i,
        {
            let name = target_order[i].clone();
            entries.push((name, i as i64));
            i = i + 1;
        }
        self.entries = entries;
        proof {
            let s = self.entries@;
            assert(entry_names(s) =~= t);
            let m = index_map(t);
            assert forall|j: int| 0 <= j < s.len() implies m.contains_key((#[trigger] s[j]).0@) && m[s[j].0@] == s[j].1 by {
                assert(t.contains(t[j]));
                let q = t.index_of(t[j]);
                assert(t[q] == t[j]);
            }
            assert forall|k: Seq<char>| m.contains_key(k) implies has_name(s, k) by {
                let j = choose|j: int| 0 <= j < t.len() && t[j] == k;
                assert(s[j].0@ == k);
            }
            lemma_entries_map_ext(s, m);
        }
    }

    /// Reorders the stack so that the bindings sit in `target_order` (top
    /// first), which must hold the same names as the model, each once; where
    /// the names differ, nothing changes and an error says so. Where the
    /// order already is the target, nothing is written; a model whose depths
    /// are `0, 1, ..., n - 1` then already has each name at its place in the
    /// target.
    ///
    /// Nothing is written where the order already matches. Otherwise the
    /// planner's one or two local operations are used where they suffice;
    /// else the longest suffix of `target_order` that already occurs in
    /// order stays in place and the names before it are rolled, one by one,
    /// onto the alternate stack and then brought back. The model then lists
    /// the target order at depths `0, 1, 2, ...`.
    ///
    /// The steps are written one by one, and the model changes only once all
    /// of them are written. Where the builder refuses a step, the script
    /// keeps the steps before it, the model is left as it was, and the
    /// builder's error is returned: a refused step ends the compilation, so
    /// the model is not read again.
    pub fn emit_stack_reordering(&mut self, target_order: &[String], builder: &mut ScriptBuilder) -> (r: Result<(), CompilerError>)
        requires
            old(self).wf(),
            views(target_order@).to_set() == old(self).order().to_set() ==> views(target_order@).no_duplicates(),
        ensures
            final(self).wf(),
            ({
                let cur = old(self).order();
                let tgt = views(target_order@);
                if cur == tgt {
                    &&& r is Ok
                    &&& final(self)@ == old(self)@
                    &&& builder_script(*final(builder)) == builder_script(*old(builder))
                    &&& crate::dense_layout::dense(old(self)@) ==> final(self)@ == index_map(tgt)
                } else if cur.to_set() != tgt.to_set() {
                    &&& r matches Err(CompilerError::Unsupported(msg))
                        && msg@ == "stack reconciliation requires both layouts to contain the same bindings"@
                    &&& final(self)@ == old(self)@
                    &&& builder_script(*final(builder)) == builder_script(*old(builder))
                } else {
                    let plan = reorder_plan(cur, tgt);
                    &&& r is Ok <==> steps_fit(builder_script(*old(builder)).len() as int, plan)
                    &&& r is Ok ==> builder_script(*final(builder)) == builder_script(*old(builder)) + steps_bytes(plan)
                    &&& r is Ok ==> final(self)@ == index_map(tgt)
                    &&& r is Err ==> final(self)@ == old(self)@
                    &&& r is Err ==> exists|k: int| 0 <= k < plan.len() && builder_script(*final(builder))
                        == builder_script(*old(builder)) + steps_bytes(plan.take(k))
                    &&& r matches Err(e) ==> e is ScriptBuilder
                }
            }),
    {
        let ghost cur = self.order();
        let ghost tgt = views(target_order@);
        let current = self.binding_order_top_to_bottom();
        if same_names(&current, target_order) {
            proof {
                if crate::dense_layout::dense(self@) {
                    crate::dense_layout::lemma_dense_is_index_map(*self);
                }
            }
            return Ok(());
        }
        if !same_name_sets(&current, target_order) {
            return Err(CompilerError::Unsupported(
                String::from_str("stack reconciliation requires both layouts to contain the same bindings"),
            ));
        }
        match local_stack_reordering_opcodes(&current, target_order) {
            Some(ops) => {
                let mut steps: Vec<ScriptStep> = Vec::new();
                let mut i: usize = 0;
                while i < ops.len()
                    invariant
                        i <= ops@.len(),
                        steps@ == ops@.take(i as int).map_values(|op: u8| ScriptStep::Op(op)),
                    decreases ops@.len() - i,
                {
                    steps.push(ScriptStep::Op(ops[i]));
                    assert(ops@.take(i + 1) =~= ops@.take(i as int).push(ops@[i as int]));
                    assert(steps@ =~= ops@.take(i + 1).map_values(|op: u8| ScriptStep::Op(op)));
                    i = i + 1;
                }
                assert(ops@.take(ops@.len() as int) =~= ops@);
                emit_steps(builder, &steps)?;
                self.reset_to_target_order(target_order);
                return Ok(());
            },
            None => {},
        }
        let keep = longest_keepable_suffix_start(&current, target_order);
        proof {
            lemma_keep_start_unique(cur, tgt, keep as int);
            self.lemma_order();
        }
        let mut remaining = current;
        proof {
            assert forall|j: int| 0 <= j < tgt.len() implies views(remaining@).contains(#[trigger] tgt[j]) by {
                assert(tgt.to_set().contains(tgt[j]));
                assert(cur.to_set().contains(tgt[j]));
            }
        }
        let mut steps: Vec<ScriptStep> = Vec::new();
        assert(tgt.take(0) =~= Seq::<Seq<char>>::empty());
        let mut i: usize = 0;
        while i < keep
            invariant
                i <= keep <= target_order@.len(),
                tgt == views(target_order@),
                tgt.no_duplicates(),
                views(remaining@) == remaining_after(cur, tgt.take(i as int)),
                views(remaining@).no_duplicates(),
                steps@ == move_steps(cur, tgt.take(i as int)),
                forall|j: int| i <= j < tgt.len() ==> views(remaining@).contains(#[trigger] tgt[j]),
            decreases keep - i,
        {
            proof {
                assert(tgt.take(i + 1).drop_last() =~= tgt.take(i as int));
                assert(tgt.take(i + 1).last() == tgt[i as int]);
                assert(target_order@[i as int]@ == tgt[i as int]);
            }
            let p = position_of(&remaining, &target_order[i]);
            steps.push(ScriptStep::Push(p as i64));
            steps.push(ScriptStep::Op(OP_ROLL));
            steps.push(ScriptStep::Op(OP_TO_ALT_STACK));
            let ghost before = views(remaining@);
            remaining.remove(p);
            proof {
                assert(views(remaining@) =~= before.remove(p as int));
                assert(steps@ =~= move_steps(cur, tgt.take(i + 1)));
                assert forall|a: int, b: int| 0 <= a < views(remaining@).len() && 0 <= b < views(remaining@).len() && a != b
                    implies views(remaining@)[a] != views(remaining@)[b] by {
                    let a0 = if a < p { a } else { a + 1 };
                    let b0 = if b < p { b } else { b + 1 };
                    assert(before[a0] != before[b0]);
                }
                assert forall|j: int| i + 1 <= j < tgt.len() implies views(remaining@).contains(#[trigger] tgt[j]) by {
                    assert(before.contains(tgt[j]));
                    let q = choose|q: int| 0 <= q < before.len() && before[q] == tgt[j];
                    assert(tgt[j] != tgt[i as int]);
                    assert(q != p);
                    let q1 = if q < p { q } else { q - 1 };
                    assert(views(remaining@)[q1] == tgt[j]);
                }
            }
            i = i + 1;
        }
        let ghost moved = steps@;
        let mut j: usize = 0;
        while j < keep
            invariant
                j <= keep,
                steps@ == moved + restore_steps(j as nat),
            decreases keep - j,
        {
            steps.push(ScriptStep::Op(OP_FROM_ALT_STACK));
            assert(steps@ =~= moved + restore_steps((j + 1) as nat));
            j = j + 1;
        }
        emit_steps(builder, &steps)?;
        self.reset_to_target_order(target_order);
        Ok(())
    }

    /// The number of bound names.
    pub fn len(&self) -> (r: usize)
        requires
            self.wf(),
        ensures
            self@.dom().finite(),
            r == self@.dom().len(),
    {
        proof {
            lemma_entries_map_dom(self.entries@);
            entry_names(self.entries@).unique_seq_to_set();
        }
        self.entries.len()
    }

    /// Whether `name` is bound.
    pub fn contains(&self, name: &str) -> (r: bool)
        requires
            self.wf(),
        ensures
            r == self@.contains_key(name@),
    {
        let key = name.to_owned();
        self.find(&key).is_some()
    }

    /// The depth of `name`, if it is bound.
    pub fn depth_from_top(&self, name: &str) -> (r: Option<i64>)
        requires
            self.wf(),
        ensures
            r == (if self@.contains_key(name@) { Some(self@[name@]) } else { None::<i64> }),
    {
        let key = name.to_owned();
        match self.find(&key) {
            Some(i) => {
                proof {
                    lemma_entries_map_index(self.entries@, i as int);
                }
                Some(self.entries[i].1)
            },
            None => None,
        }
    }
}

} // verus!
