//! Orders of bound names on the stack, and the plans that turn one order
//! into another with few stack operations.
use vstd::prelude::*;
use crate::opcodes::{OP_2_ROT, OP_2_SWAP, OP_ROT, OP_SWAP};

verus! {

/// The views of a sequence of strings.
pub open spec fn views(s: Seq<String>) -> Seq<Seq<char>> {
    s.map_values(|x: String| x@)
}

/// Whether two string sequences hold the same texts in the same order.
pub fn same_names(a: &[String], b: &[String]) -> (r: bool)
    ensures
        r == (views(a@) == views(b@)),
{
    if a.len() != b.len() {
        assert(views(a@).len() != views(b@).len());
        return false;
    }
    let mut i: usize = 0;
    while i < a.len()
        invariant
            a@.len() == b@.len(),
            i <= a@.len(),
            forall|j: int| 0 <= j < i ==> a@[j]@ == b@[j]@,
        decreases a@.len() - i,
    {
        if a[i] != b[i] {
            assert(views(a@)[i as int] != views(b@)[i as int]);
            return false;
        }
        i = i + 1;
    }
    assert(views(a@) =~= views(b@));
    true
}

/// The four local stack operations, in the order the planner tries them.
pub open spec fn local_op(i: int) -> u8 {
    if i == 0 {
        OP_SWAP
    } else if i == 1 {
        OP_ROT
    } else if i == 2 {
        OP_2_SWAP
    } else {
        OP_2_ROT
    }
}

/// What a local stack operation does to a stack listed top first:
/// `OP_SWAP` exchanges the top two items, `OP_ROT` brings the third item to
/// the top, `OP_2SWAP` exchanges the top two pairs, `OP_2ROT` brings the
/// third pair to the top. `None` where the stack is too short or the opcode
/// is not one of these.
pub open spec fn local_effect<A>(s: Seq<A>, op: u8) -> Option<Seq<A>> {
    if op == OP_SWAP {
        if s.len() < 2 { None } else { Some(seq![s[1], s[0]] + s.skip(2)) }
    } else if op == OP_ROT {
        if s.len() < 3 { None } else { Some(seq![s[2], s[0], s[1]] + s.skip(3)) }
    } else if op == OP_2_SWAP {
        if s.len() < 4 { None } else { Some(seq![s[2], s[3], s[0], s[1]] + s.skip(4)) }
    } else if op == OP_2_ROT {
        if s.len() < 6 { None } else { Some(seq![s[4], s[5], s[0], s[1], s[2], s[3]] + s.skip(6)) }
    } else {
        None
    }
}

/// Applying local operations one after another; `None` if one of them
/// does not apply.
pub open spec fn local_effects<A>(s: Seq<A>, ops: Seq<u8>) -> Option<Seq<A>>
    decreases ops.len(),
{
    if ops.len() == 0 {
        Some(s)
    } else {
        match local_effect(s, ops[0]) {
            Some(t) => local_effects(t, ops.drop_first()),
            None => None,
        }
    }
}

/// The local operation of index `a` turns `cur` into `tgt`.
pub open spec fn single_works(cur: Seq<Seq<char>>, tgt: Seq<Seq<char>>, a: int) -> bool {
    local_effect(cur, local_op(a)) == Some(tgt)
}

/// The local operations of indices `a` then `b` turn `cur` into `tgt`.
pub open spec fn pair_works(cur: Seq<Seq<char>>, tgt: Seq<Seq<char>>, a: int, b: int) -> bool {
    local_effects(cur, seq![local_op(a), local_op(b)]) == Some(tgt)
}


/// The index of the first local operation that turns `cur` into `tgt`.
pub open spec fn first_single(cur: Seq<Seq<char>>, tgt: Seq<Seq<char>>) -> int {
    choose|a: int| 0 <= a < 4 && single_works(cur, tgt, a) && forall|a2: int| 0 <= a2 < a ==> !single_works(cur, tgt, a2)
}

/// The first pair of local operations, by first then second operation, that
/// turns `cur` into `tgt`.
pub open spec fn first_pair(cur: Seq<Seq<char>>, tgt: Seq<Seq<char>>) -> (int, int) {
    choose|a: int, b: int| 0 <= a < 4 && 0 <= b < 4 && pair_works(cur, tgt, a, b)
        && forall|a2: int, b2: int| 0 <= a2 < 4 && 0 <= b2 < 4 && (a2 < a || (a2 == a && b2 < b)) ==> !pair_works(cur, tgt, a2, b2)
}

/// The plan of at most two local operations that the planner picks: the
/// first single operation that works, else the first pair, else none.
pub open spec fn local_plan(cur: Seq<Seq<char>>, tgt: Seq<Seq<char>>) -> Option<Seq<u8>> {
    if cur.len() != tgt.len() {
        None
    } else if exists|a: int| 0 <= a < 4 && single_works(cur, tgt, a) {
        Some(seq![local_op(first_single(cur, tgt))])
    } else if exists|a: int, b: int| 0 <= a < 4 && 0 <= b < 4 && pair_works(cur, tgt, a, b) {
        Some(seq![local_op(first_pair(cur, tgt).0), local_op(first_pair(cur, tgt).1)])
    } else {
        None
    }
}

/// Where the longest suffix of `tgt` that is a subsequence of `cur` begins.
pub open spec fn keep_start(cur: Seq<Seq<char>>, tgt: Seq<Seq<char>>) -> int {
    choose|r: int| 0 <= r <= tgt.len() && is_subseq(#[trigger] tgt.skip(r), cur) && (r > 0 ==> !is_subseq(tgt.skip(r - 1), cur))
}

/// Dropping the first item of a subsequence leaves a subsequence.
pub proof fn lemma_subseq_drop_first<A>(a: Seq<A>, b: Seq<A>)
    requires
        a.len() > 0,
        is_subseq(a, b),
    ensures
        is_subseq(a.drop_first(), b),
{
    let p = lemma_subseq_first(a, b);
    lemma_subseq_extend(a.drop_first(), b, p + 1, 0);
    assert(b.skip(0) =~= b);
}

/// Any start with the properties of `keep_start` is `keep_start`.
pub proof fn lemma_keep_start_unique(cur: Seq<Seq<char>>, tgt: Seq<Seq<char>>, r: int)
    requires
        0 <= r <= tgt.len(),
        is_subseq(tgt.skip(r), cur),
        r > 0 ==> !is_subseq(tgt.skip(r - 1), cur),
    ensures
        keep_start(cur, tgt) == r,
{
    let k = keep_start(cur, tgt);
    assert(0 <= k <= tgt.len() && is_subseq(tgt.skip(k), cur) && (k > 0 ==> !is_subseq(tgt.skip(k - 1), cur)));
    if k < r {
        lemma_subseq_suffix(cur, tgt, k, r - 1);
    } else if r < k {
        lemma_subseq_suffix(cur, tgt, r, k - 1);
    }
}

/// A suffix of a subsequence suffix is a subsequence.
pub proof fn lemma_subseq_suffix(cur: Seq<Seq<char>>, tgt: Seq<Seq<char>>, k: int, r: int)
    requires
        0 <= k <= r <= tgt.len(),
        is_subseq(tgt.skip(k), cur),
    ensures
        is_subseq(tgt.skip(r), cur),
    decreases r - k,
{
    if k < r {
        lemma_subseq_drop_first(tgt.skip(k), cur);
        assert(tgt.skip(k).drop_first() =~= tgt.skip(k + 1));
        lemma_subseq_suffix(cur, tgt, k + 1, r);
    }
}

/// Copies `order[idx[0]], order[idx[1]], ...` followed by `order[from..]`.
fn rearranged(order: &[String], idx: &[usize], from: usize) -> (r: Vec<String>)
    requires
        from <= order@.len(),
        forall|j: int| 0 <= j < idx@.len() ==> idx@[j] < order@.len(),
    ensures
        views(r@) == idx@.map_values(|i: usize| views(order@)[i as int]) + views(order@).skip(from as int),
{
    let mut r: Vec<String> = Vec::new();
    let mut j: usize = 0;
    while j < idx.len()
        invariant
            j <= idx@.len(),
            forall|k: int| 0 <= k < idx@.len() ==> idx@[k] < order@.len(),
            views(r@) == idx@.take(j as int).map_values(|i: usize| views(order@)[i as int]),
        decreases idx@.len() - j,
    {
        let ghost before = r@;
        let item = order[idx[j]].clone();
        r.push(item);
        assert(views(r@) =~= views(before).push(views(order@)[idx@[j as int] as int]));
        assert(idx@.take(j + 1) == idx@.take(j as int).push(idx@[j as int]));
        assert(views(r@) =~= idx@.take(j + 1).map_values(|i: usize| views(order@)[i as int]));
        j = j + 1;
    }
    assert(idx@.take(idx@.len() as int) == idx@);
    let ghost head = views(r@);
    let mut k: usize = from;
    while k < order.len()
        invariant
            from <= k <= order@.len(),
            views(r@) == head + views(order@).subrange(from as int, k as int),
        decreases order@.len() - k,
    {
        let ghost before = r@;
        let item = order[k].clone();
        r.push(item);
        assert(views(r@) =~= views(before).push(views(order@)[k as int]));
        assert(views(r@) =~= head + views(order@).subrange(from as int, k + 1));
        k = k + 1;
    }
    assert(views(order@).subrange(from as int, order@.len() as int) == views(order@).skip(from as int));
    r
}

/// Applies one local stack operation to a top-first order of names.
pub fn apply_local_opcode(order: &[String], opcode: u8) -> (r: Option<Vec<String>>)
    ensures
        match local_effect(views(order@), opcode) {
            Some(t) => r matches Some(v) && views(v@) == t,
            None => r is None,
        },
{
    let n = order.len();
    let ghost v = views(order@);
    if opcode == OP_SWAP {
        if n < 2 {
            return None;
        }
        let idx: [usize; 2] = [1, 0];
        let r = rearranged(order, &idx, 2);
        assert(idx@.map_values(|i: usize| v[i as int]) =~= seq![v[1], v[0]]);
        Some(r)
    } else if opcode == OP_ROT {
        if n < 3 {
            return None;
        }
        let idx: [usize; 3] = [2, 0, 1];
        let r = rearranged(order, &idx, 3);
        assert(idx@.map_values(|i: usize| v[i as int]) =~= seq![v[2], v[0], v[1]]);
        Some(r)
    } else if opcode == OP_2_SWAP {
        if n < 4 {
            return None;
        }
        let idx: [usize; 4] = [2, 3, 0, 1];
        let r = rearranged(order, &idx, 4);
        assert(idx@.map_values(|i: usize| v[i as int]) =~= seq![v[2], v[3], v[0], v[1]]);
        Some(r)
    } else if opcode == OP_2_ROT {
        if n < 6 {
            return None;
        }
        let idx: [usize; 6] = [4, 5, 0, 1, 2, 3];
        let r = rearranged(order, &idx, 6);
        assert(idx@.map_values(|i: usize| v[i as int]) =~= seq![v[4], v[5], v[0], v[1], v[2], v[3]]);
        Some(r)
    } else {
        None
    }
}

/// The opcode of local operation index `i`.
fn local_op_exec(i: usize) -> (r: u8)
    requires
        i < 4,
    ensures
        r == local_op(i as int),
{
    if i == 0 {
        OP_SWAP
    } else if i == 1 {
        OP_ROT
    } else if i == 2 {
        OP_2_SWAP
    } else {
        OP_2_ROT
    }
}

/// Looks for one local stack operation, or two in a row, that turn
/// `current_order` into `target_order` (both listed top first).
///
/// A single operation is preferred to a pair; among singles the first of
/// `OP_SWAP, OP_ROT, OP_2SWAP, OP_2ROT` that works is taken, and among pairs
/// the first in that order by first then second operation.
pub fn local_stack_reordering_opcodes(current_order: &[String], target_order: &[String]) -> (r: Option<Vec<u8>>)
    ensures
        ({
            let cur = views(current_order@);
            let tgt = views(target_order@);
            match r {
                Some(ops) => cur.len() == tgt.len() && (
                    (ops@.len() == 1 && exists|a: int| 0 <= a < 4 && ops@[0] == local_op(a) && single_works(cur, tgt, a)
                        && forall|a2: int| 0 <= a2 < a ==> !single_works(cur, tgt, a2))
                    || (ops@.len() == 2 && (forall|a: int| 0 <= a < 4 ==> !single_works(cur, tgt, a))
                        && exists|a: int, b: int| 0 <= a < 4 && 0 <= b < 4 && ops@[0] == local_op(a) && ops@[1] == local_op(b)
                            && pair_works(cur, tgt, a, b)
                            && forall|a2: int, b2: int| 0 <= a2 < 4 && 0 <= b2 < 4 && (a2 < a || (a2 == a && b2 < b))
                                ==> !pair_works(cur, tgt, a2, b2))),
                None => cur.len() != tgt.len() || (
                    (forall|a: int| 0 <= a < 4 ==> !single_works(cur, tgt, a))
                    && (forall|a: int, b: int| 0 <= a < 4 && 0 <= b < 4 ==> !pair_works(cur, tgt, a, b))),
            }
        }),
        match r {
            Some(ops) => local_plan(views(current_order@), views(target_order@)) == Some(ops@),
            None => local_plan(views(current_order@), views(target_order@)) is None,
        },
        r matches Some(ops) ==> 1 <= ops@.len() <= 2 && local_effects(views(current_order@), ops@) == Some(
            views(target_order@),
        ),
{
    let ghost cur = views(current_order@);
    let ghost tgt = views(target_order@);
    if current_order.len() != target_order.len() {
        return None;
    }
    let mut a: usize = 0;
    while a < 4
        invariant
            a <= 4,
            cur == views(current_order@),
            tgt == views(target_order@),
            forall|a2: int| 0 <= a2 < a ==> !single_works(cur, tgt, a2),
        decreases 4 - a,
    {
        let op = local_op_exec(a);
        match apply_local_opcode(current_order, op) {
            Some(next) => {
                if same_names(&next, target_order) {
                    let mut ops: Vec<u8> = Vec::new();
                    ops.push(op);
                    proof {
                        assert(single_works(cur, tgt, a as int));
                        let f = first_single(cur, tgt);
                        assert(0 <= f < 4 && single_works(cur, tgt, f) && forall|a2: int| 0 <= a2 < f ==> !single_works(cur, tgt, a2));
                        assert(f == a);
                        assert(ops@ =~= seq![local_op(a as int)]);
                        assert(ops@.drop_first() =~= Seq::<u8>::empty());
                        reveal_with_fuel(local_effects, 2);
                    }
                    return Some(ops);
                }
            },
            None => {},
        }
        a = a + 1;
    }
    let mut a: usize = 0;
    while a < 4
        invariant
            a <= 4,
            cur == views(current_order@),
            tgt == views(target_order@),
            cur.len() == tgt.len(),
            forall|a2: int| 0 <= a2 < 4 ==> !single_works(cur, tgt, a2),
            forall|a2: int, b2: int| 0 <= a2 < a && 0 <= b2 < 4 ==> !pair_works(cur, tgt, a2, b2),
        decreases 4 - a,
    {
        let first = local_op_exec(a);
        match apply_local_opcode(current_order, first) {
            Some(mid) => {
                let mut b: usize = 0;
                while b < 4
                    invariant
                        a < 4,
                        b <= 4,
                        cur == views(current_order@),
                        tgt == views(target_order@),
                        cur.len() == tgt.len(),
                        first == local_op(a as int),
                        local_effect(cur, first) == Some(views(mid@)),
                        forall|a2: int| 0 <= a2 < 4 ==> !single_works(cur, tgt, a2),
                        forall|a2: int, b2: int| 0 <= a2 < a && 0 <= b2 < 4 ==> !pair_works(cur, tgt, a2, b2),
                        forall|b2: int| 0 <= b2 < b ==> !pair_works(cur, tgt, a as int, b2),
                    decreases 4 - b,
                {
                    let second = local_op_exec(b);
                    proof {
                        let ops = seq![first, second];
                        assert(ops.drop_first() =~= seq![second]);
                        assert(seq![second].drop_first() =~= Seq::<u8>::empty());
                        reveal_with_fuel(local_effects, 3);
                        assert(local_effects(cur, ops) == local_effects(views(mid@), seq![second]));
                        assert(local_effects(views(mid@), seq![second]) == match local_effect(views(mid@), second) {
                            Some(t) => Some(t),
                            None => None::<Seq<Seq<char>>>,
                        });
                    }
                    match apply_local_opcode(&mid, second) {
                        Some(next) => {
                            if same_names(&next, target_order) {
                                let mut ops: Vec<u8> = Vec::new();
                                ops.push(first);
                                ops.push(second);
                                assert(pair_works(cur, tgt, a as int, b as int));
                                proof {
                                    let (fa, fb) = first_pair(cur, tgt);
                                    assert(0 <= fa < 4 && 0 <= fb < 4 && pair_works(cur, tgt, fa, fb)
                                        && forall|a2: int, b2: int| 0 <= a2 < 4 && 0 <= b2 < 4 && (a2 < fa || (a2 == fa && b2 < fb)) ==> !pair_works(cur, tgt, a2, b2));
                                    assert(fa == a && fb == b);
                                    assert(ops@ =~= seq![local_op(a as int), local_op(b as int)]);
                                }
                                return Some(ops);
                            }
                        },
                        None => {},
                    }
                    b = b + 1;
                }
            },
            None => {
                assert forall|b2: int| 0 <= b2 < 4 implies !pair_works(cur, tgt, a as int, b2) by {
                    assert(local_effect(cur, local_op(a as int)) is None);
                }
            },
        }
        a = a + 1;
    }
    None
}

/// `a` is a subsequence of `b`: its items occur in `b` in the same order,
/// not necessarily next to each other.
pub open spec fn is_subseq<A>(a: Seq<A>, b: Seq<A>) -> bool
    decreases b.len(),
{
    if a.len() == 0 {
        true
    } else if b.len() == 0 {
        false
    } else {
        (a[0] == b[0] && is_subseq(a.drop_first(), b.drop_first())) || is_subseq(a, b.drop_first())
    }
}

/// A subsequence of a suffix of `b` is a subsequence of any longer suffix.
pub proof fn lemma_subseq_extend<A>(a: Seq<A>, b: Seq<A>, k: int, k2: int)
    requires
        0 <= k2 <= k <= b.len(),
        is_subseq(a, b.skip(k)),
    ensures
        is_subseq(a, b.skip(k2)),
    decreases k - k2,
{
    if k2 < k {
        lemma_subseq_extend(a, b, k, k2 + 1);
        assert(b.skip(k2).drop_first() =~= b.skip(k2 + 1));
    }
}

/// The first item of a non-empty subsequence sits somewhere in `b`, with the
/// rest of the subsequence after it.
pub proof fn lemma_subseq_first<A>(a: Seq<A>, b: Seq<A>) -> (p: int)
    requires
        a.len() > 0,
        is_subseq(a, b),
    ensures
        0 <= p < b.len(),
        b[p] == a[0],
        is_subseq(a.drop_first(), b.skip(p + 1)),
    decreases b.len(),
{
    if a[0] == b[0] && is_subseq(a.drop_first(), b.drop_first()) {
        assert(b.skip(1) =~= b.drop_first());
        0
    } else {
        let q = lemma_subseq_first(a, b.drop_first());
        assert(b.drop_first().skip(q + 1) =~= b.skip(q + 2));
        q + 1
    }
}

/// Finds where the longest suffix of `target_order` that occurs, in order,
/// within `current_order` begins: those names can stay where they are while
/// the ones before are moved.
pub fn longest_keepable_suffix_start(current_order: &[String], target_order: &[String]) -> (r: usize)
    ensures
        r <= target_order@.len(),
        is_subseq(views(target_order@).skip(r as int), views(current_order@)),
        r > 0 ==> !is_subseq(views(target_order@).skip(r - 1), views(current_order@)),
{
    let ghost c = views(current_order@);
    let ghost t = views(target_order@);
    let m = current_order.len();
    let n = target_order.len();
    let mut i = m;
    let mut j = n;
    assert(t.skip(n as int).len() == 0);
    while j > 0
        invariant
            c == views(current_order@),
            t == views(target_order@),
            m == c.len(),
            n == t.len(),
            i <= m,
            j <= n,
            is_subseq(t.skip(j as int), c.skip(i as int)),
            j == n ==> i == m,
            j < n ==> forall|i2: int| i < i2 <= m ==> !is_subseq(t.skip(j as int), #[trigger] c.skip(i2)),
        decreases j,
    {
        let ghost i_old = i;
        while i > 0 && current_order[i - 1] != target_order[j - 1]
            invariant
                c == views(current_order@),
                t == views(target_order@),
                0 < j <= n,
                i <= i_old <= m,
                m == current_order@.len(),
                n == target_order@.len(),
                forall|p: int| i <= p < i_old ==> c[p] != t[j - 1],
            decreases i,
        {
            assert(c[i - 1] == current_order@[i - 1]@);
            assert(t[j - 1] == target_order@[j - 1]@);
            i = i - 1;
        }
        if i == 0 {
            proof {
                assert(m == current_order@.len());
                lemma_subseq_extend(t.skip(j as int), c, i_old as int, 0);
                assert(c.skip(0) =~= c);
                if is_subseq(t.skip(j - 1), c) {
                    assert(c.skip(0) =~= c);
                    let p = lemma_subseq_first(t.skip(j - 1), c);
                    assert(t.skip(j - 1).drop_first() =~= t.skip(j as int));
                    assert(c.skip(p + 1) =~= c.skip(p + 1));
                    if j < n {
                        assert(!is_subseq(t.skip(j as int), c.skip(p + 1)));
                    }
                }
            }
            return j;
        }
        proof {
            assert(c[i - 1] == t[j - 1]);
            lemma_subseq_extend(t.skip(j as int), c, i_old as int, i as int);
            let a = t.skip(j - 1);
            let b = c.skip(i - 1);
            assert(a.drop_first() =~= t.skip(j as int));
            assert(b.drop_first() =~= c.skip(i as int));
            assert(is_subseq(a, b));
            assert forall|i2: int| i - 1 < i2 <= m implies !is_subseq(t.skip(j - 1), #[trigger] c.skip(i2)) by {
                if is_subseq(t.skip(j - 1), c.skip(i2)) {
                    let p = lemma_subseq_first(t.skip(j - 1), c.skip(i2));
                    let q = i2 + p;
                    assert(c.skip(i2)[p] == c[q]);
                    assert(c.skip(i2).skip(p + 1) =~= c.skip(q + 1));
                    assert(t.skip(j - 1).drop_first() =~= t.skip(j as int));
                    if q < i_old {
                        assert(c[q] != t[j - 1]);
                    } else if j < n {
                        assert(!is_subseq(t.skip(j as int), c.skip(q + 1)));
                    }
                }
            }
        }
        i = i - 1;
        j = j - 1;
    }
    proof {
        lemma_subseq_extend(t.skip(0), c, i as int, 0);
        assert(c.skip(0) =~= c);
    }
    0
}

} // verus!
