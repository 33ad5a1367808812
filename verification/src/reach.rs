//! Reachability along the steps of a relation on integers.

use vstd::prelude::*;

verus! {

/// Step number `k` of a walk follows the relation.
pub open spec fn follows(step: spec_fn(int, int) -> bool, p: Seq<int>, k: int) -> bool {
    step(p[k - 1], p[k])
}

/// A sequence of places, each one step away from the place before it.
pub open spec fn walk(step: spec_fn(int, int) -> bool, p: Seq<int>) -> bool {
    &&& p.len() > 0
    &&& forall|k: int| 0 < k < p.len() ==> #[trigger] follows(step, p, k)
}

/// Some walk leads from `a` to `b`.
pub open spec fn reachable(step: spec_fn(int, int) -> bool, a: int, b: int) -> bool {
    exists|p: Seq<int>| #[trigger] walk(step, p) && p[0] == a && p.last() == b
}

/// The relation holds in both directions wherever it holds.
pub open spec fn symmetric(step: spec_fn(int, int) -> bool) -> bool {
    forall|a: int, b: int| #[trigger] step(a, b) ==> step(b, a)
}

/// No step leaves the set.
pub open spec fn closed_under(step: spec_fn(int, int) -> bool, s: Set<int>) -> bool {
    forall|a: int, b: int| s.contains(a) && #[trigger] step(a, b) ==> s.contains(b)
}

/// Every place reaches itself.
pub proof fn lemma_reachable_refl(step: spec_fn(int, int) -> bool, a: int)
    ensures
        reachable(step, a, a),
{
    let p = seq![a];
    assert(walk(step, p) && p[0] == a && p.last() == a);
}

/// One more step extends what is reachable.
pub proof fn lemma_reachable_step(step: spec_fn(int, int) -> bool, a: int, b: int, c: int)
    requires
        reachable(step, a, b),
        step(b, c),
    ensures
        reachable(step, a, c),
{
    let p = choose|p: Seq<int>| #[trigger] walk(step, p) && p[0] == a && p.last() == b;
    let q = p.push(c);
    assert forall|k: int| 0 < k < q.len() implies #[trigger] follows(step, q, k) by {
        if k < p.len() {
            assert(follows(step, p, k));
        }
    }
    assert(walk(step, q) && q[0] == a && q.last() == c);
}

/// Reachability composes.
pub proof fn lemma_reachable_trans(step: spec_fn(int, int) -> bool, a: int, b: int, c: int)
    requires
        reachable(step, a, b),
        reachable(step, b, c),
    ensures
        reachable(step, a, c),
{
    let q = choose|q: Seq<int>| #[trigger] walk(step, q) && q[0] == b && q.last() == c;
    lemma_walk_extends(step, a, q, q.len() - 1);
}

proof fn lemma_walk_extends(step: spec_fn(int, int) -> bool, a: int, q: Seq<int>, k: int)
    requires
        walk(step, q),
        0 <= k < q.len(),
        reachable(step, a, q[0]),
    ensures
        reachable(step, a, q[k]),
    decreases k,
{
    if k > 0 {
        lemma_walk_extends(step, a, q, k - 1);
        assert(follows(step, q, k));
        lemma_reachable_step(step, a, q[k - 1], q[k]);
    }
}

/// Along a symmetric relation, reachability goes both ways.
pub proof fn lemma_reachable_symm(step: spec_fn(int, int) -> bool, a: int, b: int)
    requires
        symmetric(step),
        reachable(step, a, b),
    ensures
        reachable(step, b, a),
{
    let p = choose|p: Seq<int>| #[trigger] walk(step, p) && p[0] == a && p.last() == b;
    lemma_walk_back(step, p, 0);
}

proof fn lemma_walk_back(step: spec_fn(int, int) -> bool, p: Seq<int>, k: int)
    requires
        symmetric(step),
        walk(step, p),
        0 <= k < p.len(),
    ensures
        reachable(step, p.last(), p[k]),
    decreases p.len() - k,
{
    if k == p.len() - 1 {
        lemma_reachable_refl(step, p.last());
    } else {
        lemma_walk_back(step, p, k + 1);
        assert(follows(step, p, k + 1));
        assert(step(p[k], p[k + 1]));
        lemma_reachable_step(step, p.last(), p[k + 1], p[k]);
    }
}

/// What is reachable from inside a set that no step leaves is in the set.
pub proof fn lemma_reachable_stays(
    step: spec_fn(int, int) -> bool,
    s: Set<int>,
    a: int,
    b: int,
)
    requires
        closed_under(step, s),
        s.contains(a),
        reachable(step, a, b),
    ensures
        s.contains(b),
{
    let p = choose|p: Seq<int>| #[trigger] walk(step, p) && p[0] == a && p.last() == b;
    lemma_walk_stays(step, s, p, p.len() - 1);
}

proof fn lemma_walk_stays(step: spec_fn(int, int) -> bool, s: Set<int>, p: Seq<int>, k: int)
    requires
        closed_under(step, s),
        walk(step, p),
        s.contains(p[0]),
        0 <= k < p.len(),
    ensures
        s.contains(p[k]),
    decreases k,
{
    if k > 0 {
        lemma_walk_stays(step, s, p, k - 1);
        assert(follows(step, p, k));
        assert(step(p[k - 1], p[k]));
    }
}

/// A sequence of distinct numbers below `n` has at most `n` entries.
pub proof fn lemma_distinct_below(s: Seq<int>, n: nat)
    requires
        s.no_duplicates(),
        forall|i: int| 0 <= i < s.len() ==> 0 <= #[trigger] s[i] < n,
    ensures
        s.len() <= n,
{
    let range = Set::<int>::new(|i: int| 0 <= i < n);
    lemma_range_len(n);
    s.unique_seq_to_set();
    assert(s.to_set().subset_of(range));
    vstd::set_lib::lemma_len_subset(s.to_set(), range);
}

/// The numbers below `n` are finite, and `n` in number.
pub proof fn lemma_range_len(n: nat)
    ensures
        Set::<int>::new(|i: int| 0 <= i < n).finite(),
        Set::<int>::new(|i: int| 0 <= i < n).len() == n,
    decreases n,
{
    let s = Set::<int>::new(|i: int| 0 <= i < n);
    if n == 0 {
        assert(s =~= Set::<int>::empty());
    } else {
        lemma_range_len((n - 1) as nat);
        let before = Set::<int>::new(|i: int| 0 <= i < n - 1);
        assert(s =~= before.insert(n - 1));
    }
}

} // verus!
