//! Ranking and grouping by whole-number keys.

use vstd::prelude::*;

use crate::reach::lemma_distinct_below;

verus! {

/// Entry `a` comes before entry `b`: by the larger key, then by the earlier
/// place.
pub open spec fn comes_before(keys: Seq<i128>, a: int, b: int) -> bool {
    keys[a] > keys[b] || (keys[a] == keys[b] && a < b)
}

/// The order lists every entry once, by falling keys, equal ones by place.
pub open spec fn ranks_descending(keys: Seq<i128>, order: Seq<usize>) -> bool {
    &&& order.len() == keys.len()
    &&& forall|i: int| 0 <= i < order.len() ==> #[trigger] order[i] < keys.len()
    &&& forall|i: int, j: int|
        0 <= i < j < order.len() ==> comes_before(
            keys,
            #[trigger] order[i] as int,
            #[trigger] order[j] as int,
        )
}

/// The entries by falling keys; equal ones keep their order.
pub fn rank_descending(keys: &Vec<i128>) -> (out: Vec<usize>)
    ensures
        ranks_descending(keys@, out@),
{
    let mut order: Vec<usize> = Vec::new();
    let mut n: usize = 0;
    while n < keys.len()
        invariant
            n <= keys@.len(),
            order@.len() == n,
            forall|i: int| 0 <= i < order@.len() ==> #[trigger] order@[i] < n,
            forall|i: int, j: int|
                0 <= i < j < order@.len() ==> comes_before(
                    keys@,
                    #[trigger] order@[i] as int,
                    #[trigger] order@[j] as int,
                ),
        decreases keys@.len() - n,
    {
        let ghost before = order@;
        let mut p: usize = order.len();
        while p > 0 && keys[order[p - 1]] < keys[n]
            invariant
                n < keys@.len(),
                p <= order@.len(),
                order@ == before,
                forall|i: int| 0 <= i < order@.len() ==> #[trigger] order@[i] < n,
                forall|i: int|
                    p <= i < order@.len() ==> keys@[#[trigger] order@[i] as int] < keys@[n as int],
            decreases p,
        {
            p = p - 1;
        }
        order.insert(p, n);
        proof {
            assert forall|i: int, j: int| 0 <= i < j < order@.len() implies comes_before(
                keys@,
                #[trigger] order@[i] as int,
                #[trigger] order@[j] as int,
            ) by {
                let a = if i < p {
                    i
                } else {
                    i - 1
                };
                let b = if j < p {
                    j
                } else {
                    j - 1
                };
                if i == p {
                    assert(order@[j] == before[b]);
                } else if j == p {
                    assert(order@[i] == before[i]);
                    if i < p - 1 {
                        assert(comes_before(keys@, before[i] as int, before[p - 1] as int));
                    }
                } else {
                    assert(comes_before(keys@, before[a] as int, before[b] as int));
                }
            }
        }
        n = n + 1;
    }
    order
}

/// The ranking lists no entry twice.
pub proof fn law_ranking_has_no_repeats(keys: Seq<i128>, order: Seq<usize>)
    requires
        ranks_descending(keys, order),
    ensures
        order.no_duplicates(),
{
    assert forall|i: int, j: int|
        0 <= i < order.len() && 0 <= j < order.len() && i != j implies order[i] != order[j] by {
        if i < j {
            assert(comes_before(keys, order[i] as int, order[j] as int));
        } else {
            assert(comes_before(keys, order[j] as int, order[i] as int));
        }
    }
}

proof fn lemma_ranking_is_complete(keys: Seq<i128>, order: Seq<usize>, e: usize) -> (k: int)
    requires
        ranks_descending(keys, order),
        e < keys.len(),
    ensures
        0 <= k < order.len(),
        order[k] == e,
{
    law_ranking_has_no_repeats(keys, order);
    if !order.contains(e) {
        let all = Seq::new(
            order.len() + 1,
            |i: int|
                if i < order.len() {
                    order[i] as int
                } else {
                    e as int
                },
        );
        assert forall|i: int, j: int|
            0 <= i < all.len() && 0 <= j < all.len() && i != j implies all[i] != all[j] by {
            if i < order.len() && j < order.len() {
                assert(order[i] != order[j]);
            } else if i < order.len() {
                assert(order.contains(order[i]));
            } else {
                assert(order.contains(order[j]));
            }
        }
        lemma_distinct_below(all, keys.len());
        assert(false);
    }
    order.index_of(e)
}

proof fn lemma_rankings_agree(keys: Seq<i128>, a: Seq<usize>, b: Seq<usize>, k: int)
    requires
        ranks_descending(keys, a),
        ranks_descending(keys, b),
        0 <= k < a.len(),
    ensures
        forall|i: int| 0 <= i <= k ==> #[trigger] a[i] == b[i],
    decreases k,
{
    if k > 0 {
        lemma_rankings_agree(keys, a, b, k - 1);
    }
    if a[k] != b[k] {
        let i = lemma_ranking_is_complete(keys, b, a[k]);
        let j = lemma_ranking_is_complete(keys, a, b[k]);
        law_ranking_has_no_repeats(keys, a);
        law_ranking_has_no_repeats(keys, b);
        if i < k {
            assert(a[i] == b[i]);
        }
        if j < k {
            assert(a[j] == b[j]);
        }
        assert(comes_before(keys, b[k] as int, b[i] as int));
        assert(comes_before(keys, a[k] as int, a[j] as int));
    }
}

/// There is one ranking only: two rankings by the same keys are the same.
pub proof fn law_ranking_is_unique(keys: Seq<i128>, a: Seq<usize>, b: Seq<usize>)
    requires
        ranks_descending(keys, a),
        ranks_descending(keys, b),
    ensures
        a == b,
{
    if a.len() > 0 {
        lemma_rankings_agree(keys, a, b, a.len() - 1);
    }
    assert(a =~= b);
}

/// The entries that share a key, in order.
#[derive(Debug)]
pub struct Group {
    pub key: u128,
    pub members: Vec<usize>,
}

/// The group holds exactly the entries below `n` with its key, in order.
pub open spec fn is_group(keys: Seq<u128>, n: int, g: Group) -> bool {
    &&& g.members@.len() > 0
    &&& forall|i: int|
        0 <= i < g.members@.len() ==> (#[trigger] g.members@[i]) < n && keys[g.members@[i] as int]
            == g.key
    &&& forall|i: int, j: int|
        0 <= i < j < g.members@.len() ==> (#[trigger] g.members@[i]) < (#[trigger] g.members@[j])
    &&& forall|e: int| 0 <= e < n && #[trigger] keys[e] == g.key ==> g.members@.contains(e as usize)
}

/// The groups are those of the first `n` entries, by rising keys.
pub open spec fn groups_upto(keys: Seq<u128>, n: int, groups: Seq<Group>) -> bool {
    &&& forall|k: int| 0 <= k < groups.len() ==> is_group(keys, n, #[trigger] groups[k])
    &&& forall|j: int, k: int|
        0 <= j < k < groups.len() ==> (#[trigger] groups[j]).key < (#[trigger] groups[k]).key
    &&& forall|e: int|
        0 <= e < n ==> exists|k: int|
            0 <= k < groups.len() && (#[trigger] groups[k]).key == #[trigger] keys[e]
}

/// The entries grouped by key.
pub open spec fn groups_by_key(keys: Seq<u128>, groups: Seq<Group>) -> bool {
    groups_upto(keys, keys.len() as int, groups)
}

/// The first group whose key is not below the given one.
fn place_of(groups: &Vec<Group>, key: u128) -> (out: usize)
    requires
        forall|j: int, k: int|
            0 <= j < k < groups@.len() ==> (#[trigger] groups@[j]).key < (
            #[trigger] groups@[k]).key,
    ensures
        out <= groups@.len(),
        forall|k: int| 0 <= k < out ==> (#[trigger] groups@[k]).key < key,
        forall|k: int| out <= k < groups@.len() ==> (#[trigger] groups@[k]).key >= key,
{
    let mut lo: usize = 0;
    let mut hi: usize = groups.len();
    while lo < hi
        invariant
            lo <= hi <= groups@.len(),
            forall|j: int, k: int|
                0 <= j < k < groups@.len() ==> (#[trigger] groups@[j]).key < (
                #[trigger] groups@[k]).key,
            forall|k: int| 0 <= k < lo ==> (#[trigger] groups@[k]).key < key,
            forall|k: int| hi <= k < groups@.len() ==> (#[trigger] groups@[k]).key >= key,
        decreases hi - lo,
    {
        let mid: usize = lo + (hi - lo) / 2;
        if groups[mid].key < key {
            lo = mid + 1;
        } else {
            hi = mid;
        }
    }
    lo
}

/// Groups entries by key, the smallest key first.
pub fn group_by_key(keys: &Vec<u128>) -> (out: Vec<Group>)
    ensures
        groups_by_key(keys@, out@),
{
    let total: usize = keys.len();
    let mut groups: Vec<Group> = Vec::new();
    let mut n: usize = 0;
    while n < keys.len()
        invariant
            n <= keys@.len() == total,
            groups_upto(keys@, n as int, groups@),
        decreases keys@.len() - n,
    {
        let key: u128 = keys[n];
        let p: usize = place_of(&groups, key);
        let ghost before = groups@;
        if p < groups.len() && groups[p].key == key {
            let mut g = groups.remove(p);
            g.members.push(n);
            groups.insert(p, g);
            proof {
                lemma_group_grown(keys@, n as int, before, groups@, p as int);
            }
        } else {
            let mut members: Vec<usize> = Vec::new();
            members.push(n);
            groups.insert(p, Group { key, members });
            proof {
                lemma_group_added(keys@, n as int, before, groups@, p as int);
            }
        }
        n = n + 1;
    }
    groups
}

proof fn lemma_group_other(keys: Seq<u128>, n: int, g: Group)
    requires
        is_group(keys, n, g),
        keys[n] != g.key,
        0 <= n < keys.len(),
    ensures
        is_group(keys, n + 1, g),
{
}

proof fn lemma_group_grown(
    keys: Seq<u128>,
    n: int,
    before: Seq<Group>,
    after: Seq<Group>,
    p: int,
)
    requires
        groups_upto(keys, n, before),
        0 <= n < keys.len() <= usize::MAX,
        0 <= p < before.len(),
        before[p].key == keys[n],
        after.len() == before.len(),
        forall|k: int| 0 <= k < before.len() && k != p ==> #[trigger] after[k] == before[k],
        after[p].key == before[p].key,
        after[p].members@ == before[p].members@.push(n as usize),
    ensures
        groups_upto(keys, n + 1, after),
{
    assert(is_group(keys, n, before[p]));
    let old_members = before[p].members@;
    let members = after[p].members@;
    assert(is_group(keys, n + 1, after[p])) by {
        assert forall|e: int|
            0 <= e < n + 1 && #[trigger] keys[e] == after[p].key implies members.contains(
            e as usize,
        ) by {
            if e < n {
                assert(old_members.contains(e as usize));
                let i = choose|i: int| 0 <= i < old_members.len() && old_members[i] == e as usize;
                assert(members[i] == e as usize);
            } else {
                assert(members[old_members.len() as int] == e as usize);
            }
        }
        assert forall|i: int, j: int| 0 <= i < j < members.len() implies (#[trigger] members[i]) < (
        #[trigger] members[j]) by {
            if j == old_members.len() {
                assert(old_members[i] < n);
            } else {
                assert(old_members[i] < old_members[j]);
            }
        }
        assert forall|i: int| 0 <= i < members.len() implies (#[trigger] members[i]) < n + 1
            && keys[members[i] as int] == after[p].key by {
            if i < old_members.len() {
                assert(old_members[i] < n);
            }
        }
    }
    assert forall|k: int| 0 <= k < after.len() implies is_group(keys, n + 1, #[trigger] after[k]) by {
        if k != p {
            assert(is_group(keys, n, before[k]));
            if k < p {
                assert(before[k].key < before[p].key);
            } else {
                assert(before[p].key < before[k].key);
            }
            lemma_group_other(keys, n, before[k]);
        }
    }
    assert forall|j: int, k: int| 0 <= j < k < after.len() implies (#[trigger] after[j]).key < (
    #[trigger] after[k]).key by {
        assert(before[j].key < before[k].key);
    }
    assert forall|e: int| 0 <= e < n + 1 implies exists|k: int|
        0 <= k < after.len() && (#[trigger] after[k]).key == #[trigger] keys[e] by {
        if e < n {
            let k = choose|k: int| 0 <= k < before.len() && (#[trigger] before[k]).key == keys[e];
            assert(after[k].key == keys[e]);
        } else {
            assert(after[p].key == keys[e]);
        }
    }
}

proof fn lemma_group_added(
    keys: Seq<u128>,
    n: int,
    before: Seq<Group>,
    after: Seq<Group>,
    p: int,
)
    requires
        groups_upto(keys, n, before),
        0 <= n < keys.len() <= usize::MAX,
        0 <= p <= before.len(),
        forall|k: int| 0 <= k < p ==> (#[trigger] before[k]).key < keys[n],
        forall|k: int| p <= k < before.len() ==> (#[trigger] before[k]).key >= keys[n],
        p < before.len() ==> before[p].key != keys[n],
        after.len() == before.len() + 1,
        forall|k: int| 0 <= k < p ==> #[trigger] after[k] == before[k],
        forall|k: int| p < k < after.len() ==> #[trigger] after[k] == before[k - 1],
        after[p].key == keys[n],
        after[p].members@ == seq![n as usize],
    ensures
        groups_upto(keys, n + 1, after),
{
    assert forall|k: int| 0 <= k < before.len() implies (#[trigger] before[k]).key != keys[n] by {
        if k > p {
            assert(before[p].key < before[k].key);
        }
    }
    assert(is_group(keys, n + 1, after[p])) by {
        assert forall|e: int|
            0 <= e < n + 1 && #[trigger] keys[e] == after[p].key implies after[p].members@.contains(
            e as usize,
        ) by {
            if e < n {
                let k = choose|k: int|
                    0 <= k < before.len() && (#[trigger] before[k]).key == keys[e];
            } else {
                assert(after[p].members@[0] == e as usize);
            }
        }
    }
    assert forall|k: int| 0 <= k < after.len() implies is_group(keys, n + 1, #[trigger] after[k]) by {
        if k < p {
            assert(is_group(keys, n, before[k]));
            lemma_group_other(keys, n, before[k]);
        } else if k > p {
            assert(is_group(keys, n, before[k - 1]));
            lemma_group_other(keys, n, before[k - 1]);
        }
    }
    assert forall|j: int, k: int| 0 <= j < k < after.len() implies (#[trigger] after[j]).key < (
    #[trigger] after[k]).key by {
        if k < p {
            assert(before[j].key < before[k].key);
        } else if j > p {
            assert(before[j - 1].key < before[k - 1].key);
        } else if j < p && k > p {
            assert(before[j].key < before[k - 1].key);
        } else if j == p {
            assert(before[k - 1].key >= keys[n]);
        }
    }
    assert forall|e: int| 0 <= e < n + 1 implies exists|k: int|
        0 <= k < after.len() && (#[trigger] after[k]).key == #[trigger] keys[e] by {
        if e < n {
            let k = choose|k: int| 0 <= k < before.len() && (#[trigger] before[k]).key == keys[e];
            let moved = if k < p {
                k
            } else {
                k + 1
            };
            assert(after[moved].key == keys[e]);
        } else {
            assert(after[p].key == keys[e]);
        }
    }
}

} // verus!
