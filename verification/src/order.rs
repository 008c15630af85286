//! Stable ordering: by key, and of equal keys in the order given.
use vstd::prelude::*;

verus! {

/// Index `a` comes before index `b`.
pub open spec fn comes_before(keys: Seq<i64>, a: int, b: int) -> bool {
    keys[a] < keys[b] || (keys[a] == keys[b] && a < b)
}

/// `order` lists the first `n` indices, each before those that come after it.
pub open spec fn is_stable_order(keys: Seq<i64>, n: int, order: Seq<usize>) -> bool {
    &&& order.len() == n
    &&& forall|i: int| 0 <= i < n ==> (#[trigger] order[i] as int) < n
    &&& forall|i: int, j: int|
        #![trigger order[i], order[j]]
        0 <= i < j < n ==> comes_before(keys, order[i] as int, order[j] as int)
}

/// Where an index of this key goes in `order`: behind all of the first `p`
/// whose key is not larger.
pub open spec fn place_for(keys: Seq<i64>, order: Seq<usize>, key: i64, p: int) -> int
    decreases p,
{
    if p > 0 && keys[order[p - 1] as int] > key {
        place_for(keys, order, key, p - 1)
    } else {
        p
    }
}

/// The first `n` indices in stable order.
pub open spec fn stable_sorted(keys: Seq<i64>, n: int) -> Seq<usize>
    decreases n,
{
    if n <= 0 {
        Seq::empty()
    } else {
        let order = stable_sorted(keys, n - 1);
        order.insert(place_for(keys, order, keys[n - 1], n - 1), (n - 1) as usize)
    }
}

proof fn lemma_place_for(keys: Seq<i64>, order: Seq<usize>, key: i64, p: int)
    requires
        0 <= p <= order.len(),
    ensures
        0 <= place_for(keys, order, key, p) <= p,
        forall|j: int|
            place_for(keys, order, key, p) <= j < p ==> keys[#[trigger] order[j] as int] > key,
        place_for(keys, order, key, p) > 0 ==> keys[order[place_for(keys, order, key, p) - 1] as int]
            <= key,
    decreases p,
{
    if p > 0 && keys[order[p - 1] as int] > key {
        lemma_place_for(keys, order, key, p - 1);
    }
}

/// Sorting this way gives a stable order.
pub proof fn law_sorted_is_stable(keys: Seq<i64>, n: int)
    requires
        0 <= n <= keys.len(),
        n <= usize::MAX,
    ensures
        is_stable_order(keys, n, stable_sorted(keys, n)),
    decreases n,
{
    if n > 0 {
        let i = n - 1;
        law_sorted_is_stable(keys, i);
        let before = stable_sorted(keys, i);
        let key = keys[i];
        let p = place_for(keys, before, key, i);
        lemma_place_for(keys, before, key, i);
        let order = stable_sorted(keys, n);
        assert(order =~= before.insert(p, i as usize));
        assert forall|a: int, b: int|
            #![trigger order[a], order[b]]
            0 <= a < b < n implies comes_before(keys, order[a] as int, order[b] as int) by {
            if a < p {
                assert(order[a] == before[a]);
                if p > 0 {
                    assert(keys[before[p - 1] as int] <= key);
                    if a < p - 1 {
                        assert(comes_before(keys, before[a] as int, before[p - 1] as int));
                    }
                }
            }
            if a > p {
                assert(order[a] == before[a - 1]);
            }
            if b > p {
                assert(order[b] == before[b - 1]);
            }
            if b < p {
                assert(order[b] == before[b]);
            }
        }
        assert forall|a: int| 0 <= a < n implies (#[trigger] order[a] as int) < n by {
            if a < p {
                assert(order[a] == before[a]);
            } else if a > p {
                assert(order[a] == before[a - 1]);
            }
        }
    }
}

/// The indices of `keys` in stable order.
pub fn stable_order(keys: &[i64]) -> (order: Vec<usize>)
    ensures
        order@ == stable_sorted(keys@, keys@.len() as int),
        is_stable_order(keys@, keys@.len() as int, order@),
{
    let mut order: Vec<usize> = Vec::new();
    let mut i: usize = 0;
    let n: usize = keys.len();
    while i < n
        invariant
            i <= n,
            n == keys@.len(),
            order@ == stable_sorted(keys@, i as int),
        decreases n - i,
    {
        let key: i64 = keys[i];
        let mut p: usize = i;
        proof {
            law_sorted_is_stable(keys@, i as int);
        }
        while p > 0 && keys[order[p - 1]] > key
            invariant
                p <= i < keys@.len(),
                is_stable_order(keys@, i as int, order@),
                place_for(keys@, order@, key, p as int) == place_for(keys@, order@, key, i as int),
            decreases p,
        {
            p = p - 1;
        }
        order.insert(p, i);
        i = i + 1;
    }
    proof {
        law_sorted_is_stable(keys@, n as int);
    }
    order
}

/// A stable order lists every index exactly once.
pub proof fn law_order_is_a_permutation(keys: Seq<i64>, n: int, order: Seq<usize>)
    requires
        0 <= n <= keys.len(),
        n <= usize::MAX,
        is_stable_order(keys, n, order),
    ensures
        order.no_duplicates(),
        forall|k: int| 0 <= k < n ==> order.contains(#[trigger] (k as usize)),
{
    assert forall|i: int, j: int| 0 <= i < order.len() && 0 <= j < order.len() && i != j implies order[i]
        != order[j] by {
        if i < j {
            assert(comes_before(keys, order[i] as int, order[j] as int));
        } else {
            assert(comes_before(keys, order[j] as int, order[i] as int));
        }
    }
    let ints = order.map_values(|v: usize| v as int);
    assert(ints.no_duplicates());
    let all = vstd::set_lib::set_int_range(0, n);
    vstd::set_lib::lemma_int_range(0, n);
    ints.unique_seq_to_set();
    assert(ints.to_set().subset_of(all)) by {
        assert forall|v: int| ints.to_set().contains(v) implies all.contains(v) by {
            let i = choose|i: int| 0 <= i < ints.len() && ints[i] == v;
            assert(ints[i] == order[i] as int);
        }
    }
    vstd::set_lib::lemma_subset_equality(ints.to_set(), all);
    assert forall|k: int| 0 <= k < n implies order.contains(#[trigger] (k as usize)) by {
        assert(all.contains(k));
        assert(ints.to_set().contains(k));
        let i = choose|i: int| 0 <= i < ints.len() && ints[i] == k;
        assert(order[i] == k as usize);
    }
}

/// Keys that are all equal leave the order as it is.
pub proof fn law_equal_keys_keep_order(keys: Seq<i64>, n: int, order: Seq<usize>, i: int)
    requires
        0 <= n <= keys.len(),
        is_stable_order(keys, n, order),
        forall|a: int, b: int| 0 <= a < n && 0 <= b < n ==> keys[a] == keys[b],
        0 <= i < n,
    ensures
        order[i] == i,
{
    lemma_at_least(keys, n, order, i);
    lemma_at_most(keys, n, order, i);
}

proof fn lemma_at_least(keys: Seq<i64>, n: int, order: Seq<usize>, i: int)
    requires
        0 <= n <= keys.len(),
        is_stable_order(keys, n, order),
        forall|a: int, b: int| 0 <= a < n && 0 <= b < n ==> keys[a] == keys[b],
        0 <= i < n,
    ensures
        order[i] >= i,
    decreases i,
{
    if i > 0 {
        lemma_at_least(keys, n, order, i - 1);
        assert(comes_before(keys, order[i - 1] as int, order[i] as int));
    }
}

proof fn lemma_at_most(keys: Seq<i64>, n: int, order: Seq<usize>, i: int)
    requires
        0 <= n <= keys.len(),
        is_stable_order(keys, n, order),
        forall|a: int, b: int| 0 <= a < n && 0 <= b < n ==> keys[a] == keys[b],
        0 <= i < n,
    ensures
        order[i] <= i,
    decreases n - i,
{
    if i < n - 1 {
        lemma_at_most(keys, n, order, i + 1);
        assert(comes_before(keys, order[i] as int, order[i + 1] as int));
    }
}

} // verus!
