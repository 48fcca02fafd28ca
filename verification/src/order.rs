//! A stable order by key: smaller keys first, and equal keys in the order
//! in which they came.

use vstd::prelude::*;

verus! {

/// Where an item with key `key` goes in `p`, a list of indices into `keys`
/// that is in order already: behind every item whose key is not larger.
pub open spec fn slot(keys: Seq<int>, p: Seq<int>, key: int) -> int
    decreases p.len(),
{
    if p.len() > 0 && keys[p.last()] > key {
        slot(keys, p.drop_last(), key)
    } else {
        p.len() as int
    }
}

/// The first `n` indices of `keys` in stable order of their keys.
pub open spec fn stable_order(keys: Seq<int>, n: int) -> Seq<int>
    decreases n,
{
    if n <= 0 {
        Seq::empty()
    } else {
        let p = stable_order(keys, n - 1);
        p.insert(slot(keys, p, keys[n - 1]), n - 1)
    }
}

/// `items` put in the order `order`.
pub open spec fn arranged<T>(items: Seq<T>, order: Seq<int>) -> Seq<T> {
    Seq::new(order.len(), |i: int| items[order[i]])
}

/// Whether `p` holds indices below `n` only, none of them twice.
pub open spec fn is_selection(p: Seq<int>, n: int) -> bool {
    &&& forall|i: int| 0 <= i < p.len() ==> 0 <= #[trigger] p[i] < n
    &&& forall|i: int, j: int| 0 <= i < j < p.len() ==> #[trigger] p[i] != #[trigger] p[j]
}

/// Whether the keys do not fall along `p`.
pub open spec fn keys_rise(keys: Seq<int>, p: Seq<int>) -> bool {
    forall|i: int, j: int| 0 <= i < j < p.len() ==> keys[#[trigger] p[i]] <= keys[#[trigger] p[j]]
}

/// Whether items with the same key stand in `p` as they came.
pub open spec fn ties_keep_place(keys: Seq<int>, p: Seq<int>) -> bool {
    forall|i: int, j: int|
        0 <= i < j < p.len() && keys[#[trigger] p[i]] == keys[#[trigger] p[j]] ==> p[i] < p[j]
}

/// In a list that is in order, every item before the slot has a key that is
/// not larger, and every item from the slot on a key that is larger.
pub proof fn lemma_slot(keys: Seq<int>, p: Seq<int>, key: int)
    requires
        keys_rise(keys, p),
    ensures
        0 <= slot(keys, p, key) <= p.len(),
        forall|i: int| 0 <= i < slot(keys, p, key) ==> keys[#[trigger] p[i]] <= key,
        forall|i: int| slot(keys, p, key) <= i < p.len() ==> keys[#[trigger] p[i]] > key,
    decreases p.len(),
{
    if p.len() > 0 && keys[p.last()] > key {
        let q = p.drop_last();
        assert forall|i: int, j: int| 0 <= i < j < q.len() implies keys[#[trigger] q[i]]
            <= keys[#[trigger] q[j]] by {
            assert(q[i] == p[i] && q[j] == p[j]);
        }
        lemma_slot(keys, q, key);
        assert forall|i: int| 0 <= i < slot(keys, p, key) implies keys[#[trigger] p[i]] <= key by {
            assert(p[i] == q[i]);
        }
        assert forall|i: int| slot(keys, p, key) <= i < p.len() implies keys[#[trigger] p[i]]
            > key by {
            if i < q.len() {
                assert(p[i] == q[i]);
            }
        }
    } else if p.len() > 0 {
        let last = p.len() - 1;
        assert forall|i: int| 0 <= i < p.len() implies keys[#[trigger] p[i]] <= key by {
            if i < last {
                assert(keys[p[i]] <= keys[p[last]]);
            }
        }
    }
}

/// The stable order of `n` keys holds each index below `n` once, its keys
/// do not fall, and equal keys keep the order in which they came.
pub proof fn lemma_stable_order(keys: Seq<int>, n: int)
    requires
        0 <= n <= keys.len(),
    ensures
        stable_order(keys, n).len() == n,
        is_selection(stable_order(keys, n), n),
        keys_rise(keys, stable_order(keys, n)),
        ties_keep_place(keys, stable_order(keys, n)),
    decreases n,
{
    if n > 0 {
        lemma_stable_order(keys, n - 1);
        let p = stable_order(keys, n - 1);
        let key = keys[n - 1];
        lemma_slot(keys, p, key);
        let at = slot(keys, p, key);
        let q = p.insert(at, n - 1);
        assert(q == stable_order(keys, n));
        assert forall|i: int| 0 <= i < q.len() implies 0 <= #[trigger] q[i] < n by {
            if i < at {
                assert(q[i] == p[i]);
            } else if i > at {
                assert(q[i] == p[i - 1]);
            }
        }
        assert forall|i: int, j: int| 0 <= i < j < q.len() implies (#[trigger] q[i] != #[trigger] q[j])
            && keys[q[i]] <= keys[q[j]] && (keys[q[i]] == keys[q[j]] ==> q[i] < q[j]) by {
            let a = if i < at {
                p[i]
            } else if i == at {
                n - 1
            } else {
                p[i - 1]
            };
            let b = if j < at {
                p[j]
            } else if j == at {
                n - 1
            } else {
                p[j - 1]
            };
            assert(q[i] == a && q[j] == b);
            if i != at && j != at {
                let i0 = if i < at {
                    i
                } else {
                    i - 1
                };
                let j0 = if j < at {
                    j
                } else {
                    j - 1
                };
                assert(p[i0] == a && p[j0] == b);
                assert(i0 < j0);
            }
        }
    }
}

/// The keys as mathematical integers.
pub open spec fn key_ints(keys: Seq<u128>) -> Seq<int> {
    Seq::new(keys.len(), |i: int| keys[i] as int)
}

/// The indices as mathematical integers.
pub open spec fn index_ints(p: Seq<usize>) -> Seq<int> {
    Seq::new(p.len(), |i: int| p[i] as int)
}

/// Puts the indices of `keys` in stable order of their keys.
pub fn stable_order_of(keys: &Vec<u128>) -> (order: Vec<usize>)
    ensures
        index_ints(order@) == stable_order(key_ints(keys@), keys@.len() as int),
        order@.len() == keys@.len(),
        forall|i: int| 0 <= i < order@.len() ==> #[trigger] order@[i] < keys@.len(),
{
    let n: usize = keys.len();
    let mut order: Vec<usize> = Vec::new();
    let mut k: usize = 0;
    assert(index_ints(order@) =~= stable_order(key_ints(keys@), 0));
    while k < n
        invariant
            n == keys@.len(),
            0 <= k <= n,
            order@.len() == k,
            index_ints(order@) == stable_order(key_ints(keys@), k as int),
            forall|i: int| 0 <= i < order@.len() ==> #[trigger] order@[i] < k,
        decreases n - k,
    {
        let key: u128 = keys[k];
        let ghost p = index_ints(order@);
        let ghost ks = key_ints(keys@);
        let mut j: usize = k;
        assert(p.take(k as int) =~= p);
        while j > 0 && keys[order[j - 1]] > key
            invariant
                n == keys@.len(),
                k < n,
                order@.len() == k,
                0 <= j <= k,
                p == index_ints(order@),
                ks == key_ints(keys@),
                key == keys@[k as int],
                forall|i: int| 0 <= i < order@.len() ==> #[trigger] order@[i] < k,
                slot(ks, p.take(j as int), key as int) == slot(ks, p, key as int),
            decreases j,
        {
            proof {
                assert(p.take(j as int).last() == order@[j - 1]);
                assert(p.take(j as int).drop_last() =~= p.take(j - 1));
            }
            j = j - 1;
        }
        proof {
            if j > 0 {
                assert(p.take(j as int).last() == order@[j - 1]);
            }
            assert(slot(ks, p, key as int) == j);
        }
        order.insert(j, k);
        proof {
            assert(index_ints(order@) =~= p.insert(j as int, k as int));
        }
        k = k + 1;
    }
    order
}

/// Every index below `n` stands somewhere in the stable order of `n` keys.
pub proof fn lemma_order_holds(keys: Seq<int>, n: int, x: int) -> (at: int)
    requires
        0 <= x < n <= keys.len(),
    ensures
        0 <= at < n,
        stable_order(keys, n).len() == n,
        stable_order(keys, n)[at] == x,
    decreases n,
{
    lemma_stable_order(keys, n);
    lemma_stable_order(keys, n - 1);
    let p = stable_order(keys, n - 1);
    lemma_slot(keys, p, keys[n - 1]);
    let here = slot(keys, p, keys[n - 1]);
    if x == n - 1 {
        here
    } else {
        let before = lemma_order_holds(keys, n - 1, x);
        if before < here {
            before
        } else {
            before + 1
        }
    }
}

} // verus!
