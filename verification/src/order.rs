//! Stable orderings of positions by integer keys, as insertion sorts define them.

use vstd::prelude::*;

verus! {

/// How many of the positions in `order` hold a key of at most `a`.
pub open spec fn count_at_most(order: Seq<int>, keys: Seq<u64>, a: u64) -> nat
    decreases order.len(),
{
    if order.len() == 0 {
        0
    } else {
        count_at_most(order.drop_last(), keys, a) + if keys[order.last()] <= a {
            1nat
        } else {
            0nat
        }
    }
}

/// How many of the positions in `order` hold a key of at least `a`.
pub open spec fn count_at_least(order: Seq<int>, keys: Seq<u64>, a: u64) -> nat
    decreases order.len(),
{
    if order.len() == 0 {
        0
    } else {
        count_at_least(order.drop_last(), keys, a) + if keys[order.last()] >= a {
            1nat
        } else {
            0nat
        }
    }
}

/// The positions `0..n` of `keys` in ascending order of key, equal keys keeping
/// their order: each position goes after every earlier one whose key is not larger.
pub open spec fn ascending_order(keys: Seq<u64>, n: nat) -> Seq<int>
    decreases n,
{
    if n == 0 {
        Seq::empty()
    } else {
        let before = ascending_order(keys, (n - 1) as nat);
        before.insert(count_at_most(before, keys, keys[n - 1]) as int, n - 1)
    }
}

/// The positions `0..n` of `keys` in descending order of key, equal keys keeping
/// their order: each position goes after every earlier one whose key is not smaller.
pub open spec fn descending_order(keys: Seq<u64>, n: nat) -> Seq<int>
    decreases n,
{
    if n == 0 {
        Seq::empty()
    } else {
        let before = descending_order(keys, (n - 1) as nat);
        before.insert(count_at_least(before, keys, keys[n - 1]) as int, n - 1)
    }
}

/// The keys at the given positions, in that order.
pub open spec fn values_at(keys: Seq<u64>, order: Seq<int>) -> Seq<u64> {
    order.map_values(|i: int| keys[i])
}

/// Positions as mathematical integers.
pub open spec fn as_ints(v: Seq<usize>) -> Seq<int> {
    v.map_values(|x: usize| x as int)
}

/// Whether `order` lists each of the positions `0..n` exactly once.
pub open spec fn is_permutation_of(order: Seq<int>, n: nat) -> bool {
    &&& order.len() == n
    &&& forall|j: int| 0 <= j < n ==> 0 <= #[trigger] order[j] < n
    &&& order.no_duplicates()
}

proof fn lemma_count_at_most_bounded(order: Seq<int>, keys: Seq<u64>, a: u64)
    ensures
        count_at_most(order, keys, a) <= order.len(),
    decreases order.len(),
{
    if order.len() > 0 {
        lemma_count_at_most_bounded(order.drop_last(), keys, a);
    }
}

proof fn lemma_count_at_least_bounded(order: Seq<int>, keys: Seq<u64>, a: u64)
    ensures
        count_at_least(order, keys, a) <= order.len(),
    decreases order.len(),
{
    if order.len() > 0 {
        lemma_count_at_least_bounded(order.drop_last(), keys, a);
    }
}

/// Inserting a new position into a permutation of `0..n` gives one of `0..n+1`.
proof fn lemma_insert_permutation(order: Seq<int>, n: nat, p: int)
    requires
        is_permutation_of(order, n),
        0 <= p <= n,
    ensures
        is_permutation_of(order.insert(p, n as int), n + 1),
{
    let after = order.insert(p, n as int);
    assert forall|j: int| 0 <= j < n + 1 implies 0 <= #[trigger] after[j] < n + 1 by {
        if j < p {
            assert(after[j] == order[j]);
        } else if j > p {
            assert(after[j] == order[j - 1]);
        }
    }
    assert forall|a: int, b: int| 0 <= a < after.len() && 0 <= b < after.len() && a != b implies after[a]
        != after[b] by {
        let a0 = if a < p { a } else { a - 1 };
        let b0 = if b < p { b } else { b - 1 };
        if a != p && b != p {
            assert(after[a] == order[a0] && after[b] == order[b0]);
        } else if a == p {
            assert(after[b] == order[b0]);
        } else {
            assert(after[a] == order[a0]);
        }
    }
}

/// The ascending order of the first `n` keys lists each of `0..n` once.
pub proof fn lemma_ascending_order_permutation(keys: Seq<u64>, n: nat)
    ensures
        is_permutation_of(ascending_order(keys, n), n),
    decreases n,
{
    if n > 0 {
        let before = ascending_order(keys, (n - 1) as nat);
        lemma_ascending_order_permutation(keys, (n - 1) as nat);
        lemma_count_at_most_bounded(before, keys, keys[n - 1]);
        lemma_insert_permutation(before, (n - 1) as nat, count_at_most(before, keys, keys[n - 1]) as int);
    }
}

/// The descending order of the first `n` keys lists each of `0..n` once.
pub proof fn lemma_descending_order_permutation(keys: Seq<u64>, n: nat)
    ensures
        is_permutation_of(descending_order(keys, n), n),
    decreases n,
{
    if n > 0 {
        let before = descending_order(keys, (n - 1) as nat);
        lemma_descending_order_permutation(keys, (n - 1) as nat);
        lemma_count_at_least_bounded(before, keys, keys[n - 1]);
        lemma_insert_permutation(before, (n - 1) as nat, count_at_least(before, keys, keys[n - 1]) as int);
    }
}

/// Whether the keys at the positions of `order` never decrease, and positions of
/// equal keys come in increasing order.
pub open spec fn ascending_stable(order: Seq<int>, keys: Seq<u64>) -> bool {
    forall|i: int, j: int|
        0 <= i < j < order.len() ==> keys[#[trigger] order[i]] < keys[#[trigger] order[j]] || (keys[order[i]]
            == keys[order[j]] && order[i] < order[j])
}

/// Whether the keys at the positions of `order` never increase, and positions of
/// equal keys come in increasing order.
pub open spec fn descending_stable(order: Seq<int>, keys: Seq<u64>) -> bool {
    forall|i: int, j: int|
        0 <= i < j < order.len() ==> keys[#[trigger] order[i]] > keys[#[trigger] order[j]] || (keys[order[i]]
            == keys[order[j]] && order[i] < order[j])
}

/// In an ascending order, the positions of keys of at most `a` come first.
proof fn lemma_count_at_most_prefix(order: Seq<int>, keys: Seq<u64>, a: u64)
    requires
        ascending_stable(order, keys),
    ensures
        count_at_most(order, keys, a) <= order.len(),
        forall|j: int| 0 <= j < count_at_most(order, keys, a) ==> keys[#[trigger] order[j]] <= a,
        forall|j: int| count_at_most(order, keys, a) <= j < order.len() ==> keys[#[trigger] order[j]] > a,
    decreases order.len(),
{
    if order.len() > 0 {
        let rest = order.drop_last();
        assert(ascending_stable(rest, keys)) by {
            assert forall|i: int, j: int| 0 <= i < j < rest.len() implies keys[#[trigger] rest[i]] < keys[#[trigger] rest[j]]
                || (keys[rest[i]] == keys[rest[j]] && rest[i] < rest[j]) by {
                assert(rest[i] == order[i] && rest[j] == order[j]);
            }
        }
        lemma_count_at_most_prefix(rest, keys, a);
        let c = count_at_most(rest, keys, a);
        let last = order.len() - 1;
        if keys[order[last]] <= a {
            assert forall|j: int| 0 <= j < rest.len() implies keys[#[trigger] order[j]] <= a by {
                assert(rest[j] == order[j]);
                assert(keys[order[j]] <= keys[order[last]]);
            }
        }
        assert forall|j: int| 0 <= j < count_at_most(order, keys, a) implies keys[#[trigger] order[j]] <= a by {
            if j < rest.len() {
                assert(rest[j] == order[j]);
            }
        }
        assert forall|j: int| count_at_most(order, keys, a) <= j < order.len() implies keys[#[trigger] order[j]]
            > a by {
            if j < rest.len() {
                assert(rest[j] == order[j]);
            }
        }
    }
}

/// In a descending order, the positions of keys of at least `a` come first.
proof fn lemma_count_at_least_prefix(order: Seq<int>, keys: Seq<u64>, a: u64)
    requires
        descending_stable(order, keys),
    ensures
        count_at_least(order, keys, a) <= order.len(),
        forall|j: int| 0 <= j < count_at_least(order, keys, a) ==> keys[#[trigger] order[j]] >= a,
        forall|j: int| count_at_least(order, keys, a) <= j < order.len() ==> keys[#[trigger] order[j]] < a,
    decreases order.len(),
{
    if order.len() > 0 {
        let rest = order.drop_last();
        assert(descending_stable(rest, keys)) by {
            assert forall|i: int, j: int| 0 <= i < j < rest.len() implies keys[#[trigger] rest[i]] > keys[#[trigger] rest[j]]
                || (keys[rest[i]] == keys[rest[j]] && rest[i] < rest[j]) by {
                assert(rest[i] == order[i] && rest[j] == order[j]);
            }
        }
        lemma_count_at_least_prefix(rest, keys, a);
        let last = order.len() - 1;
        if keys[order[last]] >= a {
            assert forall|j: int| 0 <= j < rest.len() implies keys[#[trigger] order[j]] >= a by {
                assert(rest[j] == order[j]);
                assert(keys[order[j]] >= keys[order[last]]);
            }
        }
        assert forall|j: int| 0 <= j < count_at_least(order, keys, a) implies keys[#[trigger] order[j]] >= a by {
            if j < rest.len() {
                assert(rest[j] == order[j]);
            }
        }
        assert forall|j: int| count_at_least(order, keys, a) <= j < order.len() implies keys[#[trigger] order[j]]
            < a by {
            if j < rest.len() {
                assert(rest[j] == order[j]);
            }
        }
    }
}

/// The ascending order is sorted and stable: the keys it lists never decrease, and
/// equal keys keep the order of their positions, as a stable sort leaves them.
pub proof fn lemma_ascending_order_sorted(keys: Seq<u64>, n: nat)
    requires
        n <= keys.len(),
    ensures
        ascending_stable(ascending_order(keys, n), keys),
    decreases n,
{
    if n > 0 {
        let before = ascending_order(keys, (n - 1) as nat);
        lemma_ascending_order_sorted(keys, (n - 1) as nat);
        lemma_ascending_order_permutation(keys, (n - 1) as nat);
        let k = keys[n - 1];
        lemma_count_at_most_prefix(before, keys, k);
        let c = count_at_most(before, keys, k) as int;
        let after = before.insert(c, n - 1);
        assert forall|i: int, j: int| 0 <= i < j < after.len() implies keys[#[trigger] after[i]] < keys[#[trigger] after[j]]
            || (keys[after[i]] == keys[after[j]] && after[i] < after[j]) by {
            let i0 = if i < c { i } else { i - 1 };
            let j0 = if j < c { j } else { j - 1 };
            if i != c && j != c {
                assert(after[i] == before[i0] && after[j] == before[j0]);
            } else if i == c {
                assert(after[j] == before[j0]);
                assert(keys[before[j0]] > k);
            } else {
                assert(after[i] == before[i0]);
                assert(keys[before[i0]] <= k);
                assert(0 <= before[i0] < n - 1);
            }
        }
    }
}

/// The descending order is sorted and stable: the keys it lists never increase, and
/// equal keys keep the order of their positions, as a stable sort leaves them.
pub proof fn lemma_descending_order_sorted(keys: Seq<u64>, n: nat)
    requires
        n <= keys.len(),
    ensures
        descending_stable(descending_order(keys, n), keys),
    decreases n,
{
    if n > 0 {
        let before = descending_order(keys, (n - 1) as nat);
        lemma_descending_order_sorted(keys, (n - 1) as nat);
        lemma_descending_order_permutation(keys, (n - 1) as nat);
        let k = keys[n - 1];
        lemma_count_at_least_prefix(before, keys, k);
        let c = count_at_least(before, keys, k) as int;
        let after = before.insert(c, n - 1);
        assert forall|i: int, j: int| 0 <= i < j < after.len() implies keys[#[trigger] after[i]] > keys[#[trigger] after[j]]
            || (keys[after[i]] == keys[after[j]] && after[i] < after[j]) by {
            let i0 = if i < c { i } else { i - 1 };
            let j0 = if j < c { j } else { j - 1 };
            if i != c && j != c {
                assert(after[i] == before[i0] && after[j] == before[j0]);
            } else if i == c {
                assert(after[j] == before[j0]);
                assert(keys[before[j0]] < k);
            } else {
                assert(after[i] == before[i0]);
                assert(keys[before[i0]] >= k);
                assert(0 <= before[i0] < n - 1);
            }
        }
    }
}

/// The positions of `keys` in ascending order of key, equal keys in their order.
pub fn ascending_positions(keys: &[u64]) -> (order: Vec<usize>)
    ensures
        as_ints(order@) == ascending_order(keys@, keys@.len()),
        is_permutation_of(as_ints(order@), keys@.len()),
{
    let n = keys.len();
    let mut order: Vec<usize> = Vec::new();
    let mut i: usize = 0;
    while i < n
        invariant
            n == keys@.len(),
            i <= n,
            as_ints(order@) == ascending_order(keys@, i as nat),
        decreases n - i,
    {
        proof {
            lemma_ascending_order_permutation(keys@, i as nat);
            let o = as_ints(order@);
            assert forall|q: int| 0 <= q < order@.len() implies 0 <= #[trigger] order@[q] < i by {
                assert(o[q] == order@[q] as int);
            }
        }
        let a = keys[i];
        let mut p: usize = 0;
        let mut j: usize = 0;
        while j < order.len()
            invariant
                n == keys@.len(),
                i < n,
                a == keys@[i as int],
                as_ints(order@) == ascending_order(keys@, i as nat),
                forall|q: int| 0 <= q < order@.len() ==> 0 <= #[trigger] order@[q] < i,
                j <= order@.len(),
                p == count_at_most(as_ints(order@).take(j as int), keys@, a),
                p <= j,
            decreases order@.len() - j,
        {
            let ghost o = as_ints(order@);
            proof {
                assert(o.take(j + 1).drop_last() =~= o.take(j as int));
                assert(o.take(j + 1).last() == order@[j as int] as int);
            }
            if keys[order[j]] <= a {
                p = p + 1;
            }
            j = j + 1;
        }
        let ghost o = as_ints(order@);
        assert(o.take(o.len() as int) =~= o);
        order.insert(p, i);
        assert(as_ints(order@) =~= o.insert(p as int, i as int));
        i = i + 1;
    }
    proof { lemma_ascending_order_permutation(keys@, n as nat); }
    order
}

/// The positions of `keys` in descending order of key, equal keys in their order.
pub fn descending_positions(keys: &[u64]) -> (order: Vec<usize>)
    ensures
        as_ints(order@) == descending_order(keys@, keys@.len()),
        is_permutation_of(as_ints(order@), keys@.len()),
{
    let n = keys.len();
    let mut order: Vec<usize> = Vec::new();
    let mut i: usize = 0;
    while i < n
        invariant
            n == keys@.len(),
            i <= n,
            as_ints(order@) == descending_order(keys@, i as nat),
        decreases n - i,
    {
        proof {
            lemma_descending_order_permutation(keys@, i as nat);
            let o = as_ints(order@);
            assert forall|q: int| 0 <= q < order@.len() implies 0 <= #[trigger] order@[q] < i by {
                assert(o[q] == order@[q] as int);
            }
        }
        let a = keys[i];
        let mut p: usize = 0;
        let mut j: usize = 0;
        while j < order.len()
            invariant
                n == keys@.len(),
                i < n,
                a == keys@[i as int],
                as_ints(order@) == descending_order(keys@, i as nat),
                forall|q: int| 0 <= q < order@.len() ==> 0 <= #[trigger] order@[q] < i,
                j <= order@.len(),
                p == count_at_least(as_ints(order@).take(j as int), keys@, a),
                p <= j,
            decreases order@.len() - j,
        {
            let ghost o = as_ints(order@);
            proof {
                assert(o.take(j + 1).drop_last() =~= o.take(j as int));
                assert(o.take(j + 1).last() == order@[j as int] as int);
            }
            if keys[order[j]] >= a {
                p = p + 1;
            }
            j = j + 1;
        }
        let ghost o = as_ints(order@);
        assert(o.take(o.len() as int) =~= o);
        order.insert(p, i);
        assert(as_ints(order@) =~= o.insert(p as int, i as int));
        i = i + 1;
    }
    proof { lemma_descending_order_permutation(keys@, n as nat); }
    order
}

} // verus!
