//! Stable orders of indices, and the first and last extremes.

use crate::binary64::Binary64;
use vstd::prelude::*;

verus! {

/// `x` put behind every index of `order` whose key is at least its own.
pub open spec fn placed(order: Seq<usize>, keys: Seq<u128>, x: usize) -> Seq<usize>
    decreases order.len(),
{
    if order.len() == 0 || keys[order.last() as int] >= keys[x as int] {
        order.push(x)
    } else {
        placed(order.drop_last(), keys, x).push(order.last())
    }
}

/// The first `n` indices, the largest key first; equal keys keep their order.
pub open spec fn descending_prefix(keys: Seq<u128>, n: nat) -> Seq<usize>
    decreases n,
{
    if n == 0 {
        Seq::empty()
    } else {
        placed(descending_prefix(keys, (n - 1) as nat), keys, (n - 1) as usize)
    }
}

/// All indices, the largest key first; equal keys keep their order.
pub open spec fn descending(keys: Seq<u128>) -> Seq<usize> {
    descending_prefix(keys, keys.len())
}

/// Every index below `n` once, the larger key first, of equal keys the earlier index first.
pub open spec fn sorted_indices(order: Seq<usize>, keys: Seq<u128>, n: nat) -> bool {
    &&& order.len() == n
    &&& forall|i: int| 0 <= i < order.len() ==> (#[trigger] order[i]) < n
    &&& forall|i: int, j: int|
        0 <= i < j < order.len() ==> {
            ||| keys[#[trigger] order[i] as int] > keys[#[trigger] order[j] as int]
            ||| keys[order[i] as int] == keys[order[j] as int] && order[i] < order[j]
        }
}

proof fn lemma_placed(order: Seq<usize>, keys: Seq<u128>, x: usize)
    requires
        forall|i: int| 0 <= i < order.len() ==> (#[trigger] order[i]) < x,
        forall|i: int, j: int|
            0 <= i < j < order.len() ==> {
                ||| keys[#[trigger] order[i] as int] > keys[#[trigger] order[j] as int]
                ||| keys[order[i] as int] == keys[order[j] as int] && order[i] < order[j]
            },
    ensures
        placed(order, keys, x).len() == order.len() + 1,
        forall|i: int|
            0 <= i < order.len() + 1 ==> (#[trigger] placed(order, keys, x)[i]) <= x,
        forall|i: int, j: int|
            0 <= i < j < order.len() + 1 ==> {
                ||| keys[#[trigger] placed(order, keys, x)[i] as int] > keys[#[trigger] placed(
                    order,
                    keys,
                    x,
                )[j] as int]
                ||| keys[placed(order, keys, x)[i] as int] == keys[placed(order, keys, x)[j] as int]
                    && placed(order, keys, x)[i] < placed(order, keys, x)[j]
            },
        forall|i: int|
            0 <= i < order.len() + 1 ==> (#[trigger] placed(order, keys, x)[i] == x
                || order.contains(placed(order, keys, x)[i])),
    decreases order.len(),
{
    let p = placed(order, keys, x);
    if order.len() == 0 || keys[order.last() as int] >= keys[x as int] {
        assert forall|i: int| 0 <= i < order.len() + 1 implies (#[trigger] p[i] == x
            || order.contains(p[i])) by {
            if i < order.len() {
                assert(p[i] == order[i]);
            }
        }
        assert forall|i: int, j: int| 0 <= i < j < order.len() + 1 implies {
            ||| keys[#[trigger] p[i] as int] > keys[#[trigger] p[j] as int]
            ||| keys[p[i] as int] == keys[p[j] as int] && p[i] < p[j]
        } by {
            assert(p[i] == order[i]);
            if j == order.len() {
                assert(keys[order[i] as int] >= keys[order.last() as int]) by {
                    if i < order.len() - 1 {
                        assert(order[order.len() - 1] == order.last());
                    }
                }
            }
        }
    } else {
        let rest = order.drop_last();
        let q = placed(rest, keys, x);
        lemma_placed(rest, keys, x);
        assert forall|i: int| 0 <= i < order.len() + 1 implies (#[trigger] p[i] == x
            || order.contains(p[i])) by {
            if i < order.len() {
                assert(p[i] == q[i]);
                if q[i] != x {
                    let k = choose|k: int| 0 <= k < rest.len() && rest[k] == q[i];
                    assert(order[k] == q[i]);
                }
            } else {
                assert(p[i] == order[order.len() - 1]);
            }
        }
        assert forall|i: int, j: int| 0 <= i < j < order.len() + 1 implies {
            ||| keys[#[trigger] p[i] as int] > keys[#[trigger] p[j] as int]
            ||| keys[p[i] as int] == keys[p[j] as int] && p[i] < p[j]
        } by {
            assert(p[i] == q[i]);
            if j < order.len() {
                assert(p[j] == q[j]);
            } else {
                assert(p[j] == order.last());
                if q[i] != x {
                    let k = choose|k: int| 0 <= k < rest.len() && rest[k] == q[i];
                    assert(order[k] == q[i]);
                    assert(order[order.len() - 1] == order.last());
                }
            }
        }
        assert forall|i: int| 0 <= i < order.len() + 1 implies (#[trigger] p[i]) <= x by {
            if i < order.len() {
                assert(p[i] == q[i]);
            }
        }
    }
}

proof fn lemma_descending_prefix(keys: Seq<u128>, n: nat)
    requires
        n <= usize::MAX,
    ensures
        sorted_indices(descending_prefix(keys, n), keys, n),
    decreases n,
{
    if n > 0 {
        lemma_descending_prefix(keys, (n - 1) as nat);
        let before = descending_prefix(keys, (n - 1) as nat);
        lemma_placed(before, keys, (n - 1) as usize);
        assert forall|i: int| 0 <= i < n implies (#[trigger] descending_prefix(keys, n)[i]) < n by {
            assert(descending_prefix(keys, n) == placed(before, keys, (n - 1) as usize));
        }
    }
}

/// The order is a permutation of the indices, sorted by falling keys, and stable.
pub proof fn descending_is_a_stable_sort(keys: Seq<u128>)
    requires
        keys.len() <= usize::MAX,
    ensures
        sorted_indices(descending(keys), keys, keys.len()),
        descending(keys).no_duplicates(),
        forall|y: usize| y < keys.len() ==> #[trigger] descending(keys).contains(y),
{
    lemma_descending_prefix(keys, keys.len());
    let order = descending(keys);
    assert forall|y: usize| y < keys.len() implies #[trigger] order.contains(y) by {
        lemma_prefix_covers(keys, keys.len(), y);
    }
}

proof fn lemma_placed_covers(order: Seq<usize>, keys: Seq<u128>, x: usize, y: usize)
    ensures
        y == x || order.contains(y) ==> placed(order, keys, x).contains(y),
    decreases order.len(),
{
    let p = placed(order, keys, x);
    if order.len() == 0 || keys[order.last() as int] >= keys[x as int] {
        assert(p[order.len() as int] == x);
        if order.contains(y) {
            let k = choose|k: int| 0 <= k < order.len() && order[k] == y;
            assert(p[k] == y);
        }
    } else {
        let rest = order.drop_last();
        lemma_placed_covers(rest, keys, x, y);
        let q = placed(rest, keys, x);
        assert(p[q.len() as int] == order.last());
        if order.contains(y) && y != order.last() {
            let k = choose|k: int| 0 <= k < order.len() && order[k] == y;
            assert(rest[k] == y);
        }
        if q.contains(y) {
            let k = choose|k: int| 0 <= k < q.len() && q[k] == y;
            assert(p[k] == y);
        }
    }
}

proof fn lemma_prefix_covers(keys: Seq<u128>, n: nat, y: usize)
    requires
        y < n <= usize::MAX,
    ensures
        descending_prefix(keys, n).contains(y),
    decreases n,
{
    let before = descending_prefix(keys, (n - 1) as nat);
    if y < n - 1 {
        lemma_prefix_covers(keys, (n - 1) as nat, y);
    }
    lemma_placed_covers(before, keys, (n - 1) as usize, y);
}

/// Indices in the order of falling keys; equal keys keep their order.
pub fn descending_order(keys: &Vec<u128>) -> (order: Vec<usize>)
    ensures
        order@ == descending(keys@),
        sorted_indices(order@, keys@, keys@.len()),
{
    let n: usize = keys.len();
    let mut order: Vec<usize> = Vec::new();
    let mut x: usize = 0;
    while x < n
        invariant
            n == keys@.len(),
            x <= n,
            order@ == descending_prefix(keys@, x as nat),
            sorted_indices(order@, keys@, x as nat),
        decreases n - x,
    {
        let ghost before = order@;
        let mut j: usize = order.len();
        assert(before.take(j as int) =~= before && before.skip(j as int) =~= Seq::<usize>::empty());
        assert(placed(before, keys@, x) =~= placed(before, keys@, x) + Seq::<usize>::empty());
        while j > 0 && keys[order[j - 1]] < keys[x]
            invariant
                n == keys@.len(),
                x < n,
                order@ == before,
                sorted_indices(order@, keys@, x as nat),
                j <= before.len(),
                placed(before, keys@, x) == placed(before.take(j as int), keys@, x) + before.skip(
                    j as int,
                ),
            decreases j,
        {
            proof {
                let head = before.take(j as int);
                assert(head.last() == before[j - 1]);
                assert(head.drop_last() =~= before.take(j - 1));
                assert(placed(head, keys@, x) + before.skip(j as int) =~= placed(
                    head.drop_last(),
                    keys@,
                    x,
                ) + before.skip(j - 1));
            }
            j = j - 1;
        }
        proof {
            let head = before.take(j as int);
            if j > 0 {
                assert(head.last() == before[j - 1]);
            }
            assert(placed(head, keys@, x) == head.push(x));
            assert(before.insert(j as int, x) =~= head.push(x) + before.skip(j as int));
            lemma_descending_prefix(keys@, (x + 1) as nat);
        }
        order.insert(j, x);
        x = x + 1;
    }
    order
}

/// The keys of doubles; what is not a number comes last in a falling order.
pub open spec fn double_keys(xs: Seq<Binary64>) -> Seq<u128> {
    xs.map_values(|x: Binary64| x.key() as u128)
}

/// Indices in the order of falling values; equal values keep their order.
pub fn by_falling_value(xs: &Vec<Binary64>) -> (order: Vec<usize>)
    ensures
        order@ == descending(double_keys(xs@)),
        sorted_indices(order@, double_keys(xs@), xs@.len()),
{
    let n: usize = xs.len();
    let mut keys: Vec<u128> = Vec::new();
    let mut i: usize = 0;
    while i < n
        invariant
            n == xs@.len(),
            i <= n,
            keys@ == double_keys(xs@.take(i as int)),
        decreases n - i,
    {
        keys.push(xs[i].sort_key() as u128);
        i = i + 1;
        assert(keys@ =~= double_keys(xs@.take(i as int)));
    }
    assert(xs@.take(n as int) =~= xs@);
    descending_order(&keys)
}

/// Keys that fall as the times rise.
pub open spec fn time_keys(ts: Seq<i64>) -> Seq<u128> {
    ts.map_values(|t: i64| (i64::MAX - t) as u128)
}

/// Indices in the order of rising times; equal times keep their order.
pub fn by_rising_time(ts: &Vec<i64>) -> (order: Vec<usize>)
    ensures
        order@ == descending(time_keys(ts@)),
        sorted_indices(order@, time_keys(ts@), ts@.len()),
{
    let n: usize = ts.len();
    let mut keys: Vec<u128> = Vec::new();
    let mut i: usize = 0;
    while i < n
        invariant
            n == ts@.len(),
            i <= n,
            keys@ == time_keys(ts@.take(i as int)),
        decreases n - i,
    {
        keys.push((i64::MAX as i128 - ts[i] as i128) as u128);
        i = i + 1;
        assert(keys@ =~= time_keys(ts@.take(i as int)));
    }
    assert(ts@.take(n as int) =~= ts@);
    descending_order(&keys)
}

/// A falling order of numbers is one of their values.
pub proof fn falling_order_falls(xs: Seq<Binary64>, i: int, j: int)
    requires
        xs.len() <= usize::MAX,
        0 <= i < j < xs.len(),
        forall|k: int| 0 <= k < xs.len() ==> !(#[trigger] xs[k]).nan(),
    ensures
        ({
            let order = descending(double_keys(xs));
            xs[order[j] as int].at_most(xs[order[i] as int])
        }),
{
    descending_is_a_stable_sort(double_keys(xs));
    let order = descending(double_keys(xs));
    let a = order[i] as int;
    let b = order[j] as int;
    crate::binary64::lemma_key_order(xs[b], xs[a]);
    assert(double_keys(xs)[a] == xs[a].key() as u128);
    assert(double_keys(xs)[b] == xs[b].key() as u128);
}

/// The last of the largest members, as a scan from the front finds it: a member replaces the
/// best one before it unless that one is greater.
pub open spec fn last_best(xs: Seq<Binary64>) -> int
    decreases xs.len(),
{
    if xs.len() <= 1 {
        0
    } else {
        let b = last_best(xs.drop_last());
        if xs.last().less(xs[b]) {
            b
        } else {
            xs.len() - 1
        }
    }
}

/// The first of the smallest members, as a scan from the front finds it.
pub open spec fn first_least(xs: Seq<Binary64>) -> int
    decreases xs.len(),
{
    if xs.len() <= 1 {
        0
    } else {
        let b = first_least(xs.drop_last());
        if xs.last().less(xs[b]) {
            xs.len() - 1
        } else {
            b
        }
    }
}

/// The last of the largest members.
pub fn index_of_best(xs: &Vec<Binary64>) -> (r: usize)
    requires
        xs@.len() > 0,
    ensures
        r == last_best(xs@),
        r < xs@.len(),
{
    let n: usize = xs.len();
    let mut best: usize = 0;
    let mut i: usize = 1;
    assert(xs@.take(1).len() == 1);
    while i < n
        invariant
            n == xs@.len(),
            1 <= i <= n,
            best < i,
            best == last_best(xs@.take(i as int)),
        decreases n - i,
    {
        assert(xs@.take(i + 1).drop_last() =~= xs@.take(i as int));
        if !xs[i].is_less(xs[best]) {
            best = i;
        }
        i = i + 1;
    }
    assert(xs@.take(n as int) =~= xs@);
    best
}

/// The first of the smallest members.
pub fn index_of_least(xs: &Vec<Binary64>) -> (r: usize)
    requires
        xs@.len() > 0,
    ensures
        r == first_least(xs@),
        r < xs@.len(),
{
    let n: usize = xs.len();
    let mut least: usize = 0;
    let mut i: usize = 1;
    assert(xs@.take(1).len() == 1);
    while i < n
        invariant
            n == xs@.len(),
            1 <= i <= n,
            least < i,
            least == first_least(xs@.take(i as int)),
        decreases n - i,
    {
        assert(xs@.take(i + 1).drop_last() =~= xs@.take(i as int));
        if xs[i].is_less(xs[least]) {
            least = i;
        }
        i = i + 1;
    }
    assert(xs@.take(n as int) =~= xs@);
    least
}

/// Among numbers, no member is greater than the best one, and none behind it equals it.
pub proof fn best_is_the_last_maximum(xs: Seq<Binary64>)
    requires
        xs.len() > 0,
        forall|k: int| 0 <= k < xs.len() ==> !(#[trigger] xs[k]).nan(),
    ensures
        0 <= last_best(xs) < xs.len(),
        forall|k: int| 0 <= k < xs.len() ==> (#[trigger] xs[k]).at_most(xs[last_best(xs)]),
        forall|k: int| last_best(xs) < k < xs.len() ==> (#[trigger] xs[k]).less(xs[last_best(xs)]),
    decreases xs.len(),
{
    if xs.len() > 1 {
        let rest = xs.drop_last();
        best_is_the_last_maximum(rest);
        let b = last_best(rest);
        assert(rest[b] == xs[b]);
        assert forall|k: int| 0 <= k < xs.len() implies (#[trigger] xs[k]).at_most(
            xs[last_best(xs)],
        ) by {
            if k < xs.len() - 1 {
                assert(rest[k] == xs[k]);
            }
        }
        assert forall|k: int| last_best(xs) < k < xs.len() implies (#[trigger] xs[k]).less(
            xs[last_best(xs)],
        ) by {
            if k < xs.len() - 1 {
                assert(rest[k] == xs[k]);
            }
        }
    }
}

/// Among numbers, no member is less than the least one, and none before it equals it.
pub proof fn least_is_the_first_minimum(xs: Seq<Binary64>)
    requires
        xs.len() > 0,
        forall|k: int| 0 <= k < xs.len() ==> !(#[trigger] xs[k]).nan(),
    ensures
        0 <= first_least(xs) < xs.len(),
        forall|k: int| 0 <= k < xs.len() ==> xs[first_least(xs)].at_most(#[trigger] xs[k]),
        forall|k: int| 0 <= k < first_least(xs) ==> xs[first_least(xs)].less(#[trigger] xs[k]),
    decreases xs.len(),
{
    if xs.len() > 1 {
        let rest = xs.drop_last();
        least_is_the_first_minimum(rest);
        let b = first_least(rest);
        assert(rest[b] == xs[b]);
        assert forall|k: int| 0 <= k < xs.len() implies xs[first_least(xs)].at_most(
            #[trigger] xs[k],
        ) by {
            if k < xs.len() - 1 {
                assert(rest[k] == xs[k]);
            }
        }
        assert forall|k: int| 0 <= k < first_least(xs) implies xs[first_least(xs)].less(
            #[trigger] xs[k],
        ) by {
            if k < xs.len() - 1 {
                assert(rest[k] == xs[k]);
            }
        }
    }
}

} // verus!
