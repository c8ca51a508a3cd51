//! Helpers: text for errors, stable ranking by a key, Fibonacci weights
//! and a merge sort.

use core::cmp::Ordering;
use vstd::std_specs::cmp::PartialOrdSpec;
use vstd::prelude::*;

verus! {

/// The text that `Debug` gives for `err`.
///
/// Calls `format!` of std with `{:?}`; what the text holds is up to the
/// `Debug` impl of `T`, so nothing is claimed of it.
#[verifier::external_body]
pub fn generalize_error<T: std::fmt::Debug>(err: T) -> (res: String) {
    format!("{:?}", err)
}

/// Where `key` goes among the ascending `keys` so that it stands behind
/// every key that is not greater.
pub open spec fn slot(keys: Seq<int>, key: int) -> int
    decreases keys.len(),
{
    if keys.len() == 0 {
        0
    } else if keys.last() > key {
        slot(keys.drop_last(), key)
    } else {
        keys.len() as int
    }
}

/// `items` in ascending order of `key`; items of one key keep the order in
/// which they came.
pub open spec fn stable_rank<T>(items: Seq<T>, key: spec_fn(T) -> int) -> Seq<T>
    decreases items.len(),
{
    if items.len() == 0 {
        Seq::empty()
    } else {
        let ranked = stable_rank(items.drop_last(), key);
        ranked.insert(slot(ranked.map_values(key), key(items.last())), items.last())
    }
}

/// `keys` ascend.
pub open spec fn ascending(keys: Seq<int>) -> bool {
    forall|i: int, j: int| 0 <= i <= j < keys.len() ==> keys[i] <= keys[j]
}

/// The slot of a key lies within the list; among ascending keys, every key
/// before it is not greater and every key from it on is greater.
pub proof fn lemma_slot(keys: Seq<int>, key: int)
    ensures
        0 <= slot(keys, key) <= keys.len(),
        forall|i: int| slot(keys, key) <= i < keys.len() ==> keys[i] > key,
        ascending(keys) ==> forall|i: int| 0 <= i < slot(keys, key) ==> keys[i] <= key,
    decreases keys.len(),
{
    if keys.len() > 0 && keys.last() > key {
        lemma_slot(keys.drop_last(), key);
        assert forall|i: int| slot(keys, key) <= i < keys.len() implies keys[i] > key by {
            if i < keys.len() - 1 {
                assert(keys.drop_last()[i] == keys[i]);
            }
        }
        if ascending(keys) {
            assert forall|i: int, j: int| 0 <= i <= j < keys.drop_last().len() implies keys.drop_last()[i]
                <= keys.drop_last()[j] by {
                assert(keys.drop_last()[i] == keys[i]);
                assert(keys.drop_last()[j] == keys[j]);
            }
            assert forall|i: int| 0 <= i < slot(keys, key) implies keys[i] <= key by {
                assert(keys.drop_last()[i] == keys[i]);
            }
        }
    } else if keys.len() > 0 {
        if ascending(keys) {
            assert forall|i: int| 0 <= i < keys.len() implies keys[i] <= key by {
                assert(keys[i] <= keys[keys.len() - 1]);
            }
        }
    }
}

/// Ranking keeps every item, as often as it came, and puts the keys in
/// ascending order.
pub proof fn lemma_stable_rank<T>(items: Seq<T>, key: spec_fn(T) -> int)
    ensures
        stable_rank(items, key).len() == items.len(),
        stable_rank(items, key).to_multiset() == items.to_multiset(),
        ascending(stable_rank(items, key).map_values(key)),
    decreases items.len(),
{
    broadcast use vstd::seq_lib::group_to_multiset_ensures;

    if items.len() == 0 {
        assert(stable_rank(items, key).to_multiset() =~= items.to_multiset());
    } else {
        let rest = items.drop_last();
        let last = items.last();
        let ranked = stable_rank(rest, key);
        let keys = ranked.map_values(key);
        let at = slot(keys, key(last));
        lemma_stable_rank(rest, key);
        lemma_slot(keys, key(last));
        let grown = ranked.insert(at, last);
        vstd::seq_lib::to_multiset_insert(ranked, at, last);
        assert(rest.push(last) =~= items);
        assert(items.to_multiset() =~= rest.to_multiset().insert(last));
        let grown_keys = grown.map_values(key);
        assert forall|i: int, j: int| 0 <= i <= j < grown_keys.len() implies grown_keys[i]
            <= grown_keys[j] by {
            let ki = if i < at {
                keys[i]
            } else if i == at {
                key(last)
            } else {
                keys[i - 1]
            };
            let kj = if j < at {
                keys[j]
            } else if j == at {
                key(last)
            } else {
                keys[j - 1]
            };
            assert(grown_keys[i] == ki);
            assert(grown_keys[j] == kj);
            if i < at && j > at {
                assert(keys[i] <= keys[j - 1]);
            } else if i > at {
                assert(keys[i - 1] <= keys[j - 1]);
            } else if j < at {
                assert(keys[i] <= keys[j]);
            }
        }
    }
}

/// The slot of `key` among `keys`.
pub fn find_slot(keys: &Vec<i128>, key: i128) -> (res: usize)
    ensures
        res as int == slot(keys@.map_values(|k: i128| k as int), key as int),
        res <= keys@.len(),
{
    let ghost all = keys@.map_values(|k: i128| k as int);
    let mut at: usize = keys.len();
    proof {
        assert(all.take(at as int) =~= all);
    }
    while at > 0 && keys[at - 1] > key
        invariant
            at <= keys@.len(),
            all == keys@.map_values(|k: i128| k as int),
            slot(all, key as int) == slot(all.take(at as int), key as int),
        decreases at,
    {
        proof {
            assert(all.take(at as int).last() == keys@[at - 1] as int);
            assert(all.take(at as int).drop_last() =~= all.take(at - 1));
        }
        at -= 1;
    }
    proof {
        if at > 0 {
            assert(all.take(at as int).last() == keys@[at - 1] as int);
        }
    }
    at
}

/// Whether `name` stands in `list`.
pub fn is_in_names(name: &String, list: &Vec<String>) -> (res: bool)
    ensures
        res == list.deep_view().contains(name@),
{
    let mut i: usize = 0;
    while i < list.len()
        invariant
            i <= list@.len(),
            forall|k: int| 0 <= k < i ==> list.deep_view()[k] != name@,
        decreases list@.len() - i,
    {
        if list[i] == *name {
            proof {
                assert(list.deep_view()[i as int] == name@);
            }
            return true;
        }
        i += 1;
    }
    false
}

/// The Fibonacci numbers, from `fib(1) == fib(2) == 1` on.
pub open spec fn fib(i: nat) -> nat
    decreases i,
{
    if i == 0 {
        0
    } else if i <= 2 {
        1
    } else {
        fib((i - 1) as nat) + fib((i - 2) as nat)
    }
}

/// The first `k` Fibonacci numbers, added up.
pub open spec fn fib_sum(k: nat) -> nat
    decreases k,
{
    if k == 0 {
        0
    } else {
        fib_sum((k - 1) as nat) + fib(k)
    }
}

/// `list` is as many ones as `n` is above the sum of the first `k`
/// Fibonacci numbers, then these numbers in order; and `k` is the greatest
/// count whose sum is within `n`.
pub open spec fn is_fibonacci_list(n: nat, k: nat, list: Seq<usize>) -> bool {
    &&& fib_sum(k) <= n < fib_sum(k + 1)
    &&& list.len() == n - fib_sum(k) + k
    &&& forall|j: int| 0 <= j < n - fib_sum(k) ==> list[j] == 1
    &&& forall|j: int| 0 <= j < k ==> #[trigger] list[n - fib_sum(k) + j] == fib((j + 1) as nat)
}

/// `list` is the list of Fibonacci weights that add up to `n`.
pub open spec fn is_fibonacci_weights(n: nat, list: Seq<usize>) -> bool {
    exists|k: nat| #[trigger] is_fibonacci_list(n, k, list)
}

/// The sum of the first `k` Fibonacci numbers is one below the number two
/// places on, and every Fibonacci number from the first on is positive.
pub proof fn lemma_fib_sum(k: nat)
    ensures
        fib_sum(k) + 1 == fib(k + 2),
        fib(k + 1) >= 1,
    decreases k,
{
    if k > 0 {
        lemma_fib_sum((k - 1) as nat);
    }
}

/// The sums of Fibonacci numbers grow with the count, so only one count
/// fits a given `n`.
pub proof fn lemma_fib_sum_grows(a: nat, b: nat)
    requires
        a < b,
    ensures
        fib_sum(a) < fib_sum(b),
    decreases b,
{
    lemma_fib_sum((b - 1) as nat);
    if a < b - 1 {
        lemma_fib_sum_grows(a, (b - 1) as nat);
    }
}

/// Weights that add up to `n`: the Fibonacci numbers 1, 1, 2, 3, 5, ... as
/// long as their sum stays within `n`, with as many ones before them as the
/// sum falls short of `n`.
pub fn fibonacci_n(n: usize) -> (res: Vec<usize>)
    ensures
        is_fibonacci_weights(n as nat, res@),
{
    let mut acc: Vec<usize> = Vec::new();
    let mut total: usize = 0;
    let mut next: usize = 1;
    let mut previous: usize = 0;
    let ghost mut k: nat = 0;
    loop
        invariant
            total == fib_sum(k),
            total <= n,
            next == fib(k + 1),
            previous == fib(k),
            acc@.len() == k,
            forall|j: int| 0 <= j < k ==> #[trigger] acc@[j] == fib((j + 1) as nat),
        ensures
            n < fib_sum(k + 1),
        decreases n - total,
    {
        proof {
            lemma_fib_sum(k);
        }
        if next > n - total {
            break ;
        }
        acc.push(next);
        total = total + next;
        proof {
            lemma_fib_sum(k + 1);
            lemma_fib_sum(k);
            assert(fib(k + 2) == fib(k + 1) + fib(k));
        }
        let following = previous + next;
        previous = next;
        next = following;
        proof {
            k = k + 1;
        }
    }
    let shortfall = n - total;
    let mut res: Vec<usize> = Vec::new();
    let mut i: usize = 0;
    while i < shortfall
        invariant
            i <= shortfall,
            res@.len() == i,
            forall|j: int| 0 <= j < i ==> res@[j] == 1,
        decreases shortfall - i,
    {
        res.push(1);
        i += 1;
    }
    let mut j: usize = 0;
    while j < acc.len()
        invariant
            j <= acc@.len(),
            acc@.len() == k,
            res@.len() == shortfall + j,
            forall|m: int| 0 <= m < shortfall ==> res@[m] == 1,
            forall|m: int| 0 <= m < j ==> #[trigger] res@[shortfall + m] == acc@[m],
        decreases acc@.len() - j,
    {
        res.push(acc[j]);
        j += 1;
    }
    proof {
        assert(is_fibonacci_list(n as nat, k, res@));
    }
    res
}

/// `list` back to front.
pub fn reversed(list: &Vec<usize>) -> (res: Vec<usize>)
    ensures
        res@ == list@.reverse(),
{
    let mut res: Vec<usize> = Vec::new();
    let mut i: usize = list.len();
    while i > 0
        invariant
            i <= list@.len(),
            res@.len() == list@.len() - i,
            forall|m: int| 0 <= m < res@.len() ==> res@[m] == list@[list@.len() - 1 - m],
        decreases i,
    {
        i -= 1;
        res.push(list[i]);
    }
    proof {
        assert(res@ =~= list@.reverse());
    }
    res
}

/// `x` does not come after `y` in the order of `T`.
pub open spec fn not_above<T: Ord>(x: T, y: T) -> bool {
    x.partial_cmp_spec(&y) != Some(Ordering::Greater)
}

/// The comparisons of `T` follow its order, and that order is total and
/// transitive.
pub open spec fn orders_totally<T: Ord>() -> bool {
    &&& T::obeys_partial_cmp_spec()
    &&& forall|x: T, y: T| !#[trigger] not_above(x, y) ==> not_above(y, x)
    &&& forall|x: T, y: T, z: T|
        #[trigger] not_above(x, y) && #[trigger] not_above(y, z) ==> not_above(x, z)
}

/// No item of `list` comes after a later one.
pub open spec fn sorted<T: Ord>(list: Seq<T>) -> bool {
    forall|i: int, j: int| 0 <= i <= j < list.len() ==> not_above(list[i], list[j])
}

/// No item of `low` comes after an item of `high`.
pub open spec fn all_not_above<T: Ord>(low: Seq<T>, high: Seq<T>) -> bool {
    forall|i: int, j: int| 0 <= i < low.len() && 0 <= j < high.len() ==> not_above(low[i], high[j])
}

/// The order of `i32` is total and transitive, and so is that of `usize`.
pub proof fn lemma_integers_order_totally()
    ensures
        orders_totally::<i32>(),
        orders_totally::<usize>(),
{
}

/// Merges two lists into one that holds the items of both. Where both are
/// sorted, so is the result.
pub fn unite<T: Ord>(a: Vec<T>, b: Vec<T>) -> (res: Vec<T>)
    ensures
        res@.to_multiset() == a@.to_multiset().add(b@.to_multiset()),
        orders_totally::<T>() && sorted(a@) && sorted(b@) ==> sorted(res@),
{
    broadcast use {vstd::seq_lib::group_to_multiset_ensures, vstd::multiset::group_multiset_axioms};

    let ghost all = a@.to_multiset().add(b@.to_multiset());
    let ghost ordered = orders_totally::<T>() && sorted(a@) && sorted(b@);
    let mut a = a;
    let mut b = b;
    let mut finish: Vec<T> = Vec::new();
    assert(finish@.to_multiset().add(a@.to_multiset()).add(b@.to_multiset()) =~= all);
    while a.len() > 0 && b.len() > 0
        invariant
            finish@.to_multiset().add(a@.to_multiset()).add(b@.to_multiset()) == all,
            ordered ==> orders_totally::<T>() && sorted(a@) && sorted(b@) && sorted(finish@)
                && all_not_above(finish@, a@) && all_not_above(finish@, b@),
        decreases a@.len() + b@.len(),
    {
        let ghost before = finish@;
        let ghost left = a@;
        let ghost right = b@;
        if a[0] > b[0] {
            let item = b.remove(0);
            finish.push(item);
            proof {
                assert(b@ =~= right.remove(0));
                assert(finish@ =~= before.push(right[0]));
                vstd::seq_lib::to_multiset_remove(right, 0);
                vstd::seq_lib::to_multiset_build(before, right[0]);
                assert(right.contains(right[0]));
                vstd::seq_lib::to_multiset_contains(right, right[0]);
                assert(finish@.to_multiset().add(a@.to_multiset()).add(b@.to_multiset()) =~= all);
                if ordered {
                    assert(!not_above(left[0], right[0]));
                    assert(not_above(right[0], left[0]));
                    assert forall|i: int, j: int| 0 <= i <= j < finish@.len() implies not_above(
                        finish@[i],
                        finish@[j],
                    ) by {
                        if j == before.len() {
                            if i < before.len() {
                                assert(not_above(before[i], right[0]));
                            } else {
                                assert(not_above(right[0], right[0]));
                            }
                        }
                    }
                    assert forall|i: int, j: int|
                        0 <= i < finish@.len() && 0 <= j < a@.len() implies not_above(
                        finish@[i],
                        a@[j],
                    ) by {
                        if i == before.len() {
                            assert(not_above(left[0], left[j]));
                        }
                    }
                    assert forall|i: int, j: int|
                        0 <= i < finish@.len() && 0 <= j < b@.len() implies not_above(
                        finish@[i],
                        b@[j],
                    ) by {
                        assert(b@[j] == right[j + 1]);
                        if i == before.len() {
                            assert(not_above(right[0], right[j + 1]));
                        } else {
                            assert(not_above(before[i], right[j + 1]));
                        }
                    }
                    assert forall|i: int, j: int| 0 <= i <= j < b@.len() implies not_above(
                        b@[i],
                        b@[j],
                    ) by {
                        assert(not_above(right[i + 1], right[j + 1]));
                    }
                }
            }
        } else {
            let item = a.remove(0);
            finish.push(item);
            proof {
                assert(a@ =~= left.remove(0));
                assert(finish@ =~= before.push(left[0]));
                vstd::seq_lib::to_multiset_remove(left, 0);
                vstd::seq_lib::to_multiset_build(before, left[0]);
                assert(left.contains(left[0]));
                vstd::seq_lib::to_multiset_contains(left, left[0]);
                assert(finish@.to_multiset().add(a@.to_multiset()).add(b@.to_multiset()) =~= all);
                if ordered {
                    assert(not_above(left[0], right[0]));
                    assert forall|i: int, j: int| 0 <= i <= j < finish@.len() implies not_above(
                        finish@[i],
                        finish@[j],
                    ) by {
                        if j == before.len() {
                            if i < before.len() {
                                assert(not_above(before[i], left[0]));
                            } else {
                                assert(not_above(left[0], left[0]));
                            }
                        }
                    }
                    assert forall|i: int, j: int|
                        0 <= i < finish@.len() && 0 <= j < b@.len() implies not_above(
                        finish@[i],
                        b@[j],
                    ) by {
                        if i == before.len() {
                            assert(not_above(right[0], right[j]));
                        }
                    }
                    assert forall|i: int, j: int|
                        0 <= i < finish@.len() && 0 <= j < a@.len() implies not_above(
                        finish@[i],
                        a@[j],
                    ) by {
                        assert(a@[j] == left[j + 1]);
                        if i == before.len() {
                            assert(not_above(left[0], left[j + 1]));
                        } else {
                            assert(not_above(before[i], left[j + 1]));
                        }
                    }
                    assert forall|i: int, j: int| 0 <= i <= j < a@.len() implies not_above(
                        a@[i],
                        a@[j],
                    ) by {
                        assert(not_above(left[i + 1], left[j + 1]));
                    }
                }
            }
        }
    }
    let ghost before = finish@;
    let ghost left = a@;
    let ghost right = b@;
    if a.len() > 0 {
        finish.append(&mut a);
        proof {
            vstd::seq_lib::lemma_multiset_commutative(before, left);
            assert(right.to_multiset() =~= vstd::multiset::Multiset::<T>::empty());
            assert(finish@.to_multiset() =~= all);
        }
    } else {
        finish.append(&mut b);
        proof {
            vstd::seq_lib::lemma_multiset_commutative(before, right);
            assert(left.to_multiset() =~= vstd::multiset::Multiset::<T>::empty());
            assert(finish@.to_multiset() =~= all);
        }
    }
    finish
}

/// Sorts `vec` by merging: the result holds the items of `vec`, each as
/// often as `vec` does, and no item of it comes after a later one.
pub fn merge_sort<T: Ord>(vec: Vec<T>) -> (res: Vec<T>)
    ensures
        res@.to_multiset() == vec@.to_multiset(),
        orders_totally::<T>() ==> sorted(res@),
    decreases vec@.len(),
{
    let mut vec = vec;
    let ghost whole = vec@;
    let len = vec.len();
    if len <= 1 {
        vec
    } else {
        let b = vec.split_off(len / 2);
        let a = vec;
        proof {
            assert(a@ + b@ =~= whole);
            vstd::seq_lib::lemma_multiset_commutative(a@, b@);
        }
        let a = merge_sort(a);
        let b = merge_sort(b);
        unite(a, b)
    }
}

} // verus!
