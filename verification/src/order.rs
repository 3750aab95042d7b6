//! Stable ordering by a pair of integer keys.
use vstd::prelude::*;

verus! {

/// A pair of keys, the first more significant.
pub type Key = (i64, i64);

/// The first key comes before the second.
pub open spec fn key_below(a: Key, b: Key) -> bool {
    a.0 < b.0 || a.0 == b.0 && a.1 < b.1
}

/// Position `a` comes before position `b`: by key, and by position where the keys agree.
pub open spec fn precedes(keys: Seq<Key>, a: int, b: int) -> bool {
    key_below(keys[a], keys[b]) || keys[a] == keys[b] && a < b
}

/// `order` lists every position of `keys` once, each before those it precedes.
pub open spec fn is_stable_order(keys: Seq<Key>, order: Seq<usize>) -> bool {
    &&& order.len() == keys.len()
    &&& forall|i: int| 0 <= i < order.len() ==> 0 <= #[trigger] order[i] < keys.len()
    &&& forall|i: int, j: int|
        0 <= i < j < order.len() ==> precedes(keys, #[trigger] order[i] as int, #[trigger] order[j] as int)
}

/// The positions of `keys` in stable order.
pub open spec fn stable_order_of(keys: Seq<Key>) -> Seq<usize> {
    choose|order: Seq<usize>| is_stable_order(keys, order)
}

/// Every position occurs in a stable order.
pub proof fn lemma_order_complete(keys: Seq<Key>, order: Seq<usize>, k: usize)
    requires
        is_stable_order(keys, order),
        k < keys.len(),
    ensures
        order.contains(k),
{
    if !order.contains(k) {
        assert(order.no_duplicates()) by {
            assert forall|i: int, j: int|
                0 <= i < order.len() && 0 <= j < order.len() && i != j implies order[i]
                != order[j] by {
                if i < j {
                    assert(precedes(keys, order[i] as int, order[j] as int));
                } else {
                    assert(precedes(keys, order[j] as int, order[i] as int));
                }
            }
        }
        let ints: Seq<int> = order.map_values(|x: usize| x as int).push(k as int);
        assert(ints.no_duplicates()) by {
            assert forall|i: int, j: int|
                0 <= i < ints.len() && 0 <= j < ints.len() && i != j implies ints[i]
                != ints[j] by {
                if i < order.len() && j < order.len() {
                    assert(order[i] != order[j]);
                } else if i < order.len() {
                    assert(order.contains(order[i]));
                } else if j < order.len() {
                    assert(order.contains(order[j]));
                }
            }
        }
        let all: Set<int> = vstd::set_lib::set_int_range(0, keys.len() as int);
        vstd::set_lib::lemma_int_range(0, keys.len() as int);
        ints.unique_seq_to_set();
        assert(ints.to_set().subset_of(all)) by {
            assert forall|x: int| ints.to_set().contains(x) implies all.contains(x) by {
                let i: int = choose|i: int| 0 <= i < ints.len() && ints[i] == x;
                if i < order.len() {
                    assert(ints[i] == order[i] as int);
                }
            }
        }
        vstd::set_lib::lemma_len_subset(ints.to_set(), all);
        assert(false);
    }
}

/// There is only one stable order.
pub proof fn lemma_order_unique(keys: Seq<Key>, a: Seq<usize>, b: Seq<usize>)
    requires
        is_stable_order(keys, a),
        is_stable_order(keys, b),
    ensures
        a == b,
{
    assert forall|n: nat| n <= a.len() implies a.take(n as int) == b.take(n as int) by {
        lemma_order_prefix(keys, a, b, n);
    }
    assert(a.take(a.len() as int) == a);
    assert(b.take(a.len() as int) == b);
}

proof fn lemma_order_prefix(keys: Seq<Key>, a: Seq<usize>, b: Seq<usize>, n: nat)
    requires
        is_stable_order(keys, a),
        is_stable_order(keys, b),
        n <= a.len(),
    ensures
        a.take(n as int) == b.take(n as int),
    decreases n,
{
    if n > 0 {
        let k: int = n - 1;
        lemma_order_prefix(keys, a, b, k as nat);
        assert forall|i: int| 0 <= i < k implies a[i] == b[i] by {
            assert(a.take(k)[i] == b.take(k)[i]);
        }
        if a[k] != b[k] {
            lemma_order_complete(keys, b, a[k]);
            lemma_order_complete(keys, a, b[k]);
            let i: int = choose|i: int| 0 <= i < b.len() && b[i] == a[k];
            let j: int = choose|j: int| 0 <= j < a.len() && a[j] == b[k];
            if i < k {
                assert(precedes(keys, a[i] as int, a[k] as int));
                assert(false);
            }
            if j < k {
                assert(precedes(keys, b[j] as int, b[k] as int));
                assert(false);
            }
            assert(precedes(keys, b[k] as int, b[i] as int));
            assert(precedes(keys, a[k] as int, a[j] as int));
            assert(false);
        }
        assert(a.take(n as int) =~= b.take(n as int));
    }
}

/// Listing some items in a stable order of their keys keeps the items.
pub proof fn lemma_order_multiset<A>(keys: Seq<Key>, order: Seq<usize>, items: Seq<A>)
    requires
        is_stable_order(keys, order),
        items.len() == keys.len(),
    ensures
        order.map_values(|i: usize| items[i as int]).to_multiset() == items.to_multiset(),
{
    let listed: Seq<A> = order.map_values(|i: usize| items[i as int]);
    let places: Seq<int> = order.map_values(|i: usize| i as int);
    assert forall|i: int, j: int|
        0 <= i < places.len() && 0 <= j < places.len() && i != j implies places[i]
        != places[j] by {
        if i < j {
            assert(precedes(keys, order[i] as int, order[j] as int));
        } else {
            assert(precedes(keys, order[j] as int, order[i] as int));
        }
    }
    lemma_places_multiset(places, items);
    assert(listed =~= places.map_values(|i: int| items[i]));
}

/// Listing all items, each once, keeps the items.
proof fn lemma_places_multiset<A>(places: Seq<int>, items: Seq<A>)
    requires
        places.len() == items.len(),
        places.no_duplicates(),
        forall|i: int| 0 <= i < places.len() ==> 0 <= #[trigger] places[i] < items.len(),
    ensures
        places.map_values(|i: int| items[i]).to_multiset() == items.to_multiset(),
    decreases items.len(),
{
    broadcast use vstd::seq_lib::group_to_multiset_ensures;

    let n: int = items.len() as int;
    let listed: Seq<A> = places.map_values(|i: int| items[i]);
    if n == 0 {
        assert(listed =~= items);
    } else {
        // where the last item is listed
        if !places.contains(n - 1) {
            let all: Set<int> = vstd::set_lib::set_int_range(0, n - 1);
            vstd::set_lib::lemma_int_range(0, n - 1);
            places.unique_seq_to_set();
            assert(places.to_set().subset_of(all)) by {
                assert forall|x: int| places.to_set().contains(x) implies all.contains(x) by {
                    let i: int = choose|i: int| 0 <= i < places.len() && places[i] == x;
                    assert(places.contains(places[i]));
                }
            }
            vstd::set_lib::lemma_len_subset(places.to_set(), all);
            assert(false);
        }
        let at: int = choose|i: int| 0 <= i < places.len() && places[i] == n - 1;
        let rest: Seq<int> = places.remove(at);
        let fewer: Seq<A> = items.drop_last();
        assert forall|i: int| 0 <= i < rest.len() implies 0 <= #[trigger] rest[i] < fewer.len() by {
            let p: int = if i < at { i } else { i + 1 };
            assert(rest[i] == places[p]);
            assert(places[p] != places[at]);
        }
        assert(rest.no_duplicates()) by {
            assert forall|i: int, j: int|
                0 <= i < rest.len() && 0 <= j < rest.len() && i != j implies rest[i] != rest[j] by {
                let p: int = if i < at { i } else { i + 1 };
                let q: int = if j < at { j } else { j + 1 };
                assert(rest[i] == places[p] && rest[j] == places[q]);
            }
        }
        lemma_places_multiset(rest, fewer);
        assert(listed.remove(at) =~= rest.map_values(|i: int| fewer[i]));
        assert(listed.to_multiset() =~= listed.remove(at).to_multiset().insert(items[n - 1]));
        assert(items =~= fewer.push(items[n - 1]));
        assert(items.to_multiset() =~= fewer.to_multiset().insert(items[n - 1]));
    }
}

/// The first place in an order from `i` on whose key exceeds the new one.
proof fn lemma_place(keys: Seq<Key>, order: Seq<usize>, new: Key, i: int) -> (p: int)
    requires
        0 <= i <= order.len(),
        forall|k: int| 0 <= k < i ==> !key_below(new, keys[#[trigger] order[k] as int]),
    ensures
        i <= p <= order.len(),
        forall|k: int| 0 <= k < p ==> !key_below(new, keys[#[trigger] order[k] as int]),
        p < order.len() ==> key_below(new, keys[order[p] as int]),
    decreases order.len() - i,
{
    if i < order.len() && !key_below(new, keys[order[i] as int]) {
        lemma_place(keys, order, new, i + 1)
    } else {
        i
    }
}

/// There is a stable order.
proof fn lemma_order_exists(keys: Seq<Key>) -> (order: Seq<usize>)
    requires
        keys.len() <= usize::MAX,
    ensures
        is_stable_order(keys, order),
    decreases keys.len(),
{
    if keys.len() == 0 {
        Seq::empty()
    } else {
        let n: int = keys.len() - 1;
        let fewer: Seq<Key> = keys.drop_last();
        let rest: Seq<usize> = lemma_order_exists(fewer);
        let p: int = lemma_place(keys, rest, keys[n], 0);
        let order: Seq<usize> = rest.insert(p, n as usize);
        assert forall|i: int| 0 <= i < order.len() implies 0 <= #[trigger] order[i]
            < keys.len() by {
            let k: int = if i < p { i } else { i - 1 };
            if i != p {
                assert(order[i] == rest[k]);
            }
        }
        assert forall|i: int, j: int| 0 <= i < j < order.len() implies precedes(
            keys,
            #[trigger] order[i] as int,
            #[trigger] order[j] as int,
        ) by {
            let a: int = if i < p { i } else { i - 1 };
            let b: int = if j < p { j } else { j - 1 };
            if i != p {
                assert(order[i] == rest[a]);
            }
            if j != p {
                assert(order[j] == rest[b]);
            }
            if i != p && j != p {
                assert(precedes(fewer, rest[a] as int, rest[b] as int));
            } else if j == p {
                assert(!key_below(keys[n], keys[rest[a] as int]));
            } else {
                assert(key_below(keys[n], keys[rest[p] as int]));
                if b > p {
                    assert(precedes(fewer, rest[p] as int, rest[b] as int));
                }
            }
        }
        order
    }
}

/// The positions in stable order are a stable order.
pub proof fn lemma_stable_order(keys: Seq<Key>)
    requires
        keys.len() <= usize::MAX,
    ensures
        is_stable_order(keys, stable_order_of(keys)),
{
    let order: Seq<usize> = lemma_order_exists(keys);
    assert(is_stable_order(keys, order));
}

/// Entries are put in order by the first part of their keys, then by the second; those with
/// equal keys keep their order.
pub proof fn lemma_ties_kept(keys: Seq<Key>, a: int, b: int)
    requires
        keys.len() <= usize::MAX,
        0 <= a < b < keys.len(),
    ensures
        ({
            let order = stable_order_of(keys);
            let (x, y) = (keys[order[a] as int], keys[order[b] as int]);
            &&& order.len() == keys.len()
            &&& x.0 < y.0 || x.0 == y.0 && x.1 <= y.1
            &&& x == y ==> order[a] < order[b]
        }),
{
    lemma_stable_order(keys);
    let order: Seq<usize> = stable_order_of(keys);
    assert(precedes(keys, order[a] as int, order[b] as int));
}

/// The positions of `keys` in stable order.
pub fn stable_order(keys: &Vec<Key>) -> (order: Vec<usize>)
    ensures
        is_stable_order(keys@, order@),
        order@ == stable_order_of(keys@),
{
    let mut order: Vec<usize> = Vec::new();
    let mut n: usize = 0;
    while n < keys.len()
        invariant
            n <= keys.len(),
            order.len() == n,
            forall|i: int| 0 <= i < order.len() ==> 0 <= #[trigger] order[i] < n,
            forall|i: int, j: int|
                0 <= i < j < order.len() ==> precedes(
                    keys@,
                    #[trigger] order[i] as int,
                    #[trigger] order[j] as int,
                ),
        decreases keys.len() - n,
    {
        // the first place whose key exceeds the new one
        let mut low: usize = 0;
        let mut high: usize = n;
        while low < high
            invariant
                low <= high <= n,
                n < keys.len(),
                order.len() == n,
                forall|i: int| 0 <= i < order.len() ==> 0 <= #[trigger] order[i] < n,
                forall|i: int, j: int|
                    0 <= i < j < order.len() ==> precedes(
                        keys@,
                        #[trigger] order[i] as int,
                        #[trigger] order[j] as int,
                    ),
                forall|i: int|
                    0 <= i < low ==> !key_below(keys[n as int], keys[#[trigger] order[i] as int]),
                forall|i: int|
                    high <= i < n ==> key_below(keys[n as int], keys[#[trigger] order[i] as int]),
            decreases high - low,
        {
            let mid: usize = low + (high - low) / 2;
            let at: usize = order[mid];
            let k: Key = keys[at];
            let new: Key = keys[n];
            if new.0 < k.0 || (new.0 == k.0 && new.1 < k.1) {
                proof {
                    assert forall|i: int| mid <= i < n implies key_below(
                        keys[n as int],
                        keys[#[trigger] order[i] as int],
                    ) by {
                        if i > mid {
                            assert(precedes(keys@, order[mid as int] as int, order[i] as int));
                        }
                    }
                }
                high = mid;
            } else {
                proof {
                    assert forall|i: int| 0 <= i < mid + 1 implies !key_below(
                        keys[n as int],
                        keys[#[trigger] order[i] as int],
                    ) by {
                        if i < mid {
                            assert(precedes(keys@, order[i] as int, order[mid as int] as int));
                        }
                    }
                }
                low = mid + 1;
            }
        }
        let ghost before: Seq<usize> = order@;
        order.insert(low, n);
        proof {
            assert(order@ == before.insert(low as int, n));
            assert forall|i: int, j: int| 0 <= i < j < order.len() implies precedes(
                keys@,
                #[trigger] order[i] as int,
                #[trigger] order[j] as int,
            ) by {
                let pi: int = if i < low { i } else { i - 1 };
                let pj: int = if j < low { j } else { j - 1 };
                if i != low {
                    assert(order[i] == before[pi]);
                }
                if j != low {
                    assert(order[j] == before[pj]);
                }
            }
        }
        n = n + 1;
    }
    proof {
        lemma_order_unique(keys@, order@, stable_order_of(keys@));
    }
    order
}

} // verus!
