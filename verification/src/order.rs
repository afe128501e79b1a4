//! Stable ordering by an integer key.
//!
//! Rows are never put in order by moving records about: the engine computes
//! the order of their positions and reads the records through it.

use vstd::prelude::*;

verus! {

/// Puts position `i` into `order` behind every position whose key is not
/// greater than the key of `i`.
pub open spec fn place(order: Seq<int>, keys: Seq<int>, i: int) -> Seq<int>
    decreases order.len(),
{
    if order.len() == 0 {
        seq![i]
    } else if keys[order.last()] <= keys[i] {
        order.push(i)
    } else {
        place(order.drop_last(), keys, i).push(order.last())
    }
}

/// The positions `0..keys.len()` in ascending order of key, positions with
/// equal keys in ascending order of position.
pub open spec fn stable_order(keys: Seq<int>) -> Seq<int>
    decreases keys.len(),
{
    if keys.len() == 0 {
        Seq::empty()
    } else {
        place(stable_order(keys.drop_last()), keys, keys.len() - 1)
    }
}

/// The items of `items` read through a sequence of positions.
pub open spec fn arrange<T>(items: Seq<T>, order: Seq<int>) -> Seq<T> {
    Seq::new(order.len(), |j: int| items[order[j]])
}

/// `order` runs through positions below `n`, each once, by ascending key and,
/// among equal keys, by ascending position.
pub open spec fn is_stable_order_of(order: Seq<int>, keys: Seq<int>, n: int) -> bool {
    &&& order.len() == n
    &&& forall|j: int| 0 <= j < order.len() ==> 0 <= #[trigger] order[j] < n
    &&& forall|i: int| 0 <= i < n ==> order.contains(i)
    &&& forall|a: int, b: int|
        0 <= a < b < order.len() ==> keys[#[trigger] order[a]] < keys[#[trigger] order[b]] || (
        keys[order[a]] == keys[order[b]] && order[a] < order[b])
}

/// Where `place` puts a position: behind the last entry whose key is not
/// greater, in front of the entries after it.
proof fn lemma_place_at(order: Seq<int>, keys: Seq<int>, i: int, p: int)
    requires
        0 <= p <= order.len(),
        forall|j: int| p <= j < order.len() ==> keys[#[trigger] order[j]] > keys[i],
        p == 0 || keys[order[p - 1]] <= keys[i],
    ensures
        place(order, keys, i) == order.insert(p, i),
    decreases order.len(),
{
    if order.len() == 0 {
        assert(order.insert(p, i) =~= seq![i]);
    } else if p == order.len() {
        assert(order.insert(p, i) =~= order.push(i));
    } else {
        let rest = order.drop_last();
        assert(keys[order[order.len() - 1]] > keys[i]);
        assert forall|j: int| p <= j < rest.len() implies keys[#[trigger] rest[j]] > keys[i] by {
            assert(rest[j] == order[j]);
        }
        lemma_place_at(rest, keys, i, p);
        assert(rest.insert(p, i).push(order.last()) =~= order.insert(p, i));
    }
}

/// The position at which `place` puts `i`.
pub open spec fn place_index(order: Seq<int>, keys: Seq<int>, i: int) -> int
    decreases order.len(),
{
    if order.len() == 0 {
        0
    } else if keys[order.last()] <= keys[i] {
        order.len() as int
    } else {
        place_index(order.drop_last(), keys, i)
    }
}

proof fn lemma_place_index(order: Seq<int>, keys: Seq<int>, i: int)
    ensures
        0 <= place_index(order, keys, i) <= order.len(),
        forall|j: int|
            place_index(order, keys, i) <= j < order.len() ==> keys[#[trigger] order[j]] > keys[i],
        place_index(order, keys, i) == 0 || keys[order[place_index(order, keys, i) - 1]]
            <= keys[i],
        place(order, keys, i) == order.insert(place_index(order, keys, i), i),
    decreases order.len(),
{
    if order.len() > 0 && keys[order.last()] > keys[i] {
        let rest = order.drop_last();
        lemma_place_index(rest, keys, i);
        let p = place_index(rest, keys, i);
        assert forall|j: int| p <= j < order.len() implies keys[#[trigger] order[j]] > keys[i] by {
            if j < rest.len() {
                assert(rest[j] == order[j]);
            }
        }
        assert(p == 0 || rest[p - 1] == order[p - 1]);
    }
    lemma_place_at(order, keys, i, place_index(order, keys, i));
}

/// `place` looks only at the keys of the positions it handles.
proof fn lemma_place_same_keys(order: Seq<int>, keys: Seq<int>, other: Seq<int>, i: int)
    requires
        keys.len() <= other.len(),
        forall|i: int| 0 <= i < keys.len() ==> keys[i] == other[i],
        0 <= i < keys.len(),
        forall|j: int| 0 <= j < order.len() ==> 0 <= #[trigger] order[j] < keys.len(),
    ensures
        place(order, keys, i) == place(order, other, i),
    decreases order.len(),
{
    if order.len() > 0 {
        assert(0 <= order[order.len() - 1] < keys.len());
        let rest = order.drop_last();
        assert forall|j: int| 0 <= j < rest.len() implies 0 <= #[trigger] rest[j] < keys.len() by {
            assert(rest[j] == order[j]);
        }
        lemma_place_same_keys(rest, keys, other, i);
    }
}

/// `stable_order` is what its name says: every position once, keys
/// ascending, equal keys in the order of their positions.
pub proof fn lemma_stable_order(keys: Seq<int>)
    ensures
        is_stable_order_of(stable_order(keys), keys, keys.len() as int),
    decreases keys.len(),
{
    if keys.len() > 0 {
        let n = keys.len() as int;
        let shorter = keys.drop_last();
        let before = stable_order(shorter);
        lemma_stable_order(shorter);
        assert forall|a: int, b: int| 0 <= a < b < before.len() implies keys[#[trigger] before[a]]
            < keys[#[trigger] before[b]] || (keys[before[a]] == keys[before[b]] && before[a]
            < before[b]) by {
            assert(shorter[before[a]] == keys[before[a]]);
            assert(shorter[before[b]] == keys[before[b]]);
        }
        lemma_place_index(before, keys, n - 1);
        let p = place_index(before, keys, n - 1);
        let after = before.insert(p, n - 1);
        assert(stable_order(keys) == after);
        assert forall|i: int| 0 <= i < n implies after.contains(i) by {
            if i == n - 1 {
                assert(after[p] == i);
            } else {
                assert(before.contains(i));
                let j = choose|j: int| 0 <= j < before.len() && before[j] == i;
                if j < p {
                    assert(after[j] == i);
                } else {
                    assert(after[j + 1] == i);
                }
            }
        }
        assert forall|a: int, b: int| 0 <= a < b < after.len() implies keys[#[trigger] after[a]]
            < keys[#[trigger] after[b]] || (keys[after[a]] == keys[after[b]] && after[a]
            < after[b]) by {
            let x = if a < p {
                a
            } else {
                a - 1
            };
            let y = if b < p {
                b
            } else {
                b - 1
            };
            if a == p {
                assert(after[b] == before[b - 1]);
            } else if b == p {
                assert(after[a] == before[a]);
                if p > 0 && a < p - 1 {
                    assert(keys[before[a]] < keys[before[p - 1]] || (keys[before[a]]
                        == keys[before[p - 1]] && before[a] < before[p - 1]));
                }
                assert(0 <= before[a] < n - 1);
            } else {
                assert(after[a] == before[x]);
                assert(after[b] == before[y]);
            }
        }
    }
}

/// Items read through the stable order of their keys are the same items,
/// each position once.
pub proof fn lemma_arrange_keeps_items<T>(items: Seq<T>, keys: Seq<int>)
    requires
        keys.len() == items.len(),
    ensures
        arrange(items, stable_order(keys)).len() == items.len(),
        forall|x: T|
            #![trigger arrange(items, stable_order(keys)).contains(x)]
            #![trigger items.contains(x)]
            arrange(items, stable_order(keys)).contains(x) <==> items.contains(x),
        items.no_duplicates() ==> arrange(items, stable_order(keys)).no_duplicates(),
{
    let order = stable_order(keys);
    let out = arrange(items, order);
    lemma_stable_order(keys);
    assert forall|x: T| out.contains(x) <==> items.contains(x) by {
        if out.contains(x) {
            let j = choose|j: int| 0 <= j < out.len() && out[j] == x;
            assert(items[order[j]] == x);
        }
        if items.contains(x) {
            let i = choose|i: int| 0 <= i < items.len() && items[i] == x;
            assert(order.contains(i));
            let j = choose|j: int| 0 <= j < order.len() && order[j] == i;
            assert(out[j] == x);
        }
    }
    if items.no_duplicates() {
        assert forall|a: int, b: int| 0 <= a < out.len() && 0 <= b < out.len() && a != b implies out[a]
            != out[b] by {
            if a < b {
                assert(keys[order[a]] < keys[order[b]] || (keys[order[a]] == keys[order[b]]
                    && order[a] < order[b]));
            } else {
                assert(keys[order[b]] < keys[order[a]] || (keys[order[b]] == keys[order[a]]
                    && order[b] < order[a]));
            }
            assert(order[a] != order[b]);
        }
    }
}

/// Computes the stable order of the positions of `keys`.
pub fn sort_positions(keys: &Vec<i64>) -> (order: Vec<usize>)
    ensures
        order@.map_values(|p: usize| p as int) == stable_order(keys@.map_values(|k: i64| k as int)),
        order@.len() == keys@.len(),
        forall|j: int| 0 <= j < order@.len() ==> #[trigger] order@[j] < keys@.len(),
{
    let ghost all = keys@.map_values(|k: i64| k as int);
    let mut order: Vec<usize> = Vec::new();
    let mut i: usize = 0;
    while i < keys.len()
        invariant
            i <= keys.len(),
            all == keys@.map_values(|k: i64| k as int),
            order@.len() == i,
            forall|j: int| 0 <= j < order@.len() ==> #[trigger] order@[j] < i,
            order@.map_values(|p: usize| p as int) == stable_order(all.take(i as int)),
        decreases keys.len() - i,
    {
        let key: i64 = keys[i];
        let mut p: usize = order.len();
        while p > 0 && keys[order[p - 1]] > key
            invariant
                p <= order@.len(),
                i < keys.len(),
                key == keys@[i as int],
                forall|j: int| 0 <= j < order@.len() ==> #[trigger] order@[j] < i,
                forall|j: int| p <= j < order@.len() ==> keys@[#[trigger] order@[j] as int] > key,
            decreases p,
        {
            p = p - 1;
        }
        proof {
            let before = order@.map_values(|p: usize| p as int);
            let shorter = all.take(i as int);
            let longer = all.take(i + 1);
            assert(longer.drop_last() =~= shorter);
            lemma_stable_order(shorter);
            lemma_place_same_keys(before, longer, all, i as int);
            assert forall|j: int| p <= j < before.len() implies all[#[trigger] before[j]]
                > all[i as int] by {
                assert(before[j] == order@[j] as int);
            }
            assert(p == 0 || before[p - 1] == order@[p - 1] as int);
            lemma_place_at(before, all, i as int, p as int);
            assert(stable_order(longer) == before.insert(p as int, i as int));
        }
        let ghost old_order = order@;
        order.insert(p, i);
        proof {
            assert(order@.map_values(|p: usize| p as int) =~= old_order.map_values(
                |p: usize| p as int,
            ).insert(p as int, i as int));
        }
        i = i + 1;
    }
    proof {
        assert(all.take(i as int) =~= all);
    }
    order
}

/// Reads items through an order of positions.
pub fn pick<'a, T: DeepView>(items: &Vec<&'a T>, order: &Vec<usize>) -> (out: Vec<&'a T>)
    requires
        forall|j: int| 0 <= j < order@.len() ==> #[trigger] order@[j] < items@.len(),
    ensures
        out.deep_view() == arrange(items.deep_view(), order@.map_values(|p: usize| p as int)),
        out@.len() == order@.len(),
{
    let ghost all = items.deep_view();
    let ghost positions = order@.map_values(|p: usize| p as int);
    let mut out: Vec<&'a T> = Vec::new();
    let mut j: usize = 0;
    while j < order.len()
        invariant
            j <= order.len(),
            all == items.deep_view(),
            positions == order@.map_values(|p: usize| p as int),
            forall|k: int| 0 <= k < order@.len() ==> #[trigger] order@[k] < items@.len(),
            out@.len() == j,
            forall|k: int| 0 <= k < j ==> (#[trigger] out@[k]).deep_view() == all[positions[k]],
        decreases order.len() - j,
    {
        out.push(items[order[j]]);
        j = j + 1;
    }
    assert(out.deep_view() =~= arrange(all, positions));
    out
}

} // verus!
