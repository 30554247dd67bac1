//! Stable sorting, stated as a function on sequences.

use vstd::prelude::*;

verus! {

/// The order that `less` describes is a strict weak order: equal ranks form classes, and the
/// classes stand in a line.
pub open spec fn strict_weak<T>(less: spec_fn(T, T) -> bool) -> bool {
    &&& forall|x: T, y: T, z: T| #[trigger] less(x, y) && #[trigger] less(y, z) ==> less(x, z)
    &&& forall|x: T, y: T, z: T|
        #![trigger less(x, z), less(x, y)]
        #![trigger less(x, z), less(y, z)]
        less(x, z) ==> less(x, y) || less(y, z)
    &&& forall|x: T| !#[trigger] less(x, x)
}

/// `sorted` with `x` put behind everything it does not precede.
pub open spec fn insert<T>(sorted: Seq<T>, x: T, less: spec_fn(T, T) -> bool) -> Seq<T>
    decreases sorted.len(),
{
    if sorted.len() > 0 && less(x, sorted.last()) {
        insert(sorted.drop_last(), x, less).push(sorted.last())
    } else {
        sorted.push(x)
    }
}

/// The items of `items` in order, equal ones in the order they came.
pub open spec fn stable_sort<T>(items: Seq<T>, less: spec_fn(T, T) -> bool) -> Seq<T>
    decreases items.len(),
{
    if items.len() == 0 {
        items
    } else {
        insert(stable_sort(items.drop_last(), less), items.last(), less)
    }
}

/// Two sorted runs as one, the left run first where neither item precedes the other.
spec fn merged<T>(left: Seq<T>, right: Seq<T>, less: spec_fn(T, T) -> bool) -> Seq<T>
    decreases left.len() + right.len(),
{
    if left.len() == 0 {
        right
    } else if right.len() == 0 {
        left
    } else if less(right.last(), left.last()) {
        merged(left.drop_last(), right, less).push(left.last())
    } else {
        merged(left, right.drop_last(), less).push(right.last())
    }
}

proof fn merged_insert<T>(left: Seq<T>, right: Seq<T>, x: T, less: spec_fn(T, T) -> bool)
    requires
        strict_weak(less),
    ensures
        insert(merged(left, right, less), x, less) == merged(left, insert(right, x, less), less),
    decreases left.len() + right.len(),
{
    if left.len() == 0 {
    } else if right.len() == 0 {
        assert(insert(right, x, less) =~= seq![x]);
        assert(seq![x].drop_last() =~= right);
        if less(x, left.last()) {
            merged_insert(left.drop_last(), right, x, less);
            assert(merged(left.drop_last(), right, less) =~= left.drop_last());
        } else {
            assert(merged(left, right, less) =~= left);
        }
    } else {
        let a = left.last();
        let b = right.last();
        let whole = merged(left, right, less);
        let grown = insert(right, x, less);
        if less(b, a) {
            assert(whole.drop_last() =~= merged(left.drop_last(), right, less));
            if less(x, a) {
                merged_insert(left.drop_last(), right, x, less);
                assert(grown.last() == b || grown.last() == x);
            } else {
                assert(!less(x, b));
                assert(grown.drop_last() =~= right);
            }
        } else {
            assert(whole.drop_last() =~= merged(left, right.drop_last(), less));
            if less(x, b) {
                merged_insert(left, right.drop_last(), x, less);
                assert(grown.drop_last() =~= insert(right.drop_last(), x, less));
            } else {
                assert(!less(x, a));
                assert(grown.drop_last() =~= right);
            }
        }
    }
}

proof fn sort_splits<T>(left: Seq<T>, right: Seq<T>, less: spec_fn(T, T) -> bool)
    requires
        strict_weak(less),
    ensures
        stable_sort(left + right, less) == merged(
            stable_sort(left, less),
            stable_sort(right, less),
            less,
        ),
    decreases right.len(),
{
    if right.len() == 0 {
        assert(left + right =~= left);
        let sorted = stable_sort(left, less);
        assert(merged(sorted, right, less) == sorted);
    } else {
        assert((left + right).drop_last() =~= left + right.drop_last());
        sort_splits(left, right.drop_last(), less);
        merged_insert(
            stable_sort(left, less),
            stable_sort(right.drop_last(), less),
            right.last(),
            less,
        );
    }
}

proof fn insert_keeps<T>(sorted: Seq<T>, x: T, less: spec_fn(T, T) -> bool)
    ensures
        insert(sorted, x, less).len() == sorted.len() + 1,
        insert(sorted, x, less).to_multiset() == sorted.to_multiset().insert(x),
    decreases sorted.len(),
{
    broadcast use vstd::seq_lib::group_to_multiset_ensures;

    if sorted.len() > 0 && less(x, sorted.last()) {
        insert_keeps(sorted.drop_last(), x, less);
        assert(sorted.drop_last().push(sorted.last()) =~= sorted);
        assert(insert(sorted, x, less).to_multiset() =~= sorted.to_multiset().insert(x));
    }
}

/// Sorting keeps every item and adds none.
pub proof fn sort_is_a_permutation<T>(items: Seq<T>, less: spec_fn(T, T) -> bool)
    ensures
        stable_sort(items, less).len() == items.len(),
        stable_sort(items, less).to_multiset() == items.to_multiset(),
    decreases items.len(),
{
    broadcast use vstd::seq_lib::group_to_multiset_ensures;

    if items.len() > 0 {
        sort_is_a_permutation(items.drop_last(), less);
        insert_keeps(stable_sort(items.drop_last(), less), items.last(), less);
        assert(items.drop_last().push(items.last()) =~= items);
    }
}

/// Everything that is in the sorted sequence was in the unsorted one, and the reverse.
pub proof fn sort_keeps_members<T>(items: Seq<T>, less: spec_fn(T, T) -> bool)
    ensures
        forall|x: T| #[trigger] stable_sort(items, less).contains(x) <==> items.contains(x),
{
    broadcast use vstd::seq_lib::group_to_multiset_ensures;

    sort_is_a_permutation(items, less);
    assert forall|x: T| #[trigger] stable_sort(items, less).contains(x) <==> items.contains(x) by {
        assert(stable_sort(items, less).to_multiset().count(x) == items.to_multiset().count(x));
    }
}

proof fn insert_orders<T>(sorted: Seq<T>, x: T, less: spec_fn(T, T) -> bool)
    requires
        strict_weak(less),
        forall|i: int, j: int| 0 <= i < j < sorted.len() ==> !less(sorted[j], sorted[i]),
    ensures
        forall|i: int, j: int|
            0 <= i < j < sorted.len() + 1 ==> !less(
                insert(sorted, x, less)[j],
                insert(sorted, x, less)[i],
            ),
        forall|i: int|
            0 <= i < sorted.len() + 1 ==> insert(sorted, x, less)[i] == x || sorted.contains(
                #[trigger] insert(sorted, x, less)[i],
            ),
    decreases sorted.len(),
{
    insert_keeps(sorted, x, less);
    let out = insert(sorted, x, less);
    if sorted.len() > 0 && less(x, sorted.last()) {
        let front = sorted.drop_last();
        insert_orders(front, x, less);
        insert_keeps(front, x, less);
        let inner = insert(front, x, less);
        assert forall|i: int, j: int| 0 <= i < j < out.len() implies !less(out[j], out[i]) by {
            if j == out.len() - 1 {
                assert(out[i] == inner[i]);
                if inner[i] != x {
                    assert(front.contains(inner[i]));
                    let k = choose|k: int| 0 <= k < front.len() && front[k] == inner[i];
                    assert(sorted[k] == inner[i]);
                    assert(!less(sorted[sorted.len() - 1], sorted[k]));
                } else {
                    if less(sorted.last(), x) {
                        assert(less(x, x));
                    }
                }
            } else {
                assert(out[j] == inner[j] && out[i] == inner[i]);
            }
        }
        assert forall|i: int| 0 <= i < out.len() implies out[i] == x || sorted.contains(
            #[trigger] out[i],
        ) by {
            if i < out.len() - 1 {
                assert(out[i] == inner[i]);
                if inner[i] != x {
                    let k = choose|k: int| 0 <= k < front.len() && front[k] == inner[i];
                    assert(sorted[k] == inner[i]);
                }
            } else {
                assert(sorted[sorted.len() - 1] == out[i]);
            }
        }
    } else {
        assert forall|i: int, j: int| 0 <= i < j < out.len() implies !less(out[j], out[i]) by {
            if j == sorted.len() && i < sorted.len() {
                if less(x, sorted[i]) {
                    assert(less(x, sorted.last()) || less(sorted.last(), sorted[i]));
                    assert(i == sorted.len() - 1);
                }
            }
        }
        assert forall|i: int| 0 <= i < out.len() implies out[i] == x || sorted.contains(
            #[trigger] out[i],
        ) by {
            if i < sorted.len() {
                assert(sorted[i] == out[i]);
            }
        }
    }
}

/// Nothing in the sorted sequence stands before an item that precedes it.
pub proof fn sort_orders<T>(items: Seq<T>, less: spec_fn(T, T) -> bool)
    requires
        strict_weak(less),
    ensures
        forall|i: int, j: int|
            0 <= i < j < items.len() ==> !less(
                #[trigger] stable_sort(items, less)[j],
                #[trigger] stable_sort(items, less)[i],
            ),
    decreases items.len(),
{
    if items.len() > 0 {
        sort_orders(items.drop_last(), less);
        sort_is_a_permutation(items.drop_last(), less);
        insert_orders(stable_sort(items.drop_last(), less), items.last(), less);
    }
}

proof fn insert_maps<T, U>(
    sorted: Seq<T>,
    x: T,
    key: spec_fn(T) -> U,
    less: spec_fn(U, U) -> bool,
)
    ensures
        insert(sorted, x, |a: T, b: T| less(key(a), key(b))).map_values(key) == insert(
            sorted.map_values(key),
            key(x),
            less,
        ),
    decreases sorted.len(),
{
    let by_key = |a: T, b: T| less(key(a), key(b));
    let mapped = sorted.map_values(key);
    if sorted.len() > 0 && by_key(x, sorted.last()) {
        insert_maps(sorted.drop_last(), x, key, less);
        assert(mapped.drop_last() =~= sorted.drop_last().map_values(key));
        assert(insert(sorted, x, by_key).map_values(key) =~= insert(
            sorted.drop_last(),
            x,
            by_key,
        ).map_values(key).push(mapped.last()));
    } else {
        assert(insert(sorted, x, by_key).map_values(key) =~= mapped.push(key(x)));
    }
}

proof fn insert_filters<T>(
    sorted: Seq<T>,
    x: T,
    less: spec_fn(T, T) -> bool,
    wanted: spec_fn(T) -> bool,
)
    requires
        strict_weak(less),
        forall|i: int, j: int|
            0 <= i < j < sorted.len() ==> !less(#[trigger] sorted[j], #[trigger] sorted[i]),
    ensures
        insert(sorted, x, less).filter(wanted) == if wanted(x) {
            insert(sorted.filter(wanted), x, less)
        } else {
            sorted.filter(wanted)
        },
    decreases sorted.len(),
{
    reveal(Seq::filter);
    let kept = sorted.filter(wanted);
    let out = insert(sorted, x, less);
    if sorted.len() > 0 && less(x, sorted.last()) {
        let front = sorted.drop_last();
        insert_filters(front, x, less, wanted);
        assert(out.drop_last() =~= insert(front, x, less));
        if wanted(sorted.last()) {
            assert(kept.drop_last() =~= front.filter(wanted));
        }
    } else {
        assert(out.drop_last() =~= sorted);
        if wanted(x) && kept.len() > 0 {
            assert(kept.contains(kept.last()));
            sorted.lemma_filter_contains_rev(wanted, kept.last());
            let at = sorted.index_of(kept.last());
            let last = sorted.last();
            if at < sorted.len() - 1 {
                assert(!less(sorted[sorted.len() - 1], sorted[at]));
            }
            if less(x, kept.last()) {
                assert(less(x, last) || less(last, kept.last()));
            }
        }
    }
}

/// Leaving items out before sorting is leaving them out after it.
pub proof fn sort_filters<T>(
    items: Seq<T>,
    less: spec_fn(T, T) -> bool,
    wanted: spec_fn(T) -> bool,
)
    requires
        strict_weak(less),
    ensures
        stable_sort(items.filter(wanted), less) == stable_sort(items, less).filter(wanted),
    decreases items.len(),
{
    reveal(Seq::filter);
    if items.len() > 0 {
        let front = items.drop_last();
        sort_filters(front, less, wanted);
        sort_orders(front, less);
        sort_is_a_permutation(front, less);
        insert_filters(stable_sort(front, less), items.last(), less, wanted);
        if wanted(items.last()) {
            assert(items.filter(wanted).drop_last() =~= front.filter(wanted));
        }
    }
}

/// Sorting by a key and then looking at the keys is sorting the keys.
pub proof fn sort_maps<T, U>(items: Seq<T>, key: spec_fn(T) -> U, less: spec_fn(U, U) -> bool)
    ensures
        stable_sort(items, |a: T, b: T| less(key(a), key(b))).map_values(key) == stable_sort(
            items.map_values(key),
            less,
        ),
    decreases items.len(),
{
    let by_key = |a: T, b: T| less(key(a), key(b));
    if items.len() == 0 {
        assert(stable_sort(items, by_key).map_values(key) =~= items.map_values(key));
    } else {
        sort_maps(items.drop_last(), key, less);
        assert(items.map_values(key).drop_last() =~= items.drop_last().map_values(key));
        insert_maps(stable_sort(items.drop_last(), by_key), items.last(), key, less);
    }
}

/// An order on keys is an order on what has them.
pub proof fn order_by_key<T, U>(key: spec_fn(T) -> U, less: spec_fn(U, U) -> bool)
    requires
        strict_weak(less),
    ensures
        strict_weak(|a: T, b: T| less(key(a), key(b))),
{
    let by_key = |a: T, b: T| less(key(a), key(b));
    assert forall|x: T, y: T, z: T| #[trigger] by_key(x, y) && #[trigger] by_key(
        y,
        z,
    ) implies by_key(x, z) by {
        assert(less(key(x), key(y)) && less(key(y), key(z)));
    }
    assert forall|x: T, y: T, z: T|
        #![trigger by_key(x, z), by_key(x, y)]
        #![trigger by_key(x, z), by_key(y, z)]
        by_key(x, z) implies by_key(x, y) || by_key(y, z) by {
        assert(less(key(x), key(z)));
        assert(less(key(x), key(y)) || less(key(y), key(z)));
    }
    assert forall|x: T| !#[trigger] by_key(x, x) by {
        assert(!less(key(x), key(x)));
    }
}

fn merge<T, F: Fn(&T, &T) -> bool>(
    mut left: Vec<T>,
    mut right: Vec<T>,
    less: &F,
    Ghost(order): Ghost<spec_fn(T, T) -> bool>,
) -> (out: Vec<T>)
    requires
        forall|x: &T, y: &T| #[trigger] less.requires((x, y)),
        forall|x: &T, y: &T, b: bool| #[trigger]
            less.ensures((x, y), b) ==> b == order(*x, *y),
    ensures
        out@ == merged(left@, right@, order),
{
    let ghost whole = merged(left@, right@, order);
    let mut back: Vec<T> = Vec::new();
    while left.len() > 0 && right.len() > 0
        invariant
            forall|x: &T, y: &T| #[trigger] less.requires((x, y)),
            forall|x: &T, y: &T, b: bool| #[trigger]
                less.ensures((x, y), b) ==> b == order(*x, *y),
            whole == merged(left@, right@, order) + back@.reverse(),
        decreases left.len() + right.len(),
    {
        let take_left = less(&right[right.len() - 1], &left[left.len() - 1]);
        let ghost before = back@;
        let item = if take_left {
            left.pop()
        } else {
            right.pop()
        };
        if let Some(item) = item {
            back.push(item);
        }
        assert(back@.reverse() =~= seq![back@.last()] + before.reverse());
    }
    let mut out: Vec<T> = Vec::new();
    out.append(&mut left);
    out.append(&mut right);
    while back.len() > 0
        invariant
            whole == out@ + back@.reverse(),
        decreases back.len(),
    {
        let ghost before = back@;
        if let Some(item) = back.pop() {
            out.push(item);
        }
        assert(before.reverse() =~= seq![before.last()] + back@.reverse());
    }
    out
}

/// Sorts `items`, keeping equal ones in the order they came.
pub(crate) fn sort_stably<T, F: Fn(&T, &T) -> bool>(
    mut items: Vec<T>,
    less: &F,
    Ghost(order): Ghost<spec_fn(T, T) -> bool>,
) -> (out: Vec<T>)
    requires
        strict_weak(order),
        forall|x: &T, y: &T| #[trigger] less.requires((x, y)),
        forall|x: &T, y: &T, b: bool| #[trigger]
            less.ensures((x, y), b) ==> b == order(*x, *y),
    ensures
        out@ == stable_sort(items@, order),
    decreases items.len(),
{
    let length: usize = items.len();
    if length <= 1 {
        proof {
            if length == 1 {
                assert(items@.drop_last() =~= Seq::<T>::empty());
                assert(stable_sort(items@.drop_last(), order) =~= Seq::<T>::empty());
                assert(Seq::<T>::empty().push(items@.last()) =~= items@);
            }
        }
        return items;
    }
    let ghost all = items@;
    let right = items.split_off(length / 2);
    proof {
        assert(all =~= items@ + right@);
        sort_splits(items@, right@, order);
    }
    let left = sort_stably(items, less, Ghost(order));
    let right = sort_stably(right, less, Ghost(order));
    merge(left, right, less, Ghost(order))
}

/// The items the other way round.
pub(crate) fn reversed<T>(mut items: Vec<T>) -> (out: Vec<T>)
    ensures
        out@ == items@.reverse(),
{
    let ghost whole = items@;
    let mut out: Vec<T> = Vec::new();
    while items.len() > 0
        invariant
            items@.len() + out@.len() == whole.len(),
            items@ == whole.take(items@.len() as int),
            forall|i: int| 0 <= i < out@.len() ==> #[trigger] out@[i] == whole[whole.len() - 1 - i],
        decreases items.len(),
    {
        if let Some(item) = items.pop() {
            out.push(item);
        }
        assert(items@ =~= whole.take(items@.len() as int));
    }
    assert(out@ =~= whole.reverse());
    out
}

} // verus!
