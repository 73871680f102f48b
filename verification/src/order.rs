//! Stable ordering of a list by integer keys, computed as a list of positions.

use vstd::prelude::*;
use vstd::set_lib::*;

verus! {

/// Whether position `a` comes before position `b` when `keys` is put in
/// order: by key, and among equal keys by position.
pub open spec fn precedes(keys: Seq<i64>, a: int, b: int) -> bool {
    keys[a] < keys[b] || (keys[a] == keys[b] && a < b)
}

/// Whether `order` lists positions of `keys`, as many as there are keys, each
/// strictly before the next one in the sense of [`precedes`].
pub open spec fn is_stable_order(keys: Seq<i64>, order: Seq<usize>) -> bool {
    &&& order.len() == keys.len()
    &&& forall|i: int| 0 <= i < order.len() ==> (#[trigger] order[i]) < keys.len()
    &&& forall|i: int, j: int|
        0 <= i < j < order.len() ==> precedes(keys, #[trigger] order[i] as int, #[trigger] order[j] as int)
}

/// The stable order of `keys`. There is exactly one, see
/// [`lemma_stable_order_exists`] and [`lemma_stable_order_unique`].
pub open spec fn stable_order_of(keys: Seq<i64>) -> Seq<usize> {
    choose|order: Seq<usize>| is_stable_order(keys, order)
}

/// The list `items` rearranged as `order` says.
pub open spec fn arranged<T>(items: Seq<T>, order: Seq<usize>) -> Seq<T> {
    Seq::new(order.len(), |i: int| items[order[i] as int])
}

/// Whether `run` lists positions from `low` up to, not including, `high`,
/// each strictly before the next one in the sense of [`precedes`].
spec fn is_ordered_run(keys: Seq<i64>, run: Seq<usize>, low: int, high: int) -> bool {
    &&& forall|i: int| 0 <= i < run.len() ==> low <= (#[trigger] run[i]) < high
    &&& forall|i: int, j: int|
        0 <= i < j < run.len() ==> precedes(keys, #[trigger] run[i] as int, #[trigger] run[j] as int)
}

/// Whether every position of `run` stands before every position that `rest`
/// holds from `from` on.
spec fn all_precede(keys: Seq<i64>, run: Seq<usize>, rest: Seq<usize>, from: int) -> bool {
    forall|k: int, i: int|
        0 <= k < run.len() && from <= i < rest.len() ==> precedes(
            keys,
            #[trigger] run[k] as int,
            #[trigger] rest[i] as int,
        )
}

/// A run grows by the position at `at` of `same` if that position stands
/// before all that is left of `same` and of `other`.
proof fn lemma_run_grows(
    keys: Seq<i64>,
    run: Seq<usize>,
    same: Seq<usize>,
    at: int,
    other: Seq<usize>,
    from: int,
    low: int,
    high: int,
)
    requires
        is_ordered_run(keys, run, low, high),
        0 <= at < same.len(),
        low <= same[at] < high,
        all_precede(keys, run, same, at),
        all_precede(keys, run, other, from),
        all_precede(keys, seq![same[at]], same, at + 1),
        all_precede(keys, seq![same[at]], other, from),
    ensures
        is_ordered_run(keys, run.push(same[at]), low, high),
        all_precede(keys, run.push(same[at]), same, at + 1),
        all_precede(keys, run.push(same[at]), other, from),
{
    let taken = seq![same[at]];
    let grown = run.push(same[at]);
    assert forall|k: int, i: int| 0 <= k < grown.len() && at + 1 <= i < same.len() implies precedes(
        keys,
        #[trigger] grown[k] as int,
        #[trigger] same[i] as int,
    ) by {
        if k == run.len() {
            assert(precedes(keys, taken[0] as int, same[i] as int));
        } else {
            assert(grown[k] == run[k]);
        }
    }
    assert forall|k: int, j: int| 0 <= k < grown.len() && from <= j < other.len() implies precedes(
        keys,
        #[trigger] grown[k] as int,
        #[trigger] other[j] as int,
    ) by {
        if k == run.len() {
            assert(precedes(keys, taken[0] as int, other[j] as int));
        } else {
            assert(grown[k] == run[k]);
        }
    }
    assert forall|i: int, j: int| 0 <= i < j < grown.len() implies precedes(
        keys,
        #[trigger] grown[i] as int,
        #[trigger] grown[j] as int,
    ) by {
        assert(grown[i] == run[i]);
        if j < run.len() {
            assert(grown[j] == run[j]);
        } else {
            assert(precedes(keys, run[i] as int, same[at] as int));
        }
    }
}

/// Merges two ordered runs of neighbouring ranges of positions into one.
fn merged(
    keys: &Vec<i64>,
    left: &Vec<usize>,
    right: &Vec<usize>,
    low: usize,
    middle: usize,
    high: usize,
) -> (run: Vec<usize>)
    requires
        low <= middle <= high <= keys.len(),
        is_ordered_run(keys@, left@, low as int, middle as int),
        is_ordered_run(keys@, right@, middle as int, high as int),
    ensures
        run.len() == left.len() + right.len(),
        is_ordered_run(keys@, run@, low as int, high as int),
{
    let mut run: Vec<usize> = Vec::new();
    let mut l: usize = 0;
    let mut r: usize = 0;
    while l < left.len() || r < right.len()
        invariant
            l <= left.len(),
            r <= right.len(),
            run.len() == l + r,
            low <= middle <= high <= keys.len(),
            is_ordered_run(keys@, left@, low as int, middle as int),
            is_ordered_run(keys@, right@, middle as int, high as int),
            is_ordered_run(keys@, run@, low as int, high as int),
            all_precede(keys@, run@, left@, l as int),
            all_precede(keys@, run@, right@, r as int),
        decreases left.len() - l + right.len() - r,
    {
        let from_left = if l == left.len() {
            false
        } else if r == right.len() {
            true
        } else {
            keys[left[l]] <= keys[right[r]]
        };
        if from_left {
            proof {
                let taken = seq![left[l as int]];
                assert forall|k: int, j: int|
                    0 <= k < taken.len() && r <= j < right.len() implies precedes(
                    keys@,
                    #[trigger] taken[k] as int,
                    #[trigger] right[j] as int,
                ) by {
                    if j > r {
                        assert(precedes(keys@, right[r as int] as int, right[j] as int));
                    }
                }
                lemma_run_grows(
                    keys@,
                    run@,
                    left@,
                    l as int,
                    right@,
                    r as int,
                    low as int,
                    high as int,
                );
            }
            run.push(left[l]);
            l += 1;
        } else {
            proof {
                let taken = seq![right[r as int]];
                assert forall|k: int, i: int|
                    0 <= k < taken.len() && l <= i < left.len() implies precedes(
                    keys@,
                    #[trigger] taken[k] as int,
                    #[trigger] left[i] as int,
                ) by {
                    if i > l {
                        assert(precedes(keys@, left[l as int] as int, left[i] as int));
                    }
                }
                lemma_run_grows(
                    keys@,
                    run@,
                    right@,
                    r as int,
                    left@,
                    l as int,
                    low as int,
                    high as int,
                );
            }
            run.push(right[r]);
            r += 1;
        }
    }
    run
}

/// The positions from `low` up to `high` in their stable order.
fn ordered_run(keys: &Vec<i64>, low: usize, high: usize) -> (run: Vec<usize>)
    requires
        low <= high <= keys.len(),
    ensures
        run.len() == high - low,
        is_ordered_run(keys@, run@, low as int, high as int),
    decreases high - low,
{
    if high - low <= 1 {
        let mut run: Vec<usize> = Vec::new();
        if high - low == 1 {
            run.push(low);
        }
        run
    } else {
        let middle = low + (high - low) / 2;
        let left = ordered_run(keys, low, middle);
        let right = ordered_run(keys, middle, high);
        merged(keys, &left, &right, low, middle, high)
    }
}

/// The positions of `keys` in ascending order of key; equal keys keep the
/// order in which they stand in `keys`.
pub fn stable_order(keys: &Vec<i64>) -> (order: Vec<usize>)
    ensures
        is_stable_order(keys@, order@),
        order@ == stable_order_of(keys@),
{
    let order = ordered_run(keys, 0, keys.len());
    proof {
        lemma_stable_order_unique(keys@, order@, stable_order_of(keys@));
    }
    order
}

/// Whether `order` names the position `p`.
pub open spec fn names_position(order: Seq<usize>, p: int) -> bool {
    exists|i: int| 0 <= i < order.len() && #[trigger] order[i] == p
}

/// The positions that an order names, as integers.
spec fn positions(order: Seq<usize>) -> Seq<int> {
    Seq::new(order.len(), |i: int| order[i] as int)
}

/// A stable order names every position exactly once.
pub proof fn lemma_stable_order_is_permutation(keys: Seq<i64>, order: Seq<usize>)
    requires
        is_stable_order(keys, order),
    ensures
        forall|i: int, j: int| 0 <= i < j < order.len() ==> order[i] != order[j],
        forall|p: int| 0 <= p < keys.len() ==> #[trigger] names_position(order, p),
{
    let n = keys.len() as int;
    let listed = positions(order);
    assert forall|i: int, j: int| 0 <= i < j < order.len() implies order[i] != order[j] by {
        assert(precedes(keys, order[i] as int, order[j] as int));
    }
    assert(listed.no_duplicates()) by {
        assert forall|i: int, j: int|
            0 <= i < listed.len() && 0 <= j < listed.len() && i != j implies listed[i]
            != listed[j] by {
            if i < j {
                assert(order[i] != order[j]);
            } else {
                assert(order[j] != order[i]);
            }
        }
    }
    listed.unique_seq_to_set();
    lemma_int_range(0, n);
    assert(listed.to_set().subset_of(set_int_range(0, n))) by {
        assert forall|p: int| listed.to_set().contains(p) implies set_int_range(0, n).contains(
            p,
        ) by {
            let i = choose|i: int| 0 <= i < listed.len() && listed[i] == p;
            assert(order[i] < keys.len());
        }
    }
    lemma_subset_equality(listed.to_set(), set_int_range(0, n));
    assert forall|p: int| 0 <= p < keys.len() implies #[trigger] names_position(order, p) by {
        assert(set_int_range(0, n).contains(p));
        assert(listed.to_set().contains(p));
        let i = choose|i: int| 0 <= i < listed.len() && listed[i] == p;
        assert(order[i] == p);
    }
}

/// Two stable orders of the same keys agree up to any position.
proof fn lemma_stable_orders_agree(keys: Seq<i64>, first: Seq<usize>, second: Seq<usize>, upto: int)
    requires
        is_stable_order(keys, first),
        is_stable_order(keys, second),
        0 <= upto <= keys.len(),
    ensures
        forall|i: int| 0 <= i < upto ==> first[i] == second[i],
    decreases upto,
{
    if upto > 0 {
        lemma_stable_orders_agree(keys, first, second, upto - 1);
        let i = upto - 1;
        if first[i] != second[i] {
            lemma_stable_order_is_permutation(keys, first);
            lemma_stable_order_is_permutation(keys, second);
            let a = first[i] as int;
            let b = second[i] as int;
            assert(names_position(second, a));
            assert(names_position(first, b));
            let ja = choose|j: int| 0 <= j < second.len() && second[j] == a;
            let jb = choose|j: int| 0 <= j < first.len() && first[j] == b;
            if ja < i {
                assert(first[ja] == second[ja]);
                assert(precedes(keys, first[ja] as int, first[i] as int));
            } else if jb < i {
                assert(first[jb] == second[jb]);
                assert(precedes(keys, second[jb] as int, second[i] as int));
            } else {
                assert(precedes(keys, second[i] as int, second[ja] as int));
                assert(precedes(keys, first[i] as int, first[jb] as int));
            }
        }
    }
}

/// The keys decide the stable order: there is only one.
pub proof fn lemma_stable_order_unique(keys: Seq<i64>, first: Seq<usize>, second: Seq<usize>)
    requires
        is_stable_order(keys, first),
        is_stable_order(keys, second),
    ensures
        first == second,
{
    lemma_stable_orders_agree(keys, first, second, keys.len() as int);
    assert(first =~= second);
}

/// Whether `place` parts the first `upto` positions of `order` into those
/// whose key is at most `key`, before it, and those whose key is greater.
spec fn parts_at(keys: Seq<i64>, order: Seq<usize>, key: i64, upto: int, place: int) -> bool {
    &&& 0 <= place <= upto
    &&& forall|i: int| 0 <= i < place ==> keys[(#[trigger] order[i]) as int] <= key
    &&& forall|i: int| place <= i < upto ==> keys[(#[trigger] order[i]) as int] > key
}

/// In a stable order the positions whose key is at most `key` come first:
/// some place parts them from the positions with a greater key.
proof fn lemma_split_point(keys: Seq<i64>, order: Seq<usize>, key: i64, upto: int)
    requires
        is_stable_order(keys, order),
        0 <= upto <= order.len(),
    ensures
        exists|place: int| parts_at(keys, order, key, upto, place),
    decreases upto,
{
    if upto == 0 {
        assert(parts_at(keys, order, key, upto, 0));
    } else {
        let last = upto - 1;
        lemma_split_point(keys, order, key, last);
        let place = choose|place: int| parts_at(keys, order, key, last, place);
        if keys[order[last] as int] > key {
            assert(parts_at(keys, order, key, upto, place));
        } else {
            assert forall|i: int| 0 <= i < upto implies keys[(#[trigger] order[i]) as int]
                <= key by {
                if i < last {
                    assert(precedes(keys, order[i] as int, order[last] as int));
                }
            }
            assert(parts_at(keys, order, key, upto, upto));
        }
    }
}

/// Every list of keys that a machine can hold has a stable order.
pub proof fn lemma_stable_order_exists(keys: Seq<i64>)
    requires
        keys.len() <= usize::MAX,
    ensures
        is_stable_order(keys, stable_order_of(keys)),
    decreases keys.len(),
{
    if keys.len() == 0 {
        assert(is_stable_order(keys, Seq::<usize>::empty()));
    } else {
        let k = (keys.len() - 1) as usize;
        let shorter = keys.drop_last();
        lemma_stable_order_exists(shorter);
        let before = stable_order_of(shorter);
        let key = keys[k as int];
        let count = before.len() as int;
        lemma_split_point(shorter, before, key, count);
        let place = choose|place: int| parts_at(shorter, before, key, count, place);
        let order = before.insert(place, k);
        assert forall|i: int, j: int| 0 <= i < j < order.len() implies precedes(
            keys,
            #[trigger] order[i] as int,
            #[trigger] order[j] as int,
        ) by {
            if j < place {
                assert(order[i] == before[i] && order[j] == before[j]);
                assert(precedes(shorter, before[i] as int, before[j] as int));
            } else if j == place {
                assert(order[i] == before[i]);
                assert(before[i] < shorter.len());
            } else if i < place {
                assert(order[i] == before[i] && order[j] == before[j - 1]);
                assert(precedes(shorter, before[i] as int, before[j - 1] as int));
            } else if i == place {
                assert(order[j] == before[j - 1]);
                assert(before[j - 1] < shorter.len());
            } else {
                assert(order[i] == before[i - 1] && order[j] == before[j - 1]);
                assert(precedes(shorter, before[i - 1] as int, before[j - 1] as int));
            }
        }
        assert forall|i: int| 0 <= i < order.len() implies (#[trigger] order[i]) < keys.len() by {
            if i < place {
                assert(order[i] == before[i]);
            } else if i > place {
                assert(order[i] == before[i - 1]);
            }
        }
        assert(is_stable_order(keys, order));
    }
}

} // verus!
