//! Sums of a weight over the items of a sequence, and what holds of them.

use vstd::prelude::*;

verus! {

/// The sum of `weight` over all items.
pub open spec fn sum_by<T>(items: Seq<T>, weight: spec_fn(T) -> nat) -> nat
    decreases items.len(),
{
    if items.len() == 0 {
        0
    } else {
        sum_by(items.drop_last(), weight) + weight(items.last())
    }
}

/// One more item adds its weight.
pub proof fn lemma_sum_by_push<T>(items: Seq<T>, item: T, weight: spec_fn(T) -> nat)
    ensures
        sum_by(items.push(item), weight) == sum_by(items, weight) + weight(item),
{
    assert(items.push(item).drop_last() =~= items);
}

/// The sum over the first `count + 1` items is the sum over the first
/// `count` and the weight of the next.
pub proof fn lemma_sum_by_take<T>(items: Seq<T>, count: int, weight: spec_fn(T) -> nat)
    requires
        0 <= count < items.len(),
    ensures
        sum_by(items.take(count + 1), weight) == sum_by(items.take(count), weight) + weight(
            items[count],
        ),
{
    assert(items.take(count + 1).drop_last() =~= items.take(count));
}

/// The sum over a prefix is at most the sum over all.
pub proof fn lemma_sum_by_prefix<T>(items: Seq<T>, count: int, weight: spec_fn(T) -> nat)
    requires
        0 <= count <= items.len(),
    ensures
        sum_by(items.take(count), weight) <= sum_by(items, weight),
    decreases items.len() - count,
{
    if count == items.len() {
        assert(items.take(count) =~= items);
    } else {
        lemma_sum_by_take(items, count, weight);
        lemma_sum_by_prefix(items, count + 1, weight);
    }
}

/// No single weight is more than the sum.
pub proof fn lemma_sum_by_item<T>(items: Seq<T>, at: int, weight: spec_fn(T) -> nat)
    requires
        0 <= at < items.len(),
    ensures
        weight(items[at]) <= sum_by(items, weight),
{
    lemma_sum_by_take(items, at, weight);
    lemma_sum_by_prefix(items, at + 1, weight);
}

/// Replacing one item changes the sum by the difference of the two weights.
pub proof fn lemma_sum_by_update<T>(items: Seq<T>, at: int, item: T, weight: spec_fn(T) -> nat)
    requires
        0 <= at < items.len(),
    ensures
        sum_by(items.update(at, item), weight) + weight(items[at]) == sum_by(items, weight)
            + weight(item),
    decreases items.len(),
{
    let changed = items.update(at, item);
    if at == items.len() - 1 {
        assert(changed.drop_last() =~= items.drop_last());
    } else {
        assert(changed.drop_last() =~= items.drop_last().update(at, item));
        lemma_sum_by_update(items.drop_last(), at, item, weight);
    }
}

/// A weight that is nowhere more than another sums to no more.
pub proof fn lemma_sum_by_le<T>(
    items: Seq<T>,
    smaller: spec_fn(T) -> nat,
    larger: spec_fn(T) -> nat,
)
    requires
        forall|i: int| 0 <= i < items.len() ==> smaller(#[trigger] items[i]) <= larger(items[i]),
    ensures
        sum_by(items, smaller) <= sum_by(items, larger),
    decreases items.len(),
{
    if items.len() > 0 {
        let front = items.drop_last();
        assert forall|i: int| 0 <= i < front.len() implies smaller(#[trigger] front[i]) <= larger(
            front[i],
        ) by {
            assert(front[i] == items[i]);
        }
        lemma_sum_by_le(front, smaller, larger);
        assert(items.last() == items[items.len() - 1]);
    }
}

/// A weight that is everywhere the sum of two others sums to the sum of their sums.
pub proof fn lemma_sum_by_split<T>(
    items: Seq<T>,
    whole: spec_fn(T) -> nat,
    first: spec_fn(T) -> nat,
    second: spec_fn(T) -> nat,
)
    requires
        forall|i: int|
            0 <= i < items.len() ==> whole(#[trigger] items[i]) == first(items[i]) + second(
                items[i],
            ),
    ensures
        sum_by(items, whole) == sum_by(items, first) + sum_by(items, second),
    decreases items.len(),
{
    if items.len() > 0 {
        let front = items.drop_last();
        assert forall|i: int| 0 <= i < front.len() implies whole(#[trigger] front[i]) == first(
            front[i],
        ) + second(front[i]) by {
            assert(front[i] == items[i]);
        }
        lemma_sum_by_split(front, whole, first, second);
        assert(items.last() == items[items.len() - 1]);
    }
}

} // verus!
