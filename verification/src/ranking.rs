//! Ranking by weight: a stable sort, heaviest first, of items that remember
//! the place they came from.

use vstd::prelude::*;

verus! {

/// A weight and the index of the thing that has it.
#[derive(Clone, Copy, Debug, PartialEq, Eq)]
pub struct Ranked {
    pub index: usize,
    pub weight: usize,
}

/// Where `x` goes into a ranking: behind every item that is at least as
/// heavy.
pub open spec fn insert_pos(sorted: Seq<Ranked>, x: Ranked) -> int
    decreases sorted.len(),
{
    if sorted.len() == 0 {
        0
    } else if sorted.last().weight >= x.weight {
        sorted.len() as int
    } else {
        insert_pos(sorted.drop_last(), x)
    }
}

/// The items, heaviest first; items of equal weight keep their order.
pub open spec fn sort_desc(items: Seq<Ranked>) -> Seq<Ranked>
    decreases items.len(),
{
    if items.len() == 0 {
        Seq::empty()
    } else {
        let front = sort_desc(items.drop_last());
        front.insert(insert_pos(front, items.last()), items.last())
    }
}

/// No item is lighter than one behind it.
pub open spec fn is_desc(items: Seq<Ranked>) -> bool {
    forall|i: int, j: int| 0 <= i <= j < items.len() ==> items[i].weight >= items[j].weight
}

/// No two items have the same index.
pub open spec fn distinct_indices(items: Seq<Ranked>) -> bool {
    forall|i: int, j: int|
        0 <= i < items.len() && 0 <= j < items.len() && i != j ==> items[i].index
            != items[j].index
}

/// The sum of the weights.
pub open spec fn weights_sum(items: Seq<Ranked>) -> nat
    decreases items.len(),
{
    if items.len() == 0 {
        0
    } else {
        weights_sum(items.drop_last()) + items.last().weight as nat
    }
}

/// Each value with its position.
pub open spec fn indexed(values: Seq<usize>) -> Seq<Ranked> {
    Seq::new(values.len(), |i: int| Ranked { index: i as usize, weight: values[i] })
}

/// The sum of a sequence of numbers.
pub open spec fn seq_sum(values: Seq<usize>) -> nat
    decreases values.len(),
{
    if values.len() == 0 {
        0
    } else {
        seq_sum(values.drop_last()) + values.last() as nat
    }
}

/// The place of an insertion lies within the ranking, behind the items at
/// least as heavy and before the lighter ones.
pub proof fn lemma_insert_pos(sorted: Seq<Ranked>, x: Ranked)
    ensures
        0 <= insert_pos(sorted, x) <= sorted.len(),
        forall|k: int| insert_pos(sorted, x) <= k < sorted.len() ==> sorted[k].weight < x.weight,
        insert_pos(sorted, x) > 0 ==> sorted[insert_pos(sorted, x) - 1].weight >= x.weight,
    decreases sorted.len(),
{
    if sorted.len() > 0 && sorted.last().weight < x.weight {
        lemma_insert_pos(sorted.drop_last(), x);
        assert forall|k: int| insert_pos(sorted, x) <= k < sorted.len() implies sorted[k].weight
            < x.weight by {
            if k < sorted.len() - 1 {
                assert(sorted.drop_last()[k] == sorted[k]);
            }
        }
        if insert_pos(sorted, x) > 0 {
            assert(sorted.drop_last()[insert_pos(sorted, x) - 1] == sorted[insert_pos(sorted, x)
                - 1]);
        }
    }
}

/// Inserting an item adds its weight to the sum.
pub proof fn lemma_weights_sum_insert(items: Seq<Ranked>, at: int, x: Ranked)
    requires
        0 <= at <= items.len(),
    ensures
        weights_sum(items.insert(at, x)) == weights_sum(items) + x.weight,
    decreases items.len(),
{
    let grown = items.insert(at, x);
    if at == items.len() {
        assert(grown.drop_last() =~= items);
    } else {
        lemma_weights_sum_insert(items.drop_last(), at, x);
        assert(grown.drop_last() =~= items.drop_last().insert(at, x));
        assert(grown.last() == items.last());
    }
}

/// Replacing an item changes the sum by the difference of the weights, and no
/// weight is above the sum.
pub proof fn lemma_weights_sum_update(items: Seq<Ranked>, at: int, x: Ranked)
    requires
        0 <= at < items.len(),
    ensures
        weights_sum(items.update(at, x)) == weights_sum(items) - items[at].weight + x.weight,
        items[at].weight <= weights_sum(items),
    decreases items.len(),
{
    let changed = items.update(at, x);
    if at == items.len() - 1 {
        assert(changed.drop_last() =~= items.drop_last());
    } else {
        lemma_weights_sum_update(items.drop_last(), at, x);
        assert(changed.drop_last() =~= items.drop_last().update(at, x));
    }
}

/// The weights of values with their positions sum to what the values sum to.
pub proof fn lemma_weights_sum_indexed(values: Seq<usize>)
    ensures
        weights_sum(indexed(values)) == seq_sum(values),
    decreases values.len(),
{
    if values.len() > 0 {
        lemma_weights_sum_indexed(values.drop_last());
        assert(indexed(values).drop_last() =~= indexed(values.drop_last()));
    }
}

/// Sorting keeps the items, their number and the sum of their weights, and
/// puts no item before a heavier one.
pub proof fn lemma_sort_desc(items: Seq<Ranked>)
    ensures
        sort_desc(items).len() == items.len(),
        is_desc(sort_desc(items)),
        weights_sum(sort_desc(items)) == weights_sum(items),
        forall|x: Ranked| sort_desc(items).contains(x) <==> items.contains(x),
        distinct_indices(items) ==> distinct_indices(sort_desc(items)),
    decreases items.len(),
{
    if items.len() > 0 {
        let x = items.last();
        let rest = items.drop_last();
        let front = sort_desc(rest);
        let at = insert_pos(front, x);
        let out = sort_desc(items);
        lemma_sort_desc(rest);
        lemma_insert_pos(front, x);
        lemma_weights_sum_insert(front, at, x);
        assert(out == front.insert(at, x));
        assert(out[at] == x);
        assert forall|i: int, j: int| 0 <= i <= j < out.len() implies out[i].weight
            >= out[j].weight by {
            if i < at && j > at {
                assert(out[i] == front[i]);
                assert(out[j] == front[j - 1]);
                assert(front[i].weight >= front[at - 1].weight);
            } else if i < at && j < at {
                assert(out[i] == front[i] && out[j] == front[j]);
            } else if i < at && j == at {
                assert(front[i].weight >= front[at - 1].weight);
            } else if i == at && j > at {
                assert(out[j] == front[j - 1]);
            } else if i > at {
                assert(out[i] == front[i - 1] && out[j] == front[j - 1]);
            }
        }
        assert forall|y: Ranked| out.contains(y) <==> items.contains(y) by {
            if out.contains(y) {
                let k = out.index_of(y);
                assert(out[k] == y);
                if k == at {
                    assert(items[items.len() - 1] == y);
                } else {
                    let k0 = if k < at {
                        k
                    } else {
                        k - 1
                    };
                    assert(front[k0] == y);
                    assert(front.contains(y));
                    assert(rest.contains(y));
                    let r = rest.index_of(y);
                    assert(items[r] == y);
                }
            }
            if items.contains(y) {
                let r = items.index_of(y);
                assert(items[r] == y);
                if r == items.len() - 1 {
                    assert(out[at] == y);
                } else {
                    assert(rest[r] == y);
                    assert(rest.contains(y));
                    assert(front.contains(y));
                    let k0 = front.index_of(y);
                    assert(front[k0] == y);
                    let k = if k0 < at {
                        k0
                    } else {
                        k0 + 1
                    };
                    assert(out[k] == y);
                }
            }
        }
        if distinct_indices(items) {
            assert(distinct_indices(rest)) by {
                assert forall|i: int, j: int|
                    0 <= i < rest.len() && 0 <= j < rest.len() && i != j implies rest[i].index
                    != rest[j].index by {
                    assert(rest[i] == items[i] && rest[j] == items[j]);
                }
            }
            assert forall|k: int| 0 <= k < front.len() implies front[k].index != x.index by {
                assert(front.contains(front[k]));
                assert(rest.contains(front[k]));
                let r = rest.index_of(front[k]);
                assert(items[r] == front[k]);
            }
            assert forall|i: int, j: int|
                0 <= i < out.len() && 0 <= j < out.len() && i != j implies out[i].index
                != out[j].index by {
                let i0 = if i < at {
                    i
                } else {
                    i - 1
                };
                let j0 = if j < at {
                    j
                } else {
                    j - 1
                };
                if i != at {
                    assert(out[i] == front[i0]);
                }
                if j != at {
                    assert(out[j] == front[j0]);
                }
            }
        }
    }
}

/// Whether some item of a ranking has index `p`.
pub open spec fn holds(ranking: Seq<Ranked>, p: int) -> bool {
    exists|k: int| 0 <= k < ranking.len() && (#[trigger] ranking[k]).index == p
}

/// Whether a ranking holds each of the positions below `n` exactly once.
pub open spec fn ranks_all(ranking: Seq<Ranked>, n: int) -> bool {
    &&& ranking.len() == n
    &&& distinct_indices(ranking)
    &&& forall|k: int| 0 <= k < ranking.len() ==> (#[trigger] ranking[k]).index < n
    &&& forall|p: int| 0 <= p < n ==> #[trigger] holds(ranking, p)
}

/// The values with their positions hold each position once.
pub proof fn lemma_indexed_ranks_all(values: Seq<usize>)
    requires
        values.len() <= usize::MAX,
    ensures
        ranks_all(indexed(values), values.len() as int),
{
    let items = indexed(values);
    assert forall|p: int| 0 <= p < values.len() implies #[trigger] holds(items, p) by {
        assert(items[p].index == p);
    }
}

/// A sorted ranking holds each position once if the unsorted one did.
pub proof fn lemma_sort_ranks_all(items: Seq<Ranked>, n: int)
    requires
        ranks_all(items, n),
    ensures
        ranks_all(sort_desc(items), n),
{
    let out = sort_desc(items);
    lemma_sort_desc(items);
    assert forall|k: int| 0 <= k < out.len() implies (#[trigger] out[k]).index < n by {
        assert(out.contains(out[k]));
        assert(items.contains(out[k]));
        let j = items.index_of(out[k]);
        assert(items[j] == out[k]);
    }
    assert forall|p: int| 0 <= p < n implies #[trigger] holds(out, p) by {
        assert(holds(items, p));
        let j = choose|j: int| 0 <= j < items.len() && (#[trigger] items[j]).index == p;
        assert(items.contains(items[j]));
        assert(out.contains(items[j]));
        let k = out.index_of(items[j]);
        assert(out[k].index == p);
    }
}

/// Changing the weight of one item leaves every position in its place.
pub proof fn lemma_update_ranks_all(items: Seq<Ranked>, n: int, at: int, x: Ranked)
    requires
        ranks_all(items, n),
        0 <= at < items.len(),
        x.index == items[at].index,
    ensures
        ranks_all(items.update(at, x), n),
{
    let out = items.update(at, x);
    assert forall|p: int| 0 <= p < n implies #[trigger] holds(out, p) by {
        assert(holds(items, p));
        let j = choose|j: int| 0 <= j < items.len() && (#[trigger] items[j]).index == p;
        assert(out[j].index == p);
    }
}

/// Sorts the items, heaviest first; items of equal weight keep their order.
pub fn sort_ranked(items: &Vec<Ranked>) -> (sorted: Vec<Ranked>)
    ensures
        sorted@ == sort_desc(items@),
{
    let mut sorted: Vec<Ranked> = Vec::new();
    let mut i: usize = 0;
    while i < items.len()
        invariant
            i <= items.len(),
            sorted@ == sort_desc(items@.take(i as int)),
        decreases items.len() - i,
    {
        let x = items[i];
        proof {
            lemma_sort_desc(items@.take(i as int));
            assert(items@.take(i + 1).drop_last() =~= items@.take(i as int));
            assert(items@.take(i + 1).last() == x);
        }
        let mut at: usize = sorted.len();
        proof {
            assert(sorted@.take(at as int) =~= sorted@);
        }
        while at > 0 && sorted[at - 1].weight < x.weight
            invariant
                at <= sorted.len(),
                insert_pos(sorted@, x) == insert_pos(sorted@.take(at as int), x),
            decreases at,
        {
            proof {
                assert(sorted@.take(at as int).drop_last() =~= sorted@.take(at - 1));
            }
            at -= 1;
        }
        sorted.insert(at, x);
        i += 1;
    }
    assert(items@.take(i as int) =~= items@);
    sorted
}

/// Ranks the positions of `values` by value, greatest first; positions of
/// equal value keep their order.
pub fn rank(values: &Vec<usize>) -> (ranking: Vec<Ranked>)
    ensures
        ranking@ == sort_desc(indexed(values@)),
        ranks_all(ranking@, values.len() as int),
{
    proof {
        lemma_indexed_ranks_all(values@);
        lemma_sort_ranks_all(indexed(values@), values.len() as int);
    }
    let mut items: Vec<Ranked> = Vec::new();
    let mut i: usize = 0;
    while i < values.len()
        invariant
            i <= values.len(),
            items@ == indexed(values@.take(i as int)),
        decreases values.len() - i,
    {
        items.push(Ranked { index: i, weight: values[i] });
        assert(items@ =~= indexed(values@.take(i + 1)));
        i += 1;
    }
    assert(values@.take(i as int) =~= values@);
    sort_ranked(&items)
}

} // verus!
