//! The bar of the overview: a fixed number of vertical strokes, shared out
//! among the extensions. The shares come from rounded percentages, so they
//! may add up to a little more or less than the bar holds; `normalize`
//! moves single strokes until they fit.

use vstd::prelude::*;
use crate::ranking::{
    holds, indexed, is_desc, lemma_indexed_ranks_all, lemma_sort_desc, lemma_sort_ranks_all,
    lemma_update_ranks_all, lemma_weights_sum_indexed, lemma_weights_sum_insert,
    lemma_weights_sum_update, rank, ranks_all, seq_sum, sort_desc, sort_ranked, weights_sum,
    Ranked,
};

verus! {

/// The number of vertical strokes in the bar of the overview.
pub const NUM_OF_VERTICALS: usize = 50;

/// The item with one stroke less.
pub open spec fn lower(r: Ranked) -> Ranked {
    Ranked {
        index: r.index,
        weight: if r.weight > 0 {
            (r.weight - 1) as usize
        } else {
            0
        },
    }
}

/// The item with one stroke more.
pub open spec fn raise(r: Ranked) -> Ranked {
    Ranked {
        index: r.index,
        weight: if r.weight < usize::MAX {
            (r.weight + 1) as usize
        } else {
            r.weight
        },
    }
}

/// The item moved by one stroke towards the target.
pub open spec fn nudge(r: Ranked, over: bool) -> Ranked {
    if over {
        lower(r)
    } else {
        raise(r)
    }
}

/// How many items at the head of the ranking, from `from` on, are as heavy as
/// the first.
pub open spec fn leading_ties(ranking: Seq<Ranked>, from: int) -> int
    decreases ranking.len() - from,
{
    if 0 <= from < ranking.len() && ranking[from].weight == ranking[0].weight {
        leading_ties(ranking, from + 1)
    } else {
        from
    }
}

/// The ranking with its first `m` items moved by one stroke each.
pub open spec fn nudge_first(ranking: Seq<Ranked>, m: int, over: bool) -> Seq<Ranked> {
    Seq::new(
        ranking.len(),
        |k: int|
            if k < m {
                nudge(ranking[k], over)
            } else {
                ranking[k]
            },
    )
}

/// One round of balancing. With too many strokes, the heaviest item gives one
/// while it leads the second by more than three, else the second gives one.
/// With too few, the second item takes one while the heaviest leads it by
/// more than five, else the heaviest takes one. After a change to the second
/// item, a ranking of more than two items is put in order again.
pub open spec fn balance_round(ranking: Seq<Ranked>, over: bool) -> Seq<Ranked> {
    if over {
        if ranking[0].weight > ranking[1].weight + 3 {
            ranking.update(0, lower(ranking[0]))
        } else {
            let changed = ranking.update(1, lower(ranking[1]));
            if ranking.len() > 2 {
                sort_desc(changed)
            } else {
                changed
            }
        }
    } else {
        if ranking[0].weight > ranking[1].weight + 5 {
            let changed = ranking.update(1, raise(ranking[1]));
            if ranking.len() > 2 {
                sort_desc(changed)
            } else {
                changed
            }
        } else {
            ranking.update(0, raise(ranking[0]))
        }
    }
}

/// The ranking after `rounds` rounds of balancing.
pub open spec fn balance(ranking: Seq<Ranked>, over: bool, rounds: nat) -> Seq<Ranked>
    decreases rounds,
{
    if rounds == 0 {
        ranking
    } else {
        balance(balance_round(ranking, over), over, (rounds - 1) as nat)
    }
}

/// The ranking of the shares once they fit. Shares that tie for the lead
/// each move by one stroke first, as far as the difference reaches, so that
/// shares that were equal end no more than one stroke apart. What is left of
/// the difference moves stroke by stroke: one from or to the heaviest share,
/// the others by rounds of balancing.
pub open spec fn normalized_ranking(values: Seq<usize>, sum: int) -> Seq<Ranked> {
    let ranking = sort_desc(indexed(values));
    let over = sum > NUM_OF_VERTICALS;
    let difference = if over {
        sum - NUM_OF_VERTICALS
    } else {
        NUM_OF_VERTICALS - sum
    };
    let ties = leading_ties(ranking, 0);
    let m = if ties > 1 {
        if ties < difference {
            ties
        } else {
            difference
        }
    } else {
        0
    };
    let spread = nudge_first(ranking, m, over);
    if difference - m == 0 {
        spread
    } else {
        let first = spread.update(0, nudge(spread[0], over));
        let settled = if over {
            sort_desc(first)
        } else {
            first
        };
        balance(settled, over, (difference - m - 1) as nat)
    }
}

/// The place in a ranking of the item with index `p`.
pub open spec fn place_of(ranking: Seq<Ranked>, p: int) -> int {
    choose|k: int| 0 <= k < ranking.len() && (#[trigger] ranking[k]).index == p
}

/// The weights of a ranking, each at the position that its item came from.
pub open spec fn scatter(ranking: Seq<Ranked>) -> Seq<usize> {
    Seq::new(ranking.len(), |p: int| ranking[place_of(ranking, p)].weight)
}

/// The shares once they fit.
pub open spec fn normalized(values: Seq<usize>, sum: int) -> Seq<usize> {
    scatter(normalized_ranking(values, sum))
}

/// Weights that are all zero sum to zero.
proof fn lemma_zero_weights(items: Seq<Ranked>)
    requires
        forall|k: int| 0 <= k < items.len() ==> (#[trigger] items[k]).weight == 0,
    ensures
        weights_sum(items) == 0,
    decreases items.len(),
{
    if items.len() > 0 {
        lemma_zero_weights(items.drop_last());
    }
}

/// Where every weight but the first is zero, the first weight is the sum.
proof fn lemma_only_first_weighs(items: Seq<Ranked>)
    requires
        items.len() >= 1,
        forall|k: int| 1 <= k < items.len() ==> (#[trigger] items[k]).weight == 0,
    ensures
        weights_sum(items) == items[0].weight,
    decreases items.len(),
{
    if items.len() > 1 {
        lemma_only_first_weighs(items.drop_last());
        assert(items.drop_last()[0] == items[0]);
        assert(items[items.len() - 1].weight == 0);
    } else {
        assert(weights_sum(items.drop_last()) == 0);
    }
}

/// The values that hold, at the position of each item of a ranking, that
/// item's weight sum to what the weights sum to.
proof fn lemma_scatter_sum(ranking: Seq<Ranked>, values: Seq<usize>)
    requires
        ranks_all(ranking, values.len() as int),
        forall|k: int|
            0 <= k < ranking.len() ==> values[(#[trigger] ranking[k]).index as int]
                == ranking[k].weight,
    ensures
        seq_sum(values) == weights_sum(ranking),
    decreases values.len(),
{
    if values.len() > 0 {
        let p = values.len() - 1;
        assert(holds(ranking, p));
        let k = choose|k: int| 0 <= k < ranking.len() && (#[trigger] ranking[k]).index == p;
        let rest = ranking.remove(k);
        let front = values.drop_last();
        assert(rest.insert(k, ranking[k]) =~= ranking);
        lemma_weights_sum_insert(rest, k, ranking[k]);
        assert forall|j: int| 0 <= j < rest.len() implies (#[trigger] rest[j]).index < p
            && front[rest[j].index as int] == rest[j].weight by {
            let j0 = if j < k {
                j
            } else {
                j + 1
            };
            assert(rest[j] == ranking[j0]);
        }
        assert forall|i: int, j: int|
            0 <= i < rest.len() && 0 <= j < rest.len() && i != j implies rest[i].index
            != rest[j].index by {
            let i0 = if i < k {
                i
            } else {
                i + 1
            };
            let j0 = if j < k {
                j
            } else {
                j + 1
            };
            assert(rest[i] == ranking[i0] && rest[j] == ranking[j0]);
        }
        assert forall|q: int| 0 <= q < p implies #[trigger] holds(rest, q) by {
            assert(holds(ranking, q));
            let j0 = choose|j0: int| 0 <= j0 < ranking.len() && (#[trigger] ranking[j0]).index == q;
            let j = if j0 < k {
                j0
            } else {
                j0 - 1
            };
            assert(rest[j] == ranking[j0]);
        }
        lemma_scatter_sum(rest, front);
    } else {
        assert(ranking.len() == 0);
    }
}

/// Moving the first `m` items of a ranking whose first items tie keeps every
/// position in its place and moves the sum by `m`.
proof fn lemma_nudge_first(sorted: Seq<Ranked>, m: int, over: bool, top: usize, n: int)
    requires
        ranks_all(sorted, n),
        0 <= m <= n,
        forall|j: int| 0 <= j < m ==> (#[trigger] sorted[j]).weight == top,
        over ==> top >= 1,
        !over ==> top < usize::MAX,
    ensures
        ranks_all(nudge_first(sorted, m, over), n),
        over ==> weights_sum(nudge_first(sorted, m, over)) == weights_sum(sorted) - m,
        !over ==> weights_sum(nudge_first(sorted, m, over)) == weights_sum(sorted) + m,
    decreases m,
{
    if m == 0 {
        assert(nudge_first(sorted, 0, over) =~= sorted);
    } else {
        lemma_nudge_first(sorted, m - 1, over, top, n);
        let before = nudge_first(sorted, m - 1, over);
        let after = nudge_first(sorted, m, over);
        assert(after =~= before.update(m - 1, nudge(sorted[m - 1], over)));
        assert(before[m - 1] == sorted[m - 1]);
        lemma_weights_sum_update(before, m - 1, nudge(sorted[m - 1], over));
        lemma_update_ranks_all(before, n, m - 1, nudge(sorted[m - 1], over));
    }
}

/// Counts the items at the head of a ranking that are as heavy as the first.
fn count_leading_ties(ranking: &Vec<Ranked>) -> (ties: usize)
    requires
        ranking.len() >= 1,
    ensures
        ties == leading_ties(ranking@, 0),
        1 <= ties <= ranking.len(),
        forall|k: int| 0 <= k < ties ==> (#[trigger] ranking@[k]).weight == ranking@[0].weight,
        ties < ranking.len() ==> ranking@[ties as int].weight != ranking@[0].weight,
{
    let top = ranking[0].weight;
    let mut ties: usize = 1;
    while ties < ranking.len() && ranking[ties].weight == top
        invariant
            1 <= ties <= ranking.len(),
            top == ranking@[0].weight,
            leading_ties(ranking@, 0) == leading_ties(ranking@, ties as int),
            forall|k: int| 0 <= k < ties ==> (#[trigger] ranking@[k]).weight == top,
        decreases ranking.len() - ties,
    {
        ties += 1;
    }
    ties
}

/// Moves each of the first `m` items by one stroke.
fn nudge_leading(ranking: &mut Vec<Ranked>, m: usize, over: bool)
    requires
        m <= old(ranking).len(),
        forall|k: int|
            0 <= k < m ==> if over {
                (#[trigger] old(ranking)@[k]).weight >= 1
            } else {
                old(ranking)@[k].weight < usize::MAX
            },
    ensures
        final(ranking)@ == nudge_first(old(ranking)@, m as int, over),
{
    let ghost sorted = ranking@;
    let mut k: usize = 0;
    while k < m
        invariant
            k <= m <= ranking.len(),
            sorted.len() == ranking.len(),
            sorted == old(ranking)@,
            forall|j: int|
                0 <= j < m ==> if over {
                    (#[trigger] sorted[j]).weight >= 1
                } else {
                    sorted[j].weight < usize::MAX
                },
            ranking@ == nudge_first(sorted, k as int, over),
        decreases m - k,
    {
        let item = ranking[k];
        assert(item == sorted[k as int]);
        let moved = if over {
            Ranked { index: item.index, weight: item.weight - 1 }
        } else {
            Ranked { index: item.index, weight: item.weight + 1 }
        };
        ranking.set(k, moved);
        assert(ranking@ =~= nudge_first(sorted, k + 1, over));
        k += 1;
    }
    assert(ranking@ =~= nudge_first(sorted, m as int, over));
}

/// Whether the rounds of balancing can run on a ranking: it has a second
/// item, holds every position once, is in order where strokes are to be
/// given, and is off the target by exactly the number of rounds.
pub open spec fn balanceable(ranking: Seq<Ranked>, over: bool, rounds: int) -> bool {
    &&& rounds >= 0
    &&& ranking.len() >= 2 || rounds == 0
    &&& ranks_all(ranking, ranking.len() as int)
    &&& over ==> is_desc(ranking)
    &&& over ==> weights_sum(ranking) == NUM_OF_VERTICALS + rounds
    &&& !over ==> weights_sum(ranking) == NUM_OF_VERTICALS - rounds
}

/// A round of balancing leaves a ranking fit for the rounds that remain.
proof fn lemma_balance_round(ranking: Seq<Ranked>, over: bool, rounds: int)
    requires
        balanceable(ranking, over, rounds),
        rounds >= 1,
    ensures
        balanceable(balance_round(ranking, over), over, rounds - 1),
        balance_round(ranking, over).len() == ranking.len(),
        over && !(ranking[0].weight > ranking[1].weight + 3) ==> ranking[1].weight >= 1,
        over ==> ranking[0].weight >= 1,
        !over ==> ranking[0].weight < usize::MAX,
        !over ==> ranking[1].weight < usize::MAX,
{
    let n = ranking.len() as int;
    let first = ranking[0];
    let second = ranking[1];
    lemma_weights_sum_update(ranking, 0, nudge(first, over));
    lemma_weights_sum_update(ranking, 1, nudge(second, over));
    lemma_update_ranks_all(ranking, n, 0, nudge(first, over));
    lemma_update_ranks_all(ranking, n, 1, nudge(second, over));
    if over {
        assert(first.weight >= second.weight);
        if first.weight == 0 {
            assert forall|j: int| 0 <= j < ranking.len() implies (#[trigger] ranking[j]).weight
                == 0 by {
                assert(ranking[0].weight >= ranking[j].weight);
            }
            lemma_zero_weights(ranking);
        }
        if first.weight > second.weight + 3 {
            let out = ranking.update(0, lower(first));
            assert forall|i: int, j: int| 0 <= i <= j < out.len() implies out[i].weight
                >= out[j].weight by {
                if i == 0 && j > 0 {
                    assert(ranking[1].weight >= ranking[j].weight);
                } else if i > 0 {
                    assert(ranking[i].weight >= ranking[j].weight);
                }
            }
        } else {
            if second.weight == 0 {
                assert forall|j: int| 1 <= j < ranking.len() implies (#[trigger] ranking[j]).weight
                    == 0 by {
                    assert(ranking[1].weight >= ranking[j].weight);
                }
                lemma_only_first_weighs(ranking);
            }
            let changed = ranking.update(1, lower(second));
            if n > 2 {
                lemma_sort_desc(changed);
                lemma_sort_ranks_all(changed, n);
            } else {
                assert forall|i: int, j: int| 0 <= i <= j < changed.len() implies changed[i].weight
                    >= changed[j].weight by {
                    assert(ranking[0].weight >= ranking[1].weight);
                }
            }
        }
    } else {
        if first.weight > second.weight + 5 {
            let changed = ranking.update(1, raise(second));
            if n > 2 {
                lemma_sort_desc(changed);
                lemma_sort_ranks_all(changed, n);
            }
        }
    }
}

/// Runs the rounds of balancing.
fn balance_rounds(ranking: Vec<Ranked>, over: bool, rounds: usize) -> (balanced: Vec<Ranked>)
    requires
        balanceable(ranking@, over, rounds as int),
    ensures
        balanced@ == balance(ranking@, over, rounds as nat),
        balanceable(balanced@, over, 0),
        balanced.len() == ranking.len(),
{
    let ghost settled = ranking@;
    let mut ranking = ranking;
    let n = ranking.len();
    let mut round: usize = 0;
    while round < rounds
        invariant
            round <= rounds,
            n == ranking.len(),
            n == settled.len(),
            balanceable(ranking@, over, rounds - round),
            balance(ranking@, over, (rounds - round) as nat) == balance(
                settled,
                over,
                rounds as nat,
            ),
        decreases rounds - round,
    {
        let ghost before = ranking@;
        proof {
            lemma_balance_round(before, over, rounds - round);
        }
        let first = ranking[0];
        let second = ranking[1];
        if over {
            if first.weight >= second.weight && first.weight - second.weight > 3 {
                ranking.set(0, Ranked { index: first.index, weight: first.weight - 1 });
            } else {
                ranking.set(1, Ranked { index: second.index, weight: second.weight - 1 });
                if n > 2 {
                    ranking = sort_ranked(&ranking);
                }
            }
        } else {
            if first.weight >= second.weight && first.weight - second.weight > 5 {
                ranking.set(1, Ranked { index: second.index, weight: second.weight + 1 });
                if n > 2 {
                    ranking = sort_ranked(&ranking);
                }
            } else {
                ranking.set(0, Ranked { index: first.index, weight: first.weight + 1 });
            }
        }
        assert(ranking@ == balance_round(before, over));
        round += 1;
    }
    ranking
}

/// Writes the weight of each item to the position that the item came from.
fn write_back(ranking: &Vec<Ranked>, verticals: &mut Vec<usize>)
    requires
        ranks_all(ranking@, old(verticals).len() as int),
    ensures
        final(verticals)@ == scatter(ranking@),
        final(verticals).len() == old(verticals).len(),
        seq_sum(final(verticals)@) == weights_sum(ranking@),
{
    let n = verticals.len();
    let ghost result = ranking@;
    let mut w: usize = 0;
    while w < n
        invariant
            w <= n,
            n == verticals.len(),
            result == ranking@,
            ranks_all(result, n as int),
            forall|j: int|
                0 <= j < w ==> verticals@[(#[trigger] result[j]).index as int] == result[j].weight,
        decreases n - w,
    {
        let item = ranking[w];
        verticals.set(item.index, item.weight);
        w += 1;
    }
    proof {
        lemma_scatter_sum(result, verticals@);
        assert forall|p: int| 0 <= p < n implies verticals@[p] == scatter(result)[p] by {
            assert(holds(result, p));
            let at = place_of(result, p);
            assert(result[at].index == p);
        }
        assert(verticals@ =~= scatter(result));
    }
}

/// Whether `normalize_to_NUM_OF_VERTICALS` can work on these shares: there
/// is at least one, `sum` is what they add up to, and a single share is off
/// by one at most.
pub open spec fn can_normalize(values: Seq<usize>, sum: usize) -> bool {
    &&& values.len() >= 1
    &&& sum == seq_sum(values)
    &&& values.len() >= 2 || NUM_OF_VERTICALS - 1 <= sum <= NUM_OF_VERTICALS + 1
}

/// Ranks the shares and moves the shares that tie for the lead.
fn spread_over_ties(verticals: &Vec<usize>, sum: usize) -> (r: (Vec<Ranked>, usize))
    requires
        can_normalize(verticals@, sum),
    ensures
        ({
            let sorted = sort_desc(indexed(verticals@));
            let over = sum > NUM_OF_VERTICALS;
            let difference = if over {
                sum - NUM_OF_VERTICALS
            } else {
                NUM_OF_VERTICALS - sum
            };
            let ties = leading_ties(sorted, 0);
            let m = if ties > 1 {
                if ties < difference {
                    ties
                } else {
                    difference
                }
            } else {
                0
            };
            &&& r.0@ == nudge_first(sorted, m, over)
            &&& r.1 == difference - m
            &&& ranks_all(r.0@, verticals.len() as int)
            &&& over ==> weights_sum(r.0@) == NUM_OF_VERTICALS + r.1
            &&& !over ==> weights_sum(r.0@) == NUM_OF_VERTICALS - r.1
            &&& r.1 > 0 ==> is_desc(r.0@)
            &&& r.1 > 0 && over ==> r.0@[0].weight >= 1
        }),
{
    let n = verticals.len();
    let ghost values = verticals@;
    let mut ranking = rank(verticals);
    let ghost sorted = ranking@;
    proof {
        lemma_indexed_ranks_all(values);
        lemma_sort_ranks_all(indexed(values), n as int);
        lemma_sort_desc(indexed(values));
        lemma_weights_sum_indexed(values);
        lemma_weights_sum_update(sorted, 0, sorted[0]);
    }
    let over = sum > NUM_OF_VERTICALS;
    let difference = if over {
        sum - NUM_OF_VERTICALS
    } else {
        NUM_OF_VERTICALS - sum
    };
    let top = ranking[0].weight;
    let ties = count_leading_ties(&ranking);
    proof {
        if over && top == 0 {
            assert forall|k: int| 0 <= k < sorted.len() implies (#[trigger] sorted[k]).weight
                == 0 by {
                assert(sorted[0].weight >= sorted[k].weight);
            }
            lemma_zero_weights(sorted);
        }
        assert forall|k: int| ties <= k < n implies (#[trigger] sorted[k]).weight < top by {
            assert(sorted[0].weight >= sorted[ties as int].weight);
            assert(sorted[ties as int].weight >= sorted[k].weight);
        }
    }
    let m = if ties > 1 {
        if ties < difference {
            ties
        } else {
            difference
        }
    } else {
        0
    };
    proof {
        lemma_nudge_first(sorted, m as int, over, top, n as int);
    }
    nudge_leading(&mut ranking, m, over);
    let ghost spread = ranking@;
    proof {
        if difference - m > 0 {
            assert(m == 0 || m == ties);
            assert forall|i: int, j: int| 0 <= i <= j < spread.len() implies spread[i].weight
                >= spread[j].weight by {
                assert(sorted[i].weight >= sorted[j].weight);
            }
            if over && spread[0].weight == 0 {
                assert forall|j: int| 0 <= j < spread.len() implies (#[trigger] spread[j]).weight
                    == 0 by {
                    assert(spread[0].weight >= spread[j].weight);
                }
                lemma_zero_weights(spread);
            }
        }
    }
    (ranking, difference - m)
}

/// Moves single strokes between the shares until they add up to the number
/// of strokes in the bar. `sum` is what the shares add up to before.
#[allow(non_snake_case)]
pub fn normalize_to_NUM_OF_VERTICALS(verticals: &mut Vec<usize>, sum: usize)
    requires
        can_normalize(old(verticals)@, sum),
    ensures
        final(verticals)@ == normalized(old(verticals)@, sum as int),
        final(verticals).len() == old(verticals).len(),
        seq_sum(final(verticals)@) == NUM_OF_VERTICALS,
{
    let n = verticals.len();
    let over = sum > NUM_OF_VERTICALS;
    let (spread, rest) = spread_over_ties(verticals, sum);
    let ghost spread_view = spread@;
    if rest == 0 {
        write_back(&spread, verticals);
    } else {
        let mut ranking = spread;
        let head = ranking[0];
        proof {
            lemma_weights_sum_update(spread_view, 0, nudge(head, over));
            lemma_update_ranks_all(spread_view, n as int, 0, nudge(head, over));
        }
        let moved = if over {
            Ranked { index: head.index, weight: head.weight - 1 }
        } else {
            Ranked { index: head.index, weight: head.weight + 1 }
        };
        ranking.set(0, moved);
        if over {
            proof {
                lemma_sort_desc(ranking@);
                lemma_sort_ranks_all(ranking@, n as int);
            }
            ranking = sort_ranked(&ranking);
        }
        let balanced = balance_rounds(ranking, over, rest - 1);
        write_back(&balanced, verticals);
    }
}

} // verus!
