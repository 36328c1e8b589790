//! Descriptive statistics of a list of numbers.

use crate::rank::{lemma_rank_95_in_range, p95_index, rank_95};
use vstd::prelude::*;
use vstd::relations::{sorted_by, total_ordering};
use vstd::seq_lib::{lemma_fold_left_permutation, lemma_sorted_unique};

verus! {

/// Five numbers that describe a list of numbers.
#[derive(Clone, Copy, Debug, PartialEq, Eq)]
pub struct Stats {
    /// The least value.
    pub min: u64,
    /// The greatest value.
    pub max: u64,
    /// The sum of the values divided by their number, rounded down.
    pub mean: u64,
    /// The value in the middle of the sorted values, and of two in the middle
    /// the upper one.
    pub med: u64,
    /// The value at the place of the 95th percentile of the sorted values.
    pub p95: u64,
}

/// The order of the numbers.
pub open spec fn at_most() -> spec_fn(u64, u64) -> bool {
    |a: u64, b: u64| a <= b
}

/// Adding a value to a sum.
pub open spec fn plus() -> spec_fn(int, u64) -> int {
    |sum: int, value: u64| sum + value
}

/// The values from the least to the greatest.
pub open spec fn ascending(values: Seq<u64>) -> Seq<u64> {
    values.sort_by(at_most())
}

/// The sum of the values.
pub open spec fn total(values: Seq<u64>) -> int {
    values.fold_left(0, plus())
}

/// The statistics of a list of values, of which there is at least one.
pub open spec fn stats_of(values: Seq<u64>) -> Stats {
    let sorted = ascending(values);
    let count = values.len();
    Stats {
        min: sorted[0],
        max: sorted[count - 1],
        mean: (total(values) / (count as int)) as u64,
        med: sorted[(count / 2) as int],
        p95: sorted[rank_95(count) as int],
    }
}

/// The values from the least to the greatest are the same values, as often,
/// and none of them stands before a smaller one.
pub proof fn lemma_ascending(values: Seq<u64>)
    ensures
        ascending(values).len() == values.len(),
        ascending(values).to_multiset() == values.to_multiset(),
        forall|i: int, j: int|
            0 <= i <= j < values.len() ==> ascending(values)[i] <= ascending(values)[j],
{
    assert(total_ordering(at_most()));
    values.lemma_sort_by_ensures(at_most());
    values.to_multiset_ensures();
    ascending(values).to_multiset_ensures();
    assert forall|i: int, j: int| 0 <= i <= j < values.len() implies ascending(values)[i]
        <= ascending(values)[j] by {
        if i < j {
            assert(at_most()(ascending(values)[i], ascending(values)[j]));
        }
    }
}

/// There is one way only to put values in ascending order.
pub proof fn lemma_ascending_unique(values: Seq<u64>, sorted: Seq<u64>)
    requires
        sorted.to_multiset() == values.to_multiset(),
        forall|i: int, j: int| 0 <= i <= j < sorted.len() ==> sorted[i] <= sorted[j],
    ensures
        sorted == ascending(values),
{
    assert(total_ordering(at_most()));
    values.lemma_sort_by_ensures(at_most());
    assert(sorted_by(sorted, at_most()));
    lemma_sorted_unique(sorted, ascending(values), at_most());
}

/// The sum of values does not depend on their order.
pub proof fn lemma_total_of_rearranged(values: Seq<u64>, other: Seq<u64>)
    requires
        values.to_multiset() == other.to_multiset(),
    ensures
        total(values) == total(other),
{
    lemma_fold_left_permutation(values, other, plus(), 0);
}

/// The sum of values lies between their number times a lower bound and
/// their number times an upper bound.
pub proof fn lemma_total_bounds(values: Seq<u64>, low: int, high: int)
    requires
        forall|i: int| 0 <= i < values.len() ==> low <= #[trigger] values[i] <= high,
    ensures
        values.len() * low <= total(values) <= values.len() * high,
    decreases values.len(),
{
    if values.len() > 0 {
        lemma_total_bounds(values.drop_last(), low, high);
        assert(values.len() * low == (values.len() - 1) * low + low) by (nonlinear_arith);
        assert(values.len() * high == (values.len() - 1) * high + high) by (nonlinear_arith);
    }
}

/// The median, the mean and the 95th percentile lie between the least and the
/// greatest value.
pub proof fn lemma_stats_bounds(values: Seq<u64>)
    requires
        values.len() > 0,
    ensures
        stats_of(values).min <= stats_of(values).med <= stats_of(values).max,
        stats_of(values).min <= stats_of(values).mean <= stats_of(values).max,
        stats_of(values).min <= stats_of(values).p95 <= stats_of(values).max,
{
    let sorted = ascending(values);
    let count = values.len() as int;
    let min = sorted[0] as int;
    let max = sorted[count - 1] as int;
    lemma_ascending(values);
    lemma_rank_95_in_range(values.len());
    lemma_total_of_rearranged(values, sorted);
    lemma_total_bounds(sorted, min, max);
    assert(min <= total(values) / count <= max) by (nonlinear_arith)
        requires
            count > 0,
            count * min <= total(values) <= count * max,
    ;
}

/// The statistics of a list do not depend on the order of its values.
pub proof fn lemma_stats_of_rearranged(values: Seq<u64>, other: Seq<u64>)
    requires
        values.to_multiset() == other.to_multiset(),
    ensures
        stats_of(values) == stats_of(other),
{
    lemma_ascending(values);
    lemma_ascending(other);
    lemma_ascending_unique(other, ascending(values));
    lemma_total_of_rearranged(values, other);
}

/// Each of the statistics of a single value is that value.
pub proof fn lemma_stats_of_one(values: Seq<u64>)
    requires
        values.len() == 1,
    ensures
        stats_of(values) == (Stats {
            min: values[0],
            max: values[0],
            mean: values[0],
            med: values[0],
            p95: values[0],
        }),
{
    lemma_ascending_unique(values, values);
    lemma_rank_95_in_range(1);
    assert(values.drop_last() =~= Seq::<u64>::empty());
    assert(total(values) == values[0]) by {
        reveal_with_fuel(Seq::fold_left, 2);
    }
}

/// `<[u64]>::sort_unstable`: afterwards the vector holds the same values, as
/// often as before, in ascending order.
#[verifier::external_body]
fn sort_ascending(values: &mut Vec<u64>)
    ensures
        final(values)@.to_multiset() == old(values)@.to_multiset(),
        forall|i: int, j: int|
            0 <= i <= j < final(values)@.len() ==> final(values)@[i] <= final(values)@[j],
{
    values.sort_unstable();
}

/// The sum of the values.
fn sum(values: &Vec<u64>) -> (sum: u128)
    ensures
        sum == total(values@),
        sum <= values@.len() * u64::MAX,
{
    let mut sum: u128 = 0;
    let mut at: usize = 0;
    while at < values.len()
        invariant
            at <= values@.len(),
            sum == total(values@.take(at as int)),
            sum <= at * u64::MAX,
        decreases values@.len() - at,
    {
        proof {
            assert(values@.take(at + 1).drop_last() =~= values@.take(at as int));
            assert((at + 1) * u64::MAX == at * u64::MAX + u64::MAX) by (nonlinear_arith);
            assert(at * u64::MAX <= usize::MAX * u64::MAX) by (nonlinear_arith)
                requires
                    at <= usize::MAX,
            ;
        }
        sum = sum + values[at] as u128;
        at += 1;
    }
    assert(values@.take(at as int) =~= values@);
    sum
}

/// The statistics of a list of values, of which there must be at least one.
/// The median, the mean and the 95th percentile lie between the least and the
/// greatest value.
pub fn analyse_prop(values: Vec<u64>) -> (stats: Stats)
    requires
        values@.len() > 0,
    ensures
        stats == stats_of(values@),
        stats.min <= stats.med <= stats.max,
        stats.min <= stats.mean <= stats.max,
        stats.min <= stats.p95 <= stats.max,
{
    let mut sorted = values;
    sort_ascending(&mut sorted);
    let count: usize = sorted.len();
    proof {
        lemma_ascending(values@);
        lemma_ascending_unique(values@, sorted@);
        lemma_total_of_rearranged(values@, sorted@);
        lemma_total_bounds(sorted@, 0, u64::MAX as int);
        lemma_stats_bounds(values@);
    }
    let sum: u128 = sum(&sorted);
    let mean: u128 = sum / (count as u128);
    proof {
        assert(mean <= u64::MAX) by (nonlinear_arith)
            requires
                mean == sum / (count as u128),
                sum <= count * u64::MAX,
                count > 0,
        ;
    }
    Stats {
        min: sorted[0],
        max: sorted[count - 1],
        mean: mean as u64,
        med: sorted[count / 2],
        p95: sorted[p95_index(count)],
    }
}

} // verus!
