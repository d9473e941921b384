//! Binning of a feature against a binary target.
//!
//! The rows of a data set are grouped by their value into initial bins, one
//! per distinct value, and the clusterizer merges bins until the wanted number
//! is left. A bin counts its rows and its rows of either label. What else a bin
//! carries, its score, is for the caller to define: how the score of an initial
//! bin is made from its counts, how two scores merge, and how far two bins are
//! apart.
use crate::distance_heap::DistanceHeap;
use crate::distance_heap::DistanceHeapNode;
use crate::hierarchical_clusterizer::is_consecutive;
use crate::hierarchical_clusterizer::is_listing;
use crate::hierarchical_clusterizer::lemma_run_ends;
use crate::hierarchical_clusterizer::ClusterTrait;
use crate::hierarchical_clusterizer::ClusterizerView;
use crate::hierarchical_clusterizer::HierarchicalClusterizer;
use crate::hierarchical_clusterizer::Lineage;
use std::collections::HashMap;
use vstd::prelude::*;

verus! {

/// The score of a bin: what a bin carries besides its counts and its values.
pub trait WoeScore: Sized {
    /// The score of an initial bin that holds `n1` of the `total1` rows with
    /// label `true` and `n0` of the `total0` rows with label `false`. `self`
    /// is the score that the binning was made with; it carries what the
    /// scoring is set up with.
    fn leaf(&self, n1: usize, n0: usize, total1: usize, total0: usize) -> Self;

    /// The score of the merge of a bin of `n_1` rows with a bin of `n_2` rows.
    fn merge(score1: &Self, n_1: usize, score2: &Self, n_2: usize) -> Self;

    /// The distance from a bin of `n_1` rows to a bin of `n_2` rows, as a key
    /// of which the smaller stands for the smaller distance; `None` where the
    /// two must not be merged.
    fn distance(score1: &Self, n_1: usize, score2: &Self, n_2: usize) -> Option<u64>;
}

/// Whether the score lets a bin of `n_1` rows and a bin of `n_2` rows go
/// without a distance, so that the two are never merged.
pub open spec fn may_stay_apart<S: WoeScore>(
    score1: S,
    n_1: usize,
    score2: S,
    n_2: usize,
) -> bool {
    call_ensures(S::distance, (&score1, n_1, &score2, n_2), None::<u64>)
}

/// `x + y`, or the largest value where the sum is above it.
pub open spec fn capped_sum(x: usize, y: usize) -> usize {
    if x + y > usize::MAX {
        usize::MAX
    } else {
        (x + y) as usize
    }
}

/// A bin: a group of values of the feature, with the number of rows that have
/// one of them.
#[derive(Debug)]
pub struct WoeBinningCluster<S> {
    /// The number of rows.
    pub n: usize,
    /// The number of rows with label `true`.
    pub n1: usize,
    /// The number of rows with label `false`.
    pub n0: usize,
    /// The values of the feature that the bin stands for.
    pub values: Vec<usize>,
    /// The score of the bin.
    pub score: S,
}

impl<S: WoeScore + Clone> Clone for WoeBinningCluster<S> {
    fn clone(&self) -> (copy: Self)
        ensures
            copy.n == self.n,
            copy.n1 == self.n1,
            copy.n0 == self.n0,
            copy.values@ == self.values@,
            cloned(self.score, copy.score),
    {
        let values = self.values.clone();
        assert(values@ =~= self.values@);
        WoeBinningCluster {
            n: self.n,
            n1: self.n1,
            n0: self.n0,
            values,
            score: self.score.clone(),
        }
    }
}

impl<S: WoeScore + Clone> ClusterTrait for WoeBinningCluster<S> {
    /// The merged bin holds the rows and the values of both bins, those of
    /// the first bin first.
    fn merge(cluster1: &Self, cluster2: &Self) -> (merged: Self)
        ensures
            merged.n == capped_sum(cluster1.n, cluster2.n),
            merged.n1 == capped_sum(cluster1.n1, cluster2.n1),
            merged.n0 == capped_sum(cluster1.n0, cluster2.n0),
            merged.values@ == cluster1.values@ + cluster2.values@,
            call_ensures(
                S::merge,
                (&cluster1.score, cluster1.n, &cluster2.score, cluster2.n),
                merged.score,
            ),
    {
        let score = S::merge(&cluster1.score, cluster1.n, &cluster2.score, cluster2.n);
        let mut values = cluster1.values.clone();
        let mut values2 = cluster2.values.clone();
        assert(values@ =~= cluster1.values@);
        assert(values2@ =~= cluster2.values@);
        values.append(&mut values2);
        WoeBinningCluster {
            n: cluster1.n.saturating_add(cluster2.n),
            n1: cluster1.n1.saturating_add(cluster2.n1),
            n0: cluster1.n0.saturating_add(cluster2.n0),
            values,
            score,
        }
    }

    /// The distance between two bins is the distance between their scores.
    fn distance(cluster1: &Self, cluster2: &Self) -> (distance: Option<u64>)
        ensures
            call_ensures(
                S::distance,
                (&cluster1.score, cluster1.n, &cluster2.score, cluster2.n),
                distance,
            ),
    {
        S::distance(&cluster1.score, cluster1.n, &cluster2.score, cluster2.n)
    }
}

/// The distinct values of `series`, in the order in which they first occur.
pub open spec fn distinct_values(series: Seq<usize>) -> Seq<usize>
    decreases series.len(),
{
    if series.len() == 0 {
        Seq::empty()
    } else {
        let earlier = distinct_values(series.drop_last());
        if earlier.contains(series.last()) {
            earlier
        } else {
            earlier.push(series.last())
        }
    }
}

/// The number of rows that have one of `values` and the label `label`.
pub open spec fn count_rows(
    series: Seq<usize>,
    target: Seq<bool>,
    values: Seq<usize>,
    label: bool,
) -> nat
    decreases series.len(),
{
    if series.len() == 0 || target.len() == 0 {
        0
    } else {
        count_rows(series.drop_last(), target.drop_last(), values, label) + if values.contains(
            series.last(),
        ) && target.last() == label {
            1nat
        } else {
            0nat
        }
    }
}

/// The number of rows with the label `label`.
pub open spec fn count_label(target: Seq<bool>, label: bool) -> nat
    decreases target.len(),
{
    if target.len() == 0 {
        0
    } else {
        count_label(target.drop_last(), label) + if target.last() == label {
            1nat
        } else {
            0nat
        }
    }
}

/// Whether `bin` is the initial bin of `value`: it holds that value alone,
/// counts the rows that have it, and has the score that `seed` makes of the
/// counts.
pub open spec fn is_leaf_bin<S: WoeScore>(
    series: Seq<usize>,
    target: Seq<bool>,
    seed: S,
    value: usize,
    bin: WoeBinningCluster<S>,
) -> bool {
    &&& bin.values@ == seq![value]
    &&& bin.n1 == count_rows(series, target, seq![value], true)
    &&& bin.n0 == count_rows(series, target, seq![value], false)
    &&& bin.n == bin.n1 + bin.n0
    &&& call_ensures(
        S::leaf,
        (
            &seed,
            bin.n1,
            bin.n0,
            count_label(target, true) as usize,
            count_label(target, false) as usize,
        ),
        bin.score,
    )
}

/// Whether `bins` holds the initial bin of each of `values`, in this order.
pub open spec fn is_leaf_binning<S: WoeScore>(
    series: Seq<usize>,
    target: Seq<bool>,
    seed: S,
    values: Seq<usize>,
    bins: Seq<WoeBinningCluster<S>>,
) -> bool {
    &&& bins.len() == values.len()
    &&& forall|k: int|
        0 <= k < bins.len() ==> is_leaf_bin(series, target, seed, values[k], #[trigger] bins[k])
}

/// No more rows are counted than the data set has.
proof fn lemma_counts_bounded(
    series: Seq<usize>,
    target: Seq<bool>,
    values: Seq<usize>,
)
    requires
        series.len() == target.len(),
    ensures
        count_rows(series, target, values, true) + count_rows(series, target, values, false)
            <= series.len(),
    decreases series.len(),
{
    if series.len() > 0 {
        lemma_counts_bounded(series.drop_last(), target.drop_last(), values);
    }
}

/// Every row has one of the two labels.
proof fn lemma_labels_bounded(target: Seq<bool>)
    ensures
        count_label(target, true) + count_label(target, false) == target.len(),
    decreases target.len(),
{
    if target.len() > 0 {
        lemma_labels_bounded(target.drop_last());
    }
}

/// The distinct values of a data set are those that occur in it, each once.
pub proof fn lemma_distinct_values(series: Seq<usize>)
    ensures
        distinct_values(series).no_duplicates(),
        distinct_values(series).len() <= series.len(),
        forall|value: usize|
            #![trigger distinct_values(series).contains(value)]
            #![trigger series.contains(value)]
            distinct_values(series).contains(value) <==> series.contains(value),
    decreases series.len(),
{
    if series.len() > 0 {
        let earlier = series.drop_last();
        lemma_distinct_values(earlier);
        let last = series.last();
        let found = distinct_values(earlier);
        assert forall|value: usize|
            distinct_values(series).contains(value) <==> series.contains(value) by {
            if series.contains(value) {
                let i = choose|i: int| 0 <= i < series.len() && series[i] == value;
                if i < series.len() - 1 {
                    assert(earlier[i] == value);
                    assert(earlier.contains(value));
                    assert(found.contains(value));
                    let j = choose|j: int| 0 <= j < found.len() && found[j] == value;
                    assert(distinct_values(series)[j] == value);
                } else {
                    if !found.contains(last) {
                        assert(distinct_values(series)[found.len() as int] == value);
                    }
                }
            }
            if distinct_values(series).contains(value) {
                let j = choose|j: int|
                    0 <= j < distinct_values(series).len() && distinct_values(series)[j] == value;
                if j < found.len() {
                    assert(found[j] == value);
                    assert(found.contains(value));
                    let i = choose|i: int| 0 <= i < earlier.len() && earlier[i] == value;
                    assert(series[i] == value);
                } else {
                    assert(series[series.len() - 1] == value);
                }
            }
        }
    }
}

/// Whether `values` holds the values that occur in `series` in ascending
/// order, each once.
pub open spec fn is_ascending_values(series: Seq<usize>, values: Seq<usize>) -> bool {
    &&& forall|i: int, j: int| 0 <= i < j < values.len() ==> values[i] < values[j]
    &&& forall|value: usize|
        #![trigger values.contains(value)]
        #![trigger series.contains(value)]
        values.contains(value) <==> series.contains(value)
}

/// The values that occur in `series` in ascending order, each once.
pub open spec fn ascending_values(series: Seq<usize>) -> Seq<usize> {
    choose|values: Seq<usize>| is_ascending_values(series, values)
}

/// The values of the initial bins, in the order of the bins: ascending where
/// `sorted` is set, and else as the values first occur.
pub open spec fn initial_values(series: Seq<usize>, sorted: bool) -> Seq<usize> {
    if sorted {
        ascending_values(series)
    } else {
        distinct_values(series)
    }
}

/// Two ascending sequences that hold the same values are equal.
pub proof fn lemma_ascending_values_unique(
    series: Seq<usize>,
    values1: Seq<usize>,
    values2: Seq<usize>,
)
    requires
        is_ascending_values(series, values1),
        is_ascending_values(series, values2),
    ensures
        values1 == values2,
    decreases values1.len(),
{
    if values1.len() == 0 {
        if values2.len() > 0 {
            assert(values2.contains(values2[0]));
            assert(values1.contains(values2[0]));
        }
        assert(values1 =~= values2);
    } else {
        let last1 = values1.last();
        assert(values1.contains(last1));
        assert(values2.contains(last1));
        let j = choose|j: int| 0 <= j < values2.len() && values2[j] == last1;
        let last2 = values2.last();
        assert(values2.contains(last2));
        assert(values1.contains(last2));
        let i = choose|i: int| 0 <= i < values1.len() && values1[i] == last2;
        assert(last1 == last2);
        let rest1 = values1.drop_last();
        let rest2 = values2.drop_last();
        assert forall|value: usize| rest1.contains(value) <==> rest2.contains(value) by {
            if rest1.contains(value) {
                let k = choose|k: int| 0 <= k < rest1.len() && rest1[k] == value;
                assert(values1[k] == value);
                assert(values1.contains(value));
                assert(values2.contains(value));
                let m = choose|m: int| 0 <= m < values2.len() && values2[m] == value;
                assert(rest2[m] == value);
            }
            if rest2.contains(value) {
                let k = choose|k: int| 0 <= k < rest2.len() && rest2[k] == value;
                assert(values2[k] == value);
                assert(values2.contains(value));
                assert(values1.contains(value));
                let m = choose|m: int| 0 <= m < values1.len() && values1[m] == value;
                assert(rest1[m] == value);
            }
        }
        assert(is_ascending_values(rest1, rest1)) by {
            assert forall|i: int, j: int| 0 <= i < j < rest1.len() implies rest1[i] < rest1[j] by {
                assert(values1[i] < values1[j]);
            }
        }
        assert(is_ascending_values(rest1, rest2)) by {
            assert forall|i: int, j: int| 0 <= i < j < rest2.len() implies rest2[i] < rest2[j] by {
                assert(values2[i] < values2[j]);
            }
        }
        lemma_ascending_values_unique(rest1, rest1, rest2);
        assert(values1 =~= rest1.push(last1));
        assert(values2 =~= rest2.push(last2));
    }
}

/// The values of the initial bins at the places `leaves`.
pub open spec fn leaf_values(values: Seq<usize>, leaves: Seq<usize>) -> Seq<usize> {
    Seq::new(leaves.len(), |j: int| values[leaves[j] as int])
}

/// The rows that have one of the values of `first` or of `second`, where the
/// two have no value in common, are the rows of the one and the rows of the
/// other.
proof fn lemma_count_rows_joined(
    series: Seq<usize>,
    target: Seq<bool>,
    first: Seq<usize>,
    second: Seq<usize>,
    label: bool,
)
    requires
        forall|i: int, j: int| 0 <= i < first.len() && 0 <= j < second.len() ==> first[i] != second[j],
    ensures
        count_rows(series, target, first + second, label) == count_rows(
            series,
            target,
            first,
            label,
        ) + count_rows(series, target, second, label),
    decreases series.len(),
{
    if series.len() > 0 && target.len() > 0 {
        lemma_count_rows_joined(series.drop_last(), target.drop_last(), first, second, label);
        let value = series.last();
        let joined = first + second;
        if first.contains(value) {
            let i = choose|i: int| 0 <= i < first.len() && first[i] == value;
            assert(joined[i] == value);
            if second.contains(value) {
                let j = choose|j: int| 0 <= j < second.len() && second[j] == value;
                assert(first[i] != second[j]);
            }
        }
        if second.contains(value) {
            let j = choose|j: int| 0 <= j < second.len() && second[j] == value;
            assert(joined[first.len() + j] == value);
        }
        if joined.contains(value) {
            let m = choose|m: int| 0 <= m < joined.len() && joined[m] == value;
            if m < first.len() {
                assert(first[m] == value);
            } else {
                assert(second[m - first.len()] == value);
            }
        }
    }
}

/// A bin holds the values of the initial bins that went into it, in the
/// order of its lineage, and counts the rows that have one of them.
proof fn lemma_bin_of_lineage<S: WoeScore + Clone>(
    series: Seq<usize>,
    target: Seq<bool>,
    seed: S,
    values: Seq<usize>,
    origin: Seq<WoeBinningCluster<S>>,
    lineage: Lineage<WoeBinningCluster<S>>,
)
    requires
        series.len() == target.len(),
        series.len() <= usize::MAX,
        values.no_duplicates(),
        is_leaf_binning(series, target, seed, values, origin),
        lineage.is_sound(origin),
        lineage.leaves().no_duplicates(),
    ensures
        lineage.cluster().values@ == leaf_values(values, lineage.leaves()),
        lineage.cluster().n1 == count_rows(series, target, lineage.cluster().values@, true),
        lineage.cluster().n0 == count_rows(series, target, lineage.cluster().values@, false),
        lineage.cluster().n == lineage.cluster().n1 + lineage.cluster().n0,
    decreases lineage,
{
    match lineage {
        Lineage::Leaf { index, cluster } => {
            let given = origin[index as int];
            assert(is_leaf_bin(series, target, seed, values[index as int], given));
            assert(cloned(given, cluster));
            assert(cluster.values@ == given.values@);
            assert(cluster.values@ =~= leaf_values(values, lineage.leaves()));
        },
        Lineage::Merged { first, second, cluster } => {
            let leaves1 = first.leaves();
            let leaves2 = second.leaves();
            let joined = leaves1 + leaves2;
            first.lemma_leaves(origin);
            second.lemma_leaves(origin);
            assert forall|i: int, j: int|
                0 <= i < leaves1.len() && 0 <= j < leaves2.len() implies leaves1[i]
                != leaves2[j] by {
                assert(joined[i] == leaves1[i]);
                assert(joined[leaves1.len() + j] == leaves2[j]);
            }
            assert(leaves1.no_duplicates()) by {
                assert forall|i: int, j: int|
                    0 <= i < leaves1.len() && 0 <= j < leaves1.len() && i != j implies leaves1[i]
                    != leaves1[j] by {
                    assert(joined[i] == leaves1[i] && joined[j] == leaves1[j]);
                }
            }
            assert(leaves2.no_duplicates()) by {
                assert forall|i: int, j: int|
                    0 <= i < leaves2.len() && 0 <= j < leaves2.len() && i != j implies leaves2[i]
                    != leaves2[j] by {
                    assert(joined[leaves1.len() + i] == leaves2[i] && joined[leaves1.len() + j]
                        == leaves2[j]);
                }
            }
            lemma_bin_of_lineage(series, target, seed, values, origin, *first);
            lemma_bin_of_lineage(series, target, seed, values, origin, *second);
            let values1 = first.cluster().values@;
            let values2 = second.cluster().values@;
            assert(cluster.values@ == values1 + values2);
            assert(cluster.values@ =~= leaf_values(values, joined));
            assert forall|i: int, j: int|
                0 <= i < values1.len() && 0 <= j < values2.len() implies values1[i]
                != values2[j] by {
                assert(leaves1[i] != leaves2[j]);
            }
            lemma_count_rows_joined(series, target, values1, values2, true);
            lemma_count_rows_joined(series, target, values1, values2, false);
            lemma_counts_bounded(series, target, values1 + values2);
        },
    }
}

/// The counts of the rows that have one value.
#[derive(Clone, Copy)]
struct Tally {
    value: usize,
    n1: usize,
    n0: usize,
}

/// The queue entry by which the tally at place `k` is sorted: its value as
/// the distance, its place as both identifiers.
spec fn sort_entry(tallies: Seq<Tally>, k: int) -> DistanceHeapNode {
    DistanceHeapNode { distance: tallies[k].value as u64, cluster_ids: (k as usize, k as usize) }
}

/// Whether `picked` lists the places `0..len`, each once.
spec fn is_rearrangement(picked: Seq<int>, len: int) -> bool {
    &&& picked.len() == len
    &&& picked.no_duplicates()
    &&& forall|j: int| 0 <= j < picked.len() ==> 0 <= #[trigger] picked[j] < len
    &&& forall|k: int| 0 <= k < len ==> #[trigger] picked.contains(k)
}

/// The tallies in ascending order of their values.
fn sort_tallies(tallies: &Vec<Tally>) -> (sorted: Vec<Tally>)
    ensures
        sorted.len() == tallies.len(),
        forall|i: int, j: int|
            0 <= i < j < sorted.len() ==> sorted[i].value <= sorted[j].value,
        exists|picked: Seq<int>|
            {
                &&& #[trigger] is_rearrangement(picked, tallies.len() as int)
                &&& forall|j: int|
                    0 <= j < sorted.len() ==> #[trigger] sorted[j] == tallies[picked[j]]
            },
{
    let mut heap = DistanceHeap::new();
    let mut k: usize = 0;
    while k < tallies.len()
        invariant
            k <= tallies.len(),
            heap.wf(),
            forall|node: DistanceHeapNode| #[trigger]
                heap@.count(node) > 0 ==> node.cluster_ids.0 < k && node == sort_entry(
                    tallies@,
                    node.cluster_ids.0 as int,
                ),
            forall|i: int| 0 <= i < k ==> heap@.count(#[trigger] sort_entry(tallies@, i)) == 1,
            heap@.len() == k,
        decreases tallies.len() - k,
    {
        let node = DistanceHeapNode { distance: tallies[k].value as u64, cluster_ids: (k, k) };
        assert(node == sort_entry(tallies@, k as int));
        assert(heap@.count(node) == 0);
        heap.push(node);
        k += 1;
    }
    let mut sorted: Vec<Tally> = Vec::new();
    let ghost mut picked: Seq<int> = Seq::empty();
    let mut j: usize = 0;
    while j < tallies.len()
        invariant
            j <= tallies.len(),
            heap.wf(),
            sorted.len() == j,
            picked.len() == j,
            picked.no_duplicates(),
            forall|i: int| 0 <= i < j ==> 0 <= #[trigger] picked[i] < tallies.len(),
            forall|i: int| 0 <= i < j ==> #[trigger] sorted[i] == tallies[picked[i]],
            forall|node: DistanceHeapNode| #[trigger]
                heap@.count(node) > 0 ==> node.cluster_ids.0 < tallies.len() && node == sort_entry(
                    tallies@,
                    node.cluster_ids.0 as int,
                ),
            forall|i: int|
                0 <= i < tallies.len() ==> heap@.count(#[trigger] sort_entry(tallies@, i))
                    == if picked.contains(i) {
                    0nat
                } else {
                    1nat
                },
            forall|a: int, b: int| 0 <= a < b < j ==> sorted[a].value <= sorted[b].value,
            forall|a: int, node: DistanceHeapNode|
                0 <= a < j && heap@.count(node) > 0 ==> (#[trigger] sorted[a]).value
                    <= #[trigger] node.distance,
            heap@.len() + j == tallies.len(),
        decreases tallies.len() - j,
    {
        let ghost queue = heap@;
        let ghost sorted_before = sorted@;
        let popped = heap.pop();
        let node = popped.unwrap();
        let place: usize = node.cluster_ids.0;
        proof {
            assert(queue.count(node) > 0);
            assert(node == sort_entry(tallies@, place as int));
            assert(!picked.contains(place as int));
            let before = picked;
            picked = picked.push(place as int);
            assert forall|i: int| 0 <= i < tallies.len() implies heap@.count(
                #[trigger] sort_entry(tallies@, i),
            ) == if picked.contains(i) {
                0nat
            } else {
                1nat
            } by {
                if i == place {
                    assert(picked[j as int] == i);
                } else {
                    assert(sort_entry(tallies@, i) != node);
                    if before.contains(i) {
                        let m = choose|m: int| 0 <= m < before.len() && before[m] == i;
                        assert(picked[m] == i);
                    }
                    if picked.contains(i) {
                        let m = choose|m: int| 0 <= m < picked.len() && picked[m] == i;
                        assert(before[m] == i);
                    }
                }
            }
        }
        sorted.push(tallies[place]);
        proof {
            assert forall|a: int, b: int| 0 <= a < b < j + 1 implies sorted[a].value
                <= sorted[b].value by {
                assert(sorted[a] == sorted_before[a]);
                if b < j {
                    assert(sorted[b] == sorted_before[b]);
                } else {
                    assert(sorted_before[a].value <= node.distance);
                }
            }
            assert forall|a: int, other: DistanceHeapNode|
                0 <= a < j + 1 && heap@.count(other) > 0 implies (#[trigger] sorted[a]).value
                <= #[trigger] other.distance by {
                assert(queue.count(other) > 0);
                assert(node.not_after(other));
                if a < j {
                    assert(sorted[a] == sorted_before[a]);
                }
            }
        }
        j += 1;
    }
    proof {
        assert(heap@.len() == 0);
        assert forall|k: int| 0 <= k < tallies.len() implies #[trigger] picked.contains(k) by {
            if !picked.contains(k) {
                assert(heap@.count(sort_entry(tallies@, k)) == 1);
            }
        }
        assert(is_rearrangement(picked, tallies.len() as int));
    }
    sorted
}

/// Tallies of the distinct values, sorted, are tallies of the ascending
/// values.
proof fn lemma_sorted_values(series: Seq<usize>, unsorted: Seq<Tally>, sorted: Seq<Tally>)
    requires
        distinct_values(series).no_duplicates(),
        forall|value: usize|
            #![trigger distinct_values(series).contains(value)]
            #![trigger series.contains(value)]
            distinct_values(series).contains(value) <==> series.contains(value),
        unsorted.len() == distinct_values(series).len(),
        forall|k: int|
            0 <= k < unsorted.len() ==> (#[trigger] unsorted[k]).value == distinct_values(series)[k],
        sorted.len() == unsorted.len(),
        forall|i: int, j: int| 0 <= i < j < sorted.len() ==> sorted[i].value <= sorted[j].value,
        exists|picked: Seq<int>|
            {
                &&& #[trigger] is_rearrangement(picked, unsorted.len() as int)
                &&& forall|j: int| 0 <= j < sorted.len() ==> #[trigger] sorted[j] == unsorted[picked[j]]
            },
    ensures
        sorted.len() == ascending_values(series).len(),
        forall|k: int|
            0 <= k < sorted.len() ==> (#[trigger] sorted[k]).value == ascending_values(series)[k],
        is_ascending_values(series, ascending_values(series)),
{
    let picked = choose|picked: Seq<int>|
        {
            &&& #[trigger] is_rearrangement(picked, unsorted.len() as int)
            &&& forall|j: int| 0 <= j < sorted.len() ==> #[trigger] sorted[j] == unsorted[picked[j]]
        };
    let found = distinct_values(series);
    let values = Seq::new(sorted.len(), |k: int| sorted[k].value);
    assert forall|i: int, j: int| 0 <= i < j < values.len() implies values[i] < values[j] by {
        assert(sorted[i].value <= sorted[j].value);
        assert(sorted[i] == unsorted[picked[i]] && sorted[j] == unsorted[picked[j]]);
        assert(picked[i] != picked[j]);
        assert(found[picked[i]] != found[picked[j]]);
    }
    assert forall|value: usize| values.contains(value) <==> series.contains(value) by {
        if values.contains(value) {
            let j = choose|j: int| 0 <= j < values.len() && values[j] == value;
            assert(sorted[j] == unsorted[picked[j]]);
            assert(found[picked[j]] == value);
            assert(found.contains(value));
        }
        if series.contains(value) {
            assert(found.contains(value));
            let k = choose|k: int| 0 <= k < found.len() && found[k] == value;
            assert(picked.contains(k));
            let j = choose|j: int| 0 <= j < picked.len() && picked[j] == k;
            assert(sorted[j] == unsorted[picked[j]]);
            assert(values[j] == value);
        }
    }
    assert(is_ascending_values(series, values));
    lemma_ascending_values_unique(series, values, ascending_values(series));
}

/// A binning of one feature against a binary target, towards a wanted number
/// of bins.
pub struct WoeBinningProc<S: WoeScore + Clone> {
    clusterizer: HierarchicalClusterizer<WoeBinningCluster<S>>,
    desirable_bins_num: usize,
    clusters: Option<Vec<WoeBinningCluster<S>>>,
    smooth: S,
}

impl<S: WoeScore + Clone> WoeBinningProc<S> {
    /// The wanted number of bins.
    pub closed spec fn wanted(&self) -> usize {
        self.desirable_bins_num
    }

    /// The score that initial bins are made with.
    pub closed spec fn seed(&self) -> S {
        self.smooth
    }

    /// The bins that were found, once a data set was processed.
    pub closed spec fn bins(&self) -> Option<Seq<WoeBinningCluster<S>>> {
        match self.clusters {
            Some(clusters) => Some(clusters@),
            None => None,
        }
    }

    /// What the clusterizer of the binning holds.
    pub closed spec fn engine(&self) -> ClusterizerView<WoeBinningCluster<S>> {
        self.clusterizer@
    }

    /// Whether the bins are what the clusterizer has made of the data set,
    /// which has a label for each row: the clusterizer was given the initial
    /// bins, one per distinct value,
    /// sorted by value where `sorted` is set; it ran towards the wanted
    /// number of bins; and the bins are copies of its live clusters, in
    /// ascending order of their identifiers.
    pub open spec fn is_binned(&self, series: Seq<usize>, target: Seq<bool>, sorted: bool) -> bool {
        let engine = self.engine();
        &&& series.len() == target.len()
        &&& series.len() <= usize::MAX
        &&& self.bins() is Some
        &&& engine.ordered == sorted
        &&& engine.inv()
        &&& engine.history_is_sound()
        &&& is_leaf_binning(
            series,
            target,
            self.seed(),
            initial_values(series, sorted),
            engine.history.origin,
        )
        &&& sorted ==> is_ascending_values(series, initial_values(series, sorted))
        &&& exists|ids: Seq<usize>| #[trigger] is_listing(ids, engine.clusters, self.bins().unwrap())
        &&& exists|
            start: ClusterizerView<WoeBinningCluster<S>>,
            trace: Seq<ClusterizerView<WoeBinningCluster<S>>>,
        |
            {
                &&& #[trigger] start.is_run(trace, engine, self.wanted())
                &&& start.is_initial(engine.history.origin)
                &&& start.ordered == sorted
                &&& start.inv()
            }
    }

    /// Whether the bin at place `k` holds the values of the initial bins that
    /// went into the live cluster under the identifier `id`, and the counts
    /// of the rows that have one of them.
    spec fn is_read_off_at(
        &self,
        series: Seq<usize>,
        target: Seq<bool>,
        sorted: bool,
        id: usize,
        k: int,
    ) -> bool {
        let engine = self.engine();
        let bin = self.bins().unwrap()[k];
        let values = initial_values(series, sorted);
        &&& engine.clusters.contains_key(id)
        &&& bin.values@ == leaf_values(values, engine.leaves_of(id))
        &&& engine.leaves_of(id).len() > 0
        &&& forall|j: int|
            0 <= j < engine.leaves_of(id).len() ==> #[trigger] engine.leaves_of(id)[j]
                < values.len()
        &&& bin.n1 == count_rows(series, target, bin.values@, true)
        &&& bin.n0 == count_rows(series, target, bin.values@, false)
        &&& bin.n == bin.n1 + bin.n0
    }

    /// Whether `ids` lists the live identifiers, the values of the initial
    /// bins are those of the data set, each once, and each bin can be read
    /// off the lineage of the cluster at its place.
    spec fn is_read_off(
        &self,
        series: Seq<usize>,
        target: Seq<bool>,
        sorted: bool,
        ids: Seq<usize>,
    ) -> bool {
        let engine = self.engine();
        let bins = self.bins().unwrap();
        let values = initial_values(series, sorted);
        &&& is_listing(ids, engine.clusters, bins)
        &&& values.no_duplicates()
        &&& values.len() == engine.history.origin.len()
        &&& forall|value: usize|
            #![trigger values.contains(value)]
            #![trigger series.contains(value)]
            values.contains(value) <==> series.contains(value)
        &&& forall|k: int|
            0 <= k < bins.len() ==> #[trigger] self.is_read_off_at(
                series,
                target,
                sorted,
                ids[k],
                k,
            )
    }

    /// A copy of a live cluster can be read off the lineage of that cluster.
    proof fn lemma_read_off_at(
        &self,
        series: Seq<usize>,
        target: Seq<bool>,
        sorted: bool,
        id: usize,
        k: int,
    )
        requires
            series.len() == target.len(),
            series.len() <= usize::MAX,
            self.bins() is Some,
            0 <= k < self.bins().unwrap().len(),
            initial_values(series, sorted).no_duplicates(),
            is_leaf_binning(
                series,
                target,
                self.seed(),
                initial_values(series, sorted),
                self.engine().history.origin,
            ),
            self.engine().clusters.contains_key(id),
            self.engine().history.lineage[id].cluster() == self.engine().clusters[id],
            self.engine().history.lineage[id].is_sound(self.engine().history.origin),
            self.engine().leaves_of(id).no_duplicates(),
            cloned(self.engine().clusters[id], self.bins().unwrap()[k]),
        ensures
            self.is_read_off_at(series, target, sorted, id, k),
    {
        let engine = self.engine();
        let lineage = engine.history.lineage[id];
        lineage.lemma_leaves(engine.history.origin);
        lemma_bin_of_lineage(
            series,
            target,
            self.seed(),
            initial_values(series, sorted),
            engine.history.origin,
            lineage,
        );
    }

    /// The bins of a processed data set can be read off the history of the
    /// clusterizer.
    proof fn lemma_read_off(&self, series: Seq<usize>, target: Seq<bool>, sorted: bool) -> (ids:
        Seq<usize>)
        requires
            self.is_binned(series, target, sorted),
        ensures
            self.is_read_off(series, target, sorted, ids),
    {
        let engine = self.engine();
        let bins = self.bins().unwrap();
        let values = initial_values(series, sorted);
        let ids = choose|ids: Seq<usize>| #[trigger] is_listing(ids, engine.clusters, bins);
        if sorted {
            assert(values.no_duplicates());
        } else {
            lemma_distinct_values(series);
        }
        assert forall|k: int| 0 <= k < bins.len() implies #[trigger] self.is_read_off_at(
            series,
            target,
            sorted,
            ids[k],
            k,
        ) by {
            let id = ids[k];
            assert(ids.contains(id));
            assert(engine.clusters.contains_key(id));
            assert(cloned(engine.clusters[id], bins[k]));
            self.lemma_read_off_at(series, target, sorted, id, k);
        }
        ids
    }

    /// The number of bins that were found.
    pub open spec fn bins_num(&self) -> nat {
        self.bins().unwrap().len()
    }

    /// The values of the bin at place `k`.
    pub open spec fn values_of(&self, k: int) -> Seq<usize> {
        self.bins().unwrap()[k].values@
    }

    /// The counts of a bin are the counts of the rows that have one of its
    /// values, and no bin is without a value.
    pub proof fn lemma_bins_count_rows(&self, series: Seq<usize>, target: Seq<bool>, sorted: bool)
        requires
            self.is_binned(series, target, sorted),
        ensures
            forall|k: int|
                0 <= k < self.bins_num() ==> {
                    let bin = #[trigger] self.bins().unwrap()[k];
                    &&& bin.values@.len() > 0
                    &&& bin.n1 == count_rows(series, target, bin.values@, true)
                    &&& bin.n0 == count_rows(series, target, bin.values@, false)
                    &&& bin.n == bin.n1 + bin.n0
                },
    {
        let ids = self.lemma_read_off(series, target, sorted);
        assert forall|k: int| 0 <= k < self.bins().unwrap().len() implies {
            let bin = #[trigger] self.bins().unwrap()[k];
            &&& bin.values@.len() > 0
            &&& bin.n1 == count_rows(series, target, bin.values@, true)
            &&& bin.n0 == count_rows(series, target, bin.values@, false)
            &&& bin.n == bin.n1 + bin.n0
        } by {
            assert(self.is_read_off_at(series, target, sorted, ids[k], k));
        }
    }

    /// The bins part the values of the data set among them: a bin holds
    /// values of the data set alone, and each value of the data set is held
    /// by one bin, at one place.
    pub proof fn lemma_bins_partition(&self, series: Seq<usize>, target: Seq<bool>, sorted: bool)
        requires
            self.is_binned(series, target, sorted),
        ensures
            forall|k: int, j: int|
                0 <= k < self.bins_num() && 0 <= j < self.values_of(k).len()
                    ==> series.contains(#[trigger] self.values_of(k)[j]),
            forall|value: usize|
                series.contains(value) ==> exists|k: int, j: int|
                    0 <= k < self.bins_num() && 0 <= j < self.values_of(k).len()
                        && #[trigger] self.values_of(k)[j] == value,
            forall|k1: int, j1: int, k2: int, j2: int|
                0 <= k1 < self.bins_num() && 0 <= j1 < self.values_of(k1).len()
                    && 0 <= k2 < self.bins_num() && 0 <= j2 < self.values_of(k2).len()
                    && #[trigger] self.values_of(k1)[j1]
                    == #[trigger] self.values_of(k2)[j2] ==> k1 == k2 && j1 == j2,
    {
        let ids = self.lemma_read_off(series, target, sorted);
        let engine = self.engine();
        let bins = self.bins().unwrap();
        let values = initial_values(series, sorted);
        assert forall|k: int, j: int|
            0 <= k < self.bins_num() && 0 <= j < self.values_of(k).len() implies series.contains(
            #[trigger] self.values_of(k)[j],
        ) by {
            assert(self.is_read_off_at(series, target, sorted, ids[k], k));
            let leaf = engine.leaves_of(ids[k])[j];
            assert(self.values_of(k)[j] == values[leaf as int]);
            assert(values.contains(values[leaf as int]));
        }
        assert forall|value: usize| series.contains(value) implies exists|k: int, j: int|
            0 <= k < self.bins_num() && 0 <= j < self.values_of(k).len()
                && #[trigger] self.values_of(k)[j] == value by {
            assert(values.contains(value));
            let i = choose|i: int| 0 <= i < values.len() && values[i] == value;
            let id = engine.history.owner[i];
            assert(engine.clusters.contains_key(id));
            assert(ids.contains(id));
            let k = choose|k: int| 0 <= k < ids.len() && ids[k] == id;
            assert(self.is_read_off_at(series, target, sorted, ids[k], k));
            assert(engine.leaves_of(id).contains(i as usize));
            let j = choose|j: int|
                0 <= j < engine.leaves_of(id).len() && engine.leaves_of(id)[j] == i as usize;
            assert(self.values_of(k)[j] == value);
        }
        assert forall|k1: int, j1: int, k2: int, j2: int|
            0 <= k1 < self.bins_num() && 0 <= j1 < self.values_of(k1).len()
                && 0 <= k2 < self.bins_num() && 0 <= j2 < self.values_of(k2).len()
                && #[trigger] self.values_of(k1)[j1]
                == #[trigger] self.values_of(k2)[j2] implies k1 == k2 && j1 == j2 by {
            assert(self.is_read_off_at(series, target, sorted, ids[k1], k1));
            assert(self.is_read_off_at(series, target, sorted, ids[k2], k2));
            let leaf1 = engine.leaves_of(ids[k1])[j1];
            let leaf2 = engine.leaves_of(ids[k2])[j2];
            assert(values[leaf1 as int] == values[leaf2 as int]);
            assert(leaf1 == leaf2);
            assert(engine.history.owner[leaf1 as int] == ids[k1]);
            assert(engine.history.owner[leaf2 as int] == ids[k2]);
            if k1 < k2 {
                assert(ids[k1] < ids[k2]);
            }
            if k2 < k1 {
                assert(ids[k2] < ids[k1]);
            }
        }
    }

    /// After `process_numeric` each bin holds a run of the values of the
    /// data set: its values ascend, and a value of the data set that lies
    /// between two values of a bin is a value of that bin.
    pub proof fn lemma_bins_contiguous(&self, series: Seq<usize>, target: Seq<bool>)
        requires
            self.is_binned(series, target, true),
        ensures
            forall|k: int, i: int, j: int|
                0 <= k < self.bins_num() && 0 <= i < j < self.values_of(k).len()
                    ==> #[trigger] self.values_of(k)[i]
                    < #[trigger] self.values_of(k)[j],
            forall|k: int, value: usize|
                0 <= k < self.bins_num() && series.contains(value) && self.values_of(k).first()
                    <= value <= self.values_of(k).last()
                    ==> #[trigger] self.values_of(k).contains(value),
    {
        let ids = self.lemma_read_off(series, target, true);
        let engine = self.engine();
        let bins = self.bins().unwrap();
        let values = initial_values(series, true);
        assert forall|k: int, i: int, j: int|
            0 <= k < self.bins_num() && 0 <= i < j < self.values_of(k).len()
                implies #[trigger] self.values_of(k)[i] < #[trigger] self.values_of(k)[j] by {
            assert(self.is_read_off_at(series, target, true, ids[k], k));
            let leaves = engine.leaves_of(ids[k]);
            assert(is_consecutive(leaves));
            assert(leaves[i] == leaves[0] + i && leaves[j] == leaves[0] + j);
            assert(values[leaves[i] as int] < values[leaves[j] as int]);
        }
        assert forall|k: int, value: usize|
            0 <= k < self.bins_num() && series.contains(value) && self.values_of(k).first() <= value
                <= self.values_of(k).last() implies #[trigger] self.values_of(k).contains(value) by {
            assert(self.is_read_off_at(series, target, true, ids[k], k));
            let leaves = engine.leaves_of(ids[k]);
            assert(is_consecutive(leaves));
            let low = leaves[0] as int;
            let high = leaves[leaves.len() - 1] as int;
            assert(high == low + leaves.len() - 1);
            assert(self.values_of(k).first() == values[low]);
            assert(self.values_of(k).last() == values[high]);
            assert(values.contains(value));
            let i = choose|i: int| 0 <= i < values.len() && values[i] == value;
            if i < low {
                assert(values[i] < values[low]);
            }
            if i > high {
                assert(values[high] < values[i]);
            }
            assert(leaves[i - low] == i);
            assert(self.values_of(k)[i - low] == value);
        }
    }

    /// There are no more bins than the data set has values. There are as
    /// many where those are no more than the wanted number; else there are no
    /// fewer bins than wanted, and more only where no two bins were left
    /// that may be merged.
    pub proof fn lemma_bins_number(&self, series: Seq<usize>, target: Seq<bool>, sorted: bool)
        requires
            self.is_binned(series, target, sorted),
        ensures
            self.bins_num() <= initial_values(series, sorted).len(),
            initial_values(series, sorted).len() <= self.wanted() ==> self.bins_num()
                == initial_values(series, sorted).len(),
            initial_values(series, sorted).len() > self.wanted() ==> self.bins_num()
                >= self.wanted(),
            self.bins_num() > self.wanted() ==> forall|node: DistanceHeapNode|
                !self.engine().is_candidate(node),
    {
        let engine = self.engine();
        let bins = self.bins().unwrap();
        let ids = choose|ids: Seq<usize>| #[trigger] is_listing(ids, engine.clusters, bins);
        let (start, trace) = choose|
            start: ClusterizerView<WoeBinningCluster<S>>,
            trace: Seq<ClusterizerView<WoeBinningCluster<S>>>,
        |
            {
                &&& #[trigger] start.is_run(trace, engine, self.wanted())
                &&& start.is_initial(engine.history.origin)
                &&& start.ordered == sorted
                &&& start.inv()
            };
        lemma_run_ends(start, trace, engine, self.wanted());
        crate::hierarchical_clusterizer::lemma_listing_len(ids, engine.clusters, bins);
        crate::hierarchical_clusterizer::lemma_initial_len(start, engine.history.origin);
    }

    /// Where the score gives every two bins a distance, and at least one bin
    /// is wanted, there are as many bins as the data set has values or as
    /// are wanted, whichever is less.
    pub proof fn lemma_bins_number_exact(
        &self,
        series: Seq<usize>,
        target: Seq<bool>,
        sorted: bool,
    )
        requires
            self.is_binned(series, target, sorted),
            self.wanted() >= 1,
            forall|score1: S, n_1: usize, score2: S, n_2: usize|
                !#[trigger] may_stay_apart(score1, n_1, score2, n_2),
        ensures
            self.bins_num() == if initial_values(series, sorted).len() <= self.wanted() {
                initial_values(series, sorted).len()
            } else {
                self.wanted() as nat
            },
    {
        self.lemma_bins_number(series, target, sorted);
        let engine = self.engine();
        let bins = self.bins().unwrap();
        if bins.len() > self.wanted() {
            let ids = choose|ids: Seq<usize>| #[trigger] is_listing(ids, engine.clusters, bins);
            crate::hierarchical_clusterizer::lemma_listing_len(ids, engine.clusters, bins);
            assert(ids.contains(ids[0]) && ids.contains(ids[1]));
            let (id1, id2) = if sorted {
                engine.chain.unique_seq_to_set();
                assert(engine.chain.to_set() =~= engine.clusters.dom());
                assert(engine.chain.contains(engine.chain[0]) && engine.chain.contains(
                    engine.chain[1],
                ));
                (engine.chain[0], engine.chain[1])
            } else {
                (ids[0], ids[1])
            };
            crate::hierarchical_clusterizer::lemma_none_admissible(engine, id1, id2);
            let bin1 = engine.clusters[id1];
            let bin2 = engine.clusters[id2];
            assert(may_stay_apart(bin1.score, bin1.n, bin2.score, bin2.n));
        }
    }

    /// Whether `num` is what `get_bins_num` returns.
    pub open spec fn is_bins_num(&self, num: Option<usize>) -> bool {
        match self.bins() {
            Some(bins) => num == Some(bins.len() as usize),
            None => num is None,
        }
    }

    /// Whether `array` is what `get_bins_array` returns.
    pub open spec fn is_bins_array(&self, array: Option<Vec<Vec<usize>>>) -> bool {
        match self.bins() {
            Some(bins) => array is Some && array.unwrap().len() == bins.len() && forall|k: int|
                0 <= k < bins.len() ==> (#[trigger] array.unwrap()[k])@ == bins[k].values@,
            None => array is None,
        }
    }

    /// Whether `sizes` is what `get_size_array` returns.
    pub open spec fn is_size_array(&self, sizes: Option<Vec<usize>>) -> bool {
        match self.bins() {
            Some(bins) => sizes is Some && sizes.unwrap().len() == bins.len() && forall|k: int|
                0 <= k < bins.len() ==> #[trigger] sizes.unwrap()[k] == bins[k].values.len(),
            None => sizes is None,
        }
    }

    /// The number of bins is the length of the array of bins and of the
    /// array of sizes, and the size of a bin is the number of its values.
    pub proof fn lemma_arrays_agree(
        &self,
        num: Option<usize>,
        array: Option<Vec<Vec<usize>>>,
        sizes: Option<Vec<usize>>,
    )
        requires
            self.is_bins_num(num),
            self.is_bins_array(array),
            self.is_size_array(sizes),
        ensures
            num is Some <==> array is Some,
            num is Some <==> sizes is Some,
            num is Some ==> num.unwrap() == array.unwrap().len() && num.unwrap()
                == sizes.unwrap().len(),
            num is Some ==> forall|k: int|
                0 <= k < num.unwrap() ==> #[trigger] sizes.unwrap()[k] == array.unwrap()[k].len(),
    {
    }

    /// A binning towards `desirable_bins_num` bins, whose initial bins get
    /// their scores from `smooth`. Nothing is processed yet.
    pub fn new(desirable_bins_num: usize, smooth: S) -> (proc: Self)
        ensures
            proc.wanted() == desirable_bins_num,
            proc.seed() == smooth,
            proc.bins() is None,
    {
        Self {
            clusterizer: HierarchicalClusterizer::<WoeBinningCluster<S>>::new(),
            desirable_bins_num,
            clusters: None,
            smooth,
        }
    }

    /// Bins a feature whose values have no order: any two bins may be merged.
    ///
    /// To process a second data set is a misuse.
    pub fn process_categorial(&mut self, series: &[usize], target: &[bool])
        requires
            old(self).bins() is None,
            series.len() == target.len(),
            2 * series.len() <= usize::MAX,
        ensures
            final(self).wanted() == old(self).wanted(),
            final(self).seed() == old(self).seed(),
            final(self).is_binned(series@, target@, false),
    {
        self._process(series, target, false);
    }

    /// Bins a feature whose values are ordered: the initial bins are sorted
    /// by value, and only bins that are neighbours are merged.
    ///
    /// To process a second data set is a misuse.
    pub fn process_numeric(&mut self, series: &[usize], target: &[bool])
        requires
            old(self).bins() is None,
            series.len() == target.len(),
            2 * series.len() <= usize::MAX,
        ensures
            final(self).wanted() == old(self).wanted(),
            final(self).seed() == old(self).seed(),
            final(self).is_binned(series@, target@, true),
    {
        self._process(series, target, true);
    }

    /// Collects the initial bins, sorted by value where `sorted` is set, and
    /// lets the clusterizer merge them towards the wanted number, in ordered
    /// mode where `sorted` is set.
    fn _process(&mut self, series: &[usize], target: &[bool], sorted: bool)
        requires
            series.len() == target.len(),
            2 * series.len() <= usize::MAX,
        ensures
            final(self).wanted() == old(self).wanted(),
            final(self).seed() == old(self).seed(),
            final(self).is_binned(series@, target@, sorted),
    {
        let initial_clusters = self._collect_clusters(series, target, sorted);
        self.clusterizer.set_1d_opt(sorted);
        self.clusterizer.initialize(initial_clusters.as_slice());
        let ghost start = self.clusterizer@;
        proof {
            self.clusterizer.lemma_wf_inv();
        }
        self.clusterizer.clusterize(self.desirable_bins_num);
        let clusters = self.clusterizer.get_clusters();
        let ghost engine = self.clusterizer@;
        let ghost trace = choose|trace: Seq<ClusterizerView<WoeBinningCluster<S>>>| #[trigger]
            start.is_run(trace, engine, self.desirable_bins_num);
        let ghost ids = choose|ids: Seq<usize>| #[trigger]
            is_listing(ids, engine.clusters, clusters@);
        proof {
            self.clusterizer.lemma_wf_inv();
        }
        self.clusters = Some(clusters);
        proof {
            assert(self.engine() == engine);
            assert(is_listing(ids, engine.clusters, self.bins().unwrap()));
            assert(start.is_run(trace, engine, self.wanted()));
        }
    }

    /// Whether a data set was processed.
    pub fn is_done(&self) -> (done: bool)
        ensures
            done == (self.bins() is Some),
    {
        self.clusters.is_some()
    }

    /// The number of bins, once a data set was processed.
    pub fn get_bins_num(&self) -> (num: Option<usize>)
        ensures
            self.is_bins_num(num),
    {
        match &self.clusters {
            Some(clusters) => Some(clusters.len()),
            None => None,
        }
    }

    /// The values of each bin, once a data set was processed.
    pub fn get_bins_array(&self) -> (array: Option<Vec<Vec<usize>>>)
        ensures
            self.is_bins_array(array),
    {
        match &self.clusters {
            Some(clusters) => {
                let mut array: Vec<Vec<usize>> = Vec::new();
                let mut k: usize = 0;
                while k < clusters.len()
                    invariant
                        k <= clusters.len(),
                        array.len() == k,
                        forall|j: int| 0 <= j < k ==> (#[trigger] array[j])@ == clusters[j].values@,
                    decreases clusters.len() - k,
                {
                    let values = clusters[k].values.clone();
                    assert(values@ =~= clusters[k as int].values@);
                    array.push(values);
                    k += 1;
                }
                Some(array)
            },
            None => None,
        }
    }

    /// The number of values of each bin, once a data set was processed.
    pub fn get_size_array(&self) -> (sizes: Option<Vec<usize>>)
        ensures
            self.is_size_array(sizes),
    {
        match &self.clusters {
            Some(clusters) => {
                let mut sizes: Vec<usize> = Vec::new();
                let mut k: usize = 0;
                while k < clusters.len()
                    invariant
                        k <= clusters.len(),
                        sizes.len() == k,
                        forall|j: int| 0 <= j < k ==> #[trigger] sizes[j] == clusters[j].values.len(),
                    decreases clusters.len() - k,
                {
                    sizes.push(clusters[k].values.len());
                    k += 1;
                }
                Some(sizes)
            },
            None => None,
        }
    }

    /// The values of the bin at place `idx`, once a data set was processed.
    pub fn get_bin_values(&self, idx: usize) -> (values: Option<Vec<usize>>)
        requires
            self.bins() is Some ==> idx < self.bins().unwrap().len(),
        ensures
            match self.bins() {
                Some(bins) => values is Some && values.unwrap()@ == bins[idx as int].values@,
                None => values is None,
            },
    {
        match &self.clusters {
            Some(clusters) => {
                let values = clusters[idx].values.clone();
                assert(values@ =~= clusters[idx as int].values@);
                Some(values)
            },
            None => None,
        }
    }

    /// The rows, the rows with label `true` and the rows with label `false`
    /// of each bin, once a data set was processed.
    pub fn get_count_array(&self) -> (counts: Option<Vec<(usize, usize, usize)>>)
        ensures
            match self.bins() {
                Some(bins) => counts is Some && counts.unwrap().len() == bins.len() && forall|
                    k: int,
                |
                    0 <= k < bins.len() ==> #[trigger] counts.unwrap()[k] == (
                        bins[k].n,
                        bins[k].n1,
                        bins[k].n0,
                    ),
                None => counts is None,
            },
    {
        match &self.clusters {
            Some(clusters) => {
                let mut counts: Vec<(usize, usize, usize)> = Vec::new();
                let mut k: usize = 0;
                while k < clusters.len()
                    invariant
                        k <= clusters.len(),
                        counts.len() == k,
                        forall|j: int|
                            0 <= j < k ==> #[trigger] counts[j] == (
                                clusters[j].n,
                                clusters[j].n1,
                                clusters[j].n0,
                            ),
                    decreases clusters.len() - k,
                {
                    counts.push((clusters[k].n, clusters[k].n1, clusters[k].n0));
                    k += 1;
                }
                Some(counts)
            },
            None => None,
        }
    }

    /// A copy of the score of each bin, once a data set was processed.
    pub fn get_score_array(&self) -> (scores: Option<Vec<S>>)
        ensures
            match self.bins() {
                Some(bins) => scores is Some && scores.unwrap().len() == bins.len() && forall|
                    k: int,
                |
                    0 <= k < bins.len() ==> cloned(bins[k].score, #[trigger] scores.unwrap()[k]),
                None => scores is None,
            },
    {
        match &self.clusters {
            Some(clusters) => {
                let mut scores: Vec<S> = Vec::new();
                let mut k: usize = 0;
                while k < clusters.len()
                    invariant
                        k <= clusters.len(),
                        scores.len() == k,
                        forall|j: int|
                            0 <= j < k ==> cloned(clusters[j].score, #[trigger] scores[j]),
                    decreases clusters.len() - k,
                {
                    scores.push(clusters[k].score.clone());
                    k += 1;
                }
                Some(scores)
            },
            None => None,
        }
    }

    /// Groups the rows by their value into initial bins, one per distinct
    /// value: in ascending order of the values where `sorted` is set, and else
    /// in the order in which the values first occur.
    fn _collect_clusters(&self, series: &[usize], target: &[bool], sorted: bool) -> (bins: Vec<
        WoeBinningCluster<S>,
    >)
        requires
            series.len() == target.len(),
        ensures
            is_leaf_binning(
                series@,
                target@,
                self.smooth,
                initial_values(series@, sorted),
                bins@,
            ),
            bins.len() <= series.len(),
            sorted ==> is_ascending_values(series@, initial_values(series@, sorted)),
    {
        // Statistics for values in series
        let mut slots: HashMap<usize, usize> = HashMap::new();
        let mut tallies: Vec<Tally> = Vec::new();
        // Counts of 1 and 0 targets
        let mut c1: usize = 0;
        let mut c0: usize = 0;
        // Collect statistics
        let mut idx: usize = 0;
        while idx < series.len()
            invariant
                idx <= series.len(),
                series.len() == target.len(),
                tallies.len() == distinct_values(series@.take(idx as int)).len(),
                forall|k: int|
                    0 <= k < tallies.len() ==> {
                        let tally = #[trigger] tallies[k];
                        &&& tally.value == distinct_values(series@.take(idx as int))[k]
                        &&& tally.n1 == count_rows(
                            series@.take(idx as int),
                            target@.take(idx as int),
                            seq![tally.value],
                            true,
                        )
                        &&& tally.n0 == count_rows(
                            series@.take(idx as int),
                            target@.take(idx as int),
                            seq![tally.value],
                            false,
                        )
                    },
                forall|value: usize| #[trigger]
                    slots@.contains_key(value) <==> distinct_values(
                        series@.take(idx as int),
                    ).contains(value),
                forall|value: usize| #[trigger]
                    slots@.contains_key(value) ==> slots@[value] < tallies.len()
                        && tallies[slots@[value] as int].value == value,
                c1 == count_label(target@.take(idx as int), true),
                c0 == count_label(target@.take(idx as int), false),
            decreases series.len() - idx,
        {
            let value: usize = series[idx];
            let ghost before = series@.take(idx as int);
            let ghost labels_before = target@.take(idx as int);
            let ghost now = series@.take(idx + 1);
            let ghost labels_now = target@.take(idx + 1);
            let ghost tallies_before = tallies@;
            proof {
                assert(now.drop_last() =~= before);
                assert(labels_now.drop_last() =~= labels_before);
                assert(now.last() == value);
                lemma_distinct_values(before);
                lemma_labels_bounded(labels_before);
            }
            let known: Option<usize> = match slots.get(&value) {
                Some(slot) => Some(*slot),
                None => None,
            };
            let slot: usize = match known {
                Some(slot) => slot,
                None => {
                    let slot: usize = tallies.len();
                    slots.insert(value, slot);
                    tallies.push(Tally { value, n1: 0, n0: 0 });
                    proof {
                        lemma_counts_absent(before, labels_before, value);
                    }
                    slot
                },
            };
            let mut tally: Tally = tallies[slot];
            proof {
                lemma_counts_bounded(before, labels_before, seq![value]);
            }
            if target[idx] {
                tally.n1 += 1;
                c1 += 1;
            } else {
                tally.n0 += 1;
                c0 += 1;
            }
            tallies[slot] = tally;
            proof {
                let found = distinct_values(now);
                assert forall|k: int| 0 <= k < tallies.len() implies {
                    let tally = #[trigger] tallies[k];
                    &&& tally.value == found[k]
                    &&& tally.n1 == count_rows(now, labels_now, seq![tally.value], true)
                    &&& tally.n0 == count_rows(now, labels_now, seq![tally.value], false)
                } by {
                    let other = tallies[k].value;
                    assert(seq![other].contains(value) <==> other == value) by {
                        if other == value {
                            assert(seq![other][0] == value);
                        }
                    }
                    if k != slot {
                        assert(tallies[k] == tallies_before[k]);
                        assert(other != value) by {
                            if other == value {
                                assert(distinct_values(before)[k] == value);
                                assert(distinct_values(before).contains(value));
                            }
                        }
                    }
                }
                assert forall|other: usize| #[trigger]
                    slots@.contains_key(other) <==> found.contains(other) by {
                    if other == value {
                        assert(found[slot as int] == value);
                    } else {
                        if found.contains(other) {
                            let j = choose|j: int| 0 <= j < found.len() && found[j] == other;
                            assert(distinct_values(before)[j] == other);
                        }
                        if distinct_values(before).contains(other) {
                            let j = choose|j: int|
                                0 <= j < distinct_values(before).len() && distinct_values(
                                    before,
                                )[j] == other;
                            assert(found[j] == other);
                        }
                    }
                }
            }
            idx += 1;
        }
        assert(series@.take(idx as int) =~= series@);
        assert(target@.take(idx as int) =~= target@);
        proof {
            lemma_distinct_values(series@);
        }
        if sorted {
            let ghost unsorted = tallies@;
            tallies = sort_tallies(&tallies);
            proof {
                lemma_sorted_values(series@, unsorted, tallies@);
            }
        }
        let ghost values = initial_values(series@, sorted);
        // Calculate the score of each value from its counts and the totals
        let mut bins: Vec<WoeBinningCluster<S>> = Vec::new();
        let mut k: usize = 0;
        while k < tallies.len()
            invariant
                k <= tallies.len(),
                series.len() == target.len(),
                values == initial_values(series@, sorted),
                tallies.len() == values.len(),
                forall|k: int|
                    0 <= k < tallies.len() ==> {
                        let tally = #[trigger] tallies[k];
                        &&& tally.value == values[k]
                        &&& tally.n1 == count_rows(series@, target@, seq![tally.value], true)
                        &&& tally.n0 == count_rows(series@, target@, seq![tally.value], false)
                    },
                c1 == count_label(target@, true),
                c0 == count_label(target@, false),
                bins.len() == k,
                forall|j: int|
                    0 <= j < k ==> is_leaf_bin(
                        series@,
                        target@,
                        self.smooth,
                        values[j],
                        #[trigger] bins[j],
                    ),
            decreases tallies.len() - k,
        {
            let tally: Tally = tallies[k];
            proof {
                lemma_counts_bounded(series@, target@, seq![tally.value]);
            }
            let score = self.smooth.leaf(tally.n1, tally.n0, c1, c0);
            let bin = WoeBinningCluster {
                n: tally.n1 + tally.n0,
                n1: tally.n1,
                n0: tally.n0,
                values: vec![tally.value],
                score,
            };
            proof {
                assert(bin.values@ =~= seq![tally.value]);
                assert(is_leaf_bin(series@, target@, self.smooth, tally.value, bin));
            }
            let ghost bins_before = bins@;
            bins.push(bin);
            assert forall|j: int| 0 <= j < k + 1 implies is_leaf_bin(
                series@,
                target@,
                self.smooth,
                values[j],
                #[trigger] bins[j],
            ) by {
                if j < k {
                    assert(bins[j] == bins_before[j]);
                }
            }
            k += 1;
        }
        bins
    }
}

/// No row is counted for a value that does not occur.
proof fn lemma_counts_absent(series: Seq<usize>, target: Seq<bool>, value: usize)
    requires
        !series.contains(value),
    ensures
        count_rows(series, target, seq![value], true) == 0,
        count_rows(series, target, seq![value], false) == 0,
    decreases series.len(),
{
    if series.len() > 0 && target.len() > 0 {
        let earlier = series.drop_last();
        assert forall|i: int| 0 <= i < earlier.len() implies earlier[i] != value by {
            assert(series[i] == earlier[i]);
            assert(series.contains(series[i]));
        }
        lemma_counts_absent(earlier, target.drop_last(), value);
        assert(series.contains(series.last()));
        assert(!seq![value].contains(series.last())) by {
            if seq![value].contains(series.last()) {
                let j = choose|j: int| 0 <= j < seq![value].len() && seq![value][j] == series.last();
                assert(false);
            }
        }
    }
}

} // verus!
