//! Two binnings of one data set agree.
//!
//! Where the score is a function of what it is made of, the bins that a
//! binning finds are a function of the data set, of the wanted number of bins
//! and of the score that the binning was made with.
use crate::distance_heap::DistanceHeapNode;
use crate::hierarchical_clusterizer::candidate;
use crate::hierarchical_clusterizer::ClusterizerView;
use crate::hierarchical_clusterizer::is_listing;
use crate::woe_binning_proc::initial_values;
use crate::woe_binning_proc::is_leaf_bin;
use crate::woe_binning_proc::lemma_ascending_values_unique;
use crate::woe_binning_proc::WoeBinningCluster;
use crate::woe_binning_proc::WoeBinningProc;
use crate::woe_binning_proc::WoeScore;
use vstd::prelude::*;

verus! {

/// Whether `made` may be the score of an initial bin with these counts.
pub open spec fn is_leaf_score<S: WoeScore>(
    seed: S,
    n1: usize,
    n0: usize,
    total1: usize,
    total0: usize,
    made: S,
) -> bool {
    call_ensures(S::leaf, (&seed, n1, n0, total1, total0), made)
}

/// Whether `made` may be the score of the merge of these two bins.
pub open spec fn is_merged_score<S: WoeScore>(
    score1: S,
    n_1: usize,
    score2: S,
    n_2: usize,
    made: S,
) -> bool {
    call_ensures(S::merge, (&score1, n_1, &score2, n_2), made)
}

/// Whether `distance` may be what is found between these two bins.
pub open spec fn is_score_distance<S: WoeScore>(
    score1: S,
    n_1: usize,
    score2: S,
    n_2: usize,
    distance: Option<u64>,
) -> bool {
    call_ensures(S::distance, (&score1, n_1, &score2, n_2), distance)
}

/// Whether the score is a function of what it is made of: the score of an
/// initial bin, the score of a merge and the distance between two bins are
/// given by their arguments, and a copy of a score is that score.
pub open spec fn is_function_of_arguments<S: WoeScore + Clone>() -> bool {
    &&& forall|seed: S, n1: usize, n0: usize, total1: usize, total0: usize, made1: S, made2: S|
        #![trigger
            is_leaf_score(seed, n1, n0, total1, total0, made1),
            is_leaf_score(seed, n1, n0, total1, total0, made2),
        ]
        is_leaf_score(seed, n1, n0, total1, total0, made1) && is_leaf_score(
            seed,
            n1,
            n0,
            total1,
            total0,
            made2,
        ) ==> made1 == made2
    &&& forall|score1: S, n_1: usize, score2: S, n_2: usize, made1: S, made2: S|
        #![trigger
            is_merged_score(score1, n_1, score2, n_2, made1),
            is_merged_score(score1, n_1, score2, n_2, made2),
        ]
        is_merged_score(score1, n_1, score2, n_2, made1) && is_merged_score(
            score1,
            n_1,
            score2,
            n_2,
            made2,
        ) ==> made1 == made2
    &&& forall|
        score1: S,
        n_1: usize,
        score2: S,
        n_2: usize,
        found1: Option<u64>,
        found2: Option<u64>,
    |
        #![trigger
            is_score_distance(score1, n_1, score2, n_2, found1),
            is_score_distance(score1, n_1, score2, n_2, found2),
        ]
        is_score_distance(score1, n_1, score2, n_2, found1) && is_score_distance(
            score1,
            n_1,
            score2,
            n_2,
            found2,
        ) ==> found1 == found2
    &&& forall|score: S, copy: S| #[trigger] cloned(score, copy) ==> score == copy
}

/// Whether two bins have the same counts, the same values and the same score.
pub open spec fn is_alike<S>(bin1: WoeBinningCluster<S>, bin2: WoeBinningCluster<S>) -> bool {
    &&& bin1.n == bin2.n
    &&& bin1.n1 == bin2.n1
    &&& bin1.n0 == bin2.n0
    &&& bin1.values@ == bin2.values@
    &&& bin1.score == bin2.score
}

/// Whether two clusterizers are in the same state: the same mode, identifiers,
/// chain and queue, and bins that are alike under each identifier.
pub open spec fn is_same_state<S: WoeScore + Clone>(
    view1: ClusterizerView<WoeBinningCluster<S>>,
    view2: ClusterizerView<WoeBinningCluster<S>>,
) -> bool {
    &&& view1.ordered == view2.ordered
    &&& view1.next_id == view2.next_id
    &&& view1.chain == view2.chain
    &&& view1.queue == view2.queue
    &&& view1.clusters.dom() == view2.clusters.dom()
    &&& forall|id: usize| #[trigger]
        view1.clusters.contains_key(id) ==> is_alike(view1.clusters[id], view2.clusters[id])
}

/// What is found between two bins of a clusterizer is what the score finds
/// between them.
proof fn lemma_measured<S: WoeScore + Clone>(
    view: ClusterizerView<WoeBinningCluster<S>>,
    id1: usize,
    id2: usize,
    distance: Option<u64>,
)
    requires
        view.is_measured(id1, id2, distance),
    ensures
        is_score_distance(
            view.clusters[id1].score,
            view.clusters[id1].n,
            view.clusters[id2].score,
            view.clusters[id2].n,
            distance,
        ),
{
}

/// A candidate of the one clusterizer for a pair of live bins is queued in
/// the other too, where the bins of the pair are alike and the other
/// accounts for the pair.
proof fn lemma_queued_in_both<S: WoeScore + Clone>(
    view1: ClusterizerView<WoeBinningCluster<S>>,
    view2: ClusterizerView<WoeBinningCluster<S>>,
    node: DistanceHeapNode,
)
    requires
        is_function_of_arguments::<S>(),
        view1.queue_is_sound(),
        view2.queue_is_sound(),
        view1.queue.count(node) > 0,
        view1.clusters.contains_key(node.cluster_ids.0),
        view1.clusters.contains_key(node.cluster_ids.1),
        view2.clusters.contains_key(node.cluster_ids.0),
        view2.clusters.contains_key(node.cluster_ids.1),
        is_alike(view1.clusters[node.cluster_ids.0], view2.clusters[node.cluster_ids.0]),
        is_alike(view1.clusters[node.cluster_ids.1], view2.clusters[node.cluster_ids.1]),
        view2.is_covered(node.cluster_ids.0, node.cluster_ids.1),
    ensures
        view1.queue.count(node) == 1,
        view2.queue.count(node) == 1,
{
    let id1 = node.cluster_ids.0;
    let id2 = node.cluster_ids.1;
    let bin1 = view2.clusters[id1];
    let bin2 = view2.clusters[id2];
    assert(view1.is_measured(id1, id2, Some(node.distance)));
    lemma_measured(view1, id1, id2, Some(node.distance));
    assert(is_score_distance(bin1.score, bin1.n, bin2.score, bin2.n, Some(node.distance)));
    if view2.is_measured(id1, id2, None) {
        lemma_measured(view2, id1, id2, None);
        assert(is_score_distance(bin1.score, bin1.n, bin2.score, bin2.n, None));
        assert(false);
    }
    let distance = choose|distance: u64|
        view2.queue.count(#[trigger] candidate(distance, id1, id2)) > 0;
    let other = candidate(distance, id1, id2);
    assert(view2.queue.count(other) > 0);
    assert(view2.is_measured(id1, id2, Some(distance)));
    lemma_measured(view2, id1, id2, Some(distance));
    assert(is_score_distance(bin1.score, bin1.n, bin2.score, bin2.n, Some(distance)));
    assert(Some(distance) == Some(node.distance));
    assert(other == node);
}

/// Two clusterizers that were given bins that are alike, in the same mode, are
/// in the same state right after `initialize`.
proof fn lemma_initial_same<S: WoeScore + Clone>(
    view1: ClusterizerView<WoeBinningCluster<S>>,
    view2: ClusterizerView<WoeBinningCluster<S>>,
    origin1: Seq<WoeBinningCluster<S>>,
    origin2: Seq<WoeBinningCluster<S>>,
)
    requires
        is_function_of_arguments::<S>(),
        view1.is_initial(origin1),
        view2.is_initial(origin2),
        view1.is_coherent(),
        view2.is_coherent(),
        view1.ordered == view2.ordered,
        origin1.len() == origin2.len(),
        forall|k: int| 0 <= k < origin1.len() ==> is_alike(#[trigger] origin1[k], origin2[k]),
    ensures
        is_same_state(view1, view2),
{
    assert forall|id: usize| #[trigger] view1.clusters.contains_key(id) implies is_alike(
        view1.clusters[id],
        view2.clusters[id],
    ) by {
        assert(view2.clusters.contains_key(id));
        assert(is_alike(origin1[id as int], origin2[id as int]));
        assert(cloned(origin1[id as int], view1.clusters[id]));
        assert(cloned(origin2[id as int], view2.clusters[id]));
        assert(cloned(origin1[id as int].score, view1.clusters[id].score));
        assert(cloned(origin2[id as int].score, view2.clusters[id].score));
    }
    assert forall|node: DistanceHeapNode| view1.queue.count(node) == view2.queue.count(node) by {
        lemma_initial_queued(view1, view2, origin1, origin2, node);
        lemma_initial_queued(view2, view1, origin2, origin1, node);
    }
    assert(view1.queue =~= view2.queue);
}

/// Right after `initialize`, what the one clusterizer has queued the other
/// has queued too.
proof fn lemma_initial_queued<S: WoeScore + Clone>(
    view1: ClusterizerView<WoeBinningCluster<S>>,
    view2: ClusterizerView<WoeBinningCluster<S>>,
    origin1: Seq<WoeBinningCluster<S>>,
    origin2: Seq<WoeBinningCluster<S>>,
    node: DistanceHeapNode,
)
    requires
        is_function_of_arguments::<S>(),
        view1.is_initial(origin1),
        view2.is_initial(origin2),
        view1.is_coherent(),
        view2.is_coherent(),
        view1.ordered == view2.ordered,
        origin1.len() == origin2.len(),
        view1.clusters.dom() == view2.clusters.dom(),
        forall|id: usize| #[trigger]
            view1.clusters.contains_key(id) ==> is_alike(view1.clusters[id], view2.clusters[id]),
    ensures
        view1.queue.count(node) > 0 ==> view1.queue.count(node) == 1 && view2.queue.count(node)
            == 1,
{
    if view1.queue.count(node) > 0 {
        let id1 = node.cluster_ids.0;
        let id2 = node.cluster_ids.1;
        assert(view1.clusters.contains_key(id1) && view1.clusters.contains_key(id2));
        assert(view2.clusters.contains_key(id1) && view2.clusters.contains_key(id2));
        if view2.ordered {
            assert(view2.chain[id1 as int] == id1 && view2.chain[id1 + 1] == id2);
            assert(view2.is_covered(view2.chain[id1 as int], view2.chain[id1 + 1]));
        }
        lemma_queued_in_both(view1, view2, node);
    }
}

/// What a step queues for the merged bin in the one clusterizer it queues for
/// it in the other too.
proof fn lemma_merged_queued<S: WoeScore + Clone>(
    next1: ClusterizerView<WoeBinningCluster<S>>,
    next2: ClusterizerView<WoeBinningCluster<S>>,
    new_id: usize,
    node: DistanceHeapNode,
)
    requires
        is_function_of_arguments::<S>(),
        next1.inv(),
        next2.inv(),
        next1.ordered == next2.ordered,
        next1.chain == next2.chain,
        next1.next_id == new_id + 1,
        next1.clusters.dom() == next2.clusters.dom(),
        forall|id: usize| #[trigger]
            next1.clusters.contains_key(id) ==> is_alike(next1.clusters[id], next2.clusters[id]),
        next1.queue.count(node) > 0,
        node.cluster_ids.0 == new_id || node.cluster_ids.1 == new_id,
        if next1.ordered {
            next1.is_next_to(node.cluster_ids.0, node.cluster_ids.1)
        } else {
            node.cluster_ids.1 == new_id && next1.clusters.contains_key(node.cluster_ids.0)
        },
        next1.clusters.contains_key(new_id),
    ensures
        next1.queue.count(node) == 1,
        next2.queue.count(node) == 1,
{
    let id1 = node.cluster_ids.0;
    let id2 = node.cluster_ids.1;
    if next1.ordered {
        let k = choose|k: int|
            0 <= k && k + 1 < next1.chain.len() && #[trigger] next1.chain[k] == id1
                && next1.chain[k + 1] == id2;
        assert(next1.chain.contains(id1) && next1.chain.contains(id2));
        assert(next2.is_covered(next2.chain[k], next2.chain[k + 1]));
    } else {
        assert(id1 < id2);
    }
    assert(next2.clusters.contains_key(id1) && next2.clusters.contains_key(id2));
    lemma_queued_in_both(next1, next2, node);
}

/// From the same state two clusterizers step to the same state.
proof fn lemma_step_same<S: WoeScore + Clone>(
    view1: ClusterizerView<WoeBinningCluster<S>>,
    view2: ClusterizerView<WoeBinningCluster<S>>,
    next1: ClusterizerView<WoeBinningCluster<S>>,
    next2: ClusterizerView<WoeBinningCluster<S>>,
    merged1: bool,
    merged2: bool,
)
    requires
        is_function_of_arguments::<S>(),
        is_same_state(view1, view2),
        view1.inv(),
        view2.inv(),
        view1.steps_to(next1, merged1),
        view2.steps_to(next2, merged2),
        merged1 ==> next1.inv(),
        merged2 ==> next2.inv(),
    ensures
        merged1 == merged2,
        is_same_state(next1, next2),
{
    if merged1 {
        let witness = choose|node: DistanceHeapNode| #[trigger]
            view1.queue.count(node) > 0 && view1.is_candidate(node);
        assert(view2.queue.count(witness) > 0 && view2.is_candidate(witness));
    }
    if merged2 {
        let witness = choose|node: DistanceHeapNode| #[trigger]
            view2.queue.count(node) > 0 && view2.is_candidate(node);
        assert(view1.queue.count(witness) > 0 && view1.is_candidate(witness));
    }
    if merged1 {
        let node1 = choose|node: DistanceHeapNode| #[trigger] view1.merges_to(next1, node);
        let node2 = choose|node: DistanceHeapNode| #[trigger] view2.merges_to(next2, node);
        assert(view1.queue.count(node1) > 0 && view2.queue.count(node2) > 0);
        assert(view2.queue.count(node1) > 0 && view2.is_candidate(node1));
        assert(view1.queue.count(node2) > 0 && view1.is_candidate(node2));
        assert(node1.not_after(node2) && node2.not_after(node1));
        assert(node1 == node2);
        let id1 = node1.cluster_ids.0;
        let id2 = node1.cluster_ids.1;
        let new_id = view1.next_id;
        assert(next1.clusters.contains_key(new_id) && next2.clusters.contains_key(new_id));
        assert forall|id: usize| #[trigger] next1.clusters.contains_key(id) implies is_alike(
            next1.clusters[id],
            next2.clusters[id],
        ) by {
            assert(next2.clusters.contains_key(id));
            if id == new_id {
                let first1 = view1.clusters[id1];
                let second1 = view1.clusters[id2];
                let first2 = view2.clusters[id1];
                let second2 = view2.clusters[id2];
                assert(is_alike(first1, first2) && is_alike(second1, second2));
                assert(is_merged_score(
                    first1.score,
                    first1.n,
                    second1.score,
                    second1.n,
                    next1.clusters[id].score,
                ));
                assert(is_merged_score(
                    first2.score,
                    first2.n,
                    second2.score,
                    second2.n,
                    next2.clusters[id].score,
                ));
            } else {
                assert(view1.clusters.contains_key(id));
            }
        }
        assert forall|other: DistanceHeapNode|
            next1.queue.count(other) == next2.queue.count(other) by {
            if other.cluster_ids.0 == new_id || other.cluster_ids.1 == new_id {
                if next1.queue.count(other) > 0 {
                    lemma_merged_queued(next1, next2, new_id, other);
                }
                if next2.queue.count(other) > 0 {
                    lemma_merged_queued(next2, next1, new_id, other);
                }
            }
        }
        assert(next1.queue =~= next2.queue);
    }
}

/// Two runs from the same state are in the same state after as many steps.
proof fn lemma_run_prefix_same<S: WoeScore + Clone>(
    start1: ClusterizerView<WoeBinningCluster<S>>,
    trace1: Seq<ClusterizerView<WoeBinningCluster<S>>>,
    last1: ClusterizerView<WoeBinningCluster<S>>,
    start2: ClusterizerView<WoeBinningCluster<S>>,
    trace2: Seq<ClusterizerView<WoeBinningCluster<S>>>,
    last2: ClusterizerView<WoeBinningCluster<S>>,
    target: usize,
    i: int,
)
    requires
        is_function_of_arguments::<S>(),
        start1.is_run(trace1, last1, target),
        start2.is_run(trace2, last2, target),
        is_same_state(start1, start2),
        0 <= i < trace1.len(),
        i < trace2.len(),
    ensures
        is_same_state(trace1[i], trace2[i]),
    decreases i,
{
    if i > 0 {
        lemma_run_prefix_same(start1, trace1, last1, start2, trace2, last2, target, i - 1);
        assert(trace1[i - 1].inv() && trace2[i - 1].inv());
        assert(trace1[i].inv() && trace2[i].inv());
        lemma_step_same(trace1[i - 1], trace2[i - 1], trace1[i], trace2[i], true, true);
    }
}

/// The longer of two runs from the same state is no longer than the other.
proof fn lemma_run_no_longer<S: WoeScore + Clone>(
    start1: ClusterizerView<WoeBinningCluster<S>>,
    trace1: Seq<ClusterizerView<WoeBinningCluster<S>>>,
    last1: ClusterizerView<WoeBinningCluster<S>>,
    start2: ClusterizerView<WoeBinningCluster<S>>,
    trace2: Seq<ClusterizerView<WoeBinningCluster<S>>>,
    last2: ClusterizerView<WoeBinningCluster<S>>,
    target: usize,
)
    requires
        is_function_of_arguments::<S>(),
        start1.is_run(trace1, last1, target),
        start2.is_run(trace2, last2, target),
        is_same_state(start1, start2),
    ensures
        trace2.len() <= trace1.len(),
{
    if trace1.len() < trace2.len() {
        let i = trace1.len() - 1;
        lemma_run_prefix_same(start1, trace1, last1, start2, trace2, last2, target, i);
        assert(trace1[i].inv() && trace2[i].inv() && trace2[i + 1].inv());
        assert(trace2[i].clusters.len() > target);
        assert(trace2[i].steps_to(trace2[i + 1], true));
        assert(trace1[i].steps_to(last1, false));
        lemma_step_same(trace1[i], trace2[i], last1, trace2[i + 1], false, true);
    }
}

/// Two runs from the same state towards the same number of clusters end in
/// the same state.
proof fn lemma_run_same<S: WoeScore + Clone>(
    start1: ClusterizerView<WoeBinningCluster<S>>,
    trace1: Seq<ClusterizerView<WoeBinningCluster<S>>>,
    last1: ClusterizerView<WoeBinningCluster<S>>,
    start2: ClusterizerView<WoeBinningCluster<S>>,
    trace2: Seq<ClusterizerView<WoeBinningCluster<S>>>,
    last2: ClusterizerView<WoeBinningCluster<S>>,
    target: usize,
)
    requires
        is_function_of_arguments::<S>(),
        start1.is_run(trace1, last1, target),
        start2.is_run(trace2, last2, target),
        is_same_state(start1, start2),
    ensures
        is_same_state(last1, last2),
{
    lemma_run_no_longer(start1, trace1, last1, start2, trace2, last2, target);
    assert(is_same_state(start2, start1));
    lemma_run_no_longer(start2, trace2, last2, start1, trace1, last1, target);
    let i = trace1.len() - 1;
    lemma_run_prefix_same(start1, trace1, last1, start2, trace2, last2, target, i);
    assert(trace1[i].inv() && trace2[i].inv());
    if trace1[i].clusters.len() > target {
        lemma_step_same(trace1[i], trace2[i], last1, last2, false, false);
    }
}

/// Two binnings of one data set, towards the same number of bins and made
/// with the same score, find the same bins in the same order, where the
/// score is a function of what it is made of.
pub proof fn lemma_binnings_agree<S: WoeScore + Clone>(
    first: WoeBinningProc<S>,
    second: WoeBinningProc<S>,
    series: Seq<usize>,
    target: Seq<bool>,
    sorted: bool,
)
    requires
        is_function_of_arguments::<S>(),
        first.seed() == second.seed(),
        first.wanted() == second.wanted(),
        first.is_binned(series, target, sorted),
        second.is_binned(series, target, sorted),
    ensures
        first.bins_num() == second.bins_num(),
        forall|k: int|
            0 <= k < first.bins_num() ==> is_alike(
                #[trigger] first.bins().unwrap()[k],
                second.bins().unwrap()[k],
            ),
{
    let engine1 = first.engine();
    let engine2 = second.engine();
    let origin1 = engine1.history.origin;
    let origin2 = engine2.history.origin;
    let values = initial_values(series, sorted);
    let (start1, trace1) = choose|
        start: ClusterizerView<WoeBinningCluster<S>>,
        trace: Seq<ClusterizerView<WoeBinningCluster<S>>>,
    |
        {
            &&& #[trigger] start.is_run(trace, engine1, first.wanted())
            &&& start.is_initial(origin1)
            &&& start.ordered == sorted
            &&& start.inv()
        };
    let (start2, trace2) = choose|
        start: ClusterizerView<WoeBinningCluster<S>>,
        trace: Seq<ClusterizerView<WoeBinningCluster<S>>>,
    |
        {
            &&& #[trigger] start.is_run(trace, engine2, second.wanted())
            &&& start.is_initial(origin2)
            &&& start.ordered == sorted
            &&& start.inv()
        };
    assert forall|k: int| 0 <= k < origin1.len() implies is_alike(
        #[trigger] origin1[k],
        origin2[k],
    ) by {
        let bin1 = origin1[k];
        let bin2 = origin2[k];
        assert(is_leaf_bin(series, target, first.seed(), values[k], bin1));
        assert(is_leaf_bin(series, target, second.seed(), values[k], bin2));
        let total1 = crate::woe_binning_proc::count_label(target, true) as usize;
        let total0 = crate::woe_binning_proc::count_label(target, false) as usize;
        assert(is_leaf_score(first.seed(), bin1.n1, bin1.n0, total1, total0, bin1.score));
        assert(is_leaf_score(first.seed(), bin2.n1, bin2.n0, total1, total0, bin2.score));
    }
    lemma_initial_same(start1, start2, origin1, origin2);
    lemma_run_same(start1, trace1, engine1, start2, trace2, engine2, first.wanted());
    let bins1 = first.bins().unwrap();
    let bins2 = second.bins().unwrap();
    let ids1 = choose|ids: Seq<usize>| #[trigger] is_listing(ids, engine1.clusters, bins1);
    let ids2 = choose|ids: Seq<usize>| #[trigger] is_listing(ids, engine2.clusters, bins2);
    assert forall|id: usize| ids2.contains(id) <==> ids1.contains(id) by {
        assert(engine1.clusters.contains_key(id) <==> engine2.clusters.contains_key(id));
    }
    lemma_ascending_values_unique(ids1, ids1, ids2);
    assert forall|k: int| 0 <= k < first.bins_num() implies is_alike(
        #[trigger] bins1[k],
        bins2[k],
    ) by {
        let id = ids1[k];
        assert(ids1.contains(id));
        assert(engine1.clusters.contains_key(id));
        assert(is_alike(engine1.clusters[id], engine2.clusters[id]));
        assert(cloned(engine1.clusters[id], bins1[k]));
        assert(cloned(engine2.clusters[id], bins2[k]));
        assert(cloned(engine1.clusters[id].score, bins1[k].score));
        assert(cloned(engine2.clusters[id].score, bins2[k].score));
    }
}

} // verus!
