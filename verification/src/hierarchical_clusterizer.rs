//! Agglomerative clustering: the closest admissible pair of clusters is merged
//! until a wanted number of clusters is left or no pair can be merged.
//!
//! Clusters are held in a registry under identifiers that are given out in
//! ascending order and never reused. Candidate merges wait in a queue ordered
//! by distance; a candidate that names a retired identifier is dropped when it
//! comes out of the queue. In ordered mode the live identifiers form a chain in
//! the order of the initial clusters, and only neighbours in that chain are
//! candidates.
use crate::distance_heap::DistanceHeap;
use crate::distance_heap::DistanceHeapNode;
use std::collections::BTreeMap;
use vstd::multiset::Multiset;
use vstd::prelude::*;
use vstd::std_specs::cmp::OrdSpec;

verus! {

/// What a type must offer to be clustered: a merge of two clusters into one,
/// and a distance between two clusters.
///
/// A distance is an integer key, and a smaller key is a smaller distance.
/// `None` says that the two clusters must never be merged.
pub trait ClusterTrait: Sized {
    /// The cluster that takes the place of `cluster1` and `cluster2`.
    fn merge(cluster1: &Self, cluster2: &Self) -> Self;

    /// The distance from `cluster1` to `cluster2`, or `None` where the two
    /// must never be merged.
    fn distance(cluster1: &Self, cluster2: &Self) -> Option<u64>;
}

/// The candidate that pairs `id1` with `id2` at distance `distance`.
pub open spec fn candidate(distance: u64, id1: usize, id2: usize) -> DistanceHeapNode {
    DistanceHeapNode { distance, cluster_ids: (id1, id2) }
}

/// The identifiers `0, 1, ..., len - 1` in this order.
pub open spec fn initial_ids(len: nat) -> Seq<usize> {
    Seq::new(len, |i: int| i as usize)
}

/// How a cluster came about: it is a copy of one of the initial clusters, or
/// the merge of two earlier clusters.
pub enum Lineage<T> {
    Leaf { index: usize, cluster: T },
    Merged { first: Box<Lineage<T>>, second: Box<Lineage<T>>, cluster: T },
}

impl<T: ClusterTrait + Clone> Lineage<T> {
    /// The cluster that came about.
    pub open spec fn cluster(self) -> T {
        match self {
            Lineage::Leaf { cluster, .. } => cluster,
            Lineage::Merged { cluster, .. } => cluster,
        }
    }

    /// The indices of the initial clusters that went into the cluster, in the
    /// order in which the merges put them.
    pub open spec fn leaves(self) -> Seq<usize>
        decreases self,
    {
        match self {
            Lineage::Leaf { index, .. } => seq![index],
            Lineage::Merged { first, second, .. } => first.leaves() + second.leaves(),
        }
    }

    /// Whether each leaf holds a copy of the initial cluster at its index and
    /// each merged cluster is what `merge` made of the two below it.
    pub open spec fn is_sound(self, origin: Seq<T>) -> bool
        decreases self,
    {
        match self {
            Lineage::Leaf { index, cluster } => index < origin.len() && cloned(
                origin[index as int],
                cluster,
            ),
            Lineage::Merged { first, second, cluster } => {
                &&& first.is_sound(origin)
                &&& second.is_sound(origin)
                &&& call_ensures(T::merge, (&first.cluster(), &second.cluster()), cluster)
            },
        }
    }

    /// A sound lineage has at least one leaf, and its leaves are indices of
    /// initial clusters.
    pub proof fn lemma_leaves(self, origin: Seq<T>)
        requires
            self.is_sound(origin),
        ensures
            self.leaves().len() > 0,
            forall|j: int| 0 <= j < self.leaves().len() ==> #[trigger] self.leaves()[j] < origin.len(),
        decreases self,
    {
        match self {
            Lineage::Leaf { .. } => {},
            Lineage::Merged { first, second, .. } => {
                first.lemma_leaves(origin);
                second.lemma_leaves(origin);
            },
        }
    }
}

/// Whether `leaves` counts up by one from its first element.
pub open spec fn is_consecutive(leaves: Seq<usize>) -> bool {
    forall|j: int| 0 <= j < leaves.len() ==> #[trigger] leaves[j] == leaves[0] + j
}

/// What became of the clusters that `initialize` was given.
pub struct History<T> {
    /// The clusters that `initialize` was given.
    pub origin: Seq<T>,
    /// For each live identifier, how its cluster came about.
    pub lineage: Map<usize, Lineage<T>>,
    /// For each initial cluster, the identifier of the live cluster that it
    /// has gone into.
    pub owner: Seq<usize>,
}

impl<T: ClusterTrait + Clone> History<T> {
    /// The history right after `initialize` on `origin` has filled the
    /// registry `clusters`: every live cluster is a leaf.
    pub open spec fn initial(origin: Seq<T>, clusters: Map<usize, T>) -> Self {
        History {
            origin,
            lineage: Map::new(
                |id: usize| id < origin.len(),
                |id: usize| Lineage::Leaf { index: id, cluster: clusters[id] },
            ),
            owner: initial_ids(origin.len()),
        }
    }

    /// The history after the clusters `id1` and `id2` were merged into
    /// `cluster` under `new_id`.
    pub open spec fn after_merge(self, id1: usize, id2: usize, new_id: usize, cluster: T) -> Self {
        History {
            origin: self.origin,
            lineage: self.lineage.remove(id1).remove(id2).insert(
                new_id,
                Lineage::Merged {
                    first: Box::new(self.lineage[id1]),
                    second: Box::new(self.lineage[id2]),
                    cluster,
                },
            ),
            owner: Seq::new(
                self.owner.len(),
                |i: int|
                    if self.owner[i] == id1 || self.owner[i] == id2 {
                        new_id
                    } else {
                        self.owner[i]
                    },
            ),
        }
    }
}

/// What a clusterizer holds, as mathematical values.
pub struct ClusterizerView<T> {
    /// Whether only neighbours in `chain` are candidates.
    pub ordered: bool,
    /// The live clusters under their identifiers.
    pub clusters: Map<usize, T>,
    /// The identifier that the next merged cluster gets.
    pub next_id: usize,
    /// The candidates that wait in the queue.
    pub queue: Multiset<DistanceHeapNode>,
    /// In ordered mode, the live identifiers in the order of the initial clusters.
    pub chain: Seq<usize>,
    /// What became of the initial clusters.
    pub history: History<T>,
}

impl<T: ClusterTrait + Clone> ClusterizerView<T> {
    /// Whether `node` waits in the queue and names two live clusters.
    pub open spec fn is_candidate(self, node: DistanceHeapNode) -> bool {
        &&& self.queue.count(node) > 0
        &&& self.clusters.contains_key(node.cluster_ids.0)
        &&& self.clusters.contains_key(node.cluster_ids.1)
    }

    /// Whether the distance from cluster `id1` to cluster `id2` was found to
    /// be `distance`.
    pub open spec fn is_measured(self, id1: usize, id2: usize, distance: Option<u64>) -> bool {
        call_ensures(T::distance, (&self.clusters[id1], &self.clusters[id2]), distance)
    }

    /// Whether the pair of `id1` and `id2` is accounted for: it waits in the
    /// queue, or it was found to be inadmissible.
    pub open spec fn is_covered(self, id1: usize, id2: usize) -> bool {
        ||| self.is_measured(id1, id2, None)
        ||| exists|distance: u64| self.queue.count(#[trigger] candidate(distance, id1, id2)) > 0
    }

    /// Whether `id1` comes directly before `id2` in the chain.
    pub open spec fn is_next_to(self, id1: usize, id2: usize) -> bool {
        exists|k: int|
            0 <= k && k + 1 < self.chain.len() && #[trigger] self.chain[k] == id1 && self.chain[k
                + 1] == id2
    }

    /// Every queued candidate is queued once and names two different
    /// identifiers that were given out, and where both are live it holds the
    /// distance that was found between the two clusters.
    pub open spec fn queue_is_sound(self) -> bool {
        forall|node: DistanceHeapNode| #[trigger]
            self.queue.count(node) > 0 ==> {
                &&& self.queue.count(node) == 1
                &&& node.cluster_ids.0 != node.cluster_ids.1
                &&& node.cluster_ids.0 < self.next_id
                &&& node.cluster_ids.1 < self.next_id
                &&& self.is_candidate(node) ==> self.is_measured(
                    node.cluster_ids.0,
                    node.cluster_ids.1,
                    Some(node.distance),
                )
            }
    }

    /// The chain lists the live identifiers, each once.
    pub open spec fn chain_is_sound(self) -> bool {
        &&& self.chain.no_duplicates()
        &&& forall|id: usize|
            #![trigger self.chain.contains(id)]
            #![trigger self.clusters.contains_key(id)]
            self.chain.contains(id) <==> self.clusters.contains_key(id)
    }

    /// Every candidate pairs an identifier with the next one in the chain.
    pub open spec fn queue_follows_chain(self) -> bool {
        forall|node: DistanceHeapNode| #[trigger]
            self.queue.count(node) > 0 && self.is_candidate(node) ==> self.is_next_to(
                node.cluster_ids.0,
                node.cluster_ids.1,
            )
    }

    /// Every pair of neighbours in the chain is accounted for.
    pub open spec fn covers_chain(self) -> bool {
        forall|k: int|
            0 <= k && k + 1 < self.chain.len() ==> self.is_covered(
                #[trigger] self.chain[k],
                self.chain[k + 1],
            )
    }

    /// Every pair of live clusters is accounted for, the lower identifier
    /// first.
    pub open spec fn covers_all(self) -> bool {
        forall|id1: usize, id2: usize|
            #![trigger self.clusters.contains_key(id1), self.clusters.contains_key(id2)]
            self.clusters.contains_key(id1) && self.clusters.contains_key(id2) && id1 < id2
                ==> self.is_covered(id1, id2)
    }

    /// The invariant of a clusterizer.
    ///
    /// Identifiers are below the next identifier, the queue is sound, and every
    /// pair that may still be merged is accounted for: in ordered mode every
    /// pair of neighbours in the chain, and every candidate is such a pair;
    /// otherwise every pair of live clusters. The identifiers that merges of
    /// the live clusters can still need fit into `usize`.
    pub open spec fn inv(self) -> bool {
        &&& self.is_coherent()
        &&& self.next_id + self.clusters.len() <= usize::MAX
    }

    /// The invariant of a clusterizer but for the room that is left for new
    /// identifiers.
    pub open spec fn is_coherent(self) -> bool {
        &&& self.clusters.dom().finite()
        &&& forall|id: usize| #[trigger] self.clusters.contains_key(id) ==> id < self.next_id
        &&& self.queue_is_sound()
        &&& if self.ordered {
            &&& self.chain_is_sound()
            &&& self.queue_follows_chain()
            &&& self.covers_chain()
        } else {
            self.covers_all()
        }
    }

    /// The initial clusters that went into the live cluster `id`.
    pub open spec fn leaves_of(self, id: usize) -> Seq<usize> {
        self.history.lineage[id].leaves()
    }

    /// The history tells of every live cluster how it came about, and every
    /// initial cluster has gone into exactly one live cluster, once. In
    /// ordered mode the chain keeps the initial order: each live cluster
    /// holds consecutive initial clusters, and each cluster in the chain
    /// goes on where the one before it ends.
    pub open spec fn history_is_sound(self) -> bool {
        &&& self.history.owner.len() == self.history.origin.len()
        &&& forall|id: usize|
            #![trigger self.history.lineage.contains_key(id)]
            #![trigger self.clusters.contains_key(id)]
            self.history.lineage.contains_key(id) <==> self.clusters.contains_key(id)
        &&& forall|id: usize| #[trigger]
            self.clusters.contains_key(id) ==> {
                &&& self.history.lineage[id].cluster() == self.clusters[id]
                &&& self.history.lineage[id].is_sound(self.history.origin)
                &&& self.leaves_of(id).no_duplicates()
            }
        &&& forall|id: usize, j: int|
            #![trigger self.clusters.contains_key(id), self.leaves_of(id)[j]]
            self.clusters.contains_key(id) && 0 <= j < self.leaves_of(id).len()
                ==> self.history.owner[self.leaves_of(id)[j] as int] == id
        &&& forall|i: int|
            0 <= i < self.history.owner.len() ==> self.clusters.contains_key(
                #[trigger] self.history.owner[i],
            ) && self.leaves_of(self.history.owner[i]).contains(i as usize)
        &&& self.ordered ==> {
            &&& forall|id: usize| #[trigger]
                self.clusters.contains_key(id) ==> is_consecutive(self.leaves_of(id))
            &&& self.chain.len() > 0 ==> self.leaves_of(self.chain[0])[0] == 0
            &&& forall|k: int|
                0 <= k && k + 1 < self.chain.len() ==> self.leaves_of(
                    #[trigger] self.chain[k],
                ).last() + 1 == self.leaves_of(self.chain[k + 1])[0]
        }
    }

    /// Whether `node` is the candidate that the queue hands out first: no
    /// candidate is closer, and among the closest it has the lowest
    /// identifiers.
    pub open spec fn is_closest(self, node: DistanceHeapNode) -> bool {
        &&& self.is_candidate(node)
        &&& forall|other: DistanceHeapNode| #[trigger]
            self.queue.count(other) > 0 && self.is_candidate(other) ==> node.not_after(other)
    }

    /// Whether `queue` holds what is left of the queue once `node` and every
    /// candidate that comes before it have been taken out.
    pub open spec fn is_left_after(
        self,
        node: DistanceHeapNode,
        queue: Multiset<DistanceHeapNode>,
    ) -> bool {
        forall|other: DistanceHeapNode|
            #![trigger queue.count(other)]
            #![trigger self.queue.count(other)]
            queue.count(other) == if other.not_after(node) {
                0
            } else {
                self.queue.count(other)
            }
    }

    /// The chain in which `new_id` has taken the place of `id1` and of the
    /// identifier after it.
    pub open spec fn chain_after_merge(self, id1: usize, new_id: usize) -> Seq<usize> {
        let k = self.chain.index_of(id1);
        self.chain.remove(k + 1).update(k, new_id)
    }

    /// Whether `next` is this state after the two clusters that `node` names
    /// were merged: the two are retired, the merged cluster is live under the
    /// next identifier, and every other cluster is as it was. The queue has
    /// lost `node` and every candidate that came before it. It has gained
    /// nothing but candidates that name the merged cluster: with a live
    /// cluster first and the merged cluster second, or in ordered mode with a
    /// neighbour of the merged cluster in the chain.
    pub open spec fn merges_to(self, next: Self, node: DistanceHeapNode) -> bool {
        let id1 = node.cluster_ids.0;
        let id2 = node.cluster_ids.1;
        &&& self.is_closest(node)
        &&& next.ordered == self.ordered
        &&& next.next_id == self.next_id + 1
        &&& next.clusters.dom() == self.clusters.dom().remove(id1).remove(id2).insert(
            self.next_id,
        )
        &&& forall|id: usize| #[trigger]
            next.clusters.contains_key(id) && id != self.next_id ==> next.clusters[id]
                == self.clusters[id]
        &&& call_ensures(
            T::merge,
            (&self.clusters[id1], &self.clusters[id2]),
            next.clusters[self.next_id],
        )
        &&& next.chain == if self.ordered {
            self.chain_after_merge(id1, self.next_id)
        } else {
            self.chain
        }
        &&& next.history == self.history.after_merge(
            id1,
            id2,
            self.next_id,
            next.clusters[self.next_id],
        )
        &&& forall|other: DistanceHeapNode|
            #![trigger next.queue.count(other)]
            #![trigger self.queue.count(other)]
            other.cluster_ids.0 != self.next_id && other.cluster_ids.1 != self.next_id
                ==> next.queue.count(other) == if other.not_after(node) {
                0
            } else {
                self.queue.count(other)
            }
        &&& forall|other: DistanceHeapNode| #[trigger]
            next.queue.count(other) > 0 && (other.cluster_ids.0 == self.next_id
                || other.cluster_ids.1 == self.next_id) ==> if self.ordered {
                next.is_next_to(other.cluster_ids.0, other.cluster_ids.1)
            } else {
                other.cluster_ids.1 == self.next_id && next.clusters.contains_key(
                    other.cluster_ids.0,
                )
            }
    }

    /// What one `step` does: where there is a candidate, a closest one is
    /// merged; where there is none, the queue is emptied and nothing else
    /// changes.
    pub open spec fn steps_to(self, next: Self, merged: bool) -> bool {
        &&& merged <==> exists|node: DistanceHeapNode| #[trigger]
            self.queue.count(node) > 0 && self.is_candidate(node)
        &&& merged ==> exists|node: DistanceHeapNode| #[trigger] self.merges_to(next, node)
        &&& !merged ==> next == (ClusterizerView {
            queue: Multiset::<DistanceHeapNode>::empty(),
            ..self
        })
    }

    /// Whether `trace` records a run of `clusterize` towards `target` clusters
    /// that starts in this state and ends in `last`: every state of `trace`
    /// meets the invariant; each state but the last of `trace` has more than
    /// `target` clusters and is followed by the state after one merge; the
    /// run ends with the last state of `trace` where that state has no more
    /// than `target` clusters, and else with the state that a step without a
    /// merge leaves.
    pub open spec fn is_run(self, trace: Seq<Self>, last: Self, target: usize) -> bool {
        &&& trace.len() > 0
        &&& trace[0] == self
        &&& forall|i: int| 0 <= i < trace.len() ==> (#[trigger] trace[i]).inv()
        &&& forall|i: int|
            0 <= i < trace.len() - 1 ==> (#[trigger] trace[i]).clusters.len() > target
                && trace[i].steps_to(trace[i + 1], true)
        &&& if trace.last().clusters.len() <= target {
            last == trace.last()
        } else {
            trace.last().steps_to(last, false)
        }
    }

    /// Whether this is the state right after `initialize` on `clusters`: one
    /// live cluster per given cluster, under its index; in ordered mode the
    /// chain of these identifiers, and else no chain; and in the queue pairs
    /// of these identifiers, the lower first, in ordered mode pairs of
    /// neighbours.
    pub open spec fn is_initial(self, clusters: Seq<T>) -> bool {
        &&& self.next_id == clusters.len()
        &&& self.clusters.dom() == Set::new(|id: usize| id < clusters.len())
        &&& forall|id: usize|
            id < clusters.len() ==> cloned(clusters[id as int], #[trigger] self.clusters[id])
        &&& self.chain == if self.ordered {
            initial_ids(clusters.len())
        } else {
            Seq::empty()
        }
        &&& self.history == History::initial(clusters, self.clusters)
        &&& forall|node: DistanceHeapNode| #[trigger]
            self.queue.count(node) > 0 ==> node.cluster_ids.0 < node.cluster_ids.1 && (
            self.ordered ==> node.cluster_ids.0 + 1 == node.cluster_ids.1)
    }
}

/// Whether `ids` holds the identifiers of `clusters` in ascending order and
/// `listed` holds, place by place, a copy of the cluster under each of them.
pub open spec fn is_listing<T: Clone>(
    ids: Seq<usize>,
    clusters: Map<usize, T>,
    listed: Seq<T>,
) -> bool {
    &&& forall|id: usize| ids.contains(id) <==> clusters.contains_key(id)
    &&& forall|i: int, j: int| 0 <= i < j < ids.len() ==> ids[i] < ids[j]
    &&& listed.len() == ids.len()
    &&& forall|k: int| 0 <= k < ids.len() ==> cloned(clusters[ids[k]], #[trigger] listed[k])
}

/// A sound queue stays sound when a candidate is added that names two
/// different identifiers that were given out, with the distance that was
/// found between the two clusters.
proof fn lemma_queue_stays_sound<T: ClusterTrait + Clone>(
    before: ClusterizerView<T>,
    after: ClusterizerView<T>,
    node: DistanceHeapNode,
)
    requires
        before.queue_is_sound(),
        before.queue.count(node) == 0,
        after == (ClusterizerView { queue: before.queue.insert(node), ..before }),
        node.cluster_ids.0 != node.cluster_ids.1,
        node.cluster_ids.0 < before.next_id,
        node.cluster_ids.1 < before.next_id,
        before.is_measured(node.cluster_ids.0, node.cluster_ids.1, Some(node.distance)),
    ensures
        after.queue_is_sound(),
        after.queue.count(node) > 0,
{
    assert forall|other: DistanceHeapNode| #[trigger] after.queue.count(other) > 0 implies {
        &&& after.queue.count(other) == 1
        &&& other.cluster_ids.0 != other.cluster_ids.1
        &&& other.cluster_ids.0 < after.next_id
        &&& other.cluster_ids.1 < after.next_id
        &&& after.is_candidate(other) ==> after.is_measured(
            other.cluster_ids.0,
            other.cluster_ids.1,
            Some(other.distance),
        )
    } by {
        if other != node {
            assert(before.queue.count(other) > 0);
        }
    }
}

/// Where no candidate is left, the state with an empty queue meets the
/// invariant.
proof fn lemma_queue_emptied<T: ClusterTrait + Clone>(
    pre: ClusterizerView<T>,
    post: ClusterizerView<T>,
)
    requires
        pre.inv(),
        post == (ClusterizerView { queue: Multiset::<DistanceHeapNode>::empty(), ..pre }),
        forall|other: DistanceHeapNode| #[trigger]
            pre.queue.count(other) > 0 ==> !pre.is_candidate(other),
    ensures
        post.inv(),
        pre.steps_to(post, false),
{
    if pre.ordered {
        assert forall|k: int| 0 <= k && k + 1 < post.chain.len() implies post.is_covered(
            #[trigger] post.chain[k],
            post.chain[k + 1],
        ) by {
            assert(pre.is_covered(pre.chain[k], pre.chain[k + 1]));
            assert(pre.chain.contains(pre.chain[k]));
            assert(pre.chain.contains(pre.chain[k + 1]));
        }
    } else {
        assert forall|id1: usize, id2: usize|
            #![trigger post.clusters.contains_key(id1), post.clusters.contains_key(id2)]
            post.clusters.contains_key(id1) && post.clusters.contains_key(id2) && id1
                < id2 implies post.is_covered(id1, id2) by {
            assert(pre.is_covered(id1, id2));
        }
    }
}

/// A candidate other than the first stays in the queue when the first and
/// what came before it are taken out.
proof fn lemma_candidate_stays<T: ClusterTrait + Clone>(
    pre: ClusterizerView<T>,
    node: DistanceHeapNode,
    queue: Multiset<DistanceHeapNode>,
    other: DistanceHeapNode,
)
    requires
        pre.is_closest(node),
        pre.is_left_after(node, queue),
        pre.is_candidate(other),
        other != node,
    ensures
        queue.count(other) == pre.queue.count(other),
{
    assert(pre.queue.count(other) > 0);
    assert(node.not_after(other));
}

/// After the two clusters of the closest candidate were replaced by their
/// merged cluster in the registry, the queue is still sound.
proof fn lemma_registry_updated<T: ClusterTrait + Clone>(
    pre: ClusterizerView<T>,
    popped: ClusterizerView<T>,
    mid: ClusterizerView<T>,
    node: DistanceHeapNode,
)
    requires
        pre.inv(),
        pre.is_closest(node),
        popped == (ClusterizerView { queue: popped.queue, ..pre }),
        pre.is_left_after(node, popped.queue),
        mid == (ClusterizerView {
            clusters: mid.clusters,
            next_id: (pre.next_id + 1) as usize,
            history: mid.history,
            ..popped
        }),
        pre.next_id < usize::MAX,
        mid.clusters.dom() == pre.clusters.dom().remove(node.cluster_ids.0).remove(
            node.cluster_ids.1,
        ).insert(pre.next_id),
        forall|id: usize| #[trigger]
            mid.clusters.contains_key(id) && id != pre.next_id ==> mid.clusters[id]
                == pre.clusters[id],
    ensures
        mid.queue_is_sound(),
        mid.clusters.dom().finite(),
        mid.clusters.len() + 1 == pre.clusters.len(),
        forall|id: usize| #[trigger] mid.clusters.contains_key(id) ==> id < mid.next_id,
        forall|other: DistanceHeapNode| #[trigger]
            mid.queue.count(other) > 0 ==> other.cluster_ids.0 != pre.next_id
                && other.cluster_ids.1 != pre.next_id,
{
    assert(pre.queue.count(node) > 0);
    assert forall|other: DistanceHeapNode| #[trigger]
        mid.queue.count(other) > 0 implies other.cluster_ids.0 != pre.next_id
        && other.cluster_ids.1 != pre.next_id by {
        assert(pre.queue.count(other) > 0);
    }
    assert(pre.clusters.dom().remove(node.cluster_ids.0).contains(node.cluster_ids.1));
    assert forall|other: DistanceHeapNode| #[trigger] mid.queue.count(other) > 0 implies {
        &&& mid.queue.count(other) == 1
        &&& other.cluster_ids.0 != other.cluster_ids.1
        &&& other.cluster_ids.0 < pre.next_id
        &&& other.cluster_ids.1 < pre.next_id
        &&& other.cluster_ids.0 < mid.next_id
        &&& other.cluster_ids.1 < mid.next_id
        &&& mid.is_candidate(other) ==> mid.is_measured(
            other.cluster_ids.0,
            other.cluster_ids.1,
            Some(other.distance),
        )
    } by {
        assert(pre.queue.count(other) > 0);
    }
}

/// In unordered mode, the state after a merge and the queueing of the merged
/// cluster's pairs meets the invariant and is what a merge step leads to.
proof fn lemma_merged_among_all<T: ClusterTrait + Clone>(
    pre: ClusterizerView<T>,
    popped: ClusterizerView<T>,
    post: ClusterizerView<T>,
    node: DistanceHeapNode,
)
    requires
        pre.inv(),
        !pre.ordered,
        pre.is_closest(node),
        pre.next_id < usize::MAX,
        popped == (ClusterizerView { queue: popped.queue, ..pre }),
        pre.is_left_after(node, popped.queue),
        post == (ClusterizerView {
            clusters: post.clusters,
            next_id: (pre.next_id + 1) as usize,
            queue: post.queue,
            history: pre.history.after_merge(
                node.cluster_ids.0,
                node.cluster_ids.1,
                pre.next_id,
                post.clusters[pre.next_id],
            ),
            ..pre
        }),
        post.clusters.dom() == pre.clusters.dom().remove(node.cluster_ids.0).remove(
            node.cluster_ids.1,
        ).insert(pre.next_id),
        forall|id: usize| #[trigger]
            post.clusters.contains_key(id) && id != pre.next_id ==> post.clusters[id]
                == pre.clusters[id],
        call_ensures(
            T::merge,
            (&pre.clusters[node.cluster_ids.0], &pre.clusters[node.cluster_ids.1]),
            post.clusters[pre.next_id],
        ),
        post.clusters.dom().finite(),
        post.clusters.len() + 1 == pre.clusters.len(),
        post.queue_is_sound(),
        forall|id: usize| #[trigger]
            post.clusters.contains_key(id) && id != pre.next_id ==> post.is_covered(
                id,
                pre.next_id,
            ),
        forall|other: DistanceHeapNode|
            #![trigger post.queue.count(other)]
            #![trigger popped.queue.count(other)]
            popped.queue.count(other) <= post.queue.count(other),
        forall|other: DistanceHeapNode|
            #![trigger post.queue.count(other)]
            #![trigger popped.queue.count(other)]
            other.cluster_ids.1 != pre.next_id ==> popped.queue.count(other)
                == post.queue.count(other),
        forall|other: DistanceHeapNode| #[trigger]
            post.queue.count(other) > 0 && other.cluster_ids.1 == pre.next_id
                ==> post.clusters.contains_key(other.cluster_ids.0),
    ensures
        post.inv(),
        pre.steps_to(post, true),
{
    assert(pre.queue.count(node) > 0);
    assert forall|id1: usize, id2: usize|
        #![trigger post.clusters.contains_key(id1), post.clusters.contains_key(id2)]
        post.clusters.contains_key(id1) && post.clusters.contains_key(id2) && id1
            < id2 implies post.is_covered(id1, id2) by {
        if id2 != pre.next_id {
            assert(pre.clusters.contains_key(id1) && pre.clusters.contains_key(id2));
            assert(pre.is_covered(id1, id2));
            if !pre.is_measured(id1, id2, None) {
                let distance = choose|distance: u64|
                    pre.queue.count(#[trigger] candidate(distance, id1, id2)) > 0;
                let other = candidate(distance, id1, id2);
                assert(pre.is_candidate(other) && other != node);
                lemma_candidate_stays(pre, node, popped.queue, other);
                assert(post.queue.count(other) > 0);
            }
        }
    }
    assert(pre.merges_to(post, node)) by {
        assert forall|other: DistanceHeapNode|
            #![trigger post.queue.count(other)]
            #![trigger pre.queue.count(other)]
            other.cluster_ids.0 != pre.next_id && other.cluster_ids.1
                != pre.next_id implies post.queue.count(other) == if other.not_after(node) {
            0
        } else {
            pre.queue.count(other)
        } by {
            assert(popped.queue.count(other) == post.queue.count(other));
        }
    }
}

/// In ordered mode, the state after a merge, the splice of the chain and the
/// queueing of the merged cluster's pairs meets the invariant and is what a
/// merge step leads to.
proof fn lemma_merged_in_chain<T: ClusterTrait + Clone>(
    pre: ClusterizerView<T>,
    popped: ClusterizerView<T>,
    post: ClusterizerView<T>,
    node: DistanceHeapNode,
    k: int,
)
    requires
        pre.inv(),
        pre.ordered,
        pre.is_closest(node),
        pre.next_id < usize::MAX,
        0 <= k && k + 1 < pre.chain.len(),
        pre.chain[k] == node.cluster_ids.0,
        pre.chain[k + 1] == node.cluster_ids.1,
        popped == (ClusterizerView { queue: popped.queue, ..pre }),
        pre.is_left_after(node, popped.queue),
        post == (ClusterizerView {
            clusters: post.clusters,
            next_id: (pre.next_id + 1) as usize,
            queue: post.queue,
            chain: pre.chain.remove(k + 1).update(k, pre.next_id),
            history: pre.history.after_merge(
                node.cluster_ids.0,
                node.cluster_ids.1,
                pre.next_id,
                post.clusters[pre.next_id],
            ),
            ..pre
        }),
        post.clusters.dom() == pre.clusters.dom().remove(node.cluster_ids.0).remove(
            node.cluster_ids.1,
        ).insert(pre.next_id),
        forall|id: usize| #[trigger]
            post.clusters.contains_key(id) && id != pre.next_id ==> post.clusters[id]
                == pre.clusters[id],
        call_ensures(
            T::merge,
            (&pre.clusters[node.cluster_ids.0], &pre.clusters[node.cluster_ids.1]),
            post.clusters[pre.next_id],
        ),
        post.clusters.dom().finite(),
        post.clusters.len() + 1 == pre.clusters.len(),
        post.queue_is_sound(),
        post.chain_is_sound(),
        k > 0 ==> post.is_covered(post.chain[k - 1], pre.next_id),
        k + 1 < post.chain.len() ==> post.is_covered(pre.next_id, post.chain[k + 1]),
        forall|other: DistanceHeapNode|
            #![trigger post.queue.count(other)]
            #![trigger popped.queue.count(other)]
            popped.queue.count(other) <= post.queue.count(other),
        forall|other: DistanceHeapNode|
            #![trigger post.queue.count(other)]
            #![trigger popped.queue.count(other)]
            post.queue.count(other) > popped.queue.count(other) ==> {
                ||| k > 0 && other.cluster_ids == (post.chain[k - 1], pre.next_id)
                ||| k + 1 < post.chain.len() && other.cluster_ids == (
                    pre.next_id,
                    post.chain[k + 1],
                )
            },
    ensures
        post.inv(),
        pre.steps_to(post, true),
{
    let id1 = node.cluster_ids.0;
    let id2 = node.cluster_ids.1;
    assert(pre.queue.count(node) > 0);
    assert forall|j: int| 0 <= j < post.chain.len() && j != k implies #[trigger] post.chain[j]
        == pre.chain[if j > k {
        j + 1
    } else {
        j
    }] by {}
    assert forall|j: int| 0 <= j && j + 1 < post.chain.len() implies post.is_covered(
        #[trigger] post.chain[j],
        post.chain[j + 1],
    ) by {
        if j != k && j + 1 != k {
            let j0 = if j > k { j + 1 } else { j };
            let a = pre.chain[j0];
            let b = pre.chain[j0 + 1];
            assert(post.chain[j] == a && post.chain[j + 1] == b);
            assert(pre.is_covered(a, b));
            assert(pre.chain.contains(a) && pre.chain.contains(b));
            assert(post.chain.contains(a) && post.chain.contains(b));
            assert(post.clusters.contains_key(a) && post.clusters.contains_key(b));
            if !pre.is_measured(a, b, None) {
                let distance = choose|distance: u64|
                    pre.queue.count(#[trigger] candidate(distance, a, b)) > 0;
                let other = candidate(distance, a, b);
                assert(a != id1);
                assert(pre.is_candidate(other) && other != node);
                lemma_candidate_stays(pre, node, popped.queue, other);
                assert(post.queue.count(other) > 0);
            }
        }
    }
    assert forall|other: DistanceHeapNode| #[trigger]
        post.queue.count(other) > 0 && post.is_candidate(other) implies post.is_next_to(
        other.cluster_ids.0,
        other.cluster_ids.1,
    ) by {
        if post.queue.count(other) > popped.queue.count(other) {
            if k > 0 && other.cluster_ids == (post.chain[k - 1], pre.next_id) {
                assert(post.chain[k - 1] == other.cluster_ids.0 && post.chain[k]
                    == other.cluster_ids.1);
            } else {
                assert(post.chain[k] == other.cluster_ids.0 && post.chain[k + 1]
                    == other.cluster_ids.1);
            }
        } else {
            assert(pre.queue.count(other) > 0);
            assert(pre.is_candidate(other));
            assert(pre.is_next_to(other.cluster_ids.0, other.cluster_ids.1));
            let k0 = choose|k0: int|
                0 <= k0 && k0 + 1 < pre.chain.len() && #[trigger] pre.chain[k0]
                    == other.cluster_ids.0 && pre.chain[k0 + 1] == other.cluster_ids.1;
            assert(k0 != k && k0 != k + 1 && k0 + 1 != k);
            let j = if k0 > k { k0 - 1 } else { k0 };
            assert(post.chain[j] == other.cluster_ids.0 && post.chain[j + 1]
                == other.cluster_ids.1);
        }
    }
    assert(pre.merges_to(post, node)) by {
        assert(pre.chain.index_of(id1) == k);
        assert forall|other: DistanceHeapNode|
            #![trigger post.queue.count(other)]
            #![trigger pre.queue.count(other)]
            other.cluster_ids.0 != pre.next_id && other.cluster_ids.1
                != pre.next_id implies post.queue.count(other) == if other.not_after(node) {
            0
        } else {
            pre.queue.count(other)
        } by {
            assert(popped.queue.count(other) <= post.queue.count(other));
        }
    }
}

/// Right after `initialize` the history is sound.
proof fn lemma_history_initial<T: ClusterTrait + Clone>(view: ClusterizerView<T>, clusters: Seq<T>)
    requires
        view.is_initial(clusters),
    ensures
        view.history_is_sound(),
{
    assert forall|id: usize| #[trigger] view.clusters.contains_key(id) implies {
        &&& view.history.lineage[id].cluster() == view.clusters[id]
        &&& view.history.lineage[id].is_sound(view.history.origin)
        &&& view.leaves_of(id).no_duplicates()
        &&& view.leaves_of(id) == seq![id]
    } by {
        assert(view.history.lineage[id] == Lineage::Leaf { index: id, cluster: view.clusters[id] });
        assert(view.leaves_of(id) == seq![id]);
    }
    assert forall|i: int| 0 <= i < view.history.owner.len() implies view.clusters.contains_key(
        #[trigger] view.history.owner[i],
    ) && view.leaves_of(view.history.owner[i]).contains(i as usize) by {
        assert(view.clusters.contains_key(i as usize));
        assert(view.leaves_of(i as usize)[0] == i as usize);
    }
    if view.ordered {
        assert forall|k: int| 0 <= k && k + 1 < view.chain.len() implies view.leaves_of(
            #[trigger] view.chain[k],
        ).last() + 1 == view.leaves_of(view.chain[k + 1])[0] by {
            assert(view.clusters.contains_key(k as usize));
            assert(view.clusters.contains_key((k + 1) as usize));
        }
        if view.chain.len() > 0 {
            assert(view.clusters.contains_key(0usize));
        }
    }
}

/// The history stays sound when the queue alone changes.
proof fn lemma_history_kept<T: ClusterTrait + Clone>(
    pre: ClusterizerView<T>,
    post: ClusterizerView<T>,
)
    requires
        pre.history_is_sound(),
        post == (ClusterizerView { queue: post.queue, ..pre }),
    ensures
        post.history_is_sound(),
{
    assert forall|id: usize| post.leaves_of(id) == pre.leaves_of(id) by {}
    assert forall|k: int| 0 <= k && k + 1 < post.chain.len() && post.ordered implies post.leaves_of(
        #[trigger] post.chain[k],
    ).last() + 1 == post.leaves_of(post.chain[k + 1])[0] by {
        assert(pre.leaves_of(pre.chain[k]).last() + 1 == pre.leaves_of(pre.chain[k + 1])[0]);
    }
}

/// The history stays sound over a merge.
proof fn lemma_history_merged<T: ClusterTrait + Clone>(
    pre: ClusterizerView<T>,
    post: ClusterizerView<T>,
    node: DistanceHeapNode,
)
    requires
        pre.inv(),
        pre.history_is_sound(),
        pre.merges_to(post, node),
    ensures
        post.history_is_sound(),
{
    let id1 = node.cluster_ids.0;
    let id2 = node.cluster_ids.1;
    let new_id = pre.next_id;
    let first = pre.history.lineage[id1];
    let second = pre.history.lineage[id2];
    let leaves1 = first.leaves();
    let leaves2 = second.leaves();
    let merged = leaves1 + leaves2;
    let origin = pre.history.origin;
    assert(pre.queue.count(node) > 0);
    assert(pre.clusters.contains_key(id1) && pre.clusters.contains_key(id2) && id1 != id2);
    assert(!pre.clusters.contains_key(new_id));
    first.lemma_leaves(origin);
    second.lemma_leaves(origin);
    assert(leaves1 == pre.leaves_of(id1) && leaves2 == pre.leaves_of(id2));
    assert(post.leaves_of(new_id) == merged);
    assert forall|id: usize| post.clusters.contains_key(id) && id != new_id implies {
        &&& pre.clusters.contains_key(id)
        &&& id != id1
        &&& id != id2
        &&& post.history.lineage[id] == pre.history.lineage[id]
        &&& post.leaves_of(id) == pre.leaves_of(id)
    } by {}
    assert forall|j: int| 0 <= j < merged.len() implies 0 <= #[trigger] merged[j]
        < pre.history.owner.len() && (pre.history.owner[merged[j] as int] == id1
        || pre.history.owner[merged[j] as int] == id2) && (j < leaves1.len() ==> merged[j]
        == leaves1[j] && pre.history.owner[merged[j] as int] == id1) && (j >= leaves1.len()
        ==> merged[j] == leaves2[j - leaves1.len()] && pre.history.owner[merged[j] as int]
        == id2) by {
        if j < leaves1.len() {
            assert(merged[j] == pre.leaves_of(id1)[j]);
        } else {
            assert(merged[j] == pre.leaves_of(id2)[j - leaves1.len()]);
        }
    }
    assert(merged.no_duplicates()) by {
        assert forall|i: int, j: int|
            0 <= i < merged.len() && 0 <= j < merged.len() && i != j implies merged[i]
            != merged[j] by {
            if i < leaves1.len() && j < leaves1.len() {
                assert(leaves1[i] != leaves1[j]);
            } else if i >= leaves1.len() && j >= leaves1.len() {
                assert(leaves2[i - leaves1.len()] != leaves2[j - leaves1.len()]);
            }
        }
    }
    assert forall|id: usize| #[trigger] post.clusters.contains_key(id) implies {
        &&& post.history.lineage[id].cluster() == post.clusters[id]
        &&& post.history.lineage[id].is_sound(post.history.origin)
        &&& post.leaves_of(id).no_duplicates()
    } by {
        if id != new_id {
            assert(pre.clusters.contains_key(id));
        }
    }
    assert forall|id: usize, j: int|
        #![trigger post.clusters.contains_key(id), post.leaves_of(id)[j]]
        post.clusters.contains_key(id) && 0 <= j < post.leaves_of(id).len()
            implies post.history.owner[post.leaves_of(id)[j] as int] == id by {
        if id != new_id {
            assert(pre.clusters.contains_key(id));
            let leaf = pre.leaves_of(id)[j];
            pre.history.lineage[id].lemma_leaves(origin);
            assert(pre.history.owner[leaf as int] == id);
        } else {
            assert(post.leaves_of(id)[j] == merged[j]);
        }
    }
    assert forall|i: int| 0 <= i < post.history.owner.len() implies post.clusters.contains_key(
        #[trigger] post.history.owner[i],
    ) && post.leaves_of(post.history.owner[i]).contains(i as usize) by {
        let owner = pre.history.owner[i];
        assert(pre.clusters.contains_key(owner));
        assert(pre.leaves_of(owner).contains(i as usize));
        let j = choose|j: int|
            0 <= j < pre.leaves_of(owner).len() && pre.leaves_of(owner)[j] == i as usize;
        if owner == id1 {
            assert(merged[j] == i as usize);
        } else if owner == id2 {
            assert(merged[leaves1.len() + j] == i as usize);
        } else {
            assert(post.clusters.contains_key(owner));
        }
    }
    if pre.ordered {
        assert(pre.is_next_to(id1, id2));
        let k = choose|k: int|
            0 <= k && k + 1 < pre.chain.len() && #[trigger] pre.chain[k] == id1 && pre.chain[k + 1]
                == id2;
        assert(pre.chain.index_of(id1) == k);
        assert(post.chain == pre.chain.remove(k + 1).update(k, new_id));
        assert(pre.leaves_of(pre.chain[k]).last() + 1 == pre.leaves_of(pre.chain[k + 1])[0]);
        assert(is_consecutive(leaves1) && is_consecutive(leaves2));
        assert(is_consecutive(merged)) by {
            assert forall|j: int| 0 <= j < merged.len() implies #[trigger] merged[j] == merged[0]
                + j by {
                if j < leaves1.len() {
                    assert(leaves1[j] == leaves1[0] + j);
                } else {
                    assert(leaves2[j - leaves1.len()] == leaves2[0] + (j - leaves1.len()));
                    assert(leaves1[leaves1.len() - 1] == leaves1[0] + (leaves1.len() - 1));
                }
            }
        }
        assert forall|j: int| 0 <= j < post.chain.len() implies post.leaves_of(
            #[trigger] post.chain[j],
        ) == if j == k {
            merged
        } else {
            pre.leaves_of(pre.chain[if j > k {
                j + 1
            } else {
                j
            }])
        } by {
            if j != k {
                let j0 = if j > k { j + 1 } else { j };
                assert(post.chain[j] == pre.chain[j0]);
                assert(pre.chain.contains(pre.chain[j0]));
                assert(pre.chain[j0] != id1 && pre.chain[j0] != id2);
                assert(pre.clusters.contains_key(pre.chain[j0]));
                assert(post.clusters.contains_key(pre.chain[j0]));
            }
        }
        assert forall|id: usize| #[trigger] post.clusters.contains_key(id) implies is_consecutive(
            post.leaves_of(id),
        ) by {
            if id != new_id {
                assert(pre.clusters.contains_key(id));
            }
        }
        assert(pre.leaves_of(pre.chain[0])[0] == 0);
        assert forall|j: int| 0 <= j && j + 1 < post.chain.len() implies post.leaves_of(
            #[trigger] post.chain[j],
        ).last() + 1 == post.leaves_of(post.chain[j + 1])[0] by {
            let j0 = if j > k { j + 1 } else { j };
            assert(pre.leaves_of(pre.chain[j0]).last() + 1 == pre.leaves_of(pre.chain[j0 + 1])[0]);
            if j + 1 == k {
                assert(post.leaves_of(post.chain[j + 1]) == merged);
                assert(post.leaves_of(post.chain[j]) == pre.leaves_of(pre.chain[j]));
            } else if j == k {
                assert(pre.leaves_of(pre.chain[k + 1]).last() + 1 == pre.leaves_of(
                    pre.chain[k + 2],
                )[0]);
                assert(post.leaves_of(post.chain[j]) == merged);
                assert(post.leaves_of(post.chain[j + 1]) == pre.leaves_of(pre.chain[k + 2]));
                assert(merged.last() == leaves2.last());
            } else {
                assert(post.leaves_of(post.chain[j]) == pre.leaves_of(pre.chain[j0]));
                assert(post.leaves_of(post.chain[j + 1]) == pre.leaves_of(pre.chain[j0 + 1]));
            }
        }
    }
}

/// The candidate that a step merges holds the distance that was found between
/// its two clusters, and it comes first among all pairs that may be merged:
/// any pair of live clusters, the lower identifier first, or in ordered mode
/// any pair of neighbours in the chain, was found to be inadmissible or to be
/// at a distance with which it does not come before that candidate.
pub proof fn lemma_closest_pair<T: ClusterTrait + Clone>(
    view: ClusterizerView<T>,
    node: DistanceHeapNode,
    id1: usize,
    id2: usize,
)
    requires
        view.inv(),
        view.is_closest(node),
        view.clusters.contains_key(id1),
        view.clusters.contains_key(id2),
        if view.ordered {
            view.is_next_to(id1, id2)
        } else {
            id1 < id2
        },
    ensures
        view.is_measured(node.cluster_ids.0, node.cluster_ids.1, Some(node.distance)),
        view.is_measured(id1, id2, None) || exists|distance: u64|
            view.is_measured(id1, id2, Some(distance)) && node.not_after(
                #[trigger] candidate(distance, id1, id2),
            ),
{
    assert(view.queue.count(node) > 0);
    if view.ordered {
        let k = choose|k: int|
            0 <= k && k + 1 < view.chain.len() && #[trigger] view.chain[k] == id1 && view.chain[k
                + 1] == id2;
        assert(view.is_covered(view.chain[k], view.chain[k + 1]));
    }
    assert(view.is_covered(id1, id2));
    if !view.is_measured(id1, id2, None) {
        let distance = choose|distance: u64|
            view.queue.count(#[trigger] candidate(distance, id1, id2)) > 0;
        let other = candidate(distance, id1, id2);
        assert(view.queue.count(other) > 0 && view.is_candidate(other));
        assert(view.is_measured(id1, id2, Some(distance)));
        assert(node.not_after(other));
    }
}

/// Where a step finds no candidate, no pair may be merged: every pair of live
/// clusters, the lower identifier first, or in ordered mode every pair of
/// neighbours in the chain, was found to be inadmissible.
pub proof fn lemma_none_admissible<T: ClusterTrait + Clone>(
    view: ClusterizerView<T>,
    id1: usize,
    id2: usize,
)
    requires
        view.inv(),
        forall|node: DistanceHeapNode| #[trigger]
            view.queue.count(node) > 0 ==> !view.is_candidate(node),
        view.clusters.contains_key(id1),
        view.clusters.contains_key(id2),
        if view.ordered {
            view.is_next_to(id1, id2)
        } else {
            id1 < id2
        },
    ensures
        view.is_measured(id1, id2, None),
{
    if view.ordered {
        let k = choose|k: int|
            0 <= k && k + 1 < view.chain.len() && #[trigger] view.chain[k] == id1 && view.chain[k
                + 1] == id2;
        assert(view.is_covered(view.chain[k], view.chain[k + 1]));
    }
    assert(view.is_covered(id1, id2));
    if !view.is_measured(id1, id2, None) {
        let distance = choose|distance: u64|
            view.queue.count(#[trigger] candidate(distance, id1, id2)) > 0;
        assert(view.is_candidate(candidate(distance, id1, id2)));
    }
}

/// A step that merges leaves one live cluster fewer and moves the next
/// identifier up by one. The identifier of the merged cluster is above every
/// identifier that was live or queued before, so none is used twice; the two
/// merged clusters are retired and every other cluster lives on.
pub proof fn lemma_step_merges_one<T: ClusterTrait + Clone>(
    pre: ClusterizerView<T>,
    post: ClusterizerView<T>,
)
    requires
        pre.inv(),
        pre.steps_to(post, true),
    ensures
        post.clusters.len() + 1 == pre.clusters.len(),
        post.next_id == pre.next_id + 1,
        post.clusters.contains_key(pre.next_id),
        forall|id: usize| #[trigger] pre.clusters.contains_key(id) ==> id < pre.next_id,
        forall|node: DistanceHeapNode| #[trigger]
            pre.queue.count(node) > 0 ==> node.cluster_ids.0 < pre.next_id && node.cluster_ids.1
                < pre.next_id,
        forall|id: usize|
            #![trigger post.clusters.contains_key(id)]
            #![trigger pre.clusters.contains_key(id)]
            post.clusters.contains_key(id) ==> pre.clusters.contains_key(id) || id == pre.next_id,
        exists|id1: usize, id2: usize|
            {
                &&& id1 != id2
                &&& #[trigger] pre.clusters.contains_key(id1)
                &&& #[trigger] pre.clusters.contains_key(id2)
                &&& !post.clusters.contains_key(id1)
                &&& !post.clusters.contains_key(id2)
                &&& forall|id: usize|
                    #![trigger post.clusters.contains_key(id)]
                    #![trigger pre.clusters.contains_key(id)]
                    pre.clusters.contains_key(id) && id != id1 && id != id2
                        ==> post.clusters.contains_key(id)
            },
{
    let node = choose|node: DistanceHeapNode| #[trigger] pre.merges_to(post, node);
    let id1 = node.cluster_ids.0;
    let id2 = node.cluster_ids.1;
    assert(pre.queue.count(node) > 0);
    assert(pre.clusters.dom().remove(id1).contains(id2));
    assert(pre.clusters.contains_key(id1) && pre.clusters.contains_key(id2));
    assert(!post.clusters.contains_key(id1) && !post.clusters.contains_key(id2));
}

/// Along a run each state has one live cluster fewer than the state before
/// it.
proof fn lemma_run_prefix<T: ClusterTrait + Clone>(
    start: ClusterizerView<T>,
    trace: Seq<ClusterizerView<T>>,
    last: ClusterizerView<T>,
    target: usize,
    i: int,
)
    requires
        start.is_run(trace, last, target),
        0 <= i < trace.len(),
    ensures
        trace[i].clusters.len() + i == start.clusters.len(),
        trace[i].ordered == start.ordered,
        trace[i].history.origin == start.history.origin,
    decreases i,
{
    if i > 0 {
        lemma_run_prefix(start, trace, last, target, i - 1);
        assert(trace[i - 1].steps_to(trace[i], true));
        lemma_step_merges_one(trace[i - 1], trace[i]);
        let node = choose|node: DistanceHeapNode| #[trigger] trace[i - 1].merges_to(trace[i], node);
        assert(trace[i - 1].merges_to(trace[i], node));
    }
}

/// A run of `clusterize` towards `target` clusters ends with as many clusters
/// as it began with where those were no more than `target`, and then nothing
/// has changed. It ends with no fewer than `target` clusters else, and with
/// more only where no candidate is left.
pub proof fn lemma_run_ends<T: ClusterTrait + Clone>(
    start: ClusterizerView<T>,
    trace: Seq<ClusterizerView<T>>,
    last: ClusterizerView<T>,
    target: usize,
)
    requires
        start.is_run(trace, last, target),
    ensures
        last.clusters.len() + trace.len() == start.clusters.len() + 1,
        last.ordered == start.ordered,
        last.history.origin == start.history.origin,
        start.clusters.len() <= target ==> last == start,
        start.clusters.len() > target ==> last.clusters.len() >= target,
        last.clusters.len() > target ==> last.queue == Multiset::<DistanceHeapNode>::empty(),
{
    let end = trace.len() - 1;
    lemma_run_prefix(start, trace, last, target, end);
    if end > 0 {
        lemma_run_prefix(start, trace, last, target, end - 1);
        assert(trace[end - 1].clusters.len() > target);
    }
    if start.clusters.len() <= target && end > 0 {
        lemma_run_prefix(start, trace, last, target, 0);
        assert(trace[0].clusters.len() > target);
    }
}

/// Once a step has made no merge, the next step makes none either and
/// leaves the state as it is.
pub proof fn lemma_step_stays_exhausted<T: ClusterTrait + Clone>(
    first: ClusterizerView<T>,
    second: ClusterizerView<T>,
    third: ClusterizerView<T>,
    merged: bool,
)
    requires
        first.steps_to(second, false),
        second.steps_to(third, merged),
    ensures
        !merged,
        third == second,
{
    assert(third.queue =~= second.queue);
}

/// A listing of the clusters has as many places as there are clusters.
pub proof fn lemma_listing_len<T: Clone>(ids: Seq<usize>, clusters: Map<usize, T>, listed: Seq<T>)
    requires
        is_listing(ids, clusters, listed),
    ensures
        clusters.dom().finite(),
        listed.len() == clusters.len(),
{
    assert(ids.no_duplicates());
    ids.unique_seq_to_set();
    assert(ids.to_set() =~= clusters.dom());
}

/// Right after `initialize` there are as many live clusters as were given.
pub proof fn lemma_initial_len<T: ClusterTrait + Clone>(view: ClusterizerView<T>, clusters: Seq<T>)
    requires
        view.is_initial(clusters),
    ensures
        view.clusters.dom().finite(),
        view.clusters.len() == clusters.len(),
{
    let ids = initial_ids(clusters.len());
    assert(ids.no_duplicates());
    ids.unique_seq_to_set();
    assert(ids.to_set() =~= view.clusters.dom()) by {
        assert forall|id: usize| ids.to_set().contains(id) <==> view.clusters.dom().contains(
            id,
        ) by {
            if id < clusters.len() {
                assert(ids[id as int] == id);
            }
        }
    }
}

/// Identifiers that a map hands out in its order are in ascending order.
proof fn lemma_increasing_ids(ids: Seq<usize>)
    requires
        vstd::std_specs::btree::increasing_seq(ids),
    ensures
        forall|i: int, j: int| 0 <= i < j < ids.len() ==> ids[i] < ids[j],
{
    vstd::std_specs::btree::axiom_increasing_seq_meaning(ids);
    assert forall|i: int, j: int| 0 <= i < j < ids.len() implies ids[i] < ids[j] by {
        assert(ids[i].cmp_spec(&ids[j]) is Less);
    }
}

/// The links of the adjacency index say what the chain says: each identifier
/// is linked to the one before it and the one after it.
spec fn is_linked(links: Map<usize, (Option<usize>, Option<usize>)>, chain: Seq<usize>) -> bool {
    &&& forall|id: usize| links.contains_key(id) <==> chain.contains(id)
    &&& forall|k: int|
        0 <= k < chain.len() ==> (#[trigger] links[chain[k]]) == (
            if k > 0 {
                Some(chain[k - 1])
            } else {
                None
            },
            if k + 1 < chain.len() {
                Some(chain[k + 1])
            } else {
                None
            },
        )
}

/// A greedy agglomerative clusterizer over clusters of type `T`.
pub struct HierarchicalClusterizer<T: ClusterTrait> {
    opt_1d: bool,
    cluster_map: BTreeMap<usize, T>,
    cluster_id_next: usize,
    distance_heap: DistanceHeap,
    order_map: BTreeMap<usize, (Option<usize>, Option<usize>)>,
    order: Ghost<Seq<usize>>,
    history: Ghost<History<T>>,
}

impl<T: ClusterTrait + Clone> View for HierarchicalClusterizer<T> {
    type V = ClusterizerView<T>;

    closed spec fn view(&self) -> ClusterizerView<T> {
        ClusterizerView {
            ordered: self.opt_1d,
            clusters: self.cluster_map@,
            next_id: self.cluster_id_next,
            queue: self.distance_heap@,
            chain: self.order@,
            history: self.history@,
        }
    }
}

impl<T: ClusterTrait + Clone> HierarchicalClusterizer<T> {
    /// The clusterizer is consistent: its view meets the invariant, the queue
    /// is in heap order, and the adjacency index stores the chain.
    pub closed spec fn wf(&self) -> bool {
        &&& self@.inv()
        &&& self@.history_is_sound()
        &&& self.distance_heap.wf()
        &&& is_linked(self.order_map@, self.order@)
    }

    /// A consistent clusterizer meets the invariant of its view.
    pub proof fn lemma_wf_inv(&self)
        requires
            self.wf(),
        ensures
            self@.inv(),
            self@.history_is_sound(),
    {
    }

    /// A clusterizer without clusters, in unordered mode.
    pub fn new() -> (clusterizer: Self)
        ensures
            clusterizer.wf(),
            !clusterizer@.ordered,
            clusterizer@.clusters == Map::<usize, T>::empty(),
            clusterizer@.next_id == 0,
            clusterizer@.queue == Multiset::<DistanceHeapNode>::empty(),
            clusterizer@.chain == Seq::<usize>::empty(),
            clusterizer@.history == History::initial(Seq::<T>::empty(), Map::<usize, T>::empty()),
    {
        Self {
            opt_1d: false,
            cluster_map: BTreeMap::new(),
            cluster_id_next: 0,
            distance_heap: DistanceHeap::new(),
            order_map: BTreeMap::new(),
            order: Ghost(Seq::empty()),
            history: Ghost(History::initial(Seq::empty(), Map::empty())),
        }
    }

    /// Chooses ordered mode (`true`) or unordered mode (`false`) for the next
    /// `initialize`. The clusters, the queue and the chain stay as they are.
    pub fn set_1d_opt(&mut self, opt_1d: bool)
        ensures
            final(self)@ == (ClusterizerView { ordered: opt_1d, ..old(self)@ }),
            old(self).wf() && old(self)@.ordered == opt_1d ==> final(self).wf(),
            old(self).wf() && old(self)@.clusters.len() == 0 && old(self)@.chain.len() == 0
                ==> final(self).wf(),
    {
        self.opt_1d = opt_1d;
        proof {
            if old(self).wf() && old(self)@.clusters.len() == 0 && old(self)@.chain.len() == 0 {
                self@.clusters.dom().lemma_len0_is_empty();
                assert(self@.clusters.dom() =~= Set::<usize>::empty());
                assert(self.order@ =~= Seq::<usize>::empty());
            }
        }
    }

    /// Replaces whatever the clusterizer held by `clusters`, each under its
    /// index as identifier, and queues the candidates among them: every pair
    /// of neighbours in ordered mode, every pair otherwise, but for the pairs
    /// that have no distance.
    ///
    /// The clusterizer is consistent afterwards, and steps can be made, where
    /// the identifiers that merges can need fit into `usize`: with no more
    /// clusters than half of `usize::MAX`.
    pub fn initialize(&mut self, clusters: &[T])
        ensures
            2 * clusters.len() <= usize::MAX ==> final(self).wf(),
            final(self)@.is_coherent(),
            final(self)@.history_is_sound(),
            final(self)@.ordered == old(self)@.ordered,
            final(self)@.is_initial(clusters@),
            final(self)@.clusters.len() == clusters.len(),
    {
        self.cluster_map.clear();
        let mut index: usize = 0;
        while index < clusters.len()
            invariant
                index <= clusters.len(),
                self.opt_1d == old(self).opt_1d,
                self.cluster_map@.dom().finite(),
                self.cluster_map@.dom().len() == index,
                forall|id: usize| self.cluster_map@.contains_key(id) <==> id < index,
                forall|id: usize|
                    id < index ==> cloned(clusters@[id as int], #[trigger] self.cluster_map@[id]),
            decreases clusters.len() - index,
        {
            self.cluster_map.insert(index, clusters[index].clone());
            index += 1;
        }
        self.cluster_id_next = self.cluster_map.len();
        self.history = Ghost(History::initial(clusters@, self.cluster_map@));
        assert(self.cluster_map@.dom() =~= Set::new(|id: usize| id < clusters.len()));
        if self.opt_1d {
            self._build_order_map();
            self._build_distance_heap_1d();
            proof {
                let view = self@;
                assert forall|id: usize| view.chain.contains(id) <==> view.clusters.contains_key(
                    id,
                ) by {
                    if id < clusters.len() {
                        assert(view.chain[id as int] == id);
                    }
                }
                assert forall|k: int| 0 <= k && k + 1 < view.chain.len() implies view.is_covered(
                    #[trigger] view.chain[k],
                    view.chain[k + 1],
                ) by {
                    assert(view.clusters.contains_key(k as usize));
                }
                assert forall|node: DistanceHeapNode| #[trigger]
                    view.queue.count(node) > 0 && view.is_candidate(node) implies view.is_next_to(
                    node.cluster_ids.0,
                    node.cluster_ids.1,
                ) by {
                    let k = node.cluster_ids.0 as int;
                    assert(view.chain[k] == node.cluster_ids.0 && view.chain[k + 1]
                        == node.cluster_ids.1);
                }
            }
        } else {
            self.order_map.clear();
            self.order = Ghost(Seq::empty());
            self._build_distance_heap();
        }
        proof {
            lemma_history_initial(self@, clusters@);
        }
    }

    /// Queues every pair of clusters that has a distance.
    fn _build_distance_heap(&mut self)
        requires
            forall|id: usize|
                old(self).cluster_map@.contains_key(id) <==> id < old(self).cluster_id_next,
        ensures
            final(self)@ == (ClusterizerView { queue: final(self)@.queue, ..old(self)@ }),
            final(self).order_map == old(self).order_map,
            final(self).distance_heap.wf(),
            final(self)@.queue_is_sound(),
            final(self)@.covers_all(),
            forall|node: DistanceHeapNode| #[trigger]
                final(self)@.queue.count(node) > 0 ==> node.cluster_ids.0 < node.cluster_ids.1,
    {
        let size: usize = self.cluster_id_next;
        self.distance_heap.clear();
        let mut cluster_id1: usize = 0;
        while cluster_id1 < size
            invariant
                cluster_id1 <= size,
                size == self.cluster_id_next,
                forall|id: usize| self.cluster_map@.contains_key(id) <==> id < size,
                self@ == (ClusterizerView { queue: self@.queue, ..old(self)@ }),
                self.order_map == old(self).order_map,
                self.distance_heap.wf(),
                self@.queue_is_sound(),
                forall|node: DistanceHeapNode| #[trigger]
                    self@.queue.count(node) > 0 ==> node.cluster_ids.0 < node.cluster_ids.1
                        && node.cluster_ids.0 < cluster_id1,
                forall|id1: usize, id2: usize|
                    #![trigger self@.clusters.contains_key(id1), self@.clusters.contains_key(id2)]
                    self@.clusters.contains_key(id1) && self@.clusters.contains_key(id2) && id1
                        < cluster_id1 && id1 < id2 ==> self@.is_covered(id1, id2),
            decreases size - cluster_id1,
        {
            let mut cluster_id2: usize = cluster_id1 + 1;
            while cluster_id2 < size
                invariant
                    cluster_id1 < cluster_id2 <= size,
                    size == self.cluster_id_next,
                    forall|id: usize| self.cluster_map@.contains_key(id) <==> id < size,
                    self@ == (ClusterizerView { queue: self@.queue, ..old(self)@ }),
                    self.order_map == old(self).order_map,
                    self.distance_heap.wf(),
                    self@.queue_is_sound(),
                    forall|node: DistanceHeapNode| #[trigger]
                        self@.queue.count(node) > 0 ==> node.cluster_ids.0 < node.cluster_ids.1 && (
                        node.cluster_ids.0 < cluster_id1 || (node.cluster_ids.0 == cluster_id1
                            && node.cluster_ids.1 < cluster_id2)),
                    forall|id1: usize, id2: usize|
                        #![trigger self@.clusters.contains_key(id1), self@.clusters.contains_key(id2)]
                        self@.clusters.contains_key(id1) && self@.clusters.contains_key(id2) && id1
                            < id2 && (id1 < cluster_id1 || (id1 == cluster_id1 && id2
                            < cluster_id2)) ==> self@.is_covered(id1, id2),
                decreases size - cluster_id2,
            {
                self._push_distance(cluster_id1, cluster_id2);
                cluster_id2 += 1;
            }
            cluster_id1 += 1;
        }
    }

    /// Queues every pair of neighbouring clusters that has a distance.
    fn _build_distance_heap_1d(&mut self)
        requires
            forall|id: usize|
                old(self).cluster_map@.contains_key(id) <==> id < old(self).cluster_id_next,
        ensures
            final(self)@ == (ClusterizerView { queue: final(self)@.queue, ..old(self)@ }),
            final(self).order_map == old(self).order_map,
            final(self).distance_heap.wf(),
            final(self)@.queue_is_sound(),
            forall|id: usize|
                #[trigger] final(self)@.clusters.contains_key(id) && id + 1 < old(self).cluster_id_next
                    ==> final(self)@.is_covered(id, (id + 1) as usize),
            forall|node: DistanceHeapNode| #[trigger]
                final(self)@.queue.count(node) > 0 ==> node.cluster_ids.0 + 1
                    == node.cluster_ids.1,
    {
        let size: usize = self.cluster_id_next;
        self.distance_heap.clear();
        if size == 0 {
            return ;
        }
        let mut cluster_id1: usize = 0;
        while cluster_id1 < size - 1
            invariant
                0 < size == self.cluster_id_next,
                forall|id: usize| self.cluster_map@.contains_key(id) <==> id < size,
                self@ == (ClusterizerView { queue: self@.queue, ..old(self)@ }),
                self.order_map == old(self).order_map,
                self.distance_heap.wf(),
                self@.queue_is_sound(),
                forall|node: DistanceHeapNode| #[trigger]
                    self@.queue.count(node) > 0 ==> node.cluster_ids.0 + 1 == node.cluster_ids.1
                        && node.cluster_ids.0 < cluster_id1,
                forall|id: usize|
                    #[trigger] self@.clusters.contains_key(id) && id < cluster_id1 && id + 1 < size
                        ==> self@.is_covered(id, (id + 1) as usize),
            decreases size - cluster_id1,
        {
            let cluster_id2: usize = cluster_id1 + 1;
            self._push_distance(cluster_id1, cluster_id2);
            cluster_id1 += 1;
        }
    }

    /// Builds the adjacency index over the identifiers in ascending order.
    fn _build_order_map(&mut self)
        ensures
            final(self)@ == (ClusterizerView {
                chain: initial_ids(old(self).cluster_id_next as nat),
                ..old(self)@
            }),
            final(self).distance_heap == old(self).distance_heap,
            is_linked(final(self).order_map@, final(self).order@),
    {
        let size: usize = self.cluster_id_next;
        self.order_map.clear();
        let mut cluster_id: usize = 0;
        while cluster_id < size
            invariant
                cluster_id <= size,
                size == self.cluster_id_next,
                self@ == (ClusterizerView { chain: self@.chain, ..old(self)@ }),
                self.distance_heap == old(self).distance_heap,
                forall|id: usize| self.order_map@.contains_key(id) <==> id < cluster_id,
                forall|id: usize|
                    id < cluster_id ==> (#[trigger] self.order_map@[id]) == (
                        if id > 0 {
                            Some((id - 1) as usize)
                        } else {
                            None
                        },
                        if id + 1 < size {
                            Some((id + 1) as usize)
                        } else {
                            None
                        },
                    ),
            decreases size - cluster_id,
        {
            let before: Option<usize> = if cluster_id > 0 {
                Some(cluster_id - 1)
            } else {
                None
            };
            let after: Option<usize> = if cluster_id < size - 1 {
                Some(cluster_id + 1)
            } else {
                None
            };
            self.order_map.insert(cluster_id, (before, after));
            cluster_id += 1;
        }
        self.order = Ghost(initial_ids(size as nat));
        proof {
            let chain = initial_ids(size as nat);
            assert forall|id: usize| self.order_map@.contains_key(id) <==> chain.contains(id) by {
                if id < size {
                    assert(chain[id as int] == id);
                }
            }
        }
    }

    /// Measures the distance from cluster `cluster_id1` to cluster
    /// `cluster_id2`. Where there is one, the candidate for the pair is
    /// returned.
    fn _create_distance_heap_node(&self, cluster_id1: usize, cluster_id2: usize) -> (node: Option<
        DistanceHeapNode,
    >)
        requires
            self.cluster_map@.contains_key(cluster_id1),
            self.cluster_map@.contains_key(cluster_id2),
        ensures
            match node {
                Some(node) => node == candidate(node.distance, cluster_id1, cluster_id2)
                    && self@.is_measured(cluster_id1, cluster_id2, Some(node.distance)),
                None => self@.is_measured(cluster_id1, cluster_id2, None),
            },
    {
        let cluster1 = self.cluster_map.get(&cluster_id1).unwrap();
        let cluster2 = self.cluster_map.get(&cluster_id2).unwrap();
        if let Some(distance) = T::distance(cluster1, cluster2) {
            Some(DistanceHeapNode { distance, cluster_ids: (cluster_id1, cluster_id2) })
        } else {
            None
        }
    }

    /// Measures the distance from cluster `cluster_id1` to cluster
    /// `cluster_id2` and queues the pair where there is one.
    fn _push_distance(&mut self, cluster_id1: usize, cluster_id2: usize)
        requires
            old(self).cluster_map@.contains_key(cluster_id1),
            old(self).cluster_map@.contains_key(cluster_id2),
            cluster_id1 != cluster_id2,
            cluster_id1 < old(self).cluster_id_next,
            cluster_id2 < old(self).cluster_id_next,
            old(self).distance_heap.wf(),
            old(self)@.queue_is_sound(),
            forall|node: DistanceHeapNode| #[trigger]
                old(self)@.queue.count(node) > 0 ==> node.cluster_ids != (
                    cluster_id1,
                    cluster_id2,
                ),
        ensures
            final(self)@ == (ClusterizerView { queue: final(self)@.queue, ..old(self)@ }),
            final(self).order_map == old(self).order_map,
            final(self).distance_heap.wf(),
            final(self)@.queue_is_sound(),
            final(self)@.is_covered(cluster_id1, cluster_id2),
            forall|node: DistanceHeapNode|
                old(self)@.queue.count(node) <= #[trigger] final(self)@.queue.count(node),
            forall|node: DistanceHeapNode|
                node.cluster_ids != (cluster_id1, cluster_id2) ==> old(self)@.queue.count(node)
                    == #[trigger] final(self)@.queue.count(node),
    {
        if let Some(node) = self._create_distance_heap_node(cluster_id1, cluster_id2) {
            self.distance_heap.push(node);
            proof {
                lemma_queue_stays_sound(old(self)@, self@, node);
            }
        }
    }

    /// Copies of the live clusters, in ascending order of their identifiers.
    pub fn get_clusters(&self) -> (clusters: Vec<T>)
        ensures
            exists|ids: Seq<usize>| #[trigger] is_listing(ids, self@.clusters, clusters@),
    {
        let mut out: Vec<T> = Vec::new();
        let values = self.cluster_map.values();
        let ghost ids: Seq<usize> = choose|ids: Seq<usize>| {
            &&& vstd::std_specs::btree::increasing_seq(ids)
            &&& ids.to_set() == self.cluster_map@.dom()
            &&& ids.no_duplicates()
            &&& vstd::std_specs::iter::IteratorSpec::remaining(&values) == ids.map(
                |i: int, k: usize| &self.cluster_map@[k],
            )
        };
        for v in it: values
            invariant
                out.len() == it.index(),
                it.seq() == ids.map(|i: int, k: usize| &self.cluster_map@[k]),
                forall|k: int| 0 <= k < out.len() ==> cloned(*it.seq()[k], #[trigger] out@[k]),
        {
            out.push(v.clone());
        }
        proof {
            lemma_increasing_ids(ids);
            assert(out@.len() == ids.len());
            assert forall|id: usize| ids.contains(id) <==> self@.clusters.contains_key(id) by {
                assert(ids.to_set().contains(id) <==> ids.contains(id));
            }
            assert(forall|i: int, j: int| 0 <= i < j < ids.len() ==> ids[i] < ids[j]);
            assert(forall|k: int|
                0 <= k < ids.len() ==> cloned(self@.clusters[ids[k]], #[trigger] out@[k]));
            assert(is_listing(ids, self@.clusters, out@));
        }
        out
    }

    /// Takes candidates out of the queue, closest first, until one names two
    /// live clusters; that one is returned. `None` says that the queue ran
    /// empty first.
    fn _distance_heap_pop(&mut self) -> (popped: Option<DistanceHeapNode>)
        requires
            old(self).distance_heap.wf(),
            old(self)@.queue_is_sound(),
        ensures
            final(self)@ == (ClusterizerView { queue: final(self)@.queue, ..old(self)@ }),
            final(self).order_map == old(self).order_map,
            final(self).distance_heap.wf(),
            match popped {
                Some(node) => {
                    &&& old(self)@.is_closest(node)
                    &&& old(self)@.is_left_after(node, final(self)@.queue)
                },
                None => {
                    &&& final(self)@.queue == Multiset::<DistanceHeapNode>::empty()
                    &&& forall|other: DistanceHeapNode| #[trigger]
                        old(self)@.queue.count(other) > 0 ==> !old(self)@.is_candidate(other)
                },
            },
    {
        let ghost mut dropped: Option<DistanceHeapNode> = None;
        loop
            invariant
                self@ == (ClusterizerView { queue: self@.queue, ..old(self)@ }),
                self.order_map == old(self).order_map,
                self.distance_heap.wf(),
                old(self)@.queue_is_sound(),
                forall|node: DistanceHeapNode|
                    #![trigger self@.queue.count(node)]
                    #![trigger old(self)@.queue.count(node)]
                    self@.queue.count(node) <= old(self)@.queue.count(node),
                forall|other: DistanceHeapNode|
                    #![trigger self@.queue.count(other)]
                    #![trigger old(self)@.queue.count(other)]
                    old(self)@.is_candidate(other) ==> self@.queue.count(other)
                        == old(self)@.queue.count(other),
                forall|other: DistanceHeapNode|
                    #![trigger self@.queue.count(other)]
                    #![trigger old(self)@.queue.count(other)]
                    self@.queue.count(other) != old(self)@.queue.count(other) ==> dropped is Some
                        && other.not_after(dropped.unwrap()),
                forall|other: DistanceHeapNode| #[trigger]
                    self@.queue.count(other) > 0 && dropped is Some
                        ==> dropped.unwrap().not_after(other),
            decreases self@.queue.len(),
        {
            let ghost before = self@.queue;
            let node = self.distance_heap.pop();
            if let Some(node) = node {
                if self.cluster_map.contains_key(&node.cluster_ids.0)
                    && self.cluster_map.contains_key(&node.cluster_ids.1) {
                    proof {
                        assert(before.count(node) > 0);
                        assert(old(self)@.queue.count(node) == 1);
                        assert forall|other: DistanceHeapNode| #[trigger]
                            old(self)@.queue.count(other) > 0 && old(self)@.is_candidate(
                                other,
                            ) implies node.not_after(other) by {
                            assert(before.count(other) > 0);
                        }
                        assert forall|other: DistanceHeapNode|
                            #![trigger self@.queue.count(other)]
                            #![trigger old(self)@.queue.count(other)]
                            self@.queue.count(other) == if other.not_after(node) {
                                0
                            } else {
                                old(self)@.queue.count(other)
                            } by {
                            if other != node {
                                if other.precedes(node) {
                                    if before.count(other) > 0 {
                                        assert(node.not_after(other));
                                    }
                                } else {
                                    if before.count(other) != old(self)@.queue.count(other) {
                                        assert(other.not_after(dropped.unwrap()));
                                        assert(dropped.unwrap().not_after(node));
                                    }
                                }
                            }
                        }
                    }
                    return Some(node);
                }
                proof {
                    assert forall|other: DistanceHeapNode|
                        #![trigger self@.queue.count(other)]
                        #![trigger old(self)@.queue.count(other)]
                        self@.queue.count(other) != old(self)@.queue.count(
                            other,
                        ) implies other.not_after(node) by {
                        if other != node {
                            assert(before.count(other) != old(self)@.queue.count(other));
                            assert(other.not_after(dropped.unwrap()));
                            assert(dropped.unwrap().not_after(node));
                        }
                    }
                    assert forall|other: DistanceHeapNode| #[trigger]
                        self@.queue.count(other) > 0 implies node.not_after(other) by {
                        assert(before.count(other) > 0);
                    }
                    dropped = Some(node);
                }
            } else {
                proof {
                    assert(self@.queue =~= Multiset::<DistanceHeapNode>::empty());
                }
                return None;
            }
        }
    }

    /// Queues the pairs of the cluster `cluster_new_id` with every other live
    /// cluster, but for the pairs that have no distance.
    fn _distance_heap_push_related(&mut self, cluster_new_id: usize)
        requires
            old(self).cluster_map@.contains_key(cluster_new_id),
            forall|id: usize| #[trigger]
                old(self).cluster_map@.contains_key(id) ==> id < old(self).cluster_id_next,
            old(self).distance_heap.wf(),
            old(self)@.queue_is_sound(),
            forall|node: DistanceHeapNode| #[trigger]
                old(self)@.queue.count(node) > 0 ==> node.cluster_ids.0 != cluster_new_id
                    && node.cluster_ids.1 != cluster_new_id,
        ensures
            final(self)@ == (ClusterizerView { queue: final(self)@.queue, ..old(self)@ }),
            final(self).order_map == old(self).order_map,
            final(self).distance_heap.wf(),
            final(self)@.queue_is_sound(),
            forall|id: usize| #[trigger]
                final(self)@.clusters.contains_key(id) && id != cluster_new_id
                    ==> final(self)@.is_covered(id, cluster_new_id),
            forall|node: DistanceHeapNode|
                #![trigger final(self)@.queue.count(node)]
                #![trigger old(self)@.queue.count(node)]
                old(self)@.queue.count(node) <= final(self)@.queue.count(node),
            forall|node: DistanceHeapNode|
                #![trigger final(self)@.queue.count(node)]
                #![trigger old(self)@.queue.count(node)]
                node.cluster_ids.1 != cluster_new_id ==> old(self)@.queue.count(node)
                    == final(self)@.queue.count(node),
            forall|node: DistanceHeapNode| #[trigger]
                final(self)@.queue.count(node) > 0 && node.cluster_ids.1 == cluster_new_id
                    ==> final(self)@.clusters.contains_key(node.cluster_ids.0),
    {
        let keys = self.cluster_map.keys();
        let ghost ids: Seq<usize> = vstd::std_specs::iter::IteratorSpec::remaining(&keys).unref();
        proof {
            let listed = vstd::std_specs::iter::IteratorSpec::remaining(&keys);
            assert(listed.no_duplicates());
            assert forall|i: int, j: int|
                0 <= i < ids.len() && 0 <= j < ids.len() && i != j implies ids[i] != ids[j] by {
                assert(listed[i] != listed[j]);
            }
        }
        for cluster_id in it: keys
            invariant
                it.seq().unref() == ids,
                ids.to_set() == self.cluster_map@.dom(),
                ids.no_duplicates(),
                forall|node: DistanceHeapNode| #[trigger]
                    self@.queue.count(node) > 0 ==> node.cluster_ids.0 != cluster_new_id && (
                    node.cluster_ids.1 == cluster_new_id ==> exists|j: int|
                        0 <= j < it.index() && #[trigger] ids[j] == node.cluster_ids.0),
                self.cluster_map@.contains_key(cluster_new_id),
                forall|id: usize| #[trigger]
                    self.cluster_map@.contains_key(id) ==> id < self.cluster_id_next,
                self@ == (ClusterizerView { queue: self@.queue, ..old(self)@ }),
                self.order_map == old(self).order_map,
                self.distance_heap.wf(),
                self@.queue_is_sound(),
                forall|k: int|
                    0 <= k < it.index() && ids[k] != cluster_new_id ==> self@.is_covered(
                        #[trigger] ids[k],
                        cluster_new_id,
                    ),
                forall|node: DistanceHeapNode|
                    #![trigger self@.queue.count(node)]
                    #![trigger old(self)@.queue.count(node)]
                    old(self)@.queue.count(node) <= self@.queue.count(node),
                forall|node: DistanceHeapNode|
                    #![trigger self@.queue.count(node)]
                    #![trigger old(self)@.queue.count(node)]
                    node.cluster_ids.1 != cluster_new_id ==> old(self)@.queue.count(node)
                        == self@.queue.count(node),
        {
            let cluster_id: usize = *cluster_id;
            assert(ids.to_set().contains(cluster_id));
            if cluster_id != cluster_new_id {
                if let Some(node) = self._create_distance_heap_node(cluster_id, cluster_new_id) {
                    let ghost before = self@;
                    proof {
                        if before.queue.count(node) > 0 {
                            let j = choose|j: int|
                                0 <= j < it.index() && #[trigger] ids[j] == node.cluster_ids.0;
                            assert(ids[it.index()] == cluster_id);
                        }
                    }
                    self.distance_heap.push(node);
                    proof {
                        lemma_queue_stays_sound(before, self@, node);
                        assert(ids[it.index()] == node.cluster_ids.0);
                    }
                }
            }
        }
        proof {
            assert forall|id: usize| #[trigger]
                self@.clusters.contains_key(id) && id != cluster_new_id implies self@.is_covered(
                id,
                cluster_new_id,
            ) by {
                assert(ids.to_set().contains(id));
                let k = choose|k: int| 0 <= k < ids.len() && ids[k] == id;
                assert(self@.is_covered(ids[k], cluster_new_id));
            }
        }
    }

    /// Queues the pairs of the cluster `cluster_new_id` with the cluster
    /// before it and with the cluster after it in the chain, but for the pairs
    /// that have no distance.
    fn _distance_heap_push_related_1d(&mut self, cluster_new_id: usize, Ghost(k): Ghost<int>)
        requires
            0 <= k < old(self).order@.len(),
            old(self).order@[k] == cluster_new_id,
            is_linked(old(self).order_map@, old(self).order@),
            old(self)@.chain_is_sound(),
            forall|id: usize| #[trigger]
                old(self).cluster_map@.contains_key(id) ==> id < old(self).cluster_id_next,
            old(self).distance_heap.wf(),
            old(self)@.queue_is_sound(),
            forall|node: DistanceHeapNode| #[trigger]
                old(self)@.queue.count(node) > 0 ==> node.cluster_ids.0 != cluster_new_id
                    && node.cluster_ids.1 != cluster_new_id,
        ensures
            final(self)@ == (ClusterizerView { queue: final(self)@.queue, ..old(self)@ }),
            final(self).order_map == old(self).order_map,
            final(self).distance_heap.wf(),
            final(self)@.queue_is_sound(),
            k > 0 ==> final(self)@.is_covered(old(self).order@[k - 1], cluster_new_id),
            k + 1 < old(self).order@.len() ==> final(self)@.is_covered(
                cluster_new_id,
                old(self).order@[k + 1],
            ),
            forall|node: DistanceHeapNode|
                #![trigger final(self)@.queue.count(node)]
                #![trigger old(self)@.queue.count(node)]
                old(self)@.queue.count(node) <= final(self)@.queue.count(node),
            forall|node: DistanceHeapNode|
                #![trigger final(self)@.queue.count(node)]
                #![trigger old(self)@.queue.count(node)]
                final(self)@.queue.count(node) > old(self)@.queue.count(node) ==> {
                    ||| k > 0 && node.cluster_ids == (old(self).order@[k - 1], cluster_new_id)
                    ||| k + 1 < old(self).order@.len() && node.cluster_ids == (
                        cluster_new_id,
                        old(self).order@[k + 1],
                    )
                },
    {
        assert(self.order@.contains(cluster_new_id));
        let links: (Option<usize>, Option<usize>) = *self.order_map.get(&cluster_new_id).unwrap();
        // Left
        if let Some(cluster_id) = links.0 {
            assert(self.order@.contains(cluster_id));
            self._push_distance(cluster_id, cluster_new_id);
        }
        // Right
        if let Some(cluster_id) = links.1 {
            assert(self.order@.contains(cluster_id));
            self._push_distance(cluster_new_id, cluster_id);
        }
    }

    /// Puts `cluster_new_id` into the chain in the place of `cluster_id1` and
    /// `cluster_id2`, of which the first comes directly before the second.
    fn _order_map_insert_new(
        &mut self,
        cluster_new_id: usize,
        cluster_id1: usize,
        cluster_id2: usize,
        Ghost(k): Ghost<int>,
    )
        requires
            0 <= k && k + 1 < old(self).order@.len(),
            old(self).order@[k] == cluster_id1,
            old(self).order@[k + 1] == cluster_id2,
            old(self).order@.no_duplicates(),
            !old(self).order@.contains(cluster_new_id),
            is_linked(old(self).order_map@, old(self).order@),
        ensures
            final(self)@ == (ClusterizerView {
                chain: old(self).order@.remove(k + 1).update(k, cluster_new_id),
                ..old(self)@
            }),
            final(self).distance_heap == old(self).distance_heap,
            final(self).order@.no_duplicates(),
            is_linked(final(self).order_map@, final(self).order@),
            forall|id: usize|
                #![trigger final(self).order@.contains(id)]
                #![trigger old(self).order@.contains(id)]
                final(self).order@.contains(id) <==> (old(self).order@.contains(id) && id
                    != cluster_id1 && id != cluster_id2) || id == cluster_new_id,
    {
        let ghost chain = self.order@;
        let ghost spliced = chain.remove(k + 1).update(k, cluster_new_id);
        assert(chain.contains(cluster_id1) && chain.contains(cluster_id2));
        // cluster_id1 goes before cluster_id2 in the linked list
        // Insert new node
        let before: Option<usize> = self.order_map.get(&cluster_id1).unwrap().0;
        let after: Option<usize> = self.order_map.get(&cluster_id2).unwrap().1;
        self.order_map.insert(cluster_new_id, (before, after));
        // Rebind left node
        if let Some(cluster_id) = before {
            assert(chain[k - 1] == cluster_id);
            assert(chain.contains(cluster_id));
            let links: (Option<usize>, Option<usize>) = *self.order_map.get(&cluster_id).unwrap();
            self.order_map.insert(cluster_id, (links.0, Some(cluster_new_id)));
        }
        // Rebind right node
        if let Some(cluster_id) = after {
            assert(chain[k + 2] == cluster_id);
            assert(chain.contains(cluster_id));
            let links: (Option<usize>, Option<usize>) = *self.order_map.get(&cluster_id).unwrap();
            self.order_map.insert(cluster_id, (Some(cluster_new_id), links.1));
        }
        // Remove old nodes
        self.order_map.remove(&cluster_id1);
        self.order_map.remove(&cluster_id2);
        self.order = Ghost(spliced);
        proof {
            let links = self.order_map@;
            assert forall|i: int, j: int|
                0 <= i < spliced.len() && 0 <= j < spliced.len() && i != j implies spliced[i]
                != spliced[j] by {
                let i0 = if i > k { i + 1 } else { i };
                let j0 = if j > k { j + 1 } else { j };
                if i != k {
                    assert(spliced[i] == chain[i0]);
                }
                if j != k {
                    assert(spliced[j] == chain[j0]);
                }
            }
            let links0 = old(self).order_map@;
            assert(forall|id: usize|
                links.contains_key(id) <==> (links0.contains_key(id) && id != cluster_id1 && id
                    != cluster_id2) || id == cluster_new_id);
            assert forall|id: usize| links.contains_key(id) <==> spliced.contains(id) by {
                if spliced.contains(id) {
                    let j = choose|j: int| 0 <= j < spliced.len() && spliced[j] == id;
                    if j != k {
                        let j0 = if j > k { j + 1 } else { j };
                        assert(chain[j0] == id);
                        assert(chain.contains(id));
                        assert(links0.contains_key(id));
                    }
                }
                if links.contains_key(id) && id != cluster_new_id {
                    assert(links0.contains_key(id));
                    assert(chain.contains(id));
                    let j0 = choose|j0: int| 0 <= j0 < chain.len() && chain[j0] == id;
                    let j = if j0 > k { j0 - 1 } else { j0 };
                    assert(0 <= j < spliced.len() && spliced[j] == id);
                }
                if id == cluster_new_id {
                    assert(spliced[k] == id);
                }
            }
            assert forall|id: usize|
                spliced.contains(id) <==> (chain.contains(id) && id != cluster_id1 && id
                    != cluster_id2) || id == cluster_new_id by {
                assert(links.contains_key(id) <==> spliced.contains(id));
                assert(links0.contains_key(id) <==> chain.contains(id));
            }
            assert forall|j: int| 0 <= j < spliced.len() implies (#[trigger] links[spliced[j]]) == (
                if j > 0 {
                    Some(spliced[j - 1])
                } else {
                    None
                },
                if j + 1 < spliced.len() {
                    Some(spliced[j + 1])
                } else {
                    None
                },
            ) by {
                let j0 = if j > k { j + 1 } else { j };
                if j != k {
                    assert(spliced[j] == chain[j0]);
                    assert(old(self).order_map@[chain[j0]].0 == if j0 > 0 {
                        Some(chain[j0 - 1])
                    } else {
                        None
                    });
                }
                if j > 0 && j - 1 != k {
                    assert(spliced[j - 1] == chain[if j - 1 > k { j } else { j - 1 }]);
                }
                if j + 1 < spliced.len() && j + 1 != k {
                    assert(spliced[j + 1] == chain[if j + 1 > k { j + 2 } else { j + 1 }]);
                }
            }
        }
    }

    /// Merges two live clusters into a new one under the next identifier. The
    /// two stay in the registry.
    fn _merge_clusters(&mut self, cluster_id1: usize, cluster_id2: usize) -> (cluster_new_id: usize)
        requires
            old(self).cluster_map@.contains_key(cluster_id1),
            old(self).cluster_map@.contains_key(cluster_id2),
            old(self).cluster_id_next < usize::MAX,
        ensures
            cluster_new_id == old(self).cluster_id_next,
            final(self).cluster_id_next == old(self).cluster_id_next + 1,
            final(self).cluster_map@.dom() == old(self).cluster_map@.dom().insert(cluster_new_id),
            forall|id: usize|
                id != cluster_new_id ==> #[trigger] final(self).cluster_map@[id]
                    == old(self).cluster_map@[id],
            call_ensures(
                T::merge,
                (&old(self).cluster_map@[cluster_id1], &old(self).cluster_map@[cluster_id2]),
                final(self).cluster_map@[cluster_new_id],
            ),
            final(self).opt_1d == old(self).opt_1d,
            final(self).distance_heap == old(self).distance_heap,
            final(self).order_map == old(self).order_map,
            final(self).order == old(self).order,
            final(self).history == old(self).history,
    {
        let cluster_new = T::merge(
            self.cluster_map.get(&cluster_id1).unwrap(),
            self.cluster_map.get(&cluster_id2).unwrap(),
        );
        let cluster_new_id: usize = self.cluster_id_next;
        self.cluster_map.insert(cluster_new_id, cluster_new);
        self.cluster_id_next += 1;
        cluster_new_id
    }

    /// Merges the closest pair of live clusters that is queued, if there is
    /// one, and queues the pairs of the merged cluster. Returns whether a merge
    /// was made.
    pub fn step(&mut self) -> (merged: bool)
        requires
            old(self).wf(),
        ensures
            final(self).wf(),
            old(self)@.steps_to(final(self)@, merged),
    {
        let ghost pre = self@;
        // 1. Get closest clusters
        let popped = self._distance_heap_pop();
        if let Some(node) = popped {
            let cluster_id1: usize = node.cluster_ids.0;
            let cluster_id2: usize = node.cluster_ids.1;
            let ghost popped_view = self@;
            proof {
                assert(pre.queue.count(node) > 0);
                assert(pre.clusters.dom().remove(cluster_id1).contains(cluster_id2));
                assert(pre.clusters.dom().remove(cluster_id1).remove(cluster_id2).len() + 2
                    == pre.clusters.dom().len());
            }
            // 2. Merge clusters
            let cluster_new_id = self._merge_clusters(cluster_id1, cluster_id2);
            // 3. Remove old clusters
            self.cluster_map.remove(&cluster_id1);
            self.cluster_map.remove(&cluster_id2);
            proof {
                self.history@ = pre.history.after_merge(
                    cluster_id1,
                    cluster_id2,
                    cluster_new_id,
                    self.cluster_map@[cluster_new_id],
                );
            }
            let ghost mid = self@;
            proof {
                assert(mid.clusters.dom() =~= pre.clusters.dom().remove(cluster_id1).remove(
                    cluster_id2,
                ).insert(cluster_new_id));
                lemma_registry_updated(pre, popped_view, mid, node);
            }
            // 4. Calculate distances to related clusters
            if self.opt_1d {
                let ghost k = choose|k: int|
                    0 <= k && k + 1 < pre.chain.len() && #[trigger] pre.chain[k] == cluster_id1
                        && pre.chain[k + 1] == cluster_id2;
                proof {
                    assert(pre.is_next_to(cluster_id1, cluster_id2));
                    if pre.chain.contains(cluster_new_id) {
                        assert(pre.clusters.contains_key(cluster_new_id));
                    }
                }
                self._order_map_insert_new(cluster_new_id, cluster_id1, cluster_id2, Ghost(k));
                let ghost spliced = self@;
                proof {
                    assert(spliced.chain_is_sound());
                    assert(spliced.queue_is_sound());
                }
                self._distance_heap_push_related_1d(cluster_new_id, Ghost(k));
                proof {
                    lemma_merged_in_chain(pre, popped_view, self@, node, k);
                    lemma_history_merged(pre, self@, node);
                }
            } else {
                self._distance_heap_push_related(cluster_new_id);
                proof {
                    lemma_merged_among_all(pre, popped_view, self@, node);
                    lemma_history_merged(pre, self@, node);
                }
            }
            // Return
            true
        } else {
            proof {
                lemma_queue_emptied(pre, self@);
                lemma_history_kept(pre, self@);
            }
            false
        }
    }

    /// Makes steps while more than `final_cluster_count` clusters are live
    /// and a step still merges. Returns the number of live clusters, which is
    /// above `final_cluster_count` where no candidate was left.
    pub fn clusterize(&mut self, final_cluster_count: usize) -> (cluster_count: usize)
        requires
            old(self).wf(),
        ensures
            final(self).wf(),
            cluster_count == final(self)@.clusters.len(),
            final(self)@.ordered == old(self)@.ordered,
            final(self)@.history.origin == old(self)@.history.origin,
            exists|trace: Seq<ClusterizerView<T>>| #[trigger]
                old(self)@.is_run(trace, final(self)@, final_cluster_count),
    {
        let mut cluster_count: usize = self.cluster_count();
        let ghost mut trace: Seq<ClusterizerView<T>> = seq![self@];
        let mut exhausted = false;
        while final_cluster_count < cluster_count && !exhausted
            invariant
                self.wf(),
                cluster_count == self@.clusters.len(),
                self@.ordered == old(self)@.ordered,
                self@.history.origin == old(self)@.history.origin,
                trace.len() > 0,
                trace[0] == old(self)@,
                forall|i: int| 0 <= i < trace.len() ==> (#[trigger] trace[i]).inv(),
                forall|i: int|
                    0 <= i < trace.len() - 1 ==> (#[trigger] trace[i]).clusters.len()
                        > final_cluster_count && trace[i].steps_to(trace[i + 1], true),
                !exhausted ==> trace.last() == self@,
                exhausted ==> trace.last().clusters.len() > final_cluster_count
                    && trace.last().steps_to(self@, false),
            decreases cluster_count + (if exhausted { 0int } else { 1int }),
        {
            let ghost before = self@;
            let success = self.step();
            if success {
                proof {
                    lemma_step_merges_one(before, self@);
                    trace = trace.push(self@);
                }
                cluster_count -= 1;
            } else {
                exhausted = true;
            }
        }
        proof {
            assert(old(self)@.is_run(trace, self@, final_cluster_count));
        }
        cluster_count
    }

    /// The number of live clusters.
    pub fn cluster_count(&self) -> (count: usize)
        ensures
            count == self@.clusters.len(),
    {
        self.cluster_map.len()
    }
}

} // verus!
