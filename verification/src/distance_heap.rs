//! A priority queue of candidate merges, closest first.
//!
//! The queue is a binary min-heap laid out in a vector. It only ever grows by
//! `push` and shrinks from the top by `pop`; whether an entry still refers to
//! live clusters is for its user to decide when the entry comes out.
use std::cmp::Ordering;
use vstd::multiset::Multiset;
use vstd::prelude::*;
use vstd::seq_lib::to_multiset_build;
use vstd::seq_lib::to_multiset_len;
use vstd::seq_lib::to_multiset_remove;
use vstd::seq_lib::to_multiset_update;

verus! {

/// A candidate merge: two cluster identifiers and the distance between the
/// clusters they name. The distance is an integer key; a smaller key is a
/// smaller distance.
///
/// Candidates compare by distance alone. The queue takes candidates at the
/// same distance in the order of their identifiers: the lower first
/// identifier first, and then the lower second identifier.
#[derive(Clone, Copy, Debug, PartialEq, Eq)]
pub struct DistanceHeapNode {
    pub distance: u64,
    pub cluster_ids: (usize, usize),
}

impl DistanceHeapNode {
    /// Whether the queue takes `self` before `other`: it is closer, or as
    /// close and has the lower identifiers.
    pub open spec fn precedes(self, other: Self) -> bool {
        ||| self.distance < other.distance
        ||| self.distance == other.distance && self.cluster_ids.0 < other.cluster_ids.0
        ||| self.distance == other.distance && self.cluster_ids.0 == other.cluster_ids.0
            && self.cluster_ids.1 < other.cluster_ids.1
    }

    /// Whether `self` is `other` or the queue takes it before `other`.
    pub open spec fn not_after(self, other: Self) -> bool {
        self == other || self.precedes(other)
    }

    /// Compares two candidates by distance: the closer one is less, and two
    /// that are as close are equal.
    pub fn cmp(&self, other: &Self) -> (order: Ordering)
        ensures
            order == Ordering::Less <==> self.distance < other.distance,
            order == Ordering::Greater <==> self.distance > other.distance,
            order == Ordering::Equal <==> self.distance == other.distance,
    {
        if self.distance > other.distance {
            Ordering::Greater
        } else if self.distance < other.distance {
            Ordering::Less
        } else {
            Ordering::Equal
        }
    }
}

/// Whether the queue takes `first` before `second`: candidates that are as
/// close go by their identifiers.
fn is_closer(first: &DistanceHeapNode, second: &DistanceHeapNode) -> (closer: bool)
    ensures
        closer == first.precedes(*second),
{
    match first.cmp(second) {
        Ordering::Less => true,
        Ordering::Greater => false,
        Ordering::Equal => first.cluster_ids.0 < second.cluster_ids.0 || (first.cluster_ids.0
            == second.cluster_ids.0 && first.cluster_ids.1 < second.cluster_ids.1),
    }
}

/// The position above position `i` in the heap layout.
spec fn parent(i: int) -> int {
    (i - 1) / 2
}

/// The node at position `j` does not come before the node above it.
spec fn in_order(nodes: Seq<DistanceHeapNode>, j: int) -> bool {
    nodes[parent(j)].not_after(nodes[j])
}

/// The node at position `j` does not come before the node two places above
/// it.
spec fn in_order_across(nodes: Seq<DistanceHeapNode>, j: int) -> bool {
    nodes[parent(parent(j))].not_after(nodes[j])
}

/// Heap order: no node comes before the node above it.
spec fn is_heap(nodes: Seq<DistanceHeapNode>) -> bool {
    forall|j: int| 0 < j < nodes.len() ==> #[trigger] in_order(nodes, j)
}

/// Heap order everywhere but between position `i` and the node above it; the
/// nodes below `i` are in order with the node above `i`.
spec fn is_heap_but_up(nodes: Seq<DistanceHeapNode>, i: int) -> bool {
    &&& forall|j: int| 0 < j < nodes.len() && j != i ==> #[trigger] in_order(nodes, j)
    &&& forall|j: int|
        0 < j < nodes.len() && parent(j) == i && i > 0 ==> #[trigger] in_order_across(nodes, j)
}

/// Heap order everywhere but between position `i` and the nodes below it; the
/// nodes below `i` are in order with the node above `i`.
spec fn is_heap_but_down(nodes: Seq<DistanceHeapNode>, i: int) -> bool {
    &&& forall|j: int| 0 < j < nodes.len() && parent(j) != i ==> #[trigger] in_order(nodes, j)
    &&& forall|j: int|
        0 < j < nodes.len() && parent(j) == i && i > 0 ==> #[trigger] in_order_across(nodes, j)
}

/// In a heap no node comes before the first.
proof fn lemma_heap_first_is_closest(nodes: Seq<DistanceHeapNode>, j: int)
    requires
        is_heap(nodes),
        0 <= j < nodes.len(),
    ensures
        nodes[0].not_after(nodes[j]),
    decreases j,
{
    if j > 0 {
        lemma_heap_first_is_closest(nodes, parent(j));
        assert(in_order(nodes, j));
    }
}

/// A heap with one more node at its end is in order but for that node.
proof fn lemma_appended(nodes: Seq<DistanceHeapNode>, node: DistanceHeapNode)
    requires
        is_heap(nodes),
    ensures
        is_heap_but_up(nodes.push(node), nodes.len() as int),
{
    let after = nodes.push(node);
    assert forall|j: int| 0 < j < after.len() && j != nodes.len() implies #[trigger] in_order(
        after,
        j,
    ) by {
        assert(in_order(nodes, j));
    }
}

/// Exchanging position `i` with the node above it, where the node at `i`
/// comes first, moves the one place that may be out of order up.
proof fn lemma_exchange_up(nodes: Seq<DistanceHeapNode>, i: int)
    requires
        is_heap_but_up(nodes, i),
        0 < i < nodes.len(),
        nodes[i].precedes(nodes[parent(i)]),
    ensures
        is_heap_but_up(nodes.update(i, nodes[parent(i)]).update(parent(i), nodes[i]), parent(i)),
{
    let above = parent(i);
    let after = nodes.update(i, nodes[above]).update(above, nodes[i]);
    assert forall|j: int| 0 < j < after.len() && j != above implies #[trigger] in_order(
        after,
        j,
    ) by {
        let p = parent(j);
        if j == i {
        } else if p == above {
            assert(in_order(nodes, j));
        } else if p == i {
            assert(in_order_across(nodes, j));
        } else {
            assert(in_order(nodes, j));
        }
    }
    assert forall|j: int|
        0 < j < after.len() && parent(j) == above && above > 0 implies #[trigger] in_order_across(
        after,
        j,
    ) by {
        assert(in_order(nodes, above));
        if j != i {
            assert(in_order(nodes, j));
        }
    }
}

/// Once position `i` is in order with the node above it, the whole is a heap.
proof fn lemma_risen(nodes: Seq<DistanceHeapNode>, i: int)
    requires
        is_heap_but_up(nodes, i),
        0 <= i < nodes.len(),
        i > 0 ==> nodes[parent(i)].not_after(nodes[i]),
    ensures
        is_heap(nodes),
{
    assert forall|j: int| 0 < j < nodes.len() implies #[trigger] in_order(nodes, j) by {
        if j != i {
            assert(in_order(nodes, j));
        }
    }
}

/// A heap whose last node was taken to replace the first is in order but for
/// the first node.
proof fn lemma_replaced_first(nodes: Seq<DistanceHeapNode>)
    requires
        is_heap(nodes),
        1 < nodes.len(),
    ensures
        is_heap_but_down(nodes.drop_last().update(0, nodes.last()), 0),
{
    let after = nodes.drop_last().update(0, nodes.last());
    assert forall|j: int| 0 < j < after.len() && parent(j) != 0 implies #[trigger] in_order(
        after,
        j,
    ) by {
        assert(in_order(nodes, j));
    }
}

/// Exchanging position `i` with the first of the nodes below it, where that
/// node comes before the node at `i`, moves the one place that may be out of
/// order down to `below`.
proof fn lemma_exchange_down(nodes: Seq<DistanceHeapNode>, i: int, below: int)
    requires
        is_heap_but_down(nodes, i),
        0 <= i < below < nodes.len(),
        below == 2 * i + 1 || below == 2 * i + 2,
        nodes[below].precedes(nodes[i]),
        2 * i + 1 < nodes.len() ==> nodes[below].not_after(nodes[2 * i + 1]),
        2 * i + 2 < nodes.len() ==> nodes[below].not_after(nodes[2 * i + 2]),
    ensures
        is_heap_but_down(nodes.update(i, nodes[below]).update(below, nodes[i]), below),
{
    let after = nodes.update(i, nodes[below]).update(below, nodes[i]);
    assert forall|j: int| 0 < j < after.len() && parent(j) != below implies #[trigger] in_order(
        after,
        j,
    ) by {
        let p = parent(j);
        if p == i {
            assert(j == 2 * i + 1 || j == 2 * i + 2);
        } else if j == i {
            assert(in_order_across(nodes, below));
        } else {
            assert(in_order(nodes, j));
        }
    }
    assert forall|j: int|
        0 < j < after.len() && parent(j) == below && below > 0 implies #[trigger] in_order_across(
        after,
        j,
    ) by {
        assert(parent(below) == i);
        assert(in_order(nodes, j));
    }
}

/// Once position `i` is in order with the nodes below it, the whole is a heap.
proof fn lemma_settled(nodes: Seq<DistanceHeapNode>, i: int)
    requires
        is_heap_but_down(nodes, i),
        0 <= i < nodes.len(),
        2 * i + 1 < nodes.len() ==> nodes[i].not_after(nodes[2 * i + 1]),
        2 * i + 2 < nodes.len() ==> nodes[i].not_after(nodes[2 * i + 2]),
    ensures
        is_heap(nodes),
{
    assert forall|j: int| 0 < j < nodes.len() implies #[trigger] in_order(nodes, j) by {
        if parent(j) == i {
            assert(j == 2 * i + 1 || j == 2 * i + 2);
        } else {
            assert(in_order(nodes, j));
        }
    }
}

/// Exchanges the nodes at two positions.
fn swap_nodes(nodes: &mut Vec<DistanceHeapNode>, i: usize, j: usize)
    requires
        i < old(nodes).len(),
        j < old(nodes).len(),
    ensures
        final(nodes)@ == old(nodes)@.update(i as int, old(nodes)@[j as int]).update(
            j as int,
            old(nodes)@[i as int],
        ),
        final(nodes)@.to_multiset() == old(nodes)@.to_multiset(),
{
    let first = nodes[i];
    let second = nodes[j];
    proof {
        let before = nodes@;
        to_multiset_update(before, i as int, second);
        to_multiset_update(before.update(i as int, second), j as int, first);
        assert(before.to_multiset().insert(second).remove(first).insert(first).remove(second)
            =~= before.to_multiset()) by {
            assert(before.to_multiset().count(first) > 0) by {
                assert(before.contains(first));
                vstd::seq_lib::to_multiset_contains(before, first);
            }
            assert(before.to_multiset().count(second) > 0) by {
                assert(before.contains(second));
                vstd::seq_lib::to_multiset_contains(before, second);
            }
        }
    }
    nodes[i] = second;
    nodes[j] = first;
}

/// The candidate merges that wait to be examined, closest first.
pub struct DistanceHeap {
    nodes: Vec<DistanceHeapNode>,
}

impl View for DistanceHeap {
    type V = Multiset<DistanceHeapNode>;

    /// The candidates that the queue holds, each as often as it was pushed and
    /// not yet popped.
    closed spec fn view(&self) -> Multiset<DistanceHeapNode> {
        self.nodes@.to_multiset()
    }
}

impl DistanceHeap {
    /// The queue is consistent: the candidate that comes first can be taken
    /// from its top.
    pub closed spec fn wf(&self) -> bool {
        is_heap(self.nodes@)
    }

    /// An empty queue.
    pub fn new() -> (heap: Self)
        ensures
            heap.wf(),
            heap@ == Multiset::<DistanceHeapNode>::empty(),
    {
        let heap = DistanceHeap { nodes: Vec::new() };
        proof {
            to_multiset_len(heap.nodes@);
            assert(heap@ =~= Multiset::<DistanceHeapNode>::empty());
        }
        heap
    }

    /// Drops every candidate.
    pub fn clear(&mut self)
        ensures
            final(self).wf(),
            final(self)@ == Multiset::<DistanceHeapNode>::empty(),
    {
        self.nodes.clear();
        proof {
            to_multiset_len(self.nodes@);
            assert(self@ =~= Multiset::<DistanceHeapNode>::empty());
        }
    }

    /// The number of candidates held.
    pub fn len(&self) -> (len: usize)
        ensures
            len == self@.len(),
    {
        proof {
            to_multiset_len(self.nodes@);
        }
        self.nodes.len()
    }

    /// Adds a candidate.
    pub fn push(&mut self, node: DistanceHeapNode)
        requires
            old(self).wf(),
        ensures
            final(self).wf(),
            final(self)@ == old(self)@.insert(node),
    {
        proof {
            to_multiset_build(self.nodes@, node);
            lemma_appended(self.nodes@, node);
        }
        self.nodes.push(node);
        let mut i: usize = self.nodes.len() - 1;
        while i > 0 && is_closer(&self.nodes[i], &self.nodes[(i - 1) / 2])
            invariant
                i < self.nodes.len(),
                self.nodes@.to_multiset() == old(self).nodes@.to_multiset().insert(node),
                is_heap_but_up(self.nodes@, i as int),
            decreases i,
        {
            let above: usize = (i - 1) / 2;
            proof {
                lemma_exchange_up(self.nodes@, i as int);
            }
            swap_nodes(&mut self.nodes, i, above);
            i = above;
        }
        proof {
            lemma_risen(self.nodes@, i as int);
        }
    }

    /// Takes out the closest candidate, among the closest the one with the
    /// lowest identifiers, or reports that the queue is empty.
    pub fn pop(&mut self) -> (top: Option<DistanceHeapNode>)
        requires
            old(self).wf(),
        ensures
            final(self).wf(),
            match top {
                Some(node) => {
                    &&& old(self)@.count(node) > 0
                    &&& final(self)@ == old(self)@.remove(node)
                    &&& forall|other: DistanceHeapNode|
                        old(self)@.count(other) > 0 ==> node.not_after(other)
                },
                None => old(self)@.len() == 0 && final(self)@ == old(self)@,
            },
    {
        let ghost before = self.nodes@;
        proof {
            to_multiset_len(before);
        }
        let last = match self.nodes.pop() {
            Some(last) => last,
            None => {
                return None;
            },
        };
        let len: usize = self.nodes.len();
        proof {
            assert(before.remove(len as int) =~= self.nodes@);
            to_multiset_remove(before, len as int);
            assert forall|other: DistanceHeapNode|
                before.to_multiset().count(other) > 0 implies before[0].not_after(other) by {
                vstd::seq_lib::to_multiset_contains(before, other);
                let j = choose|j: int| 0 <= j < before.len() && before[j] == other;
                lemma_heap_first_is_closest(before, j);
            }
            assert(before.to_multiset().count(before[0]) > 0) by {
                assert(before.contains(before[0]));
                vstd::seq_lib::to_multiset_contains(before, before[0]);
            }
        }
        if len == 0 {
            return Some(last);
        }
        let top = self.nodes[0];
        proof {
            assert(before.drop_last() =~= self.nodes@);
            lemma_replaced_first(before);
            to_multiset_update(self.nodes@, 0, last);
            assert(before.to_multiset().count(last) > 0) by {
                assert(before.contains(last));
                vstd::seq_lib::to_multiset_contains(before, last);
            }
            assert(before.to_multiset().remove(last).insert(last).remove(top)
                =~= before.to_multiset().remove(top));
        }
        self.nodes[0] = last;
        let mut i: usize = 0;
        let mut settled = false;
        while !settled && i < len / 2
            invariant
                len == self.nodes.len(),
                i < len,
                self.nodes@.to_multiset() == before.to_multiset().remove(top),
                is_heap_but_down(self.nodes@, i as int),
                settled ==> is_heap(self.nodes@),
            decreases len - i + (if settled { 0int } else { 1int }),
        {
            let left: usize = 2 * i + 1;
            let right: usize = left + 1;
            let below: usize = if right < len && is_closer(&self.nodes[right], &self.nodes[left]) {
                right
            } else {
                left
            };
            if is_closer(&self.nodes[below], &self.nodes[i]) {
                proof {
                    lemma_exchange_down(self.nodes@, i as int, below as int);
                }
                swap_nodes(&mut self.nodes, i, below);
                i = below;
            } else {
                proof {
                    lemma_settled(self.nodes@, i as int);
                }
                settled = true;
            }
        }
        proof {
            if !settled {
                lemma_settled(self.nodes@, i as int);
            }
        }
        Some(top)
    }
}

} // verus!
