use woe_binning::ClusterTrait;
use woe_binning::DistanceHeap;
use woe_binning::DistanceHeapNode;
use woe_binning::HierarchicalClusterizer;

/// An integer key that orders as the float does.
fn distance_key(distance: f64) -> u64 {
    let bits = if distance == 0.0 { 0 } else { distance.to_bits() };
    if bits >> 63 == 1 {
        !bits
    } else {
        bits | (1u64 << 63)
    }
}

#[derive(Debug, Clone, PartialEq)]
struct Cluster {
    x: f64,
    y: f64,
    w: f64,
}

impl ClusterTrait for Cluster {
    fn merge(cluster1: &Self, cluster2: &Self) -> Self {
        let w = cluster1.w + cluster2.w;
        let x = (cluster1.x * cluster1.w + cluster2.x * cluster2.w) / w;
        let y = (cluster1.y * cluster1.w + cluster2.y * cluster1.w) / w;
        Self { x, y, w }
    }

    fn distance(cluster1: &Self, cluster2: &Self) -> Option<u64> {
        Some(distance_key(
            (cluster1.x - cluster2.x) * (cluster1.x - cluster2.x)
                + (cluster1.y - cluster2.y) * (cluster1.y - cluster2.y),
        ))
    }
}

#[derive(Debug, Clone, PartialEq)]
struct Cluster1d {
    x: f64,
    w: f64,
}

impl ClusterTrait for Cluster1d {
    fn merge(cluster1: &Self, cluster2: &Self) -> Self {
        let w = cluster1.w + cluster2.w;
        let x = (cluster1.x * cluster1.w + cluster2.x * cluster2.w) / w;
        Self { x, w }
    }

    fn distance(cluster1: &Self, cluster2: &Self) -> Option<u64> {
        let z = (cluster1.x - cluster2.x) * (cluster1.x - cluster2.x);
        if z < 0.002 {
            Some(distance_key(z))
        } else {
            None
        }
    }
}

/// A set of integers on a line; two sets are as far apart as their closest
/// members, and the merge joins them.
#[derive(Debug, Clone, PartialEq)]
struct Span {
    members: Vec<u64>,
}

impl ClusterTrait for Span {
    fn merge(cluster1: &Self, cluster2: &Self) -> Self {
        let mut members = cluster1.members.clone();
        members.extend(cluster2.members.iter());
        Self { members }
    }

    fn distance(cluster1: &Self, cluster2: &Self) -> Option<u64> {
        let mut best: Option<u64> = None;
        for a in cluster1.members.iter() {
            for b in cluster2.members.iter() {
                let gap = if a > b { a - b } else { b - a };
                if best.map_or(true, |d| gap < d) {
                    best = Some(gap);
                }
            }
        }
        best
    }
}

fn spans(values: &[u64]) -> Vec<Span> {
    values.iter().map(|v| Span { members: vec![*v] }).collect()
}

#[test]
fn test_2d() {
    let clusters = vec![
        Cluster { x: 0.0, y: 0.0, w: 1.0 },
        Cluster { x: 10.0, y: 10.0, w: 1.0 },
        Cluster { x: 11.0, y: 11.0, w: 1.0 },
        Cluster { x: 4.0, y: 4.0, w: 1.0 },
        Cluster { x: 1.0, y: 1.0, w: 1.0 },
    ];

    let mut clusterizer = HierarchicalClusterizer::<Cluster>::new();
    clusterizer.initialize(&clusters);

    assert_eq!(clusterizer.cluster_count(), 5);

    clusterizer.step();
    clusterizer.step();

    assert_eq!(clusterizer.cluster_count(), 3);

    clusterizer.step();
    clusterizer.step();

    assert_eq!(clusterizer.cluster_count(), 1);

    assert_eq!(clusterizer.get_clusters()[0], Cluster { x: 5.2, y: 4.8, w: 5.0 });
}

#[test]
fn test_1d() {
    let clusters = vec![
        Cluster1d { x: 0.0, w: 1.0 },
        Cluster1d { x: 0.01, w: 1.0 },
        Cluster1d { x: 0.04, w: 1.0 },
        Cluster1d { x: 0.1, w: 1.0 },
        Cluster1d { x: 0.11, w: 1.0 },
    ];

    let mut clusterizer = HierarchicalClusterizer::<Cluster1d>::new();
    clusterizer.set_1d_opt(true);
    clusterizer.initialize(&clusters);

    assert_eq!(clusterizer.clusterize(1), 2);
}

#[test]
fn initialize_counts_the_given_clusters() {
    let mut clusterizer = HierarchicalClusterizer::<Span>::new();
    assert_eq!(clusterizer.cluster_count(), 0);
    clusterizer.initialize(&spans(&[5, 1, 9]));
    assert_eq!(clusterizer.cluster_count(), 3);
    assert_eq!(clusterizer.get_clusters(), spans(&[5, 1, 9]));
    clusterizer.initialize(&spans(&[4, 2]));
    assert_eq!(clusterizer.cluster_count(), 2);
    assert_eq!(clusterizer.get_clusters(), spans(&[4, 2]));
    clusterizer.initialize(&[]);
    assert_eq!(clusterizer.cluster_count(), 0);
    assert!(!clusterizer.step());
}

#[test]
fn initialize_empty_in_ordered_mode() {
    let mut clusterizer = HierarchicalClusterizer::<Span>::new();
    clusterizer.set_1d_opt(true);
    clusterizer.initialize(&[]);
    assert_eq!(clusterizer.cluster_count(), 0);
    assert!(!clusterizer.step());
    assert_eq!(clusterizer.clusterize(0), 0);
}

#[test]
fn step_merges_the_closest_pair() {
    let mut clusterizer = HierarchicalClusterizer::<Span>::new();
    clusterizer.initialize(&spans(&[0, 100, 103, 60]));
    assert!(clusterizer.step());
    assert_eq!(clusterizer.cluster_count(), 3);
    let clusters = clusterizer.get_clusters();
    assert_eq!(clusters[0], Span { members: vec![0] });
    assert_eq!(clusters[1], Span { members: vec![60] });
    assert_eq!(clusters[2], Span { members: vec![100, 103] });
    assert!(clusterizer.step());
    let clusters = clusterizer.get_clusters();
    assert_eq!(clusters[0], Span { members: vec![0] });
    assert_eq!(clusters[1], Span { members: vec![60, 100, 103] });
    assert!(clusterizer.step());
    let clusters = clusterizer.get_clusters();
    assert_eq!(clusters, vec![Span { members: vec![0, 60, 100, 103] }]);
    assert!(!clusterizer.step());
}

#[test]
fn each_step_retires_two_and_adds_one() {
    let mut clusterizer = HierarchicalClusterizer::<Span>::new();
    clusterizer.initialize(&spans(&[3, 30, 300, 3000, 30000]));
    let mut count = clusterizer.cluster_count();
    while clusterizer.step() {
        assert_eq!(clusterizer.cluster_count(), count - 1);
        count -= 1;
    }
    assert_eq!(count, 1);
}

#[test]
fn step_without_candidates_changes_nothing() {
    let mut clusterizer = HierarchicalClusterizer::<Cluster1d>::new();
    clusterizer.set_1d_opt(true);
    clusterizer.initialize(&[
        Cluster1d { x: 0.0, w: 1.0 },
        Cluster1d { x: 1.0, w: 1.0 },
        Cluster1d { x: 2.0, w: 1.0 },
    ]);
    assert!(!clusterizer.step());
    let before = clusterizer.get_clusters();
    assert!(!clusterizer.step());
    assert!(!clusterizer.step());
    assert_eq!(clusterizer.get_clusters(), before);
    assert_eq!(clusterizer.cluster_count(), 3);
    assert_eq!(clusterizer.clusterize(1), 3);
}

#[test]
fn ordered_mode_merges_neighbours_only() {
    let mut clusterizer = HierarchicalClusterizer::<Span>::new();
    clusterizer.set_1d_opt(true);
    // 10 and 11 are closest, but they are no neighbours in the given order.
    clusterizer.initialize(&spans(&[10, 50, 11, 60]));
    assert!(clusterizer.step());
    let clusters = clusterizer.get_clusters();
    assert_eq!(clusters.len(), 3);
    assert_eq!(clusters[0], Span { members: vec![10] });
    assert_eq!(clusters[1], Span { members: vec![60] });
    assert_eq!(clusters[2], Span { members: vec![50, 11] });
    assert!(clusterizer.step());
    let clusters = clusterizer.get_clusters();
    assert_eq!(clusters[0], Span { members: vec![60] });
    assert_eq!(clusters[1], Span { members: vec![10, 50, 11] });
    assert_eq!(clusterizer.clusterize(1), 1);
    assert_eq!(clusterizer.get_clusters(), vec![Span { members: vec![10, 50, 11, 60] }]);
}

#[test]
fn unordered_mode_merges_any_pair() {
    let mut clusterizer = HierarchicalClusterizer::<Span>::new();
    clusterizer.initialize(&spans(&[10, 50, 11, 60]));
    assert!(clusterizer.step());
    let clusters = clusterizer.get_clusters();
    assert_eq!(clusters[0], Span { members: vec![50] });
    assert_eq!(clusters[1], Span { members: vec![60] });
    assert_eq!(clusters[2], Span { members: vec![10, 11] });
}

#[test]
fn clusterize_stops_at_the_target() {
    let mut clusterizer = HierarchicalClusterizer::<Span>::new();
    clusterizer.initialize(&spans(&[1, 2, 4, 8, 16, 32]));
    assert_eq!(clusterizer.clusterize(10), 6);
    assert_eq!(clusterizer.clusterize(6), 6);
    assert_eq!(clusterizer.clusterize(4), 4);
    assert_eq!(clusterizer.cluster_count(), 4);
    assert_eq!(clusterizer.clusterize(0), 1);
    assert_eq!(clusterizer.cluster_count(), 1);
}

#[test]
fn set_1d_opt_takes_effect_at_initialize() {
    let mut clusterizer = HierarchicalClusterizer::<Span>::new();
    clusterizer.set_1d_opt(true);
    clusterizer.initialize(&spans(&[10, 50, 11]));
    assert_eq!(clusterizer.clusterize(2), 2);
    assert_eq!(clusterizer.get_clusters()[1], Span { members: vec![50, 11] });
    clusterizer.set_1d_opt(false);
    clusterizer.initialize(&spans(&[10, 50, 11]));
    assert_eq!(clusterizer.clusterize(2), 2);
    assert_eq!(clusterizer.get_clusters()[1], Span { members: vec![10, 11] });
}

#[test]
fn heap_pops_closest_first() {
    let mut heap = DistanceHeap::new();
    let distances: [u64; 9] = [50, 7, 19, 7, 3, 88, 0, 41, 19];
    for (i, d) in distances.iter().enumerate() {
        heap.push(DistanceHeapNode { distance: *d, cluster_ids: (i, i + 1) });
    }
    assert_eq!(heap.len(), 9);
    let mut popped = Vec::new();
    while let Some(node) = heap.pop() {
        assert_eq!(distances[node.cluster_ids.0], node.distance);
        assert_eq!(node.cluster_ids.1, node.cluster_ids.0 + 1);
        popped.push(node.distance);
    }
    assert_eq!(popped, vec![0, 3, 7, 7, 19, 19, 41, 50, 88]);
    assert_eq!(heap.len(), 0);
    assert_eq!(heap.pop(), None);
}

#[test]
fn heap_clear_drops_everything() {
    let mut heap = DistanceHeap::new();
    heap.push(DistanceHeapNode { distance: 4, cluster_ids: (0, 1) });
    heap.push(DistanceHeapNode { distance: 2, cluster_ids: (1, 2) });
    heap.clear();
    assert_eq!(heap.len(), 0);
    assert_eq!(heap.pop(), None);
    heap.push(DistanceHeapNode { distance: 9, cluster_ids: (3, 4) });
    assert_eq!(heap.pop(), Some(DistanceHeapNode { distance: 9, cluster_ids: (3, 4) }));
}

#[test]
fn node_cmp_goes_by_distance() {
    let near = DistanceHeapNode { distance: 1, cluster_ids: (8, 9) };
    let far = DistanceHeapNode { distance: 2, cluster_ids: (0, 1) };
    let also_far = DistanceHeapNode { distance: 2, cluster_ids: (0, 6) };
    let far_again = DistanceHeapNode { distance: 2, cluster_ids: (5, 0) };
    assert_eq!(near.cmp(&far), std::cmp::Ordering::Less);
    assert_eq!(far.cmp(&near), std::cmp::Ordering::Greater);
    assert_eq!(far.cmp(&also_far), std::cmp::Ordering::Equal);
    assert_eq!(also_far.cmp(&far), std::cmp::Ordering::Equal);
    assert_eq!(also_far.cmp(&far_again), std::cmp::Ordering::Equal);
    assert_eq!(far.cmp(&far), std::cmp::Ordering::Equal);
    let one_two = DistanceHeapNode { distance: 1, cluster_ids: (0, 1) };
    let one_three = DistanceHeapNode { distance: 1, cluster_ids: (0, 2) };
    assert_eq!(one_two.cmp(&one_three), std::cmp::Ordering::Equal);
}

#[test]
fn heap_takes_ties_in_the_order_of_identifiers() {
    let mut heap = DistanceHeap::new();
    heap.push(DistanceHeapNode { distance: 2, cluster_ids: (5, 0) });
    heap.push(DistanceHeapNode { distance: 2, cluster_ids: (0, 6) });
    heap.push(DistanceHeapNode { distance: 1, cluster_ids: (8, 9) });
    heap.push(DistanceHeapNode { distance: 2, cluster_ids: (0, 1) });
    assert_eq!(heap.pop(), Some(DistanceHeapNode { distance: 1, cluster_ids: (8, 9) }));
    assert_eq!(heap.pop(), Some(DistanceHeapNode { distance: 2, cluster_ids: (0, 1) }));
    assert_eq!(heap.pop(), Some(DistanceHeapNode { distance: 2, cluster_ids: (0, 6) }));
    assert_eq!(heap.pop(), Some(DistanceHeapNode { distance: 2, cluster_ids: (5, 0) }));
    assert_eq!(heap.pop(), None);
}

#[test]
fn ties_go_to_the_lower_identifiers() {
    let mut clusterizer = HierarchicalClusterizer::<Span>::new();
    // Three pairs at distance 1: (0, 1), (2, 3) and (4, 5).
    clusterizer.initialize(&spans(&[10, 11, 40, 41, 70, 71]));
    assert!(clusterizer.step());
    let clusters = clusterizer.get_clusters();
    assert_eq!(clusters[4], Span { members: vec![10, 11] });
    assert!(clusterizer.step());
    let clusters = clusterizer.get_clusters();
    assert_eq!(clusters[2], Span { members: vec![10, 11] });
    assert_eq!(clusters[3], Span { members: vec![40, 41] });
    assert!(clusterizer.step());
    let clusters = clusterizer.get_clusters();
    assert_eq!(clusters[0], Span { members: vec![10, 11] });
    assert_eq!(clusters[1], Span { members: vec![40, 41] });
    assert_eq!(clusters[2], Span { members: vec![70, 71] });
}
