//! Optimal binning of a feature against a binary target.
//!
//! The crate holds an agglomerative clustering engine that merges the closest
//! admissible pair of clusters until a wanted number of clusters is left, and a
//! binning front end that groups a labelled data set into bins and hands them
//! to that engine.
use vstd::prelude::*;

pub mod distance_heap;
pub mod hierarchical_clusterizer;
pub mod woe_binning_agreement;
pub mod woe_binning_proc;

pub use crate::distance_heap::DistanceHeap;
pub use crate::distance_heap::DistanceHeapNode;
pub use crate::hierarchical_clusterizer::ClusterTrait;
pub use crate::hierarchical_clusterizer::ClusterizerView;
pub use crate::hierarchical_clusterizer::HierarchicalClusterizer;
pub use crate::woe_binning_proc::WoeBinningCluster;
pub use crate::woe_binning_proc::WoeBinningProc;
pub use crate::woe_binning_proc::WoeScore;
use vstd::std_specs::cmp::PartialOrdIs;
use vstd::std_specs::cmp::PartialOrdSpec;

verus! {

/// Whether `<` on `T` is the comparison that contracts speak of.
pub open spec fn has_specified_order<T: PartialOrd>() -> bool {
    T::obeys_partial_cmp_spec()
}

/// Whether `x < val` holds by the comparison that contracts speak of.
pub open spec fn is_below<T: PartialOrd>(x: T, val: T) -> bool {
    x.is_lt(&val)
}

/// The number of leading elements that `binary_search` looks at: `size`, but
/// never fewer than one.
pub open spec fn search_width(size: usize) -> int {
    if size == 0 {
        1
    } else {
        size as int
    }
}

/// Whether the first `width` elements of `arr` are split by `val`: no element
/// below `val` comes after one that is not below it.
pub open spec fn is_partitioned<T: PartialOrd>(arr: Seq<T>, width: int, val: T) -> bool {
    forall|i: int, j: int|
        0 <= i < j < width && #[trigger] is_below(arr[j], val) ==> #[trigger] is_below(arr[i], val)
}

/// Whether `idx` is the place where `val` splits the first `width` elements of
/// `arr`: everything before it is below `val`, nothing from it on is.
pub open spec fn is_partition_point<T: PartialOrd>(
    arr: Seq<T>,
    width: int,
    val: T,
    idx: int,
) -> bool {
    &&& 0 <= idx <= width
    &&& forall|i: int| 0 <= i < idx ==> #[trigger] is_below(arr[i], val)
    &&& forall|i: int| idx <= i < width ==> !#[trigger] is_below(arr[i], val)
}

/// Finds, among the first `size` elements of `arr`, the index of the first one
/// that is not below `val`, by halving the window.
///
/// With `size == 0` the first element is still compared, as if `size` were 1.
/// Where the elements are not split by `val`, the index that is returned
/// still comes right after an element below `val`, or is 0 where the first
/// element is not below `val`.
pub fn binary_search<T: PartialOrd>(size: usize, arr: &[T], val: T) -> (idx: usize)
    requires
        0 < arr.len(),
        size <= arr.len(),
    ensures
        idx <= search_width(size),
        has_specified_order::<T>() && is_partitioned(arr@, search_width(size), val)
            ==> is_partition_point(arr@, search_width(size), val, idx as int),
        has_specified_order::<T>() && idx > 0 ==> is_below(arr@[idx - 1], val),
        has_specified_order::<T>() && idx == 0 ==> !is_below(arr@[0], val),
{
    let ghost width = search_width(size);
    let ghost specified = has_specified_order::<T>();
    let ghost ordered = specified && is_partitioned(arr@, width, val);
    let mut idx: usize = 0;
    let mut size_mut: usize = size;
    while size_mut > 1
        invariant
            width == search_width(size),
            width <= arr.len(),
            specified == has_specified_order::<T>(),
            ordered == (specified && is_partitioned(arr@, width, val)),
            size_mut == 0 ==> size == 0 && idx == 0,
            idx + size_mut <= width,
            specified && idx > 0 ==> is_below(arr@[idx as int], val),
            ordered ==> forall|i: int| 0 <= i < idx ==> #[trigger] is_below(arr@[i], val),
            ordered ==> forall|i: int|
                idx + size_mut <= i < size ==> !#[trigger] is_below(arr@[i], val),
        decreases size_mut,
    {
        let half: usize = size_mut >> 1;
        let odd: usize = size_mut & 1;
        assert(half == size_mut / 2 && odd == size_mut % 2) by (bit_vector)
            requires
                half == size_mut >> 1,
                odd == size_mut & 1,
        ;
        let idx_mid: usize = idx + half;
        let below = arr[idx_mid] < val;
        assert(specified ==> below == is_below(arr@[idx_mid as int], val));
        if below {
            idx = idx_mid;
        }
        size_mut = half + odd;
    }
    if arr[idx] < val {
        idx + 1
    } else {
        idx
    }
}

} // verus!
