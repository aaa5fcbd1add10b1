//! Which tasks go where.
use vstd::prelude::*;

use crate::dag::schedule::{by_threshold, comes_before, largest_first, on_device};

verus! {

/// A task is above the threshold or not, and stands in one of the two lists accordingly.
pub proof fn lemma_by_threshold(sizes: Seq<usize>, threshold: usize, above: bool, k: nat, t: usize)
    requires
        k <= sizes.len() <= usize::MAX,
    ensures
        by_threshold(sizes, threshold, above, k).contains(t) <==> t < k && (above <==> sizes[t as int] > threshold),
        by_threshold(sizes, threshold, above, k).no_duplicates(),
    decreases k,
{
    if k > 0 {
        let rest = by_threshold(sizes, threshold, above, (k - 1) as nat);
        let last = (k - 1) as usize;
        lemma_by_threshold(sizes, threshold, above, (k - 1) as nat, t);
        lemma_by_threshold(sizes, threshold, above, (k - 1) as nat, last);
        let all = by_threshold(sizes, threshold, above, k);
        if (sizes[k - 1] > threshold) == above {
            assert(all == rest.push(last));
            assert(all[rest.len() as int] == last);
            if rest.contains(t) {
                let i = choose|i: int| 0 <= i < rest.len() && rest[i] == t;
                assert(all[i] == t);
            }
            if all.contains(t) && t != last {
                let i = choose|i: int| 0 <= i < all.len() && all[i] == t;
                assert(rest[i] == t);
            }
            assert(all.no_duplicates()) by {
                assert forall|i: int, j: int| 0 <= i < all.len() && 0 <= j < all.len() && i != j implies all[i]
                    != all[j] by {
                    if i < rest.len() && j == rest.len() {
                        assert(rest.contains(rest[i]));
                        assert(!rest.contains(last));
                    }
                    if j < rest.len() && i == rest.len() {
                        assert(rest.contains(rest[j]));
                        assert(!rest.contains(last));
                    }
                }
            }
        }
    }
}

/// A task goes to the device of its edge, taken modulo the number of devices, or to the first where its edge
/// is on none.
pub proof fn lemma_on_device(
    edges: Seq<usize>,
    device_ids: Seq<Option<i32>>,
    num_devices: usize,
    dev: int,
    k: nat,
    t: usize,
)
    requires
        k <= edges.len() <= usize::MAX,
        num_devices > 0,
    ensures
        on_device(
            edges,
            device_ids,
            num_devices,
            dev,
            k,
        ).contains(t) <==> t < k && match device_ids[edges[t as int] as int] {
            Some(d) => dev == d as int % num_devices as int,
            None => dev == 0,
        },
    decreases k,
{
    if k > 0 {
        let rest = on_device(edges, device_ids, num_devices, dev, (k - 1) as nat);
        let last = (k - 1) as usize;
        lemma_on_device(edges, device_ids, num_devices, dev, (k - 1) as nat, t);
        let all = on_device(edges, device_ids, num_devices, dev, k);
        if all.len() > rest.len() {
            assert(all == rest.push(last));
            assert(all[rest.len() as int] == last);
            if rest.contains(t) {
                let i = choose|i: int| 0 <= i < rest.len() && rest[i] == t;
                assert(all[i] == t);
            }
            if all.contains(t) && t != last {
                let i = choose|i: int| 0 <= i < all.len() && all[i] == t;
                assert(rest[i] == t);
            }
        }
    }
}

/// Where tasks are listed largest first, no task is larger than one before it, and tasks of one size are
/// listed in the order of their numbers.
pub proof fn lemma_largest_first(sizes: Seq<usize>, items: Seq<usize>, i: int, j: int)
    requires
        largest_first(sizes, items),
        0 <= i < j < items.len(),
    ensures
        sizes[items[i] as int] >= sizes[items[j] as int],
        sizes[items[i] as int] == sizes[items[j] as int] ==> items[i] < items[j],
{
    assert(comes_before(sizes, items[i], items[j]));
}

} // verus!
