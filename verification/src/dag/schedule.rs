//! How work is spread: largest first, over devices and pools.
use vstd::prelude::*;

verus! {

/// Work item `a` comes before `b`: it is larger, or as large and was listed first.
pub open spec fn comes_before(sizes: Seq<usize>, a: usize, b: usize) -> bool {
    sizes[a as int] > sizes[b as int] || (sizes[a as int] == sizes[b as int] && a < b)
}

/// The items are in order, largest first.
pub open spec fn largest_first(sizes: Seq<usize>, items: Seq<usize>) -> bool {
    forall|i: int, j: int|
        0 <= i < j < items.len() ==> comes_before(sizes, #[trigger] items[i], #[trigger] items[j])
}

/// The items are positions, in increasing order.
pub open spec fn increasing(items: Seq<usize>, n: nat) -> bool {
    &&& forall|i: int| 0 <= i < items.len() ==> (#[trigger] items[i]) < n
    &&& forall|i: int, j: int|
        0 <= i < j < items.len() ==> (#[trigger] items[i]) < (#[trigger] items[j])
}

/// Puts items in order, largest first; items of one size stay as they are listed.
pub fn sort_largest_first(sizes: &Vec<usize>, items: &Vec<usize>) -> (r: Vec<usize>)
    requires
        increasing(items@, sizes.len() as nat),
    ensures
        r@.to_multiset() == items@.to_multiset(),
        largest_first(sizes@, r@),
        r.len() == items.len(),
        forall|i: int| 0 <= i < r.len() ==> (#[trigger] r[i]) < sizes.len(),
{
    let mut r: Vec<usize> = Vec::new();
    let mut i: usize = 0;
    assert(items@.take(0) =~= r@);
    while i < items.len()
        invariant
            i <= items.len(),
            r.len() == i,
            increasing(items@, sizes.len() as nat),
            r@.to_multiset() == items@.take(i as int).to_multiset(),
            largest_first(sizes@, r@),
            forall|k: int| 0 <= k < r.len() ==> (#[trigger] r[k]) < sizes.len(),
            i < items.len() ==> forall|k: int| 0 <= k < r.len() ==> (#[trigger] r[k]) < items[i as int],
        decreases items.len() - i,
    {
        let item: usize = items[i];
        let size: usize = sizes[item];
        let mut at: usize = r.len();
        while at > 0 && sizes[r[at - 1]] < size
            invariant
                at <= r.len(),
                size == sizes[item as int],
                forall|k: int| 0 <= k < r.len() ==> (#[trigger] r[k]) < sizes.len(),
                forall|k: int| at <= k < r.len() ==> sizes[(#[trigger] r[k]) as int] < size,
            decreases at,
        {
            at = at - 1;
        }
        let ghost before = r@;
        r.insert(at, item);
        proof {
            vstd::seq_lib::to_multiset_insert(before, at as int, item);
            vstd::seq_lib::to_multiset_build(items@.take(i as int), item);
            assert(items@.take(i as int + 1) =~= items@.take(i as int).push(item));
            assert forall|a: int, b: int| 0 <= a < b < r.len() implies comes_before(
                sizes@,
                #[trigger] r@[a],
                #[trigger] r@[b],
            ) by {
                let x = if a < at {
                    a
                } else {
                    a - 1
                };
                let y = if b < at {
                    b
                } else {
                    b - 1
                };
                if a != at && b != at {
                    assert(comes_before(sizes@, before[x], before[y]));
                } else if b == at {
                    // Everything up to `at` is at least as large.
                    assert(r@[a] == before[a]);
                    assert(sizes[before[at - 1] as int] >= size);
                    if a < at - 1 {
                        assert(comes_before(sizes@, before[a], before[at - 1]));
                    }
                } else {
                    assert(r@[b] == before[y]);
                }
            }
            assert forall|k: int| 0 <= k < r.len() implies (#[trigger] r@[k]) < sizes.len() by {
                if k != at {
                    let x = if k < at {
                        k
                    } else {
                        k - 1
                    };
                    assert(r@[k] == before[x]);
                }
            }
            if i + 1 < items.len() {
                assert forall|k: int| 0 <= k < r.len() implies (#[trigger] r@[k]) < items[i + 1] by {
                    assert(items[i as int] < items[i + 1]);
                    if k != at {
                        let x = if k < at {
                            k
                        } else {
                            k - 1
                        };
                        assert(r@[k] == before[x]);
                    }
                }
            }
        }
        i = i + 1;
    }
    assert(items@.take(i as int) =~= items@);
    r
}

/// The positions below `k` whose size is, or is not, above the threshold.
pub open spec fn by_threshold(sizes: Seq<usize>, threshold: usize, above: bool, k: nat) -> Seq<usize>
    decreases k,
{
    if k == 0 {
        Seq::empty()
    } else {
        let rest = by_threshold(sizes, threshold, above, (k - 1) as nat);
        if (sizes[k - 1] > threshold) == above {
            rest.push((k - 1) as usize)
        } else {
            rest
        }
    }
}

/// Splits the tasks: those of at most `threshold` variables in order, the others largest first.
pub fn split_tasks(sizes: &Vec<usize>, threshold: usize) -> (r: (Vec<usize>, Vec<usize>))
    ensures
        r.0@ == by_threshold(sizes@, threshold, false, sizes.len() as nat),
        r.1@.to_multiset() == by_threshold(
            sizes@,
            threshold,
            true,
            sizes.len() as nat,
        ).to_multiset(),
        largest_first(sizes@, r.1@),
{
    let mut small: Vec<usize> = Vec::new();
    let mut large: Vec<usize> = Vec::new();
    let mut i: usize = 0;
    while i < sizes.len()
        invariant
            i <= sizes.len(),
            small@ == by_threshold(sizes@, threshold, false, i as nat),
            large@ == by_threshold(sizes@, threshold, true, i as nat),
            increasing(large@, i as nat),
        decreases sizes.len() - i,
    {
        if sizes[i] <= threshold {
            small.push(i);
        } else {
            large.push(i);
        }
        i = i + 1;
    }
    (small, sort_largest_first(sizes, &large))
}

/// The device of an edge: the one it was placed on, or the first.
pub open spec fn device_of(device: Option<i32>, num_devices: usize) -> int {
    match device {
        Some(d) => d as int % num_devices as int,
        None => 0,
    }
}

/// The positions below `k` whose edge is on device `dev`.
pub open spec fn on_device(
    edges: Seq<usize>,
    device_ids: Seq<Option<i32>>,
    num_devices: usize,
    dev: int,
    k: nat,
) -> Seq<usize>
    decreases k,
{
    if k == 0 {
        Seq::empty()
    } else {
        let rest = on_device(edges, device_ids, num_devices, dev, (k - 1) as nat);
        if device_of(device_ids[edges[k - 1] as int], num_devices) == dev {
            rest.push((k - 1) as usize)
        } else {
            rest
        }
    }
}

/// The device of an edge.
pub fn device_index(device: Option<i32>, num_devices: usize) -> (r: usize)
    requires
        num_devices > 0,
        device matches Some(d) ==> d >= 0,
    ensures
        r == device_of(device, num_devices),
        r < num_devices,
{
    match device {
        Some(d) => {
            let n: usize = d as usize;
            proof {
                vstd::arithmetic::div_mod::lemma_mod_bound(n as int, num_devices as int);
            }
            n % num_devices
        },
        None => 0,
    }
}

/// One queue per device, each with the tasks on that device, largest first.
pub fn device_queues(
    edges: &Vec<usize>,
    sizes: &Vec<usize>,
    device_ids: &Vec<Option<i32>>,
    num_devices: usize,
) -> (r: Vec<Vec<usize>>)
    requires
        num_devices > 0,
        sizes.len() == edges.len(),
        forall|t: int| 0 <= t < edges.len() ==> (#[trigger] edges[t]) < device_ids.len(),
        forall|e: int|
            0 <= e < device_ids.len() ==> (#[trigger] device_ids[e] matches Some(d) ==> d >= 0),
    ensures
        r.len() == num_devices,
        forall|dev: int|
            0 <= dev < num_devices ==> {
                &&& (#[trigger] r[dev])@.to_multiset() == on_device(
                    edges@,
                    device_ids@,
                    num_devices,
                    dev,
                    edges.len() as nat,
                ).to_multiset()
                &&& largest_first(sizes@, r[dev]@)
            },
{
    let mut queues: Vec<Vec<usize>> = Vec::new();
    let mut dev: usize = 0;
    while dev < num_devices
        invariant
            dev <= num_devices,
            num_devices > 0,
            sizes.len() == edges.len(),
            forall|t: int| 0 <= t < edges.len() ==> (#[trigger] edges[t]) < device_ids.len(),
            forall|e: int|
                0 <= e < device_ids.len() ==> (#[trigger] device_ids[e] matches Some(d) ==> d >= 0),
            queues.len() == dev,
            forall|d: int|
                0 <= d < dev ==> {
                    &&& (#[trigger] queues[d])@.to_multiset() == on_device(
                        edges@,
                        device_ids@,
                        num_devices,
                        d,
                        edges.len() as nat,
                    ).to_multiset()
                    &&& largest_first(sizes@, queues[d]@)
                },
        decreases num_devices - dev,
    {
        let mut here: Vec<usize> = Vec::new();
        let mut t: usize = 0;
        while t < edges.len()
            invariant
                t <= edges.len(),
                num_devices > 0,
                forall|t: int| 0 <= t < edges.len() ==> (#[trigger] edges[t]) < device_ids.len(),
                forall|e: int|
                    0 <= e < device_ids.len() ==> (#[trigger] device_ids[e] matches Some(d) ==> d >= 0),
                here@ == on_device(edges@, device_ids@, num_devices, dev as int, t as nat),
                increasing(here@, t as nat),
            decreases edges.len() - t,
        {
            if device_index(device_ids[edges[t]], num_devices) == dev {
                here.push(t);
            }
            t = t + 1;
        }
        queues.push(sort_largest_first(sizes, &here));
        dev = dev + 1;
    }
    queues
}

/// Number of threads that drive devices: what was asked for, or a fixed number per device.
pub fn device_pool_size(asked: Option<usize>, num_devices: usize, per_device: usize) -> (r: usize)
    requires
        num_devices * per_device <= usize::MAX,
    ensures
        asked matches Some(n) ==> r == n,
        asked is None ==> r == if num_devices * per_device >= 1 {
            num_devices * per_device
        } else {
            1
        },
{
    match asked {
        Some(n) => n,
        None => {
            let n: usize = num_devices * per_device;
            if n >= 1 {
                n
            } else {
                1
            }
        },
    }
}

/// Number of threads left for the host.
pub fn host_pool_size(num_cores: usize, device_pool: usize) -> (r: usize)
    requires
        device_pool <= num_cores,
    ensures
        r == if num_cores > device_pool {
            num_cores - device_pool
        } else {
            1
        },
{
    if num_cores > device_pool {
        num_cores - device_pool
    } else {
        1
    }
}

/// The number of processors that the program may use, from `num_cpus::get`. It depends on the machine
/// and on the limits of the process, so nothing is said about it.
#[verifier::external_body]
fn core_count() -> (r: usize) {
    num_cpus::get()
}

/// The sizes of the pools on a machine with a given number of cores: the threads that drive devices
/// and those left for the host. There are none where the devices need more threads than there are
/// cores.
pub fn pools_for(num_cores: usize, asked: Option<usize>, num_devices: usize, per_device: usize) -> (r: Option<
    (usize, usize),
>)
    requires
        num_devices * per_device <= usize::MAX,
    ensures
        pools_fit(num_cores, asked, num_devices, per_device, r),
{
    let device_pool: usize = device_pool_size(asked, num_devices, per_device);
    if device_pool <= num_cores {
        Some((device_pool, host_pool_size(num_cores, device_pool)))
    } else {
        None
    }
}

/// The threads that drive devices.
pub open spec fn device_threads(asked: Option<usize>, num_devices: usize, per_device: usize) -> int {
    match asked {
        Some(n) => n as int,
        None => if num_devices * per_device >= 1 {
            num_devices * per_device
        } else {
            1
        },
    }
}

/// `r` are the sizes of the pools on a machine with `num_cores` cores.
pub open spec fn pools_fit(
    num_cores: usize,
    asked: Option<usize>,
    num_devices: usize,
    per_device: usize,
    r: Option<(usize, usize)>,
) -> bool {
    let threads = device_threads(asked, num_devices, per_device);
    match r {
        Some((device, host)) => threads <= num_cores && device == threads && host == if num_cores > threads {
            num_cores - threads
        } else {
            1
        },
        None => threads > num_cores,
    }
}

/// The sizes of the pools on this machine.
pub fn pools_here(asked: Option<usize>, num_devices: usize, per_device: usize) -> (r: Option<(usize, usize)>)
    requires
        num_devices * per_device <= usize::MAX,
    ensures
        exists|num_cores: usize| #[trigger] pools_fit(num_cores, asked, num_devices, per_device, r),
{
    let num_cores: usize = core_count();
    pools_for(num_cores, asked, num_devices, per_device)
}

} // verus!
