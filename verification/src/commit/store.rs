//! Where the commitments of a graph are kept.
use vstd::prelude::*;

use crate::commit::cpu_basefold::BasefoldTable;
use crate::commit::cpu_open::HostCommitmentCache;

verus! {

/// The commitments of the edges, the devices they live on, and the copies kept on the host.
pub struct GpuCommitmentStore {
    pub table: BasefoldTable,
    pub commitments: Vec<Option<HostCommitmentCache>>,
    pub device_ids: Vec<Option<i32>>,
    /// What was moved off the devices, to be used for openings.
    pub host_caches: Vec<Option<HostCommitmentCache>>,
}

impl GpuCommitmentStore {
    /// There is an entry per edge.
    pub open spec fn wf(&self) -> bool {
        &&& self.device_ids.len() == self.commitments.len()
        &&& self.host_caches.len() == self.commitments.len()
    }

    /// An empty store for a graph with `num_edges` edges.
    pub fn new(table: BasefoldTable, num_edges: usize) -> (r: Self)
        ensures
            r.wf(),
            r.table == table,
            r.commitments.len() == num_edges,
            forall|e: int| 0 <= e < num_edges ==> (#[trigger] r.commitments[e]) is None,
            forall|e: int| 0 <= e < num_edges ==> (#[trigger] r.device_ids[e]) is None,
            forall|e: int| 0 <= e < num_edges ==> (#[trigger] r.host_caches[e]) is None,
    {
        GpuCommitmentStore {
            table,
            commitments: nothing(num_edges),
            device_ids: no_devices(num_edges),
            host_caches: nothing(num_edges),
        }
    }

    /// Forgets the commitments and where they were.
    pub fn free_commitments(&mut self)
        ensures
            final(self).table == old(self).table,
            final(self).host_caches == old(self).host_caches,
            final(self).commitments.len() == old(self).commitments.len(),
            final(self).device_ids.len() == old(self).device_ids.len(),
            forall|e: int|
                0 <= e < old(self).commitments.len() ==> (#[trigger] final(self).commitments[e]) is None,
            forall|e: int|
                0 <= e < old(self).device_ids.len() ==> (#[trigger] final(self).device_ids[e]) is None,
    {
        self.commitments = nothing(self.commitments.len());
        self.device_ids = no_devices(self.device_ids.len());
    }

    /// Whether openings have to go through the copies on the host.
    pub fn use_reupload(&self) -> (r: bool)
        ensures
            r == exists|e: int| 0 <= e < self.host_caches.len() && (#[trigger] self.host_caches[e]) is Some,
    {
        let mut e: usize = 0;
        while e < self.host_caches.len()
            invariant
                e <= self.host_caches.len(),
                forall|k: int| 0 <= k < e ==> (#[trigger] self.host_caches[k]) is None,
            decreases self.host_caches.len() - e,
        {
            if self.host_caches[e].is_some() {
                return true;
            }
            e = e + 1;
        }
        false
    }

    /// Moves all commitments to the host. Afterwards none is left, and the host holds every one that
    /// there was.
    pub fn download_and_free(&mut self)
        requires
            old(self).wf(),
        ensures
            final(self).wf(),
            final(self).table == old(self).table,
            final(self).device_ids == old(self).device_ids,
            final(self).commitments.len() == old(self).commitments.len(),
            forall|e: int|
                0 <= e < old(self).commitments.len() ==> (#[trigger] final(self).commitments[e]) is None,
            forall|e: int|
                0 <= e < old(self).commitments.len() ==> (#[trigger] final(self).host_caches[e]) == (if old(
                    self,
                ).commitments[e] is Some {
                    old(self).commitments[e]
                } else {
                    old(self).host_caches[e]
                }),
    {
        let ghost before = *self;
        let n: usize = self.commitments.len();
        let mut e: usize = 0;
        while e < n
            invariant
                e <= n,
                n == before.commitments.len(),
                before.wf(),
                self.wf(),
                self.table == before.table,
                self.device_ids == before.device_ids,
                self.commitments.len() == n,
                forall|k: int|
                    e <= k < n ==> (#[trigger] self.commitments[k]) == before.commitments[k],
                forall|k: int|
                    e <= k < n ==> (#[trigger] self.host_caches[k]) == before.host_caches[k],
                forall|k: int| 0 <= k < e ==> (#[trigger] self.commitments[k]) is None,
                forall|k: int|
                    0 <= k < e ==> (#[trigger] self.host_caches[k]) == (if before.commitments[k] is Some {
                        before.commitments[k]
                    } else {
                        before.host_caches[k]
                    }),
            decreases n - e,
        {
            if self.commitments[e].is_some() {
                let c: Option<HostCommitmentCache> = self.commitments[e].take();
                self.host_caches[e] = c;
            }
            e = e + 1;
        }
    }
}

/// No commitments.
fn nothing(n: usize) -> (r: Vec<Option<HostCommitmentCache>>)
    ensures
        r.len() == n,
        forall|e: int| 0 <= e < n ==> (#[trigger] r[e]) is None,
{
    let mut r: Vec<Option<HostCommitmentCache>> = Vec::new();
    while r.len() < n
        invariant
            r.len() <= n,
            forall|e: int| 0 <= e < r.len() ==> (#[trigger] r[e]) is None,
        decreases n - r.len(),
    {
        r.push(None);
    }
    r
}

/// No devices.
fn no_devices(n: usize) -> (r: Vec<Option<i32>>)
    ensures
        r.len() == n,
        forall|e: int| 0 <= e < n ==> (#[trigger] r[e]) is None,
{
    let mut r: Vec<Option<i32>> = Vec::new();
    while r.len() < n
        invariant
            r.len() <= n,
            forall|e: int| 0 <= e < r.len() ==> (#[trigger] r[e]) is None,
        decreases n - r.len(),
    {
        r.push(None);
    }
    r
}

} // verus!
