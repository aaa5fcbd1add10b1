//! Which polynomials of a graph are committed to, in what order and where.
use vstd::prelude::*;

use crate::commit::basefold::BasefoldCommitmentData;
use crate::commit::cpu_open::HostCommitmentCache;
use crate::commit::store::GpuCommitmentStore;
use crate::dag::schedule::{increasing, largest_first, sort_largest_first};
use crate::dag::types::{Dag, EdgeId};
use crate::dag::witness::{PolyData, Role, Witness};
use crate::poly::MLPoly;

verus! {

/// Polynomials with fewer variables are not committed to.
pub const MIN_BASEFOLD_VARS: usize = 2;

/// Polynomials with more variables are not committed to.
pub const MAX_BASEFOLD_VARS: usize = 24;

/// A polynomial to commit to: a tensor of an edge.
#[derive(Clone, Copy, Debug, PartialEq, Eq, Structural)]
pub struct CommitTask {
    pub edge_id: EdgeId,
    pub slot: usize,
    pub num_vars: usize,
    pub is_weight: bool,
}

/// A task with the device that does it.
#[derive(Clone, Copy, Debug, PartialEq, Eq, Structural)]
pub struct PlacedTask {
    pub task: CommitTask,
    pub device: usize,
}

/// All tensors have well-formed polynomials.
pub open spec fn polys_ok(ws: Seq<Vec<Witness>>) -> bool {
    forall|e: int, i: int|
        0 <= e < ws.len() && 0 <= i < ws[e].len() ==> ((#[trigger] ws[e][i]).data matches Some(d)
            ==> d.wf())
}

/// The sizes of the tasks.
pub open spec fn task_sizes(tasks: Seq<CommitTask>) -> Seq<usize> {
    tasks.map_values(|t: CommitTask| t.num_vars)
}

/// The tasks that the order lists and that are, or are not, about weights.
pub open spec fn picked(tasks: Seq<CommitTask>, order: Seq<usize>, weight: bool) -> Seq<CommitTask>
    decreases order.len(),
{
    if order.len() == 0 {
        Seq::empty()
    } else {
        let rest = picked(tasks, order.drop_last(), weight);
        let t = tasks[order.last() as int];
        if t.is_weight == weight {
            rest.push(t)
        } else {
            rest
        }
    }
}

/// The partition of an edge, where edges were assigned to partitions.
pub open spec fn partition_of(partitions: Option<Seq<Option<usize>>>, e: EdgeId) -> Option<usize> {
    match partitions {
        Some(p) => p[e as int],
        None => None,
    }
}

/// Each task goes to the device of its partition; a task without one goes round the devices.
pub open spec fn placed(
    tasks: Seq<CommitTask>,
    partitions: Option<Seq<Option<usize>>>,
    num_devices: usize,
) -> Seq<PlacedTask> {
    Seq::new(
        tasks.len(),
        |i: int|
            PlacedTask {
                task: tasks[i],
                device: (match partition_of(partitions, tasks[i].edge_id) {
                    Some(p) => p as int,
                    None => i,
                } % num_devices as int) as usize,
            },
    )
}

/// The plan does all tasks, weights first, and of each kind the largest first.
pub open spec fn is_plan(
    tasks: Seq<CommitTask>,
    partitions: Option<Seq<Option<usize>>>,
    num_devices: usize,
    order: Seq<usize>,
    plan: Seq<PlacedTask>,
) -> bool {
    &&& order.to_multiset() == Seq::new(tasks.len(), |i: int| i as usize).to_multiset()
    &&& largest_first(task_sizes(tasks), order)
    &&& plan == placed(picked(tasks, order, true), partitions, num_devices) + placed(
        picked(tasks, order, false),
        partitions,
        num_devices,
    )
}

/// The plan does all tasks in order of kind and size.
pub open spec fn planned(
    tasks: Seq<CommitTask>,
    partitions: Option<Seq<Option<usize>>>,
    num_devices: usize,
    plan: Seq<PlacedTask>,
) -> bool {
    exists|order: Seq<usize>| #[trigger] is_plan(tasks, partitions, num_devices, order, plan)
}

impl Dag {
    /// A tensor of the given role on edge `e` is committed to: the edge is a boundary or claims
    /// about itself, or the tensor is not an output, or nothing reads it.
    pub open spec fn commits(&self, role: Role, e: EdgeId) -> bool {
        ||| self.boundary_edges@.contains(e)
        ||| self.self_claim_edges@.contains(e)
        ||| role != Role::Output
        ||| self.consumers[e as int].len() == 0
    }

    /// Tensor `i` of edge `e` is committed to.
    pub open spec fn wants(
        &self,
        ws: Seq<Vec<Witness>>,
        commitments: Seq<Option<BasefoldCommitmentData>>,
        e: int,
        i: int,
    ) -> bool {
        &&& self.commits(ws[e][i].role, e as usize)
        &&& commitments[e] is None
        &&& ws[e][i].data matches Some(d) && MIN_BASEFOLD_VARS <= d.vars() <= MAX_BASEFOLD_VARS
    }

    /// The task for tensor `i` of edge `e`.
    pub open spec fn task_for(&self, ws: Seq<Vec<Witness>>, e: int, i: int) -> CommitTask {
        CommitTask {
            edge_id: e as usize,
            slot: i as usize,
            num_vars: ws[e][i].data->0.vars() as usize,
            is_weight: ws[e][i].role == Role::Constant,
        }
    }

    /// The tasks for the first `k` tensors of edge `e`.
    pub open spec fn edge_commits(
        &self,
        ws: Seq<Vec<Witness>>,
        commitments: Seq<Option<BasefoldCommitmentData>>,
        e: int,
        k: nat,
    ) -> Seq<CommitTask>
        decreases k,
    {
        if k == 0 {
            Seq::empty()
        } else {
            let rest = self.edge_commits(ws, commitments, e, (k - 1) as nat);
            if self.wants(ws, commitments, e, k - 1) {
                rest.push(self.task_for(ws, e, k - 1))
            } else {
                rest
            }
        }
    }

    /// The tasks for the first `k` edges.
    pub open spec fn commits_upto(
        &self,
        ws: Seq<Vec<Witness>>,
        commitments: Seq<Option<BasefoldCommitmentData>>,
        k: nat,
    ) -> Seq<CommitTask>
        decreases k,
    {
        if k == 0 {
            Seq::empty()
        } else {
            self.commits_upto(ws, commitments, (k - 1) as nat) + self.edge_commits(
                ws,
                commitments,
                k - 1,
                ws[k - 1].len() as nat,
            )
        }
    }

    /// Whether a tensor on an edge is committed to.
    pub fn should_commit(&self, witness: &Witness, edge_id: EdgeId) -> (r: bool)
        requires
            edge_id < self.consumers.len(),
        ensures
            r == self.commits(witness.role, edge_id),
    {
        if has_edge(&self.boundary_edges, edge_id) {
            return true;
        }
        if self.self_claim_edges.contains(&edge_id) {
            return true;
        }
        match witness.role {
            Role::Constant => true,
            Role::Auxiliary => true,
            Role::Input => true,
            Role::Output => self.consumers[edge_id].len() == 0,
        }
    }

    /// The polynomials to commit to, edge by edge.
    pub fn commit_tasks(
        &self,
        witnesses: &[Vec<Witness>],
        commitments: &Vec<Option<BasefoldCommitmentData>>,
    ) -> (r: Vec<CommitTask>)
        requires
            witnesses.len() == self.num_edges,
            self.consumers.len() == self.num_edges,
            commitments.len() == self.num_edges,
            polys_ok(witnesses@),
        ensures
            r@ == self.commits_upto(witnesses@, commitments@, self.num_edges as nat),
            forall|t: int| 0 <= t < r.len() ==> self.task_in(witnesses@, #[trigger] r[t]),
    {
        let ghost ws = witnesses@;
        let ghost com = commitments@;
        let mut tasks: Vec<CommitTask> = Vec::new();
        let mut e: usize = 0;
        while e < self.num_edges
            invariant
                e <= self.num_edges,
                ws == witnesses@,
                com == commitments@,
                witnesses.len() == self.num_edges,
                self.consumers.len() == self.num_edges,
                commitments.len() == self.num_edges,
                polys_ok(ws),
                tasks@ == self.commits_upto(ws, com, e as nat),
                forall|t: int| 0 <= t < tasks.len() ==> self.task_in(ws, #[trigger] tasks[t]),
            decreases self.num_edges - e,
        {
            let ghost before = tasks@;
            let mut i: usize = 0;
            assert(tasks@ =~= before + self.edge_commits(ws, com, e as int, 0));
            while i < witnesses[e].len()
                invariant
                    e < self.num_edges,
                    i <= ws[e as int].len(),
                    ws == witnesses@,
                    com == commitments@,
                    witnesses.len() == self.num_edges,
                    self.consumers.len() == self.num_edges,
                    commitments.len() == self.num_edges,
                    polys_ok(ws),
                    tasks@ == before + self.edge_commits(ws, com, e as int, i as nat),
                    forall|t: int| 0 <= t < tasks.len() ==> self.task_in(ws, #[trigger] tasks[t]),
                decreases ws[e as int].len() - i,
            {
                let w: &Witness = &witnesses[e][i];
                assert(*w == ws[e as int][i as int]);
                let ghost here = tasks@;
                if self.should_commit(w, e) && commitments[e].is_none() {
                    match &w.data {
                        Some(data) => {
                            let num_vars: usize = data.n();
                            if num_vars >= MIN_BASEFOLD_VARS && num_vars <= MAX_BASEFOLD_VARS {
                                let is_weight: bool = w.role == Role::Constant;
                                tasks.push(CommitTask { edge_id: e, slot: i, num_vars, is_weight });
                                assert(tasks@ =~= before + self.edge_commits(
                                    ws,
                                    com,
                                    e as int,
                                    i as nat,
                                ).push(self.task_for(ws, e as int, i as int)));
                            }
                        },
                        None => {},
                    }
                }
                i = i + 1;
            }
            e = e + 1;
        }
        tasks
    }

    /// The task names a tensor with a polynomial of its size.
    pub open spec fn task_in(&self, ws: Seq<Vec<Witness>>, t: CommitTask) -> bool {
        &&& t.edge_id < ws.len()
        &&& t.slot < ws[t.edge_id as int].len()
        &&& ws[t.edge_id as int][t.slot as int].data matches Some(d) && d.wf() && d.vars() == t.num_vars
    }
}

/// Whether a list has an edge.
pub fn has_edge(v: &Vec<EdgeId>, e: EdgeId) -> (r: bool)
    ensures
        r == v@.contains(e),
{
    let mut i: usize = 0;
    while i < v.len()
        invariant
            i <= v.len(),
            forall|k: int| 0 <= k < i ==> v[k] != e,
        decreases v.len() - i,
    {
        if v[i] == e {
            return true;
        }
        i = i + 1;
    }
    false
}

/// Picks the tasks about weights, or the others, in the given order.
fn pick(tasks: &Vec<CommitTask>, order: &Vec<usize>, weight: bool) -> (r: Vec<CommitTask>)
    requires
        forall|i: int| 0 <= i < order.len() ==> (#[trigger] order[i]) < tasks.len(),
    ensures
        r@ == picked(tasks@, order@, weight),
        forall|i: int| 0 <= i < r.len() ==> tasks@.contains(#[trigger] r[i]),
{
    let mut r: Vec<CommitTask> = Vec::new();
    let mut i: usize = 0;
    while i < order.len()
        invariant
            i <= order.len(),
            forall|i: int| 0 <= i < order.len() ==> (#[trigger] order[i]) < tasks.len(),
            r@ == picked(tasks@, order@.take(i as int), weight),
            forall|i: int| 0 <= i < r.len() ==> tasks@.contains(#[trigger] r[i]),
        decreases order.len() - i,
    {
        let t: CommitTask = tasks[order[i]];
        assert(order@.take(i as int + 1).drop_last() =~= order@.take(i as int));
        if t.is_weight == weight {
            r.push(t);
        }
        i = i + 1;
    }
    assert(order@.take(i as int) =~= order@);
    r
}

/// The views of optional partitions.
pub open spec fn partitions_view(p: Option<&Vec<Option<usize>>>) -> Option<Seq<Option<usize>>> {
    match p {
        Some(v) => Some(v@),
        None => None,
    }
}

/// Places tasks on devices.
fn place(
    tasks: &Vec<CommitTask>,
    edge_partitions: Option<&Vec<Option<usize>>>,
    num_devices: usize,
) -> (r: Vec<PlacedTask>)
    requires
        num_devices > 0,
        edge_partitions matches Some(p) ==> forall|i: int|
            0 <= i < tasks.len() ==> (#[trigger] tasks[i]).edge_id < p.len(),
    ensures
        r@ == placed(tasks@, partitions_view(edge_partitions), num_devices),
{
    let ghost target = placed(tasks@, partitions_view(edge_partitions), num_devices);
    let mut r: Vec<PlacedTask> = Vec::new();
    let mut i: usize = 0;
    while i < tasks.len()
        invariant
            i <= tasks.len(),
            num_devices > 0,
            edge_partitions matches Some(p) ==> forall|i: int|
                0 <= i < tasks.len() ==> (#[trigger] tasks[i]).edge_id < p.len(),
            target == placed(tasks@, partitions_view(edge_partitions), num_devices),
            r@ == target.take(i as int),
        decreases tasks.len() - i,
    {
        let task: CommitTask = tasks[i];
        let mut key: usize = i;
        match edge_partitions {
            Some(p) => {
                assert(tasks[i as int].edge_id < p.len());
                match p[task.edge_id] {
                    Some(k) => {
                        key = k;
                    },
                    None => {},
                }
            },
            None => {},
        }
        let device: usize = key % num_devices;
        r.push(PlacedTask { task, device });
        i = i + 1;
        assert(r@ =~= target.take(i as int));
    }
    assert(target.take(i as int) =~= target);
    r
}

/// The order in which tasks are done makes a plan.
proof fn lemma_planned(
    tasks: Seq<CommitTask>,
    partitions: Option<Seq<Option<usize>>>,
    num_devices: usize,
    order: Seq<usize>,
    plan: Seq<PlacedTask>,
)
    requires
        is_plan(tasks, partitions, num_devices, order, plan),
    ensures
        planned(tasks, partitions, num_devices, plan),
{
}

/// Orders tasks, weights first and of each kind the largest first, and places them on devices.
pub fn plan_commits(
    tasks: &Vec<CommitTask>,
    edge_partitions: Option<&Vec<Option<usize>>>,
    num_devices: usize,
) -> (r: Vec<PlacedTask>)
    requires
        num_devices > 0,
        edge_partitions matches Some(p) ==> forall|i: int|
            0 <= i < tasks.len() ==> (#[trigger] tasks[i]).edge_id < p.len(),
    ensures
        planned(tasks@, partitions_view(edge_partitions), num_devices, r@),
        forall|i: int| 0 <= i < r.len() ==> tasks@.contains((#[trigger] r[i]).task),
{
    let mut sizes: Vec<usize> = Vec::new();
    let mut all: Vec<usize> = Vec::new();
    let mut i: usize = 0;
    while i < tasks.len()
        invariant
            i <= tasks.len(),
            sizes@ == task_sizes(tasks@).take(i as int),
            all@ == Seq::new(i as nat, |k: int| k as usize),
        decreases tasks.len() - i,
    {
        sizes.push(tasks[i].num_vars);
        all.push(i);
        i = i + 1;
        assert(sizes@ =~= task_sizes(tasks@).take(i as int));
        assert(all@ =~= Seq::new(i as nat, |k: int| k as usize));
    }
    assert(sizes@ =~= task_sizes(tasks@));
    assert(increasing(all@, sizes.len() as nat));
    let order: Vec<usize> = sort_largest_first(&sizes, &all);
    let weights: Vec<CommitTask> = pick(tasks, &order, true);
    let others: Vec<CommitTask> = pick(tasks, &order, false);
    proof {
        if edge_partitions is Some {
            let p = edge_partitions->0;
            assert forall|i: int| 0 <= i < weights.len() implies (#[trigger] weights[i]).edge_id < p.len() by {
                assert(tasks@.contains(weights[i]));
            }
            assert forall|i: int| 0 <= i < others.len() implies (#[trigger] others[i]).edge_id < p.len() by {
                assert(tasks@.contains(others[i]));
            }
        }
    }
    let mut plan: Vec<PlacedTask> = place(&weights, edge_partitions, num_devices);
    let mut rest: Vec<PlacedTask> = place(&others, edge_partitions, num_devices);
    let ghost (first, second) = (plan@, rest@);
    plan.append(&mut rest);
    proof {
        assert(plan@ =~= first + second);
        lemma_planned(tasks@, partitions_view(edge_partitions), num_devices, order@, plan@);
        assert forall|i: int| 0 <= i < plan.len() implies tasks@.contains((#[trigger] plan[i]).task) by {
            if i < first.len() {
                assert(plan[i].task == weights[i]);
                assert(tasks@.contains(weights[i]));
            } else {
                assert(plan[i].task == others[i - first.len()]);
                assert(tasks@.contains(others[i - first.len()]));
            }
        }
    }
    plan
}

/// Position, among the first `k`, of the last task about edge `e` that succeeded.
pub open spec fn last_success(
    plan: Seq<PlacedTask>,
    results: Seq<Option<HostCommitmentCache>>,
    e: EdgeId,
    k: nat,
) -> Option<int>
    decreases k,
{
    if k == 0 {
        None
    } else if plan[k - 1].task.edge_id == e && results[k - 1] is Some {
        Some(k - 1)
    } else {
        last_success(plan, results, e, (k - 1) as nat)
    }
}

/// The entries of edge `e` after the first `k` results were stored: those of the last success, or
/// what was there.
pub open spec fn edge_stored(
    plan: Seq<PlacedTask>,
    results: Seq<Option<HostCommitmentCache>>,
    k: nat,
    e: EdgeId,
    before: (Option<BasefoldCommitmentData>, Option<HostCommitmentCache>, Option<i32>),
    after: (Option<BasefoldCommitmentData>, Option<HostCommitmentCache>, Option<i32>),
) -> bool {
    after == match last_success(plan, results, e, k) {
        Some(t) => (
            Some(
                BasefoldCommitmentData {
                    root: results[t]->0.root,
                    num_vars: plan[t].task.num_vars,
                },
            ),
            results[t],
            Some(plan[t].device as i32),
        ),
        None => before,
    }
}

/// The entries of an edge.
pub open spec fn edge_entries(
    commitments: Seq<Option<BasefoldCommitmentData>>,
    store: GpuCommitmentStore,
    e: int,
) -> (Option<BasefoldCommitmentData>, Option<HostCommitmentCache>, Option<i32>) {
    (commitments[e], store.commitments[e], store.device_ids[e])
}

/// Stores the results of a plan; a later result for an edge replaces an earlier one.
pub fn store_commits(
    plan: &Vec<PlacedTask>,
    results: Vec<Option<HostCommitmentCache>>,
    commitments: &mut Vec<Option<BasefoldCommitmentData>>,
    store: &mut GpuCommitmentStore,
)
    requires
        old(store).wf(),
        old(store).commitments.len() == old(commitments).len(),
        results.len() == plan.len(),
        forall|t: int|
            0 <= t < plan.len() ==> (#[trigger] plan[t]).task.edge_id < old(commitments).len(),
        forall|t: int| 0 <= t < plan.len() ==> (#[trigger] plan[t]).device <= i32::MAX,
    ensures
        final(store).wf(),
        final(store).table == old(store).table,
        final(store).host_caches == old(store).host_caches,
        final(store).commitments.len() == old(store).commitments.len(),
        final(commitments).len() == old(commitments).len(),
        forall|e: int|
            0 <= e < old(commitments).len() ==> edge_stored(
                plan@,
                results@,
                plan.len() as nat,
                e as usize,
                #[trigger] edge_entries(old(commitments)@, *old(store), e),
                edge_entries(final(commitments)@, *final(store), e),
            ),
{
    let ghost before = *store;
    let ghost com = commitments@;
    let ghost rs = results@;
    let mut results: Vec<Option<HostCommitmentCache>> = results;
    let mut t: usize = 0;
    while t < plan.len()
        invariant
            t <= plan.len(),
            results.len() == plan.len(),
            rs.len() == plan.len(),
            before.wf(),
            store.wf(),
            store.table == before.table,
            store.host_caches == before.host_caches,
            store.commitments.len() == before.commitments.len(),
            before.commitments.len() == com.len(),
            commitments.len() == com.len(),
            forall|t: int| 0 <= t < plan.len() ==> (#[trigger] plan[t]).task.edge_id < com.len(),
            forall|t: int| 0 <= t < plan.len() ==> (#[trigger] plan[t]).device <= i32::MAX,
            forall|k: int| t <= k < plan.len() ==> (#[trigger] results[k]) == rs[k],
            forall|e: int|
                0 <= e < com.len() ==> edge_stored(
                    plan@,
                    rs,
                    t as nat,
                    e as usize,
                    #[trigger] edge_entries(com, before, e),
                    edge_entries(commitments@, *store, e),
                ),
        decreases plan.len() - t,
    {
        let p: PlacedTask = plan[t];
        let e: usize = p.task.edge_id;
        assert(results[t as int] == rs[t as int]);
        let ghost mid_com = commitments@;
        let ghost mid = *store;
        match results[t].take() {
            Some(c) => {
                let data: BasefoldCommitmentData = BasefoldCommitmentData {
                    root: c.root,
                    num_vars: p.task.num_vars,
                };
                commitments.set(e, Some(data));
                store.commitments.set(e, Some(c));
                store.device_ids.set(e, Some(p.device as i32));
            },
            None => {},
        }
        proof {
            assert forall|f: int| 0 <= f < com.len() implies edge_stored(
                plan@,
                rs,
                (t + 1) as nat,
                f as usize,
                #[trigger] edge_entries(com, before, f),
                edge_entries(commitments@, *store, f),
            ) by {
                assert(edge_stored(
                    plan@,
                    rs,
                    t as nat,
                    f as usize,
                    edge_entries(com, before, f),
                    edge_entries(mid_com, mid, f),
                ));
            }
        }
        t = t + 1;
    }
}

/// `r` is an answer to the request to commit to the polynomial of a task.
pub open spec fn commit_answered<C: Fn(&PolyData, usize, usize) -> Option<HostCommitmentCache>>(
    commit: C,
    ws: Seq<Vec<Witness>>,
    p: PlacedTask,
    r: Option<HostCommitmentCache>,
) -> bool {
    exists|d: &PolyData|
        Some(*d) == ws[p.task.edge_id as int][p.task.slot as int].data && #[trigger] call_ensures(
            commit,
            (d, p.task.num_vars, p.device),
            r,
        )
}

/// The results answer the requests of the plan and were stored.
pub open spec fn commit_run<C: Fn(&PolyData, usize, usize) -> Option<HostCommitmentCache>>(
    commit: C,
    ws: Seq<Vec<Witness>>,
    plan: Seq<PlacedTask>,
    results: Seq<Option<HostCommitmentCache>>,
    before: (Seq<Option<BasefoldCommitmentData>>, GpuCommitmentStore),
    after: (Seq<Option<BasefoldCommitmentData>>, GpuCommitmentStore),
) -> bool {
    &&& results.len() == plan.len()
    &&& forall|t: int|
        0 <= t < plan.len() ==> commit_answered(commit, ws, #[trigger] plan[t], results[t])
    &&& forall|e: int|
        0 <= e < before.0.len() ==> edge_stored(
            plan,
            results,
            plan.len(),
            e as usize,
            #[trigger] edge_entries(before.0, before.1, e),
            edge_entries(after.0, after.1, e),
        )
}

/// Some plan for the tasks was carried out.
pub open spec fn carried_out<C: Fn(&PolyData, usize, usize) -> Option<HostCommitmentCache>>(
    commit: C,
    ws: Seq<Vec<Witness>>,
    tasks: Seq<CommitTask>,
    partitions: Option<Seq<Option<usize>>>,
    num_devices: usize,
    before: (Seq<Option<BasefoldCommitmentData>>, GpuCommitmentStore),
    after: (Seq<Option<BasefoldCommitmentData>>, GpuCommitmentStore),
) -> bool {
    exists|plan: Seq<PlacedTask>, results: Seq<Option<HostCommitmentCache>>|
        planned(tasks, partitions, num_devices, plan) && #[trigger] commit_run(
            commit,
            ws,
            plan,
            results,
            before,
            after,
        )
}

/// A plan that was carried out is a witness.
proof fn lemma_carried_out<C: Fn(&PolyData, usize, usize) -> Option<HostCommitmentCache>>(
    commit: C,
    ws: Seq<Vec<Witness>>,
    tasks: Seq<CommitTask>,
    partitions: Option<Seq<Option<usize>>>,
    num_devices: usize,
    before: (Seq<Option<BasefoldCommitmentData>>, GpuCommitmentStore),
    after: (Seq<Option<BasefoldCommitmentData>>, GpuCommitmentStore),
    plan: Seq<PlacedTask>,
    results: Seq<Option<HostCommitmentCache>>,
)
    requires
        planned(tasks, partitions, num_devices, plan),
        commit_run(commit, ws, plan, results, before, after),
    ensures
        carried_out(commit, ws, tasks, partitions, num_devices, before, after),
{
}

impl Dag {
    /// Commits to the polynomials of a graph. The work on a device is the function `commit`, which
    /// is given a polynomial, its number of variables and the device.
    pub fn commit<C: Fn(&PolyData, usize, usize) -> Option<HostCommitmentCache>>(
        &self,
        witnesses: &[Vec<Witness>],
        commitments: &mut Vec<Option<BasefoldCommitmentData>>,
        store: &mut GpuCommitmentStore,
        edge_partitions: Option<&Vec<Option<usize>>>,
        num_devices: usize,
        commit: &C,
    )
        requires
            witnesses.len() == self.num_edges,
            self.consumers.len() == self.num_edges,
            old(commitments).len() == self.num_edges,
            polys_ok(witnesses@),
            old(store).wf(),
            old(store).commitments.len() == self.num_edges,
            0 < num_devices <= i32::MAX,
            edge_partitions matches Some(p) ==> p.len() == self.num_edges,
            forall|d: &PolyData, n: usize, dev: usize|
                d.wf() && d.vars() == n && dev < num_devices ==> #[trigger] call_requires(
                    *commit,
                    (d, n, dev),
                ),
        ensures
            final(commitments).len() == self.num_edges,
            final(store).wf(),
            final(store).table == old(store).table,
            final(store).host_caches == old(store).host_caches,
            carried_out(
                *commit,
                witnesses@,
                self.commits_upto(witnesses@, old(commitments)@, self.num_edges as nat),
                partitions_view(edge_partitions),
                num_devices,
                (old(commitments)@, *old(store)),
                (final(commitments)@, *final(store)),
            ),
    {
        let ghost ws = witnesses@;
        let ghost com = commitments@;
        let ghost st = *store;
        let tasks: Vec<CommitTask> = self.commit_tasks(witnesses, commitments);
        proof {
            assert forall|i: int| 0 <= i < tasks.len() implies (#[trigger] tasks[i]).edge_id
                < self.num_edges by {
                assert(self.task_in(ws, tasks[i]));
            }
        }
        let plan: Vec<PlacedTask> = plan_commits(&tasks, edge_partitions, num_devices);
        proof {
            lemma_plan_devices(tasks@, partitions_view(edge_partitions), num_devices, plan@);
            assert forall|t: int| 0 <= t < plan.len() implies self.task_in(ws, (#[trigger] plan[t]).task) by {
                assert(tasks@.contains(plan[t].task));
            }
        }
        let mut results: Vec<Option<HostCommitmentCache>> = Vec::new();
        let mut t: usize = 0;
        while t < plan.len()
            invariant
                t <= plan.len(),
                ws == witnesses@,
                results.len() == t,
                forall|t: int| 0 <= t < plan.len() ==> self.task_in(ws, (#[trigger] plan[t]).task),
                forall|t: int| 0 <= t < plan.len() ==> (#[trigger] plan[t]).device < num_devices,
                forall|d: &PolyData, n: usize, dev: usize|
                    d.wf() && d.vars() == n && dev < num_devices ==> #[trigger] call_requires(
                        *commit,
                        (d, n, dev),
                    ),
                forall|k: int|
                    0 <= k < t ==> commit_answered(*commit, ws, #[trigger] plan[k], results[k]),
            decreases plan.len() - t,
        {
            let p: PlacedTask = plan[t];
            assert(self.task_in(ws, plan[t as int].task));
            let ghost rs = results@;
            match &witnesses[p.task.edge_id][p.task.slot].data {
                Some(d) => {
                    let c: Option<HostCommitmentCache> = commit(d, p.task.num_vars, p.device);
                    assert(commit_answered(*commit, ws, p, c));
                    results.push(c);
                },
                None => {
                    assert(false);
                },
            }
            t = t + 1;
        }
        let ghost rs = results@;
        proof {
            assert forall|t: int| 0 <= t < plan.len() implies (#[trigger] plan[t]).task.edge_id
                < com.len() by {
                assert(self.task_in(ws, plan[t].task));
            }
        }
        store_commits(&plan, results, commitments, store);
        proof {
            lemma_carried_out(
                *commit,
                ws,
                tasks@,
                partitions_view(edge_partitions),
                num_devices,
                (com, st),
                (commitments@, *store),
                plan@,
                rs,
            );
        }
    }
}

/// A plan uses the devices that there are.
pub proof fn lemma_plan_devices(
    tasks: Seq<CommitTask>,
    partitions: Option<Seq<Option<usize>>>,
    num_devices: usize,
    plan: Seq<PlacedTask>,
)
    requires
        num_devices > 0,
        planned(tasks, partitions, num_devices, plan),
    ensures
        forall|t: int| 0 <= t < plan.len() ==> (#[trigger] plan[t]).device < num_devices,
{
    let order = choose|order: Seq<usize>| #[trigger] is_plan(
        tasks,
        partitions,
        num_devices,
        order,
        plan,
    );
    let first = picked(tasks, order, true);
    let second = picked(tasks, order, false);
    assert forall|t: int| 0 <= t < plan.len() implies (#[trigger] plan[t]).device < num_devices by {
        let (list, i) = if t < first.len() {
            (first, t)
        } else {
            (second, t - first.len())
        };
        let key = match partition_of(partitions, list[i].edge_id) {
            Some(p) => p as int,
            None => i,
        };
        vstd::arithmetic::div_mod::lemma_mod_bound(key, num_devices as int);
        assert(plan[t] == placed(list, partitions, num_devices)[i]);
    }
}

} // verus!
