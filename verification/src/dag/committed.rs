//! What a graph is committed to.
use vstd::prelude::*;

use crate::commit::basefold::BasefoldCommitmentData;
use crate::commit::cpu_open::HostCommitmentCache;
use crate::commit::store::GpuCommitmentStore;
use crate::dag::commit::{
    carried_out, commit_answered, commit_run, edge_entries, edge_stored, is_plan, last_success, picked,
    placed, planned, CommitTask, PlacedTask,
};
use crate::dag::types::{Dag, EdgeId};
use crate::dag::witness::{PolyData, Role, Witness};
use crate::poly::MLPoly;

verus! {

/// The tensor has to be bound by a commitment: it is an input, a constant or an auxiliary tensor, or it
/// stands on a boundary or on an edge that its writer makes claims about, or nothing reads it. Its values
/// are known, and it is neither tiny nor huge.
pub open spec fn to_bind(dag: Dag, w: Witness, e: EdgeId) -> bool {
    &&& w.data matches Some(d) && 2 <= d.vars() <= 24
    &&& {
        ||| w.role == Role::Input
        ||| w.role == Role::Constant
        ||| w.role == Role::Auxiliary
        ||| dag.boundary_edges@.contains(e)
        ||| dag.self_claim_edges@.contains(e)
        ||| forall|v: int| 0 <= v < dag.nodes.len() ==> !(#[trigger] dag.nodes[v]).inputs@.contains(e)
    }
}

/// Edge `e` has a tensor that has to be bound.
pub open spec fn binds_some(dag: Dag, ws: Seq<Vec<Witness>>, e: int) -> bool {
    exists|i: int| 0 <= i < ws[e].len() && to_bind(dag, #[trigger] ws[e][i], e as usize)
}

/// The commitment to edge `e` and its copy in the store are as they were.
pub open spec fn as_before(
    com: Seq<Option<BasefoldCommitmentData>>,
    store: GpuCommitmentStore,
    com2: Seq<Option<BasefoldCommitmentData>>,
    store2: GpuCommitmentStore,
    e: int,
) -> bool {
    com2[e] == com[e] && store2.commitments[e] == store.commitments[e]
}

/// The commit function never fails on a known tensor of its size.
pub open spec fn never_fails<C: Fn(&PolyData, usize, usize) -> Option<HostCommitmentCache>>(
    commit: C,
) -> bool {
    forall|d: &PolyData, n: usize, device: usize, r: Option<HostCommitmentCache>| #[trigger]
        call_ensures(commit, (d, n, device), r) && d.vars() == n ==> r is Some
}

/// The commitment and its copy in the store are what the commit function made of a tensor of edge `e`
/// that has to be bound, on one of the devices.
pub open spec fn bound_by<C: Fn(&PolyData, usize, usize) -> Option<HostCommitmentCache>>(
    dag: Dag,
    commit: C,
    ws: Seq<Vec<Witness>>,
    e: int,
    c: Option<BasefoldCommitmentData>,
    kept: Option<HostCommitmentCache>,
    num_devices: usize,
) -> bool {
    exists|i: int, d: &PolyData, device: usize, made: HostCommitmentCache|
        0 <= i < ws[e].len() && to_bind(dag, #[trigger] ws[e][i], e as usize) && ws[e][i].data == Some(*d)
            && device < num_devices && #[trigger] call_ensures(
            commit,
            (d, d.vars() as usize, device),
            Some(made),
        ) && kept == Some(made) && c == Some(
            BasefoldCommitmentData { root: made.root, num_vars: d.vars() as usize },
        )
}

/// A known tensor that has to be bound is wanted, and nothing else is.
proof fn lemma_wanted(
    dag: Dag,
    ws: Seq<Vec<Witness>>,
    com: Seq<Option<BasefoldCommitmentData>>,
    e: int,
    i: int,
)
    requires
        dag.linked(),
        0 <= e < dag.num_edges,
        0 <= i < ws[e].len(),
    ensures
        dag.wants(ws, com, e, i) <==> com[e] is None && to_bind(dag, ws[e][i], e as usize),
{
    let w = ws[e][i];
    let f = e as usize;
    assert(dag.consumers[e].len() == 0 <==> forall|v: int|
        0 <= v < dag.nodes.len() ==> !(#[trigger] dag.nodes[v]).inputs@.contains(f)) by {
        if dag.consumers[e].len() == 0 {
            assert forall|v: int| 0 <= v < dag.nodes.len() implies !(
            #[trigger] dag.nodes[v]).inputs@.contains(f) by {
                if dag.nodes[v].inputs@.contains(f) {
                    let r = dag.reads(v, e);
                    assert(r);
                    assert(dag.consumers[e]@.contains(v as usize));
                }
            }
        } else {
            let v = dag.consumers[e][0] as int;
            assert(dag.consumers[e]@.contains(v as usize));
            let r = dag.reads(v, e);
            assert(r);
            assert(dag.nodes[v].inputs@.contains(f));
        }
    }
}

/// The task is for one of the first `k` tensors of edge `e`, which is wanted.
pub open spec fn for_tensor(
    dag: Dag,
    ws: Seq<Vec<Witness>>,
    com: Seq<Option<BasefoldCommitmentData>>,
    e: int,
    k: nat,
    x: CommitTask,
) -> bool {
    exists|i: int| 0 <= i < k && #[trigger] dag.wants(ws, com, e, i) && x == dag.task_for(ws, e, i)
}

/// The task is for a tensor of one of the first `k` edges, which is wanted.
pub open spec fn for_edge(
    dag: Dag,
    ws: Seq<Vec<Witness>>,
    com: Seq<Option<BasefoldCommitmentData>>,
    k: nat,
    x: CommitTask,
) -> bool {
    exists|e: int| 0 <= e < k && #[trigger] for_tensor(dag, ws, com, e, ws[e].len() as nat, x)
}

proof fn lemma_edge_task(
    dag: Dag,
    ws: Seq<Vec<Witness>>,
    com: Seq<Option<BasefoldCommitmentData>>,
    e: int,
    k: nat,
)
    requires
        k <= ws[e].len(),
    ensures
        forall|i: int|
            0 <= i < k && #[trigger] dag.wants(ws, com, e, i) ==> dag.edge_commits(ws, com, e, k).contains(
                dag.task_for(ws, e, i),
            ),
        forall|t: int|
            0 <= t < dag.edge_commits(ws, com, e, k).len() ==> for_tensor(
                dag,
                ws,
                com,
                e,
                k,
                #[trigger] dag.edge_commits(ws, com, e, k)[t],
            ),
    decreases k,
{
    if k > 0 {
        lemma_edge_task(dag, ws, com, e, (k - 1) as nat);
        let rest = dag.edge_commits(ws, com, e, (k - 1) as nat);
        let all = dag.edge_commits(ws, com, e, k);
        assert forall|i: int| 0 <= i < k && #[trigger] dag.wants(ws, com, e, i) implies all.contains(
            dag.task_for(ws, e, i),
        ) by {
            if i < k - 1 {
                let t = choose|t: int| 0 <= t < rest.len() && rest[t] == dag.task_for(ws, e, i);
                assert(all[t] == dag.task_for(ws, e, i));
            } else {
                assert(all[all.len() - 1] == dag.task_for(ws, e, i));
            }
        }
        assert forall|t: int| 0 <= t < all.len() implies for_tensor(
            dag,
            ws,
            com,
            e,
            k,
            #[trigger] all[t],
        ) by {
            if t < rest.len() {
                assert(all[t] == rest[t]);
                assert(for_tensor(dag, ws, com, e, (k - 1) as nat, rest[t]));
                let i = choose|i: int|
                    0 <= i < k - 1 && #[trigger] dag.wants(ws, com, e, i) && rest[t] == dag.task_for(ws, e, i);
                assert(dag.wants(ws, com, e, i));
            } else {
                assert(dag.wants(ws, com, e, k - 1));
            }
        }
    }
}

proof fn lemma_all_tasks(dag: Dag, ws: Seq<Vec<Witness>>, com: Seq<Option<BasefoldCommitmentData>>, k: nat)
    requires
        k <= ws.len(),
        k <= usize::MAX,
    ensures
        forall|e: int, i: int|
            0 <= e < k && 0 <= i < ws[e].len() && #[trigger] dag.wants(ws, com, e, i) ==> dag.commits_upto(
                ws,
                com,
                k,
            ).contains(dag.task_for(ws, e, i)),
        forall|t: int|
            0 <= t < dag.commits_upto(ws, com, k).len() ==> for_edge(
                dag,
                ws,
                com,
                k,
                #[trigger] dag.commits_upto(ws, com, k)[t],
            ),
    decreases k,
{
    if k > 0 {
        lemma_all_tasks(dag, ws, com, (k - 1) as nat);
        let n = ws[k - 1].len() as nat;
        lemma_edge_task(dag, ws, com, k - 1, n);
        let rest = dag.commits_upto(ws, com, (k - 1) as nat);
        let more = dag.edge_commits(ws, com, k - 1, n);
        let all = dag.commits_upto(ws, com, k);
        assert forall|e: int, i: int|
            0 <= e < k && 0 <= i < ws[e].len() && #[trigger] dag.wants(ws, com, e, i) implies all.contains(
            dag.task_for(ws, e, i),
        ) by {
            let x = dag.task_for(ws, e, i);
            if e < k - 1 {
                let t = choose|t: int| 0 <= t < rest.len() && rest[t] == x;
                assert(all[t] == x);
            } else {
                let t = choose|t: int| 0 <= t < more.len() && more[t] == x;
                assert(all[rest.len() + t] == x);
            }
        }
        assert forall|t: int| 0 <= t < all.len() implies for_edge(dag, ws, com, k, #[trigger] all[t]) by {
            if t < rest.len() {
                assert(all[t] == rest[t]);
                assert(for_edge(dag, ws, com, (k - 1) as nat, rest[t]));
                let e = choose|e: int|
                    0 <= e < k - 1 && #[trigger] for_tensor(dag, ws, com, e, ws[e].len() as nat, rest[t]);
                assert(for_tensor(dag, ws, com, e, ws[e].len() as nat, all[t]));
            } else {
                let u = t - rest.len();
                assert(all[t] == more[u]);
                assert(for_tensor(dag, ws, com, k - 1, n, more[u]));
            }
        }
    }
}

/// The order lists the task.
pub open spec fn listed(tasks: Seq<CommitTask>, order: Seq<usize>, x: CommitTask) -> bool {
    exists|i: int| 0 <= i < order.len() && tasks[(#[trigger] order[i]) as int] == x
}

/// Whatever is in the order is picked.
proof fn lemma_picked(tasks: Seq<CommitTask>, order: Seq<usize>, weight: bool)
    ensures
        forall|i: int|
            0 <= i < order.len() && tasks[(#[trigger] order[i]) as int].is_weight == weight ==> picked(
                tasks,
                order,
                weight,
            ).contains(tasks[order[i] as int]),
        forall|t: int|
            0 <= t < picked(tasks, order, weight).len() ==> listed(
                tasks,
                order,
                #[trigger] picked(tasks, order, weight)[t],
            ),
    decreases order.len(),
{
    if order.len() > 0 {
        let head = order.drop_last();
        lemma_picked(tasks, head, weight);
        let rest = picked(tasks, head, weight);
        let all = picked(tasks, order, weight);
        assert forall|i: int|
            0 <= i < order.len() && tasks[(#[trigger] order[i]) as int].is_weight == weight implies all.contains(
            tasks[order[i] as int],
        ) by {
            let x = tasks[order[i] as int];
            if i < head.len() {
                assert(head[i] == order[i]);
                let t = choose|t: int| 0 <= t < rest.len() && rest[t] == x;
                assert(all[t] == x);
            } else {
                assert(all[all.len() - 1] == x);
            }
        }
        assert forall|t: int| 0 <= t < all.len() implies listed(tasks, order, #[trigger] all[t]) by {
            if t < rest.len() {
                assert(all[t] == rest[t]);
                assert(listed(tasks, head, rest[t]));
                let i = choose|i: int| 0 <= i < head.len() && tasks[(#[trigger] head[i]) as int] == rest[t];
                assert(order[i] == head[i]);
            } else {
                assert(tasks[order[order.len() - 1] as int] == all[t]);
            }
        }
    }
}

/// A plan does every task, does no other, and uses the devices that there are.
proof fn lemma_plan_complete(
    tasks: Seq<CommitTask>,
    partitions: Option<Seq<Option<usize>>>,
    num_devices: usize,
    plan: Seq<PlacedTask>,
)
    requires
        num_devices > 0,
        tasks.len() <= usize::MAX,
        planned(tasks, partitions, num_devices, plan),
    ensures
        forall|x: CommitTask| #[trigger]
            tasks.contains(x) ==> exists|t: int| 0 <= t < plan.len() && (#[trigger] plan[t]).task == x,
        forall|t: int|
            0 <= t < plan.len() ==> tasks.contains((#[trigger] plan[t]).task) && plan[t].device < num_devices,
{
    let order = choose|order: Seq<usize>| #[trigger] is_plan(tasks, partitions, num_devices, order, plan);
    let all = Seq::new(tasks.len(), |i: int| i as usize);
    let (a, b) = (picked(tasks, order, true), picked(tasks, order, false));
    let (pa, pb) = (placed(a, partitions, num_devices), placed(b, partitions, num_devices));
    lemma_picked(tasks, order, true);
    lemma_picked(tasks, order, false);
    order.to_multiset_ensures();
    all.to_multiset_ensures();
    assert forall|x: CommitTask| #[trigger] tasks.contains(x) implies exists|t: int|
        0 <= t < plan.len() && (#[trigger] plan[t]).task == x by {
        let k = choose|k: int| 0 <= k < tasks.len() && tasks[k] == x;
        assert(all[k] == k as usize);
        assert(all.contains(k as usize));
        assert(all.to_multiset().contains(k as usize));
        assert(order.to_multiset().contains(k as usize));
        assert(order.contains(k as usize));
        let i = choose|i: int| 0 <= i < order.len() && order[i] == k as usize;
        assert(tasks[order[i] as int] == x);
        if x.is_weight {
            let t = choose|t: int| 0 <= t < a.len() && a[t] == x;
            assert(pa[t].task == x);
            assert(plan[t] == pa[t]);
        } else {
            let t = choose|t: int| 0 <= t < b.len() && b[t] == x;
            assert(pb[t].task == x);
            assert(plan[pa.len() + t] == pb[t]);
        }
    }
    assert forall|t: int| 0 <= t < plan.len() implies tasks.contains((#[trigger] plan[t]).task)
        && plan[t].device < num_devices by {
        if t < pa.len() {
            assert(plan[t] == pa[t]);
            assert(pa[t].task == a[t]);
            assert(listed(tasks, order, a[t]));
            let i = choose|i: int| 0 <= i < order.len() && tasks[(#[trigger] order[i]) as int] == a[t];
            lemma_order_within(order, all, i);
            assert(tasks[order[i] as int] == a[t]);
        } else {
            let u = t - pa.len();
            assert(plan[t] == pb[u]);
            assert(pb[u].task == b[u]);
            assert(listed(tasks, order, b[u]));
            let i = choose|i: int| 0 <= i < order.len() && tasks[(#[trigger] order[i]) as int] == b[u];
            lemma_order_within(order, all, i);
            assert(tasks[order[i] as int] == b[u]);
        }
    }
}

proof fn lemma_order_within(order: Seq<usize>, all: Seq<usize>, i: int)
    requires
        order.to_multiset() == all.to_multiset(),
        0 <= i < order.len(),
        forall|k: int| 0 <= k < all.len() ==> #[trigger] all[k] == k as usize,
        all.len() <= usize::MAX,
    ensures
        order[i] < all.len(),
{
    order.to_multiset_ensures();
    all.to_multiset_ensures();
    assert(order.contains(order[i]));
    assert(order.to_multiset().contains(order[i]));
    assert(all.to_multiset().contains(order[i]));
    assert(all.contains(order[i]));
    let k = choose|k: int| 0 <= k < all.len() && all[k] == order[i];
}

proof fn lemma_last_success(
    plan: Seq<PlacedTask>,
    results: Seq<Option<HostCommitmentCache>>,
    e: EdgeId,
    k: nat,
)
    ensures
        last_success(plan, results, e, k) matches Some(t) ==> 0 <= t < k && plan[t].task.edge_id == e
            && results[t] is Some,
        last_success(plan, results, e, k) is None ==> forall|t: int|
            0 <= t < k && (#[trigger] plan[t]).task.edge_id == e ==> results[t] is None,
    decreases k,
{
    if k > 0 {
        lemma_last_success(plan, results, e, (k - 1) as nat);
    }
}

/// What was stored for an edge.
proof fn lemma_stored<C: Fn(&PolyData, usize, usize) -> Option<HostCommitmentCache>>(
    commit: C,
    ws: Seq<Vec<Witness>>,
    plan: Seq<PlacedTask>,
    results: Seq<Option<HostCommitmentCache>>,
    com: Seq<Option<BasefoldCommitmentData>>,
    store: GpuCommitmentStore,
    com2: Seq<Option<BasefoldCommitmentData>>,
    store2: GpuCommitmentStore,
    e: int,
)
    requires
        commit_run(commit, ws, plan, results, (com, store), (com2, store2)),
        0 <= e < com.len(),
    ensures
        edge_stored(
            plan,
            results,
            plan.len(),
            e as usize,
            edge_entries(com, store, e),
            edge_entries(com2, store2, e),
        ),
{
    let before = (com, store);
    let x = edge_entries(before.0, before.1, e);
}

/// After committing with a function that does not fail, every edge without a commitment that has a tensor
/// to be bound has one, made of such a tensor; all others are as they were. In particular every known
/// weight and every known input of a usual size is committed to.
pub proof fn lemma_committed<C: Fn(&PolyData, usize, usize) -> Option<HostCommitmentCache>>(
    dag: Dag,
    commit: C,
    ws: Seq<Vec<Witness>>,
    partitions: Option<Seq<Option<usize>>>,
    num_devices: usize,
    com: Seq<Option<BasefoldCommitmentData>>,
    store: GpuCommitmentStore,
    com2: Seq<Option<BasefoldCommitmentData>>,
    store2: GpuCommitmentStore,
)
    requires
        dag.linked(),
        ws.len() == dag.num_edges,
        com.len() == dag.num_edges,
        num_devices > 0,
        dag.commits_upto(ws, com, dag.num_edges as nat).len() <= usize::MAX,
        never_fails(commit),
        carried_out(
            commit,
            ws,
            dag.commits_upto(ws, com, dag.num_edges as nat),
            partitions,
            num_devices,
            (com, store),
            (com2, store2),
        ),
    ensures
        forall|e: int|
            0 <= e < dag.num_edges && com[e] is None && binds_some(dag, ws, e) ==> bound_by(
                dag,
                commit,
                ws,
                e,
                #[trigger] com2[e],
                store2.commitments[e],
                num_devices,
            ),
        forall|e: int|
            0 <= e < dag.num_edges && (com[e] is Some || !binds_some(dag, ws, e)) ==> #[trigger] as_before(
                com,
                store,
                com2,
                store2,
                e,
            ),
{
    let tasks = dag.commits_upto(ws, com, dag.num_edges as nat);
    let (plan, results) = choose|plan: Seq<PlacedTask>, results: Seq<Option<HostCommitmentCache>>|
        planned(tasks, partitions, num_devices, plan) && #[trigger] commit_run(
            commit,
            ws,
            plan,
            results,
            (com, store),
            (com2, store2),
        );
    lemma_plan_complete(tasks, partitions, num_devices, plan);
    lemma_all_tasks(dag, ws, com, dag.num_edges as nat);
    assert forall|t: int| 0 <= t < plan.len() implies {
        let e = (#[trigger] plan[t]).task.edge_id as int;
        let i = plan[t].task.slot as int;
        &&& 0 <= e < dag.num_edges
        &&& 0 <= i < ws[e].len()
        &&& com[e] is None
        &&& to_bind(dag, ws[e][i], e as usize)
        &&& plan[t].task.num_vars == ws[e][i].data->0.vars()
        &&& results[t] is Some
    } by {
        assert(tasks.contains(plan[t].task));
        let x = choose|x: int| 0 <= x < tasks.len() && tasks[x] == plan[t].task;
        assert(for_edge(dag, ws, com, dag.num_edges as nat, tasks[x]));
        let e = choose|e: int|
            0 <= e < dag.num_edges && #[trigger] for_tensor(dag, ws, com, e, ws[e].len() as nat, tasks[x]);
        let i = choose|i: int|
            0 <= i < ws[e].len() && #[trigger] dag.wants(ws, com, e, i) && tasks[x] == dag.task_for(ws, e, i);
        lemma_wanted(dag, ws, com, e, i);
        assert(commit_answered(commit, ws, plan[t], results[t]));
    }
    assert forall|e: int|
        0 <= e < dag.num_edges && com[e] is None && binds_some(dag, ws, e) implies bound_by(
        dag,
        commit,
        ws,
        e,
        #[trigger] com2[e],
        store2.commitments[e],
        num_devices,
    ) by {
        let i0 = choose|i: int| 0 <= i < ws[e].len() && to_bind(dag, #[trigger] ws[e][i], e as usize);
        lemma_wanted(dag, ws, com, e, i0);
        assert(dag.wants(ws, com, e, i0));
        assert(tasks.contains(dag.task_for(ws, e, i0)));
        let t0 = choose|t: int| 0 <= t < plan.len() && (#[trigger] plan[t]).task == dag.task_for(ws, e, i0);
        lemma_last_success(plan, results, e as usize, plan.len());
        assert(results[t0] is Some);
        lemma_stored(commit, ws, plan, results, com, store, com2, store2, e);
        let t = last_success(plan, results, e as usize, plan.len())->0;
        let i = plan[t].task.slot as int;
        assert(commit_answered(commit, ws, plan[t], results[t]));
        let d = choose|d: &PolyData|
            Some(*d) == ws[plan[t].task.edge_id as int][plan[t].task.slot as int].data
                && #[trigger] call_ensures(commit, (d, plan[t].task.num_vars, plan[t].device), results[t]);
        let made = results[t]->0;
        assert(to_bind(dag, ws[e][i], e as usize));
        assert(call_ensures(commit, (d, d.vars() as usize, plan[t].device), Some(made)));
    }
    assert forall|e: int|
        0 <= e < dag.num_edges && (com[e] is Some || !binds_some(dag, ws, e)) implies #[trigger] as_before(
        com,
        store,
        com2,
        store2,
        e,
    ) by {
        lemma_last_success(plan, results, e as usize, plan.len());
        lemma_stored(commit, ws, plan, results, com, store, com2, store2, e);
        if last_success(plan, results, e as usize, plan.len()) is Some {
            let t = last_success(plan, results, e as usize, plan.len())->0;
            assert(to_bind(dag, ws[e][plan[t].task.slot as int], e as usize));
        }
    }
}

/// After committing with a function that does not fail, the first tensor of every edge that no node writes
/// is bound to its claims, if it is an input or a constant that is known and of a usual size: claims about it
/// that the backward pass leaves are opened.
pub proof fn lemma_sources_bound<C: Fn(&PolyData, usize, usize) -> Option<HostCommitmentCache>>(
    dag: Dag,
    commit: C,
    ws: Seq<Vec<Witness>>,
    partitions: Option<Seq<Option<usize>>>,
    num_devices: usize,
    com: Seq<Option<BasefoldCommitmentData>>,
    store: GpuCommitmentStore,
    com2: Seq<Option<BasefoldCommitmentData>>,
    store2: GpuCommitmentStore,
    cuts: Seq<EdgeId>,
    e: int,
)
    requires
        dag.linked(),
        ws.len() == dag.num_edges,
        com.len() == dag.num_edges,
        com2.len() == dag.num_edges,
        num_devices > 0,
        dag.commits_upto(ws, com, dag.num_edges as nat).len() <= usize::MAX,
        never_fails(commit),
        carried_out(
            commit,
            ws,
            dag.commits_upto(ws, com, dag.num_edges as nat),
            partitions,
            num_devices,
            (com, store),
            (com2, store2),
        ),
        0 <= e < dag.num_edges,
        ws[e].len() > 0,
        ws[e][0].role != Role::Output || dag.self_claim_edges@.contains(e as usize) || cuts.contains(
            e as usize,
        ) && dag.boundary_edges@.contains(e as usize),
        ws[e][0].data matches Some(d) && 2 <= d.vars() <= 24,
    ensures
        com2[e] is Some,
        dag.openable(ws, com2, cuts)[e] is Some,
{
    lemma_committed(dag, commit, ws, partitions, num_devices, com, store, com2, store2);
    assert(to_bind(dag, ws[e][0], e as usize));
    assert(binds_some(dag, ws, e));
    if com[e] is Some {
        assert(as_before(com, store, com2, store2, e));
    } else {
        assert(bound_by(dag, commit, ws, e, com2[e], store2.commitments[e], num_devices));
    }
}

} // verus!
