//! Weights with their biases.
use vstd::prelude::*;

use crate::dag::builder::DagBuilder;
use crate::dag::graph::{ok_param, Graph};
use crate::dag::graph_ops::group_ops_ok;
use crate::dag::types::EdgeId;
use crate::dag::witness::{Tensor, Witness};

verus! {

/// The values of weights with their biases.
pub open spec fn pair_list(ps: Seq<(Witness, Witness)>) -> Seq<(Tensor, Tensor)> {
    ps.map_values(|p: (Witness, Witness)| (p.0@, p.1@))
}

impl Graph {
    /// The weights from number `from` on, `k` of them, each followed by its bias.
    pub open spec fn load_pairs(self, ps: Seq<(Tensor, Tensor)>, from: nat, k: nat) -> (
        Graph,
        Seq<(EdgeId, EdgeId)>,
    )
        decreases k,
    {
        if k == 0 {
            (self, Seq::empty())
        } else {
            let (g, list) = self.load_pairs(ps, from, (k - 1) as nat);
            let (g, w) = g.param(ps[from + k - 1].0);
            let (g, b) = g.param(ps[from + k - 1].1);
            (g, list.push((w, b)))
        }
    }
}

/// A failure stays.
pub proof fn lemma_pairs_ok(g: Graph, ps: Seq<(Tensor, Tensor)>, from: nat, j: nat, k: nat)
    requires
        j <= k,
        g.load_pairs(ps, from, k).0.ok,
    ensures
        g.load_pairs(ps, from, j).0.ok,
    decreases k,
{
    broadcast use group_ops_ok;

    if j < k {
        lemma_pairs_ok(g, ps, from, j, (k - 1) as nat);
    }
}

pub broadcast proof fn ok_load_pairs(g: Graph, ps: Seq<(Tensor, Tensor)>, from: nat, k: nat)
    ensures
        #[trigger] g.load_pairs(ps, from, k).0.ok ==> g.ok,
{
    if g.load_pairs(ps, from, k).0.ok {
        lemma_pairs_ok(g, ps, from, 0, k);
    }
}

/// As many are loaded as asked for.
pub broadcast proof fn lemma_pairs_len(g: Graph, ps: Seq<(Tensor, Tensor)>, from: nat, k: nat)
    ensures
        #[trigger] g.load_pairs(ps, from, k).1.len() == k,
    decreases k,
{
    if k > 0 {
        lemma_pairs_len(g, ps, from, (k - 1) as nat);
    }
}

impl DagBuilder {
    /// The weights from number `from` on, `k` of them, each followed by its bias.
    pub(crate) fn load_pairs(&mut self, ps: &Vec<(Witness, Witness)>, from: usize, k: usize) -> (r: Vec<
        (EdgeId, EdgeId),
    >)
        requires
            old(self).wf(),
            from + k <= ps.len(),
            old(self)@.load_pairs(pair_list(ps@), from as nat, k as nat).0.ok,
        ensures
            final(self).wf(),
            (final(self)@, r@) == old(self)@.load_pairs(pair_list(ps@), from as nat, k as nat),
            r.len() == k,
    {
        broadcast use group_ops_ok;

        let ghost g = self@;
        let ghost pt = pair_list(ps@);
        let mut r: Vec<(EdgeId, EdgeId)> = Vec::new();
        let mut i: usize = 0;
        while i < k
            invariant
                i <= k,
                from + k <= ps.len(),
                pt == pair_list(ps@),
                g.load_pairs(pt, from as nat, k as nat).0.ok,
                self.wf(),
                r.len() == i,
                (self@, r@) == g.load_pairs(pt, from as nat, i as nat),
            decreases k - i,
        {
            proof {
                lemma_pairs_ok(g, pt, from as nat, (i + 1) as nat, k as nat);
                assert(pt[from + i] == (ps[from + i].0@, ps[from + i].1@));
                ok_param(self@.param(pt[from + i].0).0, pt[from + i].1);
            }
            let w: EdgeId = self.param(ps[from + i].0.clone());
            let b: EdgeId = self.param(ps[from + i].1.clone());
            r.push((w, b));
            i = i + 1;
        }
        r
    }
}

} // verus!
