//! Whether the lookups of a graph can be proved from the claims at hand.
use vstd::arithmetic::power2::*;
use vstd::prelude::*;

use crate::dag::compile::compiled;
use crate::dag::graph::{range_kind, Graph};
use crate::dag::openings::{find_last_pointed, last_pointed, witnesses_ok};
use crate::dag::range::last_point;
use crate::dag::types::{claim_list, claim_lists, node_list, Assertion, Claim, Dag};
use crate::dag::witness::{PolyData, Witness};
use crate::poly::MLPoly;

verus! {

impl Dag {
    /// The nodes of the graph and the nodes of its lookups are in order.
    pub open spec fn lookups_ok(&self) -> bool {
        &&& self.edges_ok()
        &&& self.two_pow_nodes_ok()
        &&& self.range_nodes_ok()
    }

    /// All lookups of powers of two have their selections and claims, and no result of one is the
    /// selection of another.
    pub open spec fn two_pow_all_ready(
        &self,
        ws: Seq<Vec<Witness>>,
        claims: Seq<Seq<Assertion>>,
    ) -> bool {
        &&& forall|i: int| 0 <= i < self.two_pow.len() ==> #[trigger] self.two_pow_ready(ws, claims, i)
        &&& forall|i: int, j: int|
            0 <= i < self.two_pow.len() && 0 <= j < self.two_pow.len()
                ==> #[trigger] self.two_pow_inp(i) != #[trigger] self.two_pow_out(j)
    }

    /// All range checks have their bits and claims.
    pub open spec fn range_all_ready(
        &self,
        ws: Seq<Vec<Witness>>,
        claims: Seq<Seq<Assertion>>,
    ) -> bool {
        forall|i: int| 0 <= i < self.range.len() ==> #[trigger] self.range_ready(ws, claims, i)
    }

    /// Whether lookup `i` has its selection and a claim about its result.
    fn two_pow_is_ready(
        &self,
        witnesses: &[Vec<Witness>],
        claims: &Vec<Vec<Claim>>,
        i: usize,
    ) -> (r: bool)
        requires
            self.lookups_ok(),
            witnesses_ok(witnesses@, self.num_edges as nat),
            claims.len() == self.num_edges,
            i < self.two_pow.len(),
        ensures
            r == self.two_pow_ready(witnesses@, claim_lists(claims@), i as int),
    {
        let ghost cl = claim_lists(claims@);
        let nid: usize = self.two_pow[i];
        let inp: usize = self.nodes[nid].inputs[0];
        let out: usize = self.nodes[nid].outputs[0];
        assert(self.nodes[nid as int].inputs[0] < self.num_edges);
        assert(self.nodes[nid as int].outputs[0] < self.num_edges);
        assert(cl[out as int] == claim_list(claims[out as int]@));
        assert(witnesses@[inp as int].len() > 0);
        if claims[out].len() == 0 {
            return false;
        }
        let last: usize = claims[out].len() - 1;
        assert(cl[out as int].last() == claims[out as int][last as int]@);
        match &witnesses[inp][0].data {
            Some(PolyData::Sparse(sparse)) => {
                let n: usize = sparse.selection.input_num_vars;
                n < usize::BITS as usize && n <= claims[out][last].point.len() && sparse.n <= n + 4
            },
            _ => false,
        }
    }

    /// Whether all lookups of powers of two can be proved.
    pub fn two_pow_can_prove(&self, witnesses: &[Vec<Witness>], claims: &Vec<Vec<Claim>>) -> (r: bool)
        requires
            self.lookups_ok(),
            witnesses_ok(witnesses@, self.num_edges as nat),
            claims.len() == self.num_edges,
        ensures
            r == self.two_pow_all_ready(witnesses@, claim_lists(claims@)),
    {
        let ghost ws = witnesses@;
        let ghost cl = claim_lists(claims@);
        let mut i: usize = 0;
        while i < self.two_pow.len()
            invariant
                i <= self.two_pow.len(),
                ws == witnesses@,
                cl == claim_lists(claims@),
                self.lookups_ok(),
                witnesses_ok(ws, self.num_edges as nat),
                claims.len() == self.num_edges,
                forall|k: int| 0 <= k < i ==> #[trigger] self.two_pow_ready(ws, cl, k),
                forall|k: int, j: int|
                    0 <= k < i && 0 <= j < self.two_pow.len() ==> #[trigger] self.two_pow_inp(k)
                        != #[trigger] self.two_pow_out(j),
            decreases self.two_pow.len() - i,
        {
            if !self.two_pow_is_ready(witnesses, claims, i) {
                return false;
            }
            let inp: usize = self.nodes[self.two_pow[i]].inputs[0];
            assert(inp == self.two_pow_inp(i as int));
            let mut j: usize = 0;
            while j < self.two_pow.len()
                invariant
                    j <= self.two_pow.len(),
                    i < self.two_pow.len(),
                    self.lookups_ok(),
                    inp == self.two_pow_inp(i as int),
                    ws == witnesses@,
                    cl == claim_lists(claims@),
                    forall|k: int| 0 <= k < j ==> inp != #[trigger] self.two_pow_out(k),
                decreases self.two_pow.len() - j,
            {
                let out: usize = self.nodes[self.two_pow[j]].outputs[0];
                assert(out == self.two_pow_out(j as int));
                if inp == out {
                    assert(self.two_pow_inp(i as int) == self.two_pow_out(j as int));
                    return false;
                }
                j = j + 1;
            }
            i = i + 1;
        }
        true
    }

    /// Whether check `i` has its bits, and the last claimed point covers its inputs.
    fn range_is_ready(
        &self,
        witnesses: &[Vec<Witness>],
        claims: &Vec<Vec<Claim>>,
        i: usize,
    ) -> (r: bool)
        requires
            self.lookups_ok(),
            witnesses_ok(witnesses@, self.num_edges as nat),
            claims.len() == self.num_edges,
            i < self.range.len(),
        ensures
            r == self.range_ready(witnesses@, claim_lists(claims@), i as int),
    {
        let ghost cl = claim_lists(claims@);
        let nid: usize = self.range[i];
        let slot: usize = if self.nodes[nid].kind.is_nonnegative() {
            0
        } else {
            1
        };
        let inp: usize = self.nodes[nid].inputs[0];
        let aux: usize = self.nodes[nid].outputs[slot];
        assert(self.nodes[nid as int].inputs[0] < self.num_edges);
        assert(self.nodes[nid as int].outputs[slot as int] < self.num_edges);
        assert(aux == self.range_aux(i as int));
        assert(inp == self.range_inp(i as int));
        assert(witnesses@[aux as int].len() > 0);
        assert(cl[inp as int] == claim_list(claims[inp as int]@));
        match &witnesses[aux][0].data {
            Some(PolyData::Dense(p)) => {
                if p.n < 5 {
                    return false;
                }
                let count: usize = claims[inp].len();
                proof {
                    assert(cl[inp as int].len() == count);
                    lemma_last_point(cl[inp as int]);
                }
                match find_last_pointed(&claims[inp]) {
                    Some(k) => {
                        assert(cl[inp as int][k as int] == claims[inp as int][k as int]@);
                        p.n - 5 <= claims[inp][k].point.len()
                    },
                    None => true,
                }
            },
            _ => false,
        }
    }

    /// Whether all range checks can be proved.
    pub fn range_can_prove(&self, witnesses: &[Vec<Witness>], claims: &Vec<Vec<Claim>>) -> (r: bool)
        requires
            self.lookups_ok(),
            witnesses_ok(witnesses@, self.num_edges as nat),
            claims.len() == self.num_edges,
        ensures
            r == self.range_all_ready(witnesses@, claim_lists(claims@)),
    {
        let mut i: usize = 0;
        while i < self.range.len()
            invariant
                i <= self.range.len(),
                self.lookups_ok(),
                witnesses_ok(witnesses@, self.num_edges as nat),
                claims.len() == self.num_edges,
                forall|k: int|
                    0 <= k < i ==> #[trigger] self.range_ready(witnesses@, claim_lists(claims@), k),
            decreases self.range.len() - i,
        {
            if !self.range_is_ready(witnesses, claims, i) {
                return false;
            }
            i = i + 1;
        }
        true
    }
}

/// The point of the last claim with a point.
pub proof fn lemma_last_point(cs: Seq<Assertion>)
    requires
        cs.len() <= usize::MAX,
    ensures
        last_point(cs) == match last_pointed(cs) {
            Some(i) => Some(cs[i as int].point),
            None => None,
        },
        last_pointed(cs) matches Some(i) ==> i < cs.len(),
    decreases cs.len(),
{
    if cs.len() > 0 {
        lemma_last_point(cs.drop_last());
    }
}

/// The lookups of a compiled graph are in order.
pub proof fn lemma_compiled_lookups(g: Graph, dag: Dag)
    requires
        g.wf(),
        compiled(g, dag),
    ensures
        dag.lookups_ok(),
{
    crate::dag::pass::lemma_compiled_ordered(g, dag);
    assert forall|i: int| 0 <= i < dag.range.len() implies (#[trigger] dag.range[i]) < dag.nodes.len()
        && dag.nodes[dag.range[i] as int].inputs.len() > 0
        && dag.nodes[dag.range[i] as int]@.aux_slot() < dag.nodes[dag.range[i] as int].outputs.len() by {
        let n = dag.range[i] as int;
        assert(g.range[i] == dag.range[i]);
        assert(range_kind(g.nodes[n]));
        assert(node_list(dag.nodes@)[n] == dag.nodes[n]@);
    }
    assert forall|i: int| 0 <= i < dag.two_pow.len() implies (#[trigger] dag.two_pow[i])
        < dag.nodes.len() && dag.nodes[dag.two_pow[i] as int].inputs.len() > 0
        && dag.nodes[dag.two_pow[i] as int].outputs.len() > 0 by {
        let n = dag.two_pow[i] as int;
        assert(g.two_pow[i] == dag.two_pow[i]);
        assert(node_list(dag.nodes@)[n] == dag.nodes[n]@);
        assert(dag.nodes[n].outputs.len() > 0);
    }
}

} // verus!
