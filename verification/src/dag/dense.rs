//! A dense layer.
use vstd::prelude::*;

use crate::dag::builder::DagBuilder;
use crate::dag::builder_ops::{list1, list2};
use crate::dag::graph::Graph;
use crate::dag::graph_ops::group_ops_ok;
use crate::dag::types::EdgeId;
use crate::dag::witness::{Tensor, Witness};

verus! {

impl Graph {
    /// The product of `x` with the weights, plus the bias.
    #[verifier::opaque]
    pub open spec fn dense(self, w: Tensor, b: Tensor, x: EdgeId) -> (Graph, EdgeId) {
        let (g, w_e) = self.param(w);
        let (g, y) = g.einsum("i,ij->j"@, seq![x, w_e], true);
        let (g, b_e) = g.param(b);
        g.add(y, b_e)
    }
}

impl DagBuilder {
    /// The product of `x` with the weights, plus the bias.
    pub fn dense(&mut self, w: Witness, b: Witness, x: EdgeId) -> (e: EdgeId)
        requires
            old(self).wf(),
            old(self)@.dense(w@, b@, x).0.ok,
        ensures
            final(self).wf(),
            (final(self)@, e) == old(self)@.dense(w@, b@, x),
    {
        reveal(Graph::dense);
        broadcast use group_ops_ok;

        let w_e: EdgeId = self.param(w);
        let y: EdgeId = self.einsum("i,ij->j".to_string(), list2(x, w_e), true)[0];
        let b_e: EdgeId = self.param(b);
        self.add(y, b_e)[0]
    }
}

/// The recipe of a dense layer.
pub fn dense_add_relu(w: Witness, b: Witness) -> (f: impl FnOnce(
    &mut DagBuilder,
    &[EdgeId],
) -> Vec<EdgeId>)
    ensures
        forall|g: &mut DagBuilder, x: &[EdgeId]|
            g.wf() && x.len() == 1 && g@.dense(w@, b@, x[0]).0.ok ==> #[trigger] call_requires(f, (g, x)),
        forall|g: &mut DagBuilder, x: &[EdgeId], r: Vec<EdgeId>| #[trigger]
            call_ensures(f, (g, x), r) ==> final(g).wf() && final(g)@ == g@.dense(w@, b@, x[0]).0 && r@ == seq![
                g@.dense(w@, b@, x[0]).1,
            ],
{
    let ghost (wt, bt) = (w@, b@);
    move |g: &mut DagBuilder, x: &[EdgeId]| -> (r: Vec<EdgeId>)
        requires
            g.wf(),
            x.len() == 1,
            g@.dense(wt, bt, x[0]).0.ok,
        ensures
            final(g).wf(),
            final(g)@ == old(g)@.dense(wt, bt, x[0]).0,
            r@ == seq![old(g)@.dense(wt, bt, x[0]).1],
        {
            list1(g.dense(w, b, x[0]))
        }
}

} // verus!
