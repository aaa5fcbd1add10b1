//! What layers compute.
use vstd::arithmetic::div_mod::*;
use vstd::arithmetic::power2::*;
use vstd::prelude::*;

use crate::dag::block::{Block, Op};
use crate::dag::graph::Graph;
use crate::dag::graph_ops::causal_words;
use crate::dag::growth::{group_grown, grown, lemma_kept, lemma_step_add, lemma_step_param, seen};
use crate::dag::meaning::{
    agree, aligned, constant_held, does, added, inside, lemma_aligned_same, lemma_does_add, lemma_does_nonneg,
    lemma_does_zero, position, runs_on, Numbers,
};
use crate::dag::types::EdgeId;
use crate::dag::witness::{known, DataType, Role};
use crate::field::elem::prime;
use crate::util::arith::{clog2, lemma_clog2, num_vars, signed_value};
use crate::util::shape::joint_shape;

verus! {

/// The broadcast of a shape with itself is the shape.
pub proof fn lemma_joint_same(shape: Seq<usize>)
    ensures
        joint_shape(shape, shape) == shape,
{
    assert(joint_shape(shape, shape) =~= shape);
}

/// A ReLU gives, entry by entry, the larger of zero and the entry, in every run in which its sum adds and
/// its checks hold.
pub proof fn lemma_relu(g: Graph, x: EdgeId, vals: Numbers)
    requires
        x < g.values.len(),
        g.values.len() + 5 <= usize::MAX,
        runs_on(g, g.relu(x).0, vals),
    ensures
        g.relu(x).0.shape(g.relu(x).1) == g.shape(x),
        forall|idx: Seq<int>| #[trigger]
            inside(g.shape(x), idx) ==> vals(g.relu(x).1)(idx) == if vals(x)(idx) >= 0 {
                vals(x)(idx)
            } else {
                0
            },
{
    reveal(Graph::relu);
    reveal(Graph::alike);
    reveal(Graph::pointwise);
    reveal(Graph::nonneg);
    reveal(Graph::plain);
    let (h, y) = g.relu(x);
    let n = g.nodes.len() as int;
    let neg = g.values.len() as usize;
    let s = g.shape(x);
    lemma_joint_same(s);
    assert(h.nodes[n + 1].kind == Block::Op(Op::Add));
    assert(h.nodes[n + 1].inputs =~= seq![x, neg]);
    assert(h.nodes[n + 1].outputs[0] == y);
    assert(h.nodes[n + 2].kind == Block::Op(Op::NonNegative));
    assert(h.nodes[n + 2].inputs =~= seq![y]);
    assert(h.nodes[n + 3].kind == Block::Op(Op::NonNegative));
    assert(h.nodes[n + 3].inputs =~= seq![neg]);
    assert(h.nodes[n + 4].kind == Block::Op(Op::ProductZeroCheck));
    assert(h.nodes[n + 4].inputs =~= seq![neg, y]);
    assert(h.shape(x) == s && h.shape(neg) == s && h.shape(y) == s);
    assert(does(h, vals, n + 1) && does(h, vals, n + 2) && does(h, vals, n + 3) && does(h, vals, n + 4));
    assert forall|idx: Seq<int>| #[trigger] inside(s, idx) implies vals(y)(idx) == if vals(x)(idx) >= 0 {
        vals(x)(idx)
    } else {
        0
    } by {
        lemma_aligned_same(s, idx);
        lemma_does_add(h, vals, n + 1, x, neg, y, idx);
        lemma_does_nonneg(h, vals, n + 2, y, idx);
        lemma_does_nonneg(h, vals, n + 3, neg, idx);
        lemma_does_zero(h, vals, n + 4, neg, y, idx);
        let (a, b) = (vals(neg)(idx), vals(y)(idx));
        assert(a >= 0 && b >= 0 && a * b == 0);
        assert(a == 0 || b == 0) by (nonlinear_arith)
            requires
                a * b == 0,
        ;
    }
}

/// Every tensor can be put through a ReLU: whatever the numbers before it, there is a run.
pub proof fn lemma_relu_runs(g: Graph, x: EdgeId, before: Numbers) -> (vals: Numbers)
    requires
        x < g.values.len(),
        g.values.len() + 5 <= usize::MAX,
    ensures
        agree(g, before, vals),
        runs_on(g, g.relu(x).0, vals),
{
    reveal(Graph::relu);
    reveal(Graph::alike);
    reveal(Graph::pointwise);
    reveal(Graph::nonneg);
    reveal(Graph::plain);
    let (h, y) = g.relu(x);
    let n = g.nodes.len() as int;
    let m = g.values.len() as int;
    let neg = g.values.len() as usize;
    let s = g.shape(x);
    lemma_joint_same(s);
    let vals: Numbers = |e: EdgeId|
        if e == neg {
            |idx: Seq<int>|
                if before(x)(idx) >= 0 {
                    0
                } else {
                    -before(x)(idx)
                }
        } else if e == y {
            |idx: Seq<int>|
                if before(x)(idx) >= 0 {
                    before(x)(idx)
                } else {
                    0
                }
        } else {
            before(e)
        };
    assert(h.nodes.len() == n + 5);
    assert(h.values.len() == m + 5);
    assert(h.nodes[n].kind == Block::Op(Op::ReLUHelper));
    assert(h.nodes[n + 1].kind == Block::Op(Op::Add));
    assert(h.nodes[n + 1].inputs =~= seq![x, neg]);
    assert(h.nodes[n + 1].outputs[0] == y);
    assert(h.nodes[n + 2].kind == Block::Op(Op::NonNegative));
    assert(h.nodes[n + 2].inputs =~= seq![y]);
    assert(h.nodes[n + 3].kind == Block::Op(Op::NonNegative));
    assert(h.nodes[n + 3].inputs =~= seq![neg]);
    assert(h.nodes[n + 4].kind == Block::Op(Op::ProductZeroCheck));
    assert(h.nodes[n + 4].inputs =~= seq![neg, y]);
    assert(h.shape(x) == s && h.shape(neg) == s && h.shape(y) == s);
    assert forall|k: int| n <= k < h.nodes.len() implies #[trigger] does(h, vals, k) by {
        if k == n + 1 {
            assert forall|idx: Seq<int>| #[trigger] inside(s, idx) implies vals(y)(idx) == vals(x)(
                aligned(s, idx),
            ) + vals(neg)(aligned(s, idx)) by {
                lemma_aligned_same(s, idx);
            }
            assert(added(h, vals, x, neg, y));
        } else if k == n + 4 {
            assert forall|idx: Seq<int>| #[trigger] inside(s, idx) implies vals(neg)(idx) * vals(y)(idx) == 0 by {
                let (a, b) = (vals(neg)(idx), vals(y)(idx));
                assert(a * b == 0) by (nonlinear_arith)
                    requires
                        a == 0 || b == 0,
                ;
            }
        }
    }
    assert forall|e: EdgeId| m <= e < h.values.len() implies #[trigger] constant_held(h, vals, e) by {
        assert(h.values[e as int].role != Role::Constant || h.values[e as int].data is None) by {
            let t = h.values[e as int];
            if e == m || e == m + 2 || e == m + 3 || e == m + 4 {
            } else {
                assert(e == m + 1);
            }
        }
    }
    vals
}

/// The entries of the first `k` dimensions come before those of the next.
pub proof fn lemma_position_bound(shape: Seq<usize>, idx: Seq<int>, k: int)
    requires
        0 <= k <= idx.len() <= shape.len(),
        forall|j: int| 0 <= j < k ==> 0 <= #[trigger] idx[j] < shape[j],
    ensures
        0 <= position(shape, idx.take(k)) < pow2(num_vars(shape.take(k))),
    decreases k,
{
    lemma2_to64();
    let t = idx.take(k);
    if k == 0 {
        assert(shape.take(0) =~= Seq::<usize>::empty());
    } else {
        lemma_position_bound(shape, idx, k - 1);
        assert(t.drop_last() =~= idx.take(k - 1));
        let d = shape[k - 1] as nat;
        let low = pow2(num_vars(shape.take(k - 1))) as int;
        lemma_clog2(d);
        let p = pow2(clog2(d)) as int;
        assert(shape.take(k).drop_last() =~= shape.take(k - 1));
        assert(num_vars(shape.take(k)) == num_vars(shape.take(k - 1)) + clog2(d));
        lemma_pow2_adds(num_vars(shape.take(k - 1)), clog2(d));
        let x = idx[k - 1];
        let y = position(shape, idx.take(k - 1));
        assert(0 <= idx[k - 1] < shape[k - 1]);
        assert(0 <= y + x * low < low * p) by (nonlinear_arith)
            requires
                0 <= y < low,
                0 <= x < p,
        ;
    }
}

/// Where the last two numbers of an index are found in the position of its entry.
proof fn lemma_last_two(shape: Seq<usize>, idx: Seq<int>)
    requires
        inside(shape, idx),
        shape.len() >= 2,
    ensures
        ({
            let n = shape.len() as int;
            let stride = pow2(num_vars(shape.take(n - 2))) as int;
            let rows = pow2(clog2(shape[n - 2] as nat)) as int;
            let p = position(shape, idx);
            &&& (p / stride) % rows == idx[n - 2]
            &&& (p / stride) / rows == idx[n - 1]
            &&& 0 <= p < pow2(num_vars(shape))
        }),
{
    let n = shape.len() as int;
    let stride = pow2(num_vars(shape.take(n - 2))) as int;
    let rows = pow2(clog2(shape[n - 2] as nat)) as int;
    let (s, t) = (idx[n - 2], idx[n - 1]);
    lemma_position_bound(shape, idx, n - 2);
    lemma_position_bound(shape, idx, n);
    assert(idx.take(n) =~= idx);
    assert(shape.take(n) =~= shape);
    let low = position(shape, idx.take(n - 2));
    assert(idx.drop_last().drop_last() =~= idx.take(n - 2));
    assert(idx.drop_last().last() == s);
    assert(shape.take(n - 1).drop_last() =~= shape.take(n - 2));
    assert(num_vars(shape.take(n - 1)) == num_vars(shape.take(n - 2)) + clog2(shape[n - 2] as nat));
    lemma_pow2_adds(num_vars(shape.take(n - 2)), clog2(shape[n - 2] as nat));
    lemma_clog2(shape[n - 2] as nat);
    lemma_pow2_pos(num_vars(shape.take(n - 2)));
    let p = position(shape, idx);
    reveal_with_fuel(position, 3);
    assert(position(shape, idx.drop_last()) == low + s * stride);
    assert(pow2(num_vars(shape.take(n - 1))) == stride * rows);
    assert(p == low + s * stride + t * (stride * rows));
    assert(0 <= idx[n - 2] < shape[n - 2]);
    let q = s + t * rows;
    assert(low + s * stride + t * (stride * rows) == q * stride + low) by (nonlinear_arith)
        requires
            q == s + t * rows,
    ;
    lemma_fundamental_div_mod_converse(p, stride, q, low);
    lemma_fundamental_div_mod_converse(q, rows, t, s);
}

/// `e` is `scores`, lowered by one hundred at its scale for every key after its query in the sequence.
pub open spec fn causally_masked(h: Graph, vals: Numbers, scores: EdgeId, seq_len: usize, e: EdgeId) -> bool {
    &&& h.shape(e) == h.shape(scores)
    &&& forall|idx: Seq<int>| #[trigger]
        inside(h.shape(scores), idx) ==> vals(e)(idx) == vals(scores)(idx) - if idx[h.rank(scores) - 2]
            < idx[h.rank(scores) - 1] < seq_len {
            100 * pow2(h.sf(scores) as nat)
        } else {
            0
        }
}

proof fn lemma_mask_added(h: Graph, vals: Numbers, scores: EdgeId, mask: EdgeId, e: EdgeId, seq_len: usize)
    requires
        h.rank(scores) >= 2,
        h.sf(scores) <= 55,
        h.shape(e) == h.shape(scores),
        added(h, vals, scores, mask, e),
        constant_held(h, vals, mask),
        h.values[mask as int] == known(
            h.shape(scores),
            causal_words(h.shape(scores), seq_len, h.sf(scores)),
            DataType::Float,
            h.sf(scores),
            Role::Constant,
        ),
    ensures
        causally_masked(h, vals, scores, seq_len, e),
{
    let shape = h.shape(scores);
    let sf = h.sf(scores);
    let words = causal_words(shape, seq_len, sf);
    assert(100 * pow2(sf as nat) < 0x4000_0000_0000_0000) by {
        lemma2_to64();
        lemma2_to64_rest();
        if sf < 55 {
            lemma_pow2_strictly_increases(sf as nat, 55);
        }
        assert(pow2(55) == 0x80_0000_0000_0000);
    }
    assert forall|idx: Seq<int>| #[trigger] inside(shape, idx) implies vals(e)(idx) == vals(scores)(idx)
        - if idx[shape.len() - 2] < idx[shape.len() - 1] < seq_len {
        100 * pow2(sf as nat)
    } else {
        0
    } by {
        lemma_aligned_same(shape, idx);
        lemma_last_two(shape, idx);
        let p = position(shape, idx);
        let t = h.values[mask as int];
        assert(t.shape == shape);
        assert(t.data->0.word(p) == words[p]);
        assert(0 <= idx[shape.len() - 2] < shape[shape.len() - 2]);
        assert(0 <= idx[shape.len() - 1] < shape[shape.len() - 1]);
        let big = 100 * pow2(sf as nat) as int;
        if idx[shape.len() - 2] < idx[shape.len() - 1] < seq_len {
            lemma_pow2_pos(sf as nat);
            lemma_fundamental_div_mod_converse(0 - big, prime(), -1, prime() - big);
            assert(words[p].0 == prime() - big);
            lemma_small_mod((prime() - big) as nat, prime() as nat);
            assert(signed_value(words[p]) == 0 - big);
        } else {
            assert(signed_value(words[p]) == 0);
        }
    }
}

pub broadcast proof fn grown_causal_mask(g: Graph, scores: EdgeId, seq_len: usize, h: Graph)
    ensures
        #[trigger] grown(g.causal_mask(scores, seq_len).0, h) ==> grown(g, h) && scores < g.values.len()
            && g.causal_mask(scores, seq_len).1 < h.values.len() && g.causal_mask(scores, seq_len).0.nodes.len()
            >= g.nodes.len() && g.causal_mask(scores, seq_len).0.values.len() >= g.values.len() && h.sf(
            g.causal_mask(scores, seq_len).1,
        ) == h.sf(scores) && h.rank(scores) >= 2,
{
    reveal(Graph::causal_mask);
    broadcast use group_grown;

    if grown(g.causal_mask(scores, seq_len).0, h) {
        assert(grown(g, h));
        lemma_kept(g, h, scores);
    }
}

/// A causal mask hides from every query the keys after it and no others: the entry of query `s` and key
/// `t` is lowered by one hundred, at the scale of the scores, where `t` comes after `s` in the sequence, and
/// is kept where it does not.
pub proof fn lemma_causal_mask(s: Graph, g: Graph, scores: EdgeId, seq_len: usize, h: Graph, vals: Numbers)
    requires
        seen(s, g, h, vals),
        grown(g.causal_mask(scores, seq_len).0, h),
        h.sf(scores) <= 55,
    ensures
        causally_masked(h, vals, scores, seq_len, g.causal_mask(scores, seq_len).1),
{
    reveal(Graph::causal_mask);
    broadcast use group_grown;

    let shape = g.shape(scores);
    let sf = g.sf(scores);
    let q = g.require(g.has_rank(scores, 2) && num_vars(shape) < usize::BITS && sf <= 120);
    let t = known(shape, causal_words(shape, seq_len, sf), DataType::Float, sf, Role::Constant);
    let (g1, mask) = q.param(t);
    let (g2, e) = g1.add(scores, mask);
    assert(grown(g2, h) && grown(g1, h) && grown(q, h) && grown(g, h));
    lemma_kept(g, h, scores);
    lemma_step_param(s, q, t, h, vals);
    lemma_step_add(s, g1, scores, mask, h, vals);
    lemma_joint_same(shape);
    lemma_mask_added(h, vals, scores, mask, e, seq_len);
}

} // verus!
