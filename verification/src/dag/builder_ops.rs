//! The operations of the builder that consist of several nodes.
use vstd::arithmetic::mul::*;
use vstd::arithmetic::power2::*;
use vstd::prelude::*;

use crate::dag::block::{BasicBlockType, Block, Op};
use crate::dag::builder::{tensor_list, DagBuilder};
use crate::dag::exponential::{is_exp, lemma_exp};
use crate::dag::graph::{filled, word, Graph};
use crate::dag::graph_ops::{
    axes_product, big_negative, causal_words, group_ops_ok, kept_letters, lemma_concat_pairs_len,
    lemma_concat_pairs_ok, lemma_dominate_points_ok, lemma_dominate_row_ok, lemma_dominate_rows_ok,
    letter_run, pad2, paddable, products_fit, windows,
};
use crate::dag::types::EdgeId;
use crate::dag::witness::{
    clone_words, fits, is_in_bounds, lemma_dim_small, DataType, Role, Witness,
};
use crate::field::elem::prime;
use crate::field::GoldilocksField;
use crate::util::arith::{
    clog2, get_n, lemma_clog2, lemma_clog2_unique, lemma_num_vars_prefix, lemma_usize_max, next_pow,
    num_vars, pow2_usize,
};
use crate::util::shape::reversed_shape;
use crate::GOLDILOCKS_PRIME;

verus! {

pub(crate) fn list1(a: usize) -> (r: Vec<usize>)
    ensures
        r@ == seq![a],
{
    let r: Vec<usize> = vec![a];
    assert(r@ =~= seq![a]);
    r
}

pub(crate) fn list2(a: usize, b: usize) -> (r: Vec<usize>)
    ensures
        r@ == seq![a, b],
{
    let r: Vec<usize> = vec![a, b];
    assert(r@ =~= seq![a, b]);
    r
}

pub(crate) fn list3(a: usize, b: usize, c: usize) -> (r: Vec<usize>)
    ensures
        r@ == seq![a, b, c],
{
    let r: Vec<usize> = vec![a, b, c];
    assert(r@ =~= seq![a, b, c]);
    r
}

pub(crate) fn list5(a: usize, b: usize, c: usize, d: usize, e: usize) -> (r: Vec<usize>)
    ensures
        r@ == seq![a, b, c, d, e],
{
    let r: Vec<usize> = vec![a, b, c, d, e];
    assert(r@ =~= seq![a, b, c, d, e]);
    r
}

pub(crate) fn list4(a: usize, b: usize, c: usize, d: usize) -> (r: Vec<usize>)
    ensures
        r@ == seq![a, b, c, d],
{
    let r: Vec<usize> = vec![a, b, c, d];
    assert(r@ =~= seq![a, b, c, d]);
    r
}

/// The letters `a, b, ..` of `a` dimensions.
pub fn letters(a: usize) -> (r: Vec<char>)
    requires
        a <= 159,
    ensures
        r@ == letter_run(a as nat),
{
    let mut r: Vec<char> = Vec::new();
    let mut i: usize = 0;
    while i < a
        invariant
            i <= a <= 159,
            r@ == letter_run(i as nat),
        decreases a - i,
    {
        r.push((97u8 + i as u8) as char);
        i = i + 1;
        assert(r@ =~= letter_run(i as nat));
    }
    r
}

/// Appends characters.
fn append_chars(v: &mut Vec<char>, more: &Vec<char>)
    ensures
        final(v)@ == old(v)@ + more@,
{
    let ghost before = v@;
    let mut i: usize = 0;
    assert(v@ =~= before + more@.take(0));
    while i < more.len()
        invariant
            i <= more.len(),
            v@ == before + more@.take(i as int),
        decreases more.len() - i,
    {
        v.push(more[i]);
        i = i + 1;
        assert(v@ =~= before + more@.take(i as int));
    }
    assert(more@.take(i as int) =~= more@);
}

/// `s,s->s`.
fn twice_to_itself(s: &Vec<char>) -> (r: Vec<char>)
    ensures
        r@ == s@ + seq![','] + s@ + seq!['-', '>'] + s@,
{
    let mut r: Vec<char> = Vec::new();
    append_chars(&mut r, s);
    r.push(',');
    append_chars(&mut r, s);
    r.push('-');
    r.push('>');
    append_chars(&mut r, s);
    assert(r@ =~= s@ + seq![','] + s@ + seq!['-', '>'] + s@);
    r
}

/// The words of a tensor with one value everywhere and zeros in the padding.
pub(crate) fn filled_words(shape: &Vec<usize>, v: GoldilocksField) -> (r: Vec<GoldilocksField>)
    requires
        num_vars(shape@) < usize::BITS,
    ensures
        r@ == filled(shape@, v),
{
    let n: usize = get_n(shape.as_slice());
    let size: usize = pow2_usize(n);
    let mut rev: Vec<usize> = Vec::new();
    let mut k: usize = shape.len();
    while k > 0
        invariant
            k <= shape.len(),
            rev@ == reversed_shape(shape@).take(shape.len() - k),
        decreases k,
    {
        k = k - 1;
        rev.push(shape[k]);
        assert(rev@ =~= reversed_shape(shape@).take(shape.len() - k));
    }
    proof {
        assert(reversed_shape(shape@).take(shape.len() - k) =~= reversed_shape(shape@));
        lemma_num_vars_reversed(shape@);
    }
    let ghost target = filled(shape@, v);
    let mut r: Vec<GoldilocksField> = Vec::new();
    let mut i: usize = 0;
    while i < size
        invariant
            i <= size,
            size == pow2(num_vars(shape@)),
            rev@ == reversed_shape(shape@),
            num_vars(rev@) < usize::BITS,
            target == filled(shape@, v),
            r@ == target.take(i as int),
        decreases size - i,
    {
        let inside: bool = is_in_bounds(&rev, i);
        r.push(if inside { v } else { GoldilocksField(0) });
        i = i + 1;
        assert(r@ =~= target.take(i as int));
    }
    assert(target.take(i as int) =~= target);
    r
}

/// A shape read backwards needs as many variables.
proof fn lemma_num_vars_reversed(shape: Seq<usize>)
    ensures
        num_vars(reversed_shape(shape)) == num_vars(shape),
    decreases shape.len(),
{
    if shape.len() > 0 {
        let m = shape.drop_last();
        lemma_num_vars_reversed(m);
        let r = reversed_shape(shape);
        assert(r =~= seq![shape.last()] + reversed_shape(m));
        lemma_num_vars_cons(shape.last(), reversed_shape(m));
    }
}

proof fn lemma_num_vars_cons(a: usize, s: Seq<usize>)
    ensures
        num_vars(seq![a] + s) == clog2(a as nat) + num_vars(s),
    decreases s.len(),
{
    let t = seq![a] + s;
    if s.len() == 0 {
        assert(t.drop_last() =~= Seq::<usize>::empty());
        assert(num_vars(Seq::<usize>::empty()) == 0);
        assert(t.last() == a);
        assert(num_vars(t) == num_vars(t.drop_last()) + clog2(t.last() as nat));
    } else {
        lemma_num_vars_cons(a, s.drop_last());
        assert(t.drop_last() =~= seq![a] + s.drop_last());
        assert(t.last() == s.last());
    }
}

/// A flat tensor of a power of two entries has one variable per doubling.
pub(crate) proof fn lemma_flat_vars(n: nat)
    requires
        n < usize::BITS,
    ensures
        pow2(n) <= usize::MAX,
        num_vars(seq![pow2(n) as usize]) == n,
{
    lemma_usize_max();
    lemma_pow2_strictly_increases(n, usize::BITS as nat);
    let s = seq![pow2(n) as usize];
    if n > 0 {
        lemma_pow2_strictly_increases((n - 1) as nat, n);
    }
    lemma_clog2_unique(pow2(n), n);
    assert(s.drop_last() =~= Seq::<usize>::empty());
    assert(num_vars(Seq::<usize>::empty()) == 0);
    assert(num_vars(s) == num_vars(s.drop_last()) + clog2(s.last() as nat));
}

impl DagBuilder {
    /// Records an output edge that is opened for its own sake.
    fn claim_self(&mut self, e: EdgeId)
        requires
            old(self).wf(),
            old(self)@.has(e),
        ensures
            final(self).wf(),
            final(self)@ == old(self)@.self_claim(e),
    {
        let ghost g = self@;
        self.self_claim_edges.push(e);
        proof {
            assert(self@ =~= g.self_claim(e));
            lemma_lists_wf(g, self@);
        }
    }

    /// Records an edge between layers.
    pub fn mark_boundary(&mut self, e: EdgeId)
        requires
            old(self).wf(),
            old(self)@.boundary(e).ok,
        ensures
            final(self).wf(),
            final(self)@ == old(self)@.boundary(e),
    {
        let ghost g = self@;
        self.layer_boundaries.push(e);
        proof {
            assert(self@ =~= g.boundary(e));
            lemma_lists_wf(g, self@);
        }
    }

    /// The reciprocal of the root mean square over the last dimension.
    fn rms_recip(&mut self, x: EdgeId) -> (e: EdgeId)
        requires
            old(self).wf(),
            old(self)@.rms_reciprocal(x).0.ok,
        ensures
            final(self).wf(),
            (final(self)@, e) == old(self)@.rms_reciprocal(x),
    {
        reveal(Graph::rms_reciprocal);
        broadcast use group_ops_ok;

        let mut shape: Vec<usize> = self.shape_of(x);
        let n: usize = shape.len();
        let dim: usize = shape[n - 1];
        let data_type: DataType = self.value(x).data_type;
        let sf: usize = self.value(x).sf;
        shape.set(n - 1, 1);
        self.emit1(
            list1(x),
            BasicBlockType::Op(Op::RMSReciprocal { dim }),
            Witness::new_wo_data(shape, data_type, sf, Role::Auxiliary),
        )
    }

    /// The reciprocal of the root mean square over the last dimension.
    pub fn rms_reciprocal(&mut self, x: EdgeId) -> (r: Vec<EdgeId>)
        requires
            old(self).wf(),
            old(self)@.rms_reciprocal(x).0.ok,
        ensures
            final(self).wf(),
            final(self)@ == old(self)@.rms_reciprocal(x).0,
            r@ == seq![old(self)@.rms_reciprocal(x).1],
    {
        broadcast use group_ops_ok;

        let e: EdgeId = self.rms_recip(x);
        list1(e)
    }

    /// Every entry divided by `c`.
    pub fn div_const(&mut self, a: EdgeId, c: usize) -> (r: Vec<EdgeId>)
        requires
            old(self).wf(),
            old(self)@.div_const(a, c).0.ok,
        ensures
            final(self).wf(),
            final(self)@ == old(self)@.div_const(a, c).0,
            r@ == seq![old(self)@.div_const(a, c).1],
    {
        broadcast use group_ops_ok;

        let e: EdgeId = self.alike(Op::DivConst { divisor: c as u64 }, a);
        list1(e)
    }

    /// The shift that normalises the exponentials over the last dimension.
    pub fn softmax_const(&mut self, a: EdgeId) -> (r: Vec<EdgeId>)
        requires
            old(self).wf(),
            old(self)@.softmax_const(a).0.ok,
        ensures
            final(self).wf(),
            final(self)@ == old(self)@.softmax_const(a).0,
            r@ == seq![old(self)@.softmax_const(a).1],
    {
        reveal(Graph::softmax_const);
        broadcast use group_ops_ok;

        let shape: Vec<usize> = self.shape_of(a);
        let dim: usize = shape[shape.len() - 1];
        let e: EdgeId = self.alike(Op::SoftmaxConst { dim }, a);
        list1(e)
    }

    /// The shift that turns an exponential into a sigmoid.
    pub fn sigmoid_const(&mut self, a: EdgeId) -> (r: Vec<EdgeId>)
        requires
            old(self).wf(),
            old(self)@.sigmoid_const(a).0.ok,
        ensures
            final(self).wf(),
            final(self)@ == old(self)@.sigmoid_const(a).0,
            r@ == seq![old(self)@.sigmoid_const(a).1],
    {
        broadcast use group_ops_ok;

        let e: EdgeId = self.alike(Op::SigmoidConst { segments: 8 }, a);
        list1(e)
    }

    fn exp_helper(&mut self, a: EdgeId) -> (e: EdgeId)
        requires
            old(self).wf(),
            old(self)@.has(a),
        ensures
            final(self).wf(),
            (final(self)@, e) == old(self)@.exp_helper(a),
            e + 1 <= usize::MAX,
    {
        reveal(Graph::exp_helper);
        let data_type: DataType = self.value(a).data_type;
        let shape: Vec<usize> = self.shape_of(a);
        let main: Witness = Witness::new_wo_data(shape, data_type, self.sf_log, Role::Output);
        let aux: Witness = Witness::new_wo_data(list1(1), data_type, 0, Role::Auxiliary);
        let ghost (mv, av) = (main@, aux@);
        let outs: Vec<Option<Witness>> = vec![Some(main), Some(aux)];
        assert(tensor_list(outs@) =~= seq![mv, av]);
        self.emit(list1(a), BasicBlockType::Op(Op::ExpHelper { num_bits: 16 }), outs)
    }

    fn two_pow_of(&mut self, k: EdgeId, shape: Vec<usize>, data_type: DataType) -> (e: EdgeId)
        requires
            old(self).wf(),
            old(self)@.two_pow_of(k, shape@, data_type).0.ok,
        ensures
            final(self).wf(),
            (final(self)@, e) == old(self)@.two_pow_of(k, shape@, data_type),
    {
        reveal(Graph::two_pow_of);
        let ghost g = self@;
        let nid: usize = self.nodes.len();
        assert(g.has_all(seq![k])) by {
            let h = Graph { two_pow: g.two_pow.push(g.nodes.len() as usize), ..g };
            assert(h.has_all(seq![k]));
            assert forall|i: int| 0 <= i < 1 implies g.has(#[trigger] seq![k][i]) by {
                assert(h.has(seq![k][i]));
            }
        }
        let out: Witness = Witness::new_wo_data(shape, data_type, 15, Role::Output);
        let e: EdgeId = self.emit1(list1(k), BasicBlockType::Op(Op::TwoPow), out);
        let ghost mid = self@;
        self.two_pow.push(nid);
        proof {
            assert(self@.two_pow =~= g.two_pow.push(nid));
            assert(self@ =~= g.two_pow_of(k, shape@, data_type).0);
            lemma_two_pow_wf(mid, nid);
        }
        e
    }

    fn flat_constant(&mut self, shape: &Vec<usize>, flat: usize, v: u64) -> (e: EdgeId)
        requires
            old(self).wf(),
            num_vars(shape@) < usize::BITS,
            flat == pow2(num_vars(shape@)),
        ensures
            final(self).wf(),
            (final(self)@, e) == old(self)@.flat_constant(shape@, flat, v),
    {
        reveal(Graph::flat_constant);
        let words: Vec<GoldilocksField> = filled_words(shape, GoldilocksField(v));
        proof {
            lemma_flat_vars(num_vars(shape@));
        }
        let t: Witness = Witness::new(list1(flat), words, DataType::Float, 15, Role::Constant);
        assert(self@.param(t@).0.ok) by {
            reveal(Graph::param);
        }
        self.param(t)
    }

    /// `exp(x)` as a power of two times a Taylor polynomial of the remainder.
    #[verifier::rlimit(30)]
    pub fn exp(&mut self, a: EdgeId) -> (r: Vec<EdgeId>)
        requires
            old(self).wf(),
            old(self)@.exp(a).0.ok,
        ensures
            final(self).wf(),
            final(self)@ == old(self)@.exp(a).0,
            r@ == seq![old(self)@.exp(a).1],
            is_exp(old(self)@, a, final(self)@, r[0]),
    {
        let ghost before = self@;
        reveal(Graph::exp);
        broadcast use group_ops_ok;

        let sf_log: usize = self.sf_log;
        let shape: Vec<usize> = self.shape_of(a);
        let data_type: DataType = self.value(a).data_type;
        let n: usize = get_n(shape.as_slice());
        let flat: usize = pow2_usize(n);
        let h: EdgeId = self.exp_helper(a);
        let k: EdgeId = h + 1;
        let r: EdgeId = self.scale(h, sf_log, 15)[0];
        let p: EdgeId = self.two_pow_of(k, clone_words(shape.as_slice()), data_type);
        let p: EdgeId = self.change_shape(p, list1(flat));
        let sixth: EdgeId = self.flat_constant(&shape, flat, 5461);
        let half: EdgeId = self.flat_constant(&shape, flat, 16384);
        let one: EdgeId = self.flat_constant(&shape, flat, 32768);
        let r: EdgeId = self.change_shape(r, list1(flat));
        let r_square: EdgeId = self.einsum("a,a->a".to_string(), list2(r, r), true)[0];
        let r_sixth: EdgeId = self.einsum("a,a->a".to_string(), list2(r, sixth), true)[0];
        let t: EdgeId = self.add(r_sixth, half)[0];
        let t: EdgeId = self.einsum("a,a->a".to_string(), list2(t, r_square), true)[0];
        let t: EdgeId = self.add(t, r)[0];
        let exp_r: EdgeId = self.add(t, one)[0];
        let e: EdgeId = self.einsum("a,a->a".to_string(), list2(p, exp_r), false)[0];
        let e: EdgeId = self.scale(e, 30, sf_log)[0];
        let e: EdgeId = self.change_shape(e, shape);
        proof {
            lemma_exp(before, a);
        }
        list1(e)
    }

    /// The sigmoid, as an exponential of shifted values.
    pub fn sigmoid(&mut self, a: EdgeId) -> (r: Vec<EdgeId>)
        requires
            old(self).wf(),
            old(self)@.sigmoid(a).0.ok,
        ensures
            final(self).wf(),
            final(self)@ == old(self)@.sigmoid(a).0,
            r@ == seq![old(self)@.sigmoid(a).1],
    {
        reveal(Graph::sigmoid);
        broadcast use group_ops_ok;

        let c: EdgeId = self.sigmoid_const(a)[0];
        let s: EdgeId = self.add(a, c)[0];
        self.exp(s)
    }

    /// Splits the last dimension in two, or joins the last two.
    pub fn reshape(&mut self, a: EdgeId, shape: Vec<usize>) -> (r: Vec<EdgeId>)
        requires
            old(self).wf(),
            old(self)@.reshape(a, shape@).0.ok,
        ensures
            final(self).wf(),
            final(self)@ == old(self)@.reshape(a, shape@).0,
            r@ == seq![old(self)@.reshape(a, shape@).1],
    {
        reveal(Graph::reshape);
        broadcast use group_ops_ok;

        let ghost g = self@;
        assert(g.has(a));
        let old_shape: Vec<usize> = self.shape_of(a);
        let m: usize = shape.len();
        if m > old_shape.len() {
            let b: EdgeId = self.change_shape(
                a,
                list4(old_shape[0], old_shape[1], shape[m - 1], shape[m - 2]),
            );
            self.einsum("bsdh->bshd".to_string(), list1(b), false)
        } else {
            let b: EdgeId = self.einsum("bshd->bsdh".to_string(), list1(a), false)[0];
            let e: EdgeId = self.change_shape(b, shape);
            list1(e)
        }
    }

    /// Multiplies with ones inside the given shape and zeros in its padding.
    pub fn mask(&mut self, a: EdgeId, raw_mask_shape: Vec<usize>) -> (e: EdgeId)
        requires
            old(self).wf(),
            old(self)@.mask(a, raw_mask_shape@).0.ok,
        ensures
            final(self).wf(),
            (final(self)@, e) == old(self)@.mask(a, raw_mask_shape@),
    {
        reveal(Graph::mask);
        broadcast use group_ops_ok;

        let s: Vec<char> = letters(raw_mask_shape.len());
        let words: Vec<GoldilocksField> = filled_words(&raw_mask_shape, GoldilocksField(1));
        let t: Witness = Witness::new(raw_mask_shape, words, DataType::Float, 0, Role::Constant);
        let e: EdgeId = self.param(t);
        let eq: Vec<char> = twice_to_itself(&s);
        self.einsum_chars(eq, list2(a, e), false)[0]
    }

    /// Adds `-100` to the score of every key that lies after its query.
    pub fn causal_mask(&mut self, scores: EdgeId, seq_len: usize) -> (e: EdgeId)
        requires
            old(self).wf(),
            old(self)@.causal_mask(scores, seq_len).0.ok,
        ensures
            final(self).wf(),
            (final(self)@, e) == old(self)@.causal_mask(scores, seq_len),
    {
        reveal(Graph::causal_mask);
        broadcast use group_ops_ok;

        let shape: Vec<usize> = self.shape_of(scores);
        let sf: usize = self.value(scores).sf;
        let words: Vec<GoldilocksField> = causal_mask_words(&shape, seq_len, sf);
        let t: Witness = Witness::new(shape, words, DataType::Float, sf, Role::Constant);
        let m: EdgeId = self.param(t);
        self.add(scores, m)[0]
    }

    /// Zeros around the last two dimensions.
    pub fn pad(&mut self, x: EdgeId, pad_h: usize, pad_w: usize) -> (e: EdgeId)
        requires
            old(self).wf(),
            old(self)@.pad(x, pad_h, pad_w).0.ok,
        ensures
            final(self).wf(),
            (final(self)@, e) == old(self)@.pad(x, pad_h, pad_w),
    {
        reveal(Graph::pad);
        broadcast use group_ops_ok;

        let shape: Vec<usize> = self.shape_of(x);
        let (channels, input_h, input_w) = (shape[0], shape[1], shape[2]);
        self.plain(
            Op::ZeroPad { channels, input_h, input_w, pad_h, pad_w },
            list1(x),
            list3(channels, input_h + 2 * pad_h, input_w + 2 * pad_w),
        )
    }

    /// Zeros around the last two dimensions, each side on its own.
    pub fn pad_asym(
        &mut self,
        x: EdgeId,
        pad_h_top: usize,
        pad_h_bottom: usize,
        pad_w_left: usize,
        pad_w_right: usize,
    ) -> (e: EdgeId)
        requires
            old(self).wf(),
            old(self)@.pad_asym(x, pad_h_top, pad_h_bottom, pad_w_left, pad_w_right).0.ok,
        ensures
            final(self).wf(),
            (final(self)@, e) == old(self)@.pad_asym(x, pad_h_top, pad_h_bottom, pad_w_left, pad_w_right),
    {
        reveal(Graph::pad_asym);
        broadcast use group_ops_ok;

        let shape: Vec<usize> = self.shape_of(x);
        let (channels, input_h, input_w) = (shape[0], shape[1], shape[2]);
        self.plain(
            Op::ZeroPadAsym {
                channels,
                input_h,
                input_w,
                pad_h_top,
                pad_h_bottom,
                pad_w_left,
                pad_w_right,
            },
            list1(x),
            list3(
                channels,
                input_h + pad_h_top + pad_h_bottom,
                input_w + pad_w_left + pad_w_right,
            ),
        )
    }

    /// Zeros around the last dimension of a tensor with two.
    pub fn pad1d(&mut self, x: EdgeId, pad_left: usize, pad_right: usize) -> (e: EdgeId)
        requires
            old(self).wf(),
            old(self)@.pad1d(x, pad_left, pad_right).0.ok,
        ensures
            final(self).wf(),
            (final(self)@, e) == old(self)@.pad1d(x, pad_left, pad_right),
    {
        reveal(Graph::pad1d);
        broadcast use group_ops_ok;

        let shape: Vec<usize> = self.shape_of(x);
        let (channels, input_len) = (shape[0], shape[1]);
        let y: EdgeId = self.change_shape(x, list3(channels, 1, input_len));
        let y: EdgeId = self.pad_asym(y, 0, 0, pad_left, pad_right);
        self.change_shape(y, list2(channels, input_len + pad_left + pad_right))
    }

    /// Zeros around the last three dimensions.
    pub fn pad3d(&mut self, x: EdgeId, pad_d: usize, pad_h: usize, pad_w: usize) -> (e: EdgeId)
        requires
            old(self).wf(),
            old(self)@.pad3d(x, pad_d, pad_h, pad_w).0.ok,
        ensures
            final(self).wf(),
            (final(self)@, e) == old(self)@.pad3d(x, pad_d, pad_h, pad_w),
    {
        reveal(Graph::pad3d);
        broadcast use group_ops_ok;

        let shape: Vec<usize> = self.shape_of(x);
        let (channels, input_d, input_h, input_w) = (shape[0], shape[1], shape[2], shape[3]);
        self.plain(
            Op::ZeroPad3D { channels, input_d, input_h, input_w, pad_d, pad_h, pad_w },
            list1(x),
            list4(channels, input_d + 2 * pad_d, input_h + 2 * pad_h, input_w + 2 * pad_w),
        )
    }

    /// `max(0, x)`.
    pub fn relu(&mut self, x: EdgeId) -> (e: EdgeId)
        requires
            old(self).wf(),
            old(self)@.relu(x).0.ok,
        ensures
            final(self).wf(),
            (final(self)@, e) == old(self)@.relu(x),
    {
        reveal(Graph::relu);
        broadcast use group_ops_ok;

        assert(self@.has(x));
        let shape: Vec<usize> = self.shape_of(x);
        let neg: EdgeId = self.alike(Op::ReLUHelper, x);
        let y: EdgeId = self.add(x, neg)[0];
        self.add_nonneg_node(y);
        self.add_nonneg_node(neg);
        let cert: EdgeId = self.plain(Op::ProductZeroCheck, list2(neg, y), shape);
        self.claim_self(cert);
        y
    }

    /// The largest entry of every window of size and stride `(pool_h, pool_w)`.
    pub fn maxpool2d(&mut self, x: EdgeId, pool_h: usize, pool_w: usize) -> (e: EdgeId)
        requires
            old(self).wf(),
            old(self)@.maxpool2d(x, pool_h, pool_w).0.ok,
        ensures
            final(self).wf(),
            (final(self)@, e) == old(self)@.maxpool2d(x, pool_h, pool_w),
    {
        reveal(Graph::maxpool2d);
        broadcast use group_ops_ok;

        let shape: Vec<usize> = self.shape_of(x);
        let (channels, input_h, input_w) = (shape[0], shape[1], shape[2]);
        let y: EdgeId = self.plain(
            Op::MaxPoolHelper { channels, input_h, input_w, pool_h, pool_w },
            list1(x),
            list3(channels, input_h / pool_h, input_w / pool_w),
        );
        let rep: EdgeId = self.plain(
            Op::Replicate2x2 { channels, out_h: input_h, out_w: input_w },
            list1(y),
            list3(channels, input_h, input_w),
        );
        let diff: EdgeId = self.sub(rep, x)[0];
        self.add_nonneg_node(diff);
        y
    }

    /// The entries at positions `offset + i * stride`, a given number of them.
    fn subsample2d_sized(
        &mut self,
        x: EdgeId,
        stride: (usize, usize),
        offset: (usize, usize),
        out: (usize, usize),
    ) -> (e: EdgeId)
        requires
            old(self).wf(),
            old(self)@.subsample_sized(x, stride, offset, out).0.ok,
        ensures
            final(self).wf(),
            (final(self)@, e) == old(self)@.subsample_sized(x, stride, offset, out),
    {
        reveal(Graph::subsample_sized);
        broadcast use group_ops_ok;

        let shape: Vec<usize> = self.shape_of(x);
        let (channels, input_h, input_w) = (shape[0], shape[1], shape[2]);
        self.plain(
            Op::SubSample2D {
                channels,
                input_h,
                input_w,
                stride_h: stride.0,
                stride_w: stride.1,
                offset_h: offset.0,
                offset_w: offset.1,
                out_h: out.0,
                out_w: out.1,
            },
            list1(x),
            list3(channels, out.0, out.1),
        )
    }

    /// The entries at all positions `offset + i * stride`.
    pub fn subsample2d(
        &mut self,
        x: EdgeId,
        stride_h: usize,
        stride_w: usize,
        offset_h: usize,
        offset_w: usize,
    ) -> (e: EdgeId)
        requires
            old(self).wf(),
            old(self)@.subsample2d(x, (stride_h, stride_w), (offset_h, offset_w)).0.ok,
        ensures
            final(self).wf(),
            (final(self)@, e) == old(self)@.subsample2d(x, (stride_h, stride_w), (offset_h, offset_w)),
    {
        reveal(Graph::subsample2d);
        broadcast use group_ops_ok;

        let shape: Vec<usize> = self.shape_of(x);
        let (input_h, input_w) = (shape[1], shape[2]);
        let out_h: usize = (input_h - offset_h + (stride_h - 1)) / stride_h;
        let out_w: usize = (input_w - offset_w + (stride_w - 1)) / stride_w;
        self.subsample2d_sized(x, (stride_h, stride_w), (offset_h, offset_w), (out_h, out_w))
    }

    /// `y` is at least every entry of `x` at the given offset in its window.
    fn dominate(
        &mut self,
        x: EdgeId,
        y: EdgeId,
        stride: (usize, usize),
        offset: (usize, usize),
        out: (usize, usize),
    )
        requires
            old(self).wf(),
            old(self)@.dominate(x, y, stride, offset, out).ok,
        ensures
            final(self).wf(),
            final(self)@ == old(self)@.dominate(x, y, stride, offset, out),
    {
        reveal(Graph::dominate);
        broadcast use group_ops_ok;

        let sv: EdgeId = self.subsample2d_sized(x, stride, offset, out);
        let diff: EdgeId = self.sub(y, sv)[0];
        self.add_nonneg_node(diff);
    }

    /// The largest entry of every window of any size and stride.
    pub fn maxpool_general(
        &mut self,
        x: EdgeId,
        kernel_h: usize,
        kernel_w: usize,
        stride_h: usize,
        stride_w: usize,
    ) -> (e: EdgeId)
        requires
            old(self).wf(),
            old(self)@.maxpool_general(x, (kernel_h, kernel_w), (stride_h, stride_w)).0.ok,
        ensures
            final(self).wf(),
            (final(self)@, e) == old(self)@.maxpool_general(
                x,
                (kernel_h, kernel_w),
                (stride_h, stride_w),
            ),
    {
        reveal(Graph::maxpool_general);
        broadcast use group_ops_ok;

        let ghost stride = (stride_h, stride_w);
        let ghost g0 = self@;
        let ghost (h0, w0) = (g0.shape(x)[1], g0.shape(x)[2]);
        let ghost out = (
            windows(h0 as int, kernel_h as int, stride_h as int) as usize,
            windows(w0 as int, kernel_w as int, stride_w as int) as usize,
        );
        let ghost g1 = g0.require(
            g0.has_rank(x, 3) && kernel_h <= h0 && kernel_w <= w0 && stride_h > 0 && stride_w > 0
                && word(windows(h0 as int, kernel_h as int, stride_h as int)) && word(
                windows(w0 as int, kernel_w as int, stride_w as int),
            ),
        );
        let ghost (g2, y2) = g1.plain(
            Op::GeneralMaxPoolHelper {
                channels: g0.shape(x)[0],
                input_h: h0,
                input_w: w0,
                kernel_h,
                kernel_w,
                stride_h,
                stride_w,
            },
            seq![x],
            seq![g0.shape(x)[0], out.0, out.1],
        );
        proof {
            lemma_dominate_rows_ok(
                g2,
                x,
                y2,
                stride,
                0,
                kernel_h as nat,
                kernel_w as nat,
                out,
            );
        }
        let shape: Vec<usize> = self.shape_of(x);
        let (channels, input_h, input_w) = (shape[0], shape[1], shape[2]);
        let out_h: usize = (input_h - kernel_h) / stride_h + 1;
        let out_w: usize = (input_w - kernel_w) / stride_w + 1;
        let y: EdgeId = self.plain(
            Op::GeneralMaxPoolHelper {
                channels,
                input_h,
                input_w,
                kernel_h,
                kernel_w,
                stride_h,
                stride_w,
            },
            list1(x),
            list3(channels, out_h, out_w),
        );
        let mut kh: usize = 0;
        while kh < kernel_h
            invariant
                kh <= kernel_h,
                out == (out_h, out_w),
                stride == (stride_h, stride_w),
                self.wf(),
                self@ == g2.dominate_rows(x, y, stride, kh as nat, kernel_w as nat, out),
                g2.dominate_rows(x, y, stride, kernel_h as nat, kernel_w as nat, out).ok,
            decreases kernel_h - kh,
        {
            proof {
                lemma_dominate_rows_ok(
                    g2,
                    x,
                    y,
                    stride,
                    (kh + 1) as nat,
                    kernel_h as nat,
                    kernel_w as nat,
                    out,
                );
            }
            let ghost row = self@;
            let mut kw: usize = 0;
            while kw < kernel_w
                invariant
                    kw <= kernel_w,
                    out == (out_h, out_w),
                    stride == (stride_h, stride_w),
                    self.wf(),
                    self@ == row.dominate_row(x, y, stride, kh, kw as nat, out),
                    row.dominate_row(x, y, stride, kh, kernel_w as nat, out).ok,
                decreases kernel_w - kw,
            {
                proof {
                    lemma_dominate_row_ok(
                        row,
                        x,
                        y,
                        stride,
                        kh,
                        (kw + 1) as nat,
                        kernel_w as nat,
                        out,
                    );
                }
                self.dominate(x, y, (stride_h, stride_w), (kh, kw), (out_h, out_w));
                kw = kw + 1;
            }
            kh = kh + 1;
        }
        y
    }

    /// The mean over one or more dimensions.
    pub fn reduce_mean(&mut self, x: EdgeId, axes: &[usize]) -> (e: EdgeId)
        requires
            old(self).wf(),
            old(self)@.reduce_mean(x, axes@).0.ok,
        ensures
            final(self).wf(),
            (final(self)@, e) == old(self)@.reduce_mean(x, axes@),
    {
        reveal(Graph::reduce_mean);
        broadcast use group_ops_ok;

        let shape: Vec<usize> = self.shape_of(x);
        let ndim: usize = shape.len();
        let n: usize = dims_product(&shape, axes);
        let mut eq: Vec<char> = letters(ndim);
        eq.push('-');
        eq.push('>');
        let kept: Vec<char> = letters_kept(axes, ndim);
        append_chars(&mut eq, &kept);
        assert(eq@ =~= letter_run(ndim as nat) + seq!['-', '>'] + kept_letters(axes@, ndim as nat));
        let s: EdgeId = self.einsum_chars(eq, list1(x), false)[0];
        self.div_const(s, n)[0]
    }

    /// Convolution along one dimension.
    fn conv1d_full(&mut self, x: EdgeId, w: EdgeId, kernel_size: usize, stride: usize) -> (e: EdgeId)
        requires
            old(self).wf(),
            old(self)@.conv1d_full(x, w, kernel_size, stride).0.ok,
        ensures
            final(self).wf(),
            (final(self)@, e) == old(self)@.conv1d_full(x, w, kernel_size, stride),
    {
        reveal(Graph::conv1d_full);
        broadcast use group_ops_ok;

        let x_shape: Vec<usize> = self.shape_of(x);
        let w_shape: Vec<usize> = self.shape_of(w);
        let (c_in, input_len, c_out) = (x_shape[0], x_shape[1], w_shape[0]);
        let l_out: usize = (input_len - kernel_size) / stride + 1;
        let y: EdgeId = self.plain(
            Op::Conv1D { c_in, c_out, kernel_size, input_len, stride },
            list2(x, w),
            list2(c_out, l_out),
        );
        self.claim_self(y);
        y
    }

    /// Convolution along one dimension: `[C_in, L] * [C_out, C_in, K]`.
    pub fn conv1d(&mut self, x: EdgeId, w: EdgeId, kernel_size: usize) -> (r: Vec<EdgeId>)
        requires
            old(self).wf(),
            old(self)@.conv1d_full(x, w, kernel_size, 1).0.ok,
        ensures
            final(self).wf(),
            final(self)@ == old(self)@.conv1d_full(x, w, kernel_size, 1).0,
            r@ == seq![old(self)@.conv1d_full(x, w, kernel_size, 1).1],
    {
        broadcast use group_ops_ok;

        let y: EdgeId = self.conv1d_full(x, w, kernel_size, 1);
        list1(y)
    }

    /// Convolution along one dimension with a stride.
    pub fn conv1d_strided(
        &mut self,
        x: EdgeId,
        w: EdgeId,
        kernel_size: usize,
        stride: usize,
    ) -> (r: Vec<EdgeId>)
        requires
            old(self).wf(),
            old(self)@.conv1d_full(x, w, kernel_size, stride).0.ok,
        ensures
            final(self).wf(),
            final(self)@ == old(self)@.conv1d_full(x, w, kernel_size, stride).0,
            r@ == seq![old(self)@.conv1d_full(x, w, kernel_size, stride).1],
    {
        broadcast use group_ops_ok;

        let y: EdgeId = self.conv1d_full(x, w, kernel_size, stride);
        list1(y)
    }

    /// Convolution along two dimensions.
    #[verifier::rlimit(30)]
    fn conv2d_full(
        &mut self,
        x: EdgeId,
        w: EdgeId,
        kernel_size: (usize, usize),
        stride: (usize, usize),
        dilation: (usize, usize),
    ) -> (e: EdgeId)
        requires
            old(self).wf(),
            old(self)@.conv2d_full(x, w, kernel_size, stride, dilation).0.ok,
        ensures
            final(self).wf(),
            (final(self)@, e) == old(self)@.conv2d_full(x, w, kernel_size, stride, dilation),
    {
        reveal(Graph::conv2d_full);
        broadcast use group_ops_ok;

        let x_shape: Vec<usize> = self.shape_of(x);
        let w_shape: Vec<usize> = self.shape_of(w);
        let (c_in, input_h, input_w, c_out) = (x_shape[0], x_shape[1], x_shape[2], w_shape[0]);
        let (kh, kw) = kernel_size;
        let (sh, sw) = stride;
        let (dh, dw) = dilation;
        let w_pad: usize = next_pow(input_w);
        proof {
            lemma_kernel_parts(kh as int, kw as int, dh as int, dw as int, w_pad as int);
        }
        let s_kernel: usize = (kh - 1) * dh * w_pad + (kw - 1) * dw + 1;
        let h_out: usize = (input_h - ((kh - 1) * dh + 1)) / sh + 1;
        let w_out: usize = (input_w - ((kw - 1) * dw + 1)) / sw + 1;
        let wf: EdgeId = self.plain(
            Op::FlattenKernel { s_w: w_pad, kh, kw, c_out, c_in, dilation_h: dh, dilation_w: dw },
            list1(w),
            list3(c_out, c_in, s_kernel),
        );
        let y: EdgeId = self.plain(
            Op::Conv2D {
                c_in,
                c_out,
                kh,
                kw,
                input_h,
                input_w,
                stride_h: sh,
                stride_w: sw,
                dilation_h: dh,
                dilation_w: dw,
            },
            list2(x, wf),
            list3(c_out, h_out, w_out),
        );
        self.claim_self(y);
        y
    }

    /// Convolution along two dimensions: `[C_in, H, W] * [C_out, C_in, kH, kW]`.
    pub fn conv2d(&mut self, x: EdgeId, w: EdgeId, kernel_size: (usize, usize)) -> (r: Vec<EdgeId>)
        requires
            old(self).wf(),
            old(self)@.conv2d_full(x, w, kernel_size, (1, 1), (1, 1)).0.ok,
        ensures
            final(self).wf(),
            final(self)@ == old(self)@.conv2d_full(x, w, kernel_size, (1, 1), (1, 1)).0,
            r@ == seq![old(self)@.conv2d_full(x, w, kernel_size, (1, 1), (1, 1)).1],
    {
        broadcast use group_ops_ok;

        let y: EdgeId = self.conv2d_full(x, w, kernel_size, (1, 1), (1, 1));
        list1(y)
    }

    /// Convolution along two dimensions with a stride.
    pub fn conv2d_strided(
        &mut self,
        x: EdgeId,
        w: EdgeId,
        kernel_size: (usize, usize),
        stride: (usize, usize),
    ) -> (r: Vec<EdgeId>)
        requires
            old(self).wf(),
            old(self)@.conv2d_full(x, w, kernel_size, stride, (1, 1)).0.ok,
        ensures
            final(self).wf(),
            final(self)@ == old(self)@.conv2d_full(x, w, kernel_size, stride, (1, 1)).0,
            r@ == seq![old(self)@.conv2d_full(x, w, kernel_size, stride, (1, 1)).1],
    {
        broadcast use group_ops_ok;

        let y: EdgeId = self.conv2d_full(x, w, kernel_size, stride, (1, 1));
        list1(y)
    }

    /// Convolution along two dimensions with a stride and gaps in the kernel.
    pub fn conv2d_dilated(
        &mut self,
        x: EdgeId,
        w: EdgeId,
        kernel_size: (usize, usize),
        stride: (usize, usize),
        dilation: (usize, usize),
    ) -> (r: Vec<EdgeId>)
        requires
            old(self).wf(),
            old(self)@.conv2d_full(x, w, kernel_size, stride, dilation).0.ok,
        ensures
            final(self).wf(),
            final(self)@ == old(self)@.conv2d_full(x, w, kernel_size, stride, dilation).0,
            r@ == seq![old(self)@.conv2d_full(x, w, kernel_size, stride, dilation).1],
    {
        broadcast use group_ops_ok;

        let y: EdgeId = self.conv2d_full(x, w, kernel_size, stride, dilation);
        list1(y)
    }

    /// Convolution along two dimensions, channel by channel: `[C, H, W] * [C, 1, kH, kW]`.
    #[verifier::rlimit(30)]
    pub fn depthwise_conv2d_strided(
        &mut self,
        x: EdgeId,
        w: EdgeId,
        kernel_size: (usize, usize),
        stride: (usize, usize),
    ) -> (r: Vec<EdgeId>)
        requires
            old(self).wf(),
            old(self)@.depthwise_conv2d(x, w, kernel_size, stride).0.ok,
        ensures
            final(self).wf(),
            final(self)@ == old(self)@.depthwise_conv2d(x, w, kernel_size, stride).0,
            r@ == seq![old(self)@.depthwise_conv2d(x, w, kernel_size, stride).1],
    {
        reveal(Graph::depthwise_conv2d);
        broadcast use group_ops_ok;

        let x_shape: Vec<usize> = self.shape_of(x);
        let (channels, input_h, input_w) = (x_shape[0], x_shape[1], x_shape[2]);
        let (kh, kw) = kernel_size;
        let (sh, sw) = stride;
        let w_pad: usize = next_pow(input_w);
        proof {
            lemma_kernel_parts(kh as int, kw as int, 1, 1, w_pad as int);
        }
        let s_kernel: usize = (kh - 1) * w_pad + kw;
        let h_out: usize = (input_h - kh) / sh + 1;
        let w_out: usize = (input_w - kw) / sw + 1;
        let wf: EdgeId = self.plain(
            Op::FlattenKernel {
                s_w: w_pad,
                kh,
                kw,
                c_out: channels,
                c_in: 1,
                dilation_h: 1,
                dilation_w: 1,
            },
            list1(w),
            list3(channels, 1, s_kernel),
        );
        let wf: EdgeId = self.change_shape(wf, list2(channels, s_kernel));
        let y: EdgeId = self.plain(
            Op::DepthwiseConv2D {
                channels,
                kh,
                kw,
                input_h,
                input_w,
                stride_h: sh,
                stride_w: sw,
            },
            list2(x, wf),
            list3(channels, h_out, w_out),
        );
        self.claim_self(y);
        list1(y)
    }

    /// Convolution along three dimensions.
    #[verifier::rlimit(30)]
    fn conv3d_full(
        &mut self,
        x: EdgeId,
        w: EdgeId,
        kernel_size: (usize, usize, usize),
        stride: (usize, usize, usize),
    ) -> (e: EdgeId)
        requires
            old(self).wf(),
            old(self)@.conv3d_full(x, w, kernel_size, stride).0.ok,
        ensures
            final(self).wf(),
            (final(self)@, e) == old(self)@.conv3d_full(x, w, kernel_size, stride),
    {
        reveal(Graph::conv3d_full);
        broadcast use group_ops_ok;

        let x_shape: Vec<usize> = self.shape_of(x);
        let w_shape: Vec<usize> = self.shape_of(w);
        let (c_in, input_d, input_h, input_w) = (x_shape[0], x_shape[1], x_shape[2], x_shape[3]);
        let c_out: usize = w_shape[0];
        let (kd, kh, kw) = kernel_size;
        let (sd, sh, sw) = stride;
        let w_pad: usize = next_pow(input_w);
        let h_pad: usize = next_pow(input_h);
        let plane: usize = h_pad * w_pad;
        proof {
            lemma_kernel3_parts(kd as int, kh as int, kw as int, plane as int, w_pad as int);
        }
        let s_kernel: usize = (kd - 1) * plane + (kh - 1) * w_pad + kw;
        let d_out: usize = (input_d - kd) / sd + 1;
        let h_out: usize = (input_h - kh) / sh + 1;
        let w_out: usize = (input_w - kw) / sw + 1;
        let wf: EdgeId = self.plain(
            Op::FlattenKernel3D { stride_h: plane, stride_w: w_pad, kd, kh, kw, c_out, c_in },
            list1(w),
            list3(c_out, c_in, s_kernel),
        );
        let y: EdgeId = self.plain(
            Op::Conv3D {
                c_in,
                c_out,
                kd,
                kh,
                kw,
                input_d,
                input_h,
                input_w,
                stride_d: sd,
                stride_h: sh,
                stride_w: sw,
            },
            list2(x, wf),
            list4(c_out, d_out, h_out, w_out),
        );
        self.claim_self(y);
        y
    }

    /// Convolution along three dimensions: `[C_in, D, H, W] * [C_out, C_in, kD, kH, kW]`.
    pub fn conv3d(&mut self, x: EdgeId, w: EdgeId, kernel_size: (usize, usize, usize)) -> (r: Vec<EdgeId>)
        requires
            old(self).wf(),
            old(self)@.conv3d_full(x, w, kernel_size, (1, 1, 1)).0.ok,
        ensures
            final(self).wf(),
            final(self)@ == old(self)@.conv3d_full(x, w, kernel_size, (1, 1, 1)).0,
            r@ == seq![old(self)@.conv3d_full(x, w, kernel_size, (1, 1, 1)).1],
    {
        broadcast use group_ops_ok;

        let y: EdgeId = self.conv3d_full(x, w, kernel_size, (1, 1, 1));
        list1(y)
    }

    /// Convolution along three dimensions with a stride.
    pub fn conv3d_strided(
        &mut self,
        x: EdgeId,
        w: EdgeId,
        kernel_size: (usize, usize, usize),
        stride: (usize, usize, usize),
    ) -> (r: Vec<EdgeId>)
        requires
            old(self).wf(),
            old(self)@.conv3d_full(x, w, kernel_size, stride).0.ok,
        ensures
            final(self).wf(),
            final(self)@ == old(self)@.conv3d_full(x, w, kernel_size, stride).0,
            r@ == seq![old(self)@.conv3d_full(x, w, kernel_size, stride).1],
    {
        broadcast use group_ops_ok;

        let y: EdgeId = self.conv3d_full(x, w, kernel_size, stride);
        list1(y)
    }

    /// Transposed convolution along one dimension: `[C_in, L] * [C_in, C_out, K]`.
    pub fn conv_transpose1d(
        &mut self,
        x: EdgeId,
        w: EdgeId,
        kernel_size: usize,
        stride: usize,
    ) -> (r: Vec<EdgeId>)
        requires
            old(self).wf(),
            old(self)@.conv_transpose1d(x, w, kernel_size, stride).0.ok,
        ensures
            final(self).wf(),
            final(self)@ == old(self)@.conv_transpose1d(x, w, kernel_size, stride).0,
            r@ == seq![old(self)@.conv_transpose1d(x, w, kernel_size, stride).1],
    {
        reveal(Graph::conv_transpose1d);
        broadcast use group_ops_ok;

        let x_shape: Vec<usize> = self.shape_of(x);
        let w_shape: Vec<usize> = self.shape_of(w);
        let (c_in, input_len, c_out) = (x_shape[0], x_shape[1], w_shape[1]);
        proof {
            lemma_spread_parts(input_len as int, kernel_size as int, stride as int);
        }
        let l_out: usize = (input_len - 1) * stride + kernel_size;
        let y: EdgeId = self.plain(
            Op::ConvTranspose1D { c_in, c_out, kernel_size, input_len, stride },
            list2(x, w),
            list2(c_out, l_out),
        );
        self.claim_self(y);
        list1(y)
    }

    /// Transposed convolution along two dimensions: `[C_in, H, W] * [C_in, C_out, kH, kW]`.
    #[verifier::rlimit(30)]
    pub fn conv_transpose2d(
        &mut self,
        x: EdgeId,
        w: EdgeId,
        kernel_size: (usize, usize),
        stride: (usize, usize),
    ) -> (r: Vec<EdgeId>)
        requires
            old(self).wf(),
            old(self)@.conv_transpose2d(x, w, kernel_size, stride).0.ok,
        ensures
            final(self).wf(),
            final(self)@ == old(self)@.conv_transpose2d(x, w, kernel_size, stride).0,
            r@ == seq![old(self)@.conv_transpose2d(x, w, kernel_size, stride).1],
    {
        reveal(Graph::conv_transpose2d);
        broadcast use group_ops_ok;

        let x_shape: Vec<usize> = self.shape_of(x);
        let w_shape: Vec<usize> = self.shape_of(w);
        let (c_in, input_h, input_w, c_out) = (x_shape[0], x_shape[1], x_shape[2], w_shape[1]);
        let (kh, kw) = kernel_size;
        let (sh, sw) = stride;
        proof {
            lemma_spread_parts(input_h as int, kh as int, sh as int);
            lemma_spread_parts(input_w as int, kw as int, sw as int);
        }
        let h_out: usize = (input_h - 1) * sh + kh;
        let w_out: usize = (input_w - 1) * sw + kw;
        let w_out_pad: usize = next_pow(w_out);
        proof {
            lemma_kernel_parts(kh as int, kw as int, 1, 1, w_out_pad as int);
        }
        let s_kernel: usize = (kh - 1) * w_out_pad + kw;
        let wf: EdgeId = self.plain(
            Op::FlattenKernel {
                s_w: w_out_pad,
                kh,
                kw,
                c_out: c_in,
                c_in: c_out,
                dilation_h: 1,
                dilation_w: 1,
            },
            list1(w),
            list3(c_in, c_out, s_kernel),
        );
        let y: EdgeId = self.plain(
            Op::ConvTranspose2D {
                c_in,
                c_out,
                kh,
                kw,
                input_h,
                input_w,
                stride_h: sh,
                stride_w: sw,
            },
            list2(x, wf),
            list3(c_out, h_out, w_out),
        );
        self.claim_self(y);
        list1(y)
    }

    /// Transposed convolution along three dimensions: `[C_in, D, H, W] * [C_in, C_out, kD, kH, kW]`.
    #[verifier::rlimit(30)]
    pub fn conv_transpose3d(
        &mut self,
        x: EdgeId,
        w: EdgeId,
        kernel_size: (usize, usize, usize),
        stride: (usize, usize, usize),
    ) -> (r: Vec<EdgeId>)
        requires
            old(self).wf(),
            old(self)@.conv_transpose3d(x, w, kernel_size, stride).0.ok,
        ensures
            final(self).wf(),
            final(self)@ == old(self)@.conv_transpose3d(x, w, kernel_size, stride).0,
            r@ == seq![old(self)@.conv_transpose3d(x, w, kernel_size, stride).1],
    {
        reveal(Graph::conv_transpose3d);
        broadcast use group_ops_ok;

        let x_shape: Vec<usize> = self.shape_of(x);
        let w_shape: Vec<usize> = self.shape_of(w);
        let (c_in, input_d, input_h, input_w) = (x_shape[0], x_shape[1], x_shape[2], x_shape[3]);
        let c_out: usize = w_shape[1];
        let (kd, kh, kw) = kernel_size;
        let (sd, sh, sw) = stride;
        proof {
            lemma_spread_parts(input_d as int, kd as int, sd as int);
            lemma_spread_parts(input_h as int, kh as int, sh as int);
            lemma_spread_parts(input_w as int, kw as int, sw as int);
        }
        let d_out: usize = (input_d - 1) * sd + kd;
        let h_out: usize = (input_h - 1) * sh + kh;
        let w_out: usize = (input_w - 1) * sw + kw;
        let w_out_pad: usize = next_pow(w_out);
        let h_out_pad: usize = next_pow(h_out);
        let plane: usize = h_out_pad * w_out_pad;
        proof {
            lemma_kernel3_parts(kd as int, kh as int, kw as int, plane as int, w_out_pad as int);
        }
        let s_kernel: usize = (kd - 1) * plane + (kh - 1) * w_out_pad + kw;
        let wf: EdgeId = self.plain(
            Op::FlattenKernel3D {
                stride_h: plane,
                stride_w: w_out_pad,
                kd,
                kh,
                kw,
                c_out: c_in,
                c_in: c_out,
            },
            list1(w),
            list3(c_in, c_out, s_kernel),
        );
        let y: EdgeId = self.plain(
            Op::ConvTranspose3D {
                c_in,
                c_out,
                kd,
                kh,
                kw,
                input_d,
                input_h,
                input_w,
                stride_d: sd,
                stride_h: sh,
                stride_w: sw,
            },
            list2(x, wf),
            list4(c_out, d_out, h_out, w_out),
        );
        self.claim_self(y);
        list1(y)
    }

    /// Joins two tensors of one shape along the first dimension.
    pub fn concat(&mut self, a: EdgeId, b: EdgeId) -> (e: EdgeId)
        requires
            old(self).wf(),
            old(self)@.concat(a, b).0.ok,
        ensures
            final(self).wf(),
            (final(self)@, e) == old(self)@.concat(a, b),
    {
        reveal(Graph::concat);
        broadcast use group_ops_ok;

        let shape: Vec<usize> = self.shape_of(a);
        let channels_a: usize = shape[0];
        let spatial_dims: Vec<usize> = tail_of(&shape);
        let out_shape: Vec<usize> = with_head(2 * channels_a, &spatial_dims);
        self.emit1(
            list2(a, b),
            BasicBlockType::Concat { channels_a, spatial_dims },
            Witness::new_wo_data(out_shape, DataType::Uint, 0, Role::Output),
        )
    }

    /// The entries `start .. start + count` of the first dimension.
    pub fn channel_slice(&mut self, x: EdgeId, start: usize, count: usize) -> (e: EdgeId)
        requires
            old(self).wf(),
            old(self)@.channel_slice(x, start, count).0.ok,
        ensures
            final(self).wf(),
            (final(self)@, e) == old(self)@.channel_slice(x, start, count),
    {
        reveal(Graph::channel_slice);
        broadcast use group_ops_ok;

        let shape: Vec<usize> = self.shape_of(x);
        let channels_in: usize = shape[0];
        let spatial_dims: Vec<usize> = tail_of(&shape);
        let out_shape: Vec<usize> = with_head(count, &spatial_dims);
        self.emit1(
            list1(x),
            BasicBlockType::ChannelSlice {
                channels_in,
                channels_out: count,
                channel_start: start,
                spatial_dims,
            },
            Witness::new_wo_data(out_shape, DataType::Uint, 0, Role::Output),
        )
    }

    /// The tensor with its first dimension raised to `c`.
    fn widen(&mut self, a: EdgeId, c: usize) -> (e: EdgeId)
        requires
            old(self).wf(),
            old(self)@.widen(a, c).0.ok,
        ensures
            final(self).wf(),
            (final(self)@, e) == old(self)@.widen(a, c),
    {
        reveal(Graph::widen);
        broadcast use group_ops_ok;

        let shape: Vec<usize> = self.shape_of(a);
        if shape[0] < c {
            let rest: Vec<usize> = tail_of(&shape);
            let out: Vec<usize> = with_head(c, &rest);
            self.change_shape(a, out)
        } else {
            a
        }
    }

    /// Joins two tensors along the first dimension, raising both to the larger one, padded, where
    /// they differ.
    pub fn general_concat(&mut self, a: EdgeId, b: EdgeId) -> (e: EdgeId)
        requires
            old(self).wf(),
            old(self)@.general_concat(a, b).0.ok,
        ensures
            final(self).wf(),
            (final(self)@, e) == old(self)@.general_concat(a, b),
    {
        reveal(Graph::general_concat);
        broadcast use group_ops_ok;

        let ca: usize = self.shape_of(a)[0];
        let cb: usize = self.shape_of(b)[0];
        if ca == cb {
            return self.concat(a, b);
        }
        let largest: usize = if ca >= cb {
            ca
        } else {
            cb
        };
        let c: usize = next_pow(largest);
        let wide_a: EdgeId = self.widen(a, c);
        let wide_b: EdgeId = self.widen(b, c);
        self.concat(wide_a, wide_b)
    }

    /// Joins tensors along the first dimension, neighbours first.
    pub fn multi_concat(&mut self, edges: Vec<EdgeId>) -> (e: EdgeId)
        requires
            old(self).wf(),
            edges.len() > 0,
            old(self)@.multi_concat(edges@).0.ok,
        ensures
            final(self).wf(),
            (final(self)@, e) == old(self)@.multi_concat(edges@),
    {
        broadcast use group_ops_ok;

        let mut current: Vec<EdgeId> = edges;
        let ghost g0 = self@;
        let ghost all = edges@;
        while current.len() > 1
            invariant
                current.len() > 0,
                all.len() > 0,
                self.wf(),
                self@.multi_concat(current@) == g0.multi_concat(all),
                g0.multi_concat(all).0.ok,
            decreases current.len(),
        {
            let ghost g1 = self@;
            let ghost es = current@;
            let ghost half = es.len() / 2;
            let mut next: Vec<EdgeId> = Vec::new();
            let mut i: usize = 0;
            proof {
                lemma_concat_pairs_len(g1, es, half);
                let (h, level) = g1.concat_level(es);
                assert(h.multi_concat(level) == g1.multi_concat(es));
                crate::dag::graph_ops::ok_multi_concat(h, level);
                assert(h.ok);
                assert(g1.concat_pairs(es, half).0.ok);
            }
            while current.len() - i > 1
                invariant
                    i <= current.len(),
                    i % 2 == 0,
                    es == current@,
                    half == es.len() / 2,
                    self.wf(),
                    g1.concat_pairs(es, half).0.ok,
                    self@ == g1.concat_pairs(es, (i / 2) as nat).0,
                    next@ == g1.concat_pairs(es, (i / 2) as nat).1,
                decreases current.len() - i,
            {
                proof {
                    lemma_concat_pairs_ok(g1, es, (i / 2 + 1) as nat, half);
                    assert(2 * (i / 2 + 1) - 2 == i);
                }
                let e: EdgeId = self.general_concat(current[i], current[i + 1]);
                next.push(e);
                i = i + 2;
            }
            if i < current.len() {
                next.push(current[i]);
            }
            current = next;
        }
        current[0]
    }

    /// `x * sigmoid(x)`.
    pub fn silu(&mut self, x: EdgeId) -> (e: EdgeId)
        requires
            old(self).wf(),
            old(self)@.silu(x).0.ok,
        ensures
            final(self).wf(),
            (final(self)@, e) == old(self)@.silu(x),
    {
        reveal(Graph::silu);
        broadcast use group_ops_ok;

        let n: usize = self.shape_of(x).len();
        let sig: EdgeId = self.sigmoid(x)[0];
        let s: Vec<char> = letters(n);
        let eq: Vec<char> = twice_to_itself(&s);
        self.einsum_chars(eq, list2(x, sig), true)[0]
    }

    /// Every entry twice along the last two dimensions.
    pub fn upsample_nearest_2x(&mut self, x: EdgeId) -> (e: EdgeId)
        requires
            old(self).wf(),
            old(self)@.upsample_nearest_2x(x).0.ok,
        ensures
            final(self).wf(),
            (final(self)@, e) == old(self)@.upsample_nearest_2x(x),
    {
        reveal(Graph::upsample_nearest_2x);
        broadcast use group_ops_ok;

        let shape: Vec<usize> = self.shape_of(x);
        let (channels, h, w) = (shape[0], shape[1], shape[2]);
        self.plain(
            Op::Replicate2x2 { channels, out_h: 2 * h, out_w: 2 * w },
            list1(x),
            list3(channels, 2 * h, 2 * w),
        )
    }

    /// Zeros in the padding of the first dimension, where it has any.
    pub fn mask_channels(&mut self, x: EdgeId, ndims: usize) -> (e: EdgeId)
        requires
            old(self).wf(),
            old(self)@.mask_channels(x, ndims).0.ok,
        ensures
            final(self).wf(),
            (final(self)@, e) == old(self)@.mask_channels(x, ndims),
    {
        reveal(Graph::mask_channels);
        broadcast use group_ops_ok;

        let channels: usize = self.shape_of(x)[0];
        let channels_pad: usize = next_pow(channels);
        if channels == channels_pad {
            return x;
        }
        let data_type: DataType = self.value(x).data_type;
        let mut ones: Vec<GoldilocksField> = Vec::new();
        let mut c: usize = 0;
        while c < channels
            invariant
                c <= channels,
                ones@ == Seq::new(c as nat, |i: int| GoldilocksField(1)),
            decreases channels - c,
        {
            ones.push(GoldilocksField(1));
            c = c + 1;
            assert(ones@ =~= Seq::new(c as nat, |i: int| GoldilocksField(1)));
        }
        proof {
            lemma_one_dim(channels);
        }
        let mask: Witness = Witness::new(list1(channels), ones, data_type, 0, Role::Constant);
        let m: EdgeId = self.place(mask);
        let s: Vec<char> = letters(ndims);
        let mut eq: Vec<char> = Vec::new();
        eq.push('a');
        eq.push(',');
        append_chars(&mut eq, &s);
        eq.push('-');
        eq.push('>');
        append_chars(&mut eq, &s);
        assert(eq@ =~= seq!['a', ','] + s@ + seq!['-', '>'] + s@);
        self.einsum_chars(eq, list2(m, x), false)[0]
    }

    /// Normalises every channel; `eps_bits` are the bits of the stability term.
    #[verifier::rlimit(30)]
    pub fn instancenorm3d(&mut self, x: EdgeId, gamma: EdgeId, beta: EdgeId, eps_bits: u64) -> (e: EdgeId)
        requires
            old(self).wf(),
            old(self)@.instancenorm3d(x, gamma, beta, eps_bits).0.ok,
        ensures
            final(self).wf(),
            (final(self)@, e) == old(self)@.instancenorm3d(x, gamma, beta, eps_bits),
    {
        reveal(Graph::instancenorm3d);
        broadcast use group_ops_ok;

        let shape: Vec<usize> = self.shape_of(x);
        let (channels, depth, height, width) = (shape[0], shape[1], shape[2], shape[3]);
        let sf: usize = self.value(x).sf;
        let data_type: DataType = self.value(x).data_type;
        let packed: EdgeId = self.emit1(
            list3(x, gamma, beta),
            BasicBlockType::Op(Op::InstanceNorm3D { channels, depth, height, width, eps_bits }),
            Witness::new_wo_data(list2(2, channels), data_type, sf, Role::Output),
        );
        let scale: EdgeId = self.channel_slice(packed, 0, 1);
        let scale: EdgeId = self.change_shape(scale, list1(channels));
        let offset: EdgeId = self.channel_slice(packed, 1, 1);
        let offset: EdgeId = self.change_shape(offset, list1(channels));
        let z: EdgeId = self.einsum("a,abcd->abcd".to_string(), list2(scale, x), true)[0];
        let offset: EdgeId = self.change_shape(offset, list4(channels, 1, 1, 1));
        let y: EdgeId = self.add(z, offset)[0];
        self.mask_channels(y, 4)
    }

    /// `y` is at least the features of point `t` of every pillar.
    fn dominate_point(&mut self, x: EdgeId, y: EdgeId, n_pillars: usize, features: usize, t: usize)
        requires
            old(self).wf(),
            old(self)@.dominate_point(x, y, n_pillars, features, t).ok,
        ensures
            final(self).wf(),
            final(self)@ == old(self)@.dominate_point(x, y, n_pillars, features, t),
    {
        reveal(Graph::dominate_point);
        broadcast use group_ops_ok;

        let p: EdgeId = self.subsample2d_sized(x, (1, 1), (t, 0), (1, features));
        let p: EdgeId = self.change_shape(p, list2(n_pillars, features));
        let diff: EdgeId = self.sub(y, p)[0];
        self.add_nonneg_node(diff);
    }

    /// The largest features over the points of every pillar.
    pub fn pillar_maxpool(
        &mut self,
        x: EdgeId,
        n_pillars: usize,
        max_points: usize,
        features: usize,
    ) -> (e: EdgeId)
        requires
            old(self).wf(),
            old(self)@.pillar_maxpool(x, n_pillars, max_points, features).0.ok,
        ensures
            final(self).wf(),
            (final(self)@, e) == old(self)@.pillar_maxpool(x, n_pillars, max_points, features),
    {
        reveal(Graph::pillar_maxpool);
        broadcast use group_ops_ok;

        let ghost (g1, y1) = self@.plain(
            Op::PillarMaxPool { n_pillars, max_points, features },
            seq![x],
            seq![n_pillars, features],
        );
        proof {
            lemma_dominate_points_ok(g1, x, y1, n_pillars, features, 0, max_points as nat);
        }
        let y: EdgeId = self.plain(
            Op::PillarMaxPool { n_pillars, max_points, features },
            list1(x),
            list2(n_pillars, features),
        );
        let mut t: usize = 0;
        while t < max_points
            invariant
                t <= max_points,
                self.wf(),
                self@ == g1.dominate_points(x, y, n_pillars, features, t as nat),
                g1.dominate_points(x, y, n_pillars, features, max_points as nat).ok,
            decreases max_points - t,
        {
            proof {
                lemma_dominate_points_ok(
                    g1,
                    x,
                    y,
                    n_pillars,
                    features,
                    (t + 1) as nat,
                    max_points as nat,
                );
            }
            self.dominate_point(x, y, n_pillars, features, t);
            t = t + 1;
        }
        y
    }

    /// Places the features of every pillar at its cell of a grid.
    pub fn scatter_to_bev(
        &mut self,
        x: EdgeId,
        coords: EdgeId,
        n_pillars: usize,
        features: usize,
        ny: usize,
        nx: usize,
    ) -> (e: EdgeId)
        requires
            old(self).wf(),
            old(self)@.scatter_to_bev(x, coords, n_pillars, features, ny, nx).0.ok,
        ensures
            final(self).wf(),
            (final(self)@, e) == old(self)@.scatter_to_bev(x, coords, n_pillars, features, ny, nx),
    {
        broadcast use group_ops_ok;

        self.plain(
            Op::ScatterToBEV { n_pillars, features, ny, nx },
            list2(x, coords),
            list3(features, ny, nx),
        )
    }

    /// The channels of a grid at every point.
    pub fn gather_from_grid(
        &mut self,
        grid: EdgeId,
        coords: EdgeId,
        n_points: usize,
        channels: usize,
        grid_h: usize,
        grid_w: usize,
    ) -> (e: EdgeId)
        requires
            old(self).wf(),
            old(self)@.gather_from_grid(grid, coords, n_points, channels, grid_h, grid_w).0.ok,
        ensures
            final(self).wf(),
            (final(self)@, e) == old(self)@.gather_from_grid(
                grid,
                coords,
                n_points,
                channels,
                grid_h,
                grid_w,
            ),
    {
        broadcast use group_ops_ok;

        self.plain(
            Op::GatherFromGrid { n_points, channels, grid_h, grid_w },
            list2(grid, coords),
            list2(n_points, channels),
        )
    }

    /// Builds a part of the graph by a recipe.
    pub fn pipe<R>(&mut self, inlet: &[EdgeId], f: R) -> (r: Vec<EdgeId>) where
        R: FnOnce(&mut DagBuilder, &[EdgeId]) -> Vec<EdgeId>,

        requires
            forall|g: &mut DagBuilder| *g == *old(self) ==> #[trigger] call_requires(f, (g, inlet)),
        ensures
            exists|g: &mut DagBuilder|
                *g == *old(self) && *final(g) == *final(self) && #[trigger] call_ensures(
                    f,
                    (g, inlet),
                    r,
                ),
    {
        f(self, inlet)
    }
}

/// All dimensions but the first.
fn tail_of(shape: &Vec<usize>) -> (r: Vec<usize>)
    requires
        shape.len() > 0,
    ensures
        r@ == shape@.skip(1),
{
    let r: Vec<usize> = clone_words(vstd::slice::slice_subrange(shape.as_slice(), 1, shape.len()));
    assert(r@ =~= shape@.skip(1));
    r
}

/// A first dimension and the others.
fn with_head(a: usize, rest: &Vec<usize>) -> (r: Vec<usize>)
    ensures
        r@ == seq![a] + rest@,
{
    let mut r: Vec<usize> = list1(a);
    let mut i: usize = 0;
    assert(r@ =~= seq![a] + rest@.take(0));
    while i < rest.len()
        invariant
            i <= rest.len(),
            r@ == seq![a] + rest@.take(i as int),
        decreases rest.len() - i,
    {
        r.push(rest[i]);
        i = i + 1;
        assert(r@ =~= seq![a] + rest@.take(i as int));
    }
    assert(rest@.take(i as int) =~= rest@);
    r
}

/// The product of the listed dimensions.
fn dims_product(shape: &Vec<usize>, axes: &[usize]) -> (r: usize)
    requires
        forall|k: int| 0 <= k < axes.len() ==> (#[trigger] axes[k]) < shape.len(),
        products_fit(shape@, axes@),
    ensures
        r == axes_product(shape@, axes@),
{
    let mut r: usize = 1;
    let mut i: usize = 0;
    assert(axes@.take(0) =~= Seq::<usize>::empty());
    while i < axes.len()
        invariant
            i <= axes.len(),
            forall|k: int| 0 <= k < axes.len() ==> (#[trigger] axes[k]) < shape.len(),
            products_fit(shape@, axes@),
            r == axes_product(shape@, axes@.take(i as int)),
        decreases axes.len() - i,
    {
        proof {
            assert(axes@.take(i as int + 1).drop_last() =~= axes@.take(i as int));
            assert(word(axes_product(shape@, axes@.take(i as int + 1))));
        }
        r = r * shape[axes[i]];
        i = i + 1;
    }
    assert(axes@.take(i as int) =~= axes@);
    r
}

/// The letters of the dimensions that are not summed over.
fn letters_kept(axes: &[usize], n: usize) -> (r: Vec<char>)
    requires
        n <= 159,
    ensures
        r@ == kept_letters(axes@, n as nat),
{
    let mut r: Vec<char> = Vec::new();
    let mut i: usize = 0;
    while i < n
        invariant
            i <= n <= 159,
            r@ == kept_letters(axes@, i as nat),
        decreases n - i,
    {
        let mut found: bool = false;
        let mut k: usize = 0;
        while k < axes.len()
            invariant
                k <= axes.len(),
                found <==> exists|j: int| 0 <= j < k && axes@[j] == i,
            decreases axes.len() - k,
        {
            if axes[k] == i {
                assert(axes@[k as int] == i);
                found = true;
            }
            k = k + 1;
        }
        assert(found == axes@.contains(i));
        if !found {
            r.push((97u8 + i as u8) as char);
        }
        i = i + 1;
    }
    r
}

/// The words of the causal mask.
fn causal_mask_words(shape: &Vec<usize>, seq_len: usize, sf: usize) -> (r: Vec<GoldilocksField>)
    requires
        shape.len() >= 2,
        num_vars(shape@) < usize::BITS,
        sf <= 120,
    ensures
        r@ == causal_words(shape@, seq_len, sf),
{
    let n: usize = shape.len();
    let total: usize = pow2_usize(get_n(shape.as_slice()));
    proof {
        lemma_num_vars_prefix(shape@, n - 2);
        lemma_dim_small(shape@, n - 2);
        assert(shape@.subrange(0, n - 2) =~= shape@.take(n - 2));
    }
    let s_stride: usize = pow2_usize(
        get_n(vstd::slice::slice_subrange(shape.as_slice(), 0, n - 2)),
    );
    let s_pad: usize = next_pow(shape[n - 2]);
    let big_neg: GoldilocksField = big_negative_word(sf);
    let ghost target = causal_words(shape@, seq_len, sf);
    let mut r: Vec<GoldilocksField> = Vec::new();
    let mut i: usize = 0;
    while i < total
        invariant
            i <= total,
            n == shape.len(),
            n >= 2,
            total == pow2(num_vars(shape@)),
            s_stride == pow2(num_vars(shape@.take(n - 2))),
            s_stride > 0,
            s_pad > 0,
            s_pad == pad2(shape[n - 2] as int),
            big_neg == big_negative(sf),
            target == causal_words(shape@, seq_len, sf),
            r@ == target.take(i as int),
        decreases total - i,
    {
        let s: usize = (i / s_stride) % s_pad;
        let t: usize = (i / s_stride) / s_pad;
        r.push(
            if t < seq_len && s < seq_len && t > s {
                big_neg
            } else {
                GoldilocksField(0)
            },
        );
        i = i + 1;
        assert(r@ =~= target.take(i as int));
    }
    assert(target.take(i as int) =~= target);
    r
}

/// The word that stands for `-100` at scale `2^sf`.
fn big_negative_word(sf: usize) -> (r: GoldilocksField)
    requires
        sf <= 120,
    ensures
        r == big_negative(sf),
{
    let mut power: u128 = 1;
    let mut k: usize = 0;
    proof {
        lemma2_to64();
        lemma2_to64_rest();
    }
    while k < sf
        invariant
            k <= sf <= 120,
            power == pow2(k as nat),
        decreases sf - k,
    {
        proof {
            lemma_pow2_unfold((k + 1) as nat);
            lemma_pow2_120(k as nat);
        }
        power = power * 2;
        k = k + 1;
    }
    proof {
        lemma_pow2_120(sf as nat);
    }
    let p: u128 = GOLDILOCKS_PRIME as u128;
    let m: u128 = (100 * power) % p;
    let w: u128 = (p - m) % p;
    proof {
        let x = 100 * pow2(sf as nat) as int;
        vstd::arithmetic::div_mod::lemma_fundamental_div_mod(x, prime());
        let q = x / prime();
        if m == 0 {
            assert(-x == 0 + (-q) * prime()) by (nonlinear_arith)
                requires
                    x == prime() * q + 0,
            ;
            vstd::arithmetic::div_mod::lemma_mod_multiples_vanish(-q, 0, prime());
            vstd::arithmetic::div_mod::lemma_mod_self_0(prime());
        } else {
            assert(-x == (prime() - m) + (-q - 1) * prime()) by (nonlinear_arith)
                requires
                    x == prime() * q + m,
            ;
            vstd::arithmetic::div_mod::lemma_mod_multiples_vanish(-q - 1, prime() - m, prime());
            vstd::arithmetic::div_mod::lemma_small_mod((prime() - m) as nat, prime() as nat);
        }
        assert((-q) * prime() + 0 == prime() * (-q) + 0) by (nonlinear_arith);
        assert((-q - 1) * prime() + (prime() - m) == prime() * (-q - 1) + (prime() - m)) by (
        nonlinear_arith);
    }
    GoldilocksField(w as u64)
}

proof fn lemma_pow2_120(k: nat)
    requires
        k <= 120,
    ensures
        100 * pow2(k) <= u128::MAX,
{
    lemma2_to64_rest();
    lemma_pow2_adds(60, 60);
    lemma2_to64();
    if k < 120 {
        lemma_pow2_strictly_increases(k, 120);
    }
    assert(pow2(60) == 0x1000000000000000);
    assert(pow2(120) == 0x1000000000000000 * 0x1000000000000000);
}

/// The parts of the length of a flattened kernel do not exceed it.
proof fn lemma_kernel_parts(kh: int, kw: int, dh: int, dw: int, row: int)
    requires
        kh >= 1,
        kw >= 1,
        dh >= 0,
        dw >= 0,
        row >= 1,
    ensures
        0 <= (kh - 1) * dh <= (kh - 1) * dh * row,
        0 <= (kw - 1) * dw,
        0 <= (kh - 1) * row,
        Graph::flat_kernel(kh, kw, dh, dw, row) == (kh - 1) * dh * row + (kw - 1) * dw + 1,
        Graph::flat_kernel(kh, kw, 1, 1, row) == (kh - 1) * row + kw,
{
    assert(0 <= (kh - 1) * dh) by (nonlinear_arith)
        requires
            kh >= 1,
            dh >= 0,
    ;
    assert((kh - 1) * dh <= (kh - 1) * dh * row) by (nonlinear_arith)
        requires
            0 <= (kh - 1) * dh,
            row >= 1,
    ;
    assert(0 <= (kw - 1) * dw) by (nonlinear_arith)
        requires
            kw >= 1,
            dw >= 0,
    ;
    assert(0 <= (kh - 1) * row) by (nonlinear_arith)
        requires
            kh >= 1,
            row >= 1,
    ;
    assert((kh - 1) * 1 == kh - 1);
}

/// The parts of the length of a flattened kernel do not exceed it.
proof fn lemma_kernel3_parts(kd: int, kh: int, kw: int, plane: int, row: int)
    requires
        kd >= 1,
        kh >= 1,
        plane >= 0,
        row >= 0,
    ensures
        0 <= (kd - 1) * plane,
        0 <= (kh - 1) * row,
{
    assert(0 <= (kd - 1) * plane) by (nonlinear_arith)
        requires
            kd >= 1,
            plane >= 0,
    ;
    assert(0 <= (kh - 1) * row) by (nonlinear_arith)
        requires
            kh >= 1,
            row >= 0,
    ;
}

/// The first part of the length of a transposed convolution does not exceed it.
proof fn lemma_spread_parts(len: int, kernel: int, stride: int)
    requires
        len >= 1,
        kernel >= 0,
        stride >= 0,
    ensures
        0 <= (len - 1) * stride <= Graph::spread(len, kernel, stride),
{
    assert(0 <= (len - 1) * stride) by (nonlinear_arith)
        requires
            len >= 1,
            stride >= 0,
    ;
}

/// A tensor with one dimension that can be padded fits in memory.
proof fn lemma_one_dim(c: usize)
    requires
        paddable(c as int),
    ensures
        fits(seq![c], c as nat),
{
    let s = seq![c];
    assert(s.drop_last() =~= Seq::<usize>::empty());
    assert(num_vars(Seq::<usize>::empty()) == 0);
    assert(num_vars(s) == num_vars(s.drop_last()) + clog2(s.last() as nat));
    lemma_clog2(c as nat);
    lemma_usize_max();
    lemma_pow2_unfold(usize::BITS as nat);
    if clog2(c as nat) >= usize::BITS {
        let k = (clog2(c as nat) - 1) as nat;
        if k > usize::BITS - 1 {
            lemma_pow2_strictly_increases((usize::BITS - 1) as nat, k);
        }
    }
}

/// Longer lists of marked edges keep the graph in order.
proof fn lemma_lists_wf(g: Graph, h: Graph)
    requires
        g.wf(),
        h.nodes == g.nodes,
        h.values == g.values,
        h.range == g.range,
        h.two_pow == g.two_pow,
        h.has_all(h.layer_boundaries),
        h.has_all(h.self_claims),
    ensures
        h.wf(),
{
    assert forall|n: int| 0 <= n < h.nodes.len() implies crate::dag::graph::node_in_order(
        #[trigger] h.nodes[n],
        n,
        h.first_output(n),
        h.values.len(),
    ) by {
        assert(crate::dag::graph::node_in_order(
            g.nodes[n],
            n,
            g.first_output(n),
            g.values.len(),
        ));
    }
    assert forall|m: int, n: int| 0 <= m < n < h.nodes.len() implies #[trigger] h.first_output(m)
        + h.nodes[m].outputs.len() <= #[trigger] h.first_output(n) by {
        assert(g.first_output(m) + g.nodes[m].outputs.len() <= g.first_output(n));
    }
}

/// A lookup node keeps the graph in order.
proof fn lemma_two_pow_wf(g: Graph, nid: usize)
    requires
        g.wf(),
        nid < g.nodes.len(),
        g.nodes[nid as int].kind == Block::Op(Op::TwoPow),
        g.nodes[nid as int].inputs.len() == 1,
    ensures
        (Graph { two_pow: g.two_pow.push(nid), ..g }).wf(),
{
    let h = Graph { two_pow: g.two_pow.push(nid), ..g };
    assert forall|n: int| 0 <= n < h.nodes.len() implies crate::dag::graph::node_in_order(
        #[trigger] h.nodes[n],
        n,
        h.first_output(n),
        h.values.len(),
    ) by {
        assert(crate::dag::graph::node_in_order(
            g.nodes[n],
            n,
            g.first_output(n),
            g.values.len(),
        ));
    }
    assert forall|m: int, n: int| 0 <= m < n < h.nodes.len() implies #[trigger] h.first_output(m)
        + h.nodes[m].outputs.len() <= #[trigger] h.first_output(n) by {
        assert(g.first_output(m) + g.nodes[m].outputs.len() <= g.first_output(n));
    }
}

} // verus!
