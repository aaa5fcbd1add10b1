//! Proving a whole generated text at once: tokens are selected by one-hot matrices, and every
//! generated token is the largest of its row of scores.
use vstd::arithmetic::power2::*;
use vstd::prelude::*;

use crate::dag::builder::DagBuilder;
use crate::dag::builder_ops::list2;
use crate::dag::graph::Graph;
use crate::dag::graph_ops::group_ops_ok;
use crate::dag::run::tensors;
use crate::dag::types::EdgeId;
use crate::dag::witness::{fits, known, DataType, PolyData, Role, Tensor, Witness};
use crate::field::elem::{lemma_mul_comm, lemma_mul_one, lemma_mul_zero, one, zero, Elem};
use crate::field::sums::{lemma_sum_single, sum};
use crate::field::GoldilocksField;
use crate::util::arith::{f_to_int, next_pow, padded, signed_value};

verus! {

/// The words of the selector of `len` rows: row `i` is one at `indices[i]` and zero elsewhere. Rows
/// vary fastest, and both dimensions are padded to powers of two.
pub open spec fn one_hot_words(len: usize, table_size: usize, indices: Seq<usize>) -> Seq<GoldilocksField> {
    let rows = padded(len as nat) as int;
    Seq::new(
        padded(len as nat) * padded(table_size as nat),
        |k: int|
            GoldilocksField(
                if k % rows < len && indices[k % rows] == k / rows {
                    1
                } else {
                    0
                },
            ),
    )
}

/// The selector as a constant.
pub open spec fn one_hot(len: usize, table_size: usize, indices: Seq<usize>) -> Tensor {
    known(
        seq![len, table_size],
        one_hot_words(len, table_size, indices),
        DataType::Float,
        0,
        Role::Constant,
    )
}

/// There is an index per row, all indices are within the table, and the selector fits a tensor.
pub open spec fn selectable(len: usize, table_size: usize, indices: Seq<usize>) -> bool {
    &&& indices.len() == len
    &&& forall|i: int| 0 <= i < len ==> (#[trigger] indices[i]) < table_size
    &&& len <= usize::MAX / 2 + 1
    &&& table_size <= usize::MAX / 2 + 1
    &&& padded(len as nat) * padded(table_size as nat) <= usize::MAX
    &&& fits(seq![len, table_size], padded(len as nat) * padded(table_size as nat))
}

/// Entry `v` of row `i` of the selector.
pub proof fn lemma_one_hot_entry(len: usize, table_size: usize, indices: Seq<usize>, i: int, v: int)
    requires
        0 <= i < len,
        0 <= v < padded(table_size as nat),
    ensures
        one_hot_words(len, table_size, indices)[i + v * padded(len as nat)] == GoldilocksField(
            if v == indices[i] {
                1
            } else {
                0
            },
        ),
{
    let rows = padded(len as nat) as int;
    let cols = padded(table_size as nat) as int;
    crate::util::arith::lemma_clog2(len as nat);
    assert(0 <= i + v * rows < rows * cols) by (nonlinear_arith)
        requires
            0 <= i < rows,
            0 <= v < cols,
    ;
    vstd::arithmetic::div_mod::lemma_fundamental_div_mod_converse(i + v * rows, rows, v, i);
}

/// Row `i` of the selector picks entry `indices[i]`: its product with a column of values is the
/// value at that entry.
pub proof fn lemma_one_hot_picks(
    len: usize,
    table_size: usize,
    indices: Seq<usize>,
    values: spec_fn(int) -> Elem,
    i: int,
)
    requires
        selectable(len, table_size, indices),
        0 <= i < len,
        forall|v: int| (#[trigger] values(v)).canon(),
    ensures
        sum(
            padded(table_size as nat),
            |v: int|
                one_hot_words(len, table_size, indices)[i + v * padded(len as nat)]@ * values(v),
        ) == values(indices[i] as int),
{
    let rows = padded(len as nat) as int;
    let cols = padded(table_size as nat);
    let words = one_hot_words(len, table_size, indices);
    let f = |v: int| words[i + v * padded(len as nat)]@ * values(v);
    crate::util::arith::lemma_clog2(len as nat);
    crate::util::arith::lemma_clog2(table_size as nat);
    let at = indices[i] as int;
    assert(indices[i] < table_size);
    assert forall|v: int| 0 <= v < cols && v != at implies #[trigger] f(v) == zero() by {
        lemma_one_hot_entry(len, table_size, indices, i, v);
        assert(GoldilocksField(0)@ == zero());
        lemma_mul_comm(zero(), values(v));
        lemma_mul_zero(values(v));
    }
    assert(f(at) == values(at)) by {
        lemma_one_hot_entry(len, table_size, indices, i, at);
        assert(GoldilocksField(1)@ == one());
        lemma_mul_comm(one(), values(at));
        lemma_mul_one(values(at));
    }
    lemma_sum_single(cols, at, f);
}

impl Graph {
    /// The rows of `w_e` that the tokens name, and the edge of their selector.
    #[verifier::opaque]
    pub open spec fn embedding(self, w_e: EdgeId, seq_len: usize, vocab_size: usize, tokens: Seq<usize>) -> (
        Graph,
        EdgeId,
        EdgeId,
    ) {
        let (g, s) = self.require(selectable(seq_len, vocab_size, tokens)).param(
            one_hot(seq_len, vocab_size, tokens),
        );
        let (g, h) = g.einsum("sv,vd->sd"@, seq![s, w_e], false);
        (g, h, s)
    }

    #[verifier::opaque]
    pub open spec fn positional(self, h: EdgeId, pos: Tensor) -> (Graph, EdgeId) {
        let (g, p) = self.param(pos);
        g.add(h, p)
    }

    /// Scores of all tokens at all positions, by the weights of the embedding.
    #[verifier::opaque]
    pub open spec fn tied_scores(self, hidden: EdgeId, w_e: EdgeId, seq_len: usize, vocab_size: usize) -> (
        Graph,
        EdgeId,
    ) {
        let (g, h) = self.einsum("bsd,vd->bsv"@, seq![hidden, w_e], true);
        g.change_shape(h, seq![seq_len, vocab_size])
    }

    /// Scores of all tokens at all positions, by weights of their own.
    #[verifier::opaque]
    pub open spec fn own_scores(self, hidden: EdgeId, w: EdgeId, seq_len: usize, vocab_size: usize) -> (
        Graph,
        EdgeId,
    ) {
        let (g, h) = self.einsum("bsi,ij->bsj"@, seq![hidden, w], true);
        g.change_shape(h, seq![seq_len, vocab_size])
    }

    /// Checks that at every position the selected score is at least every other; with the edge of
    /// the selector.
    #[verifier::opaque]
    pub open spec fn argmax(self, logits: EdgeId, seq_len: usize, vocab_size: usize, tokens: Seq<usize>) -> (
        Graph,
        EdgeId,
    ) {
        let (g, s) = self.require(selectable(seq_len, vocab_size, tokens)).param(
            one_hot(seq_len, vocab_size, tokens),
        );
        let (g, chosen) = g.einsum("sv,sv->s"@, seq![logits, s], false);
        let (g, chosen) = g.change_shape(chosen, seq![seq_len, 1]);
        let (g, diffs) = g.sub(chosen, logits);
        (g.nonneg(diffs), s)
    }
}

impl DagBuilder {
    /// The selector of `len` rows: row `i` is one at `indices[i]` and zero elsewhere.
    pub fn build_one_hot_selector(len: usize, table_size: usize, indices: &[usize]) -> (t: Witness)
        requires
            selectable(len, table_size, indices@),
        ensures
            t@ == one_hot(len, table_size, indices@),
            t.role == Role::Constant,
    {
        let rows: usize = next_pow(len);
        let cols: usize = next_pow(table_size);
        let total: usize = rows * cols;
        let ghost target = one_hot_words(len, table_size, indices@);
        let mut words: Vec<GoldilocksField> = Vec::new();
        let mut k: usize = 0;
        while k < total
            invariant
                k <= total,
                rows > 0,
                rows == padded(len as nat),
                indices.len() == len,
                target == one_hot_words(len, table_size, indices@),
                target.len() == total,
                words@ == target.take(k as int),
            decreases total - k,
        {
            let i: usize = k % rows;
            let v: usize = k / rows;
            let w: GoldilocksField = if i < len && indices[i] == v {
                GoldilocksField(1)
            } else {
                GoldilocksField(0)
            };
            words.push(w);
            k = k + 1;
            assert(words@ =~= target.take(k as int));
        }
        assert(target.take(k as int) =~= target);
        Witness::new(list2(len, table_size), words, DataType::Float, 0, Role::Constant)
    }

    /// The rows of `w_e` that the tokens name. Returns their edge and that of the selector, which
    /// can be replaced before another run.
    pub fn embedding_lookup(
        &mut self,
        w_e: EdgeId,
        seq_len: usize,
        vocab_size: usize,
        token_ids: &[usize],
    ) -> (r: (EdgeId, EdgeId))
        requires
            old(self).wf(),
            old(self)@.embedding(w_e, seq_len, vocab_size, token_ids@).0.ok,
        ensures
            final(self).wf(),
            (final(self)@, r.0, r.1) == old(self)@.embedding(w_e, seq_len, vocab_size, token_ids@),
    {
        reveal(Graph::embedding);
        broadcast use group_ops_ok;

        let ghost ready = self@.require(selectable(seq_len, vocab_size, token_ids@));
        assert(ready.ok);
        assert(ready == self@);
        let s: EdgeId = self.param(Self::build_one_hot_selector(seq_len, vocab_size, token_ids));
        let h: EdgeId = self.einsum("sv,vd->sd".to_string(), list2(s, w_e), false)[0];
        (h, s)
    }

    /// Adds learned positions.
    pub fn add_positional_encoding(&mut self, h0: EdgeId, pos_embed: Witness) -> (e: EdgeId)
        requires
            old(self).wf(),
            old(self)@.positional(h0, pos_embed@).0.ok,
        ensures
            final(self).wf(),
            (final(self)@, e) == old(self)@.positional(h0, pos_embed@),
    {
        reveal(Graph::positional);
        broadcast use group_ops_ok;

        let p: EdgeId = self.param(pos_embed);
        self.add(h0, p)[0]
    }

    /// Scores of all tokens at all positions, by the weights of the embedding.
    pub fn lm_head_weight_tied(
        &mut self,
        hidden: EdgeId,
        w_e: EdgeId,
        seq_len: usize,
        vocab_size: usize,
    ) -> (e: EdgeId)
        requires
            old(self).wf(),
            old(self)@.tied_scores(hidden, w_e, seq_len, vocab_size).0.ok,
        ensures
            final(self).wf(),
            (final(self)@, e) == old(self)@.tied_scores(hidden, w_e, seq_len, vocab_size),
    {
        reveal(Graph::tied_scores);
        broadcast use group_ops_ok;

        let h: EdgeId = self.einsum("bsd,vd->bsv".to_string(), list2(hidden, w_e), true)[0];
        self.change_shape(h, list2(seq_len, vocab_size))
    }

    /// Scores of all tokens at all positions, by weights of their own.
    pub fn lm_head(
        &mut self,
        hidden: EdgeId,
        lm_head_w: EdgeId,
        seq_len: usize,
        vocab_size: usize,
    ) -> (e: EdgeId)
        requires
            old(self).wf(),
            old(self)@.own_scores(hidden, lm_head_w, seq_len, vocab_size).0.ok,
        ensures
            final(self).wf(),
            (final(self)@, e) == old(self)@.own_scores(hidden, lm_head_w, seq_len, vocab_size),
    {
        reveal(Graph::own_scores);
        broadcast use group_ops_ok;

        let h: EdgeId = self.einsum("bsi,ij->bsj".to_string(), list2(hidden, lm_head_w), true)[0];
        self.change_shape(h, list2(seq_len, vocab_size))
    }

    /// Checks that at every position the selected score is at least every other. Returns the edge
    /// of the selector, which can be replaced before another run.
    pub fn argmax_check(
        &mut self,
        logits: EdgeId,
        seq_len: usize,
        vocab_size: usize,
        token_ids: &[usize],
    ) -> (s:
        EdgeId)
        requires
            old(self).wf(),
            old(self)@.argmax(logits, seq_len, vocab_size, token_ids@).0.ok,
        ensures
            final(self).wf(),
            (final(self)@, s) == old(self)@.argmax(logits, seq_len, vocab_size, token_ids@),
    {
        reveal(Graph::argmax);
        broadcast use group_ops_ok;

        let ghost ready = self@.require(selectable(seq_len, vocab_size, token_ids@));
        assert(ready.ok);
        assert(ready == self@);
        let s: EdgeId = self.param(Self::build_one_hot_selector(seq_len, vocab_size, token_ids));
        let chosen: EdgeId = self.einsum("sv,sv->s".to_string(), list2(logits, s), false)[0];
        let chosen: EdgeId = self.change_shape(chosen, list2(seq_len, 1));
        let diffs: EdgeId = self.sub(chosen, logits)[0];
        self.add_nonneg_node(diffs);
        s
    }
}

/// The score of token `v` at position `pos`, as a signed number.
pub open spec fn score(words: Seq<GoldilocksField>, seq_len: usize, pos: int, v: int) -> int {
    signed_value(words[pos + v * padded(seq_len as nat)])
}

/// `r` is the first of the best of the first `n` tokens at position `pos`.
pub open spec fn is_argmax(
    words: Seq<GoldilocksField>,
    seq_len: usize,
    pos: int,
    n: nat,
    r: int,
) -> bool {
    if n == 0 {
        r == 0
    } else {
        &&& 0 <= r < n
        &&& forall|v: int|
            0 <= v < n ==> #[trigger] score(words, seq_len, pos, v) <= score(words, seq_len, pos, r)
        &&& forall|v: int|
            0 <= v < r ==> #[trigger] score(words, seq_len, pos, v) < score(words, seq_len, pos, r)
    }
}

/// The scores are known and cover all tokens at all positions.
pub open spec fn scored(ws: Seq<Vec<Witness>>, e: EdgeId, seq_len: usize, vocab_size: usize) -> bool {
    &&& e < ws.len()
    &&& ws[e as int].len() > 0
    &&& ws[e as int][0].data is Some
    &&& ws[e as int][0].data->0 is Dense
    &&& seq_len <= usize::MAX / 2 + 1
    &&& padded(seq_len as nat) * vocab_size <= scores_of(ws, e).len()
}

/// The words of the scores.
pub open spec fn scores_of(ws: Seq<Vec<Witness>>, e: EdgeId) -> Seq<GoldilocksField> {
    ws[e as int][0].data->0->Dense_0.evaluations@
}

/// The best token at position `pos`, the first of several.
pub fn extract_argmax_at(
    witnesses: &[Vec<Witness>],
    logits_edge: EdgeId,
    pos: usize,
    seq_len: usize,
    vocab_size: usize,
) -> (r: usize)
    requires
        scored(witnesses@, logits_edge, seq_len, vocab_size),
        pos < seq_len,
    ensures
        is_argmax(
            scores_of(witnesses@, logits_edge),
            seq_len,
            pos as int,
            vocab_size as nat,
            r as int,
        ),
{
    let ghost words = scores_of(witnesses@, logits_edge);
    let rows: usize = next_pow(seq_len);
    match &witnesses[logits_edge][0].data {
        Some(PolyData::Dense(p)) => {
            let count: usize = p.evaluations.len();
            let mut best_v: usize = 0;
            let mut best: i128 = i128::MIN;
            let mut v: usize = 0;
            while v < vocab_size
                invariant
                    v <= vocab_size,
                    words == p.evaluations@,
                    count == words.len(),
                    rows == padded(seq_len as nat),
                    rows * vocab_size <= words.len(),
                    pos < seq_len <= rows,
                    is_argmax(words, seq_len, pos as int, v as nat, best_v as int),
                    v > 0 ==> best == score(words, seq_len, pos as int, best_v as int),
                    v == 0 ==> best == i128::MIN,
                decreases vocab_size - v,
            {
                assert(0 <= v * rows <= pos + v * rows < rows * vocab_size) by (nonlinear_arith)
                    requires
                        0 <= pos < rows,
                        0 <= v < vocab_size,
                ;
                let val: i128 = f_to_int(p.evaluations[pos + v * rows]);
                assert(val == score(words, seq_len, pos as int, v as int));
                if val > best {
                    best = val;
                    best_v = v;
                }
                v = v + 1;
            }
            best_v
        },
        _ => vstd::pervasive::unreached(),
    }
}

/// The best token at every position.
pub fn extract_argmax_all(
    witnesses: &[Vec<Witness>],
    logits_edge: EdgeId,
    seq_len: usize,
    vocab_size: usize,
) -> (r: Vec<usize>)
    requires
        scored(witnesses@, logits_edge, seq_len, vocab_size),
    ensures
        r.len() == seq_len,
        forall|i: int|
            0 <= i < seq_len ==> is_argmax(
                scores_of(witnesses@, logits_edge),
                seq_len,
                i,
                vocab_size as nat,
                #[trigger] r[i] as int,
            ),
{
    let mut r: Vec<usize> = Vec::new();
    let mut i: usize = 0;
    while i < seq_len
        invariant
            i <= seq_len,
            scored(witnesses@, logits_edge, seq_len, vocab_size),
            r.len() == i,
            forall|k: int|
                0 <= k < i ==> is_argmax(
                    scores_of(witnesses@, logits_edge),
                    seq_len,
                    k,
                    vocab_size as nat,
                    #[trigger] r[k] as int,
                ),
        decreases seq_len - i,
    {
        r.push(extract_argmax_at(witnesses, logits_edge, i, seq_len, vocab_size));
        i = i + 1;
    }
    r
}

/// Every generated token is the best one at the position before it.
pub open spec fn shifted_by_one(tokens: Seq<usize>, next: Seq<usize>, prompt_len: int) -> bool {
    forall|i: int|
        prompt_len - 1 <= i && 0 <= i < tokens.len() - 1 ==> tokens[i + 1] == #[trigger] next[i]
}

/// Checks that every generated token is the best one at the position before it.
pub fn check_shift(token_ids: &[usize], next_token_ids: &[usize], prompt_len: usize) -> (r: bool)
    requires
        next_token_ids.len() >= token_ids.len(),
    ensures
        r == shifted_by_one(token_ids@, next_token_ids@, prompt_len as int),
{
    let mut i: usize = if prompt_len > 0 {
        prompt_len - 1
    } else {
        0
    };
    let n: usize = token_ids.len();
    while i < n && i + 1 < n
        invariant
            n == token_ids.len(),
            next_token_ids.len() >= n,
            prompt_len - 1 <= i,
            forall|k: int|
                prompt_len - 1 <= k && 0 <= k < i && k < n - 1 ==> token_ids[k + 1]
                    == #[trigger] next_token_ids[k],
        decreases n - i,
    {
        if token_ids[i + 1] != next_token_ids[i] {
            assert(token_ids@[i + 1] != next_token_ids@[i as int]);
            return false;
        }
        i = i + 1;
    }
    true
}

/// Where the best tokens are shifted by one, every generated token is the best one given the scores
/// at the position before it.
pub proof fn lemma_autoregressive(
    words: Seq<GoldilocksField>,
    tokens: Seq<usize>,
    next: Seq<usize>,
    seq_len: usize,
    vocab_size: nat,
    prompt_len: int,
    i: int,
)
    requires
        tokens.len() == seq_len,
        next.len() == seq_len,
        prompt_len >= 1,
        shifted_by_one(tokens, next, prompt_len),
        forall|k: int|
            0 <= k < seq_len ==> is_argmax(words, seq_len, k, vocab_size, #[trigger] next[k] as int),
        prompt_len <= i < seq_len,
    ensures
        is_argmax(words, seq_len, i - 1, vocab_size, tokens[i] as int),
{
    let n = next[i - 1];
}

/// Puts a token at a position and selects it.
pub fn place_token(
    witnesses: &mut Vec<Vec<Witness>>,
    selector_edge: EdgeId,
    token_ids: &mut Vec<usize>,
    pos: usize,
    token: usize,
    vocab_size: usize,
)
    requires
        pos < old(token_ids).len(),
        selector_edge < old(witnesses).len(),
        selectable(old(token_ids).len(), vocab_size, old(token_ids)@),
        token < vocab_size,
    ensures
        final(token_ids)@ == old(token_ids)@.update(pos as int, token),
        final(witnesses).len() == old(witnesses).len(),
        tensors(final(witnesses)[selector_edge as int]@) == seq![
            one_hot(old(token_ids).len(), vocab_size, final(token_ids)@),
        ],
        forall|e: int|
            0 <= e < old(witnesses).len() && e != selector_edge ==> #[trigger] final(witnesses)[e] == old(
                witnesses,
            )[e],
{
    token_ids.set(pos, token);
    let s: Witness = DagBuilder::build_one_hot_selector(
        token_ids.len(),
        vocab_size,
        token_ids.as_slice(),
    );
    let mut list: Vec<Witness> = Vec::new();
    list.push(s);
    assert(tensors(list@) =~= seq![s@]);
    witnesses.set(selector_edge, list);
}

} // verus!
