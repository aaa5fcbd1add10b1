//! What the first and the last layers of a language model compute.
use vstd::arithmetic::power2::*;
use vstd::prelude::*;

use crate::dag::equation::output_shape;
use crate::dag::graph::Graph;
use crate::dag::growth::{
    contracted, group_grown, grown, lemma_step_add, lemma_step_change_shape, lemma_step_einsum,
    lemma_step_param, rounded, seen,
};
use crate::dag::meaning::{
    assigned, at2, at3, constant_held, inside, lemma_aligned_same, lemma_total_single, named,
    position, sized, total, Numbers,
};
use crate::dag::oneshot::{is_argmax, one_hot, score, selectable};
use crate::dag::reading::{lemma_assigned, lemma_entry_sum, lemma_projected, lemma_spells_two};
use crate::dag::spelling::{among, lemma_spelled_shape};
use crate::dag::text_laws::{lemma_matrix_position, lemma_selector_entry};
use crate::dag::types::EdgeId;
use crate::dag::witness::Tensor;
use crate::field::GoldilocksField;
use crate::util::arith::{clog2, lemma_clog2, num_vars, signed_value};

verus! {

/// The rows of `o` are the rows of `w` that `sel` weighs.
proof fn lemma_matrix_product(h: Graph, vals: Numbers, a: EdgeId, w: EdgeId, o: EdgeId, i: int, d: int)
    requires
        contracted(h, vals, "sv,vd->sd"@, seq![a, w], 0, o),
        h.rank(a) == 2,
        h.rank(w) == 2,
        h.shape(w)[0] == h.shape(a)[1],
        inside(h.shape(o), at2(i, d)),
    ensures
        vals(o)(at2(i, d)) == total(h.shape(a)[1] as nat, |v: int| vals(a)(at2(i, v)) * vals(w)(at2(v, d))),
{
    reveal_strlit("sv,vd->sd");
    let (sa, sw, out) = (seq!['s', 'v'], seq!['v', 'd'], seq!['s', 'd']);
    let eq = "sv,vd->sd"@;
    assert(eq =~= sa + seq![','] + sw + seq!['-', '>'] + out);
    let n = h.shape(a)[1] as nat;
    let dims = Map::<char, nat>::empty().insert('s', h.shape(a)[0] as nat).insert('v', n).insert(
        'd',
        h.shape(w)[1] as nat,
    );
    let shapes = h.shapes(seq![a, w]);
    let ins = seq![sa, sw];
    assert(shapes[0] == h.shape(a) && shapes[1] == h.shape(w));
    assert(sized(ins, shapes, dims)) by {
        assert forall|u: int, j: int| 0 <= u < ins.len() && 0 <= j < ins[u].len() implies dims.contains_key(
            #[trigger] ins[u][j],
        ) && dims[ins[u][j]] == shapes[u][j] by {
            if u == 0 {
                assert(ins[u] == sa);
            } else {
                assert(ins[u] == sw);
            }
            assert(j == 0 || j == 1);
        }
    }
    assert(out[0] == 's' && out[1] == 'd' && out.contains('s') && out.contains('d') && !out.contains('v'));
    assert(sa[1] == 'v' && sa.contains('v'));
    let idx = at2(i, d);
    let f = |v: int| vals(a)(at2(i, v)) * vals(w)(at2(v, d));
    lemma_assigned(out, idx);
    let at = assigned(out, idx);
    assert forall|v: int| 0 <= v < n implies #[trigger] f(v) == vals(a)(named(sa, at.insert('v', v))) * vals(w)(
        named(sw, at.insert('v', v)),
    ) by {
        assert(at[out[0]] == i && at[out[1]] == d);
        assert(named(sa, at.insert('v', v)) =~= at2(i, v));
        assert(named(sw, at.insert('v', v)) =~= at2(v, d));
    }
    lemma_entry_sum(h, vals, eq, a, w, 0, o, sa, sw, out, dims, idx, 'v', f);
    lemma2_to64();
}

proof fn lemma_matrix_product_shape(h: Graph, a: EdgeId, w: EdgeId)
    requires
        h.rank(a) == 2,
        h.rank(w) == 2,
        h.shape(w)[0] == h.shape(a)[1],
    ensures
        output_shape("sv,vd->sd"@, h.shapes(seq![a, w])) == seq![h.shape(a)[0], h.shape(w)[1]],
{
    reveal_strlit("sv,vd->sd");
    let (sa, sw, out) = (seq!['s', 'v'], seq!['v', 'd'], seq!['s', 'd']);
    let eq = "sv,vd->sd"@;
    assert(eq =~= sa + seq![','] + sw + seq!['-', '>'] + out);
    let dims = Map::<char, nat>::empty().insert('s', h.shape(a)[0] as nat).insert(
        'v',
        h.shape(a)[1] as nat,
    ).insert('d', h.shape(w)[1] as nat);
    let shapes = h.shapes(seq![a, w]);
    let ins = seq![sa, sw];
    assert(shapes[0] == h.shape(a) && shapes[1] == h.shape(w));
    assert(sized(ins, shapes, dims)) by {
        assert forall|u: int, j: int| 0 <= u < ins.len() && 0 <= j < ins[u].len() implies dims.contains_key(
            #[trigger] ins[u][j],
        ) && dims[ins[u][j]] == shapes[u][j] by {
            if u == 0 {
                assert(ins[u] == sa);
            } else {
                assert(ins[u] == sw);
            }
            assert(j == 0 || j == 1);
        }
    }
    lemma_spells_two(eq, sa, sw, out);
    assert(ins[0][0] == out[0] && ins[1][1] == out[1]);
    assert(among(ins, out[0]) && among(ins, out[1]));
    lemma_spelled_shape(eq, ins, out, shapes, dims);
    assert(output_shape(eq, shapes) =~= seq![h.shape(a)[0], h.shape(w)[1]]);
}

/// An embedding gives every position the row of the table that its token names.
pub proof fn lemma_embedding(
    s: Graph,
    g: Graph,
    w: EdgeId,
    seq_len: usize,
    vocab_size: usize,
    tokens: Seq<usize>,
    h: Graph,
    vals: Numbers,
)
    requires
        seen(s, g, h, vals),
        grown(g.embedding(w, seq_len, vocab_size, tokens).0, h),
        h.rank(w) == 2,
        h.shape(w)[0] == vocab_size,
    ensures
        h.shape(g.embedding(w, seq_len, vocab_size, tokens).1) == seq![seq_len, h.shape(w)[1]],
        forall|i: int, d: int|
            #![trigger vals(g.embedding(w, seq_len, vocab_size, tokens).1)(at2(i, d))]
            0 <= i < seq_len && 0 <= d < h.shape(w)[1] ==> vals(g.embedding(
                w,
                seq_len,
                vocab_size,
                tokens,
            ).1)(
                at2(i, d),
            ) == vals(w)(at2(tokens[i] as int, d)),
        h.values[g.embedding(
            w,
            seq_len,
            vocab_size,
            tokens,
        ).2 as int] == one_hot(seq_len, vocab_size, tokens),
{
    reveal(Graph::embedding);
    broadcast use group_grown;

    let q = g.require(selectable(seq_len, vocab_size, tokens));
    let t = one_hot(seq_len, vocab_size, tokens);
    let (g1, sel) = q.param(t);
    let eq = "sv,vd->sd"@;
    let (g2, o) = g1.einsum(eq, seq![sel, w], false);
    assert(grown(g2, h));
    assert(grown(g1, h));
    assert(grown(q, h));
    lemma_step_param(s, q, t, h, vals);
    lemma_step_einsum(s, g1, eq, seq![sel, w], false, h, vals);
    assert(h.shape(sel) =~= seq![seq_len, vocab_size]);
    lemma_matrix_product_shape(h, sel, w);
    assert forall|i: int, d: int|
        #![trigger vals(o)(at2(i, d))]
        0 <= i < seq_len && 0 <= d < h.shape(w)[1] implies vals(o)(at2(i, d)) == vals(w)(
        at2(tokens[i] as int, d),
    ) by {
        assert(inside(h.shape(o), at2(i, d)));
        lemma_matrix_product(h, vals, sel, w, o, i, d);
        let at = tokens[i] as int;
        assert(tokens[i] < vocab_size);
        let f = |v: int| vals(sel)(at2(i, v)) * vals(w)(at2(v, d));
        assert forall|v: int| 0 <= v < vocab_size implies #[trigger] f(v) == if v == at {
            vals(w)(at2(at, d))
        } else {
            0
        } by {
            assert(constant_held(h, vals, sel));
            assert(inside(t.shape, at2(i, v)));
            lemma_selector_entry(seq_len, vocab_size, tokens, i, v);
            let (c, u) = (vals(sel)(at2(i, v)), vals(w)(at2(v, d)));
            assert(c * u == if v == at { u } else { 0 }) by (nonlinear_arith)
                requires
                    c == if v == at { 1int } else { 0 },
            ;
        }
        lemma_total_single(vocab_size as nat, at, f);
    }
}

/// A positional encoding is added entry by entry. Its edge is returned.
pub proof fn lemma_positional(
    s: Graph,
    g: Graph,
    x: EdgeId,
    pos: Tensor,
    h: Graph,
    vals: Numbers,
) -> (p: EdgeId)
    requires
        seen(s, g, h, vals),
        grown(g.positional(x, pos).0, h),
        pos.shape == h.shape(x),
    ensures
        h.values[p as int] == pos,
        constant_held(h, vals, p),
        h.shape(g.positional(x, pos).1) == h.shape(x),
        forall|idx: Seq<int>| #[trigger]
            inside(h.shape(x), idx) ==> vals(g.positional(x, pos).1)(idx) == vals(x)(idx) + vals(p)(idx),
{
    reveal(Graph::positional);
    broadcast use group_grown;

    let (g1, p) = g.param(pos);
    let (g2, o) = g1.add(x, p);
    assert(grown(g2, h) && grown(g1, h));
    lemma_step_param(s, g, pos, h, vals);
    lemma_step_add(s, g1, x, p, h, vals);
    crate::dag::layer_laws::lemma_joint_same(h.shape(x));
    assert forall|idx: Seq<int>| #[trigger] inside(h.shape(x), idx) implies vals(o)(idx) == vals(x)(idx) + vals(p)(
        idx,
    ) by {
        lemma_aligned_same(h.shape(x), idx);
    }
    p
}

/// A first dimension of one does not count.
proof fn lemma_leading_one(rows: usize, cols: usize, i: int, v: int)
    ensures
        position(seq![1, rows, cols], at3(0, i, v)) == position(seq![rows, cols], at2(i, v)),
{
    let (s3, s2) = (seq![1usize, rows, cols], seq![rows, cols]);
    let (i3, i2) = (at3(0, i, v), at2(i, v));
    reveal_with_fuel(position, 4);
    reveal_with_fuel(num_vars, 4);
    lemma2_to64();
    lemma_clog2(1);
    assert(i3.drop_last() =~= seq![0, i]);
    assert(seq![0, i].drop_last() =~= seq![0int]);
    assert(seq![0int].drop_last() =~= Seq::<int>::empty());
    assert(i2.drop_last() =~= seq![i]);
    assert(seq![i].drop_last() =~= Seq::<int>::empty());
    assert(s3.take(2) =~= seq![1usize, rows]);
    assert(s3.take(1) =~= seq![1usize]);
    assert(s3.take(0) =~= Seq::<usize>::empty());
    assert(s2.take(1) =~= seq![rows]);
    assert(s2.take(0) =~= Seq::<usize>::empty());
    assert(seq![1usize, rows].drop_last() =~= seq![1usize]);
    assert(seq![1usize].drop_last() =~= Seq::<usize>::empty());
    assert(seq![rows].drop_last() =~= Seq::<usize>::empty());
    assert(clog2(1) == 0) by {
        if clog2(1) > 0 {
            lemma_pow2_pos((clog2(1) - 1) as nat);
        }
    }
    assert(num_vars(seq![1usize]) == 0);
    assert(num_vars(seq![1usize, rows]) == num_vars(seq![rows]));
    assert(0 * pow2(num_vars(s3.take(0))) == 0) by (nonlinear_arith);
}

/// Scores by weights of their own: the score of a token at a position is the product of the hidden state
/// there and the column of the token.
pub proof fn lemma_own_scores(
    s: Graph,
    g: Graph,
    hidden: EdgeId,
    w: EdgeId,
    seq_len: usize,
    vocab_size: usize,
    h: Graph,
    vals: Numbers,
)
    requires
        seen(s, g, h, vals),
        grown(g.own_scores(hidden, w, seq_len, vocab_size).0, h),
        h.rank(hidden) == 3,
        h.shape(hidden)[0] == 1,
        h.shape(hidden)[1] == seq_len,
        h.shape(w) == seq![h.shape(hidden)[2], vocab_size],
    ensures
        h.shape(g.own_scores(hidden, w, seq_len, vocab_size).1) == seq![seq_len, vocab_size],
        forall|i: int, v: int|
            #![trigger vals(g.own_scores(hidden, w, seq_len, vocab_size).1)(at2(i, v))]
            0 <= i < seq_len && 0 <= v < vocab_size ==> rounded(
                total(h.shape(hidden)[2] as nat, |d: int| vals(hidden)(at3(0, i, d)) * vals(w)(at2(d, v))),
                h.sf(w) as nat,
                vals(g.own_scores(hidden, w, seq_len, vocab_size).1)(at2(i, v)),
            ),
{
    reveal(Graph::own_scores);
    broadcast use group_grown;

    let eq = "bsi,ij->bsj"@;
    let two = seq![seq_len, vocab_size];
    let (g1, y) = g.einsum(eq, seq![hidden, w], true);
    let (g2, o) = g1.change_shape(y, two);
    assert(grown(g2, h) && grown(g1, h));
    lemma_step_einsum(s, g, eq, seq![hidden, w], true, h, vals);
    lemma_projected(h, vals, hidden, w, h.sf(w) as nat, y);
    lemma_step_change_shape(s, g1, y, two, h, vals);
    assert forall|i: int, v: int|
        #![trigger vals(o)(at2(i, v))]
        0 <= i < seq_len && 0 <= v < vocab_size implies rounded(
        total(h.shape(hidden)[2] as nat, |d: int| vals(hidden)(at3(0, i, d)) * vals(w)(at2(d, v))),
        h.sf(w) as nat,
        vals(o)(at2(i, v)),
    ) by {
        lemma_leading_one(seq_len, vocab_size, i, v);
        assert(inside(h.shape(o), at2(i, v)));
        assert(inside(h.shape(y), at3(0, i, v)));
        assert(vals(o)(at2(i, v)) == vals(y)(at3(0, i, v)));
    }
}

/// Scores by the weights of the embedding: the score of a token at a position is the product of the hidden
/// state there and the row of the token.
pub proof fn lemma_tied_scores(
    s: Graph,
    g: Graph,
    hidden: EdgeId,
    w: EdgeId,
    seq_len: usize,
    vocab_size: usize,
    h: Graph,
    vals: Numbers,
)
    requires
        seen(s, g, h, vals),
        grown(g.tied_scores(hidden, w, seq_len, vocab_size).0, h),
        h.rank(hidden) == 3,
        h.shape(hidden)[0] == 1,
        h.shape(hidden)[1] == seq_len,
        h.shape(w) == seq![vocab_size, h.shape(hidden)[2]],
    ensures
        h.shape(g.tied_scores(hidden, w, seq_len, vocab_size).1) == seq![seq_len, vocab_size],
        forall|i: int, v: int|
            #![trigger vals(g.tied_scores(hidden, w, seq_len, vocab_size).1)(at2(i, v))]
            0 <= i < seq_len && 0 <= v < vocab_size ==> rounded(
                total(h.shape(hidden)[2] as nat, |d: int| vals(hidden)(at3(0, i, d)) * vals(w)(at2(v, d))),
                h.sf(w) as nat,
                vals(g.tied_scores(hidden, w, seq_len, vocab_size).1)(at2(i, v)),
            ),
{
    reveal(Graph::tied_scores);
    broadcast use group_grown;

    reveal_strlit("bsd,vd->bsv");
    let eq = "bsd,vd->bsv"@;
    let two = seq![seq_len, vocab_size];
    let (g1, y) = g.einsum(eq, seq![hidden, w], true);
    let (g2, o) = g1.change_shape(y, two);
    assert(grown(g2, h) && grown(g1, h));
    lemma_step_einsum(s, g, eq, seq![hidden, w], true, h, vals);
    lemma_step_change_shape(s, g1, y, two, h, vals);
    let (sx, sw, out) = (seq!['b', 's', 'd'], seq!['v', 'd'], seq!['b', 's', 'v']);
    assert(eq =~= sx + seq![','] + sw + seq!['-', '>'] + out);
    let n = h.shape(hidden)[2] as nat;
    let dims = Map::<char, nat>::empty().insert('b', 1).insert('s', seq_len as nat).insert('d', n).insert(
        'v',
        vocab_size as nat,
    );
    let shapes = h.shapes(seq![hidden, w]);
    let ins = seq![sx, sw];
    assert(shapes[0] == h.shape(hidden) && shapes[1] == h.shape(w));
    assert(sized(ins, shapes, dims)) by {
        assert forall|u: int, j: int| 0 <= u < ins.len() && 0 <= j < ins[u].len() implies dims.contains_key(
            #[trigger] ins[u][j],
        ) && dims[ins[u][j]] == shapes[u][j] by {
            if u == 0 {
                assert(ins[u] == sx);
                assert(j == 0 || j == 1 || j == 2);
            } else {
                assert(ins[u] == sw);
                assert(j == 0 || j == 1);
            }
        }
    }
    assert(out[0] == 'b' && out[1] == 's' && out[2] == 'v');
    assert(out.contains('b') && out.contains('s') && out.contains('v') && !out.contains('d'));
    assert(sx[2] == 'd');
    assert(sx.contains('d'));
    lemma_spells_two(eq, sx, sw, out);
    assert(ins[0][0] == 'b' && ins[0][1] == 's' && ins[1][0] == 'v');
    assert(among(ins, out[0]) && among(ins, out[1]) && among(ins, out[2]));
    lemma_spelled_shape(eq, ins, out, shapes, dims);
    assert(h.shape(y) =~= seq![1, seq_len, vocab_size]);
    assert forall|i: int, v: int|
        #![trigger vals(o)(at2(i, v))]
        0 <= i < seq_len && 0 <= v < vocab_size implies rounded(
        total(n, |d: int| vals(hidden)(at3(0, i, d)) * vals(w)(at2(v, d))),
        h.sf(w) as nat,
        vals(o)(at2(i, v)),
    ) by {
        lemma_leading_one(seq_len, vocab_size, i, v);
        let idx = at3(0, i, v);
        assert(inside(h.shape(o), at2(i, v)));
        assert(inside(h.shape(y), idx));
        assert(vals(o)(at2(i, v)) == vals(y)(idx));
        let f = |d: int| vals(hidden)(at3(0, i, d)) * vals(w)(at2(v, d));
        lemma_assigned(out, idx);
        let at = assigned(out, idx);
        assert forall|d: int| 0 <= d < n implies #[trigger] f(d) == vals(hidden)(named(sx, at.insert('d', d)))
            * vals(w)(named(sw, at.insert('d', d))) by {
            assert(at[out[0]] == 0 && at[out[1]] == i && at[out[2]] == v);
            assert(named(sx, at.insert('d', d)) =~= at3(0, i, d));
            assert(named(sw, at.insert('d', d)) =~= at2(v, d));
        }
        lemma_entry_sum(h, vals, eq, hidden, w, h.sf(w) as nat, y, sx, sw, out, dims, idx, 'd', f);
    }
}

/// The score of a token at a position is the number at that entry of the matrix of scores.
pub proof fn lemma_score_entry(
    words: Seq<GoldilocksField>,
    seq_len: usize,
    vocab_size: usize,
    pos: int,
    v: int,
)
    requires
        0 <= pos < seq_len,
        0 <= v < vocab_size,
    ensures
        score(words, seq_len, pos, v) == signed_value(words[position(
            seq![seq_len, vocab_size],
            at2(pos, v),
        )]),
{
    lemma_matrix_position(seq_len, vocab_size, pos, v);
}

/// The best token is the first one that no other outscores: it exists once, and the number at its entry of
/// the matrix of scores is at least every other of its row, and above every one before it.
pub proof fn lemma_best_token(
    words: Seq<GoldilocksField>,
    seq_len: usize,
    vocab_size: usize,
    pos: int,
    r: int,
    v: int,
)
    requires
        0 <= pos < seq_len,
        0 <= v < vocab_size,
        is_argmax(words, seq_len, pos, vocab_size as nat, r),
    ensures
        0 <= r < vocab_size,
        ({
            let at_r = signed_value(words[position(seq![seq_len, vocab_size], at2(pos, r))]);
            let at_v = signed_value(words[position(seq![seq_len, vocab_size], at2(pos, v))]);
            &&& at_v <= at_r
            &&& v < r ==> at_v < at_r
            &&& is_argmax(words, seq_len, pos, vocab_size as nat, v) ==> v == r
        }),
{
    lemma_score_entry(words, seq_len, vocab_size, pos, r);
    lemma_score_entry(words, seq_len, vocab_size, pos, v);
    if is_argmax(words, seq_len, pos, vocab_size as nat, v) {
        assert(score(words, seq_len, pos, v) <= score(words, seq_len, pos, r));
        assert(score(words, seq_len, pos, r) <= score(words, seq_len, pos, v));
    }
}

} // verus!
