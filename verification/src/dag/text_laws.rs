//! What the graph of a generated text shows.
use vstd::arithmetic::power2::*;
use vstd::prelude::*;

use crate::dag::block::{Block, Op};
use crate::dag::equation::output_shape;
use crate::dag::graph::Graph;
use crate::dag::meaning::{
    aligned, assigned, at2, constant_held, does, einstein, inside, joined, lemma_does_sub, lemma_einstein_total, lemma_total_eq,
    lemma_total_single, named, named_product, never_negative, position, same_words, sized, spells, summed,
    sums_up, symbols, total, Numbers,
};
use crate::dag::oneshot::{lemma_one_hot_entry, one_hot, one_hot_words, selectable};
use crate::dag::spelling::{among, lemma_spelled_shape};
use crate::dag::types::EdgeId;
use crate::util::arith::{clog2, lemma_clog2, num_vars, padded, signed_value};
use crate::util::shape::joint_shape;

verus! {

/// The nodes that were added to graph `g`, but for the checks that numbers are not negative, do what their
/// blocks say, and the new constants are what they are.
pub open spec fn computes_on(g: Graph, h: Graph, vals: Numbers) -> bool {
    &&& forall|n: int|
        g.nodes.len() <= n < h.nodes.len() && (#[trigger] h.nodes[n]).kind != Block::Op(Op::NonNegative)
            ==> does(h, vals, n)
    &&& forall|e: EdgeId| g.values.len() <= e < h.values.len() ==> #[trigger] constant_held(h, vals, e)
}

/// All added checks hold, that numbers are not negative.
pub open spec fn checks_hold(g: Graph, h: Graph, vals: Numbers) -> bool {
    forall|n: int|
        g.nodes.len() <= n < h.nodes.len() && (#[trigger] h.nodes[n]).kind == Block::Op(Op::NonNegative)
            ==> never_negative(h, vals, h.nodes[n].inputs[0])
}

/// At every position no token scores more than the named one.
pub open spec fn all_best(
    vals: Numbers,
    logits: EdgeId,
    seq_len: usize,
    vocab_size: usize,
    tokens: Seq<usize>,
) -> bool {
    forall|i: int, v: int|
        #![trigger vals(logits)(at2(i, v))]
        0 <= i < seq_len && 0 <= v < vocab_size ==> vals(logits)(at2(i, v)) <= vals(logits)(
            at2(i, tokens[i] as int),
        )
}

/// Position of an entry of a matrix among its words.
pub proof fn lemma_matrix_position(rows: usize, cols: usize, i: int, v: int)
    ensures
        position(seq![rows, cols], at2(i, v)) == i + v * padded(rows as nat),
        num_vars(seq![rows, cols]) == clog2(rows as nat) + clog2(cols as nat),
        position(seq![rows], seq![i]) == i,
{
    let shape = seq![rows, cols];
    let idx = at2(i, v);
    reveal_with_fuel(position, 3);
    reveal_with_fuel(num_vars, 3);
    lemma2_to64();
    assert(idx.drop_last() =~= seq![i]);
    assert(seq![i].drop_last() =~= Seq::<int>::empty());
    assert(shape.take(1) =~= seq![rows]);
    assert(shape.take(0) =~= Seq::<usize>::empty());
    assert(seq![rows].take(0) =~= Seq::<usize>::empty());
    assert(seq![rows].drop_last() =~= Seq::<usize>::empty());
    assert(shape.drop_last() =~= seq![rows]);
    assert(i * 1 == i);
}

/// The entries of a selector: one at the named token, zero elsewhere.
pub proof fn lemma_selector_entry(len: usize, table_size: usize, tokens: Seq<usize>, i: int, v: int)
    requires
        selectable(len, table_size, tokens),
        0 <= i < len,
        0 <= v < table_size,
    ensures
        ({
            let t = one_hot(len, table_size, tokens);
            signed_value((t.data->0).word(position(t.shape, at2(i, v)))) == if v == tokens[i] {
                1int
            } else {
                0
            }
        }),
{
    let rows = padded(len as nat) as int;
    let cols = padded(table_size as nat) as int;
    lemma_matrix_position(len, table_size, i, v);
    lemma_clog2(len as nat);
    lemma_clog2(table_size as nat);
    lemma_one_hot_entry(len, table_size, tokens, i, v);
    lemma_pow2_adds(clog2(len as nat), clog2(table_size as nat));
    let words = one_hot_words(len, table_size, tokens);
    assert(0 <= i + v * rows < rows * cols) by (nonlinear_arith)
        requires
            0 <= i < rows,
            0 <= v < cols,
    ;
    assert(words.len() == rows * cols);
    assert(pow2(num_vars(seq![len, table_size])) == rows * cols);
}

/// The sum over the second symbol of the products of two matrices, entry by entry.
pub proof fn lemma_row_products(h: Graph, vals: Numbers, n: int, a: EdgeId, b: EdgeId, o: EdgeId, i: int)
    requires
        does(h, vals, n),
        h.nodes[n].kind matches Block::Einsum { equation, .. } && equation == "sv,sv->s"@,
        h.nodes[n].inputs == seq![a, b],
        h.nodes[n].outputs[0] == o,
        h.shape(a).len() == 2,
        h.shape(b) == h.shape(a),
        inside(h.shape(o), seq![i]),
    ensures
        vals(o)(seq![i]) == total(
            h.shape(a)[1] as nat,
            |v: int| vals(a)(at2(i, v)) * vals(b)(at2(i, v)),
        ),
{
    reveal_strlit("sv,sv->s");
    let node = h.nodes[n];
    let eq = "sv,sv->s"@;
    let sv = seq!['s', 'v'];
    let ins = seq![sv, sv];
    let out = seq!['s'];
    let (rows, cols) = (h.shape(a)[0] as nat, h.shape(a)[1] as nat);
    let dims = Map::<char, nat>::empty().insert('s', rows).insert('v', cols);
    reveal_with_fuel(joined, 3);
    assert(ins.drop_last() =~= seq![sv]);
    assert(joined(ins) =~= seq!['s', 'v', ',', 's', 'v']);
    assert(eq =~= joined(ins) + seq!['-', '>'] + out);
    assert(spells(eq, ins, out));
    let shapes = h.shapes(node.inputs);
    assert(shapes[0] == h.shape(a) && shapes[1] == h.shape(b));
    assert(sized(ins, shapes, dims)) by {
        assert forall|x: int, j: int| 0 <= x < ins.len() && 0 <= j < ins[x].len() implies dims.contains_key(
            #[trigger] ins[x][j],
        ) && dims[ins[x][j]] == shapes[x][j] by {
            assert(ins[x] == sv);
            assert(j == 0 || j == 1);
        }
    }
    assert(sums_up(h, vals, node, eq));
    let idx = seq![i];
    let over = summed(symbols(ins), out);
    let at = assigned(out, idx);
    assert(vals(node.outputs[0])(idx) == einstein(vals, node.inputs, ins, dims, over, at));
    assert(over =~= seq!['v']) by {
        reveal_with_fuel(symbols, 3);
        reveal_with_fuel(summed, 6);
        let s4 = seq!['s', 'v', 's', 'v'];
        assert(symbols(ins) =~= s4);
        let s3 = seq!['s', 'v', 's'];
        let s2 = seq!['s', 'v'];
        let s1 = seq!['s'];
        assert(s4.drop_last() =~= s3);
        assert(s3.drop_last() =~= s2);
        assert(s2.drop_last() =~= s1);
        assert(s1.drop_last() =~= Seq::<char>::empty());
        assert(out[0] == 's');
        assert(out.contains('s'));
        assert(!out.contains('v'));
        assert(summed(s1, out) =~= Seq::<char>::empty());
        assert(summed(s2, out) =~= seq!['v']);
        assert(seq!['v'][0] == 'v');
        assert(summed(s3, out) =~= seq!['v']);
        assert(summed(s4, out) =~= seq!['v']);
    }
    assert(at =~= Map::<char, int>::empty().insert('s', i)) by {
        reveal_with_fuel(assigned, 2);
        assert(out.drop_last() =~= Seq::<char>::empty());
    }
    let f = |v: int| einstein(vals, node.inputs, ins, dims, over.drop_last(), at.insert('v', v));
    let g = |v: int| vals(a)(at2(i, v)) * vals(b)(at2(i, v));
    assert(over.last() == 'v');
    assert(over.drop_last() =~= Seq::<char>::empty());
    lemma_einstein_total(vals, node.inputs, ins, dims, over, at, cols, f);
    assert(einstein(vals, node.inputs, ins, dims, over, at) == total(cols, f));
    assert forall|v: int| 0 <= v < cols implies #[trigger] f(v) == g(v) by {
        let w = at.insert('v', v);
        reveal_with_fuel(einstein, 2);
        reveal_with_fuel(named_product, 3);
        assert(named(sv, w) =~= at2(i, v));
        assert(node.inputs[0] == a && node.inputs[1] == b);
        assert(ins[0] == sv && ins[1] == sv);
        let (p, q) = (vals(a)(at2(i, v)), vals(b)(at2(i, v)));
        assert(named_product(vals, node.inputs, ins, w, 2) == 1 * p * q);
    }
    lemma_total_eq(cols, f, g);
}

/// The check that comes with a text holds exactly where every named token is a best one of its row: in every
/// run of the graph whose other nodes do what their blocks say, the checked numbers are not negative if and
/// only if at every position no token scores more than the named one.
pub proof fn lemma_argmax(
    g: Graph,
    logits: EdgeId,
    seq_len: usize,
    vocab_size: usize,
    tokens: Seq<usize>,
    vals: Numbers,
)
    requires
        logits < g.values.len(),
        g.values.len() + 5 <= usize::MAX,
        g.shape(logits) == seq![seq_len, vocab_size],
        selectable(seq_len, vocab_size, tokens),
        g.argmax(logits, seq_len, vocab_size, tokens).0.ok,
        computes_on(g, g.argmax(logits, seq_len, vocab_size, tokens).0, vals),
    ensures
        checks_hold(g, g.argmax(logits, seq_len, vocab_size, tokens).0, vals) <==> all_best(
            vals,
            logits,
            seq_len,
            vocab_size,
            tokens,
        ),
{
    reveal(Graph::argmax);
    reveal(Graph::param);
    reveal(Graph::einsum);
    reveal(Graph::einsum_raw);
    reveal(Graph::change_shape);
    reveal(Graph::pointwise);
    reveal(Graph::nonneg);
    let (h, s) = g.argmax(logits, seq_len, vocab_size, tokens);
    let n = g.nodes.len() as int;
    let m = g.values.len() as int;
    let raw = (m + 1) as usize;
    let chosen = (m + 2) as usize;
    let diffs = (m + 3) as usize;
    let two = seq![seq_len, vocab_size];
    let column = seq![seq_len, 1usize];
    assert(s == m);
    assert(h.nodes.len() == n + 4);
    assert(h.values[m] == one_hot(seq_len, vocab_size, tokens));
    assert(h.shape(s) == two && h.shape(logits) == two);
    assert(h.nodes[n].kind matches Block::Einsum { equation, .. } && equation == "sv,sv->s"@);
    assert(h.nodes[n].inputs =~= seq![logits, s]);
    assert(h.nodes[n].outputs[0] == raw);
    assert(h.nodes[n + 1].kind == Block::ChangeShape { target_shape: column });
    assert(h.nodes[n + 1].inputs =~= seq![raw]);
    assert(h.nodes[n + 1].outputs[0] == chosen);
    assert(h.nodes[n + 2].kind == Block::Op(Op::Sub));
    assert(h.nodes[n + 2].inputs =~= seq![chosen, logits]);
    assert(h.nodes[n + 2].outputs[0] == diffs);
    assert(h.nodes[n + 3].kind == Block::Op(Op::NonNegative));
    assert(h.nodes[n + 3].inputs =~= seq![diffs]);
    lemma_row_shape(seq_len, vocab_size);
    assert(h.shape(raw) =~= seq![seq_len]) by {
        let gr = g.require(selectable(seq_len, vocab_size, tokens)).param(
            one_hot(seq_len, vocab_size, tokens),
        ).0;
        let shapes = gr.shapes(seq![logits, s]);
        assert(shapes =~= seq![two, two]);
    }
    assert(h.shape(chosen) == column);
    assert(joint_shape(column, two) =~= two);
    assert(h.shape(diffs) == two);
    assert(does(h, vals, n) && does(h, vals, n + 1) && does(h, vals, n + 2));
    assert(constant_held(h, vals, s));
    assert forall|i: int, v: int| 0 <= i < seq_len && 0 <= v < vocab_size implies #[trigger] vals(diffs)(
        at2(i, v),
    ) == vals(logits)(at2(i, tokens[i] as int)) - vals(logits)(at2(i, v)) by {
        let idx = at2(i, v);
        let at = tokens[i] as int;
        assert(tokens[i] < vocab_size);
        assert(inside(two, idx));
        lemma_does_sub(h, vals, n + 2, chosen, logits, diffs, idx);
        assert(aligned(column, idx) =~= at2(i, 0int));
        assert(aligned(two, idx) =~= idx) by {
            assert(inside(two, idx));
            crate::dag::meaning::lemma_aligned_same(two, idx);
        }
        assert(vals(chosen)(at2(i, 0int)) == vals(raw)(seq![i])) by {
            let node = h.nodes[n + 1];
            assert(node.inputs[0] == raw);
            assert(same_words(h, vals, raw, chosen));
            assert(inside(column, at2(i, 0int)));
            assert(inside(seq![seq_len], seq![i]));
            lemma_matrix_position(seq_len, 1, i, 0);
            assert(inside(h.shape(chosen), at2(i, 0int)));
            assert(inside(h.shape(raw), seq![i]));
        }
        lemma_row_products(h, vals, n, logits, s, raw, i);
        let f = |w: int| vals(logits)(at2(i, w)) * vals(s)(at2(i, w));
        assert forall|w: int| 0 <= w < vocab_size implies #[trigger] f(w) == if w == at {
            vals(logits)(at2(i, at))
        } else {
            0
        } by {
            let iw = at2(i, w);
            assert(inside(two, iw));
            lemma_selector_entry(seq_len, vocab_size, tokens, i, w);
            let (p, q) = (vals(logits)(iw), vals(s)(iw));
            assert(q == if w == at { 1int } else { 0 });
            assert(p * q == if w == at { p } else { 0 }) by (nonlinear_arith)
                requires
                    q == if w == at { 1int } else { 0 },
            ;
        }
        lemma_total_single(vocab_size as nat, at, f);
    }
    if checks_hold(g, h, vals) {
        assert(never_negative(h, vals, h.nodes[n + 3].inputs[0]));
        assert forall|i: int, v: int|
            #![trigger vals(logits)(at2(i, v))]
            0 <= i < seq_len && 0 <= v < vocab_size implies vals(logits)(at2(i, v)) <= vals(logits)(
            at2(i, tokens[i] as int),
        ) by {
            assert(inside(h.shape(diffs), at2(i, v)));
            assert(vals(diffs)(at2(i, v)) >= 0);
        }
    }
    if all_best(vals, logits, seq_len, vocab_size, tokens) {
        assert(never_negative(h, vals, diffs)) by {
            assert forall|idx: Seq<int>| #[trigger] inside(h.shape(diffs), idx) implies vals(diffs)(idx) >= 0 by {
                let (i, v) = (idx[0], idx[1]);
                assert(idx =~= at2(i, v));
                assert(vals(logits)(at2(i, v)) <= vals(logits)(at2(i, tokens[i] as int)));
            }
        }
        assert forall|k: int|
            n <= k < h.nodes.len() && (#[trigger] h.nodes[k]).kind == Block::Op(Op::NonNegative) implies never_negative(
            h,
            vals,
            h.nodes[k].inputs[0],
        ) by {
            assert(k == n + 3);
        }
    }
}

/// The shape of the sums of the rows of a matrix.
proof fn lemma_row_shape(rows: usize, cols: usize)
    ensures
        output_shape("sv,sv->s"@, seq![seq![rows, cols], seq![rows, cols]]) == seq![rows],
{
    reveal_strlit("sv,sv->s");
    let sv = seq!['s', 'v'];
    let ins = seq![sv, sv];
    let out = seq!['s'];
    let two = seq![rows, cols];
    let shapes = seq![two, two];
    let eq = "sv,sv->s"@;
    let dims = Map::<char, nat>::empty().insert('s', rows as nat).insert('v', cols as nat);
    reveal_with_fuel(joined, 3);
    assert(ins.drop_last() =~= seq![sv]);
    assert(joined(ins) =~= seq!['s', 'v', ',', 's', 'v']);
    assert(eq =~= joined(ins) + seq!['-', '>'] + out);
    assert(sized(ins, shapes, dims)) by {
        assert forall|x: int, j: int| 0 <= x < ins.len() && 0 <= j < ins[x].len() implies dims.contains_key(
            #[trigger] ins[x][j],
        ) && dims[ins[x][j]] == shapes[x][j] by {
            assert(ins[x] == sv && shapes[x] == two);
            assert(j == 0 || j == 1);
        }
    }
    assert(ins[0][0] == out[0]);
    assert(among(ins, out[0]));
    lemma_spelled_shape(eq, ins, out, shapes, dims);
    assert(output_shape(eq, shapes) =~= seq![rows]);
}

} // verus!
