//! How equations are read.
use vstd::prelude::*;

use crate::dag::equation::{
    arrow_at, bind, bindings, is_space, left_side, next_arrow, num_inputs, output_shape, right_side,
    size_of_symbol, split_commas, trim,
};
use crate::dag::meaning::{joined, sized, spells};

verus! {

/// A symbol that is no punctuation.
pub open spec fn plain_symbol(c: char) -> bool {
    c != ',' && c != '-' && c != '>' && !is_space(c)
}

/// All symbols are plain.
pub open spec fn plain_symbols(s: Seq<char>) -> bool {
    forall|k: int| 0 <= k < s.len() ==> plain_symbol(#[trigger] s[k])
}

proof fn lemma_arrow_from(eq: Seq<char>, from: int, at: int)
    requires
        0 <= from <= at <= eq.len(),
        forall|k: int| from <= k < at ==> #[trigger] eq[k] != '-',
        at == eq.len() || arrow_at(eq, at),
    ensures
        next_arrow(eq, from) == at,
    decreases at - from,
{
    if from < at {
        assert(eq[from] != '-');
        lemma_arrow_from(eq, from + 1, at);
    }
}

proof fn lemma_split_append(t: Seq<char>, b: Seq<char>)
    requires
        forall|k: int| 0 <= k < b.len() ==> #[trigger] b[k] != ',',
    ensures
        split_commas(t).len() > 0,
        split_commas(t + b) == split_commas(t).update(
            split_commas(t).len() - 1,
            split_commas(t).last() + b,
        ),
    decreases b.len(),
{
    lemma_split_len(t);
    let r = split_commas(t);
    if b.len() == 0 {
        assert(t + b =~= t);
        assert(r.last() + b =~= r.last());
        assert(r.update(r.len() - 1, r.last() + b) =~= r);
    } else {
        let c = b.drop_last();
        assert forall|k: int| 0 <= k < c.len() implies #[trigger] c[k] != ',' by {
            assert(c[k] == b[k]);
        }
        lemma_split_append(t, c);
        assert((t + b).drop_last() =~= t + c);
        assert((t + b).last() == b.last());
        assert(b[b.len() - 1] != ',');
        assert((r.last() + c).push(b.last()) =~= r.last() + b);
        assert(split_commas(t + b) =~= r.update(r.len() - 1, r.last() + b));
    }
}

proof fn lemma_split_len(t: Seq<char>)
    ensures
        split_commas(t).len() > 0,
    decreases t.len(),
{
    if t.len() > 0 {
        lemma_split_len(t.drop_last());
    }
}

/// The pieces of a list with commas are the pieces.
proof fn lemma_split_joined(ins: Seq<Seq<char>>)
    requires
        ins.len() > 0,
        forall|i: int| 0 <= i < ins.len() ==> plain_symbols(#[trigger] ins[i]),
    ensures
        split_commas(joined(ins)) == ins,
        forall|k: int| 0 <= k < joined(ins).len() ==> #[trigger] joined(ins)[k] != '-',
    decreases ins.len(),
{
    let b = ins.last();
    assert(plain_symbols(ins[ins.len() - 1]));
    assert forall|k: int| 0 <= k < b.len() implies #[trigger] b[k] != ',' && b[k] != '-' by {
        assert(plain_symbol(b[k]));
    }
    if ins.len() == 1 {
        let e = Seq::<char>::empty();
        lemma_split_append(e, b);
        assert(e + b =~= b);
        assert(split_commas(e) =~= seq![e]);
        assert(e + b =~= b);
        assert(split_commas(b) =~= ins);
    } else {
        let head = ins.drop_last();
        assert forall|i: int| 0 <= i < head.len() implies plain_symbols(#[trigger] head[i]) by {
            assert(head[i] == ins[i]);
        }
        lemma_split_joined(head);
        let t = joined(head).push(',');
        assert(t.drop_last() =~= joined(head));
        assert(split_commas(t) == head.push(Seq::empty()));
        lemma_split_append(t, b);
        assert(Seq::<char>::empty() + b =~= b);
        assert(split_commas(t + b) =~= ins);
        let j = joined(ins);
        assert forall|k: int| 0 <= k < j.len() implies #[trigger] j[k] != '-' by {
            if k < joined(head).len() {
                assert(j[k] == joined(head)[k]);
            } else if k > joined(head).len() {
                assert(j[k] == b[k - t.len()]);
            }
        }
    }
}

proof fn lemma_trim_plain(s: Seq<char>)
    requires
        plain_symbols(s),
    ensures
        trim(s) == s,
{
    if s.len() > 0 {
        assert(plain_symbol(s[0]));
        assert(plain_symbol(s[s.len() - 1]));
    }
}

proof fn lemma_bindings(
    eq: Seq<char>,
    ins: Seq<Seq<char>>,
    shapes: Seq<Seq<usize>>,
    dims: Map<char, nat>,
    k: nat,
)
    requires
        k <= ins.len(),
        split_commas(left_side(eq)) == ins,
        forall|i: int| 0 <= i < ins.len() ==> plain_symbols(#[trigger] ins[i]),
        sized(ins, shapes, dims),
    ensures
        forall|x: int|
            0 <= x < bindings(eq, shapes, k).len() ==> dims.contains_key((#[trigger] bindings(eq, shapes, k)[x]).0)
                && dims[bindings(eq, shapes, k)[x].0] == bindings(eq, shapes, k)[x].1,
        forall|i: int, j: int|
            0 <= i < k && 0 <= j < ins[i].len() ==> binds(bindings(eq, shapes, k), #[trigger] ins[i][j]),
    decreases k,
{
    if k > 0 {
        lemma_bindings(eq, ins, shapes, dims, (k - 1) as nat);
        assert(plain_symbols(ins[k - 1]));
        lemma_trim_plain(ins[k - 1]);
        let rest = bindings(eq, shapes, (k - 1) as nat);
        let more = bind(ins[k - 1], shapes[k - 1]);
        let all = bindings(eq, shapes, k);
        assert(all == rest + more);
        assert forall|x: int| 0 <= x < all.len() implies dims.contains_key((#[trigger] all[x]).0)
            && dims[all[x].0] == all[x].1 by {
            if x < rest.len() {
                assert(all[x] == rest[x]);
            } else {
                let j = x - rest.len();
                assert(all[x] == more[j]);
                assert(ins[k - 1][j] == all[x].0);
            }
        }
        assert forall|i: int, j: int| 0 <= i < k && 0 <= j < ins[i].len() implies binds(
            all,
            #[trigger] ins[i][j],
        ) by {
            if i < k - 1 {
                assert(binds(rest, ins[i][j]));
                let x = choose|x: int| 0 <= x < rest.len() && (#[trigger] rest[x]).0 == ins[i][j];
                assert(all[x] == rest[x]);
            } else {
                assert(all[rest.len() + j] == more[j]);
            }
        }
    }
}

/// The symbol is one of those of the inputs.
pub open spec fn among(ins: Seq<Seq<char>>, c: char) -> bool {
    exists|i: int, j: int| 0 <= i < ins.len() && 0 <= j < ins[i].len() && #[trigger] ins[i][j] == c
}

/// The symbol is bound.
pub open spec fn binds(b: Seq<(char, usize)>, c: char) -> bool {
    exists|x: int| 0 <= x < b.len() && (#[trigger] b[x]).0 == c
}

proof fn lemma_size_of(b: Seq<(char, usize)>, dims: Map<char, nat>, c: char)
    requires
        binds(b, c),
        forall|x: int|
            0 <= x < b.len() ==> dims.contains_key((#[trigger] b[x]).0) && dims[b[x].0] == b[x].1,
    ensures
        size_of_symbol(b, c) is Some,
        size_of_symbol(b, c)->0 == dims[c],
    decreases b.len(),
{
    let x = choose|x: int| 0 <= x < b.len() && (#[trigger] b[x]).0 == c;
    let last = b[b.len() - 1];
    assert(last == b.last());
    if b.last().0 != c {
        let t = b.drop_last();
        assert(t[x] == b[x]);
        assert forall|y: int| 0 <= y < t.len() implies dims.contains_key((#[trigger] t[y]).0) && dims[t[y].0]
            == t[y].1 by {
            assert(t[y] == b[y]);
        }
        assert(binds(t, c));
        lemma_size_of(t, dims, c);
    }
}

/// An equation gives the output the dimensions of its symbols: where the inputs are named by `ins` and the
/// output by `out`, and the symbols stand for `dims`, the output has the dimensions of its symbols.
pub proof fn lemma_spelled_shape(
    eq: Seq<char>,
    ins: Seq<Seq<char>>,
    out: Seq<char>,
    shapes: Seq<Seq<usize>>,
    dims: Map<char, nat>,
)
    requires
        ins.len() > 0,
        spells(eq, ins, out),
        forall|i: int| 0 <= i < ins.len() ==> plain_symbols(#[trigger] ins[i]),
        plain_symbols(out),
        sized(ins, shapes, dims),
        forall|k: int|
            0 <= k < out.len() ==> among(ins, #[trigger] out[k]),
    ensures
        output_shape(eq, shapes).len() == out.len(),
        forall|k: int| 0 <= k < out.len() ==> #[trigger] output_shape(eq, shapes)[k] == dims[out[k]],
{
    let j = joined(ins);
    lemma_split_joined(ins);
    let n = j.len() as int;
    assert forall|k: int| 0 <= k < n implies #[trigger] eq[k] != '-' by {
        assert(eq[k] == j[k]);
    }
    assert(eq[n] == '-' && eq[n + 1] == '>');
    lemma_arrow_from(eq, 0, n);
    assert forall|k: int| n + 2 <= k < eq.len() implies #[trigger] eq[k] != '-' by {
        assert(eq[k] == out[k - n - 2]);
        assert(plain_symbol(out[k - n - 2]));
    }
    lemma_arrow_from(eq, n + 2, eq.len() as int);
    assert(left_side(eq) =~= j);
    assert(right_side(eq) =~= out);
    let b = bindings(eq, shapes, num_inputs(eq));
    lemma_bindings(eq, ins, shapes, dims, ins.len());
    assert forall|k: int| 0 <= k < out.len() implies #[trigger] output_shape(eq, shapes)[k] == dims[out[k]] by {
        assert(among(ins, out[k]));
        let (x, y) = choose|x: int, y: int|
            0 <= x < ins.len() && 0 <= y < ins[x].len() && #[trigger] ins[x][y] == out[k];
        assert(binds(b, ins[x][y]));
        lemma_size_of(b, dims, out[k]);
    }
}

} // verus!
