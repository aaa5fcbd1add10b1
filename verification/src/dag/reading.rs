//! Readings of Einstein summations, entry by entry.
use vstd::prelude::*;

use crate::dag::equation::output_shape;
use crate::dag::graph::Graph;
use crate::dag::growth::{contracted, rounded};
use crate::dag::meaning::{
    assigned, at2, at3, at4, einstein, inside, joined, lemma_einstein_total, lemma_total_eq, named, named_product,
    sized, spells, summed, symbols, total, Numbers,
};
use crate::dag::spelling::{among, lemma_spelled_shape};
use crate::dag::types::EdgeId;

verus! {

/// No symbol occurs twice.
pub open spec fn distinct(s: Seq<char>) -> bool {
    forall|i: int, j: int| 0 <= i < j < s.len() ==> #[trigger] s[i] != #[trigger] s[j]
}

/// Each symbol of the output has the number at its place.
pub proof fn lemma_assigned(out: Seq<char>, idx: Seq<int>)
    requires
        distinct(out),
        idx.len() == out.len(),
    ensures
        forall|k: int|
            0 <= k < out.len() ==> assigned(out, idx).contains_key(#[trigger] out[k]) && assigned(out, idx)[out[k]]
                == idx[k],
    decreases out.len(),
{
    if out.len() > 0 {
        let (o, i) = (out.drop_last(), idx.drop_last());
        lemma_assigned(o, i);
        let m = assigned(o, i);
        assert(assigned(out, idx) == m.insert(out.last(), idx.last()));
        assert forall|k: int| 0 <= k < out.len() implies assigned(out, idx).contains_key(#[trigger] out[k])
            && assigned(out, idx)[out[k]] == idx[k] by {
            if k < out.len() - 1 {
                assert(o[k] == out[k]);
                assert(out[k] != out[out.len() - 1]);
            }
        }
    }
}

/// Nothing is summed where the output has all symbols.
pub proof fn lemma_summed_none(s: Seq<char>, out: Seq<char>)
    requires
        forall|k: int| 0 <= k < s.len() ==> out.contains(#[trigger] s[k]),
    ensures
        summed(s, out) == Seq::<char>::empty(),
    decreases s.len(),
{
    if s.len() > 0 {
        assert forall|k: int| 0 <= k < s.len() - 1 implies out.contains(#[trigger] s.drop_last()[k]) by {
            assert(out.contains(s[k]));
        }
        lemma_summed_none(s.drop_last(), out);
        assert(out.contains(s[s.len() - 1]));
    }
}

/// One symbol is summed over where the output has all others.
pub proof fn lemma_summed_one(s: Seq<char>, out: Seq<char>, c: char)
    requires
        forall|k: int| 0 <= k < s.len() ==> (#[trigger] s[k]) == c || out.contains(s[k]),
        !out.contains(c),
    ensures
        summed(s, out) == if s.contains(c) {
            seq![c]
        } else {
            Seq::empty()
        },
    decreases s.len(),
{
    if s.len() > 0 {
        let t = s.drop_last();
        assert forall|k: int| 0 <= k < t.len() implies (#[trigger] t[k]) == c || out.contains(t[k]) by {
            assert(t[k] == s[k]);
        }
        lemma_summed_one(t, out, c);
        let l = s[s.len() - 1];
        assert(s.last() == l);
        if t.contains(c) {
            let k = choose|k: int| 0 <= k < t.len() && t[k] == c;
            assert(s[k] == c);
            assert(seq![c][0] == c);
        }
        if l == c {
            assert(s.contains(c));
            assert(Seq::<char>::empty().push(c) =~= seq![c]);
        } else {
            assert(out.contains(l));
            if s.contains(c) {
                let k = choose|k: int| 0 <= k < s.len() && s[k] == c;
                assert(t[k] == c);
            }
        }
    } else {
        assert(!s.contains(c));
    }
}

/// An equation of two inputs.
pub proof fn lemma_spells_two(eq: Seq<char>, x: Seq<char>, y: Seq<char>, out: Seq<char>)
    requires
        eq == x + seq![','] + y + seq!['-', '>'] + out,
    ensures
        spells(eq, seq![x, y], out),
        symbols(seq![x, y]) == x + y,
{
    let ins = seq![x, y];
    reveal_with_fuel(joined, 3);
    reveal_with_fuel(symbols, 3);
    assert(ins.drop_last() =~= seq![x]);
    assert(seq![x].drop_last() =~= Seq::<Seq<char>>::empty());
    assert(joined(ins) =~= x + seq![','] + y);
    assert(symbols(ins) =~= x + y);
}

/// An entry of a product of two tensors in which nothing is summed.
pub proof fn lemma_entry_product(
    h: Graph,
    vals: Numbers,
    eq: Seq<char>,
    a: EdgeId,
    b: EdgeId,
    k: nat,
    o: EdgeId,
    x: Seq<char>,
    y: Seq<char>,
    out: Seq<char>,
    dims: Map<char, nat>,
    idx: Seq<int>,
)
    requires
        contracted(h, vals, eq, seq![a, b], k, o),
        eq == x + seq![','] + y + seq!['-', '>'] + out,
        sized(seq![x, y], h.shapes(seq![a, b]), dims),
        inside(h.shape(o), idx),
        forall|j: int| 0 <= j < x.len() ==> out.contains(#[trigger] x[j]),
        forall|j: int| 0 <= j < y.len() ==> out.contains(#[trigger] y[j]),
    ensures
        rounded(
            vals(a)(named(x, assigned(out, idx))) * vals(b)(named(y, assigned(out, idx))),
            k,
            vals(o)(idx),
        ),
{
    let ins = seq![x, y];
    let inputs = seq![a, b];
    lemma_spells_two(eq, x, y, out);
    assert forall|j: int| 0 <= j < (x + y).len() implies out.contains(#[trigger] (x + y)[j]) by {
        if j < x.len() {
            assert((x + y)[j] == x[j]);
        } else {
            assert((x + y)[j] == y[j - x.len()]);
        }
    }
    lemma_summed_none(x + y, out);
    let at = assigned(out, idx);
    assert(rounded(
        einstein(vals, inputs, ins, dims, summed(symbols(ins), out), at),
        k,
        vals(o)(idx),
    ));
    reveal_with_fuel(einstein, 2);
    reveal_with_fuel(named_product, 3);
    assert(inputs[0] == a && inputs[1] == b && ins[0] == x && ins[1] == y);
    let (p, q) = (vals(a)(named(x, at)), vals(b)(named(y, at)));
    assert(named_product(vals, inputs, ins, at, 2) == 1 * p * q);
    assert(1 * p * q == p * q) by (nonlinear_arith);
}

/// An entry of a product of two tensors in which one symbol is summed.
pub proof fn lemma_entry_sum(
    h: Graph,
    vals: Numbers,
    eq: Seq<char>,
    a: EdgeId,
    b: EdgeId,
    k: nat,
    o: EdgeId,
    x: Seq<char>,
    y: Seq<char>,
    out: Seq<char>,
    dims: Map<char, nat>,
    idx: Seq<int>,
    c: char,
    f: spec_fn(int) -> int,
)
    requires
        contracted(h, vals, eq, seq![a, b], k, o),
        eq == x + seq![','] + y + seq!['-', '>'] + out,
        sized(seq![x, y], h.shapes(seq![a, b]), dims),
        inside(h.shape(o), idx),
        !out.contains(c),
        x.contains(c),
        forall|j: int| 0 <= j < x.len() ==> (#[trigger] x[j]) == c || out.contains(x[j]),
        forall|j: int| 0 <= j < y.len() ==> (#[trigger] y[j]) == c || out.contains(y[j]),
        forall|v: int|
            0 <= v < dims[c] ==> #[trigger] f(v) == vals(a)(named(
                x,
                assigned(out, idx).insert(c, v),
            )) * vals(b)(
                named(y, assigned(out, idx).insert(c, v)),
            ),
    ensures
        rounded(total(dims[c], f), k, vals(o)(idx)),
{
    let ins = seq![x, y];
    let inputs = seq![a, b];
    lemma_spells_two(eq, x, y, out);
    let xy = x + y;
    assert forall|j: int| 0 <= j < xy.len() implies (#[trigger] xy[j]) == c || out.contains(xy[j]) by {
        if j < x.len() {
            assert(xy[j] == x[j]);
        } else {
            assert(xy[j] == y[j - x.len()]);
        }
    }
    assert(xy.contains(c)) by {
        let j = choose|j: int| 0 <= j < x.len() && x[j] == c;
        assert(xy[j] == c);
    }
    lemma_summed_one(xy, out, c);
    let at = assigned(out, idx);
    let over = summed(symbols(ins), out);
    assert(over == seq![c]);
    assert(over.last() == c && over.drop_last() =~= Seq::<char>::empty());
    assert(rounded(einstein(vals, inputs, ins, dims, over, at), k, vals(o)(idx)));
    let e = |v: int| einstein(vals, inputs, ins, dims, over.drop_last(), at.insert(c, v));
    lemma_einstein_total(vals, inputs, ins, dims, over, at, dims[c], e);
    assert forall|v: int| 0 <= v < dims[c] implies #[trigger] e(v) == f(v) by {
        let w = at.insert(c, v);
        reveal_with_fuel(einstein, 2);
        reveal_with_fuel(named_product, 3);
        assert(inputs[0] == a && inputs[1] == b && ins[0] == x && ins[1] == y);
        let (p, q) = (vals(a)(named(x, w)), vals(b)(named(y, w)));
        assert(named_product(vals, inputs, ins, w, 2) == 1 * p * q);
        assert(1 * p * q == p * q) by (nonlinear_arith);
    }
    lemma_total_eq(dims[c], e, f);
}

/// Every row of `o` is a row of `x` times the matrix `w`.
pub open spec fn projected(h: Graph, vals: Numbers, x: EdgeId, w: EdgeId, k: nat, o: EdgeId) -> bool {
    forall|b: int, s: int, j: int|
        #![trigger vals(o)(at3(b, s, j))]
        inside(h.shape(o), at3(b, s, j)) ==> rounded(
            total(h.shape(x)[2] as nat, |i: int| vals(x)(at3(b, s, i)) * vals(w)(at2(i, j))),
            k,
            vals(o)(at3(b, s, j)),
        )
}

/// The equation `bsi,ij->bsj` multiplies the rows of a tensor with a matrix.
pub proof fn lemma_projected(h: Graph, vals: Numbers, x: EdgeId, w: EdgeId, k: nat, o: EdgeId)
    requires
        contracted(h, vals, "bsi,ij->bsj"@, seq![x, w], k, o),
        h.rank(x) == 3,
        h.rank(w) == 2,
        h.shape(w)[0] == h.shape(x)[2],
    ensures
        projected(h, vals, x, w, k, o),
        output_shape("bsi,ij->bsj"@, h.shapes(seq![x, w])) == seq![
            h.shape(x)[0],
            h.shape(x)[1],
            h.shape(w)[1],
        ],
{
    reveal_strlit("bsi,ij->bsj");
    let (sx, sw, out) = (seq!['b', 's', 'i'], seq!['i', 'j'], seq!['b', 's', 'j']);
    let eq = "bsi,ij->bsj"@;
    assert(eq =~= sx + seq![','] + sw + seq!['-', '>'] + out);
    let n = h.shape(x)[2] as nat;
    let dims = Map::<char, nat>::empty().insert('b', h.shape(x)[0] as nat).insert('s', h.shape(x)[1] as nat).insert(
        'i',
        n,
    ).insert('j', h.shape(w)[1] as nat);
    let shapes = h.shapes(seq![x, w]);
    let ins = seq![sx, sw];
    assert(shapes[0] == h.shape(x) && shapes[1] == h.shape(w));
    assert(sized(ins, shapes, dims)) by {
        assert forall|u: int, j: int| 0 <= u < ins.len() && 0 <= j < ins[u].len() implies dims.contains_key(
            #[trigger] ins[u][j],
        ) && dims[ins[u][j]] == shapes[u][j] by {
            if u == 0 {
                assert(ins[u] == sx);
                assert(j == 0 || j == 1 || j == 2);
            } else {
                assert(ins[u] == sw);
                assert(j == 0 || j == 1);
            }
        }
    }
    assert(out[0] == 'b' && out[1] == 's' && out[2] == 'j');
    assert(out.contains('b') && out.contains('s') && out.contains('j') && !out.contains('i'));
    assert(sx[2] == 'i');
    assert(sx.contains('i'));
    lemma_spells_two(eq, sx, sw, out);
    assert(ins[0][0] == 'b' && ins[0][1] == 's' && ins[1][1] == 'j');
    assert(among(ins, out[0]) && among(ins, out[1]) && among(ins, out[2]));
    lemma_spelled_shape(eq, ins, out, shapes, dims);
    assert(output_shape(eq, shapes) =~= seq![h.shape(x)[0], h.shape(x)[1], h.shape(w)[1]]);
    assert forall|b: int, s: int, j: int|
        #![trigger vals(o)(at3(b, s, j))]
        inside(h.shape(o), at3(b, s, j)) implies rounded(
        total(n, |i: int| vals(x)(at3(b, s, i)) * vals(w)(at2(i, j))),
        k,
        vals(o)(at3(b, s, j)),
    ) by {
        let idx = at3(b, s, j);
        let f = |i: int| vals(x)(at3(b, s, i)) * vals(w)(at2(i, j));
        lemma_assigned(out, idx);
        let at = assigned(out, idx);
        assert forall|v: int| 0 <= v < n implies #[trigger] f(v) == vals(x)(named(sx, at.insert('i', v))) * vals(w)(
            named(sw, at.insert('i', v)),
        ) by {
            assert(at[out[0]] == b && at[out[1]] == s && at[out[2]] == j);
            assert(named(sx, at.insert('i', v)) =~= at3(b, s, v));
            assert(named(sw, at.insert('i', v)) =~= at2(v, j));
        }
        lemma_entry_sum(h, vals, eq, x, w, k, o, sx, sw, out, dims, idx, 'i', f);
    }
}

/// The entries of `o` are the products of those of `x` and `y`.
pub open spec fn entrywise(h: Graph, vals: Numbers, x: EdgeId, y: EdgeId, k: nat, o: EdgeId) -> bool {
    forall|b: int, s: int, i: int|
        #![trigger vals(o)(at3(b, s, i))]
        inside(h.shape(o), at3(b, s, i)) ==> rounded(
            vals(x)(at3(b, s, i)) * vals(y)(at3(b, s, i)),
            k,
            vals(o)(at3(b, s, i)),
        )
}

/// The equation `bsi,bsi->bsi` multiplies entry by entry.
pub proof fn lemma_entrywise(h: Graph, vals: Numbers, x: EdgeId, y: EdgeId, k: nat, o: EdgeId)
    requires
        contracted(h, vals, "bsi,bsi->bsi"@, seq![x, y], k, o),
        h.rank(x) == 3,
        h.shape(y) == h.shape(x),
    ensures
        entrywise(h, vals, x, y, k, o),
        output_shape("bsi,bsi->bsi"@, h.shapes(seq![x, y])) == h.shape(x),
{
    reveal_strlit("bsi,bsi->bsi");
    let t = seq!['b', 's', 'i'];
    let eq = "bsi,bsi->bsi"@;
    assert(eq =~= t + seq![','] + t + seq!['-', '>'] + t);
    let dims = Map::<char, nat>::empty().insert('b', h.shape(x)[0] as nat).insert('s', h.shape(x)[1] as nat).insert(
        'i',
        h.shape(x)[2] as nat,
    );
    let shapes = h.shapes(seq![x, y]);
    let ins = seq![t, t];
    assert(shapes[0] == h.shape(x) && shapes[1] == h.shape(x));
    assert(sized(ins, shapes, dims)) by {
        assert forall|u: int, j: int| 0 <= u < ins.len() && 0 <= j < ins[u].len() implies dims.contains_key(
            #[trigger] ins[u][j],
        ) && dims[ins[u][j]] == shapes[u][j] by {
            assert(ins[u] == t);
            assert(j == 0 || j == 1 || j == 2);
        }
    }
    lemma_spells_two(eq, t, t, t);
    assert(ins[0][0] == t[0] && ins[0][1] == t[1] && ins[0][2] == t[2]);
    assert(among(ins, t[0]) && among(ins, t[1]) && among(ins, t[2]));
    lemma_spelled_shape(eq, ins, t, shapes, dims);
    assert(output_shape(eq, shapes) =~= h.shape(x));
    assert forall|b: int, s: int, i: int|
        #![trigger vals(o)(at3(b, s, i))]
        inside(h.shape(o), at3(b, s, i)) implies rounded(
        vals(x)(at3(b, s, i)) * vals(y)(at3(b, s, i)),
        k,
        vals(o)(at3(b, s, i)),
    ) by {
        let idx = at3(b, s, i);
        lemma_assigned(t, idx);
        let at = assigned(t, idx);
        assert(at[t[0]] == b && at[t[1]] == s && at[t[2]] == i);
        assert(named(t, at) =~= idx);
        lemma_entry_product(h, vals, eq, x, y, k, o, t, t, t, dims, idx);
    }
}

/// The entries of `o` are those of `x` times the entries of `c` for their columns.
pub open spec fn columns_scaled(h: Graph, vals: Numbers, x: EdgeId, c: EdgeId, k: nat, o: EdgeId) -> bool {
    forall|b: int, s: int, i: int|
        #![trigger vals(o)(at3(b, s, i))]
        inside(h.shape(o), at3(b, s, i)) ==> rounded(
            vals(x)(at3(b, s, i)) * vals(c)(seq![i]),
            k,
            vals(o)(at3(b, s, i)),
        )
}

/// The equation `bsi,i->bsi` multiplies each column by a number of its own.
pub proof fn lemma_columns_scaled(h: Graph, vals: Numbers, x: EdgeId, c: EdgeId, k: nat, o: EdgeId)
    requires
        contracted(h, vals, "bsi,i->bsi"@, seq![x, c], k, o),
        h.rank(x) == 3,
        h.rank(c) == 1,
        h.shape(c)[0] == h.shape(x)[2],
    ensures
        columns_scaled(h, vals, x, c, k, o),
        output_shape("bsi,i->bsi"@, h.shapes(seq![x, c])) == h.shape(x),
{
    reveal_strlit("bsi,i->bsi");
    let (t, u1) = (seq!['b', 's', 'i'], seq!['i']);
    let eq = "bsi,i->bsi"@;
    assert(eq =~= t + seq![','] + u1 + seq!['-', '>'] + t);
    let dims = Map::<char, nat>::empty().insert('b', h.shape(x)[0] as nat).insert('s', h.shape(x)[1] as nat).insert(
        'i',
        h.shape(x)[2] as nat,
    );
    let shapes = h.shapes(seq![x, c]);
    let ins = seq![t, u1];
    assert(shapes[0] == h.shape(x) && shapes[1] == h.shape(c));
    assert(sized(ins, shapes, dims)) by {
        assert forall|u: int, j: int| 0 <= u < ins.len() && 0 <= j < ins[u].len() implies dims.contains_key(
            #[trigger] ins[u][j],
        ) && dims[ins[u][j]] == shapes[u][j] by {
            if u == 0 {
                assert(ins[u] == t);
                assert(j == 0 || j == 1 || j == 2);
            } else {
                assert(ins[u] == u1);
                assert(j == 0);
            }
        }
    }
    assert(t[2] == 'i' && t.contains('i'));
    lemma_spells_two(eq, t, u1, t);
    assert(ins[0][0] == t[0] && ins[0][1] == t[1] && ins[0][2] == t[2]);
    assert(among(ins, t[0]) && among(ins, t[1]) && among(ins, t[2]));
    lemma_spelled_shape(eq, ins, t, shapes, dims);
    assert(output_shape(eq, shapes) =~= h.shape(x));
    assert forall|b: int, s: int, i: int|
        #![trigger vals(o)(at3(b, s, i))]
        inside(h.shape(o), at3(b, s, i)) implies rounded(
        vals(x)(at3(b, s, i)) * vals(c)(seq![i]),
        k,
        vals(o)(at3(b, s, i)),
    ) by {
        let idx = at3(b, s, i);
        lemma_assigned(t, idx);
        let at = assigned(t, idx);
        assert(at[t[0]] == b && at[t[1]] == s && at[t[2]] == i);
        assert(named(t, at) =~= idx);
        assert(named(u1, at) =~= seq![i]);
        lemma_entry_product(h, vals, eq, x, c, k, o, t, u1, t, dims, idx);
    }
}

/// The equation `bsi,bs->bsi` keeps the shape of its first input.
pub proof fn lemma_rows_scaled_shape(h: Graph, x: EdgeId, r: EdgeId)
    requires
        h.rank(x) == 3,
        h.rank(r) == 2,
        h.shape(r)[0] == h.shape(x)[0],
        h.shape(r)[1] == h.shape(x)[1],
    ensures
        output_shape("bsi,bs->bsi"@, h.shapes(seq![x, r])) == h.shape(x),
{
    reveal_strlit("bsi,bs->bsi");
    let (t, u1) = (seq!['b', 's', 'i'], seq!['b', 's']);
    let eq = "bsi,bs->bsi"@;
    assert(eq =~= t + seq![','] + u1 + seq!['-', '>'] + t);
    let dims = Map::<char, nat>::empty().insert('b', h.shape(x)[0] as nat).insert('s', h.shape(x)[1] as nat).insert(
        'i',
        h.shape(x)[2] as nat,
    );
    let shapes = h.shapes(seq![x, r]);
    let ins = seq![t, u1];
    assert(shapes[0] == h.shape(x) && shapes[1] == h.shape(r));
    assert(sized(ins, shapes, dims)) by {
        assert forall|u: int, j: int| 0 <= u < ins.len() && 0 <= j < ins[u].len() implies dims.contains_key(
            #[trigger] ins[u][j],
        ) && dims[ins[u][j]] == shapes[u][j] by {
            if u == 0 {
                assert(ins[u] == t);
                assert(j == 0 || j == 1 || j == 2);
            } else {
                assert(ins[u] == u1);
                assert(j == 0 || j == 1);
            }
        }
    }
    lemma_spells_two(eq, t, u1, t);
    assert(ins[0][0] == t[0] && ins[0][1] == t[1] && ins[0][2] == t[2]);
    assert(among(ins, t[0]) && among(ins, t[1]) && among(ins, t[2]));
    lemma_spelled_shape(eq, ins, t, shapes, dims);
    assert(output_shape(eq, shapes) =~= h.shape(x));
}

/// The equation `bsdh->bshd` exchanges the last two dimensions.
pub proof fn lemma_turned_around(h: Graph, x: EdgeId)
    requires
        h.rank(x) == 4,
    ensures
        output_shape("bsdh->bshd"@, h.shapes(seq![x])) == seq![
            h.shape(x)[0],
            h.shape(x)[1],
            h.shape(x)[3],
            h.shape(x)[2],
        ],
{
    reveal_strlit("bsdh->bshd");
    let (sx, out) = (seq!['b', 's', 'd', 'h'], seq!['b', 's', 'h', 'd']);
    let eq = "bsdh->bshd"@;
    let dims = Map::<char, nat>::empty().insert('b', h.shape(x)[0] as nat).insert('s', h.shape(x)[1] as nat).insert(
        'd',
        h.shape(x)[2] as nat,
    ).insert('h', h.shape(x)[3] as nat);
    let shapes = h.shapes(seq![x]);
    let ins = seq![sx];
    assert(shapes[0] == h.shape(x));
    reveal_with_fuel(joined, 2);
    assert(eq =~= joined(ins) + seq!['-', '>'] + out);
    assert(sized(ins, shapes, dims)) by {
        assert forall|u: int, j: int| 0 <= u < ins.len() && 0 <= j < ins[u].len() implies dims.contains_key(
            #[trigger] ins[u][j],
        ) && dims[ins[u][j]] == shapes[u][j] by {
            assert(ins[u] == sx);
            assert(j == 0 || j == 1 || j == 2 || j == 3);
        }
    }
    assert(ins[0][0] == out[0] && ins[0][1] == out[1] && ins[0][3] == out[2] && ins[0][2] == out[3]);
    assert(among(ins, out[0]) && among(ins, out[1]) && among(ins, out[2]) && among(ins, out[3]));
    lemma_spelled_shape(eq, ins, out, shapes, dims);
    assert(output_shape(eq, shapes) =~= seq![h.shape(x)[0], h.shape(x)[1], h.shape(x)[3], h.shape(x)[2]]);
}

/// The last dimension of `x`, times the matrix `w`.
pub open spec fn last_times(h: Graph, vals: Numbers, x: EdgeId, w: EdgeId, k: nat, o: EdgeId) -> bool {
    forall|b: int, s: int, n: int, e: int|
        #![trigger vals(o)(at4(b, s, n, e))]
        inside(h.shape(o), at4(b, s, n, e)) ==> rounded(
            total(h.shape(x)[3] as nat, |d: int| vals(x)(at4(b, s, n, d)) * vals(w)(at2(d, e))),
            k,
            vals(o)(at4(b, s, n, e)),
        )
}

/// The equation `bshd,de->bshe` multiplies the last dimension with a matrix.
pub proof fn lemma_last_times(h: Graph, vals: Numbers, x: EdgeId, w: EdgeId, k: nat, o: EdgeId)
    requires
        contracted(h, vals, "bshd,de->bshe"@, seq![x, w], k, o),
        h.rank(x) == 4,
        h.rank(w) == 2,
        h.shape(w)[0] == h.shape(x)[3],
    ensures
        last_times(h, vals, x, w, k, o),
        output_shape("bshd,de->bshe"@, h.shapes(seq![x, w])) == h.shape(x).update(3, h.shape(w)[1]),
{
    reveal_strlit("bshd,de->bshe");
    let (sx, sw, out) = (seq!['b', 's', 'h', 'd'], seq!['d', 'e'], seq!['b', 's', 'h', 'e']);
    let eq = "bshd,de->bshe"@;
    assert(eq =~= sx + seq![','] + sw + seq!['-', '>'] + out);
    let m = h.shape(x)[3] as nat;
    let dims = Map::<char, nat>::empty().insert('b', h.shape(x)[0] as nat).insert('s', h.shape(x)[1] as nat).insert(
        'h',
        h.shape(x)[2] as nat,
    ).insert('d', m).insert('e', h.shape(w)[1] as nat);
    let shapes = h.shapes(seq![x, w]);
    let ins = seq![sx, sw];
    assert(shapes[0] == h.shape(x) && shapes[1] == h.shape(w));
    assert(sized(ins, shapes, dims)) by {
        assert forall|u: int, j: int| 0 <= u < ins.len() && 0 <= j < ins[u].len() implies dims.contains_key(
            #[trigger] ins[u][j],
        ) && dims[ins[u][j]] == shapes[u][j] by {
            if u == 0 {
                assert(ins[u] == sx);
                assert(j == 0 || j == 1 || j == 2 || j == 3);
            } else {
                assert(ins[u] == sw);
                assert(j == 0 || j == 1);
            }
        }
    }
    assert(out[0] == 'b' && out[1] == 's' && out[2] == 'h' && out[3] == 'e');
    assert(out.contains('b') && out.contains('s') && out.contains('h') && out.contains('e') && !out.contains('d'));
    assert(sx[3] == 'd');
    assert(sx.contains('d'));
    lemma_spells_two(eq, sx, sw, out);
    assert(ins[0][0] == 'b' && ins[0][1] == 's' && ins[0][2] == 'h' && ins[1][1] == 'e');
    assert(among(ins, out[0]) && among(ins, out[1]) && among(ins, out[2]) && among(ins, out[3]));
    lemma_spelled_shape(eq, ins, out, shapes, dims);
    assert(output_shape(eq, shapes) =~= h.shape(x).update(3, h.shape(w)[1]));
    assert forall|b: int, s: int, n: int, e: int|
        #![trigger vals(o)(at4(b, s, n, e))]
        inside(h.shape(o), at4(b, s, n, e)) implies rounded(
        total(m, |d: int| vals(x)(at4(b, s, n, d)) * vals(w)(at2(d, e))),
        k,
        vals(o)(at4(b, s, n, e)),
    ) by {
        let idx = at4(b, s, n, e);
        let f = |d: int| vals(x)(at4(b, s, n, d)) * vals(w)(at2(d, e));
        lemma_assigned(out, idx);
        let at = assigned(out, idx);
        assert forall|v: int| 0 <= v < m implies #[trigger] f(v) == vals(x)(named(sx, at.insert('d', v))) * vals(w)(
            named(sw, at.insert('d', v)),
        ) by {
            assert(at[out[0]] == b && at[out[1]] == s && at[out[2]] == n && at[out[3]] == e);
            assert(named(sx, at.insert('d', v)) =~= at4(b, s, n, v));
            assert(named(sw, at.insert('d', v)) =~= at2(v, e));
        }
        lemma_entry_sum(h, vals, eq, x, w, k, o, sx, sw, out, dims, idx, 'd', f);
    }
}

/// The entries of `o` are those of `x` times those of `c` for their position and last dimension.
pub open spec fn positions_scaled(h: Graph, vals: Numbers, x: EdgeId, c: EdgeId, k: nat, o: EdgeId) -> bool {
    forall|b: int, s: int, n: int, d: int|
        #![trigger vals(o)(at4(b, s, n, d))]
        inside(h.shape(o), at4(b, s, n, d)) ==> rounded(
            vals(x)(at4(b, s, n, d)) * vals(c)(at2(s, d)),
            k,
            vals(o)(at4(b, s, n, d)),
        )
}

/// The equation `bshd,sd->bshd` multiplies by a number for the position and the last dimension.
pub proof fn lemma_positions_scaled(h: Graph, vals: Numbers, x: EdgeId, c: EdgeId, k: nat, o: EdgeId)
    requires
        contracted(h, vals, "bshd,sd->bshd"@, seq![x, c], k, o),
        h.rank(x) == 4,
        h.rank(c) == 2,
        h.shape(c)[0] == h.shape(x)[1],
        h.shape(c)[1] == h.shape(x)[3],
    ensures
        positions_scaled(h, vals, x, c, k, o),
        output_shape("bshd,sd->bshd"@, h.shapes(seq![x, c])) == h.shape(x),
{
    reveal_strlit("bshd,sd->bshd");
    let (t, sc) = (seq!['b', 's', 'h', 'd'], seq!['s', 'd']);
    let eq = "bshd,sd->bshd"@;
    assert(eq =~= t + seq![','] + sc + seq!['-', '>'] + t);
    let dims = Map::<char, nat>::empty().insert('b', h.shape(x)[0] as nat).insert('s', h.shape(x)[1] as nat).insert(
        'h',
        h.shape(x)[2] as nat,
    ).insert('d', h.shape(x)[3] as nat);
    let shapes = h.shapes(seq![x, c]);
    let ins = seq![t, sc];
    assert(shapes[0] == h.shape(x) && shapes[1] == h.shape(c));
    assert(sized(ins, shapes, dims)) by {
        assert forall|u: int, j: int| 0 <= u < ins.len() && 0 <= j < ins[u].len() implies dims.contains_key(
            #[trigger] ins[u][j],
        ) && dims[ins[u][j]] == shapes[u][j] by {
            if u == 0 {
                assert(ins[u] == t);
                assert(j == 0 || j == 1 || j == 2 || j == 3);
            } else {
                assert(ins[u] == sc);
                assert(j == 0 || j == 1);
            }
        }
    }
    assert(t[1] == 's' && t[3] == 'd' && t.contains('s') && t.contains('d'));
    lemma_spells_two(eq, t, sc, t);
    assert(ins[0][0] == t[0] && ins[0][1] == t[1] && ins[0][2] == t[2] && ins[0][3] == t[3]);
    assert(among(ins, t[0]) && among(ins, t[1]) && among(ins, t[2]) && among(ins, t[3]));
    lemma_spelled_shape(eq, ins, t, shapes, dims);
    assert(output_shape(eq, shapes) =~= h.shape(x));
    assert forall|b: int, s: int, n: int, d: int|
        #![trigger vals(o)(at4(b, s, n, d))]
        inside(h.shape(o), at4(b, s, n, d)) implies rounded(
        vals(x)(at4(b, s, n, d)) * vals(c)(at2(s, d)),
        k,
        vals(o)(at4(b, s, n, d)),
    ) by {
        let idx = at4(b, s, n, d);
        lemma_assigned(t, idx);
        let at = assigned(t, idx);
        assert(at[t[0]] == b && at[t[1]] == s && at[t[2]] == n && at[t[3]] == d);
        assert(named(t, at) =~= idx);
        assert(named(sc, at) =~= at2(s, d));
        lemma_entry_product(h, vals, eq, x, c, k, o, t, sc, t, dims, idx);
    }
}

} // verus!
