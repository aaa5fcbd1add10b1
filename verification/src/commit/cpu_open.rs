//! The complete opening: what an honest prover sends, and the prover.
use vstd::arithmetic::div_mod::*;
use vstd::arithmetic::mul::*;
use vstd::arithmetic::power2::*;
use vstd::prelude::*;

use crate::commit::basefold::{
    BasefoldOpeningProof, BasefoldProofExt2, QueryProof, SumcheckOracle,
};
use crate::commit::cpu_basefold::{
    bit_reverse_vec, compute_oracle_ext2, compute_oracle_mixed, cpu_fold_ext2, cpu_fold_mixed,
    fold_code, lift_words, oracle_elems, reversed, word_elems, BasefoldTable, FoldingEntry,
};
use crate::commit::merkle::{
    ext2_leaf_of, ext2_leaves, gl_leaf_of, gl_leaves, lemma_full_tree, path_of, root_of,
    CpuMerkleTree, MerkleHasher,
};
use crate::field::elem::{embed, lemma_mul_comm, prime, Elem};
use crate::field::sums::{lemma_sum_eq, sum};
use crate::field::{ext2_add, ext2_mul, ext_elems, GoldilocksExt2, GoldilocksField};
use crate::poly::basis::evaluate_lagrange_basis_ext2;
use crate::poly::dense::fold_ext;
use crate::poly::model::{all_canon, eq_weight, fold_all, lemma_mle_sum, mle};
use crate::sumcheck::fiat_shamir::{lemma_words_of, word_of, words_of};
use crate::transcript::{absorb_all, digest_elem, draw, Digest, Label, Transcript};
use crate::util::arith::pow2_usize;
use crate::GOLDILOCKS_PRIME;

verus! {

/// A committed polynomial with its codeword.
#[derive(Debug)]
pub struct HostCommitmentCache {
    pub num_vars: usize,
    pub log_rate: usize,
    pub root: Digest,
    /// The codeword, of `2^(num_vars + log_rate)` words.
    pub codeword: Vec<u64>,
    /// The values on the hypercube, in bit reversed order.
    pub bh_evals: Vec<u64>,
}

impl HostCommitmentCache {
    pub open spec fn wf(&self) -> bool {
        &&& 1 <= self.num_vars
        &&& 2 <= self.num_vars + self.log_rate < usize::BITS
        &&& self.codeword.len() == pow2((self.num_vars + self.log_rate) as nat)
        &&& self.bh_evals.len() == pow2(self.num_vars as nat)
    }

    /// The values on the hypercube, in order.
    pub open spec fn values(&self) -> Seq<Elem> {
        Seq::new(
            self.bh_evals.len() as nat,
            |i: int| embed(self.bh_evals[reversed(i, self.num_vars as nat)] as int),
        )
    }
}

impl BasefoldTable {
    /// The entries of one level.
    pub open spec fn level(&self, k: int) -> Seq<FoldingEntry> {
        self.entries@.subrange(
            self.level_offsets[k] as int,
            self.level_offsets[k] + self.level_sizes[k],
        )
    }

    /// Level `k` exists and has at least `count` entries.
    pub open spec fn has_level(&self, k: int, count: nat) -> bool {
        &&& 0 <= k < self.level_offsets.len()
        &&& k < self.level_sizes.len()
        &&& self.level_offsets[k] + self.level_sizes[k] <= self.entries.len()
        &&& count <= self.level_sizes[k]
    }

    /// The table has the levels that an opening of `n` variables at rate `2^-rate` folds with.
    pub open spec fn covers(&self, n: nat, rate: nat) -> bool {
        &&& forall|k: int|
            0 <= k < fold_rounds(n) ==> #[trigger] self.has_level(
                k,
                pow2((n + rate - k - 1) as nat),
            )
        &&& self.has_level(n - 1, pow2((n + rate - fold_rounds(n) - 1) as nat))
    }

    /// Copies one level.
    fn level_entries(&self, k: usize) -> (r: Vec<FoldingEntry>)
        requires
            self.has_level(k as int, 0),
        ensures
            r@ == self.level(k as int),
    {
        let start: usize = self.level_offsets[k];
        let size: usize = self.level_sizes[k];
        let mut r: Vec<FoldingEntry> = Vec::new();
        let mut i: usize = 0;
        while i < size
            invariant
                i <= size,
                self.has_level(k as int, 0),
                start == self.level_offsets[k as int],
                size == self.level_sizes[k as int],
                r@ == self.entries@.subrange(start as int, start + i),
            decreases size - i,
        {
            r.push(self.entries[start + i]);
            i = i + 1;
            assert(r@ =~= self.entries@.subrange(start as int, start + i));
        }
        r
    }
}

/// Number of folded codewords that get a tree of their own.
pub open spec fn fold_rounds(n: nat) -> nat {
    if n >= 2 {
        (n - 1) as nat
    } else {
        1
    }
}

/// What an opening runs on: the equality weights, the polynomial, and the codeword.
pub struct Opening {
    pub n: nat,
    pub rate: nat,
    pub eq: Seq<Elem>,
    pub bh: Seq<Elem>,
    pub code: Seq<Elem>,
    pub table: BasefoldTable,
}

impl Opening {
    /// The codeword after folding at the given challenges.
    pub open spec fn code_at(self, chs: Seq<Elem>) -> Seq<Elem>
        decreases chs.len(),
    {
        if chs.len() == 0 {
            self.code
        } else {
            fold_code(
                self.code_at(chs.drop_last()),
                self.table.level(chs.len() - 1),
                chs.last(),
            )
        }
    }

    /// The oracle after the given challenges.
    pub open spec fn oracle_at(self, chs: Seq<Elem>) -> (Elem, Elem, Elem) {
        let eq = fold_all(self.eq, chs);
        let bh = fold_all(self.bh, chs);
        oracle_elems(eq, bh, eq.len() / 2)
    }

    /// The root over the codeword folded at the given challenges.
    pub open spec fn root_at(
        self,
        node: spec_fn(Digest, Digest) -> Digest,
        leaf: spec_fn(GoldilocksExt2, GoldilocksExt2) -> Digest,
        chs: Seq<Elem>,
    ) -> Digest {
        root_of(
            node,
            ext2_leaves(leaf, words_of(self.code_at(chs))),
            (self.n + self.rate - chs.len() - 1) as nat,
        )
    }
}

/// The digest after an oracle was sent.
pub open spec fn observe_oracle(
    h: spec_fn(Digest, Digest) -> Digest,
    s: Digest,
    o: (Elem, Elem, Elem),
) -> Digest {
    absorb_all(h, s, Label::Empty, words_of(seq![o.0, o.1, o.2]))
}

/// The digest before the first challenge.
pub open spec fn open_start(
    h: spec_fn(Digest, Digest) -> Digest,
    s: Digest,
    root: Digest,
    point: Seq<GoldilocksExt2>,
    o: Opening,
) -> Digest {
    observe_oracle(
        h,
        absorb_all(h, h(s, root), Label::Empty, point),
        o.oracle_at(Seq::empty()),
    )
}

/// The challenges of the first `k` rounds, and the digest after them. A round draws a challenge
/// and sends the next oracle and the root over the folded codeword.
pub open spec fn open_rounds(
    h: spec_fn(Digest, Digest) -> Digest,
    node: spec_fn(Digest, Digest) -> Digest,
    leaf: spec_fn(GoldilocksExt2, GoldilocksExt2) -> Digest,
    s: Digest,
    o: Opening,
    k: nat,
) -> (Seq<Elem>, Digest)
    decreases k,
{
    if k == 0 {
        (Seq::empty(), s)
    } else {
        let (chs, d) = open_rounds(h, node, leaf, s, o, (k - 1) as nat);
        let e = draw(h, d, Label::Empty);
        let next = chs.push(digest_elem(e));
        (next, h(observe_oracle(h, e, o.oracle_at(next)), o.root_at(node, leaf, next)))
    }
}

/// The digest after `q` queries.
pub open spec fn query_digest(h: spec_fn(Digest, Digest) -> Digest, s: Digest, q: nat) -> Digest {
    crate::transcript::draw_many(h, s, Label::Empty, q)
}

/// The leaf that a digest asks for.
pub open spec fn query_index(d: Digest, leaves: nat) -> int {
    (d.w0 as int % prime()) % (leaves as int)
}

/// The answer to a query for leaf `index`: the pair in the codeword and the pairs above it in the
/// folded codewords, each with its path.
pub open spec fn is_query_proof(
    node: spec_fn(Digest, Digest) -> Digest,
    gl_leaf: spec_fn(GoldilocksField, GoldilocksField) -> Digest,
    leaf: spec_fn(GoldilocksExt2, GoldilocksExt2) -> Digest,
    codeword: Seq<u64>,
    o: Opening,
    chs: Seq<Elem>,
    index: int,
    p: QueryProof,
) -> bool {
    let m = (o.n + o.rate - 1) as nat;
    &&& p.index == index
    &&& p.values.len() == chs.len() + 1
    &&& p.merkle_paths.len() == chs.len() + 1
    &&& p.values[0].0 == (GoldilocksExt2 {
        c0: GoldilocksField(codeword[2 * index]),
        c1: GoldilocksField(0),
    })
    &&& p.values[0].1 == (GoldilocksExt2 {
        c0: GoldilocksField(codeword[2 * index + 1]),
        c1: GoldilocksField(0),
    })
    &&& p.merkle_paths[0]@ == path_of(node, gl_leaves(gl_leaf, codeword), m, index)
    &&& forall|i: int|
        1 <= i <= chs.len() ==> level_answer(
            node,
            leaf,
            o,
            chs,
            index,
            i,
            #[trigger] p.values[i],
            p.merkle_paths[i]@,
        )
}

/// The pair at leaf `index` in the codeword folded `i` times, and its path.
pub open spec fn level_answer(
    node: spec_fn(Digest, Digest) -> Digest,
    leaf: spec_fn(GoldilocksExt2, GoldilocksExt2) -> Digest,
    o: Opening,
    chs: Seq<Elem>,
    index: int,
    i: int,
    value: (GoldilocksExt2, GoldilocksExt2),
    path: Seq<Digest>,
) -> bool {
    let cw = words_of(o.code_at(chs.take(i)));
    let at = index / pow2(i as nat) as int;
    &&& value.0 == cw[2 * at]
    &&& value.1 == cw[2 * at + 1]
    &&& path == path_of(node, ext2_leaves(leaf, cw), (o.n + o.rate - 1 - i) as nat, at)
}

/// Folding halves the codeword.
proof fn lemma_code_len(o: Opening, chs: Seq<Elem>)
    requires
        o.code.len() == pow2(o.n + o.rate),
        chs.len() <= o.n + o.rate,
    ensures
        o.code_at(chs).len() == pow2((o.n + o.rate - chs.len()) as nat),
    decreases chs.len(),
{
    if chs.len() > 0 {
        lemma_code_len(o, chs.drop_last());
        lemma_pow2_unfold((o.n + o.rate - chs.len() + 1) as nat);
    }
}

proof fn lemma_rounds_len(
    h: spec_fn(Digest, Digest) -> Digest,
    node: spec_fn(Digest, Digest) -> Digest,
    leaf: spec_fn(GoldilocksExt2, GoldilocksExt2) -> Digest,
    s: Digest,
    o: Opening,
    k: nat,
)
    ensures
        open_rounds(h, node, leaf, s, o, k).0.len() == k,
    decreases k,
{
    if k > 0 {
        lemma_rounds_len(h, node, leaf, s, o, (k - 1) as nat);
    }
}

/// Absorbs an oracle.
fn send_oracle<F: Fn(Digest, Digest) -> Digest>(transcript: &mut Transcript<F>, o: &SumcheckOracle)
    requires
        old(transcript).wf(),
        o.c0.canonical(),
        o.c1.canonical(),
        o.c2.canonical(),
    ensures
        final(transcript).compress == old(transcript).compress,
        final(transcript).state == observe_oracle(
            old(transcript).hash(),
            old(transcript).state,
            (o.c0@, o.c1@, o.c2@),
        ),
{
    let mut msgs: Vec<GoldilocksExt2> = Vec::new();
    msgs.push(o.c0);
    msgs.push(o.c1);
    msgs.push(o.c2);
    proof {
        lemma_words_of(msgs@);
        assert(ext_elems(msgs@) =~= seq![o.c0@, o.c1@, o.c2@]);
    }
    transcript.append_all_ext2(Label::Empty, &msgs);
}

/// A tree over the codeword of each fold, with its root.
struct FoldedCodeword {
    words: Vec<GoldilocksExt2>,
    tree: CpuMerkleTree,
}

/// Halving an index that is in range of a codeword keeps it in range of the folded one.
proof fn lemma_query_bound(index: int, m: nat, i: nat)
    requires
        0 <= index < pow2(m),
        i <= m,
    ensures
        0 <= index / pow2(i) as int,
        index / pow2(i) as int <= pow2((m - i) as nat) - 1,
        i > 0 ==> index / pow2(i) as int == (index / pow2((i - 1) as nat) as int) / 2,
{
    lemma_pow2_pos(i);
    lemma_pow2_adds((m - i) as nat, i);
    let d = pow2(i) as int;
    let q = index / d;
    lemma_fundamental_div_mod(index, d);
    lemma_mod_bound(index, d);
    lemma_div_pos_is_pos(index, d);
    assert(q < pow2((m - i) as nat)) by (nonlinear_arith)
        requires
            index == d * q + index % d,
            0 <= index % d,
            index < pow2((m - i) as nat) * d,
            d > 0,
    ;
    if i > 0 {
        lemma_pow2_unfold(i);
        lemma_pow2_pos((i - 1) as nat);
        lemma_div_denominator(index, pow2((i - 1) as nat) as int, 2);
    }
}

/// Collects the values and paths that answer one query.
fn answer_query(
    codeword: &Vec<u64>,
    initial_tree: &CpuMerkleTree,
    folded: &Vec<FoldedCodeword>,
    leaf_idx: usize,
    Ghost(node): Ghost<spec_fn(Digest, Digest) -> Digest>,
    Ghost(gl_leaf): Ghost<spec_fn(GoldilocksField, GoldilocksField) -> Digest>,
    Ghost(leaf): Ghost<spec_fn(GoldilocksExt2, GoldilocksExt2) -> Digest>,
    Ghost(o): Ghost<Opening>,
    Ghost(chs): Ghost<Seq<Elem>>,
) -> (p: QueryProof)
    requires
        o.n + o.rate >= 1,
        codeword.len() == pow2(o.n + o.rate),
        o.code.len() == pow2(o.n + o.rate),
        initial_tree.is_tree(node, gl_leaves(gl_leaf, codeword@)),
        folded.len() == chs.len(),
        chs.len() < o.n + o.rate,
        folded.len() < usize::MAX,
        forall|i: int|
            0 <= i < folded.len() ==> (#[trigger] folded[i]).words@ == words_of(
                o.code_at(chs.take(i + 1)),
            ) && folded[i].tree.is_tree(node, ext2_leaves(leaf, folded[i].words@)),
        leaf_idx < pow2((o.n + o.rate - 1) as nat),
    ensures
        is_query_proof(node, gl_leaf, leaf, codeword@, o, chs, leaf_idx as int, p),
{
    let ghost m = (o.n + o.rate - 1) as nat;
    let ghost index = leaf_idx as int;
    proof {
        lemma_pow2_unfold(o.n + o.rate);
        lemma_full_tree(*initial_tree, node, gl_leaves(gl_leaf, codeword@), m);
        assert(initial_tree.has_path(index));
        lemma2_to64();
        lemma_div_basics(index);
    }
    let mut values: Vec<(GoldilocksExt2, GoldilocksExt2)> = Vec::new();
    let mut paths: Vec<Vec<Digest>> = Vec::new();
    values.push(
        (
            GoldilocksExt2::new(GoldilocksField(codeword[2 * leaf_idx]), GoldilocksField(0)),
            GoldilocksExt2::new(GoldilocksField(codeword[2 * leaf_idx + 1]), GoldilocksField(0)),
        ),
    );
    let first: Vec<Digest> = initial_tree.auth_path(leaf_idx);
    proof {
        let path = path_of(node, gl_leaves(gl_leaf, codeword@), m, index);
        assert forall|k: int| 0 <= k < m implies first[k] == path[k] by {
            assert(initial_tree.layers[k][crate::commit::merkle::sibling_at(index, k)] == path[k]);
        }
        assert(first@ =~= path);
    }
    paths.push(first);
    let mut idx: usize = leaf_idx;
    let mut i: usize = 0;
    while i < folded.len()
        invariant
            i <= folded.len(),
            folded.len() == chs.len(),
            folded.len() < usize::MAX,
            chs.len() < o.n + o.rate,
            m == o.n + o.rate - 1,
            index == leaf_idx,
            0 <= index < pow2(m),
            o.code.len() == pow2(o.n + o.rate),
            forall|i: int|
                0 <= i < folded.len() ==> (#[trigger] folded[i]).words@ == words_of(
                    o.code_at(chs.take(i + 1)),
                ) && folded[i].tree.is_tree(node, ext2_leaves(leaf, folded[i].words@)),
            idx == index / pow2(i as nat) as int,
            values.len() == i + 1,
            paths.len() == i + 1,
            values[0].0 == (GoldilocksExt2 {
                c0: GoldilocksField(codeword[2 * index]),
                c1: GoldilocksField(0),
            }),
            values[0].1 == (GoldilocksExt2 {
                c0: GoldilocksField(codeword[2 * index + 1]),
                c1: GoldilocksField(0),
            }),
            paths[0]@ == path_of(node, gl_leaves(gl_leaf, codeword@), m, index),
            forall|k: int|
                1 <= k <= i ==> level_answer(
                    node,
                    leaf,
                    o,
                    chs,
                    index,
                    k,
                    #[trigger] values[k],
                    paths[k]@,
                ),
        decreases folded.len() - i,
    {
        idx = idx / 2;
        let ghost k = (i + 1) as nat;
        let ghost cw = words_of(o.code_at(chs.take(k as int)));
        let ghost leaves = ext2_leaves(leaf, cw);
        proof {
            lemma_query_bound(index, m, k);
            lemma_code_len(o, chs.take(k as int));
            lemma_pow2_unfold((o.n + o.rate - k) as nat);
            assert(folded[i as int].words@ == cw);
            lemma_full_tree(folded[i as int].tree, node, leaves, (m - k) as nat);
            assert(folded[i as int].tree.has_path(idx as int));
        }
        let fc: &FoldedCodeword = &folded[i];
        values.push((fc.words[idx * 2], fc.words[idx * 2 + 1]));
        let path: Vec<Digest> = fc.tree.auth_path(idx);
        proof {
            let target = path_of(node, leaves, (m - k) as nat, idx as int);
            assert forall|j: int| 0 <= j < m - k implies path[j] == target[j] by {
                assert(fc.tree.layers[j][crate::commit::merkle::sibling_at(idx as int, j)]
                    == target[j]);
            }
            assert(path@ =~= target);
        }
        paths.push(path);
        i = i + 1;
    }
    QueryProof { index: leaf_idx, values, merkle_paths: paths }
}

/// `proof` is what an honest prover sends for the opening `o` from digest `s`.
pub open spec fn honest_opening(
    h: spec_fn(Digest, Digest) -> Digest,
    node: spec_fn(Digest, Digest) -> Digest,
    gl_leaf: spec_fn(GoldilocksField, GoldilocksField) -> Digest,
    leaf: spec_fn(GoldilocksExt2, GoldilocksExt2) -> Digest,
    s: Digest,
    codeword: Seq<u64>,
    o: Opening,
    num_queries: nat,
    proof: BasefoldOpeningProof,
) -> bool {
    let rounds = fold_rounds(o.n);
    let (chs, d) = open_rounds(h, node, leaf, s, o, rounds);
    let last = draw(h, d, Label::Empty);
    let p = proof.gpu_proof;
    &&& p.eval == proof.eval
    &&& proof.eval.canonical()
    &&& proof.eval@ == sum(pow2(o.n), |i: int| o.bh[i] * o.eq[i])
    &&& p.sumcheck_oracles.len() == rounds + 1
    &&& forall|k: int|
        0 <= k <= rounds ==> oracle_words(#[trigger] p.sumcheck_oracles[k], o.oracle_at(chs.take(k)))
    &&& p.folded_roots.len() == rounds
    &&& forall|k: int|
        0 <= k < rounds ==> #[trigger] p.folded_roots[k] == o.root_at(
            node,
            leaf,
            chs.take(k + 1),
        )
    &&& p.final_codeword@ == words_of(
        fold_code(o.code_at(chs), o.table.level(o.n - 1), digest_elem(last)),
    )
    &&& p.query_proofs.len() == num_queries
    &&& forall|q: int|
        0 <= q < num_queries ==> is_query_proof(
            node,
            gl_leaf,
            leaf,
            codeword,
            o,
            chs,
            query_index(
                query_digest(h, last, (q + 1) as nat),
                pow2((o.n + o.rate - 1) as nat),
            ),
            #[trigger] p.query_proofs[q],
        )
}

/// The words of an oracle.
pub open spec fn oracle_words(o: SumcheckOracle, e: (Elem, Elem, Elem)) -> bool {
    o.c0 == word_of(e.0) && o.c1 == word_of(e.1) && o.c2 == word_of(e.2)
}

/// The opening of a commitment at a point.
pub open spec fn opening_of(
    c: HostCommitmentCache,
    point: Seq<GoldilocksExt2>,
    table: BasefoldTable,
) -> Opening {
    Opening {
        n: c.num_vars as nat,
        rate: c.log_rate as nat,
        eq: Seq::new(pow2(c.num_vars as nat), |x: int| eq_weight(x, ext_elems(point))),
        bh: c.values(),
        code: word_elems(c.codeword@),
        table,
    }
}

/// An opening proves the value of the committed polynomial at the point.
pub proof fn lemma_opening_value(
    c: HostCommitmentCache,
    point: Seq<GoldilocksExt2>,
    table: BasefoldTable,
)
    requires
        c.wf(),
        point.len() == c.num_vars,
    ensures
        ({
            let o = opening_of(c, point, table);
            sum(pow2(o.n), |i: int| o.bh[i] * o.eq[i]) == mle(c.values(), ext_elems(point))
        }),
{
    let o = opening_of(c, point, table);
    let f = |i: int| o.bh[i] * o.eq[i];
    let g = |x: int| eq_weight(x, ext_elems(point)) * c.values()[x];
    assert(all_canon(c.values()));
    lemma_mle_sum(c.values(), ext_elems(point));
    assert forall|i: int| 0 <= i < pow2(o.n) implies #[trigger] f(i) == g(i) by {
        lemma_mul_comm(o.bh[i], o.eq[i]);
    }
    lemma_sum_eq(pow2(o.n), f, g);
}

/// The words of the polynomial, in order and reduced.
fn ordered_values(commitment: &HostCommitmentCache) -> (bh: Vec<u64>)
    requires
        commitment.wf(),
    ensures
        bh.len() == commitment.bh_evals.len(),
        word_elems(bh@) == commitment.values(),
{
    let raw: Vec<u64> = bit_reverse_vec(&commitment.bh_evals, commitment.num_vars);
    let mut bh: Vec<u64> = Vec::new();
    let mut i: usize = 0;
    while i < raw.len()
        invariant
            i <= raw.len(),
            bh.len() == i,
            forall|k: int| 0 <= k < i ==> #[trigger] bh[k] == raw[k] % GOLDILOCKS_PRIME,
        decreases raw.len() - i,
    {
        bh.push(raw[i] % GOLDILOCKS_PRIME);
        i = i + 1;
    }
    proof {
        assert forall|k: int| 0 <= k < bh.len() implies word_elems(bh@)[k]
            == commitment.values()[k] by {
            assert(raw[k] == commitment.bh_evals[reversed(k, commitment.num_vars as nat)]);
        }
        assert(word_elems(bh@) =~= commitment.values());
    }
    bh
}

/// The inner product of the polynomial with the equality weights.
fn inner_product(bh: &Vec<GoldilocksExt2>, eq: &Vec<GoldilocksExt2>) -> (r: GoldilocksExt2)
    requires
        bh.len() == eq.len(),
    ensures
        r@ == sum(bh.len() as nat, |i: int| ext_elems(bh@)[i] * ext_elems(eq@)[i]),
        r.canonical(),
{
    let mut acc: GoldilocksExt2 = GoldilocksExt2::zero();
    let ghost f = |i: int| ext_elems(bh@)[i] * ext_elems(eq@)[i];
    let mut i: usize = 0;
    while i < bh.len()
        invariant
            i <= bh.len(),
            bh.len() == eq.len(),
            f == (|i: int| ext_elems(bh@)[i] * ext_elems(eq@)[i]),
            acc@ == sum(i as nat, f),
            acc.canonical(),
        decreases bh.len() - i,
    {
        let t: GoldilocksExt2 = ext2_mul(bh[i], eq[i]);
        assert(t@ == f(i as int));
        acc = ext2_add(acc, t);
        i = i + 1;
    }
    acc
}

/// The challenges of a prefix of the rounds are a prefix of the challenges.
proof fn lemma_rounds_prefix(
    h: spec_fn(Digest, Digest) -> Digest,
    node: spec_fn(Digest, Digest) -> Digest,
    leaf: spec_fn(GoldilocksExt2, GoldilocksExt2) -> Digest,
    s: Digest,
    o: Opening,
    k: nat,
    l: nat,
)
    requires
        k <= l,
    ensures
        open_rounds(h, node, leaf, s, o, l).0.take(k as int) == open_rounds(
            h,
            node,
            leaf,
            s,
            o,
            k,
        ).0,
    decreases l,
{
    let long = open_rounds(h, node, leaf, s, o, l).0;
    lemma_rounds_len(h, node, leaf, s, o, l);
    lemma_rounds_len(h, node, leaf, s, o, k);
    if k == l {
        assert(long.take(k as int) =~= long);
    } else {
        let m = (l - 1) as nat;
        lemma_rounds_prefix(h, node, leaf, s, o, k, m);
        lemma_rounds_len(h, node, leaf, s, o, m);
        assert(long.take(k as int) =~= open_rounds(h, node, leaf, s, o, m).0.take(k as int));
    }
}

/// Copies the words of a codeword.
fn copy_words(v: &Vec<GoldilocksExt2>) -> (r: Vec<GoldilocksExt2>)
    ensures
        r@ == v@,
{
    let mut r: Vec<GoldilocksExt2> = Vec::new();
    let mut i: usize = 0;
    while i < v.len()
        invariant
            i <= v.len(),
            r@ == v@.take(i as int),
        decreases v.len() - i,
    {
        r.push(v[i]);
        i = i + 1;
        assert(r@ =~= v@.take(i as int));
    }
    assert(v@.take(i as int) =~= v@);
    r
}

/// Opens a committed polynomial at a point.
#[verifier::rlimit(60)]
pub fn cpu_full_open_ext2<
    F: Fn(Digest, Digest) -> Digest,
    C: Fn(Digest, Digest) -> Digest,
    G: Fn(GoldilocksField, GoldilocksField) -> Digest,
    E: Fn(GoldilocksExt2, GoldilocksExt2) -> Digest,
>(
    commitment: &HostCommitmentCache,
    point: &Vec<GoldilocksExt2>,
    table: &BasefoldTable,
    hasher: &MerkleHasher<C, G, E>,
    transcript: &mut Transcript<F>,
    num_queries: usize,
) -> (proof: BasefoldOpeningProof)
    requires
        old(transcript).wf(),
        hasher.wf(),
        commitment.wf(),
        point.len() == commitment.num_vars,
        table.covers(commitment.num_vars as nat, commitment.log_rate as nat),
    ensures
        final(transcript).compress == old(transcript).compress,
        ({
            let h = old(transcript).hash();
            let o = opening_of(*commitment, point@, *table);
            let leaf = ext2_leaf_of(hasher.ext2_leaf);
            let s = open_start(h, old(transcript).state, commitment.root, point@, o);
            let d = open_rounds(h, hasher.node(), leaf, s, o, fold_rounds(o.n)).1;
            &&& honest_opening(
                h,
                hasher.node(),
                gl_leaf_of(hasher.gl_leaf),
                leaf,
                s,
                commitment.codeword@,
                o,
                num_queries as nat,
                proof,
            )
            &&& final(transcript).state == query_digest(
                h,
                draw(h, d, Label::Empty),
                num_queries as nat,
            )
        }),
{
    let num_vars: usize = commitment.num_vars;
    let log_rate: usize = commitment.log_rate;
    let ghost h = transcript.hash();
    let ghost comp = transcript.compress;
    let ghost node = hasher.node();
    let ghost gl_leaf = gl_leaf_of(hasher.gl_leaf);
    let ghost leaf = ext2_leaf_of(hasher.ext2_leaf);
    let ghost o = opening_of(*commitment, point@, *table);
    let ghost s = open_start(h, transcript.state, commitment.root, point@, o);

    let bh: Vec<u64> = ordered_values(commitment);
    transcript.observe_hash(&commitment.root);
    transcript.append_all_ext2(Label::Empty, point);
    let mut eq_work: Vec<GoldilocksExt2> = evaluate_lagrange_basis_ext2(point.as_slice());
    assert(ext_elems(eq_work@) =~= o.eq);
    let mut bh_ext2: Vec<GoldilocksExt2> = lift_words(&bh);
    let eval: GoldilocksExt2 = inner_product(&bh_ext2, &eq_work);
    proof {
        let f = |i: int| ext_elems(bh_ext2@)[i] * ext_elems(eq_work@)[i];
        let g = |i: int| o.bh[i] * o.eq[i];
        lemma_sum_eq(pow2(o.n), f, g);
    }

    let n: usize = pow2_usize(num_vars);
    let oracle0: SumcheckOracle = compute_oracle_mixed(&bh, &eq_work, n);
    let mut sumcheck_oracles: Vec<SumcheckOracle> = Vec::new();
    send_oracle(transcript, &oracle0);
    sumcheck_oracles.push(oracle0);
    assert((oracle0.c0@, oracle0.c1@, oracle0.c2@) == o.oracle_at(Seq::empty()));
    assert(transcript.state == s);

    let rounds: usize = if num_vars >= 2 { num_vars - 1 } else { 1 };
    let mut folded_roots: Vec<Digest> = Vec::new();
    let mut folded: Vec<FoldedCodeword> = Vec::new();
    let mut cw_ext2: Vec<GoldilocksExt2> = Vec::new();
    let mut round: usize = 0;
    proof {
        assert(Seq::<Elem>::empty().take(0) =~= Seq::<Elem>::empty());
    }
    while round < rounds
        invariant
            round <= rounds,
            rounds == fold_rounds(num_vars as nat),
            num_vars == commitment.num_vars,
            log_rate == commitment.log_rate,
            commitment.wf(),
            hasher.wf(),
            node == hasher.node(),
            leaf == ext2_leaf_of(hasher.ext2_leaf),
            o == opening_of(*commitment, point@, *table),
            table.covers(num_vars as nat, log_rate as nat),
            transcript.compress == comp,
            transcript.wf(),
            h == transcript.hash(),
            transcript.state == open_rounds(h, node, leaf, s, o, round as nat).1,
            ext_elems(eq_work@) == fold_all(o.eq, open_rounds(h, node, leaf, s, o, round as nat).0),
            ext_elems(bh_ext2@) == fold_all(o.bh, open_rounds(h, node, leaf, s, o, round as nat).0),
            eq_work.len() == bh_ext2.len(),
            round > 0 ==> cw_ext2@ == words_of(
                o.code_at(open_rounds(h, node, leaf, s, o, round as nat).0),
            ) && ext_elems(cw_ext2@) == o.code_at(
                open_rounds(h, node, leaf, s, o, round as nat).0,
            ),
            sumcheck_oracles.len() == round + 1,
            forall|k: int|
                0 <= k <= round ==> oracle_words(
                    #[trigger] sumcheck_oracles[k],
                    o.oracle_at(open_rounds(h, node, leaf, s, o, k as nat).0),
                ),
            folded_roots.len() == round,
            forall|k: int|
                0 <= k < round ==> #[trigger] folded_roots[k] == o.root_at(
                    node,
                    leaf,
                    open_rounds(h, node, leaf, s, o, (k + 1) as nat).0,
                ),
            folded.len() == round,
            forall|k: int|
                0 <= k < round ==> (#[trigger] folded[k]).words@ == words_of(
                    o.code_at(open_rounds(h, node, leaf, s, o, (k + 1) as nat).0),
                ) && folded[k].tree.is_tree(node, ext2_leaves(leaf, folded[k].words@)),
        decreases rounds - round,
    {
        let ghost (chs, d) = open_rounds(h, node, leaf, s, o, round as nat);
        let challenge: GoldilocksExt2 = transcript.sample_challenge_ext2();
        let ghost chs2 = chs.push(challenge@);
        proof {
            lemma_rounds_len(h, node, leaf, s, o, round as nat);
            assert(chs2.drop_last() =~= chs);
            assert(open_rounds(h, node, leaf, s, o, (round + 1) as nat).0 == chs2);
            lemma_code_len(o, chs);
            lemma_code_len(o, chs2);
            lemma_pow2_unfold((o.n + o.rate - round) as nat);
            assert(table.has_level(round as int, pow2((o.n + o.rate - round - 1) as nat)));
        }
        eq_work = fold_ext(&eq_work, challenge);
        bh_ext2 = fold_ext(&bh_ext2, challenge);
        proof {
            assert(ext_elems(eq_work@).len() == eq_work.len());
            assert(ext_elems(bh_ext2@).len() == bh_ext2.len());
            assert(ext_elems(eq_work@) == fold_all(o.eq, chs2));
            assert(ext_elems(bh_ext2@) == fold_all(o.bh, chs2));
        }
        let oracle: SumcheckOracle = compute_oracle_ext2(&bh_ext2, &eq_work, eq_work.len());
        send_oracle(transcript, &oracle);
        sumcheck_oracles.push(oracle);
        let level: Vec<FoldingEntry> = table.level_entries(round);
        let folded_cw: Vec<GoldilocksExt2> = if round == 0 {
            cpu_fold_mixed(&commitment.codeword, level.as_slice(), challenge)
        } else {
            cpu_fold_ext2(&cw_ext2, level.as_slice(), challenge)
        };
        proof {
            assert(ext_elems(folded_cw@) == o.code_at(chs2));
            lemma_words_of(folded_cw@);
        }
        let tree: CpuMerkleTree = CpuMerkleTree::build_from_ext2_pairs(&folded_cw, hasher);
        proof {
            assert(ext_elems(folded_cw@).len() == folded_cw.len());
            lemma_pow2_unfold((o.n + o.rate - round - 1) as nat);
            lemma_full_tree(
                tree,
                node,
                ext2_leaves(leaf, folded_cw@),
                (o.n + o.rate - round - 2) as nat,
            );
        }
        let root: Digest = tree.root();
        assert(root == o.root_at(node, leaf, chs2));
        transcript.observe_hash(&root);
        folded_roots.push(root);
        cw_ext2 = copy_words(&folded_cw);
        folded.push(FoldedCodeword { words: folded_cw, tree });
        round = round + 1;
    }
    let ghost (chs, d) = open_rounds(h, node, leaf, s, o, rounds as nat);
    let ghost last = draw(h, d, Label::Empty);
    let last_challenge: GoldilocksExt2 = transcript.sample_challenge_ext2();
    proof {
        lemma_rounds_len(h, node, leaf, s, o, rounds as nat);
        lemma_code_len(o, chs);
        lemma_pow2_unfold((o.n + o.rate - rounds) as nat);
        assert(ext_elems(cw_ext2@).len() == cw_ext2.len());
    }
    let level: Vec<FoldingEntry> = table.level_entries(num_vars - 1);
    let final_cw: Vec<GoldilocksExt2> = cpu_fold_ext2(&cw_ext2, level.as_slice(), last_challenge);
    proof {
        lemma_words_of(final_cw@);
        assert forall|k: int| 0 <= k <= rounds implies #[trigger] chs.take(k) == open_rounds(
            h,
            node,
            leaf,
            s,
            o,
            k as nat,
        ).0 by {
            lemma_rounds_prefix(h, node, leaf, s, o, k as nat, rounds as nat);
        }
    }

    let initial_tree: CpuMerkleTree = CpuMerkleTree::build_from_gl_pairs(
        &commitment.codeword,
        hasher,
    );
    let leaves: usize = pow2_usize(num_vars + log_rate - 1);
    let mut query_proofs: Vec<QueryProof> = Vec::new();
    let mut q: usize = 0;
    while q < num_queries
        invariant
            q <= num_queries,
            transcript.compress == comp,
            transcript.wf(),
            h == transcript.hash(),
            commitment.wf(),
            num_vars == commitment.num_vars,
            log_rate == commitment.log_rate,
            o == opening_of(*commitment, point@, *table),
            leaves == pow2((o.n + o.rate - 1) as nat),
            leaves > 0,
            rounds == fold_rounds(num_vars as nat),
            chs == open_rounds(h, node, leaf, s, o, rounds as nat).0,
            chs.len() == rounds,
            forall|k: int|
                0 <= k <= rounds ==> #[trigger] chs.take(k) == open_rounds(
                    h,
                    node,
                    leaf,
                    s,
                    o,
                    k as nat,
                ).0,
            initial_tree.is_tree(node, gl_leaves(gl_leaf, commitment.codeword@)),
            folded.len() == rounds,
            forall|k: int|
                0 <= k < rounds ==> (#[trigger] folded[k]).words@ == words_of(
                    o.code_at(open_rounds(h, node, leaf, s, o, (k + 1) as nat).0),
                ) && folded[k].tree.is_tree(node, ext2_leaves(leaf, folded[k].words@)),
            transcript.state == query_digest(h, last, q as nat),
            query_proofs.len() == q,
            forall|k: int|
                0 <= k < q ==> is_query_proof(
                    node,
                    gl_leaf,
                    leaf,
                    commitment.codeword@,
                    o,
                    chs,
                    query_index(query_digest(h, last, (k + 1) as nat), leaves as nat),
                    #[trigger] query_proofs[k],
                ),
        decreases num_queries - q,
    {
        let c: GoldilocksField = transcript.sample_challenge();
        let leaf_idx: usize = (c.0 % (leaves as u64)) as usize;
        proof {
            assert forall|i: int| 0 <= i < folded.len() implies (#[trigger] folded[i]).words@
                == words_of(o.code_at(chs.take(i + 1))) && folded[i].tree.is_tree(
                node,
                ext2_leaves(leaf, folded[i].words@),
            ) by {
                assert(chs.take(i + 1) == open_rounds(h, node, leaf, s, o, (i + 1) as nat).0);
            }
        }
        let answer: QueryProof = answer_query(
            &commitment.codeword,
            &initial_tree,
            &folded,
            leaf_idx,
            Ghost(node),
            Ghost(gl_leaf),
            Ghost(leaf),
            Ghost(o),
            Ghost(chs),
        );
        query_proofs.push(answer);
        q = q + 1;
    }
    let gpu_proof: BasefoldProofExt2 = BasefoldProofExt2 {
        eval,
        sumcheck_oracles,
        folded_roots,
        final_codeword: final_cw,
        query_proofs,
    };
    proof {
        assert forall|k: int| 0 <= k <= rounds implies oracle_words(
            #[trigger] gpu_proof.sumcheck_oracles[k],
            o.oracle_at(chs.take(k)),
        ) by {
            assert(chs.take(k) == open_rounds(h, node, leaf, s, o, k as nat).0);
        }
        assert forall|k: int| 0 <= k < rounds implies #[trigger] gpu_proof.folded_roots[k]
            == o.root_at(node, leaf, chs.take(k + 1)) by {
            assert(chs.take(k + 1) == open_rounds(h, node, leaf, s, o, (k + 1) as nat).0);
        }
    }
    BasefoldOpeningProof { eval, gpu_proof }
}

} // verus!
