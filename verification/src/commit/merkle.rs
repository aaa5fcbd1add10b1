//! Binary Merkle trees over codewords.
use vstd::arithmetic::div_mod::*;
use vstd::arithmetic::power2::*;
use vstd::prelude::*;

use crate::field::{GoldilocksExt2, GoldilocksField};
use crate::transcript::{hash_of, is_hash, Digest};

verus! {

/// The hash functions of a tree: one for pairs of nodes and one for each form of leaf.
pub struct MerkleHasher<
    C: Fn(Digest, Digest) -> Digest,
    G: Fn(GoldilocksField, GoldilocksField) -> Digest,
    E: Fn(GoldilocksExt2, GoldilocksExt2) -> Digest,
> {
    pub compress: C,
    pub gl_leaf: G,
    pub ext2_leaf: E,
}

/// The mathematical function that a base field leaf hash computes.
pub open spec fn gl_leaf_of<G: Fn(GoldilocksField, GoldilocksField) -> Digest>(g: G) -> spec_fn(
    GoldilocksField,
    GoldilocksField,
) -> Digest {
    |a: GoldilocksField, b: GoldilocksField| choose|c: Digest| call_ensures(g, (a, b), c)
}

/// The mathematical function that an extension leaf hash computes.
pub open spec fn ext2_leaf_of<E: Fn(GoldilocksExt2, GoldilocksExt2) -> Digest>(e: E) -> spec_fn(
    GoldilocksExt2,
    GoldilocksExt2,
) -> Digest {
    |a: GoldilocksExt2, b: GoldilocksExt2| choose|c: Digest| call_ensures(e, (a, b), c)
}

impl<
    C: Fn(Digest, Digest) -> Digest,
    G: Fn(GoldilocksField, GoldilocksField) -> Digest,
    E: Fn(GoldilocksExt2, GoldilocksExt2) -> Digest,
> MerkleHasher<C, G, E> {
    /// All three accept every input, and their outputs depend on the inputs alone.
    pub open spec fn wf(&self) -> bool {
        &&& is_hash(self.compress)
        &&& forall|a: GoldilocksField, b: GoldilocksField| #[trigger]
            call_requires(self.gl_leaf, (a, b))
        &&& forall|a: GoldilocksField, b: GoldilocksField, c: Digest|
            #[trigger] call_ensures(self.gl_leaf, (a, b), c) ==> c == gl_leaf_of(self.gl_leaf)(a, b)
        &&& forall|a: GoldilocksExt2, b: GoldilocksExt2| #[trigger]
            call_requires(self.ext2_leaf, (a, b))
        &&& forall|a: GoldilocksExt2, b: GoldilocksExt2, c: Digest|
            #[trigger] call_ensures(self.ext2_leaf, (a, b), c) ==> c == ext2_leaf_of(
                self.ext2_leaf,
            )(a, b)
    }

    pub open spec fn node(&self) -> spec_fn(Digest, Digest) -> Digest {
        hash_of(self.compress)
    }
}

/// The parents of a layer.
pub open spec fn parents(h: spec_fn(Digest, Digest) -> Digest, layer: Seq<Digest>) -> Seq<Digest> {
    Seq::new(layer.len() / 2, |i: int| h(layer[2 * i], layer[2 * i + 1]))
}

/// Layer `k` above the leaves.
pub open spec fn layer_at(
    h: spec_fn(Digest, Digest) -> Digest,
    leaves: Seq<Digest>,
    k: nat,
) -> Seq<Digest>
    decreases k,
{
    if k == 0 {
        leaves
    } else {
        parents(h, layer_at(h, leaves, (k - 1) as nat))
    }
}

/// The root of a tree with `2^m` leaves.
pub open spec fn root_of(
    h: spec_fn(Digest, Digest) -> Digest,
    leaves: Seq<Digest>,
    m: nat,
) -> Digest {
    layer_at(h, leaves, m)[0]
}

/// The other child of the same parent.
pub open spec fn sibling(i: int) -> int {
    if i % 2 == 0 {
        i + 1
    } else {
        i - 1
    }
}

/// The siblings on the way from leaf `i` to the root of a tree with `2^m` leaves.
pub open spec fn path_of(
    h: spec_fn(Digest, Digest) -> Digest,
    leaves: Seq<Digest>,
    m: nat,
    i: int,
) -> Seq<Digest> {
    Seq::new(m, |k: int| layer_at(h, leaves, k as nat)[sibling(i / pow2(k as nat) as int)])
}

/// The root that a leaf digest and a path lead to.
pub open spec fn climb(
    h: spec_fn(Digest, Digest) -> Digest,
    digest: Digest,
    i: int,
    path: Seq<Digest>,
) -> Digest
    decreases path.len(),
{
    if path.len() == 0 {
        digest
    } else {
        let d = climb(h, digest, i, path.drop_last());
        let bit = (i / pow2((path.len() - 1) as nat) as int) % 2;
        if bit == 0 {
            h(d, path.last())
        } else {
            h(path.last(), d)
        }
    }
}

pub proof fn lemma_layer_len(
    h: spec_fn(Digest, Digest) -> Digest,
    leaves: Seq<Digest>,
    m: nat,
    k: nat,
)
    requires
        leaves.len() == pow2(m),
        k <= m,
    ensures
        layer_at(h, leaves, k).len() == pow2((m - k) as nat),
    decreases k,
{
    if k > 0 {
        lemma_layer_len(h, leaves, m, (k - 1) as nat);
        lemma_pow2_unfold((m - k + 1) as nat);
    }
}

proof fn lemma_index_bound(i: int, m: nat, k: nat)
    requires
        0 <= i < pow2(m),
        k <= m,
    ensures
        0 <= i / pow2(k) as int,
        i / pow2(k) as int <= pow2((m - k) as nat) - 1,
        i / pow2((k + 1) as nat) as int == (i / pow2(k) as int) / 2,
{
    lemma_pow2_pos(k);
    lemma_pow2_adds((m - k) as nat, k);
    let d = pow2(k) as int;
    let q = i / d;
    lemma_fundamental_div_mod(i, d);
    lemma_div_pos_is_pos(i, d);
    assert(q < pow2((m - k) as nat)) by (nonlinear_arith)
        requires
            i == d * q + i % d,
            0 <= i % d,
            i < pow2((m - k) as nat) * d,
            d > 0,
    ;
    lemma_pow2_unfold((k + 1) as nat);
    lemma_div_denominator(i, d, 2);
    assert(pow2((k + 1) as nat) as int == d * 2);
}

proof fn lemma_climb_prefix(
    h: spec_fn(Digest, Digest) -> Digest,
    leaves: Seq<Digest>,
    m: nat,
    i: int,
    k: nat,
)
    requires
        leaves.len() == pow2(m),
        0 <= i < leaves.len(),
        k <= m,
    ensures
        climb(h, leaves[i], i, path_of(h, leaves, m, i).take(k as int)) == layer_at(h, leaves, k)[i
            / pow2(k) as int],
    decreases k,
{
    let path = path_of(h, leaves, m, i);
    lemma2_to64();
    if k == 0 {
        assert(path.take(0) =~= Seq::<Digest>::empty());
        lemma_div_basics(i);
    } else {
        let j = (k - 1) as nat;
        lemma_climb_prefix(h, leaves, m, i, j);
        assert(path.take(k as int).drop_last() =~= path.take(j as int));
        lemma_index_bound(i, m, j);
        lemma_index_bound(i, m, k);
        lemma_layer_len(h, leaves, m, j);
        lemma_layer_len(h, leaves, m, k);
        lemma_pow2_unfold((m - j) as nat);
        let q = i / pow2(j) as int;
        let below = layer_at(h, leaves, j);
        assert(layer_at(h, leaves, k)[q / 2] == h(below[2 * (q / 2)], below[2 * (q / 2) + 1]));
    }
}

/// Authentication: the path of a leaf leads from the leaf to the root.
pub proof fn lemma_path_authenticates(
    h: spec_fn(Digest, Digest) -> Digest,
    leaves: Seq<Digest>,
    m: nat,
    i: int,
)
    requires
        leaves.len() == pow2(m),
        0 <= i < leaves.len(),
    ensures
        climb(h, leaves[i], i, path_of(h, leaves, m, i)) == root_of(h, leaves, m),
{
    lemma_climb_prefix(h, leaves, m, i, m);
    let path = path_of(h, leaves, m, i);
    assert(path.take(m as int) =~= path);
    lemma_index_bound(i, m, m);
    lemma2_to64();
}

/// A Merkle tree as the list of its layers, leaves first.
#[derive(Debug)]
pub struct CpuMerkleTree {
    pub layers: Vec<Vec<Digest>>,
}

impl CpuMerkleTree {
    /// The layers are those of a tree over the given leaves: each holds the parents of the one
    /// below, and the last is the first with at most one node.
    pub open spec fn is_tree(
        &self,
        h: spec_fn(Digest, Digest) -> Digest,
        leaves: Seq<Digest>,
    ) -> bool {
        &&& self.layers.len() >= 1
        &&& forall|k: int|
            0 <= k < self.layers.len() ==> (#[trigger] self.layers[k])@ == layer_at(
                h,
                leaves,
                k as nat,
            )
        &&& forall|k: int|
            0 <= k < self.layers.len() - 1 ==> (#[trigger] self.layers[k]).len() > 1
        &&& self.layers[self.layers.len() - 1].len() <= 1
    }

    /// Every layer holds the sibling on the way up from the given leaf.
    pub open spec fn has_path(&self, leaf_index: int) -> bool {
        &&& self.layers.len() >= 1
        &&& forall|k: int|
            0 <= k < self.layers.len() - 1 ==> 0 <= #[trigger] sibling_at(leaf_index, k)
                < self.layers[k].len()
    }

    /// The tree over pairs of neighbouring base field words.
    pub fn build_from_gl_pairs<
        C: Fn(Digest, Digest) -> Digest,
        G: Fn(GoldilocksField, GoldilocksField) -> Digest,
        E: Fn(GoldilocksExt2, GoldilocksExt2) -> Digest,
    >(codeword: &Vec<u64>, hasher: &MerkleHasher<C, G, E>) -> (r: Self)
        requires
            hasher.wf(),
        ensures
            r.is_tree(hasher.node(), gl_leaves(gl_leaf_of(hasher.gl_leaf), codeword@)),
    {
        let num_leaves: usize = codeword.len() / 2;
        let mut leaf_hashes: Vec<Digest> = Vec::new();
        let ghost g = gl_leaf_of(hasher.gl_leaf);
        let mut i: usize = 0;
        while i < num_leaves
            invariant
                i <= num_leaves,
                num_leaves == codeword.len() / 2,
                hasher.wf(),
                g == gl_leaf_of(hasher.gl_leaf),
                leaf_hashes.len() == i,
                forall|k: int|
                    0 <= k < i ==> #[trigger] leaf_hashes[k] == gl_leaves(g, codeword@)[k],
            decreases num_leaves - i,
        {
            let d: Digest = (hasher.gl_leaf)(
                GoldilocksField(codeword[2 * i]),
                GoldilocksField(codeword[2 * i + 1]),
            );
            leaf_hashes.push(d);
            i = i + 1;
        }
        assert(leaf_hashes@ =~= gl_leaves(g, codeword@));
        Self::build_from_leaves(leaf_hashes, &hasher.compress)
    }

    /// The tree over pairs of neighbouring extension elements.
    pub fn build_from_ext2_pairs<
        C: Fn(Digest, Digest) -> Digest,
        G: Fn(GoldilocksField, GoldilocksField) -> Digest,
        E: Fn(GoldilocksExt2, GoldilocksExt2) -> Digest,
    >(codeword: &Vec<GoldilocksExt2>, hasher: &MerkleHasher<C, G, E>) -> (r: Self)
        requires
            hasher.wf(),
        ensures
            r.is_tree(hasher.node(), ext2_leaves(ext2_leaf_of(hasher.ext2_leaf), codeword@)),
    {
        let num_leaves: usize = codeword.len() / 2;
        let mut leaf_hashes: Vec<Digest> = Vec::new();
        let ghost g = ext2_leaf_of(hasher.ext2_leaf);
        let mut i: usize = 0;
        while i < num_leaves
            invariant
                i <= num_leaves,
                num_leaves == codeword.len() / 2,
                hasher.wf(),
                g == ext2_leaf_of(hasher.ext2_leaf),
                leaf_hashes.len() == i,
                forall|k: int|
                    0 <= k < i ==> #[trigger] leaf_hashes[k] == ext2_leaves(g, codeword@)[k],
            decreases num_leaves - i,
        {
            let d: Digest = (hasher.ext2_leaf)(codeword[2 * i], codeword[2 * i + 1]);
            leaf_hashes.push(d);
            i = i + 1;
        }
        assert(leaf_hashes@ =~= ext2_leaves(g, codeword@));
        Self::build_from_leaves(leaf_hashes, &hasher.compress)
    }

    /// The tree over the given leaf digests.
    pub fn build_from_leaves<C: Fn(Digest, Digest) -> Digest>(
        leaf_hashes: Vec<Digest>,
        compress: &C,
    ) -> (r: Self)
        requires
            is_hash(*compress),
        ensures
            r.is_tree(hash_of(*compress), leaf_hashes@),
    {
        let ghost h = hash_of(*compress);
        let ghost leaves = leaf_hashes@;
        let mut layers: Vec<Vec<Digest>> = Vec::new();
        let mut len: usize = leaf_hashes.len();
        layers.push(leaf_hashes);
        while len > 1
            invariant
                is_hash(*compress),
                h == hash_of(*compress),
                layers.len() >= 1,
                len == layers[layers.len() - 1].len(),
                forall|k: int|
                    0 <= k < layers.len() ==> (#[trigger] layers[k])@ == layer_at(
                        h,
                        leaves,
                        k as nat,
                    ),
                forall|k: int| 0 <= k < layers.len() - 1 ==> (#[trigger] layers[k]).len() > 1,
            decreases len,
        {
            let last: usize = layers.len() - 1;
            let half: usize = len / 2;
            let mut next: Vec<Digest> = Vec::new();
            let mut i: usize = 0;
            while i < half
                invariant
                    i <= half,
                    is_hash(*compress),
                    h == hash_of(*compress),
                    last < layers.len(),
                    half == layers[last as int].len() / 2,
                    next.len() == i,
                    forall|j: int|
                        0 <= j < i ==> #[trigger] next[j] == h(
                            layers[last as int]@[2 * j],
                            layers[last as int]@[2 * j + 1],
                        ),
                decreases half - i,
            {
                let d: Digest = compress(layers[last][2 * i], layers[last][2 * i + 1]);
                next.push(d);
                i = i + 1;
            }
            assert(layers[last as int]@ == layer_at(h, leaves, last as nat));
            assert(next@ =~= layer_at(h, leaves, (last + 1) as nat));
            layers.push(next);
            len = half;
        }
        CpuMerkleTree { layers }
    }

    /// The topmost digest.
    pub fn root(&self) -> (r: Digest)
        requires
            self.layers.len() > 0,
            self.layers[self.layers.len() - 1].len() > 0,
        ensures
            r == self.layers[self.layers.len() - 1][0],
    {
        self.layers[self.layers.len() - 1][0]
    }

    /// The siblings on the way from a leaf to the root.
    pub fn auth_path(&self, leaf_index: usize) -> (path: Vec<Digest>)
        requires
            self.has_path(leaf_index as int),
        ensures
            path.len() == self.layers.len() - 1,
            forall|k: int|
                0 <= k < path.len() ==> #[trigger] path[k] == self.layers[k][sibling_at(
                    leaf_index as int,
                    k,
                )],
    {
        let mut path: Vec<Digest> = Vec::new();
        let mut idx: usize = leaf_index;
        let mut k: usize = 0;
        proof {
            lemma2_to64();
            lemma_div_basics(leaf_index as int);
        }
        while k < self.layers.len() - 1
            invariant
                k <= self.layers.len() - 1,
                self.has_path(leaf_index as int),
                idx == leaf_index as int / pow2(k as nat) as int,
                path.len() == k,
                forall|j: int|
                    0 <= j < k ==> #[trigger] path[j] == self.layers[j][sibling_at(
                        leaf_index as int,
                        j,
                    )],
            decreases self.layers.len() - k,
        {
            proof {
                assert(0 <= sibling_at(leaf_index as int, k as int) < self.layers[k as int].len());
                lemma_halving(leaf_index as int, k as nat);
            }
            let other: usize = if idx % 2 == 0 { idx + 1 } else { idx - 1 };
            path.push(self.layers[k][other]);
            idx = idx / 2;
            k = k + 1;
        }
        path
    }
}

/// The position in layer `k` of the sibling on the way up from leaf `i`.
pub open spec fn sibling_at(i: int, k: int) -> int {
    sibling(i / pow2(k as nat) as int)
}

/// The leaves over pairs of base field words.
pub open spec fn gl_leaves(
    g: spec_fn(GoldilocksField, GoldilocksField) -> Digest,
    codeword: Seq<u64>,
) -> Seq<Digest> {
    Seq::new(
        codeword.len() / 2,
        |i: int| g(GoldilocksField(codeword[2 * i]), GoldilocksField(codeword[2 * i + 1])),
    )
}

/// The leaves over pairs of extension elements.
pub open spec fn ext2_leaves(
    g: spec_fn(GoldilocksExt2, GoldilocksExt2) -> Digest,
    codeword: Seq<GoldilocksExt2>,
) -> Seq<Digest> {
    Seq::new(codeword.len() / 2, |i: int| g(codeword[2 * i], codeword[2 * i + 1]))
}

proof fn lemma_halving(i: int, k: nat)
    requires
        0 <= i,
    ensures
        i / pow2((k + 1) as nat) as int == (i / pow2(k) as int) / 2,
{
    lemma_pow2_pos(k);
    lemma_pow2_unfold((k + 1) as nat);
    lemma_div_denominator(i, pow2(k) as int, 2);
}

/// A tree over `2^m` leaves has `m + 1` layers, its root is the root over the leaves, and every
/// leaf has a path in it.
pub proof fn lemma_full_tree(
    t: CpuMerkleTree,
    h: spec_fn(Digest, Digest) -> Digest,
    leaves: Seq<Digest>,
    m: nat,
)
    requires
        t.is_tree(h, leaves),
        leaves.len() == pow2(m),
    ensures
        t.layers.len() == m + 1,
        t.layers[m as int].len() == 1,
        t.layers[m as int][0] == root_of(h, leaves, m),
        forall|i: int| 0 <= i < pow2(m) ==> #[trigger] t.has_path(i),
        forall|i: int, k: int|
            0 <= i < pow2(m) && 0 <= k < m ==> #[trigger] t.layers[k][sibling_at(i, k)] == path_of(
                h,
                leaves,
                m,
                i,
            )[k],
{
    let n = t.layers.len();
    lemma2_to64();
    if n > m + 1 {
        lemma_layer_len(h, leaves, m, m);
        assert(t.layers[m as int].len() > 1);
    }
    if n < m + 1 {
        lemma_layer_len(h, leaves, m, (n - 1) as nat);
        assert(t.layers[n - 1]@ == layer_at(h, leaves, (n - 1) as nat));
        lemma_pow2_unfold((m - n + 1) as nat);
        lemma_pow2_pos((m - n) as nat);
    }
    lemma_layer_len(h, leaves, m, m);
    assert(t.layers[m as int]@ == layer_at(h, leaves, m));
    assert forall|i: int| 0 <= i < pow2(m) implies #[trigger] t.has_path(i) by {
        assert forall|k: int| 0 <= k < n - 1 implies 0 <= #[trigger] sibling_at(i, k)
            < t.layers[k].len() by {
            lemma_index_bound(i, m, k as nat);
            lemma_layer_len(h, leaves, m, k as nat);
            lemma_pow2_unfold((m - k) as nat);
            assert(t.layers[k]@ == layer_at(h, leaves, k as nat));
        }
    }
    assert forall|i: int, k: int| 0 <= i < pow2(m) && 0 <= k < m implies #[trigger] t.layers[k][sibling_at(
        i,
        k,
    )] == path_of(h, leaves, m, i)[k] by {
        assert(t.layers[k]@ == layer_at(h, leaves, k as nat));
    }
}

} // verus!
