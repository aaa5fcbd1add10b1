//! One opening among many: every opening has a transcript of its own, so that openings can be made
//! and checked in any order.
use vstd::prelude::*;

use crate::commit::basefold::BasefoldOpeningProof;
use crate::commit::cpu_basefold::BasefoldTable;
use crate::commit::cpu_open::{
    cpu_full_open_ext2, honest_opening, open_start, opening_of, HostCommitmentCache,
};
use crate::commit::merkle::{ext2_leaf_of, gl_leaf_of, MerkleHasher};
use crate::field::{GoldilocksExt2, GoldilocksField};
use crate::transcript::{absorb, hash_of, is_hash, start, Digest, Label, Transcript};

verus! {

/// The name under which openings are made.
pub open spec fn opening_name() -> Seq<u8> {
    seq![98u8, 102, 45, 111, 112, 101, 110]
}

/// The digest from which opening number `task` starts, for a seed that both parties have drawn.
pub open spec fn task_digest(
    h: spec_fn(Digest, Digest) -> Digest,
    seed: GoldilocksExt2,
    task: usize,
) -> Digest {
    absorb(
        h,
        absorb(h, start(h, opening_name()), Label::Empty, seed.c0.0, seed.c1.0),
        Label::Empty,
        task as u64,
        0,
    )
}

/// The transcript of opening number `task`.
pub fn task_transcript<F: Fn(Digest, Digest) -> Digest>(compress: F, seed: GoldilocksExt2, task: usize) -> (t:
    Transcript<F>)
    requires
        is_hash(compress),
    ensures
        t.wf(),
        t.compress == compress,
        t.state == task_digest(hash_of(compress), seed, task),
{
    let name: Vec<u8> = vec![98, 102, 45, 111, 112, 101, 110];
    assert(name@ =~= opening_name());
    let mut t: Transcript<F> = Transcript::new(name.as_slice(), compress);
    t.append_ext2(Label::Empty, &seed);
    t.append_u64(Label::Empty, task as u64);
    t
}

/// Makes opening number `task` on the host.
pub fn open_task<
    F: Fn(Digest, Digest) -> Digest,
    C: Fn(Digest, Digest) -> Digest,
    G: Fn(GoldilocksField, GoldilocksField) -> Digest,
    E: Fn(GoldilocksExt2, GoldilocksExt2) -> Digest,
>(
    commitment: &HostCommitmentCache,
    point: &Vec<GoldilocksExt2>,
    table: &BasefoldTable,
    hasher: &MerkleHasher<C, G, E>,
    compress: F,
    seed: GoldilocksExt2,
    task: usize,
    num_queries: usize,
) -> (proof: BasefoldOpeningProof)
    requires
        is_hash(compress),
        hasher.wf(),
        commitment.wf(),
        point.len() == commitment.num_vars,
        table.covers(commitment.num_vars as nat, commitment.log_rate as nat),
    ensures
        ({
            let h = hash_of(compress);
            let o = opening_of(*commitment, point@, *table);
            honest_opening(
                h,
                hasher.node(),
                gl_leaf_of(hasher.gl_leaf),
                ext2_leaf_of(hasher.ext2_leaf),
                open_start(h, task_digest(h, seed, task), commitment.root, point@, o),
                commitment.codeword@,
                o,
                num_queries as nat,
                proof,
            )
        }),
{
    let mut t: Transcript<F> = task_transcript(compress, seed, task);
    cpu_full_open_ext2(commitment, point, table, hasher, &mut t, num_queries)
}

} // verus!
