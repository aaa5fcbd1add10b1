# zk_torch

Verified building blocks for zero-knowledge proofs of tensor programs over the Goldilocks field.

- `src/field`, `src/util`, `src/poly`: the field, its quadratic extension, multilinear polynomials.
- `src/transcript.rs`, `src/sumcheck`: Fiat-Shamir transcripts over any compression function, and the
  sum-check provers and verifier. The verifier accepts what an honest prover sends.
- `src/commit`: Merkle trees, Basefold openings on the host, and the store of commitments.
- `src/dag`: graphs of tensor operations. They are built (`builder`, `builder_ops`, and the networks),
  compiled, partitioned, run, committed to, proved and verified. What a block computes, how a claim
  about it is proved and how a polynomial is committed to is handed in as functions, so that it can be
  done on devices. `complete` and `complete_parallel` prove that the verifier accepts what an honest
  prover makes, over the whole graph and partition by partition. `truth` and `accepted` derive what
  that needs from blocks, reducers and openings that tell the truth about the tensors of the graph;
  `single` and `tidy` do so for graphs of pooling, padding and ReLU layers.
- `src/plan`: weights in their padded places, weight and metadata files, predictions.
- `app`: a program around the library: configuration, floating point constants, demonstrations, and the
  networks with random weights.
- `tests`: tests of the library.
