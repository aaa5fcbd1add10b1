//! Generating a text: a run per token, each token the best one at the position before it.
use vstd::prelude::*;

use crate::dag::block::BasicBlockType;
use crate::dag::oneshot::{
    extract_argmax_at, is_argmax, one_hot, place_token, scored, scores_of, selectable,
};
use crate::dag::run::{fed, is_evaluator, node_ran, tensors};
use crate::dag::types::{Dag, EdgeId};
use crate::dag::witness::{PolyData, Witness};
use crate::util::arith::next_pow;

verus! {

/// `end` is where a run of the graph without further inputs leads from `start`.
pub open spec fn run_leads<E: Fn(&BasicBlockType, &Vec<Witness>) -> Vec<Witness>>(
    dag: Dag,
    eval: E,
    start: Seq<Vec<Witness>>,
    end: Seq<Vec<Witness>>,
) -> bool {
    &&& end.len() == dag.num_edges
    &&& forall|v: int| 0 <= v < dag.nodes.len() ==> #[trigger] node_ran(eval, dag, end, v)
    &&& forall|e: int|
        0 <= e < dag.num_edges && dag.producers[e] is None ==> tensors((#[trigger] end[e])@) == tensors(
            start[e]@,
        )
}

/// `now` is `before` with the tokens of the selector replaced by `tokens`.
pub open spec fn reselected(
    before: Seq<Vec<Witness>>,
    now: Seq<Vec<Witness>>,
    selector: EdgeId,
    tokens: Seq<usize>,
    vocab_size: usize,
) -> bool {
    &&& now.len() == before.len()
    &&& tensors(now[selector as int]@) == seq![one_hot(tokens.len() as usize, vocab_size, tokens)]
    &&& forall|e: int| 0 <= e < before.len() && e != selector ==> #[trigger] now[e] == before[e]
}

/// The tokens before position `pos` are those of `new`, the others those of `old_ids`.
pub open spec fn tokens_upto(old_ids: Seq<usize>, new: Seq<usize>, pos: int) -> Seq<usize> {
    Seq::new(
        old_ids.len(),
        |i: int|
            if i < pos {
                new[i]
            } else {
                old_ids[i]
            },
    )
}

/// How the first `n` tokens from `prompt_len` on came about. `starts[j]` are the tensors before run `j`
/// and `ends[j]` those after it: the first run starts from `ws`; every run is followed by the choice of
/// the best token at the position before the one that is to be filled, and by its selection, from which
/// the next run starts.
pub open spec fn generated<E: Fn(&BasicBlockType, &Vec<Witness>) -> Vec<Witness>>(
    dag: Dag,
    eval: E,
    ws: Seq<Vec<Witness>>,
    logits: EdgeId,
    selector: EdgeId,
    old_ids: Seq<usize>,
    new: Seq<usize>,
    prompt_len: int,
    vocab_size: usize,
    starts: Seq<Seq<Vec<Witness>>>,
    ends: Seq<Seq<Vec<Witness>>>,
    n: nat,
) -> bool {
    &&& starts.len() == n + 1
    &&& ends.len() == n
    &&& starts[0] == ws
    &&& forall|j: int|
        0 <= j < n ==> {
            let pos = prompt_len + j;
            &&& run_leads(dag, eval, starts[j], #[trigger] ends[j])
            &&& scored(ends[j], logits, new.len() as usize, vocab_size)
            &&& is_argmax(
                scores_of(ends[j], logits),
                new.len() as usize,
                pos - 1,
                vocab_size as nat,
                new[pos] as int,
            )
            &&& reselected(
                ends[j],
                starts[j + 1],
                selector,
                tokens_upto(old_ids, new, pos + 1),
                vocab_size,
            )
        }
}

/// Whether the scores are known and cover all tokens at all positions.
pub fn has_scores(witnesses: &[Vec<Witness>], logits: EdgeId, seq_len: usize, vocab_size: usize) -> (r: bool)
    ensures
        r == scored(witnesses@, logits, seq_len, vocab_size),
{
    if logits >= witnesses.len() || witnesses[logits].len() == 0 || seq_len > usize::MAX / 2 + 1 {
        return false;
    }
    match &witnesses[logits][0].data {
        Some(PolyData::Dense(p)) => {
            let rows: usize = next_pow(seq_len);
            proof {
                assert(rows * vocab_size <= 0xffff_ffff_ffff_ffff * 0xffff_ffff_ffff_ffff)
                    by (nonlinear_arith)
                    requires
                        0 <= rows <= 0xffff_ffff_ffff_ffff,
                        0 <= vocab_size <= 0xffff_ffff_ffff_ffff,
                ;
            }
            rows as u128 * vocab_size as u128 <= p.evaluations.len() as u128
        },
        _ => false,
    }
}

/// Fills the positions from `prompt_len` on, one after the other: runs the graph, takes the best token
/// at the position before, and selects it for the next run. Stops without filling the position where
/// a run leaves no scores, and says so.
pub fn generate<E: Fn(&BasicBlockType, &Vec<Witness>) -> Vec<Witness>>(
    dag: &Dag,
    witnesses: &mut Vec<Vec<Witness>>,
    logits: EdgeId,
    selector: EdgeId,
    token_ids: &mut Vec<usize>,
    prompt_len: usize,
    vocab_size: usize,
    eval: &E,
) -> (r: bool)
    requires
        dag.runnable(),
        is_evaluator(*eval, *dag),
        old(witnesses).len() == dag.num_edges,
        forall|e: int|
            0 <= e < dag.num_edges && dag.producers[e] is None && dag.consumers[e].len() > 0 ==> (
            #[trigger] old(witnesses)[e]).len() > 0,
        selector < dag.num_edges,
        dag.producers[selector as int] is None,
        1 <= prompt_len <= old(token_ids).len(),
        selectable(old(token_ids).len(), vocab_size, old(token_ids)@),
    ensures
        final(witnesses).len() == dag.num_edges,
        final(token_ids).len() == old(token_ids).len(),
        forall|i: int| 0 <= i < prompt_len ==> #[trigger] final(token_ids)[i] == old(token_ids)[i],
        r ==> exists|starts: Seq<Seq<Vec<Witness>>>, ends: Seq<Seq<Vec<Witness>>>| #[trigger]
            generated(
                *dag,
                *eval,
                old(witnesses)@,
                logits,
                selector,
                old(token_ids)@,
                final(token_ids)@,
                prompt_len as int,
                vocab_size,
                starts,
                ends,
                (old(token_ids).len() - prompt_len) as nat,
            ) && starts.last() == final(witnesses)@,
        !r ==> exists|starts: Seq<Seq<Vec<Witness>>>, ends: Seq<Seq<Vec<Witness>>>, n: nat| #[trigger]
            generated(
                *dag,
                *eval,
                old(witnesses)@,
                logits,
                selector,
                old(token_ids)@,
                final(token_ids)@,
                prompt_len as int,
                vocab_size,
                starts,
                ends,
                n,
            ) && {
                &&& prompt_len + n < old(token_ids).len()
                &&& final(token_ids)@ == tokens_upto(
                    old(token_ids)@,
                    final(token_ids)@,
                    prompt_len + n,
                )
                &&& run_leads(*dag, *eval, starts.last(), final(witnesses)@)
                &&& !scored(final(witnesses)@, logits, old(token_ids).len(), vocab_size)
            },
{
    let ghost ws = witnesses@;
    let ghost ids = token_ids@;
    let n: usize = token_ids.len();
    let ghost mut starts: Seq<Seq<Vec<Witness>>> = seq![ws];
    let ghost mut ends: Seq<Seq<Vec<Witness>>> = Seq::empty();
    let mut pos: usize = prompt_len;
    assert(ids =~= tokens_upto(ids, ids, prompt_len as int));
    while pos < n
        invariant
            1 <= prompt_len <= pos <= n,
            n == ids.len(),
            ids == old(token_ids)@,
            ws == old(witnesses)@,
            dag.runnable(),
            is_evaluator(*eval, *dag),
            witnesses.len() == dag.num_edges,
            token_ids.len() == n,
            forall|e: int|
                0 <= e < dag.num_edges && dag.producers[e] is None && dag.consumers[e].len() > 0 ==> (
                #[trigger] witnesses[e]).len() > 0,
            selector < dag.num_edges,
            dag.producers[selector as int] is None,
            selectable(n, vocab_size, token_ids@),
            token_ids@ == tokens_upto(ids, token_ids@, pos as int),
            forall|i: int| 0 <= i < prompt_len ==> #[trigger] token_ids[i] == ids[i],
            starts.last() == witnesses@,
            generated(
                *dag,
                *eval,
                ws,
                logits,
                selector,
                ids,
                token_ids@,
                prompt_len as int,
                vocab_size,
                starts,
                ends,
                (pos - prompt_len) as nat,
            ),
        decreases n - pos,
    {
        let ghost before = witnesses@;
        let feed: Vec<(EdgeId, Witness)> = Vec::new();
        proof {
            assert forall|e: int|
                0 <= e < dag.num_edges && dag.producers[e] is None && dag.consumers[e].len() > 0
            implies #[trigger] fed(tensors(witnesses[e]@), feed@, e as usize, 0).len() > 0 by {
                assert(witnesses[e].len() > 0);
            }
        }
        dag.run(witnesses, feed.as_slice(), eval);
        let ghost end = witnesses@;
        assert(run_leads(*dag, *eval, before, end));
        if !has_scores(witnesses.as_slice(), logits, n, vocab_size) {
            return false;
        }
        let token: usize = extract_argmax_at(witnesses.as_slice(), logits, pos - 1, n, vocab_size);
        assert(token_ids@[0] < vocab_size);
        let ghost prior = token_ids@;
        place_token(witnesses, selector, token_ids, pos, token, vocab_size);
        proof {
            let ghost (s0, e0) = (starts, ends);
            starts = starts.push(witnesses@);
            ends = ends.push(end);
            let now = token_ids@;
            let m = (pos - prompt_len) as nat;
            assert(now =~= tokens_upto(ids, now, pos + 1));
            assert forall|j: int| 0 <= j < m + 1 implies {
                let p = prompt_len + j;
                &&& run_leads(*dag, *eval, starts[j], #[trigger] ends[j])
                &&& scored(ends[j], logits, now.len() as usize, vocab_size)
                &&& is_argmax(
                    scores_of(ends[j], logits),
                    now.len() as usize,
                    p - 1,
                    vocab_size as nat,
                    now[p] as int,
                )
                &&& reselected(
                    ends[j],
                    starts[j + 1],
                    selector,
                    tokens_upto(ids, now, p + 1),
                    vocab_size,
                )
            } by {
                if j < m {
                    assert(ends[j] == e0[j]);
                    assert(starts[j] == s0[j] && starts[j + 1] == s0[j + 1]);
                    assert(now[prompt_len + j] == prior[prompt_len + j]);
                    assert(tokens_upto(ids, now, prompt_len + j + 1) =~= tokens_upto(
                        ids,
                        prior,
                        prompt_len + j + 1,
                    ));
                } else {
                    assert(ends[j] == end);
                    assert(starts[j] == before);
                    assert(starts[j + 1] == witnesses@);
                }
            }
            assert forall|e: int|
                0 <= e < dag.num_edges && dag.producers[e] is None && dag.consumers[e].len() > 0 implies (
            #[trigger] witnesses[e]).len() > 0 by {
                assert(tensors(witnesses[e]@).len() == witnesses[e].len());
                if e != selector {
                    assert(witnesses@[e] == end[e]);
                    assert(tensors(end[e]@).len() == end[e].len());
                    assert(tensors(before[e]@).len() == before[e].len());
                    assert(before[e].len() > 0);
                }
            }
        }
        pos = pos + 1;
    }
    true
}

} // verus!
