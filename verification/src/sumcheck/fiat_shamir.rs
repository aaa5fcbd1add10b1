//! Non-interactive sum-check: what an honest prover sends, what a verifier
//! accepts, and that the verifier accepts the honest prover.
use vstd::arithmetic::power2::*;
use vstd::prelude::*;

use crate::field::elem::{embed, prime, Elem};
use crate::field::sums::lemma_sum_canon;
use crate::field::upoly::interpolate;
use crate::field::{ext_elems, GoldilocksExt2, GoldilocksField};
use crate::poly::model::all_canon;
use crate::sumcheck::model::{
    final_product, lemma_final, lemma_round, lemma_start, message_at, remaining, round_message, tables,
    total,
};
use crate::sumcheck::SumcheckProof;
use crate::transcript::{absorb, absorb_all, digest_elem, draw, Digest, Label};

verus! {

/// The words of a canonical element.
pub open spec fn word_of(e: Elem) -> GoldilocksExt2 {
    GoldilocksExt2 { c0: GoldilocksField(e.re as u64), c1: GoldilocksField(e.im as u64) }
}

/// The words of canonical elements.
pub open spec fn words_of(s: Seq<Elem>) -> Seq<GoldilocksExt2> {
    s.map_values(|e: Elem| word_of(e))
}

/// Canonical words are the words of the elements they stand for.
pub proof fn lemma_words_of(s: Seq<GoldilocksExt2>)
    requires
        forall|i: int| 0 <= i < s.len() ==> (#[trigger] s[i]).canonical(),
    ensures
        words_of(ext_elems(s)) == s,
{
    assert forall|i: int| 0 <= i < s.len() implies words_of(ext_elems(s))[i] == s[i] by {
        assert(s[i].canonical());
    }
    assert(words_of(ext_elems(s)) =~= s);
}

/// The digest after the size of a statement was announced.
pub open spec fn preamble(
    h: spec_fn(Digest, Digest) -> Digest,
    s: Digest,
    vars_label: Label,
    num_var: usize,
    polys_label: Label,
    num_poly: usize,
) -> Digest {
    absorb(
        h,
        absorb(h, s, vars_label, num_var as u64, 0),
        polys_label,
        num_poly as u64,
        0,
    )
}

/// The challenges of the first `k` rounds of an honest run, and the digest after them.
pub open spec fn honest(
    h: spec_fn(Digest, Digest) -> Digest,
    s: Digest,
    polys: Seq<Seq<Elem>>,
    n: nat,
    k: nat,
) -> (Seq<Elem>, Digest)
    decreases k,
{
    if k == 0 {
        (Seq::empty(), s)
    } else {
        let (chs, d) = honest(h, s, polys, n, (k - 1) as nat);
        let msg = message_at(polys, n, chs, k - 1);
        let e = draw(h, absorb_all(h, d, Label::RoundMessage, words_of(msg)), Label::Challenge);
        (chs.push(digest_elem(e)), e)
    }
}

/// All challenges of an honest run.
pub open spec fn honest_challenges(
    h: spec_fn(Digest, Digest) -> Digest,
    s: Digest,
    polys: Seq<Seq<Elem>>,
    n: nat,
) -> Seq<Elem> {
    honest(h, s, polys, n, n).0
}

/// `proof` is what an honest prover sends for the given polynomials in `n` variables.
pub open spec fn honest_proof(
    h: spec_fn(Digest, Digest) -> Digest,
    s: Digest,
    polys: Seq<Seq<Elem>>,
    n: nat,
    proof: SumcheckProof,
) -> bool {
    let chs = honest_challenges(h, s, polys, n);
    &&& proof.round_messages.len() == n
    &&& forall|k: int|
        0 <= k < n ==> (#[trigger] proof.round_messages[k])@ == words_of(
            message_at(polys, n, chs, k),
        )
    &&& proof.final_eval == word_of(final_product(polys, chs))
}

/// Later rounds do not change earlier challenges.
pub proof fn lemma_honest_prefix(
    h: spec_fn(Digest, Digest) -> Digest,
    s: Digest,
    polys: Seq<Seq<Elem>>,
    n: nat,
    k: nat,
    l: nat,
)
    requires
        k <= l,
    ensures
        honest(h, s, polys, n, l).0.len() == l,
        honest(h, s, polys, n, l).0.take(k as int) == honest(h, s, polys, n, k).0,
        all_canon(honest(h, s, polys, n, l).0),
    decreases l,
{
    let long = honest(h, s, polys, n, l).0;
    if l == 0 {
        assert(long.take(0) =~= Seq::<Elem>::empty());
    } else {
        let m = (l - 1) as nat;
        let short = honest(h, s, polys, n, m).0;
        if k == l {
            lemma_honest_prefix(h, s, polys, n, m, m);
            assert(long.take(l as int) =~= long);
        } else {
            lemma_honest_prefix(h, s, polys, n, k, m);
            assert(long.take(k as int) =~= short.take(k as int));
        }
        assert forall|i: int| 0 <= i < long.len() implies (#[trigger] long[i]).canon() by {
            if i < m {
                assert(short[i].canon());
            }
        }
    }
}

/// The base field element that a digest stands for.
pub open spec fn digest_base(s: Digest) -> Elem {
    embed(s.w0 as int)
}

/// The challenges of the first `k` rounds of a run with base field challenges, and the digest
/// after them. `msg` gives the message of a round from the challenges of the earlier ones.
pub open spec fn base_run(
    h: spec_fn(Digest, Digest) -> Digest,
    s: Digest,
    msg: spec_fn(Seq<Elem>) -> Seq<Elem>,
    k: nat,
) -> (Seq<Elem>, Digest)
    decreases k,
{
    if k == 0 {
        (Seq::empty(), s)
    } else {
        let (chs, d) = base_run(h, s, msg, (k - 1) as nat);
        let e = draw(
            h,
            absorb_all(h, d, Label::RoundMessage, words_of(msg(chs))),
            Label::Challenge,
        );
        (chs.push(digest_base(e)), e)
    }
}

/// Later rounds do not change earlier challenges, and all of them lie in the base field.
pub proof fn lemma_base_run_prefix(
    h: spec_fn(Digest, Digest) -> Digest,
    s: Digest,
    msg: spec_fn(Seq<Elem>) -> Seq<Elem>,
    k: nat,
    l: nat,
)
    requires
        k <= l,
    ensures
        base_run(h, s, msg, l).0.len() == l,
        base_run(h, s, msg, l).0.take(k as int) == base_run(h, s, msg, k).0,
        all_canon(base_run(h, s, msg, l).0),
        forall|i: int| 0 <= i < l ==> (#[trigger] base_run(h, s, msg, l).0[i]).in_base(),
    decreases l,
{
    let long = base_run(h, s, msg, l).0;
    if l == 0 {
        assert(long.take(0) =~= Seq::<Elem>::empty());
    } else {
        let m = (l - 1) as nat;
        let short = base_run(h, s, msg, m).0;
        if k == l {
            lemma_base_run_prefix(h, s, msg, m, m);
            assert(long.take(l as int) =~= long);
        } else {
            lemma_base_run_prefix(h, s, msg, k, m);
            assert(long.take(k as int) =~= short.take(k as int));
        }
        assert forall|i: int| 0 <= i < long.len() implies (#[trigger] long[i]).canon()
            && long[i].in_base() by {
            if i < m {
                assert(short[i].canon() && short[i].in_base());
            }
        }
    }
}

/// `proof` holds the messages of a base field run and the given final evaluation.
pub open spec fn base_proof(
    h: spec_fn(Digest, Digest) -> Digest,
    s: Digest,
    msg: spec_fn(Seq<Elem>) -> Seq<Elem>,
    n: nat,
    final_eval: Elem,
    proof: SumcheckProof,
) -> bool {
    let chs = base_run(h, s, msg, n).0;
    &&& proof.round_messages.len() == n
    &&& forall|k: int|
        0 <= k < n ==> (#[trigger] proof.round_messages[k])@ == words_of(msg(chs.take(k)))
    &&& proof.final_eval == word_of(final_eval)
}

/// The messages add up along the given challenges, from the claimed sum to the final evaluation.
pub open spec fn chain_ok(
    msgs: Seq<Seq<Elem>>,
    challenges: Seq<Elem>,
    claimed: Elem,
    final_eval: Elem,
) -> bool {
    let n = msgs.len();
    let claim = |k: int| if k == 0 { claimed } else { interpolate(msgs[k - 1], challenges[k - 1]) };
    &&& challenges.len() == n
    &&& forall|k: int| 0 <= k < n ==> (#[trigger] msgs[k])[0] + msgs[k][1] == claim(k)
    &&& claim(n as int) == final_eval
}

/// The digest after the verifier has processed `k` round messages.
pub open spec fn verifier_digest(
    h: spec_fn(Digest, Digest) -> Digest,
    s: Digest,
    msgs: Seq<Vec<GoldilocksExt2>>,
    k: nat,
) -> Digest
    decreases k,
{
    if k == 0 {
        s
    } else {
        let d = verifier_digest(h, s, msgs, (k - 1) as nat);
        draw(h, absorb_all(h, d, Label::RoundMessage, msgs[k - 1]@), Label::Challenge)
    }
}

/// The challenge of round `k`.
pub open spec fn verifier_challenge(
    h: spec_fn(Digest, Digest) -> Digest,
    s: Digest,
    msgs: Seq<Vec<GoldilocksExt2>>,
    k: int,
) -> Elem {
    digest_elem(verifier_digest(h, s, msgs, (k + 1) as nat))
}

/// The sum that the message of round `k` has to add up to.
pub open spec fn claim_at(
    h: spec_fn(Digest, Digest) -> Digest,
    s: Digest,
    msgs: Seq<Vec<GoldilocksExt2>>,
    claimed: Elem,
    k: nat,
) -> Elem {
    if k == 0 {
        claimed
    } else {
        interpolate(ext_elems(msgs[k - 1]@), verifier_challenge(h, s, msgs, k - 1))
    }
}

/// The message of round `k` has the right length and adds up to its claim.
pub open spec fn round_ok(
    h: spec_fn(Digest, Digest) -> Digest,
    s: Digest,
    msgs: Seq<Vec<GoldilocksExt2>>,
    claimed: GoldilocksExt2,
    num_poly: nat,
    k: int,
) -> bool {
    &&& msgs[k].len() == num_poly + 1
    &&& k == 0 ==> claimed.canonical()
    &&& msgs[k][0]@ + msgs[k][1]@ == claim_at(h, s, msgs, claimed@, k as nat)
}

/// Number of leading rounds, out of `n`, whose messages pass.
pub open spec fn rounds_passed(
    h: spec_fn(Digest, Digest) -> Digest,
    s: Digest,
    msgs: Seq<Vec<GoldilocksExt2>>,
    claimed: GoldilocksExt2,
    num_poly: nat,
    n: nat,
) -> nat
    decreases n,
{
    if n == 0 {
        0
    } else {
        let m = rounds_passed(h, s, msgs, claimed, num_poly, (n - 1) as nat);
        if m == n - 1 && round_ok(h, s, msgs, claimed, num_poly, n - 1) {
            n
        } else {
            m
        }
    }
}

/// The verifier accepts: every round passes and the last claim is the final evaluation.
pub open spec fn accepts(
    h: spec_fn(Digest, Digest) -> Digest,
    s: Digest,
    proof: SumcheckProof,
    claimed: GoldilocksExt2,
    n: nat,
    num_poly: nat,
) -> bool {
    let msgs = proof.round_messages@;
    &&& msgs.len() == n
    &&& forall|k: int| 0 <= k < n ==> #[trigger] round_ok(h, s, msgs, claimed, num_poly, k)
    &&& n == 0 ==> claimed == proof.final_eval
    &&& n > 0 ==> proof.final_eval.canonical() && proof.final_eval@ == claim_at(
        h,
        s,
        msgs,
        claimed@,
        n,
    )
}

/// Rounds pass one after the other.
pub proof fn lemma_rounds_passed(
    h: spec_fn(Digest, Digest) -> Digest,
    s: Digest,
    msgs: Seq<Vec<GoldilocksExt2>>,
    claimed: GoldilocksExt2,
    num_poly: nat,
    n: nat,
)
    ensures
        rounds_passed(h, s, msgs, claimed, num_poly, n) <= n,
        rounds_passed(h, s, msgs, claimed, num_poly, n) == n <==> (forall|k: int|
            0 <= k < n ==> #[trigger] round_ok(h, s, msgs, claimed, num_poly, k)),
    decreases n,
{
    if n > 0 {
        let m = (n - 1) as nat;
        lemma_rounds_passed(h, s, msgs, claimed, num_poly, m);
        if rounds_passed(h, s, msgs, claimed, num_poly, n) == n {
            assert forall|k: int| 0 <= k < n implies #[trigger] round_ok(
                h,
                s,
                msgs,
                claimed,
                num_poly,
                k,
            ) by {
                if k < m {
                    assert(round_ok(h, s, msgs, claimed, num_poly, k));
                }
            }
        }
        if forall|k: int| 0 <= k < n ==> #[trigger] round_ok(h, s, msgs, claimed, num_poly, k) {
            assert(round_ok(h, s, msgs, claimed, num_poly, n - 1));
        }
    }
}

/// Once a round fails, later rounds do not count.
pub proof fn lemma_rounds_stop(
    h: spec_fn(Digest, Digest) -> Digest,
    s: Digest,
    msgs: Seq<Vec<GoldilocksExt2>>,
    claimed: GoldilocksExt2,
    num_poly: nat,
    k: nat,
    n: nat,
)
    requires
        k < n,
        rounds_passed(h, s, msgs, claimed, num_poly, k) == k,
        !round_ok(h, s, msgs, claimed, num_poly, k as int),
    ensures
        rounds_passed(h, s, msgs, claimed, num_poly, n) == k,
    decreases n,
{
    if n > k + 1 {
        lemma_rounds_stop(h, s, msgs, claimed, num_poly, k, (n - 1) as nat);
    }
}

/// On the messages of an honest run the verifier's digests are the prover's.
pub proof fn lemma_same_digests(
    h: spec_fn(Digest, Digest) -> Digest,
    s: Digest,
    polys: Seq<Seq<Elem>>,
    n: nat,
    proof: SumcheckProof,
    k: nat,
)
    requires
        honest_proof(h, s, polys, n, proof),
        k <= n,
    ensures
        verifier_digest(h, s, proof.round_messages@, k) == honest(h, s, polys, n, k).1,
    decreases k,
{
    if k > 0 {
        let m = (k - 1) as nat;
        lemma_same_digests(h, s, polys, n, proof, m);
        lemma_honest_prefix(h, s, polys, n, m, n);
        let chs = honest_challenges(h, s, polys, n);
        let short = honest(h, s, polys, n, m).0;
        lemma_honest_prefix(h, s, polys, n, m, m);
        assert(short.take(m as int) =~= short);
        assert(message_at(polys, n, chs, m as int) == message_at(polys, n, short, m as int));
        assert(proof.round_messages[m as int]@ == words_of(message_at(polys, n, chs, m as int)));
    }
}

proof fn lemma_message_canon(polys: Seq<Seq<Elem>>, half: nat)
    ensures
        all_canon(round_message(polys, half)),
{
    let m = round_message(polys, half);
    assert forall|k: int| 0 <= k < m.len() implies (#[trigger] m[k]).canon() by {
        lemma_sum_canon(
            half,
            |j: int|
                crate::sumcheck::model::round_term(polys, crate::field::elem::embed(k), j),
        );
    }
}

/// The elements behind the words of canonical elements are those elements.
pub proof fn lemma_elems_of_words(s: Seq<Elem>)
    requires
        all_canon(s),
    ensures
        ext_elems(words_of(s)) == s,
        forall|i: int| 0 <= i < s.len() ==> (#[trigger] words_of(s)[i]).canonical(),
{
    assert forall|i: int| 0 <= i < s.len() implies ext_elems(words_of(s))[i] == s[i]
        && words_of(s)[i].canonical() by {
        assert(s[i].canon());
    }
    assert(ext_elems(words_of(s)) =~= s);
}

/// Completeness: the verifier accepts what an honest prover sends for the true sum.
pub proof fn lemma_completeness(
    h: spec_fn(Digest, Digest) -> Digest,
    s: Digest,
    polys: Seq<Seq<Elem>>,
    n: nat,
    proof: SumcheckProof,
    claimed: GoldilocksExt2,
)
    requires
        tables(polys, pow2(n)),
        1 <= polys.len() < prime(),
        honest_proof(h, s, polys, n, proof),
        claimed.canonical(),
        claimed@ == total(polys, pow2(n)),
    ensures
        accepts(h, s, proof, claimed, n, polys.len()),
{
    let msgs = proof.round_messages@;
    let chs = honest_challenges(h, s, polys, n);
    lemma_honest_prefix(h, s, polys, n, n, n);
    assert forall|k: int| 0 <= k < n implies #[trigger] round_ok(
        h,
        s,
        msgs,
        claimed,
        polys.len(),
        k,
    ) && claim_at(h, s, msgs, claimed@, (k + 1) as nat) == remaining(
        polys,
        n,
        chs.take(k + 1),
    ) by {
        lemma_claim(h, s, polys, n, proof, claimed, k);
    }
    lemma_final(polys, n, chs);
    lemma_sum_canon(
        polys.len(),
        |i: int| crate::poly::model::mle(polys[i], chs),
    );
    assert(chs.take(n as int) =~= chs);
    if n == 0 {
        lemma_start(polys, n);
        assert(chs =~= Seq::<Elem>::empty());
        crate::field::lemma_ext_canonical_unique(claimed, proof.final_eval);
    } else {
        assert(round_ok(h, s, msgs, claimed, polys.len(), n - 1));
    }
}

proof fn lemma_claim(
    h: spec_fn(Digest, Digest) -> Digest,
    s: Digest,
    polys: Seq<Seq<Elem>>,
    n: nat,
    proof: SumcheckProof,
    claimed: GoldilocksExt2,
    k: int,
)
    requires
        tables(polys, pow2(n)),
        1 <= polys.len() < prime(),
        honest_proof(h, s, polys, n, proof),
        claimed.canonical(),
        claimed@ == total(polys, pow2(n)),
        0 <= k < n,
    ensures
        round_ok(h, s, proof.round_messages@, claimed, polys.len(), k),
        claim_at(h, s, proof.round_messages@, claimed@, (k + 1) as nat) == remaining(
            polys,
            n,
            honest_challenges(h, s, polys, n).take(k + 1),
        ),
    decreases k,
{
    let msgs = proof.round_messages@;
    let chs = honest_challenges(h, s, polys, n);
    let msg = message_at(polys, n, chs, k);
    lemma_honest_prefix(h, s, polys, n, n, n);
    lemma_honest_prefix(h, s, polys, n, (k + 1) as nat, n);
    lemma_honest_prefix(h, s, polys, n, (k + 1) as nat, (k + 1) as nat);
    assert(proof.round_messages[k]@ == words_of(msg));
    lemma_message_canon(
        crate::sumcheck::model::fold_polys(polys, chs.take(k)),
        pow2((n - k - 1) as nat),
    );
    lemma_elems_of_words(msg);
    lemma_round(polys, n, chs, k);
    lemma_same_digests(h, s, polys, n, proof, (k + 1) as nat);
    let upto = honest(h, s, polys, n, (k + 1) as nat).0;
    assert(upto.last() == verifier_challenge(h, s, msgs, k));
    assert(chs[k] == chs.take(k + 1)[k]);
    assert(chs[k] == verifier_challenge(h, s, msgs, k));
    assert(msgs[k][0]@ == ext_elems(msgs[k]@)[0]);
    assert(msgs[k][1]@ == ext_elems(msgs[k]@)[1]);
    if k == 0 {
        lemma_start(polys, n);
        assert(chs.take(0) =~= Seq::<Elem>::empty());
    } else {
        lemma_claim(h, s, polys, n, proof, claimed, k - 1);
    }
}

/// A proof whose messages add up along the verifier's challenges is accepted.
pub proof fn lemma_chain_accepts(
    h: spec_fn(Digest, Digest) -> Digest,
    s: Digest,
    proof: SumcheckProof,
    claimed: GoldilocksExt2,
    num_poly: nat,
    msgs: Seq<Seq<Elem>>,
    chs: Seq<Elem>,
    final_eval: Elem,
)
    requires
        num_poly >= 1,
        proof.round_messages.len() == msgs.len(),
        forall|k: int|
            0 <= k < msgs.len() ==> ext_elems((#[trigger] proof.round_messages[k])@) == msgs[k]
                && proof.round_messages[k].len() == num_poly + 1 && verifier_challenge(
                h,
                s,
                proof.round_messages@,
                k,
            ) == chs[k],
        chain_ok(msgs, chs, claimed@, final_eval),
        claimed.canonical(),
        final_eval.canon(),
        proof.final_eval == word_of(final_eval),
    ensures
        accepts(h, s, proof, claimed, msgs.len(), num_poly),
{
    let n = msgs.len();
    let words = proof.round_messages@;
    assert forall|k: int| 0 <= k < n implies #[trigger] round_ok(h, s, words, claimed, num_poly, k) by {
        assert(ext_elems(proof.round_messages[k]@) == msgs[k]);
        assert(words[k][0]@ == ext_elems(words[k]@)[0]);
        assert(words[k][1]@ == ext_elems(words[k]@)[1]);
        if k > 0 {
            assert(ext_elems(proof.round_messages[k - 1]@) == msgs[k - 1]);
        }
    }
    if n == 0 {
        crate::field::lemma_ext_canonical_unique(claimed, proof.final_eval);
    } else {
        assert(ext_elems(proof.round_messages[n - 1]@) == msgs[n - 1]);
    }
}

} // verus!
