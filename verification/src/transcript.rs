//! Fiat-Shamir transcripts over any two-to-one compression function.
//!
//! A transcript is a digest. Absorbing a message compresses the digest with
//! the message; drawing a challenge compresses it with a tag and reads the
//! new digest. Two parties that absorb the same messages in the same order
//! draw the same challenges.
use vstd::prelude::*;

use crate::field::elem::{reduce, Elem};
use crate::field::{ext_elems, GoldilocksExt2, GoldilocksField};
use crate::GOLDILOCKS_PRIME;

verus! {

/// The output of the compression function: four words.
#[derive(Clone, Copy, Debug, PartialEq, Eq, Structural)]
pub struct Digest {
    pub w0: u64,
    pub w1: u64,
    pub w2: u64,
    pub w3: u64,
}

/// What a message or a challenge is for.
#[derive(Clone, Copy, Debug, PartialEq, Eq, Structural)]
pub enum Label {
    Empty,
    NumVar,
    NumPoly,
    GenNumVar,
    GenNumPoly,
    RoundMessage,
    Challenge,
    TwoPowBeta,
    RangeAlpha,
    RangeBeta,
    RangeInpChallenge,
    BoolChallenge,
    ReducerAlpha,
    OpeningSeed,
    Fork,
}

impl Label {
    /// The word that stands for the label.
    pub open spec fn spec_code(self) -> u64 {
        match self {
            Label::Empty => 0,
            Label::NumVar => 1,
            Label::NumPoly => 2,
            Label::GenNumVar => 3,
            Label::GenNumPoly => 4,
            Label::RoundMessage => 5,
            Label::Challenge => 6,
            Label::TwoPowBeta => 7,
            Label::RangeAlpha => 8,
            Label::RangeBeta => 9,
            Label::RangeInpChallenge => 10,
            Label::BoolChallenge => 11,
            Label::ReducerAlpha => 12,
            Label::OpeningSeed => 13,
            Label::Fork => 14,
        }
    }

    /// The word that stands for the label.
    pub fn code(self) -> (r: u64)
        ensures
            r == self.spec_code(),
    {
        match self {
            Label::Empty => 0,
            Label::NumVar => 1,
            Label::NumPoly => 2,
            Label::GenNumVar => 3,
            Label::GenNumPoly => 4,
            Label::RoundMessage => 5,
            Label::Challenge => 6,
            Label::TwoPowBeta => 7,
            Label::RangeAlpha => 8,
            Label::RangeBeta => 9,
            Label::RangeInpChallenge => 10,
            Label::BoolChallenge => 11,
            Label::ReducerAlpha => 12,
            Label::OpeningSeed => 13,
            Label::Fork => 14,
        }
    }
}

/// The mathematical function that a compression function computes.
pub open spec fn hash_of<F: Fn(Digest, Digest) -> Digest>(f: F) -> spec_fn(
    Digest,
    Digest,
) -> Digest {
    |a: Digest, b: Digest| choose|c: Digest| call_ensures(f, (a, b), c)
}

/// `f` accepts all digests and its output depends on them alone.
pub open spec fn is_hash<F: Fn(Digest, Digest) -> Digest>(f: F) -> bool {
    &&& forall|a: Digest, b: Digest| #[trigger] call_requires(f, (a, b))
    &&& forall|a: Digest, b: Digest, c: Digest|
        #[trigger] call_ensures(f, (a, b), c) ==> c == hash_of(f)(a, b)
}

/// A running digest and the compression function that advances it.
pub struct Transcript<F: Fn(Digest, Digest) -> Digest> {
    pub state: Digest,
    pub compress: F,
}

/// The digest after a message of two words.
pub open spec fn absorb(
    h: spec_fn(Digest, Digest) -> Digest,
    s: Digest,
    label: Label,
    x: u64,
    y: u64,
) -> Digest {
    h(s, Digest { w0: label.spec_code(), w1: x, w2: y, w3: 0 })
}

/// The digest after a challenge was drawn.
pub open spec fn draw(
    h: spec_fn(Digest, Digest) -> Digest,
    s: Digest,
    label: Label,
) -> Digest {
    h(s, Digest { w0: label.spec_code(), w1: 0, w2: 0, w3: 1 })
}

/// The extension element that a digest stands for.
pub open spec fn digest_elem(s: Digest) -> Elem {
    reduce(s.w0 as int, s.w1 as int)
}

/// Absorbs the elements of a sequence, first to last.
pub open spec fn absorb_all(
    h: spec_fn(Digest, Digest) -> Digest,
    s: Digest,
    label: Label,
    msgs: Seq<GoldilocksExt2>,
) -> Digest
    decreases msgs.len(),
{
    if msgs.len() == 0 {
        s
    } else {
        let t = absorb_all(h, s, label, msgs.drop_last());
        absorb(h, t, label, msgs.last().c0.0, msgs.last().c1.0)
    }
}

/// The digest after `n` challenges were drawn.
pub open spec fn draw_many(
    h: spec_fn(Digest, Digest) -> Digest,
    s: Digest,
    label: Label,
    n: nat,
) -> Digest
    decreases n,
{
    if n == 0 {
        s
    } else {
        draw(h, draw_many(h, s, label, (n - 1) as nat), label)
    }
}

impl<F: Fn(Digest, Digest) -> Digest> Transcript<F> {
    /// The compression function is a function of its arguments.
    pub open spec fn wf(&self) -> bool {
        is_hash(self.compress)
    }

    /// The mathematical function behind the transcript.
    pub open spec fn hash(&self) -> spec_fn(Digest, Digest) -> Digest {
        hash_of(self.compress)
    }

    /// A transcript for the protocol with the given name.
    pub fn new(label: &[u8], compress: F) -> (t: Self)
        requires
            is_hash(compress),
        ensures
            t.wf(),
            t.compress == compress,
            t.state == start(hash_of(compress), label@),
    {
        let mut state: Digest = Digest { w0: 0, w1: 0, w2: 0, w3: 0 };
        let mut i: usize = 0;
        assert(label@.take(0) =~= Seq::<u8>::empty());
        while i < label.len()
            invariant
                i <= label.len(),
                is_hash(compress),
                state == start(hash_of(compress), label@.take(i as int)),
            decreases label.len() - i,
        {
            proof {
                assert(label@.take(i as int + 1).drop_last() =~= label@.take(i as int));
            }
            state = compress(state, Digest { w0: label[i] as u64, w1: 0, w2: 0, w3: 2 });
            i = i + 1;
        }
        assert(label@.take(i as int) =~= label@);
        Transcript { state, compress }
    }

    /// Absorbs a word.
    pub fn append_u64(&mut self, label: Label, x: u64)
        requires
            old(self).wf(),
        ensures
            final(self).compress == old(self).compress,
            final(self).state == absorb(old(self).hash(), old(self).state, label, x, 0),
    {
        self.state = (self.compress)(
            self.state,
            Digest { w0: label.code(), w1: x, w2: 0, w3: 0 },
        );
    }

    /// Absorbs a base field element.
    pub fn append_scalar(&mut self, label: Label, x: &GoldilocksField)
        requires
            old(self).wf(),
        ensures
            final(self).compress == old(self).compress,
            final(self).state == absorb(old(self).hash(), old(self).state, label, x.0, 0),
    {
        self.append_u64(label, x.0);
    }

    /// Absorbs an element of the extension.
    pub fn append_ext2(&mut self, label: Label, x: &GoldilocksExt2)
        requires
            old(self).wf(),
        ensures
            final(self).compress == old(self).compress,
            final(self).state == absorb(
                old(self).hash(),
                old(self).state,
                label,
                x.c0.0,
                x.c1.0,
            ),
    {
        self.state = (self.compress)(
            self.state,
            Digest { w0: label.code(), w1: x.c0.0, w2: x.c1.0, w3: 0 },
        );
    }

    /// Absorbs elements of the extension, first to last.
    pub fn append_all_ext2(&mut self, label: Label, msgs: &Vec<GoldilocksExt2>)
        requires
            old(self).wf(),
        ensures
            final(self).compress == old(self).compress,
            final(self).state == absorb_all(old(self).hash(), old(self).state, label, msgs@),
    {
        let ghost h = self.hash();
        let ghost s = self.state;
        let ghost c = self.compress;
        let mut i: usize = 0;
        assert(msgs@.take(0) =~= Seq::<GoldilocksExt2>::empty());
        while i < msgs.len()
            invariant
                i <= msgs.len(),
                self.compress == c,
                self.wf(),
                h == self.hash(),
                self.state == absorb_all(h, s, label, msgs@.take(i as int)),
            decreases msgs.len() - i,
        {
            proof {
                assert(msgs@.take(i as int + 1).drop_last() =~= msgs@.take(i as int));
            }
            self.append_ext2(label, &msgs[i]);
            i = i + 1;
        }
        assert(msgs@.take(i as int) =~= msgs@);
    }

    /// Draws a challenge in the extension.
    pub fn challenge_ext2(&mut self, label: Label) -> (r: GoldilocksExt2)
        requires
            old(self).wf(),
        ensures
            final(self).compress == old(self).compress,
            final(self).state == draw(old(self).hash(), old(self).state, label),
            r@ == digest_elem(final(self).state),
            r.canonical(),
    {
        self.state = (self.compress)(
            self.state,
            Digest { w0: label.code(), w1: 0, w2: 0, w3: 1 },
        );
        GoldilocksExt2 {
            c0: GoldilocksField(self.state.w0 % GOLDILOCKS_PRIME),
            c1: GoldilocksField(self.state.w1 % GOLDILOCKS_PRIME),
        }
    }

    /// Draws a challenge in the base field.
    pub fn challenge_scalar(&mut self, label: Label) -> (r: GoldilocksField)
        requires
            old(self).wf(),
        ensures
            final(self).compress == old(self).compress,
            final(self).state == draw(old(self).hash(), old(self).state, label),
            r.0 == final(self).state.w0 % GOLDILOCKS_PRIME,
    {
        self.challenge_ext2(label).c0
    }

    /// Draws `n` challenges in the extension.
    pub fn challenges_ext2(&mut self, label: Label, n: usize) -> (r: Vec<GoldilocksExt2>)
        requires
            old(self).wf(),
        ensures
            final(self).compress == old(self).compress,
            final(self).state == draw_many(old(self).hash(), old(self).state, label, n as nat),
            ext_elems(r@) == drawn(old(self).hash(), old(self).state, label, n as nat),
            forall|i: int| 0 <= i < n ==> (#[trigger] r[i]).canonical(),
    {
        let ghost h = self.hash();
        let ghost s = self.state;
        let ghost c = self.compress;
        let mut r: Vec<GoldilocksExt2> = Vec::new();
        let mut i: usize = 0;
        while i < n
            invariant
                i <= n,
                r.len() == i,
                self.compress == c,
                self.wf(),
                h == self.hash(),
                self.state == draw_many(h, s, label, i as nat),
                forall|k: int|
                    0 <= k < i ==> (#[trigger] r[k])@ == digest_elem(
                        draw_many(h, s, label, (k + 1) as nat),
                    ) && r[k].canonical(),
            decreases n - i,
        {
            let x: GoldilocksExt2 = self.challenge_ext2(label);
            r.push(x);
            i = i + 1;
        }
        assert(ext_elems(r@) =~= drawn(h, s, label, n as nat));
        r
    }

    /// Absorbs an element of the extension without a label.
    pub fn observe_ext2(&mut self, x: GoldilocksExt2)
        requires
            old(self).wf(),
        ensures
            final(self).compress == old(self).compress,
            final(self).state == absorb(
                old(self).hash(),
                old(self).state,
                Label::Empty,
                x.c0.0,
                x.c1.0,
            ),
    {
        self.append_ext2(Label::Empty, &x);
    }

    /// Absorbs a digest.
    pub fn observe_hash(&mut self, d: &Digest)
        requires
            old(self).wf(),
        ensures
            final(self).compress == old(self).compress,
            final(self).state == (old(self).hash())(old(self).state, *d),
    {
        self.state = (self.compress)(self.state, *d);
    }

    /// Draws a challenge in the extension without a label.
    pub fn sample_challenge_ext2(&mut self) -> (r: GoldilocksExt2)
        requires
            old(self).wf(),
        ensures
            final(self).compress == old(self).compress,
            final(self).state == draw(old(self).hash(), old(self).state, Label::Empty),
            r@ == digest_elem(final(self).state),
            r.canonical(),
    {
        self.challenge_ext2(Label::Empty)
    }

    /// Draws a challenge in the base field without a label.
    pub fn sample_challenge(&mut self) -> (r: GoldilocksField)
        requires
            old(self).wf(),
        ensures
            final(self).compress == old(self).compress,
            final(self).state == draw(old(self).hash(), old(self).state, Label::Empty),
            r.0 == final(self).state.w0 % GOLDILOCKS_PRIME,
    {
        self.challenge_scalar(Label::Empty)
    }
}

impl<F: Fn(Digest, Digest) -> Digest + Copy> Transcript<F> {
    /// An independent transcript for part `k` of the protocol.
    pub fn fork(&self, k: usize) -> (t: Self)
        requires
            self.wf(),
        ensures
            t.wf(),
            t.compress == self.compress,
            t.state == absorb(self.hash(), self.state, Label::Fork, k as u64, 0),
    {
        let mut t: Transcript<F> = Transcript { state: self.state, compress: self.compress };
        t.append_u64(Label::Fork, k as u64);
        t
    }
}

/// The first `n` challenges drawn from a digest.
pub open spec fn drawn(
    h: spec_fn(Digest, Digest) -> Digest,
    s: Digest,
    label: Label,
    n: nat,
) -> Seq<Elem> {
    Seq::new(n, |i: int| digest_elem(draw_many(h, s, label, (i + 1) as nat)))
}

/// The digest that a protocol with the given name starts from.
pub open spec fn start(h: spec_fn(Digest, Digest) -> Digest, name: Seq<u8>) -> Digest
    decreases name.len(),
{
    if name.len() == 0 {
        Digest { w0: 0, w1: 0, w2: 0, w3: 0 }
    } else {
        h(
            start(h, name.drop_last()),
            Digest { w0: name.last() as u64, w1: 0, w2: 0, w3: 2 },
        )
    }
}

} // verus!
