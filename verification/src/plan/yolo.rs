//! The convolutions of YOLOv11n, stage after stage.
use vstd::arithmetic::power2::*;
use vstd::prelude::*;

verus! {

/// A convolution: its stage, channels in, channels out, side of the kernel, whether it works
/// channel by channel, and how often the input has been halved where it stands.
pub type StageConv = (usize, usize, usize, usize, bool, usize);

/// All convolutions, in the order in which the network reads their weights: the backbone (stages 1
/// to 6), the neck (stage 7) and the heads (stage 8).
pub const YOLO_CONVS: [(usize, usize, usize, usize, bool, usize); 80] = [
    (1, 3, 16, 3, false, 1),
    (2, 16, 32, 3, false, 2),
    (3, 32, 64, 1, false, 2),
    (3, 32, 16, 3, false, 2),
    (3, 16, 32, 3, false, 2),
    (3, 128, 64, 1, false, 2),
    (4, 64, 64, 3, false, 3),
    (4, 64, 128, 1, false, 3),
    (4, 64, 32, 3, false, 3),
    (4, 32, 64, 3, false, 3),
    (4, 256, 128, 1, false, 3),
    (5, 128, 128, 3, false, 4),
    (5, 128, 128, 1, false, 4),
    (5, 64, 32, 1, false, 4),
    (5, 32, 32, 3, false, 4),
    (5, 32, 32, 3, false, 4),
    (5, 32, 32, 3, false, 4),
    (5, 32, 32, 3, false, 4),
    (5, 64, 32, 1, false, 4),
    (5, 64, 64, 1, false, 4),
    (5, 256, 128, 1, false, 4),
    (6, 128, 256, 3, false, 5),
    (6, 256, 256, 1, false, 5),
    (6, 128, 64, 1, false, 5),
    (6, 64, 64, 3, false, 5),
    (6, 64, 64, 3, false, 5),
    (6, 64, 64, 3, false, 5),
    (6, 64, 64, 3, false, 5),
    (6, 128, 64, 1, false, 5),
    (6, 128, 128, 1, false, 5),
    (6, 512, 256, 1, false, 5),
    (6, 256, 128, 1, false, 5),
    (6, 512, 256, 1, false, 5),
    (7, 512, 128, 1, false, 4),
    (7, 64, 32, 3, false, 4),
    (7, 32, 64, 3, false, 4),
    (7, 256, 128, 1, false, 4),
    (7, 256, 64, 1, false, 3),
    (7, 32, 16, 3, false, 3),
    (7, 16, 32, 3, false, 3),
    (7, 128, 64, 1, false, 3),
    (7, 64, 64, 3, false, 4),
    (7, 256, 128, 1, false, 4),
    (7, 64, 32, 3, false, 4),
    (7, 32, 64, 3, false, 4),
    (7, 256, 128, 1, false, 4),
    (7, 128, 128, 3, false, 5),
    (7, 512, 256, 1, false, 5),
    (7, 128, 64, 1, false, 5),
    (7, 64, 64, 3, false, 5),
    (7, 64, 64, 3, false, 5),
    (7, 64, 64, 3, false, 5),
    (7, 64, 64, 3, false, 5),
    (7, 128, 64, 1, false, 5),
    (7, 128, 128, 1, false, 5),
    (7, 512, 256, 1, false, 5),
    (8, 64, 64, 3, false, 3),
    (8, 64, 64, 3, false, 3),
    (8, 64, 64, 1, false, 3),
    (8, 64, 64, 3, true, 3),
    (8, 64, 80, 1, false, 3),
    (8, 80, 80, 3, true, 3),
    (8, 80, 80, 1, false, 3),
    (8, 80, 80, 1, false, 3),
    (8, 128, 64, 3, false, 4),
    (8, 64, 64, 3, false, 4),
    (8, 64, 64, 1, false, 4),
    (8, 128, 128, 3, true, 4),
    (8, 128, 80, 1, false, 4),
    (8, 80, 80, 3, true, 4),
    (8, 80, 80, 1, false, 4),
    (8, 80, 80, 1, false, 4),
    (8, 256, 64, 3, false, 5),
    (8, 64, 64, 3, false, 5),
    (8, 64, 64, 1, false, 5),
    (8, 256, 256, 3, true, 5),
    (8, 256, 80, 1, false, 5),
    (8, 80, 80, 3, true, 5),
    (8, 80, 80, 1, false, 5),
    (8, 80, 80, 1, false, 5),
];

/// A weight to be made: channels in, channels out, the kernel, whether it works channel by channel,
/// and the sides of the bias.
pub type ConvPlan = (usize, usize, usize, usize, bool, usize, usize);

/// The weight of a convolution on an input of the given side.
pub open spec fn conv_plan(c: StageConv, side: usize) -> ConvPlan {
    let s = (side as int / pow2(c.5 as nat) as int) as usize;
    (c.1, c.2, c.3, c.3, c.4, s, s)
}

/// The weights of the first `k` convolutions that belong to the wanted stages.
pub open spec fn weight_plans(num_stages: usize, side: usize, k: nat) -> Seq<ConvPlan>
    decreases k,
{
    if k == 0 {
        Seq::empty()
    } else {
        let c = YOLO_CONVS[k - 1];
        let before = weight_plans(num_stages, side, (k - 1) as nat);
        if c.0 <= num_stages {
            before.push(conv_plan(c, side))
        } else {
            before
        }
    }
}

/// The input halved `k` times.
fn halved(side: usize, k: usize) -> (r: usize)
    ensures
        r == side as int / pow2(k as nat) as int,
{
    let mut r: usize = side;
    let mut i: usize = 0;
    proof {
        lemma2_to64();
    }
    while i < k
        invariant
            i <= k,
            r == side as int / pow2(i as nat) as int,
        decreases k - i,
    {
        proof {
            lemma_pow2_unfold((i + 1) as nat);
            lemma_pow2_pos(i as nat);
            vstd::arithmetic::div_mod::lemma_div_denominator(side as int, pow2(i as nat) as int, 2);
        }
        r = r / 2;
        i = i + 1;
    }
    r
}

/// The weights that the first `num_stages` stages read, on a square input.
pub fn yolo_weight_plan(num_stages: usize, input_spatial: usize) -> (r: Vec<ConvPlan>)
    ensures
        r@ == weight_plans(num_stages, input_spatial, 80),
{
    let convs: [(usize, usize, usize, usize, bool, usize); 80] = YOLO_CONVS;
    let mut r: Vec<ConvPlan> = Vec::new();
    let mut i: usize = 0;
    while i < 80
        invariant
            i <= 80,
            convs@ == YOLO_CONVS@,
            r@ == weight_plans(num_stages, input_spatial, i as nat),
        decreases 80 - i,
    {
        let c: StageConv = convs[i];
        assert(c == YOLO_CONVS[i as int]);
        if c.0 <= num_stages {
            let s: usize = halved(input_spatial, c.5);
            r.push((c.1, c.2, c.3, c.3, c.4, s, s));
        }
        i = i + 1;
    }
    r
}

/// More stages only add weights at the end: the weights of a cut network are the first ones of the
/// whole.
pub proof fn lemma_more_stages(a: usize, b: usize, side: usize)
    requires
        a <= b,
    ensures
        weight_plans(a, side, 80).is_prefix_of(weight_plans(b, side, 80)),
{
    lemma_stages_sorted();
    let m = lemma_cut(a, side, 80);
    lemma_common(a, b, side, m);
    lemma_tail(b, side, m, 80);
}

/// The stages of the convolutions do not decrease.
proof fn lemma_stages_sorted()
    ensures
        forall|i: int| 0 < i < 80 ==> (#[trigger] YOLO_CONVS[i]).0 >= YOLO_CONVS[i - 1].0,
{
}

proof fn lemma_sorted_upto(i: int, j: int)
    requires
        0 <= i <= j < 80,
        forall|i: int| 0 < i < 80 ==> (#[trigger] YOLO_CONVS[i]).0 >= YOLO_CONVS[i - 1].0,
    ensures
        YOLO_CONVS[i].0 <= YOLO_CONVS[j].0,
    decreases j - i,
{
    if i < j {
        lemma_sorted_upto(i, j - 1);
    }
}

/// The number of convolutions up to which all belong, and from which none does.
proof fn lemma_cut(a: usize, side: usize, k: nat) -> (m: nat)
    requires
        k <= 80,
        forall|i: int| 0 < i < 80 ==> (#[trigger] YOLO_CONVS[i]).0 >= YOLO_CONVS[i - 1].0,
    ensures
        m <= k,
        forall|i: int| 0 <= i < m ==> (#[trigger] YOLO_CONVS[i]).0 <= a,
        weight_plans(a, side, k) == weight_plans(a, side, m),
    decreases k,
{
    if k == 0 {
        0
    } else if YOLO_CONVS[k - 1].0 <= a {
        assert forall|i: int| 0 <= i < k implies (#[trigger] YOLO_CONVS[i]).0 <= a by {
            lemma_sorted_upto(i, k - 1);
        }
        k
    } else {
        lemma_cut(a, side, (k - 1) as nat)
    }
}

proof fn lemma_common(a: usize, b: usize, side: usize, m: nat)
    requires
        a <= b,
        forall|i: int| 0 <= i < m ==> (#[trigger] YOLO_CONVS[i]).0 <= a,
    ensures
        weight_plans(a, side, m) == weight_plans(b, side, m),
    decreases m,
{
    if m > 0 {
        assert(YOLO_CONVS[m - 1].0 <= a);
        lemma_common(a, b, side, (m - 1) as nat);
    }
}

proof fn lemma_tail(b: usize, side: usize, m: nat, k: nat)
    requires
        m <= k,
    ensures
        weight_plans(b, side, m).is_prefix_of(weight_plans(b, side, k)),
    decreases k,
{
    if m < k {
        lemma_tail(b, side, m, (k - 1) as nat);
    }
}

} // verus!
