//! The network: a 1024-wide accumulator per side fed by piece-square inputs, threats and
//! pawn pairs, whose halves are multiplied together, and a stack of three layers with eight
//! output buckets. Piece-square weights are 16 bits wide, those of threats and pawn pairs 8.

use vstd::prelude::*;

use crate::arith::quot;
use crate::rules::Board;
use crate::snapshot::{all_below, aux_total, list_sum, psqt_total, Lists, Perspective};
use crate::threats::{AUX_FEATURES, HL, OUTPUT_BUCKETS, PAIRED, PSQT_FEATURES};

verus! {

/// Size of the two hidden layers after the accumulator.
pub const L2: usize = 32;

pub const L3: usize = 32;

pub const QA: i32 = 255;

pub const QB: i32 = 64;

pub const SCALE: i32 = 400;

/// Scale of the first affine layer's output, and of its stored bias.
pub const S1: i32 = 16384;

/// Scale of the second affine layer's output, and of the third's.
pub const S2: i64 = 262144;

pub const S3: i64 = 16777216;

/// Bytes of a network file.
pub const NETWORK_BYTES: usize = 81_974_336;

/// The head's weights are stored input-major: for one input, every bucket's outputs sit
/// next to each other, so a bucket's row is a contiguous slice.
pub struct Network {
    pub psqt: Vec<i16>,
    pub aux: Vec<i8>,
    pub ft_bias: Vec<i16>,
    pub l1_weights: Vec<i8>,
    pub l1_bias: Vec<i32>,
    pub l2_weights: Vec<i32>,
    pub l2_bias: Vec<i32>,
    pub l3_weights: Vec<i32>,
    pub l3_bias: Vec<i32>,
}

/// One side's accumulator.
pub struct Accumulator {
    pub v: Vec<i16>,
}

/// Equal as 16-bit numbers.
pub open spec fn congruent(x: int, y: int) -> bool {
    (x - y) % 65536 == 0
}

proof fn lemma_congruent(x: int, y: int, z: int, k: int)
    requires
        congruent(x, y),
        congruent(z, x + k),
    ensures
        congruent(z, y + k),
{
    assert((z - (y + k)) == (z - (x + k)) + (x - y));
}

/// A 16-bit number is determined by any number it is congruent to.
pub proof fn congruent_numbers_agree(a: i16, b: i16, y: int)
    requires
        congruent(a as int, y),
        congruent(b as int, y),
    ensures
        a == b,
{
    assert((a - b) % 65536 == 0) by {
        assert((a - b) == (a - y) - (b - y));
    }
}

impl Network {
    pub open spec fn wf(&self) -> bool {
        &&& self.psqt@.len() == 7_864_320
        &&& self.aux@.len() == 65_912_832
        &&& self.ft_bias@.len() == HL
        &&& self.l1_weights@.len() == 262_144
        &&& self.l1_bias@.len() == 256
        &&& self.l2_weights@.len() == 16_384
        &&& self.l2_bias@.len() == 256
        &&& self.l3_weights@.len() == 256
        &&& self.l3_bias@.len() == OUTPUT_BUCKETS
    }

    /// Weights of the piece-square inputs for one lane of the accumulator.
    pub open spec fn psqt_lane(&self, lane: int) -> spec_fn(int) -> int {
        |f: int| self.psqt@[f * 1024 + lane] as int
    }

    /// Weights of the threats and pawn pairs for one lane.
    pub open spec fn aux_lane(&self, lane: int) -> spec_fn(int) -> int {
        |f: int| self.aux@[f * 1024 + lane] as int
    }

    /// Value of a lane for a board: the bias and the weights of every input that is on.
    pub open spec fn lane_value(&self, b: Board, v: Perspective, lane: int) -> int {
        self.ft_bias@[lane] + psqt_total(b, v, self.psqt_lane(lane), 64) + aux_total(
            b,
            v,
            self.aux_lane(lane),
        )
    }

    /// The accumulator is that of the board, every lane as a 16-bit number.
    pub open spec fn fits(&self, acc: &Accumulator, b: Board, v: Perspective) -> bool {
        &&& acc.v@.len() == HL
        &&& forall|lane: int|
            0 <= lane < HL ==> congruent(
                #[trigger] acc.v@[lane] as int,
                self.lane_value(b, v, lane),
            )
    }
}

/// However they were arrived at, two accumulators of one board are the same.
pub proof fn accumulators_agree(
    net: &Network,
    a: &Accumulator,
    b: &Accumulator,
    board: Board,
    v: Perspective,
)
    requires
        net.fits(a, board, v),
        net.fits(b, board, v),
    ensures
        a.v@ == b.v@,
{
    assert forall|lane: int| 0 <= lane < HL implies a.v@[lane] == b.v@[lane] by {
        congruent_numbers_agree(a.v@[lane], b.v@[lane], net.lane_value(board, v, lane));
    }
    assert(a.v@ =~= b.v@);
}

impl Accumulator {
    pub(crate) fn copy(&self) -> (r: Accumulator)
        ensures
            r.v@ == self.v@,
    {
        Accumulator { v: copy_lanes(&self.v) }
    }

    /// The accumulator of the empty board.
    pub(crate) fn fresh(net: &Network, Ghost(b): Ghost<Board>, v: Perspective) -> (r: Accumulator)
        requires
            net.wf(),
            b.len() == 64,
            forall|s: int| 0 <= s < 64 ==> (#[trigger] b[s]).0 == 12,
        ensures
            net.fits(&r, b, v),
    {
        let r = Accumulator { v: copy_lanes(&net.ft_bias) };
        proof {
            assert forall|lane: int| 0 <= lane < HL implies congruent(
                #[trigger] r.v@[lane] as int,
                net.lane_value(b, v, lane),
            ) by {
                lemma_empty_totals(b, v, net.psqt_lane(lane), net.aux_lane(lane), 4096);
            }
        }
        r
    }
}

/// Nothing is on for the empty board.
pub proof fn lemma_empty_totals(
    b: Board,
    v: Perspective,
    wp: spec_fn(int) -> int,
    wa: spec_fn(int) -> int,
    n: nat,
)
    requires
        b.len() == 64,
        n <= 4096,
        forall|s: int| 0 <= s < 64 ==> (#[trigger] b[s]).0 == 12,
    ensures
        n <= 64 ==> psqt_total(b, v, wp, n) == 0,
        n == 4096 ==> psqt_total(b, v, wp, 64) == 0,
        crate::snapshot::threat_total(b, v, wa, n) == 0,
        crate::snapshot::pair_total(b, v, wa, n) == 0,
    decreases n,
{
    if n > 0 {
        lemma_empty_totals(b, v, wp, wa, (n - 1) as nat);
        if n == 4096 {
            lemma_empty_totals(b, v, wp, wa, 64);
        }
        let k = n - 1;
        assert(b[k / 64].0 == 12);
    }
}

fn copy_lanes(a: &Vec<i16>) -> (r: Vec<i16>)
    ensures
        r@ == a@,
{
    let mut r: Vec<i16> = Vec::with_capacity(a.len());
    let mut i: usize = 0;
    while i < a.len()
        invariant
            i <= a@.len(),
            r@ == a@.subrange(0, i as int),
        decreases a@.len() - i,
    {
        r.push(a[i]);
        proof {
            assert(a@.subrange(0, i + 1) =~= a@.subrange(0, i as int).push(a@[i as int]));
        }
        i += 1;
    }
    proof {
        assert(a@.subrange(0, i as int) =~= a@);
    }
    r
}

/// Adds or takes away one row of piece-square weights.
fn apply_psqt(net: &Network, acc: &mut Accumulator, f: usize, add: bool)
    requires
        net.wf(),
        f < PSQT_FEATURES,
        old(acc).v@.len() == HL,
    ensures
        final(acc).v@.len() == HL,
        forall|lane: int|
            0 <= lane < HL ==> congruent(
                #[trigger] final(acc).v@[lane] as int,
                old(acc).v@[lane] + (if add {
                    (net.psqt_lane(lane))(f as int)
                } else {
                    -(net.psqt_lane(lane))(f as int)
                }),
            ),
{
    let ghost a = acc.v@;
    let base: usize = f * 1024;
    let mut i: usize = 0;
    while i < HL
        invariant
            i <= HL,
            net.wf(),
            f < PSQT_FEATURES,
            base == f * 1024,
            a == old(acc).v@,
            a.len() == HL,
            acc.v@.len() == HL,
            forall|lane: int| i <= lane < HL ==> #[trigger] acc.v@[lane] == a[lane],
            forall|lane: int|
                0 <= lane < i ==> congruent(
                    #[trigger] acc.v@[lane] as int,
                    a[lane] + (if add {
                        (net.psqt_lane(lane))(f as int)
                    } else {
                        -(net.psqt_lane(lane))(f as int)
                    }),
                ),
        decreases HL - i,
    {
        let w = net.psqt[base + i];
        let x = acc.v[i];
        let y = if add {
            x.wrapping_add(w)
        } else {
            x.wrapping_sub(w)
        };
        acc.v.set(i, y);
        i += 1;
    }
}

/// Adds or takes away one row of the other weights.
fn apply_aux(net: &Network, acc: &mut Accumulator, f: usize, add: bool)
    requires
        net.wf(),
        f < AUX_FEATURES,
        old(acc).v@.len() == HL,
    ensures
        final(acc).v@.len() == HL,
        forall|lane: int|
            0 <= lane < HL ==> congruent(
                #[trigger] final(acc).v@[lane] as int,
                old(acc).v@[lane] + (if add {
                    (net.aux_lane(lane))(f as int)
                } else {
                    -(net.aux_lane(lane))(f as int)
                }),
            ),
{
    let ghost a = acc.v@;
    let base: usize = f * 1024;
    let mut i: usize = 0;
    while i < HL
        invariant
            i <= HL,
            net.wf(),
            f < AUX_FEATURES,
            base == f * 1024,
            a == old(acc).v@,
            a.len() == HL,
            acc.v@.len() == HL,
            forall|lane: int| i <= lane < HL ==> #[trigger] acc.v@[lane] == a[lane],
            forall|lane: int|
                0 <= lane < i ==> congruent(
                    #[trigger] acc.v@[lane] as int,
                    a[lane] + (if add {
                        (net.aux_lane(lane))(f as int)
                    } else {
                        -(net.aux_lane(lane))(f as int)
                    }),
                ),
        decreases HL - i,
    {
        let w = net.aux[base + i] as i16;
        let x = acc.v[i];
        let y = if add {
            x.wrapping_add(w)
        } else {
            x.wrapping_sub(w)
        };
        acc.v.set(i, y);
        i += 1;
    }
}

/// Applies a list of piece-square inputs.
fn apply_psqt_list(net: &Network, acc: &mut Accumulator, list: &Vec<usize>, add: bool)
    requires
        net.wf(),
        all_below(list@, PSQT_FEATURES as int),
        old(acc).v@.len() == HL,
    ensures
        final(acc).v@.len() == HL,
        forall|lane: int|
            0 <= lane < HL ==> congruent(
                #[trigger] final(acc).v@[lane] as int,
                old(acc).v@[lane] + (if add {
                    list_sum(list@, net.psqt_lane(lane))
                } else {
                    -list_sum(list@, net.psqt_lane(lane))
                }),
            ),
{
    let ghost a = acc.v@;
    let mut i: usize = 0;
    while i < list.len()
        invariant
            i <= list@.len(),
            net.wf(),
            all_below(list@, PSQT_FEATURES as int),
            a == old(acc).v@,
            acc.v@.len() == HL,
            forall|lane: int|
                0 <= lane < HL ==> congruent(
                    #[trigger] acc.v@[lane] as int,
                    a[lane] + (if add {
                        list_sum(list@.subrange(0, i as int), net.psqt_lane(lane))
                    } else {
                        -list_sum(list@.subrange(0, i as int), net.psqt_lane(lane))
                    }),
                ),
        decreases list@.len() - i,
    {
        let ghost before = acc.v@;
        let f = list[i];
        apply_psqt(net, acc, f, add);
        proof {
            assert(list@.subrange(0, i + 1).drop_last() =~= list@.subrange(0, i as int));
            assert forall|lane: int| 0 <= lane < HL implies congruent(
                #[trigger] acc.v@[lane] as int,
                a[lane] + (if add {
                    list_sum(list@.subrange(0, i + 1), net.psqt_lane(lane))
                } else {
                    -list_sum(list@.subrange(0, i + 1), net.psqt_lane(lane))
                }),
            ) by {
                let w = (net.psqt_lane(lane))(f as int);
                let k = if add {
                    w
                } else {
                    -w
                };
                let sum = list_sum(list@.subrange(0, i as int), net.psqt_lane(lane));
                assert(list_sum(list@.subrange(0, i + 1), net.psqt_lane(lane)) == sum + w);
                lemma_congruent(
                    before[lane] as int,
                    a[lane] + (if add {
                        sum
                    } else {
                        -sum
                    }),
                    acc.v@[lane] as int,
                    k,
                );
            }
        }
        i += 1;
    }
    proof {
        assert(list@.subrange(0, i as int) =~= list@);
    }
}

/// Applies a list of other inputs.
fn apply_aux_list(net: &Network, acc: &mut Accumulator, list: &Vec<usize>, add: bool)
    requires
        net.wf(),
        all_below(list@, AUX_FEATURES as int),
        old(acc).v@.len() == HL,
    ensures
        final(acc).v@.len() == HL,
        forall|lane: int|
            0 <= lane < HL ==> congruent(
                #[trigger] final(acc).v@[lane] as int,
                old(acc).v@[lane] + (if add {
                    list_sum(list@, net.aux_lane(lane))
                } else {
                    -list_sum(list@, net.aux_lane(lane))
                }),
            ),
{
    let ghost a = acc.v@;
    let mut i: usize = 0;
    while i < list.len()
        invariant
            i <= list@.len(),
            net.wf(),
            all_below(list@, AUX_FEATURES as int),
            a == old(acc).v@,
            acc.v@.len() == HL,
            forall|lane: int|
                0 <= lane < HL ==> congruent(
                    #[trigger] acc.v@[lane] as int,
                    a[lane] + (if add {
                        list_sum(list@.subrange(0, i as int), net.aux_lane(lane))
                    } else {
                        -list_sum(list@.subrange(0, i as int), net.aux_lane(lane))
                    }),
                ),
        decreases list@.len() - i,
    {
        let ghost before = acc.v@;
        let f = list[i];
        apply_aux(net, acc, f, add);
        proof {
            assert(list@.subrange(0, i + 1).drop_last() =~= list@.subrange(0, i as int));
            assert forall|lane: int| 0 <= lane < HL implies congruent(
                #[trigger] acc.v@[lane] as int,
                a[lane] + (if add {
                    list_sum(list@.subrange(0, i + 1), net.aux_lane(lane))
                } else {
                    -list_sum(list@.subrange(0, i + 1), net.aux_lane(lane))
                }),
            ) by {
                let w = (net.aux_lane(lane))(f as int);
                let k = if add {
                    w
                } else {
                    -w
                };
                let sum = list_sum(list@.subrange(0, i as int), net.aux_lane(lane));
                assert(list_sum(list@.subrange(0, i + 1), net.aux_lane(lane)) == sum + w);
                lemma_congruent(
                    before[lane] as int,
                    a[lane] + (if add {
                        sum
                    } else {
                        -sum
                    }),
                    acc.v@[lane] as int,
                    k,
                );
            }
        }
        i += 1;
    }
    proof {
        assert(list@.subrange(0, i as int) =~= list@);
    }
}

/// Brings an accumulator up to date: every lane gains the weights of the inputs added and
/// loses those of the inputs taken away.
pub fn update_in_place(net: &Network, acc: &mut Accumulator, d: &Lists)
    requires
        net.wf(),
        d.in_range(),
        old(acc).v@.len() == HL,
    ensures
        final(acc).v@.len() == HL,
        forall|lane: int|
            0 <= lane < HL ==> congruent(
                #[trigger] final(acc).v@[lane] as int,
                old(acc).v@[lane] + d.psqt_net(net.psqt_lane(lane)) + d.aux_net(
                    net.aux_lane(lane),
                ),
            ),
{
    let ghost a0 = acc.v@;
    apply_psqt_list(net, acc, &d.psqt_add, true);
    let ghost a1 = acc.v@;
    apply_psqt_list(net, acc, &d.psqt_sub, false);
    let ghost a2 = acc.v@;
    apply_aux_list(net, acc, &d.aux_add, true);
    let ghost a3 = acc.v@;
    apply_aux_list(net, acc, &d.aux_sub, false);
    proof {
        assert forall|lane: int| 0 <= lane < HL implies congruent(
            #[trigger] acc.v@[lane] as int,
            a0[lane] + d.psqt_net(net.psqt_lane(lane)) + d.aux_net(net.aux_lane(lane)),
        ) by {
            let x0 = a0[lane] as int;
            let p1 = list_sum(d.psqt_add@, net.psqt_lane(lane));
            let p2 = list_sum(d.psqt_sub@, net.psqt_lane(lane));
            let q1 = list_sum(d.aux_add@, net.aux_lane(lane));
            let q2 = list_sum(d.aux_sub@, net.aux_lane(lane));
            assert(congruent(a1[lane] as int, x0 + p1));
            lemma_congruent(a1[lane] as int, x0 + p1, a2[lane] as int, -p2);
            lemma_congruent(a2[lane] as int, x0 + p1 - p2, a3[lane] as int, q1);
            lemma_congruent(a3[lane] as int, x0 + p1 - p2 + q1, acc.v@[lane] as int, -q2);
        }
    }
}

/// The accumulator of the new board from that of the old one.
pub fn update(net: &Network, src: &Accumulator, d: &Lists) -> (r: Accumulator)
    requires
        net.wf(),
        d.in_range(),
        src.v@.len() == HL,
    ensures
        r.v@.len() == HL,
        forall|lane: int|
            0 <= lane < HL ==> congruent(
                #[trigger] r.v@[lane] as int,
                src.v@[lane] + d.psqt_net(net.psqt_lane(lane)) + d.aux_net(net.aux_lane(lane)),
            ),
{
    let mut r = src.copy();
    update_in_place(net, &mut r, d);
    r
}

/// An accumulator brought up to date with the changes between two boards is that of the
/// second.
pub proof fn update_follows_board(
    net: &Network,
    src: &Accumulator,
    dst: &Accumulator,
    d: &Lists,
    was: Board,
    now: Board,
    v: Perspective,
)
    requires
        net.fits(src, was, v),
        dst.v@.len() == HL,
        forall|lane: int|
            0 <= lane < HL ==> congruent(
                #[trigger] dst.v@[lane] as int,
                src.v@[lane] + d.psqt_net(net.psqt_lane(lane)) + d.aux_net(net.aux_lane(lane)),
            ),
        forall|w: spec_fn(int) -> int| #[trigger]
            d.aux_net(w) == aux_total(now, v, w) - aux_total(was, v, w),
        forall|w: spec_fn(int) -> int| #[trigger]
            d.psqt_net(w) == psqt_total(now, v, w, 64) - psqt_total(was, v, w, 64),
    ensures
        net.fits(dst, now, v),
{
    assert forall|lane: int| 0 <= lane < HL implies congruent(
        #[trigger] dst.v@[lane] as int,
        net.lane_value(now, v, lane),
    ) by {
        let k = d.psqt_net(net.psqt_lane(lane)) + d.aux_net(net.aux_lane(lane));
        assert(congruent(src.v@[lane] as int, net.lane_value(was, v, lane)));
        lemma_congruent(
            src.v@[lane] as int,
            net.lane_value(was, v, lane),
            dst.v@[lane] as int,
            k,
        );
    }
}

// The layers

/// A lane kept between 0 and 255.
pub open spec fn clipped(x: i16) -> int {
    if x < 0 {
        0
    } else if x > 255 {
        255
    } else {
        x as int
    }
}

/// The two halves of an accumulator multiplied together, taken down to at most 127.
pub open spec fn product(acc: Seq<i16>, j: int) -> int {
    clipped(acc[j]) * clipped(acc[j + PAIRED]) / 512
}

/// Input `i` of the first layer: the side to move first.
pub open spec fn layer_input(us: Seq<i16>, them: Seq<i16>, i: int) -> int {
    if i < PAIRED {
        product(us, i)
    } else {
        product(them, i - PAIRED)
    }
}

/// Weight sum of one output of the first layer over the first `n` inputs.
pub open spec fn first_sum(
    net: &Network,
    us: Seq<i16>,
    them: Seq<i16>,
    at: int,
    n: nat,
) -> int
    decreases n,
{
    if n == 0 {
        0
    } else {
        first_sum(net, us, them, at, (n - 1) as nat) + layer_input(us, them, n - 1)
            * net.l1_weights@[(n - 1) * 256 + at]
    }
}

fn clip(x: i16) -> (r: i32)
    ensures
        r == clipped(x),
        0 <= r <= 255,
{
    if x < 0 {
        0
    } else if x > 255 {
        255
    } else {
        x as i32
    }
}

fn product_of(acc: &Accumulator, j: usize) -> (r: i32)
    requires
        acc.v@.len() == HL,
        j < PAIRED,
    ensures
        r == product(acc.v@, j as int),
        0 <= r <= 127,
{
    let lo = clip(acc.v[j]);
    let hi = clip(acc.v[j + PAIRED]);
    proof {
        assert(0 <= lo * hi <= 65025) by (nonlinear_arith)
            requires
                0 <= lo <= 255,
                0 <= hi <= 255,
        ;
    }
    (lo * hi) / 512
}

impl Network {
    /// Weight sums of the first layer of a bucket, before its bias.
    pub fn first_layer(&self, us: &Accumulator, them: &Accumulator, bucket: usize) -> (r: Vec<i32>)
        requires
            self.wf(),
            us.v@.len() == HL,
            them.v@.len() == HL,
            bucket < OUTPUT_BUCKETS,
        ensures
            r@.len() == L2,
            forall|o: int|
                0 <= o < L2 ==> #[trigger] r@[o] == first_sum(
                    self,
                    us.v@,
                    them.v@,
                    bucket * 32 + o,
                    1024,
                ) && -16_646_144 <= r@[o] <= 16_646_144,
    {
        let mut x: Vec<i32> = Vec::new();
        let mut i: usize = 0;
        while i < HL
            invariant
                i <= HL,
                us.v@.len() == HL,
                them.v@.len() == HL,
                x@.len() == i,
                forall|k: int|
                    0 <= k < i ==> #[trigger] x@[k] == layer_input(us.v@, them.v@, k) && 0 <= x@[k]
                        <= 127,
            decreases HL - i,
        {
            let y = if i < PAIRED {
                product_of(us, i)
            } else {
                product_of(them, i - PAIRED)
            };
            x.push(y);
            i += 1;
        }
        let mut r: Vec<i32> = Vec::new();
        let mut o: usize = 0;
        while o < L2
            invariant
                o <= L2,
                self.wf(),
                bucket < OUTPUT_BUCKETS,
                x@.len() == HL,
                forall|k: int|
                    0 <= k < HL ==> #[trigger] x@[k] == layer_input(us.v@, them.v@, k) && 0 <= x@[k]
                        <= 127,
                r@.len() == o,
                forall|k: int|
                    0 <= k < o ==> #[trigger] r@[k] == first_sum(
                        self,
                        us.v@,
                        them.v@,
                        bucket * 32 + k,
                        1024,
                    ) && -16_646_144 <= r@[k] <= 16_646_144,
            decreases L2 - o,
        {
            let at: usize = bucket * 32 + o;
            let mut sum: i32 = 0;
            let mut k: usize = 0;
            while k < HL
                invariant
                    k <= HL,
                    self.wf(),
                    at < 256,
                    x@.len() == HL,
                    forall|j: int|
                        0 <= j < HL ==> #[trigger] x@[j] == layer_input(us.v@, them.v@, j) && 0
                            <= x@[j] <= 127,
                    sum == first_sum(self, us.v@, them.v@, at as int, k as nat),
                    -16_256 * k <= sum <= 16_256 * k,
                decreases HL - k,
            {
                let w = self.l1_weights[k * 256 + at] as i32;
                let y = x[k];
                proof {
                    assert(-16_256 <= y * w <= 16_256) by (nonlinear_arith)
                        requires
                            0 <= y <= 127,
                            -128 <= w <= 127,
                    ;
                }
                sum = sum + y * w;
                k += 1;
            }
            r.push(sum);
            o += 1;
        }
        r
    }
}

/// Output of the first layer with its bias.
pub open spec fn first_out(net: &Network, a1: Seq<i32>, bucket: int, k: int) -> int {
    a1[k] + net.l1_bias@[bucket * 32 + k]
}

/// Input `i` of the second layer: each output clipped, then each squared.
pub open spec fn second_input(net: &Network, a1: Seq<i32>, bucket: int, i: int) -> int {
    if i < 32 {
        crate::arith::clamped(first_out(net, a1, bucket, i), 0, S1 as int)
    } else {
        let c = crate::arith::clamped(first_out(net, a1, bucket, i - 32), -S1, S1 as int);
        c * c / (S1 as int)
    }
}

pub open spec fn second_sum(net: &Network, a1: Seq<i32>, bucket: int, o: int, n: nat) -> int
    decreases n,
{
    if n == 0 {
        0
    } else {
        second_sum(net, a1, bucket, o, (n - 1) as nat) + second_input(net, a1, bucket, n - 1)
            * net.l2_weights@[(n - 1) * 256 + bucket * 32 + o]
    }
}

/// Input `k` of the third layer.
pub open spec fn third_input(net: &Network, a1: Seq<i32>, bucket: int, k: int) -> int {
    crate::arith::clamped(
        quot(second_sum(net, a1, bucket, k, 64) * 64 * 64, S1 as int) + net.l2_bias@[bucket * 32
            + k],
        0,
        S2 as int,
    )
}

pub open spec fn third_sum(net: &Network, a1: Seq<i32>, bucket: int, n: nat) -> int
    decreases n,
{
    if n == 0 {
        net.l3_bias@[bucket] as int
    } else {
        third_sum(net, a1, bucket, (n - 1) as nat) + third_input(net, a1, bucket, n - 1)
            * net.l3_weights@[(n - 1) * 8 + bucket]
    }
}

/// Output of the layer stack in centipawns.
pub open spec fn stack_value(net: &Network, a1: Seq<i32>, bucket: int) -> int {
    quot(third_sum(net, a1, bucket, 32) * 400, S3 as int)
}

fn clamp_wide(v: i64, lo: i64, hi: i64) -> (r: i64)
    requires
        lo <= hi,
    ensures
        r == crate::arith::clamped(v as int, lo as int, hi as int),
        lo <= r <= hi,
{
    if v < lo {
        lo
    } else if v > hi {
        hi
    } else {
        v
    }
}

impl Network {
    /// Inputs of the second layer.
    fn second_inputs(&self, a1: &Vec<i32>, bucket: usize) -> (r: Vec<i64>)
        requires
            self.wf(),
            a1@.len() == L2,
            bucket < OUTPUT_BUCKETS,
        ensures
            r@.len() == 64,
            forall|i: int|
                0 <= i < 64 ==> #[trigger] r@[i] == second_input(self, a1@, bucket as int, i) && 0
                    <= r@[i] <= 16384,
    {
        let mut r: Vec<i64> = Vec::new();
        let mut i: usize = 0;
        while i < 64
            invariant
                i <= 64,
                self.wf(),
                a1@.len() == L2,
                bucket < OUTPUT_BUCKETS,
                r@.len() == i,
                forall|k: int|
                    0 <= k < i ==> #[trigger] r@[k] == second_input(self, a1@, bucket as int, k)
                        && 0 <= r@[k] <= 16384,
            decreases 64 - i,
        {
            let k: usize = if i < 32 {
                i
            } else {
                i - 32
            };
            let v: i64 = a1[k] as i64 + self.l1_bias[bucket * 32 + k] as i64;
            let y: i64 = if i < 32 {
                clamp_wide(v, 0, 16384)
            } else {
                // The square is taken of the clipped output, so a negative one contributes.
                let c = clamp_wide(v, -16384, 16384);
                proof {
                    assert(0 <= c * c <= 268_435_456) by (nonlinear_arith)
                        requires
                            -16384 <= c <= 16384,
                    ;
                }
                c * c / 16384
            };
            r.push(y);
            i += 1;
        }
        r
    }

    /// Inputs of the third layer.
    fn third_inputs(&self, h2: &Vec<i64>, Ghost(a1): Ghost<Seq<i32>>, bucket: usize) -> (r: Vec<i64>)
        requires
            self.wf(),
            bucket < OUTPUT_BUCKETS,
            h2@.len() == 64,
            forall|i: int|
                0 <= i < 64 ==> #[trigger] h2@[i] == second_input(self, a1, bucket as int, i) && 0
                    <= h2@[i] <= 16384,
        ensures
            r@.len() == L3,
            forall|k: int|
                0 <= k < L3 ==> #[trigger] r@[k] == third_input(self, a1, bucket as int, k) && 0
                    <= r@[k] <= 262144,
    {
        let mut r: Vec<i64> = Vec::new();
        let mut k: usize = 0;
        while k < L3
            invariant
                k <= L3,
                self.wf(),
                bucket < OUTPUT_BUCKETS,
                h2@.len() == 64,
                forall|i: int|
                    0 <= i < 64 ==> #[trigger] h2@[i] == second_input(self, a1, bucket as int, i)
                        && 0 <= h2@[i] <= 16384,
                r@.len() == k,
                forall|j: int|
                    0 <= j < k ==> #[trigger] r@[j] == third_input(self, a1, bucket as int, j) && 0
                        <= r@[j] <= 262144,
            decreases L3 - k,
        {
            let mut sum: i64 = 0;
            let mut i: usize = 0;
            while i < 64
                invariant
                    i <= 64,
                    k < L3,
                    self.wf(),
                    bucket < OUTPUT_BUCKETS,
                    h2@.len() == 64,
                    forall|j: int|
                        0 <= j < 64 ==> #[trigger] h2@[j] == second_input(
                            self,
                            a1,
                            bucket as int,
                            j,
                        ) && 0 <= h2@[j] <= 16384,
                    sum == second_sum(self, a1, bucket as int, k as int, i as nat),
                    -0x2000_0000_0000 * i <= sum <= 0x2000_0000_0000 * i,
                decreases 64 - i,
            {
                let w = self.l2_weights[i * 256 + bucket * 32 + k] as i64;
                let h = h2[i];
                proof {
                    assert(-0x2000_0000_0000 <= h * w <= 0x2000_0000_0000) by (nonlinear_arith)
                        requires
                            0 <= h <= 16384,
                            -0x8000_0000 <= w <= 0x7fff_ffff,
                    ;
                }
                sum = sum + h * w;
                i += 1;
            }
            // Scaled by 64 * 64 and taken down by 16384 together.
            let scaled: i64 = crate::arith::div_toward_zero(sum, 4);
            proof {
                lemma_scaled(sum as int);
            }
            let v: i64 = scaled + self.l2_bias[bucket * 32 + k] as i64;
            r.push(clamp_wide(v, 0, 262144));
            k += 1;
        }
        r
    }

    /// Integer layer stack: the value in centipawns from the first layer's weight sums.
    pub fn stack_int(&self, a1: &Vec<i32>, bucket: usize) -> (r: i32)
        requires
            self.wf(),
            a1@.len() == L2,
            bucket < OUTPUT_BUCKETS,
        ensures
            r == stack_value(self, a1@, bucket as int) as i32,
    {
        let h2 = self.second_inputs(a1, bucket);
        let h3 = self.third_inputs(&h2, Ghost(a1@), bucket);
        let mut out: i64 = self.l3_bias[bucket] as i64;
        let mut i: usize = 0;
        while i < L3
            invariant
                i <= L3,
                self.wf(),
                bucket < OUTPUT_BUCKETS,
                h3@.len() == L3,
                forall|j: int|
                    0 <= j < L3 ==> #[trigger] h3@[j] == third_input(self, a1@, bucket as int, j)
                        && 0 <= h3@[j] <= 262144,
                out == third_sum(self, a1@, bucket as int, i as nat),
                -0x8000_0000 - 0x2_0000_0000_0000 * i <= out <= 0x8000_0000 + 0x2_0000_0000_0000
                    * i,
            decreases L3 - i,
        {
            let w = self.l3_weights[i * 8 + bucket] as i64;
            let h = h3[i];
            proof {
                assert(-0x2_0000_0000_0000 <= h * w <= 0x2_0000_0000_0000) by (nonlinear_arith)
                    requires
                        0 <= h <= 262144,
                        -0x8000_0000 <= w <= 0x7fff_ffff,
                ;
            }
            out = out + h * w;
            i += 1;
        }
        #[verifier::truncate]
        let r = crate::arith::div_toward_zero(out * 400, S3) as i32;
        r
    }
}

proof fn lemma_scaled(x: int)
    ensures
        quot(x, 4) == quot(x * 64 * 64, 16384),
{
    if x >= 0 {
        assert(x / 4 == (x * 4096) / 16384) by (nonlinear_arith)
            requires
                x >= 0,
        ;
    } else {
        assert((-x) / 4 == (-x * 4096) / 16384) by (nonlinear_arith)
            requires
                x < 0,
        ;
    }
}

/// Output bucket for a number of pieces.
pub fn output_bucket(count: i32) -> (r: usize)
    ensures
        r < OUTPUT_BUCKETS,
        r == (if count <= 2 {
            0
        } else if (count - 2) / 4 < 8 {
            (count - 2) / 4
        } else {
            7
        }),
{
    if count <= 2 {
        return 0;
    }
    let b = ((count - 2) / 4) as usize;
    if b < 8 {
        b
    } else {
        7
    }
}

// The file

/// Little-endian 16-bit number.
pub open spec fn le16(b: Seq<u8>, at: int) -> i16 {
    ((b[at] as u16 + 256 * b[at + 1] as u16) as u16) as i16
}

/// Little-endian 32-bit number.
pub open spec fn le32(b: Seq<u8>, at: int) -> i32 {
    ((b[at] as u32 + 256 * b[at + 1] as u32 + 65536 * b[at + 2] as u32 + 16777216
        * b[at + 3] as u32) as u32) as i32
}

fn read_i8s(b: &Vec<u8>, at: usize, n: usize) -> (r: Vec<i8>)
    requires
        at + n <= b@.len(),
        at <= 0x1000_0000,
        n <= 0x1000_0000,
    ensures
        r@.len() == n,
        forall|i: int| 0 <= i < n ==> #[trigger] r@[i] == b@[at + i] as i8,
{
    let mut r: Vec<i8> = Vec::with_capacity(n);
    let mut i: usize = 0;
    while i < n
        invariant
            i <= n <= 0x1000_0000,
            at <= 0x1000_0000,
            at + n <= b@.len(),
            r@.len() == i,
            forall|k: int| 0 <= k < i ==> #[trigger] r@[k] == b@[at + k] as i8,
        decreases n - i,
    {
        #[verifier::truncate]
        let x = b[at + i] as i8;
        r.push(x);
        i += 1;
    }
    r
}

fn read_i16s(b: &Vec<u8>, at: usize, n: usize) -> (r: Vec<i16>)
    requires
        at + 2 * n <= b@.len(),
        at <= 0x1000_0000,
        n <= 0x1000_0000,
    ensures
        r@.len() == n,
        forall|i: int| 0 <= i < n ==> #[trigger] r@[i] == le16(b@, at + 2 * i),
{
    let mut r: Vec<i16> = Vec::with_capacity(n);
    let mut i: usize = 0;
    while i < n
        invariant
            i <= n <= 0x1000_0000,
            at <= 0x1000_0000,
            at + 2 * n <= b@.len(),
            r@.len() == i,
            forall|k: int| 0 <= k < i ==> #[trigger] r@[k] == le16(b@, at + 2 * k),
        decreases n - i,
    {
        let lo = b[at + 2 * i] as u16;
        let hi = b[at + 2 * i + 1] as u16;
        #[verifier::truncate]
        let x = (lo + 256 * hi) as i16;
        r.push(x);
        i += 1;
    }
    r
}

fn read_i32s(b: &Vec<u8>, at: usize, n: usize) -> (r: Vec<i32>)
    requires
        at + 4 * n <= b@.len(),
        at <= 0x1000_0000,
        n <= 0x1000_0000,
    ensures
        r@.len() == n,
        forall|i: int| 0 <= i < n ==> #[trigger] r@[i] == le32(b@, at + 4 * i),
{
    let mut r: Vec<i32> = Vec::with_capacity(n);
    let mut i: usize = 0;
    while i < n
        invariant
            i <= n <= 0x1000_0000,
            at <= 0x1000_0000,
            at + 4 * n <= b@.len(),
            r@.len() == i,
            forall|k: int| 0 <= k < i ==> #[trigger] r@[k] == le32(b@, at + 4 * k),
        decreases n - i,
    {
        let p = at + 4 * i;
        let (b0, b1, b2, b3) = (b[p] as u32, b[p + 1] as u32, b[p + 2] as u32, b[p + 3] as u32);
        #[verifier::truncate]
        let x = (b0 + 256 * b1 + 65536 * b2 + 16777216 * b3) as i32;
        r.push(x);
        i += 1;
    }
    r
}

impl Network {
    /// Reads a network file: the tables one after the other, padded at the end.
    pub fn from_bytes(b: &Vec<u8>) -> (r: Option<Network>)
        ensures
            r is Some <==> b@.len() == NETWORK_BYTES,
            r matches Some(net) ==> {
                &&& net.wf()
                &&& forall|i: int| 0 <= i < net.psqt@.len() ==> #[trigger] net.psqt@[i] == le16(b@, 2 * i)
                &&& forall|i: int|
                    0 <= i < net.aux@.len() ==> #[trigger] net.aux@[i] == b@[15_728_640 + i] as i8
                &&& forall|i: int|
                    0 <= i < HL ==> #[trigger] net.ft_bias@[i] == le16(b@, 81_641_472 + 2 * i)
                &&& forall|i: int|
                    0 <= i < 262_144 ==> #[trigger] net.l1_weights@[i] == b@[81_643_520 + i] as i8
                &&& forall|i: int|
                    0 <= i < 256 ==> #[trigger] net.l1_bias@[i] == le32(b@, 81_905_664 + 4 * i)
                &&& forall|i: int|
                    0 <= i < 16_384 ==> #[trigger] net.l2_weights@[i] == le32(
                        b@,
                        81_906_688 + 4 * i,
                    )
                &&& forall|i: int|
                    0 <= i < 256 ==> #[trigger] net.l2_bias@[i] == le32(b@, 81_972_224 + 4 * i)
                &&& forall|i: int|
                    0 <= i < 256 ==> #[trigger] net.l3_weights@[i] == le32(b@, 81_973_248 + 4 * i)
                &&& forall|i: int|
                    0 <= i < 8 ==> #[trigger] net.l3_bias@[i] == le32(b@, 81_974_272 + 4 * i)
            },
    {
        if b.len() != NETWORK_BYTES {
            return None;
        }
        Some(
            Network {
                psqt: read_i16s(b, 0, 7_864_320),
                aux: read_i8s(b, 15_728_640, 65_912_832),
                ft_bias: read_i16s(b, 81_641_472, 1024),
                l1_weights: read_i8s(b, 81_643_520, 262_144),
                l1_bias: read_i32s(b, 81_905_664, 256),
                l2_weights: read_i32s(b, 81_906_688, 16_384),
                l2_bias: read_i32s(b, 81_972_224, 256),
                l3_weights: read_i32s(b, 81_973_248, 256),
                l3_bias: read_i32s(b, 81_974_272, 8),
            },
        )
    }
}

} // verus!
