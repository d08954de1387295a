//! What the layers of the network do to what flows through them.

use vstd::prelude::*;

use crate::arith::{clamped, quot};
use crate::network::{
    clipped, first_out, first_sum, layer_input, product, second_input, second_sum, stack_value,
    third_input, third_sum, Network,
};
use crate::nnue::{board_sums, bucket_for, lanes, perspective};
use crate::snapshot::Snapshot;
use crate::types::Color;

verus! {

/// Weight of neuron `k` in the output of a bucket; the buckets lie next to each other.
pub open spec fn out_weight(net: &Network, bucket: int, k: int) -> int {
    net.l3_weights@[k * 8 + bucket] as int
}

/// Weight of input `k` in neuron `o` of a bucket's second layer.
pub open spec fn mid_weight(net: &Network, bucket: int, o: int, k: int) -> int {
    net.l2_weights@[k * 256 + bucket * 32 + o] as int
}

/// Weight of input `k` in neuron `o` of a bucket's first layer.
pub open spec fn in_weight(net: &Network, bucket: int, o: int, k: int) -> int {
    net.l1_weights@[k * 256 + (bucket * 32 + o)] as int
}

// The output layer

/// The value is the output layer's sum in centipawns: four hundred of them to a full
/// `1 << 24`, cut off towards zero, and of the sum's own sign.
pub proof fn the_value_scales_the_sum(net: &Network, a1: Seq<i32>, bucket: int)
    ensures
        ({
            let sum = third_sum(net, a1, bucket, 32);
            let v = stack_value(net, a1, bucket);
            &&& sum >= 0 ==> v >= 0 && v * 16_777_216 <= sum * 400 && sum * 400 < (v + 1)
                * 16_777_216
            &&& sum <= 0 ==> v <= 0 && v * 16_777_216 >= sum * 400 && sum * 400 > (v - 1)
                * 16_777_216
        }),
{
}

/// The value does not fall as the output layer's sum rises.
pub proof fn the_value_rises_with_the_sum(
    net: &Network,
    a: Seq<i32>,
    i: int,
    other: &Network,
    b: Seq<i32>,
    j: int,
)
    requires
        third_sum(net, a, i, 32) <= third_sum(other, b, j, 32),
    ensures
        stack_value(net, a, i) <= stack_value(other, b, j),
{
}

/// The two networks differ in their output layers only.
pub open spec fn same_below(net: &Network, other: &Network) -> bool {
    &&& net.l1_bias@ == other.l1_bias@
    &&& net.l2_weights@ == other.l2_weights@
    &&& net.l2_bias@ == other.l2_bias@
}

proof fn lemma_second_same(net: &Network, other: &Network, a1: Seq<i32>, bucket: int, o: int, n: nat)
    requires
        same_below(net, other),
    ensures
        second_sum(net, a1, bucket, o, n) == second_sum(other, a1, bucket, o, n),
    decreases n,
{
    if n > 0 {
        lemma_second_same(net, other, a1, bucket, o, (n - 1) as nat);
    }
}

proof fn lemma_third_input_range(net: &Network, a1: Seq<i32>, bucket: int, k: int)
    ensures
        0 <= third_input(net, a1, bucket, k) <= 262_144,
{
}

proof fn lemma_third_raised(
    net: &Network,
    other: &Network,
    a1: Seq<i32>,
    bucket: int,
    n: nat,
    d: int,
)
    requires
        same_below(net, other),
        other.l3_bias@[bucket] == net.l3_bias@[bucket] + d,
        0 <= n <= 32,
        forall|k: int|
            0 <= k < 32 ==> #[trigger] out_weight(net, bucket, k) <= #[trigger] out_weight(other, bucket, k),
    ensures
        third_sum(net, a1, bucket, n) + d <= third_sum(other, a1, bucket, n),
        (forall|k: int|
            0 <= k < 32 ==> #[trigger] out_weight(net, bucket, k) == #[trigger] out_weight(other, bucket, k)) ==> third_sum(net, a1, bucket, n) + d
            == third_sum(other, a1, bucket, n),
    decreases n,
{
    if n > 0 {
        let k = n - 1;
        lemma_third_raised(net, other, a1, bucket, k as nat, d);
        lemma_second_same(net, other, a1, bucket, k, 64);
        lemma_third_input_range(net, a1, bucket, k);
        let x = third_input(net, a1, bucket, k);
        let w = out_weight(net, bucket, k);
        let z = out_weight(other, bucket, k);
        assert(x * w <= x * z) by (nonlinear_arith)
            requires
                x >= 0,
                w <= z,
        ;
    }
}

/// The output bias is added to the sum: raising it by `d` raises the sum by `d` and never
/// lowers the value.
pub proof fn the_output_bias_is_added(
    net: &Network,
    other: &Network,
    a1: Seq<i32>,
    bucket: int,
    d: int,
)
    requires
        same_below(net, other),
        net.l3_weights@ == other.l3_weights@,
        other.l3_bias@[bucket] == net.l3_bias@[bucket] + d,
        d >= 0,
    ensures
        third_sum(other, a1, bucket, 32) == third_sum(net, a1, bucket, 32) + d,
        stack_value(net, a1, bucket) <= stack_value(other, a1, bucket),
{
    lemma_third_raised(net, other, a1, bucket, 32, d);
}

/// The inputs of the output layer are never negative, so raising a weight of it never lowers
/// the value.
pub proof fn output_weights_count_for(net: &Network, other: &Network, a1: Seq<i32>, bucket: int)
    requires
        same_below(net, other),
        net.l3_bias@ == other.l3_bias@,
        forall|k: int|
            0 <= k < 32 ==> #[trigger] out_weight(net, bucket, k) <= #[trigger] out_weight(other, bucket, k),
    ensures
        stack_value(net, a1, bucket) <= stack_value(other, a1, bucket),
{
    lemma_third_raised(net, other, a1, bucket, 32, 0);
}

proof fn lemma_third_single(net: &Network, a1: Seq<i32>, bucket: int, at: int, n: nat)
    requires
        0 <= at < 32,
        n <= 32,
        forall|k: int|
            0 <= k < 32 && k != at ==> #[trigger] out_weight(net, bucket, k) == 0,
    ensures
        third_sum(net, a1, bucket, n) == net.l3_bias@[bucket] + if at < n {
            third_input(net, a1, bucket, at) * out_weight(net, bucket, at)
        } else {
            0
        },
    decreases n,
{
    if n > 0 {
        let k = n - 1;
        lemma_third_single(net, a1, bucket, at, k as nat);
        if k != at {
            assert(out_weight(net, bucket, k) == 0);
            assert(third_input(net, a1, bucket, k) * 0 == 0);
        }
    }
}

/// With no output weights the value is the bucket's bias alone, in centipawns; with one, that
/// neuron is added to it with its weight.
pub proof fn each_output_weight_counts_once(
    net: &Network,
    a1: Seq<i32>,
    bucket: int,
    at: int,
)
    requires
        0 <= at < 32,
        forall|k: int|
            0 <= k < 32 && k != at ==> #[trigger] out_weight(net, bucket, k) == 0,
    ensures
        third_sum(net, a1, bucket, 32) == net.l3_bias@[bucket] + third_input(net, a1, bucket, at)
            * out_weight(net, bucket, at),
        out_weight(net, bucket, at) == 0 ==> third_sum(net, a1, bucket, 32)
            == net.l3_bias@[bucket] && stack_value(net, a1, bucket) == quot(
            net.l3_bias@[bucket] * 400,
            16_777_216,
        ),
{
    lemma_third_single(net, a1, bucket, at, 32);
    assert(third_input(net, a1, bucket, at) * 0 == 0);
}

// The second layer

proof fn lemma_second_single(
    net: &Network,
    a1: Seq<i32>,
    bucket: int,
    o: int,
    at: int,
    n: nat,
)
    requires
        0 <= at < 64,
        n <= 64,
        forall|k: int|
            0 <= k < 64 && k != at ==> #[trigger] mid_weight(net, bucket, o, k) == 0,
    ensures
        second_sum(net, a1, bucket, o, n) == if at < n {
            second_input(net, a1, bucket, at) * mid_weight(net, bucket, o, at)
        } else {
            0
        },
    decreases n,
{
    if n > 0 {
        let k = n - 1;
        lemma_second_single(net, a1, bucket, o, at, k as nat);
        if k != at {
            assert(mid_weight(net, bucket, o, k) == 0);
            assert(second_input(net, a1, bucket, k) * 0 == 0);
        }
    }
}

/// A neuron of the second layer that one input reaches has that input times its weight, a
/// quarter of it with its bias and within its range; one that none reaches has its bias.
pub proof fn each_second_weight_counts_once(
    net: &Network,
    a1: Seq<i32>,
    bucket: int,
    o: int,
    at: int,
)
    requires
        0 <= at < 64,
        forall|k: int|
            0 <= k < 64 && k != at ==> #[trigger] mid_weight(net, bucket, o, k) == 0,
    ensures
        second_sum(net, a1, bucket, o, 64) == second_input(net, a1, bucket, at)
            * mid_weight(net, bucket, o, at),
        mid_weight(net, bucket, o, at) == 0 ==> third_input(net, a1, bucket, o)
            == clamped(net.l2_bias@[bucket * 32 + o] as int, 0, 262_144),
{
    lemma_second_single(net, a1, bucket, o, at, 64);
    assert(second_input(net, a1, bucket, at) * 0 == 0);
}

/// What the output layer reads of a neuron lies in its range and, inside the range, is its
/// bias and a quarter of its weight sum, cut off towards zero.
pub proof fn second_sums_are_scaled(net: &Network, a1: Seq<i32>, bucket: int, o: int)
    ensures
        ({
            let x = third_input(net, a1, bucket, o);
            let sum = second_sum(net, a1, bucket, o, 64);
            let part = x - net.l2_bias@[bucket * 32 + o];
            &&& 0 <= x <= 262_144
            &&& 0 < x < 262_144 && sum >= 0 ==> 4 * part <= sum < 4 * part + 4
            &&& 0 < x < 262_144 && sum <= 0 ==> 4 * part - 4 < sum <= 4 * part
            &&& 4 * net.l2_bias@[bucket * 32 + o] + sum <= 0 ==> x == 0
            &&& 4 * net.l2_bias@[bucket * 32 + o] + sum >= 4 * 262_144 ==> x == 262_144
        }),
{
}

/// A neuron reads no less where its weight sum is no less.
pub proof fn second_sums_count_for(net: &Network, a: Seq<i32>, b: Seq<i32>, bucket: int, o: int)
    requires
        second_sum(net, a, bucket, o, 64) <= second_sum(net, b, bucket, o, 64),
    ensures
        third_input(net, a, bucket, o) <= third_input(net, b, bucket, o),
{
}

/// The outputs of the first layer enter the second twice: cut off below, where negative ones
/// read nothing, and squared, where the sign is lost; both have the same full scale.
pub proof fn outputs_enter_twice(net: &Network, a1: Seq<i32>, bucket: int, k: int)
    requires
        0 <= k < 32,
    ensures
        ({
            let y = a1[k] + net.l1_bias@[bucket * 32 + k];
            let x = second_input(net, a1, bucket, k);
            let s = second_input(net, a1, bucket, k + 32);
            &&& 0 <= x <= 16_384
            &&& 0 <= s <= 16_384
            &&& y <= 0 ==> x == 0
            &&& 0 <= y <= 16_384 ==> x == y
            &&& y >= 16_384 ==> x == 16_384
            &&& y <= -16_384 || y >= 16_384 ==> s == 16_384
            &&& -16_384 <= y <= 16_384 ==> s * 16_384 <= y * y && y * y < (s + 1) * 16_384
        }),
{
    let y = first_out(net, a1, bucket, k);
    let c = clamped(y, -16_384, 16_384);
    assert(0 <= c * c <= 268_435_456) by (nonlinear_arith)
        requires
            -16_384 <= c <= 16_384,
    ;
    if c == 16_384 || c == -16_384 {
        assert(c * c == 268_435_456) by (nonlinear_arith)
            requires
                c == 16_384 || c == -16_384,
        ;
    }
}

// The first layer

proof fn lemma_first_single(
    net: &Network,
    us: Seq<i16>,
    them: Seq<i16>,
    bucket: int,
    o: int,
    at: int,
    n: nat,
)
    requires
        0 <= at < 1024,
        n <= 1024,
        forall|k: int|
            0 <= k < 1024 && k != at ==> #[trigger] in_weight(net, bucket, o, k) == 0,
    ensures
        first_sum(net, us, them, bucket * 32 + o, n) == if at < n {
            layer_input(us, them, at) * in_weight(net, bucket, o, at)
        } else {
            0
        },
    decreases n,
{
    if n > 0 {
        let k = n - 1;
        lemma_first_single(net, us, them, bucket, o, at, k as nat);
        if k != at {
            assert(in_weight(net, bucket, o, k) == 0);
            assert(layer_input(us, them, k) * 0 == 0);
        }
    }
}

/// A neuron of the first layer that one input reaches has that input times its weight. The
/// first half of the inputs is the mover's, the second the opponent's.
pub proof fn each_first_weight_counts_once(
    net: &Network,
    us: Seq<i16>,
    them: Seq<i16>,
    bucket: int,
    o: int,
    at: int,
)
    requires
        0 <= at < 1024,
        forall|k: int|
            0 <= k < 1024 && k != at ==> #[trigger] in_weight(net, bucket, o, k) == 0,
    ensures
        at < 512 ==> first_sum(net, us, them, bucket * 32 + o, 1024) == product(us, at)
            * in_weight(net, bucket, o, at),
        at >= 512 ==> first_sum(net, us, them, bucket * 32 + o, 1024) == product(them, at - 512)
            * in_weight(net, bucket, o, at),
{
    lemma_first_single(net, us, them, bucket, o, at, 1024);
}

/// Two paired lanes are multiplied, each kept between 0 and 255: nothing comes of a lane that
/// is not positive, and 127 of two full ones.
pub proof fn paired_lanes_are_multiplied(acc: Seq<i16>, j: int)
    ensures
        0 <= product(acc, j) <= 127,
        acc[j] <= 0 || acc[j + 512] <= 0 ==> product(acc, j) == 0,
        acc[j] >= 255 && acc[j + 512] >= 255 ==> product(acc, j) == 127,
        0 <= acc[j] <= 255 && 0 <= acc[j + 512] <= 255 ==> product(acc, j) * 512 <= acc[j] * acc[j
            + 512] && acc[j] * acc[j + 512] < (product(acc, j) + 1) * 512,
{
    let x = clipped(acc[j]);
    let y = clipped(acc[j + 512]);
    assert(0 <= x * y <= 65_025) by (nonlinear_arith)
        requires
            0 <= x <= 255,
            0 <= y <= 255,
    ;
    if x == 0 || y == 0 {
        assert(x * y == 0) by (nonlinear_arith)
            requires
                x == 0 || y == 0,
        ;
    }
    if x == 255 && y == 255 {
        assert(x * y == 65_025) by (nonlinear_arith)
            requires
                x == 255,
                y == 255,
        ;
    }
}

/// A fuller lane never reads less.
pub proof fn fuller_lanes_read_more(a: Seq<i16>, b: Seq<i16>, j: int)
    requires
        a[j] <= b[j],
        a[j + 512] <= b[j + 512],
    ensures
        product(a, j) <= product(b, j),
{
    let x = clipped(a[j]);
    let y = clipped(a[j + 512]);
    let z = clipped(b[j]);
    let w = clipped(b[j + 512]);
    assert(x * y <= z * w) by (nonlinear_arith)
        requires
            0 <= x <= z,
            0 <= y <= w,
    ;
}

/// The mover's own sight of the board fills the first half: with no weights on the second
/// half, the sums depend on nothing else.
pub proof fn the_mover_comes_first(
    net: &Network,
    a: Snapshot,
    b: Snapshot,
    stm: Color,
    bucket: int,
    o: int,
)
    requires
        0 <= o < 32,
        lanes(net, a.board@, perspective(stm, a.kings@[stm.idx() as int])) == lanes(
            net,
            b.board@,
            perspective(stm, b.kings@[stm.idx() as int]),
        ),
        forall|k: int| 512 <= k < 1024 ==> #[trigger] in_weight(net, bucket, o, k) == 0,
    ensures
        board_sums(net, a, stm, bucket)[o] == board_sums(net, b, stm, bucket)[o],
{
    let us = lanes(net, a.board@, perspective(stm, a.kings@[stm.idx() as int]));
    let other = stm.flip();
    lemma_own_half(
        net,
        us,
        lanes(net, a.board@, perspective(other, a.kings@[other.idx() as int])),
        lanes(net, b.board@, perspective(other, b.kings@[other.idx() as int])),
        bucket,
        o,
        1024,
    );
}

proof fn lemma_own_half(
    net: &Network,
    us: Seq<i16>,
    a: Seq<i16>,
    b: Seq<i16>,
    bucket: int,
    o: int,
    n: nat,
)
    requires
        n <= 1024,
        forall|k: int| 512 <= k < 1024 ==> #[trigger] in_weight(net, bucket, o, k) == 0,
    ensures
        first_sum(net, us, a, bucket * 32 + o, n) == first_sum(net, us, b, bucket * 32 + o, n),
    decreases n,
{
    if n > 0 {
        let k = n - 1;
        lemma_own_half(net, us, a, b, bucket, o, k as nat);
        if k >= 512 {
            assert(in_weight(net, bucket, o, k) == 0);
            assert(layer_input(us, a, k) * 0 == 0);
            assert(layer_input(us, b, k) * 0 == 0);
        }
    }
}

// The buckets

/// There are eight buckets of four pieces each, counted from two pieces, and a fuller board
/// never has a lower one.
pub proof fn buckets_hold_four_counts(a: i32, b: i32)
    requires
        a <= b,
    ensures
        0 <= bucket_for(a) <= 7,
        bucket_for(a) <= bucket_for(b),
        2 <= a < 30 && b == a + 4 ==> bucket_for(b) == bucket_for(a) + 1,
        a <= 5 ==> bucket_for(a) == 0,
        a >= 30 ==> bucket_for(a) == 7,
{
}

} // verus!
