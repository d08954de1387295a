//! Bitboards as sets of squares: which squares a 64-bit word holds, how the word
//! operations act on them, and how many there are.

use vstd::prelude::*;
use vstd::std_specs::bits::{axiom_u64_leading_zeros, axiom_u64_trailing_zeros};

verus! {

/// Square `s` is in the set `b`.
#[verifier::opaque]
pub open spec fn holds(b: u64, s: int) -> bool {
    0 <= s < 64 && (b >> (s as u64)) & 1u64 == 1u64
}

/// The set holding exactly the square `s`.
pub open spec fn one(s: int) -> u64 {
    1u64 << (s as u64)
}

/// Number of squares below `n` in the set `b`.
pub open spec fn count_below(b: u64, n: nat) -> nat
    decreases n,
{
    if n == 0 {
        0
    } else {
        count_below(b, (n - 1) as nat) + if holds(b, n - 1) {
            1nat
        } else {
            0nat
        }
    }
}

/// Number of squares in the set `b`.
pub open spec fn size(b: u64) -> nat {
    count_below(b, 64)
}

/// Smallest square of a non-empty set.
pub open spec fn lowest(b: u64) -> int {
    vstd::std_specs::bits::u64_trailing_zeros(b) as int
}

proof fn bv_words(a: u64, b: u64, s: u64, k: u64)
    by (bit_vector)
    requires
        s < 64,
        k < 64,
    ensures
        ((a | b) >> s) & 1 == 1 <==> (a >> s) & 1 == 1 || (b >> s) & 1 == 1,
        ((a & b) >> s) & 1 == 1 <==> (a >> s) & 1 == 1 && (b >> s) & 1 == 1,
        ((a ^ b) >> s) & 1 == 1 <==> ((a >> s) & 1 == 1) != ((b >> s) & 1 == 1),
        ((!a) >> s) & 1 == 1 <==> (a >> s) & 1 != 1,
        (0u64 >> s) & 1 == 0,
        (0xffff_ffff_ffff_ffffu64 >> s) & 1 == 1,
        ((1u64 << k) >> s) & 1 == 1 <==> s == k,
        a ^ b == 0 ==> a == b,
{
}

proof fn bv_drop_lowest(b: u64, k: u64, s: u64)
    by (bit_vector)
    requires
        s < 64,
        k < 64,
        (b >> k) & 1 == 1,
        b << ((64 - k) as u64) == 0,
    ensures
        b >= 1,
        ((b & ((b - 1) as u64)) >> s) & 1 == 1 <==> (b >> s) & 1 == 1 && s != k,
        b & ((b - 1) as u64) < b,
        b & (((0xffff_ffff_ffff_ffffu64 - b) + 1) as u64) == 1u64 << k,
{
}

proof fn bv_shifts(b: u64, t: u64)
    by (bit_vector)
    requires
        t < 64,
    ensures
        ((b << 8) >> t) & 1 == 1 <==> t >= 8 && (b >> ((t - 8) as u64)) & 1 == 1,
        ((b >> 8) >> t) & 1 == 1 <==> t < 56 && (b >> ((t + 8) as u64)) & 1 == 1,
        ((b << 16) >> t) & 1 == 1 <==> t >= 16 && (b >> ((t - 16) as u64)) & 1 == 1,
        ((b >> 16) >> t) & 1 == 1 <==> t < 48 && (b >> ((t + 16) as u64)) & 1 == 1,
        (((b & !0x8080_8080_8080_8080u64) << 1) >> t) & 1 == 1 <==> t % 8 != 0 && (b >> ((t
            - 1) as u64)) & 1 == 1,
        (((b & !0x0101_0101_0101_0101u64) >> 1) >> t) & 1 == 1 <==> t % 8 != 7 && (b >> ((t
            + 1) as u64)) & 1 == 1,
        (((b & !0x8080_8080_8080_8080u64) << 9) >> t) & 1 == 1 <==> t % 8 != 0 && t >= 8 && (b >> ((
        t - 9) as u64)) & 1 == 1,
        (((b & !0x0101_0101_0101_0101u64) << 7) >> t) & 1 == 1 <==> t % 8 != 7 && t >= 8 && (b >> ((
        t - 7) as u64)) & 1 == 1,
        (((b & !0x8080_8080_8080_8080u64) >> 7) >> t) & 1 == 1 <==> t % 8 != 0 && t < 56 && (b >> ((
        t + 7) as u64)) & 1 == 1,
        (((b & !0x0101_0101_0101_0101u64) >> 9) >> t) & 1 == 1 <==> t % 8 != 7 && t < 56 && (b >> ((
        t + 9) as u64)) & 1 == 1,
{
}

pub broadcast proof fn has_range(b: u64, s: int)
    requires
        #[trigger] holds(b, s),
    ensures
        0 <= s < 64,
{
    reveal(holds);
}

pub broadcast proof fn has_or(a: u64, b: u64, s: int)
    ensures
        #[trigger] holds(a | b, s) <==> holds(a, s) || holds(b, s),
{
    reveal(holds);
    if 0 <= s < 64 {
        bv_words(a, b, s as u64, 0);
    }
}

pub broadcast proof fn has_and(a: u64, b: u64, s: int)
    ensures
        #[trigger] holds(a & b, s) <==> holds(a, s) && holds(b, s),
{
    reveal(holds);
    if 0 <= s < 64 {
        bv_words(a, b, s as u64, 0);
    }
}

pub broadcast proof fn has_xor(a: u64, b: u64, s: int)
    ensures
        #[trigger] holds(a ^ b, s) <==> holds(a, s) != holds(b, s),
{
    reveal(holds);
    if 0 <= s < 64 {
        bv_words(a, b, s as u64, 0);
    }
}

pub broadcast proof fn has_not(a: u64, s: int)
    ensures
        #[trigger] holds(!a, s) <==> 0 <= s < 64 && !holds(a, s),
{
    reveal(holds);
    if 0 <= s < 64 {
        bv_words(a, 0, s as u64, 0);
    }
}

pub broadcast proof fn has_zero(s: int)
    ensures
        !#[trigger] holds(0, s),
{
    reveal(holds);
    if 0 <= s < 64 {
        bv_words(0, 0, s as u64, 0);
    }
}

pub broadcast proof fn has_one(k: int, s: int)
    requires
        0 <= k < 64,
    ensures
        #[trigger] holds(one(k), s) <==> s == k,
{
    reveal(holds);
    if 0 <= s < 64 {
        bv_words(0, 0, s as u64, k as u64);
    }
}

pub broadcast group group_has {
    has_range,
    has_or,
    has_and,
    has_xor,
    has_not,
    has_zero,
    has_one,
}

/// The word with every bit set holds every square.
pub proof fn lemma_full(s: int)
    ensures
        holds(0xffff_ffff_ffff_ffff, s) <==> 0 <= s < 64,
{
    reveal(holds);
    if 0 <= s < 64 {
        bv_words(0, 0, s as u64, 0);
    }
}

/// Two words that hold the same squares are equal.
pub proof fn lemma_ext(a: u64, b: u64)
    requires
        forall|s: int| 0 <= s < 64 ==> holds(a, s) == holds(b, s),
    ensures
        a == b,
{
    bv_words(a, b, 0, 0);
    let d = a ^ b;
    if d != 0 {
        axiom_u64_trailing_zeros(d);
        let k = lowest(d);
        assert(holds(d, k)) by {
            reveal(holds);
        }
        has_xor(a, b, k);
        has_range(d, k);
    }
}

/// The lowest square of a non-empty set is in it, and none below is.
pub proof fn lemma_lowest(b: u64)
    requires
        b != 0,
    ensures
        0 <= lowest(b) < 64,
        holds(b, lowest(b)),
        forall|s: int| s < lowest(b) ==> !#[trigger] holds(b, s),
{
    axiom_u64_trailing_zeros(b);
    reveal(holds);
}

/// A word is zero exactly when it holds no square.
pub proof fn lemma_empty(b: u64)
    ensures
        b == 0 <==> forall|s: int| !#[trigger] holds(b, s),
{
    broadcast use group_has;

    if b != 0 {
        lemma_lowest(b);
    }
}

/// A square in a set shows that its word is not zero.
pub proof fn lemma_nonzero(b: u64, s: int)
    requires
        holds(b, s),
    ensures
        b != 0,
{
    broadcast use group_has;

}

/// Clearing the lowest bit removes the lowest square and no other.
pub proof fn lemma_drop_lowest(b: u64)
    requires
        b != 0,
    ensures
        b & ((b - 1) as u64) < b,
        forall|s: int| #[trigger]
            holds(b & ((b - 1) as u64), s) <==> holds(b, s) && s != lowest(b),
        b & (((0xffff_ffff_ffff_ffffu64 - b) + 1) as u64) == one(lowest(b)),
{
    axiom_u64_trailing_zeros(b);
    let k = lowest(b) as u64;
    assert forall|s: int| #[trigger]
        holds(b & ((b - 1) as u64), s) <==> holds(b, s) && s != lowest(b) by {
        reveal(holds);
        if 0 <= s < 64 {
            bv_drop_lowest(b, k, s as u64);
        }
    }
    bv_drop_lowest(b, k, 0);
}

/// One-step shifts move every square one step and drop those that leave the board.
pub proof fn lemma_shifts(b: u64, t: int)
    requires
        0 <= t < 64,
    ensures
        holds(b << 8, t) <==> holds(b, t - 8),
        holds(b >> 8, t) <==> holds(b, t + 8),
        holds(b << 16, t) <==> holds(b, t - 16),
        holds(b >> 16, t) <==> holds(b, t + 16),
        holds((b & !0x8080_8080_8080_8080u64) << 1, t) <==> t % 8 != 0 && holds(b, t - 1),
        holds((b & !0x0101_0101_0101_0101u64) >> 1, t) <==> t % 8 != 7 && holds(b, t + 1),
        holds((b & !0x8080_8080_8080_8080u64) << 9, t) <==> t % 8 != 0 && holds(b, t - 9),
        holds((b & !0x0101_0101_0101_0101u64) << 7, t) <==> t % 8 != 7 && holds(b, t - 7),
        holds((b & !0x8080_8080_8080_8080u64) >> 7, t) <==> t % 8 != 0 && holds(b, t + 7),
        holds((b & !0x0101_0101_0101_0101u64) >> 9, t) <==> t % 8 != 7 && holds(b, t + 9),
{
    reveal(holds);
    bv_shifts(b, t as u64);
}

/// The count depends only on the squares below the limit.
pub proof fn lemma_count_same(a: u64, b: u64, n: nat)
    requires
        forall|s: int| 0 <= s < n ==> holds(a, s) == holds(b, s),
    ensures
        count_below(a, n) == count_below(b, n),
    decreases n,
{
    if n > 0 {
        lemma_count_same(a, b, (n - 1) as nat);
    }
}

/// Removing one square from a set lowers its count by one.
pub proof fn lemma_count_remove(a: u64, b: u64, k: int, n: nat)
    requires
        0 <= k < n,
        holds(b, k),
        forall|s: int| 0 <= s < n ==> (holds(a, s) <==> holds(b, s) && s != k),
    ensures
        count_below(b, n) == count_below(a, n) + 1,
    decreases n,
{
    if n - 1 == k {
        lemma_count_same(a, b, (n - 1) as nat);
    } else {
        lemma_count_remove(a, b, k, (n - 1) as nat);
    }
}

/// A set has at most as many squares as lie below the limit.
pub proof fn lemma_count_bound(b: u64, n: nat)
    ensures
        count_below(b, n) <= n,
    decreases n,
{
    if n > 0 {
        lemma_count_bound(b, (n - 1) as nat);
    }
}

/// The empty set has size zero, every set at most 64, and one without its lowest square
/// is smaller by one.
pub proof fn lemma_size(b: u64)
    ensures
        size(0) == 0,
        size(b) <= 64,
        b != 0 ==> size(b) == size(b & ((b - 1) as u64)) + 1,
        b != 0 ==> size(b) >= 1,
{
    broadcast use group_has;

    lemma_count_bound(b, 64);
    lemma_count_zero(64);
    if b != 0 {
        lemma_lowest(b);
        lemma_drop_lowest(b);
        lemma_count_remove(b & ((b - 1) as u64), b, lowest(b), 64);
    }
}

proof fn lemma_count_zero(n: nat)
    ensures
        count_below(0, n) == 0,
    decreases n,
{
    broadcast use group_has;

    if n > 0 {
        lemma_count_zero((n - 1) as nat);
    }
}

/// Highest square of a non-empty set.
pub proof fn lemma_highest(b: u64)
    requires
        b != 0,
    ensures
        0 <= vstd::std_specs::bits::u64_leading_zeros(b) < 64,
        holds(b, 63 - vstd::std_specs::bits::u64_leading_zeros(b)),
        forall|s: int|
            s > 63 - vstd::std_specs::bits::u64_leading_zeros(b) ==> !#[trigger] holds(b, s),
{
    axiom_u64_leading_zeros(b);
    let k = (63 - vstd::std_specs::bits::u64_leading_zeros(b)) as u64;
    reveal(holds);
    bv_one_bit(b >> k);
}

proof fn bv_one_bit(x: u64)
    by (bit_vector)
    ensures
        x & 1 != 0 ==> x & 1 == 1,
{
}

} // verus!
