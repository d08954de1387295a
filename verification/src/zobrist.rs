//! Zobrist keys: one pseudo-random word for every feature of a position, drawn from a
//! SplitMix64 chain in a fixed order.

use vstd::prelude::*;

use crate::types::{Piece, Square, PIECE_NB};

verus! {

/// One step of the SplitMix64 generator.
pub open spec fn mix(x: u64) -> u64 {
    let a = x.wrapping_add(0x9e3779b97f4a7c15);
    let b = (a ^ (a >> 30)).wrapping_mul(0xbf58476d1ce4e5b9);
    let c = (b ^ (b >> 27)).wrapping_mul(0x94d049bb133111eb);
    c ^ (c >> 31)
}

/// The `n`-th word of the chain that starts at the seed.
pub open spec fn chain(n: nat) -> u64
    decreases n,
{
    if n == 0 {
        0x1070372
    } else {
        mix(chain((n - 1) as nat))
    }
}

/// Key of piece `p` (0..12) on square `s`.
#[verifier::opaque]
pub open spec fn key_psq(p: int, s: int) -> u64 {
    chain((64 * p + s + 1) as nat)
}

/// Key of an en passant square on file `f`.
#[verifier::opaque]
pub open spec fn key_en_passant(f: int) -> u64 {
    chain((769 + f) as nat)
}

/// Key of a set of castling rights; none for no rights.
#[verifier::opaque]
pub open spec fn key_castling(cr: int) -> u64 {
    if cr == 0 {
        0
    } else {
        chain((776 + cr) as nat)
    }
}

/// Key of Black being to move.
#[verifier::opaque]
pub open spec fn key_side() -> u64 {
    chain(792)
}

/// Key every pawn structure starts from.
#[verifier::opaque]
pub open spec fn key_no_pawns() -> u64 {
    chain(793)
}

/// Three-check: key of colour `c` having given `n` checks; none for no check.
#[verifier::opaque]
pub open spec fn key_checks(c: int, n: int) -> u64 {
    if n == 0 {
        0
    } else {
        chain((793 + 3 * c + n) as nat)
    }
}

/// Crazyhouse: key of `n` pieces of type `p` in colour `c`'s pocket; none for no piece.
#[verifier::opaque]
pub open spec fn key_hand(c: int, p: int, n: int) -> u64 {
    if n == 0 {
        0
    } else {
        chain((799 + (c * 5 + p) * 16 + n) as nat)
    }
}

/// Crazyhouse: key of a promoted piece on square `s`.
#[verifier::opaque]
pub open spec fn key_promoted(s: int) -> u64 {
    chain((960 + s) as nat)
}

fn splitmix64(x: u64) -> (r: u64)
    ensures
        r == mix(x),
{
    let a = x.wrapping_add(0x9e3779b97f4a7c15);
    let b = (a ^ (a >> 30)).wrapping_mul(0xbf58476d1ce4e5b9);
    let c = (b ^ (b >> 27)).wrapping_mul(0x94d049bb133111eb);
    c ^ (c >> 31)
}

/// The next word of the chain.
fn next(seed: u64, n: Ghost<nat>) -> (r: u64)
    requires
        seed == chain(n@),
    ensures
        r == chain(n@ + 1),
{
    splitmix64(seed)
}

/// Every key, as lookup tables.
pub struct ZobristKeys {
    pub psq: [[u64; 64]; PIECE_NB],
    pub en_passant: [u64; 8],
    pub castling: [u64; 16],
    pub side: u64,
    pub no_pawns: u64,
    /// Three-check: checks delivered so far by [color][count].
    pub checks: [[u64; 4]; 2],
    /// Crazyhouse pockets by [color][piece type][count].
    pub hand: [[[u64; 17]; 5]; 2],
    /// Crazyhouse: squares holding a promoted piece.
    pub promoted: [u64; 64],
}

impl ZobristKeys {
    /// Every table entry is the key it stands for.
    pub open spec fn wf(&self) -> bool {
        &&& forall|p: int, s: int|
            0 <= p < 12 && 0 <= s < 64 ==> #[trigger] self.psq@[p]@[s] == key_psq(p, s)
        &&& forall|f: int| 0 <= f < 8 ==> #[trigger] self.en_passant@[f] == key_en_passant(f)
        &&& forall|c: int| 0 <= c < 16 ==> #[trigger] self.castling@[c] == key_castling(c)
        &&& self.side == key_side()
        &&& self.no_pawns == key_no_pawns()
        &&& forall|c: int, n: int|
            0 <= c < 2 && 0 <= n < 4 ==> #[trigger] self.checks@[c]@[n] == key_checks(c, n)
        &&& forall|c: int, p: int, n: int|
            0 <= c < 2 && 0 <= p < 5 && 0 <= n < 17 ==> #[trigger] self.hand@[c]@[p]@[n]
                == key_hand(c, p, n)
        &&& forall|s: int| 0 <= s < 64 ==> #[trigger] self.promoted@[s] == key_promoted(s)
    }

    /// Draws every key from the chain.
    pub fn new() -> (r: ZobristKeys)
        ensures
            r.wf(),
    {
        let mut seed: u64 = 0x1070372;
        let mut psq: [[u64; 64]; PIECE_NB] = [[0;64];PIECE_NB];
        let mut p: usize = 0;
        while p < 12
            invariant
                p <= 12,
                seed == chain((64 * p) as nat),
                forall|i: int, s: int|
                    0 <= i < p && 0 <= s < 64 ==> #[trigger] psq@[i]@[s] == key_psq(i, s),
            decreases 12 - p,
        {
            let mut row: [u64; 64] = [0;64];
            let mut s: usize = 0;
            while s < 64
                invariant
                    p < 12,
                    s <= 64,
                    seed == chain((64 * p + s) as nat),
                    forall|j: int| 0 <= j < s ==> #[trigger] row@[j] == key_psq(p as int, j),
                decreases 64 - s,
            {
                seed = next(seed, Ghost((64 * p + s) as nat));
                row[s] = seed;
                proof {
                    reveal(key_psq);
                }
                s += 1;
            }
            psq[p] = row;
            p += 1;
        }
        let mut en_passant: [u64; 8] = [0;8];
        let mut f: usize = 0;
        while f < 8
            invariant
                f <= 8,
                seed == chain((768 + f) as nat),
                forall|j: int| 0 <= j < f ==> #[trigger] en_passant@[j] == key_en_passant(j),
            decreases 8 - f,
        {
            seed = next(seed, Ghost((768 + f) as nat));
            en_passant[f] = seed;
            proof {
                reveal(key_en_passant);
            }
            f += 1;
        }
        let mut castling: [u64; 16] = [0;16];
        let mut c: usize = 1;
        proof {
            reveal(key_castling);
        }
        while c < 16
            invariant
                1 <= c <= 16,
                seed == chain((775 + c) as nat),
                forall|j: int| 0 <= j < c ==> #[trigger] castling@[j] == key_castling(j),
            decreases 16 - c,
        {
            seed = next(seed, Ghost((775 + c) as nat));
            castling[c] = seed;
            proof {
                reveal(key_castling);
            }
            c += 1;
        }
        seed = next(seed, Ghost(791));
        let side = seed;
        seed = next(seed, Ghost(792));
        let no_pawns = seed;
        let mut checks: [[u64; 4]; 2] = [[0;4];2];
        let mut c: usize = 0;
        while c < 2
            invariant
                c <= 2,
                seed == chain((793 + 3 * c) as nat),
                forall|i: int, n: int|
                    0 <= i < c && 0 <= n < 4 ==> #[trigger] checks@[i]@[n] == key_checks(i, n),
            decreases 2 - c,
        {
            let mut row: [u64; 4] = [0;4];
            let mut n: usize = 1;
            proof {
                reveal(key_checks);
            }
            while n < 4
                invariant
                    c < 2,
                    1 <= n <= 4,
                    seed == chain((793 + 3 * c + n - 1) as nat),
                    forall|j: int| 0 <= j < n ==> #[trigger] row@[j] == key_checks(c as int, j),
                decreases 4 - n,
            {
                seed = next(seed, Ghost((793 + 3 * c + n - 1) as nat));
                row[n] = seed;
                proof {
                    reveal(key_checks);
                }
                n += 1;
            }
            checks[c] = row;
            c += 1;
        }
        let mut hand: [[[u64; 17]; 5]; 2] = [[[0;17];5];2];
        let mut c: usize = 0;
        while c < 2
            invariant
                c <= 2,
                seed == chain((799 + 80 * c) as nat),
                forall|i: int, q: int, n: int|
                    0 <= i < c && 0 <= q < 5 && 0 <= n < 17 ==> #[trigger] hand@[i]@[q]@[n]
                        == key_hand(i, q, n),
            decreases 2 - c,
        {
            let mut pocket: [[u64; 17]; 5] = [[0;17];5];
            let mut q: usize = 0;
            while q < 5
                invariant
                    c < 2,
                    q <= 5,
                    seed == chain((799 + 80 * c + 16 * q) as nat),
                    forall|i: int, n: int|
                        0 <= i < q && 0 <= n < 17 ==> #[trigger] pocket@[i]@[n] == key_hand(
                            c as int,
                            i,
                            n,
                        ),
                decreases 5 - q,
            {
                let mut row: [u64; 17] = [0;17];
                let mut n: usize = 1;
                proof {
                    reveal(key_hand);
                }
                while n < 17
                    invariant
                        c < 2,
                        q < 5,
                        1 <= n <= 17,
                        seed == chain((799 + 80 * c + 16 * q + n - 1) as nat),
                        forall|j: int|
                            0 <= j < n ==> #[trigger] row@[j] == key_hand(c as int, q as int, j),
                    decreases 17 - n,
                {
                    seed = next(seed, Ghost((799 + 80 * c + 16 * q + n - 1) as nat));
                    row[n] = seed;
                    proof {
                        reveal(key_hand);
                    }
                    n += 1;
                }
                pocket[q] = row;
                q += 1;
            }
            hand[c] = pocket;
            c += 1;
        }
        let mut promoted: [u64; 64] = [0;64];
        let mut s: usize = 0;
        while s < 64
            invariant
                s <= 64,
                seed == chain((959 + s) as nat),
                forall|j: int| 0 <= j < s ==> #[trigger] promoted@[j] == key_promoted(j),
            decreases 64 - s,
        {
            seed = next(seed, Ghost((959 + s) as nat));
            promoted[s] = seed;
            proof {
                reveal(key_promoted);
            }
            s += 1;
        }
        proof {
            reveal(key_side);
            reveal(key_no_pawns);
        }
        ZobristKeys { psq, en_passant, castling, side, no_pawns, checks, hand, promoted }
    }
}

/// Key of a piece standing on a square.
#[inline]
pub fn psq_key(keys: &ZobristKeys, pc: Piece, sq: Square) -> (r: u64)
    requires
        keys.wf(),
        pc.0 < 12,
        sq < 64,
    ensures
        r == key_psq(pc.0 as int, sq as int),
{
    keys.psq[pc.0 as usize][sq as usize]
}

} // verus!
