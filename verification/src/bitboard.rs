//! Bitboard primitives and the attack sets of every piece: leapers, sliders, and the
//! segments and lines between squares.

use vstd::prelude::*;

use crate::bits::{
    group_has, holds, lemma_drop_lowest, lemma_empty, lemma_highest, lemma_lowest, lemma_nonzero,
    lemma_shifts, lemma_size, lowest, one, size,
};
use crate::geometry::{
    abs, between, bishop_line, clear, in_line, king_step, knight_jump, on_board, pawn_hit, reaches,
    rook_line, same_line, steps,
};
use crate::types::{file, file_of, rank, rank_of, Bitboard, Color, PieceType, Square};

verus! {

broadcast use group_has;

pub const FILE_A_BB: Bitboard = 0x0101_0101_0101_0101;
pub const FILE_B_BB: Bitboard = 0x0202_0202_0202_0202;
pub const FILE_C_BB: Bitboard = 0x0404_0404_0404_0404;
pub const FILE_D_BB: Bitboard = 0x0808_0808_0808_0808;
pub const FILE_E_BB: Bitboard = 0x1010_1010_1010_1010;
pub const FILE_F_BB: Bitboard = 0x2020_2020_2020_2020;
pub const FILE_G_BB: Bitboard = 0x4040_4040_4040_4040;
pub const FILE_H_BB: Bitboard = 0x8080_8080_8080_8080;

pub const RANK_1_BB: Bitboard = 0x0000_0000_0000_00ff;
pub const RANK_2_BB: Bitboard = 0x0000_0000_0000_ff00;
pub const RANK_3_BB: Bitboard = 0x0000_0000_00ff_0000;
pub const RANK_4_BB: Bitboard = 0x0000_0000_ff00_0000;
pub const RANK_5_BB: Bitboard = 0x0000_00ff_0000_0000;
pub const RANK_6_BB: Bitboard = 0x0000_ff00_0000_0000;
pub const RANK_7_BB: Bitboard = 0x00ff_0000_0000_0000;
pub const RANK_8_BB: Bitboard = 0xff00_0000_0000_0000;

pub const LIGHT_SQUARES: Bitboard = 0x55AA_55AA_55AA_55AA;
pub const DARK_SQUARES: Bitboard = 0xAA55_AA55_AA55_AA55;
pub const QUEEN_SIDE: Bitboard = 0x0f0f_0f0f_0f0f_0f0f;
pub const KING_SIDE: Bitboard = 0xf0f0_f0f0_f0f0_f0f0;
pub const CENTER: Bitboard = 0x0000_0018_1800_0000;

pub const NORTH: i32 = 8;
pub const SOUTH: i32 = -8;
pub const EAST: i32 = 1;
pub const WEST: i32 = -1;
pub const NORTH_EAST: i32 = 9;
pub const NORTH_WEST: i32 = 7;
pub const SOUTH_EAST: i32 = -7;
pub const SOUTH_WEST: i32 = -9;

proof fn bv_masks(s: u64, f: u64, r: u64)
    by (bit_vector)
    requires
        s < 64,
        f < 8,
        r < 8,
    ensures
        ((0x0101_0101_0101_0101u64 << f) >> s) & 1 == 1 <==> s % 8 == f,
        ((0xffu64 << ((r * 8) as u64)) >> s) & 1 == 1 <==> s / 8 == r,
        (((!0xffu64) << ((r * 8) as u64)) >> s) & 1 == 1 <==> s / 8 > r,
        (((!0xff00_0000_0000_0000u64) >> (((7 - r) * 8) as u64)) >> s) & 1 == 1 <==> s / 8 < r,
        (0x55AA_55AA_55AA_55AAu64 >> s) & 1 == 1 <==> ((s % 8 + s / 8) as u64) % 2 == 1,
        (0xAA55_AA55_AA55_AA55u64 >> s) & 1 == 1 <==> ((s % 8 + s / 8) as u64) % 2 == 0,
        (0x0f0f_0f0f_0f0f_0f0fu64 >> s) & 1 == 1 <==> s % 8 < 4,
        (0xf0f0_f0f0_f0f0_f0f0u64 >> s) & 1 == 1 <==> s % 8 >= 4,
        (0x0000_0018_1800_0000u64 >> s) & 1 == 1 <==> (s % 8 == 3 || s % 8 == 4) && (s / 8 == 3 || s
            / 8 == 4),
        0x0101_0101_0101_0101u64 << 0 == 0x0101_0101_0101_0101u64,
        0x0101_0101_0101_0101u64 << 7 == 0x8080_8080_8080_8080u64,
        0xffu64 << 0 == 0xffu64,
        0xffu64 << 8 == 0xff00u64,
        0xffu64 << 16 == 0xff_0000u64,
        0xffu64 << 40 == 0xff00_0000_0000u64,
        0xffu64 << 48 == 0xff_0000_0000_0000u64,
        0xffu64 << 56 == 0xff00_0000_0000_0000u64,
{
}

/// Which squares the named masks hold.
pub proof fn lemma_masks(s: int)
    requires
        on_board(s),
    ensures
        holds(FILE_A_BB, s) <==> file(s) == 0,
        holds(FILE_H_BB, s) <==> file(s) == 7,
        holds(RANK_1_BB, s) <==> rank(s) == 0,
        holds(RANK_2_BB, s) <==> rank(s) == 1,
        holds(RANK_3_BB, s) <==> rank(s) == 2,
        holds(RANK_6_BB, s) <==> rank(s) == 5,
        holds(RANK_7_BB, s) <==> rank(s) == 6,
        holds(RANK_8_BB, s) <==> rank(s) == 7,
        holds(LIGHT_SQUARES, s) <==> (file(s) + rank(s)) % 2 == 1,
        holds(DARK_SQUARES, s) <==> (file(s) + rank(s)) % 2 == 0,
        holds(QUEEN_SIDE, s) <==> file(s) < 4,
        holds(KING_SIDE, s) <==> file(s) >= 4,
        holds(CENTER, s) <==> 3 <= file(s) <= 4 && 3 <= rank(s) <= 4,
{
    reveal(holds);
    let u = s as u64;
    bv_masks(u, 0, 0);
    bv_masks(u, 7, 1);
    bv_masks(u, 0, 2);
    bv_masks(u, 0, 5);
    bv_masks(u, 0, 6);
    bv_masks(u, 0, 7);
}

/// The set holding only `sq`.
#[verifier::allow_in_spec]
#[inline]
pub fn sq_bb(sq: Square) -> Bitboard
    requires
        sq < 64,
    returns
        one(sq as int),
{
    1u64 << (sq as u64)
}

/// Every square of `sq`'s file.
pub fn file_bb(sq: Square) -> (r: Bitboard)
    requires
        sq < 64,
    ensures
        forall|t: int| #[trigger] holds(r, t) <==> on_board(t) && file(t) == file(sq as int),
{
    file_bb_of(file_of(sq))
}

/// Every square of a file.
pub fn file_bb_of(file: u8) -> (r: Bitboard)
    requires
        file < 8,
    ensures
        forall|t: int| #[trigger] holds(r, t) <==> on_board(t) && t % 8 == file,
{
    let r = FILE_A_BB << (file as u64);
    proof {
        assert forall|t: int| #[trigger] holds(r, t) <==> on_board(t) && t % 8 == file by {
            reveal(holds);
            if on_board(t) {
                bv_masks(t as u64, file as u64, 0);
            }
        }
    }
    r
}

/// Every square of `sq`'s rank.
pub fn rank_bb(sq: Square) -> (r: Bitboard)
    requires
        sq < 64,
    ensures
        forall|t: int| #[trigger] holds(r, t) <==> on_board(t) && rank(t) == rank(sq as int),
{
    rank_bb_of(rank_of(sq))
}

/// Every square of a rank.
pub fn rank_bb_of(rank: u8) -> (r: Bitboard)
    requires
        rank < 8,
    ensures
        forall|t: int| #[trigger] holds(r, t) <==> on_board(t) && t / 8 == rank,
{
    let r = RANK_1_BB << ((rank * 8) as u64);
    proof {
        assert forall|t: int| #[trigger] holds(r, t) <==> on_board(t) && t / 8 == rank by {
            reveal(holds);
            if on_board(t) {
                bv_masks(t as u64, 0, rank as u64);
            }
        }
    }
    r
}

/// `dir` is one of the eight king directions or a double pawn push.
pub open spec fn is_shift(dir: int) -> bool {
    dir == 8 || dir == -8 || dir == 1 || dir == -1 || dir == 9 || dir == 7 || dir == -7 || dir == -9
        || dir == 16 || dir == -16
}

/// Every square moved by `dir`, those leaving the board dropped; empty for any offset
/// that is not a direction.
pub fn shift(b: Bitboard, dir: i32) -> (r: Bitboard)
    ensures
        forall|t: int| #[trigger]
            holds(r, t) <==> is_shift(dir as int) && on_board(t) && holds(b, t - dir) && abs(
                file(t) - file(t - dir),
            ) <= 1,
{
    let r: u64 = if dir == NORTH {
        b << 8
    } else if dir == SOUTH {
        b >> 8
    } else if dir == EAST {
        (b & !FILE_H_BB) << 1
    } else if dir == WEST {
        (b & !FILE_A_BB) >> 1
    } else if dir == NORTH_EAST {
        (b & !FILE_H_BB) << 9
    } else if dir == NORTH_WEST {
        (b & !FILE_A_BB) << 7
    } else if dir == SOUTH_EAST {
        (b & !FILE_H_BB) >> 7
    } else if dir == SOUTH_WEST {
        (b & !FILE_A_BB) >> 9
    } else if dir == 16 {
        b << 16
    } else if dir == -16 {
        b >> 16
    } else {
        0
    };
    proof {
        assert forall|t: int| #[trigger]
            holds(r, t) <==> is_shift(dir as int) && on_board(t) && holds(b, t - dir) && abs(
                file(t) - file(t - dir),
            ) <= 1 by {
            if on_board(t) {
                lemma_shifts(b, t);
            }
        }
    }
    r
}

/// Smallest square of a non-empty set.
#[inline]
pub fn lsb(b: Bitboard) -> (r: Square)
    requires
        b != 0,
    ensures
        r < 64,
        r == lowest(b),
        holds(b, r as int),
        forall|s: int| s < r ==> !#[trigger] holds(b, s),
{
    proof {
        lemma_lowest(b);
    }
    b.trailing_zeros() as Square
}

/// Largest square of a non-empty set.
pub fn msb(b: Bitboard) -> (r: Square)
    requires
        b != 0,
    ensures
        r < 64,
        holds(b, r as int),
        forall|s: int| s > r ==> !#[trigger] holds(b, s),
{
    proof {
        lemma_highest(b);
    }
    (63 - b.leading_zeros()) as Square
}

/// Takes the smallest square out of a non-empty set.
#[inline]
pub fn pop_lsb(b: &mut Bitboard) -> (r: Square)
    requires
        *old(b) != 0,
    ensures
        r < 64,
        r == lowest(*old(b)),
        holds(*old(b), r as int),
        forall|s: int| s < r ==> !#[trigger] holds(*old(b), s),
        forall|s: int| #[trigger] holds(*final(b), s) <==> holds(*old(b), s) && s != r,
        *final(b) < *old(b),
        size(*old(b)) == size(*final(b)) + 1,
{
    let s = lsb(*b);
    proof {
        lemma_drop_lowest(*b);
        lemma_size(*b);
    }
    *b = *b & (*b - 1);
    s
}

/// Counts set bits: the number of ones in the word's binary representation.
pub assume_specification[ u64::count_ones ](x: u64) -> (r: u32)
    ensures
        r == size(x),
;

/// Number of squares in a set.
pub fn popcount(b: Bitboard) -> (r: i32)
    ensures
        r == size(b),
        0 <= r <= 64,
{
    proof {
        lemma_size(b);
    }
    b.count_ones() as i32
}

/// Whether a set holds at least two squares.
pub fn more_than_one(b: Bitboard) -> (r: bool)
    ensures
        r <==> size(b) >= 2,
        r <==> exists|s: int, t: int| s != t && #[trigger] holds(b, s) && #[trigger] holds(b, t),
{
    if b == 0 {
        proof {
            lemma_size(0);
        }
        return false;
    }
    let rest = b & (b - 1);
    proof {
        lemma_size(b);
        lemma_size(rest);
        lemma_drop_lowest(b);
        lemma_lowest(b);
        if rest != 0 {
            lemma_lowest(rest);
            assert(holds(b, lowest(b)) && holds(b, lowest(rest)));
        } else {
            assert forall|s: int, t: int| #[trigger] holds(b, s) && #[trigger] holds(b, t) implies s
                == t by {
                assert(!holds(rest, s) && !holds(rest, t));
            }
        }
    }
    rest != 0
}

/// The set holding only the smallest square of `b`; empty if `b` is.
pub fn least_significant_square_bb(b: Bitboard) -> (r: Bitboard)
    ensures
        b == 0 ==> r == 0,
        b != 0 ==> r == one(lowest(b)),
{
    if b == 0 {
        return 0;
    }
    proof {
        lemma_drop_lowest(b);
    }
    b & (0xffff_ffff_ffff_ffffu64 - b + 1)
}

/// Squares the pawns of `c` on `b` attack (set-wise).
pub fn pawn_attacks_bb(c: Color, b: Bitboard) -> (r: Bitboard)
    ensures
        forall|t: int| #[trigger]
            holds(r, t) <==> on_board(t) && exists|s: int| #[trigger]
                holds(b, s) && pawn_hit(c, s, t),
{
    let r: u64 = match c {
        Color::White => shift(b, NORTH_WEST) | shift(b, NORTH_EAST),
        Color::Black => shift(b, SOUTH_WEST) | shift(b, SOUTH_EAST),
    };
    proof {
        let d: int = match c {
            Color::White => 7int,
            Color::Black => -9int,
        };
        assert forall|t: int| #[trigger]
            holds(r, t) <==> on_board(t) && exists|s: int| #[trigger]
                holds(b, s) && pawn_hit(c, s, t) by {
            if holds(r, t) {
                assert(holds(b, t - d) && pawn_hit(c, t - d, t) || holds(b, t - d - 2) && pawn_hit(
                    c,
                    t - d - 2,
                    t,
                ));
            }
            if on_board(t) {
                assert forall|s: int| #[trigger] holds(b, s) && pawn_hit(c, s, t) implies holds(
                    r,
                    t,
                ) by {
                    assert(s == t - d || s == t - d - 2);
                }
            }
        }
    }
    r
}

/// Squares on the ranks ahead of `sq` from `c`'s point of view.
pub fn ranks_ahead_bb(c: Color, sq: Square) -> (r: Bitboard)
    requires
        sq < 64,
    ensures
        forall|t: int| #[trigger]
            holds(r, t) <==> on_board(t) && (match c {
                Color::White => rank(t) > rank(sq as int),
                Color::Black => rank(t) < rank(sq as int),
            }),
{
    let k: u8 = rank_of(sq);
    let r: u64 = match c {
        Color::White => (!RANK_1_BB) << ((k * 8) as u64),
        Color::Black => (!RANK_8_BB) >> (((7 - k) * 8) as u64),
    };
    proof {
        assert forall|t: int| #[trigger]
            holds(r, t) <==> on_board(t) && (match c {
                Color::White => rank(t) > rank(sq as int),
                Color::Black => rank(t) < rank(sq as int),
            }) by {
            reveal(holds);
            if on_board(t) {
                bv_masks(t as u64, 0, k as u64);
            }
        }
    }
    r
}

/// Squares on `sq`'s file in front of it from `c`'s point of view.
pub fn forward_ranks_bb(c: Color, sq: Square) -> (r: Bitboard)
    requires
        sq < 64,
    ensures
        forall|t: int| #[trigger]
            holds(r, t) <==> on_board(t) && file(t) == file(sq as int) && (match c {
                Color::White => rank(t) > rank(sq as int),
                Color::Black => rank(t) < rank(sq as int),
            }),
{
    ranks_ahead_bb(c, sq) & file_bb(sq)
}

/// Squares on `sq`'s file ahead of it from `c`'s point of view.
pub fn forward_file_bb(c: Color, sq: Square) -> (r: Bitboard)
    requires
        sq < 64,
    ensures
        forall|t: int| #[trigger]
            holds(r, t) <==> on_board(t) && file(t) == file(sq as int) && (match c {
                Color::White => rank(t) > rank(sq as int),
                Color::Black => rank(t) < rank(sq as int),
            }),
{
    forward_ranks_bb(c, sq)
}

/// Squares of the files next to `sq`'s.
pub fn adjacent_files_bb(sq: Square) -> (r: Bitboard)
    requires
        sq < 64,
    ensures
        forall|t: int| #[trigger]
            holds(r, t) <==> on_board(t) && abs(file(t) - file(sq as int)) == 1,
{
    let r = shift(file_bb(sq), EAST) | shift(file_bb(sq), WEST);
    r
}

/// Squares a pawn on `sq` could attack as it advances (adjacent files, ahead).
pub fn pawn_attack_span(c: Color, sq: Square) -> (r: Bitboard)
    requires
        sq < 64,
    ensures
        forall|t: int| #[trigger]
            holds(r, t) <==> on_board(t) && abs(file(t) - file(sq as int)) == 1 && (match c {
                Color::White => rank(t) > rank(sq as int),
                Color::Black => rank(t) < rank(sq as int),
            }),
{
    ranks_ahead_bb(c, sq) & adjacent_files_bb(sq)
}

/// Squares that must be free of enemy pawns for a pawn on `sq` to be passed.
pub fn passed_pawn_span(c: Color, sq: Square) -> (r: Bitboard)
    requires
        sq < 64,
    ensures
        forall|t: int| #[trigger]
            holds(r, t) <==> on_board(t) && abs(file(t) - file(sq as int)) <= 1 && (match c {
                Color::White => rank(t) > rank(sq as int),
                Color::Black => rank(t) < rank(sq as int),
            }),
{
    pawn_attack_span(c, sq) | forward_file_bb(c, sq)
}

/// Chebyshev distance.
#[verifier::allow_in_spec]
pub fn distance(a: Square, b: Square) -> u8
    requires
        a < 64,
        b < 64,
    returns
        steps(a as int, b as int) as u8,
{
    let f = file_distance(a, b);
    let r = rank_distance(a, b);
    if f >= r {
        f
    } else {
        r
    }
}

#[verifier::allow_in_spec]
pub fn file_distance(a: Square, b: Square) -> u8
    returns
        abs(file(a as int) - file(b as int)) as u8,
{
    let x = file_of(a);
    let y = file_of(b);
    if x < y {
        y - x
    } else {
        x - y
    }
}

#[verifier::allow_in_spec]
pub fn rank_distance(a: Square, b: Square) -> u8
    returns
        abs(rank(a as int) - rank(b as int)) as u8,
{
    let x = rank_of(a);
    let y = rank_of(b);
    if x < y {
        y - x
    } else {
        x - y
    }
}

#[verifier::allow_in_spec]
pub fn manhattan_distance(a: Square, b: Square) -> u8
    requires
        a < 64,
        b < 64,
    returns
        (abs(file(a as int) - file(b as int)) + abs(rank(a as int) - rank(b as int))) as u8,
{
    file_distance(a, b) + rank_distance(a, b)
}

// Rays

/// `n` steps in the direction sign `d`.
pub open spec fn along(d: int, n: int) -> int {
    if d > 0 {
        n
    } else if d < 0 {
        -n
    } else {
        0
    }
}

/// The square `t` lies ahead of `s` in the direction `(df, dr)`.
pub open spec fn on_ray(s: int, df: int, dr: int, t: int) -> bool {
    on_board(t) && steps(s, t) >= 1 && file(t) - file(s) == along(df, steps(s, t)) && rank(t)
        - rank(s) == along(dr, steps(s, t))
}

/// Along one ray, the squares between the origin and `t` are those met before `t`.
proof fn lemma_ray(s: int, df: int, dr: int, t: int)
    requires
        on_board(s),
        on_ray(s, df, dr, t),
        df != 0 || dr != 0,
    ensures
        forall|x: int| #[trigger]
            between(s, t, x) <==> on_ray(s, df, dr, x) && steps(s, x) < steps(s, t),
{
}

/// Walks from `sq` in one direction up to and including the first square of `occ`.
#[inline]
fn ray(sq: Square, df: i32, dr: i32, occ: Bitboard) -> (r: Bitboard)
    requires
        sq < 64,
        -1 <= df <= 1,
        -1 <= dr <= 1,
        df != 0 || dr != 0,
    ensures
        forall|t: int| #[trigger]
            holds(r, t) <==> on_ray(sq as int, df as int, dr as int, t) && clear(
                sq as int,
                t,
                occ,
            ),
{
    let ghost s = sq as int;
    let f0: i32 = file_of(sq) as i32;
    let r0: i32 = rank_of(sq) as i32;
    let mut f: i32 = f0;
    let mut k: i32 = r0;
    let mut att: u64 = 0;
    let ghost mut n: int = 0;
    loop
        invariant_except_break
            s == sq,
            sq < 64,
            -1 <= df <= 1,
            -1 <= dr <= 1,
            df != 0 || dr != 0,
            f0 == file(s),
            r0 == rank(s),
            0 <= n <= 7,
            0 <= f < 8,
            0 <= k < 8,
            f == f0 + along(df as int, n),
            k == r0 + along(dr as int, n),
            forall|t: int| #[trigger]
                holds(att, t) <==> on_ray(s, df as int, dr as int, t) && steps(s, t) <= n,
            forall|t: int|
                on_ray(s, df as int, dr as int, t) && steps(s, t) <= n ==> !#[trigger] holds(
                    occ,
                    t,
                ),
        ensures
            forall|t: int| #[trigger]
                holds(att, t) <==> on_ray(s, df as int, dr as int, t) && clear(s, t, occ),
        decreases 8 - n,
    {
        f = f + df;
        k = k + dr;
        if f < 0 || f > 7 || k < 0 || k > 7 {
            proof {
                assert forall|t: int| #[trigger]
                    holds(att, t) <==> on_ray(s, df as int, dr as int, t) && clear(s, t, occ) by {
                    if on_ray(s, df as int, dr as int, t) {
                        lemma_ray(s, df as int, dr as int, t);
                        assert(steps(s, t) <= n);
                    }
                }
            }
            break;
        }
        let to: u8 = (k * 8 + f) as u8;
        let ghost before = att;
        att = att | sq_bb(to);
        proof {
            n = n + 1;
            assert(file(to as int) == f && rank(to as int) == k);
            assert(on_ray(s, df as int, dr as int, to as int) && steps(s, to as int) == n);
            assert forall|t: int| #[trigger]
                holds(att, t) <==> on_ray(s, df as int, dr as int, t) && steps(s, t) <= n by {
                if on_ray(s, df as int, dr as int, t) && steps(s, t) == n {
                    assert(t == to);
                }
                assert(holds(att, t) <==> holds(before, t) || t == to);
            }
        }
        if occ & sq_bb(to) != 0 {
            proof {
                if !holds(occ, to as int) {
                    lemma_empty(occ & sq_bb(to));
                }
                assert forall|t: int| #[trigger]
                    holds(att, t) <==> on_ray(s, df as int, dr as int, t) && clear(s, t, occ) by {
                    if on_ray(s, df as int, dr as int, t) {
                        lemma_ray(s, df as int, dr as int, t);
                        if steps(s, t) > n {
                            assert(between(s, t, to as int));
                        }
                    }
                }
            }
            break;
        }
        proof {
            assert(!holds(occ, to as int)) by {
                if holds(occ, to as int) {
                    lemma_nonzero(occ & sq_bb(to), to as int);
                }
            }
            assert forall|t: int|
                on_ray(s, df as int, dr as int, t) && steps(s, t) <= n implies !#[trigger] holds(
                occ,
                t,
            ) by {
                if steps(s, t) == n {
                    assert(t == to);
                }
            }
        }
    }
    att
}

/// Squares a rook on `sq` attacks over the occupancy.
pub fn rook_attacks(sq: Square, occupied: Bitboard) -> (r: Bitboard)
    requires
        sq < 64,
    ensures
        forall|t: int| #[trigger]
            holds(r, t) <==> on_board(t) && rook_line(sq as int, t) && clear(
                sq as int,
                t,
                occupied,
            ),
{
    let r = ray(sq, 0, 1, occupied) | ray(sq, 0, -1, occupied) | ray(sq, 1, 0, occupied) | ray(
        sq,
        -1,
        0,
        occupied,
    );
    proof {
        let s = sq as int;
        assert forall|t: int| on_board(t) implies (#[trigger] rook_line(s, t) <==> (on_ray(
            s,
            0,
            1,
            t,
        ) || on_ray(s, 0, -1, t) || on_ray(s, 1, 0, t) || on_ray(s, -1, 0, t))) by {}
    }
    r
}

/// Squares a bishop on `sq` attacks over the occupancy.
pub fn bishop_attacks(sq: Square, occupied: Bitboard) -> (r: Bitboard)
    requires
        sq < 64,
    ensures
        forall|t: int| #[trigger]
            holds(r, t) <==> on_board(t) && bishop_line(sq as int, t) && clear(
                sq as int,
                t,
                occupied,
            ),
{
    let r = ray(sq, 1, 1, occupied) | ray(sq, -1, 1, occupied) | ray(sq, 1, -1, occupied) | ray(
        sq,
        -1,
        -1,
        occupied,
    );
    proof {
        let s = sq as int;
        assert forall|t: int| on_board(t) implies (#[trigger] bishop_line(s, t) <==> (on_ray(
            s,
            1,
            1,
            t,
        ) || on_ray(s, -1, 1, t) || on_ray(s, 1, -1, t) || on_ray(s, -1, -1, t))) by {}
    }
    r
}

/// Squares a queen on `sq` attacks over the occupancy.
pub fn queen_attacks(sq: Square, occupied: Bitboard) -> (r: Bitboard)
    requires
        sq < 64,
    ensures
        forall|t: int| #[trigger]
            holds(r, t) <==> on_board(t) && same_line(sq as int, t) && clear(
                sq as int,
                t,
                occupied,
            ),
{
    bishop_attacks(sq, occupied) | rook_attacks(sq, occupied)
}

/// Squares a pawn of colour `c` on `sq` attacks.
pub fn pawn_attacks(c: Color, sq: Square) -> (r: Bitboard)
    requires
        sq < 64,
    ensures
        forall|t: int| #[trigger] holds(r, t) <==> on_board(t) && pawn_hit(c, sq as int, t),
{
    let r = pawn_attacks_bb(c, sq_bb(sq));
    proof {
        assert(holds(one(sq as int), sq as int));
    }
    r
}

/// Squares a king on `sq` attacks.
pub fn king_attacks(sq: Square) -> (r: Bitboard)
    requires
        sq < 64,
    ensures
        forall|t: int| #[trigger] holds(r, t) <==> on_board(t) && king_step(sq as int, t),
{
    let b = sq_bb(sq);
    let r = shift(b, NORTH) | shift(b, SOUTH) | shift(b, EAST) | shift(b, WEST) | shift(
        b,
        NORTH_EAST,
    ) | shift(b, NORTH_WEST) | shift(b, SOUTH_EAST) | shift(b, SOUTH_WEST);
    r
}

/// Destination of stepping `step` from `sq`, or `None` if it wraps off the board.
fn safe_destination(sq: Square, step: i32) -> (r: Option<Square>)
    requires
        sq < 64,
        -64 <= step <= 64,
    ensures
        r == (if on_board(sq + step) && steps(sq as int, sq + step) <= 2 {
            Some((sq + step) as Square)
        } else {
            None
        }),
{
    let to: i32 = sq as i32 + step;
    if to < 0 || to > 63 {
        return None;
    }
    let to: u8 = to as u8;
    if distance(sq, to) <= 2 {
        Some(to)
    } else {
        None
    }
}

/// Adds the square `step` away from `sq` to a set, if it is on the board.
fn add_step(b: Bitboard, sq: Square, step: i32) -> (r: Bitboard)
    requires
        sq < 64,
        -64 <= step <= 64,
    ensures
        forall|t: int| #[trigger]
            holds(r, t) <==> holds(b, t) || (t == sq + step && on_board(t) && steps(sq as int, t)
                <= 2),
{
    match safe_destination(sq, step) {
        Some(to) => b | sq_bb(to),
        None => b,
    }
}

/// Squares a knight on `sq` attacks.
pub fn knight_attacks(sq: Square) -> (r: Bitboard)
    requires
        sq < 64,
    ensures
        forall|t: int| #[trigger] holds(r, t) <==> on_board(t) && knight_jump(sq as int, t),
{
    let r = add_step(0, sq, -17);
    let r = add_step(r, sq, -15);
    let r = add_step(r, sq, -10);
    let r = add_step(r, sq, -6);
    let r = add_step(r, sq, 6);
    let r = add_step(r, sq, 10);
    let r = add_step(r, sq, 15);
    let r = add_step(r, sq, 17);
    r
}

/// Attacks of a non-pawn piece type from `sq` given the occupancy (empty for a pawn).
pub fn attacks_bb(pt: PieceType, sq: Square, occupied: Bitboard) -> (r: Bitboard)
    requires
        sq < 64,
    ensures
        forall|t: int| #[trigger]
            holds(r, t) <==> on_board(t) && reaches(pt, sq as int, t, occupied),
{
    match pt {
        PieceType::Pawn => 0,
        PieceType::Knight => knight_attacks(sq),
        PieceType::Bishop => bishop_attacks(sq, occupied),
        PieceType::Rook => rook_attacks(sq, occupied),
        PieceType::Queen => queen_attacks(sq, occupied),
        PieceType::King => king_attacks(sq),
    }
}

/// Attacks of a non-pawn piece type on an empty board (empty for a pawn).
pub fn pseudo_attacks(pt: PieceType, sq: Square) -> (r: Bitboard)
    requires
        sq < 64,
    ensures
        forall|t: int| #[trigger] holds(r, t) <==> on_board(t) && reaches(pt, sq as int, t, 0),
{
    attacks_bb(pt, sq, 0)
}

/// Squares strictly between `a` and `b` plus `b` itself; just `b` when unaligned.
pub fn between_bb(a: Square, b: Square) -> (r: Bitboard)
    requires
        a < 64,
        b < 64,
    ensures
        forall|t: int| #[trigger] holds(r, t) <==> t == b || between(a as int, b as int, t),
{
    let fa: i32 = file_of(a) as i32;
    let ra: i32 = rank_of(a) as i32;
    let fb: i32 = file_of(b) as i32;
    let rb: i32 = rank_of(b) as i32;
    let fd: u8 = file_distance(a, b);
    let rd: u8 = rank_distance(a, b);
    let target = sq_bb(b);
    if a == b || !(fd == 0 || rd == 0 || fd == rd) {
        return target;
    }
    let df: i32 = if fb > fa {
        1
    } else if fb < fa {
        -1
    } else {
        0
    };
    let dr: i32 = if rb > ra {
        1
    } else if rb < ra {
        -1
    } else {
        0
    };
    let r = ray(a, df, dr, target);
    proof {
        let s = a as int;
        assert(on_ray(s, df as int, dr as int, b as int));
        lemma_ray(s, df as int, dr as int, b as int);
        assert forall|t: int| #[trigger] holds(r, t) <==> t == b || between(s, b as int, t) by {
            if on_ray(s, df as int, dr as int, t) {
                lemma_ray(s, df as int, dr as int, t);
                if steps(s, t) > steps(s, b as int) {
                    assert(between(s, t, b as int));
                    assert(holds(target, b as int));
                }
                if steps(s, t) == steps(s, b as int) {
                    assert(t == b);
                }
            }
        }
    }
    r
}

/// Full line through `a` and `b` (empty if not aligned).
pub fn line_bb(a: Square, b: Square) -> (r: Bitboard)
    requires
        a < 64,
        b < 64,
    ensures
        forall|t: int| #[trigger] holds(r, t) <==> in_line(a as int, b as int, t),
{
    let ends = sq_bb(a) | sq_bb(b);
    let fd: u8 = file_distance(a, b);
    let rd: u8 = rank_distance(a, b);
    if a == b {
        return 0;
    }
    let r: u64 = if fd == 0 || rd == 0 {
        (rook_attacks(a, 0) & rook_attacks(b, 0)) | ends
    } else if fd == rd {
        (bishop_attacks(a, 0) & bishop_attacks(b, 0)) | ends
    } else {
        0
    };
    proof {
        assert(forall|x: int, y: int| clear(x, y, 0));
    }
    r
}

/// Whether `c` lies on the line through `a` and `b`.
pub fn aligned(a: Square, b: Square, c: Square) -> (r: bool)
    requires
        a < 64,
        b < 64,
        c < 64,
    ensures
        r == in_line(a as int, b as int, c as int),
{
    test_bit(line_bb(a, b), c)
}

/// Whether the set holds the square.
#[inline]
pub fn test_bit(b: Bitboard, sq: Square) -> (r: bool)
    requires
        sq < 64,
    ensures
        r == holds(b, sq as int),
{
    let m = b & sq_bb(sq);
    proof {
        if m == 0 {
            lemma_empty(m);
            assert(!holds(m, sq as int));
        } else {
            lemma_lowest(m);
        }
    }
    m != 0
}

} // verus!
