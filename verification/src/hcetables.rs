//! Tables of the hand-crafted evaluation: material, piece-square values, mobility and the
//! weights of single features, for the middlegame and the endgame.

use vstd::prelude::*;

use crate::types::PieceType;

verus! {

/// Middlegame piece values.
pub const MG_VALUES: [i32; 6] = [
    82, 337, 365, 477, 1025, 0,
];

/// Endgame piece values.
pub const EG_VALUES: [i32; 6] = [
    94, 281, 297, 512, 936, 0,
];

pub const MG_KNIGHT_MOB: [i32; 9] = [
    -62, -36, -12, 0, 8, 14, 18, 20, 22,
];

pub const EG_KNIGHT_MOB: [i32; 9] = [
    -81, -46, -26, -8, 4, 10, 14, 16, 18,
];

pub const MG_BISHOP_MOB: [i32; 14] = [
    -48, -20, 6, 14, 20, 26, 30, 32, 32, 34, 36, 36, 38, 40,
];

pub const EG_BISHOP_MOB: [i32; 14] = [
    -59, -23, -3, 8, 16, 22, 28, 30, 34, 36, 38, 40, 42, 44,
];

pub const MG_ROOK_MOB: [i32; 15] = [
    -60, -20, 0, 2, 4, 8, 14, 18, 22, 22, 24, 26, 28, 28,
    30,
];

pub const EG_ROOK_MOB: [i32; 15] = [
    -78, -17, 16, 28, 48, 62, 66, 74, 78, 80, 84, 86, 88, 88,
    90,
];

pub const MG_QUEEN_MOB: [i32; 28] = [
    -30, -12, -8, -8, 10, 12, 12, 18, 18, 26, 30, 30, 30, 30,
    30, 30, 34, 34, 36, 36, 40, 42, 42, 42, 44, 46, 46, 48,
];

pub const EG_QUEEN_MOB: [i32; 28] = [
    -48, -30, -7, 14, 30, 40, 44, 50, 52, 58, 60, 64, 72, 76,
    80, 82, 84, 86, 90, 92, 94, 96, 96, 100, 102, 104, 106, 112,
];

// Piece-square tables, from White's view with a8 first.

pub const MG_PAWN_PST: [i32; 64] = [
    0, 0, 0, 0, 0, 0, 0, 0,
    98, 134, 61, 95, 68, 126, 34, -11,
    -6, 7, 26, 31, 65, 56, 25, -20,
    -14, 13, 6, 21, 23, 12, 17, -23,
    -27, -2, -5, 12, 17, 6, 10, -25,
    -26, -4, -4, -10, 3, 3, 33, -12,
    -35, -1, -20, -23, -15, 24, 38, -22,
    0, 0, 0, 0, 0, 0, 0, 0,
];

pub const EG_PAWN_PST: [i32; 64] = [
    0, 0, 0, 0, 0, 0, 0, 0,
    178, 173, 158, 134, 147, 132, 165, 187,
    94, 100, 85, 67, 56, 53, 82, 84,
    32, 24, 13, 5, -2, 4, 17, 17,
    13, 9, -3, -7, -7, -8, 3, -1,
    4, 7, -6, 1, 0, -5, -1, -8,
    13, 8, 8, 10, 13, 0, 2, -7,
    0, 0, 0, 0, 0, 0, 0, 0,
];

pub const MG_KNIGHT_PST: [i32; 64] = [
    -167, -89, -34, -49, 61, -97, -15, -107,
    -73, -41, 72, 36, 23, 62, 7, -17,
    -47, 60, 37, 65, 84, 129, 73, 44,
    -9, 17, 19, 53, 37, 69, 18, 22,
    -13, 4, 16, 13, 28, 19, 21, -8,
    -23, -9, 12, 10, 19, 17, 25, -16,
    -29, -53, -12, -3, -1, 18, -14, -19,
    -105, -21, -58, -33, -17, -28, -19, -23,
];

pub const EG_KNIGHT_PST: [i32; 64] = [
    -58, -38, -13, -28, -31, -27, -63, -99,
    -25, -8, -25, -2, -9, -25, -24, -52,
    -24, -20, 10, 9, -1, -9, -19, -41,
    -17, 3, 22, 22, 22, 11, 8, -18,
    -18, -6, 16, 25, 16, 17, 4, -18,
    -23, -3, -1, 15, 10, -3, -20, -22,
    -42, -20, -10, -5, -2, -20, -23, -44,
    -29, -51, -23, -15, -22, -18, -50, -64,
];

pub const MG_BISHOP_PST: [i32; 64] = [
    -29, 4, -82, -37, -25, -42, 7, -8,
    -26, 16, -18, -13, 30, 59, 18, -47,
    -16, 37, 43, 40, 35, 50, 37, -2,
    -4, 5, 19, 50, 37, 37, 7, -2,
    -6, 13, 13, 26, 34, 12, 10, 4,
    0, 15, 15, 15, 14, 27, 18, 10,
    4, 15, 16, 0, 7, 21, 33, 1,
    -33, -3, -14, -21, -13, -12, -39, -21,
];

pub const EG_BISHOP_PST: [i32; 64] = [
    -14, -21, -11, -8, -7, -9, -17, -24,
    -8, -4, 7, -12, -3, -13, -4, -14,
    2, -8, 0, -1, -2, 6, 0, 4,
    -3, 9, 12, 9, 14, 10, 3, 2,
    -6, 3, 13, 19, 7, 10, -3, -9,
    -12, -3, 8, 10, 13, 3, -7, -15,
    -14, -18, -7, -1, 4, -9, -15, -27,
    -23, -9, -23, -5, -9, -16, -5, -17,
];

pub const MG_ROOK_PST: [i32; 64] = [
    32, 42, 32, 51, 63, 9, 31, 43,
    27, 32, 58, 62, 80, 67, 26, 44,
    -5, 19, 26, 36, 17, 45, 61, 16,
    -24, -11, 7, 26, 24, 35, -8, -20,
    -36, -26, -12, -1, 9, -7, 6, -23,
    -45, -25, -16, -17, 3, 0, -5, -33,
    -44, -16, -20, -9, -1, 11, -6, -71,
    -19, -13, 1, 17, 16, 7, -37, -26,
];

pub const EG_ROOK_PST: [i32; 64] = [
    13, 10, 18, 15, 12, 12, 8, 5,
    11, 13, 13, 11, -3, 3, 8, 3,
    7, 7, 7, 5, 4, -3, -5, -3,
    4, 3, 13, 1, 2, 1, -1, 2,
    3, 5, 8, 4, -5, -6, -8, -11,
    -4, 0, -5, -1, -7, -12, -8, -16,
    -6, -6, 0, 2, -9, -9, -11, -3,
    -9, 2, 3, -1, -5, -13, 4, -20,
];

pub const MG_QUEEN_PST: [i32; 64] = [
    -28, 0, 29, 12, 59, 44, 43, 45,
    -24, -39, -5, 1, -16, 57, 28, 54,
    -13, -17, 7, 8, 29, 56, 47, 57,
    -27, -27, -16, -16, -1, 17, -2, 1,
    -9, -26, -9, -10, -2, -4, 3, -3,
    -14, 2, -11, -2, -5, 2, 14, 5,
    -35, -8, 11, 2, 8, 15, -3, 1,
    -1, -18, -9, 10, -15, -25, -31, -50,
];

pub const EG_QUEEN_PST: [i32; 64] = [
    -9, 22, 22, 27, 27, 19, 10, 20,
    -17, 20, 32, 41, 58, 25, 30, 0,
    -20, 6, 9, 49, 47, 35, 19, 9,
    3, 22, 24, 45, 57, 40, 57, 36,
    -18, 28, 19, 47, 31, 34, 39, 23,
    -16, -27, 15, 6, 9, 17, 10, 5,
    -22, -23, -30, -16, -16, -23, -36, -32,
    -33, -28, -22, -43, -5, -32, -20, -41,
];

pub const MG_KING_PST: [i32; 64] = [
    -65, 23, 16, -15, -56, -34, 2, 13,
    29, -1, -20, -7, -8, -4, -38, -29,
    -9, 24, 2, -16, -20, 6, 22, -22,
    -17, -20, -12, -27, -30, -25, -14, -36,
    -49, -1, -27, -39, -46, -44, -33, -51,
    -14, -14, -22, -46, -44, -30, -15, -27,
    1, 7, -8, -64, -43, -16, 9, 8,
    -15, 36, 12, -54, 8, -28, 24, 14,
];

pub const EG_KING_PST: [i32; 64] = [
    -74, -35, -18, -18, -11, 15, 4, -17,
    -12, 17, 14, 17, 17, 38, 23, 11,
    10, 17, 23, 15, 20, 45, 44, 13,
    -8, 22, 24, 27, 26, 33, 26, 3,
    -18, -4, 21, 24, 27, 23, 9, -11,
    -19, -3, 11, 21, 23, 16, 7, -9,
    -27, -11, 4, 13, 14, 4, -5, -17,
    -53, -34, -21, -11, -28, -14, -24, -43,
];

/// Connected pawn bonus by relative rank, counted from one.
pub const CONNECTED_BONUS: [i32; 8] = [
    0, 0, 7, 8, 12, 29, 48, 86,
];

/// Passed pawn bonus by relative rank, counted from one.
pub const MG_PASSED_BONUS: [i32; 8] = [
    0, 0, 5, 10, 20, 40, 70, 120,
];

pub const EG_PASSED_BONUS: [i32; 8] = [
    0, 0, 10, 20, 40, 80, 140, 220,
];

/// King attack weights per piece type.
pub const KING_ATTACK_WEIGHT: [i32; 6] = [
    0, 20, 20, 40, 80, 0,
];

/// Share of each piece type in the game phase.
pub const PHASE_INC: [i32; 6] = [
    0, 1, 1, 2, 4, 0,
];

pub const MG_ISOLATED_PENALTY: i32 = 8;

pub const EG_ISOLATED_PENALTY: i32 = 16;

pub const MG_DOUBLED_PENALTY: i32 = 8;

pub const EG_DOUBLED_PENALTY: i32 = 16;

pub const MG_BACKWARD_PENALTY: i32 = 9;

pub const EG_BACKWARD_PENALTY: i32 = 20;

pub const MG_BISHOP_PAIR: i32 = 30;

pub const EG_BISHOP_PAIR: i32 = 55;

pub const MG_ROOK_OPEN_FILE: i32 = 48;

pub const EG_ROOK_OPEN_FILE: i32 = 29;

pub const MG_ROOK_SEMI_OPEN_FILE: i32 = 19;

pub const EG_ROOK_SEMI_OPEN_FILE: i32 = 7;

pub const MG_OUTPOST_KNIGHT: i32 = 54;

pub const EG_OUTPOST_KNIGHT: i32 = 34;

pub const MG_OUTPOST_BISHOP: i32 = 28;

pub const EG_OUTPOST_BISHOP: i32 = 20;

pub const MG_MINOR_BEHIND_PAWN: i32 = 18;

pub const MAX_PHASE: i32 = 24;

/// Middlegame piece-square value.
#[verifier::opaque]
pub open spec fn pst_mg(pt: PieceType, i: int) -> int {
    match pt {
        PieceType::Pawn => MG_PAWN_PST@[i] as int,
        PieceType::Knight => MG_KNIGHT_PST@[i] as int,
        PieceType::Bishop => MG_BISHOP_PST@[i] as int,
        PieceType::Rook => MG_ROOK_PST@[i] as int,
        PieceType::Queen => MG_QUEEN_PST@[i] as int,
        PieceType::King => MG_KING_PST@[i] as int,
    }
}

/// Middlegame piece-square value.
pub(crate) fn pst_mg_of(pt: PieceType, i: usize) -> (r: i32)
    requires
        i < 64,
    ensures
        r == pst_mg(pt, i as int),
        -200 <= r <= 200,
{
    reveal(pst_mg);
    match pt {
        PieceType::Pawn => MG_PAWN_PST[i],
        PieceType::Knight => MG_KNIGHT_PST[i],
        PieceType::Bishop => MG_BISHOP_PST[i],
        PieceType::Rook => MG_ROOK_PST[i],
        PieceType::Queen => MG_QUEEN_PST[i],
        PieceType::King => MG_KING_PST[i],
    }
}

/// Endgame piece-square value.
#[verifier::opaque]
pub open spec fn pst_eg(pt: PieceType, i: int) -> int {
    match pt {
        PieceType::Pawn => EG_PAWN_PST@[i] as int,
        PieceType::Knight => EG_KNIGHT_PST@[i] as int,
        PieceType::Bishop => EG_BISHOP_PST@[i] as int,
        PieceType::Rook => EG_ROOK_PST@[i] as int,
        PieceType::Queen => EG_QUEEN_PST@[i] as int,
        PieceType::King => EG_KING_PST@[i] as int,
    }
}

/// Endgame piece-square value.
pub(crate) fn pst_eg_of(pt: PieceType, i: usize) -> (r: i32)
    requires
        i < 64,
    ensures
        r == pst_eg(pt, i as int),
        -200 <= r <= 200,
{
    reveal(pst_eg);
    match pt {
        PieceType::Pawn => EG_PAWN_PST[i],
        PieceType::Knight => EG_KNIGHT_PST[i],
        PieceType::Bishop => EG_BISHOP_PST[i],
        PieceType::Rook => EG_ROOK_PST[i],
        PieceType::Queen => EG_QUEEN_PST[i],
        PieceType::King => EG_KING_PST[i],
    }
}

/// Most squares a piece of the type is credited with.
pub open spec fn mobility_cap(pt: PieceType) -> int {
    match pt {
        PieceType::Knight => 8,
        PieceType::Bishop => 13,
        PieceType::Rook => 14,
        PieceType::Queen => 27,
        _ => 0,
    }
}

/// The credited number of squares.
pub open spec fn credited(pt: PieceType, n: int) -> int {
    if n < mobility_cap(pt) {
        n
    } else {
        mobility_cap(pt)
    }
}

/// Middlegame mobility value of `n` free squares.
#[verifier::opaque]
pub open spec fn mobility_mg(pt: PieceType, n: int) -> int {
    match pt {
        PieceType::Pawn => 0,
        PieceType::Knight => MG_KNIGHT_MOB@[credited(pt, n)] as int,
        PieceType::Bishop => MG_BISHOP_MOB@[credited(pt, n)] as int,
        PieceType::Rook => MG_ROOK_MOB@[credited(pt, n)] as int,
        PieceType::Queen => MG_QUEEN_MOB@[credited(pt, n)] as int,
        PieceType::King => 0,
    }
}

/// Middlegame mobility value of `n` free squares.
pub(crate) fn mobility_mg_of(pt: PieceType, n: usize) -> (r: i32)
    ensures
        r == mobility_mg(pt, n as int),
        -100 <= r <= 120,
{
    reveal(mobility_mg);
    match pt {
        PieceType::Knight => if n < 8 {
            MG_KNIGHT_MOB[n]
        } else {
            MG_KNIGHT_MOB[8]
        },
        PieceType::Bishop => if n < 13 {
            MG_BISHOP_MOB[n]
        } else {
            MG_BISHOP_MOB[13]
        },
        PieceType::Rook => if n < 14 {
            MG_ROOK_MOB[n]
        } else {
            MG_ROOK_MOB[14]
        },
        PieceType::Queen => if n < 27 {
            MG_QUEEN_MOB[n]
        } else {
            MG_QUEEN_MOB[27]
        },
        _ => 0,
    }
}

/// Endgame mobility value of `n` free squares.
#[verifier::opaque]
pub open spec fn mobility_eg(pt: PieceType, n: int) -> int {
    match pt {
        PieceType::Pawn => 0,
        PieceType::Knight => EG_KNIGHT_MOB@[credited(pt, n)] as int,
        PieceType::Bishop => EG_BISHOP_MOB@[credited(pt, n)] as int,
        PieceType::Rook => EG_ROOK_MOB@[credited(pt, n)] as int,
        PieceType::Queen => EG_QUEEN_MOB@[credited(pt, n)] as int,
        PieceType::King => 0,
    }
}

/// Endgame mobility value of `n` free squares.
pub(crate) fn mobility_eg_of(pt: PieceType, n: usize) -> (r: i32)
    ensures
        r == mobility_eg(pt, n as int),
        -100 <= r <= 120,
{
    reveal(mobility_eg);
    match pt {
        PieceType::Knight => if n < 8 {
            EG_KNIGHT_MOB[n]
        } else {
            EG_KNIGHT_MOB[8]
        },
        PieceType::Bishop => if n < 13 {
            EG_BISHOP_MOB[n]
        } else {
            EG_BISHOP_MOB[13]
        },
        PieceType::Rook => if n < 14 {
            EG_ROOK_MOB[n]
        } else {
            EG_ROOK_MOB[14]
        },
        PieceType::Queen => if n < 27 {
            EG_QUEEN_MOB[n]
        } else {
            EG_QUEEN_MOB[27]
        },
        _ => 0,
    }
}

} // verus!
