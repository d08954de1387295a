//! Hand-crafted evaluation: tapered material and piece-square values, mobility, pawn
//! structure, king shelter and attacker pressure, rook files, outposts and the bishop pair.

use vstd::prelude::*;

use crate::arith::{div_toward_zero, quot};
use crate::bitboard::{
    adjacent_files_bb, attacks_bb, distance, file_bb, passed_pawn_span, ranks_ahead_bb,
    pawn_attacks, popcount, rank_bb, sq_bb, DARK_SQUARES, LIGHT_SQUARES, lemma_masks,
};
use crate::bits::{count_below, group_has, holds, lemma_empty, lemma_lowest, lowest};
use crate::draws::square_color;
use crate::geometry::{abs, lemma_pawn_hit_mutual, on_board, pawn_hit, reaches, steps};
use crate::hcetables::{
    mobility_eg, mobility_eg_of, mobility_mg, mobility_mg_of, pst_eg, pst_eg_of, pst_mg,
    pst_mg_of, CONNECTED_BONUS, EG_BACKWARD_PENALTY, EG_BISHOP_PAIR, EG_DOUBLED_PENALTY,
    EG_ISOLATED_PENALTY, EG_OUTPOST_BISHOP, EG_OUTPOST_KNIGHT, EG_PASSED_BONUS,
    EG_ROOK_OPEN_FILE, EG_ROOK_SEMI_OPEN_FILE, EG_VALUES, KING_ATTACK_WEIGHT, MAX_PHASE,
    MG_BACKWARD_PENALTY, MG_BISHOP_PAIR, MG_DOUBLED_PENALTY, MG_ISOLATED_PENALTY,
    MG_MINOR_BEHIND_PAWN, MG_OUTPOST_BISHOP, MG_OUTPOST_KNIGHT, MG_PASSED_BONUS,
    MG_ROOK_OPEN_FILE, MG_ROOK_SEMI_OPEN_FILE, MG_VALUES, PHASE_INC,
};
use crate::position::Position;
use crate::rules::{king_sq, lemma_occ, occ, one_king, owned, pawn, Board};
use crate::types::{
    file, file_of, flip_rank, make_square, rank, rank_of, relative_rank, Color, Piece, PieceType,
    Square, Value,
};

verus! {

broadcast use {group_has, lemma_occ};

/// Contribution of one piece: to its own side in the middlegame and the endgame, to the
/// danger of the enemy king, and to the game phase.
pub struct Terms {
    pub mg: int,
    pub eg: int,
    pub danger: int,
    pub phase: int,
}

// Features

/// A pawn of `c` stands next to file `f`.
pub open spec fn beside(b: Board, c: Color, f: int) -> bool {
    exists|s: int| on_board(s) && #[trigger] b[s] == pawn(c) && abs(file(s) - f) == 1
}

/// A pawn of `c` stands on file `f`.
pub open spec fn on_file(b: Board, c: Color, f: int) -> bool {
    exists|s: int| on_board(s) && #[trigger] b[s] == pawn(c) && file(s) == f
}

/// Squares below `n` the piece on `s` can go to, own pieces aside.
pub open spec fn free_below(b: Board, s: int, n: nat) -> nat
    decreases n,
{
    if n == 0 {
        0
    } else {
        free_below(b, s, (n - 1) as nat) + if reaches(
            b[s].piece_type(),
            s,
            n - 1,
            occ(b),
        ) && !owned(b[n - 1], b[s].color()) {
            1nat
        } else {
            0nat
        }
    }
}

/// Index into the piece-square tables.
pub open spec fn table_index(c: Color, s: int) -> int {
    match c {
        Color::White => 8 * (7 - rank(s)) + file(s),
        Color::Black => s,
    }
}

/// How near the enemy king a piece counts as an attacker.
pub open spec fn attack_range(pt: PieceType) -> int {
    match pt {
        PieceType::Knight => 3,
        PieceType::Bishop => 4,
        PieceType::Rook => 4,
        PieceType::Queen => 5,
        _ => -1,
    }
}

/// An advanced minor piece with own pawns beside it and no enemy pawn to drive it away.
pub open spec fn outpost(b: Board, s: int) -> bool {
    let c = b[s].color();
    &&& 3 <= relative_rank(c, s as u8) <= 5
    &&& beside(b, c, file(s))
    &&& !beside(b, c.flip(), file(s))
}

/// The square in front holds an own pawn.
pub open spec fn behind_pawn(b: Board, s: int) -> bool {
    let t = s + b[s].color().forward();
    on_board(t) && b[t] == pawn(b[s].color())
}

/// Another own pawn on the file.
pub open spec fn doubled(b: Board, s: int) -> bool {
    exists|x: int| on_board(x) && x != s && #[trigger] b[x] == b[s] && file(x) == file(s)
}

/// An own pawn beside it on its rank.
pub open spec fn phalanx(b: Board, s: int) -> bool {
    exists|x: int|
        on_board(x) && #[trigger] b[x] == b[s] && rank(x) == rank(s) && abs(file(x) - file(s)) == 1
}

/// An own pawn defends it.
pub open spec fn supported(b: Board, s: int) -> bool {
    exists|x: int| on_board(x) && #[trigger] b[x] == b[s] && pawn_hit(b[s].color(), x, s)
}

/// `x` is on a lower rank than `s` as seen by `c`.
pub open spec fn lower(c: Color, x: int, s: int) -> bool {
    match c {
        Color::White => rank(x) < rank(s),
        Color::Black => rank(x) > rank(s),
    }
}

/// An own pawn behind it on a file beside it.
pub open spec fn backed(b: Board, s: int) -> bool {
    exists|x: int|
        on_board(x) && #[trigger] b[x] == b[s] && abs(file(x) - file(s)) == 1 && lower(
            b[s].color(),
            x,
            s,
        )
}

/// No enemy pawn ahead on its file or the files beside it.
pub open spec fn passed_pawn(b: Board, s: int) -> bool {
    let c = b[s].color();
    forall|x: int|
        on_board(x) && abs(file(x) - file(s)) <= 1 && lower(c, s, x) ==> #[trigger] b[x] != pawn(
            c.flip(),
        )
}

/// Relative rank counted from one, at most seven.
pub open spec fn pawn_rank(c: Color, s: int) -> int {
    if relative_rank(c, s as u8) >= 6 {
        7
    } else {
        relative_rank(c, s as u8) + 1
    }
}

/// Distance of a king to a square, five at most.
pub open spec fn king_distance(b: Board, c: Color, t: int) -> int {
    let d = steps(king_sq(b, c), t);
    if d < 5 {
        d
    } else {
        5
    }
}

/// Endgame value of a passed pawn: more the nearer its own king is to the promotion square.
pub open spec fn passed_eg(b: Board, s: int) -> int {
    let c = b[s].color();
    let r = pawn_rank(c, s);
    let promo = match c {
        Color::White => 56 + file(s),
        Color::Black => file(s),
    };
    EG_PASSED_BONUS@[r] + if r >= 3 {
        (king_distance(b, c.flip(), promo) - king_distance(b, c, promo)) * ((r - 2) * 5)
    } else {
        0
    }
}

/// A pawn that is behind its neighbours while an enemy pawn contests its advance.
pub open spec fn backward(b: Board, s: int) -> bool {
    let c = b[s].color();
    !supported(b, s) && !phalanx(b, s) && beside(b, c, file(s)) && !backed(b, s) && beside(
        b,
        c.flip(),
        file(s),
    )
}

/// What a pawn's place in the structure is worth in the middlegame.
pub open spec fn structure_mg(b: Board, s: int) -> int {
    let c = b[s].color();
    let r = pawn_rank(c, s);
    (if beside(b, c, file(s)) {
        0
    } else {
        -MG_ISOLATED_PENALTY
    }) + (if doubled(b, s) {
        -MG_DOUBLED_PENALTY
    } else {
        0
    }) + (if phalanx(b, s) || supported(b, s) {
        CONNECTED_BONUS@[r] as int
    } else {
        0
    }) + (if backward(b, s) {
        -MG_BACKWARD_PENALTY
    } else {
        0
    }) + (if passed_pawn(b, s) {
        MG_PASSED_BONUS@[r] as int
    } else {
        0
    })
}

/// What a pawn's place in the structure is worth in the endgame.
pub open spec fn structure_eg(b: Board, s: int) -> int {
    let c = b[s].color();
    let r = pawn_rank(c, s);
    (if beside(b, c, file(s)) {
        0
    } else {
        -EG_ISOLATED_PENALTY
    }) + (if doubled(b, s) {
        -EG_DOUBLED_PENALTY
    } else {
        0
    }) + (if phalanx(b, s) || supported(b, s) {
        CONNECTED_BONUS@[r] * (if r > 2 {
            r - 2
        } else {
            0
        }) / 4
    } else {
        0
    }) + (if backward(b, s) {
        -EG_BACKWARD_PENALTY
    } else {
        0
    }) + (if passed_pawn(b, s) {
        passed_eg(b, s)
    } else {
        0
    })
}

/// The special features of the piece on `s`, for the middlegame and the endgame.
pub open spec fn features(b: Board, s: int) -> (int, int) {
    let c = b[s].color();
    match b[s].piece_type() {
        PieceType::Pawn => (structure_mg(b, s), structure_eg(b, s)),
        PieceType::Knight => (
            (if outpost(b, s) {
                MG_OUTPOST_KNIGHT as int
            } else {
                0
            }) + (if behind_pawn(b, s) {
                MG_MINOR_BEHIND_PAWN as int
            } else {
                0
            }),
            if outpost(b, s) {
                EG_OUTPOST_KNIGHT as int
            } else {
                0
            },
        ),
        PieceType::Bishop => if outpost(b, s) {
            (MG_OUTPOST_BISHOP as int, EG_OUTPOST_BISHOP as int)
        } else {
            (0, 0)
        },
        PieceType::Rook => if on_file(b, c, file(s)) {
            (0, 0)
        } else if on_file(b, c.flip(), file(s)) {
            (MG_ROOK_SEMI_OPEN_FILE as int, EG_ROOK_SEMI_OPEN_FILE as int)
        } else {
            (MG_ROOK_OPEN_FILE as int, EG_ROOK_OPEN_FILE as int)
        },
        PieceType::Queen => (0, 0),
        PieceType::King => (0, 0),
    }
}

/// Contribution of the piece on `s`.
pub open spec fn piece_terms(b: Board, s: int) -> Terms {
    let c = b[s].color();
    let pt = b[s].piece_type();
    let t = pt.idx() as int;
    let i = table_index(c, s);
    let n = free_below(b, s, 64) as int;
    let f = features(b, s);
    Terms {
        mg: MG_VALUES@[t] + pst_mg(pt, i) + mobility_mg(pt, n) + f.0,
        eg: EG_VALUES@[t] + pst_eg(pt, i) + mobility_eg(pt, n) + f.1,
        danger: if steps(s, king_sq(b, c.flip())) <= attack_range(pt) {
            KING_ATTACK_WEIGHT@[t] as int
        } else {
            0
        },
        phase: PHASE_INC@[t] as int,
    }
}

/// Contributions of the pieces of `c` below `n`.
pub open spec fn side_terms(b: Board, c: Color, n: nat) -> Terms
    decreases n,
{
    if n == 0 {
        Terms { mg: 0, eg: 0, danger: 0, phase: 0 }
    } else {
        let t = side_terms(b, c, (n - 1) as nat);
        if owned(b[n - 1], c) {
            let p = piece_terms(b, n - 1);
            Terms {
                mg: t.mg + p.mg,
                eg: t.eg + p.eg,
                danger: t.danger + p.danger,
                phase: t.phase + p.phase,
            }
        } else {
            t
        }
    }
}

/// Bishops of `c` on both square colours.
pub open spec fn bishop_pair(b: Board, c: Color) -> bool {
    let p = Piece::make(c, PieceType::Bishop);
    &&& exists|s: int| on_board(s) && #[trigger] b[s] == p && square_color(s) == 0
    &&& exists|s: int| on_board(s) && #[trigger] b[s] == p && square_color(s) == 1
}

/// An own pawn `d` ranks ahead of the king of `c` on file `f`.
pub open spec fn shelter_pawn(b: Board, c: Color, f: int, d: int) -> bool {
    let r = rank(king_sq(b, c)) + (match c {
        Color::White => d,
        Color::Black => -d,
    });
    0 <= r < 8 && b[8 * r + f] == pawn(c)
}

/// Shelter on the king's file moved by `df`: more for a nearer pawn, a penalty for none
/// within three ranks.
pub open spec fn shelter_file(b: Board, c: Color, df: int) -> int {
    let x = file(king_sq(b, c)) + df;
    let f = if x < 0 {
        0
    } else if x > 7 {
        7
    } else {
        x
    };
    if df == 0 {
        if shelter_pawn(b, c, f, 1) {
            20
        } else if shelter_pawn(b, c, f, 2) {
            10
        } else if shelter_pawn(b, c, f, 3) {
            4
        } else {
            -22
        }
    } else {
        if shelter_pawn(b, c, f, 1) {
            14
        } else if shelter_pawn(b, c, f, 2) {
            6
        } else if shelter_pawn(b, c, f, 3) {
            2
        } else {
            -14
        }
    }
}

/// Middlegame score of a side.
pub open spec fn side_mg(b: Board, c: Color) -> int {
    let danger = side_terms(b, c.flip(), 64).danger;
    side_terms(b, c, 64).mg + (if bishop_pair(b, c) {
        MG_BISHOP_PAIR as int
    } else {
        0
    }) + shelter_file(b, c, -1) + shelter_file(b, c, 0) + shelter_file(b, c, 1) - danger * danger
        / 256
}

/// Endgame score of a side.
pub open spec fn side_eg(b: Board, c: Color) -> int {
    side_terms(b, c, 64).eg + (if bishop_pair(b, c) {
        EG_BISHOP_PAIR as int
    } else {
        0
    })
}

/// Game phase: 24 with full material, 0 with bare kings and pawns.
pub open spec fn phase_of(b: Board) -> int {
    let p = side_terms(b, Color::White, 64).phase + side_terms(b, Color::Black, 64).phase;
    if p < MAX_PHASE {
        p
    } else {
        MAX_PHASE as int
    }
}

/// The evaluation, for the side to move.
pub open spec fn hce_value(b: Board, stm: Color) -> int {
    let mg = side_mg(b, stm) - side_mg(b, stm.flip());
    let eg = side_eg(b, stm) - side_eg(b, stm.flip());
    quot(mg * phase_of(b) + eg * (MAX_PHASE - phase_of(b)), MAX_PHASE as int)
}

// Computing it

/// A set that holds exactly the free squares of a piece has their number.
proof fn lemma_free_count(b: Board, s: int, x: u64, n: nat)
    requires
        n <= 64,
        forall|t: int| #[trigger]
            holds(x, t) <==> on_board(t) && reaches(b[s].piece_type(), s, t, occ(b)) && !owned(
                b[t],
                b[s].color(),
            ),
    ensures
        count_below(x, n) == free_below(b, s, n),
    decreases n,
{
    if n > 0 {
        lemma_free_count(b, s, x, (n - 1) as nat);
        assert(holds(x, n - 1) <==> holds(x, n - 1));
    }
}

/// Contribution of one piece as machine integers.
struct Tally {
    mg: i32,
    eg: i32,
    danger: i32,
    phase: i32,
}

impl Position {
    /// Some pawn of `c` is in the set.
    fn any_pawn(&self, c: Color, set: u64) -> (r: bool)
        requires
            self.wf(),
        ensures
            r == exists|s: int| on_board(s) && #[trigger] self@.board[s] == pawn(c) && holds(set, s),
    {
        let x = self.pieces_cp(c, PieceType::Pawn) & set;
        proof {
            if x != 0 {
                lemma_lowest(x);
                assert(holds(x, lowest(x)));
                assert(self@.board[lowest(x)] == pawn(c));
            } else {
                assert forall|s: int| on_board(s) && #[trigger] self@.board[s] == pawn(
                    c,
                ) implies !holds(set, s) by {
                    lemma_empty(x);
                    assert(!holds(x, s));
                }
            }
        }
        x != 0
    }

    fn pawn_beside(&self, c: Color, sq: Square) -> (r: bool)
        requires
            self.wf(),
            sq < 64,
        ensures
            r == beside(self@.board, c, file(sq as int)),
    {
        self.any_pawn(c, adjacent_files_bb(sq))
    }

    fn pawn_on_file(&self, c: Color, sq: Square) -> (r: bool)
        requires
            self.wf(),
            sq < 64,
        ensures
            r == on_file(self@.board, c, file(sq as int)),
    {
        self.any_pawn(c, file_bb(sq))
    }

    fn king_distance_of(&self, c: Color, t: Square) -> (r: i32)
        requires
            self.wf(),
            self@.variant.royal_king(),
            t < 64,
        ensures
            r == king_distance(self@.board, c, t as int),
            0 <= r <= 5,
    {
        proof {
            assert(one_king(self@.board, c));
        }
        let d = distance(self.king_square(c), t) as i32;
        if d < 5 {
            d
        } else {
            5
        }
    }

    fn passed_eg_of(&self, c: Color, sq: Square, r: usize) -> (v: i32)
        requires
            self.wf(),
            self@.variant.royal_king(),
            sq < 64,
            self@.board[sq as int] == pawn(c),
            r == pawn_rank(c, sq as int),
            1 <= r <= 7,
        ensures
            v == passed_eg(self@.board, sq as int),
            -400 <= v <= 400,
    {
        let base = EG_PASSED_BONUS[r];
        if r < 3 {
            return base;
        }
        let promo: Square = match c {
            Color::White => 56 + file_of(sq),
            Color::Black => file_of(sq),
        };
        let gap: i32 = self.king_distance_of(c.flip(), promo) - self.king_distance_of(c, promo);
        let w: i32 = (r as i32 - 2) * 5;
        proof {
            assert(-125 <= gap * w <= 125) by (nonlinear_arith)
                requires
                    -5 <= gap <= 5,
                    5 <= w <= 25,
            ;
        }
        base + gap * w
    }

    fn pawn_doubled(&self, c: Color, sq: Square) -> (r: bool)
        requires
            self.wf(),
            sq < 64,
            self@.board[sq as int] == pawn(c),
        ensures
            r == doubled(self@.board, sq as int),
    {
        self.any_pawn(c, file_bb(sq) & !sq_bb(sq))
    }

    fn pawn_phalanx(&self, c: Color, sq: Square) -> (r: bool)
        requires
            self.wf(),
            sq < 64,
            self@.board[sq as int] == pawn(c),
        ensures
            r == phalanx(self@.board, sq as int),
    {
        self.any_pawn(c, adjacent_files_bb(sq) & rank_bb(sq))
    }

    fn pawn_supported(&self, c: Color, sq: Square) -> (r: bool)
        requires
            self.wf(),
            sq < 64,
            self@.board[sq as int] == pawn(c),
        ensures
            r == supported(self@.board, sq as int),
    {
        let set = pawn_attacks(c.flip(), sq);
        proof {
            assert forall|x: int| #[trigger] holds(set, x) <==> on_board(x) && pawn_hit(
                c,
                x,
                sq as int,
            ) by {
                if on_board(x) {
                    lemma_pawn_hit_mutual(c, x, sq as int);
                }
            }
        }
        self.any_pawn(c, set)
    }

    fn pawn_backed(&self, c: Color, sq: Square) -> (r: bool)
        requires
            self.wf(),
            sq < 64,
            self@.board[sq as int] == pawn(c),
        ensures
            r == backed(self@.board, sq as int),
    {
        self.any_pawn(c, adjacent_files_bb(sq) & ranks_ahead_bb(c.flip(), sq))
    }

    fn pawn_passed(&self, c: Color, sq: Square) -> (r: bool)
        requires
            self.wf(),
            sq < 64,
            self@.board[sq as int] == pawn(c),
        ensures
            r == passed_pawn(self@.board, sq as int),
    {
        !self.any_pawn(c.flip(), passed_pawn_span(c, sq))
    }

    /// Structure of the pawn on `sq`.
    fn pawn_structure(&self, c: Color, sq: Square) -> (r: (i32, i32))
        requires
            self.wf(),
            self@.variant.royal_king(),
            sq < 64,
            self@.board[sq as int] == pawn(c),
        ensures
            r.0 == structure_mg(self@.board, sq as int),
            r.1 == structure_eg(self@.board, sq as int),
            -700 <= r.0 <= 700,
            -700 <= r.1 <= 700,
    {
        let mut mg: i32 = 0;
        let mut eg: i32 = 0;
        let neighbor = self.pawn_beside(c, sq);
        if !neighbor {
            mg = mg - MG_ISOLATED_PENALTY;
            eg = eg - EG_ISOLATED_PENALTY;
        }
        if self.pawn_doubled(c, sq) {
            mg = mg - MG_DOUBLED_PENALTY;
            eg = eg - EG_DOUBLED_PENALTY;
        }
        let beside_it = self.pawn_phalanx(c, sq);
        let defended = self.pawn_supported(c, sq);
        let rr = relative_rank(c, sq);
        let r: usize = if rr >= 6 {
            7
        } else {
            rr as usize + 1
        };
        if beside_it || defended {
            let v = CONNECTED_BONUS[r];
            mg = mg + v;
            let w: i32 = if r > 2 {
                r as i32 - 2
            } else {
                0
            };
            proof {
                assert(0 <= v * w <= 500) by (nonlinear_arith)
                    requires
                        0 <= v <= 100,
                        0 <= w <= 5,
                ;
            }
            eg = eg + v * w / 4;
        }
        if !defended && !beside_it && neighbor {
            if !self.pawn_backed(c, sq) && self.pawn_beside(c.flip(), sq) {
                mg = mg - MG_BACKWARD_PENALTY;
                eg = eg - EG_BACKWARD_PENALTY;
            }
        }
        if self.pawn_passed(c, sq) {
            mg = mg + MG_PASSED_BONUS[r];
            eg = eg + self.passed_eg_of(c, sq, r);
        }
        (mg, eg)
    }

    fn minor_outpost(&self, c: Color, sq: Square) -> (r: bool)
        requires
            self.wf(),
            sq < 64,
            owned(self@.board[sq as int], c),
        ensures
            r == outpost(self@.board, sq as int),
    {
        let rr = relative_rank(c, sq);
        3 <= rr && rr <= 5 && self.pawn_beside(c, sq) && !self.pawn_beside(c.flip(), sq)
    }

    fn shielded(&self, c: Color, sq: Square) -> (r: bool)
        requires
            self.wf(),
            sq < 64,
            owned(self@.board[sq as int], c),
        ensures
            r == behind_pawn(self@.board, sq as int),
    {
        let t: i32 = sq as i32 + c.forward();
        if t < 0 || t > 63 {
            return false;
        }
        self.piece_on(t as Square) == Piece::make(c, PieceType::Pawn)
    }

    /// Special features of the piece on `sq`.
    fn piece_features(&self, c: Color, pt: PieceType, sq: Square) -> (r: (i32, i32))
        requires
            self.wf(),
            self@.variant.royal_king(),
            sq < 64,
            owned(self@.board[sq as int], c),
            self@.board[sq as int].piece_type() == pt,
        ensures
            r.0 == features(self@.board, sq as int).0,
            r.1 == features(self@.board, sq as int).1,
            -700 <= r.0 <= 700,
            -700 <= r.1 <= 700,
    {
        match pt {
            PieceType::Pawn => self.pawn_structure(c, sq),
            PieceType::Knight => {
                let (mut mg, mut eg): (i32, i32) = (0, 0);
                if self.minor_outpost(c, sq) {
                    mg = MG_OUTPOST_KNIGHT;
                    eg = EG_OUTPOST_KNIGHT;
                }
                if self.shielded(c, sq) {
                    mg = mg + MG_MINOR_BEHIND_PAWN;
                }
                (mg, eg)
            },
            PieceType::Bishop => if self.minor_outpost(c, sq) {
                (MG_OUTPOST_BISHOP, EG_OUTPOST_BISHOP)
            } else {
                (0, 0)
            },
            PieceType::Rook => if self.pawn_on_file(c, sq) {
                (0, 0)
            } else if self.pawn_on_file(c.flip(), sq) {
                (MG_ROOK_SEMI_OPEN_FILE, EG_ROOK_SEMI_OPEN_FILE)
            } else {
                (MG_ROOK_OPEN_FILE, EG_ROOK_OPEN_FILE)
            },
            PieceType::Queen => (0, 0),
            PieceType::King => (0, 0),
        }
    }

    fn free_squares(&self, c: Color, pt: PieceType, sq: Square) -> (r: usize)
        requires
            self.wf(),
            sq < 64,
            owned(self@.board[sq as int], c),
            self@.board[sq as int].piece_type() == pt,
        ensures
            r == free_below(self@.board, sq as int, 64),
            r <= 64,
    {
        let x = attacks_bb(pt, sq, self.pieces()) & !self.pieces_c(c);
        proof {
            lemma_free_count(self@.board, sq as int, x, 64);
        }
        popcount(x) as usize
    }

    /// Contribution of the piece on `sq`.
    fn piece_tally(&self, c: Color, pt: PieceType, sq: Square) -> (r: Tally)
        requires
            self.wf(),
            self@.variant.royal_king(),
            sq < 64,
            owned(self@.board[sq as int], c),
            self@.board[sq as int].piece_type() == pt,
        ensures
            r.mg == piece_terms(self@.board, sq as int).mg,
            r.eg == piece_terms(self@.board, sq as int).eg,
            r.danger == piece_terms(self@.board, sq as int).danger,
            r.phase == piece_terms(self@.board, sq as int).phase,
            -2000 <= r.mg <= 2100,
            -2000 <= r.eg <= 2100,
            0 <= r.danger <= 80,
            0 <= r.phase <= 4,
    {
        let t = pt.idx();
        let i: usize = match c {
            Color::White => flip_rank(sq) as usize,
            Color::Black => sq as usize,
        };
        let n = self.free_squares(c, pt, sq);
        let f = self.piece_features(c, pt, sq);
        proof {
            assert(i == table_index(c, sq as int));
            assert(one_king(self@.board, c.flip()));
        }
        let d = distance(sq, self.king_square(c.flip()));
        let near = match pt {
            PieceType::Knight => d <= 3,
            PieceType::Bishop => d <= 4,
            PieceType::Rook => d <= 4,
            PieceType::Queen => d <= 5,
            PieceType::Pawn => false,
            PieceType::King => false,
        };
        Tally {
            mg: MG_VALUES[t] + pst_mg_of(pt, i) + mobility_mg_of(pt, n) + f.0,
            eg: EG_VALUES[t] + pst_eg_of(pt, i) + mobility_eg_of(pt, n) + f.1,
            danger: if near {
                KING_ATTACK_WEIGHT[t]
            } else {
                0
            },
            phase: PHASE_INC[t],
        }
    }

    /// Contributions of all pieces of `c`.
    fn side_tally(&self, c: Color) -> (r: Tally)
        requires
            self.wf(),
            self@.variant.royal_king(),
        ensures
            r.mg == side_terms(self@.board, c, 64).mg,
            r.eg == side_terms(self@.board, c, 64).eg,
            r.danger == side_terms(self@.board, c, 64).danger,
            r.phase == side_terms(self@.board, c, 64).phase,
            -140000 <= r.mg <= 140000,
            -140000 <= r.eg <= 140000,
            0 <= r.danger <= 6000,
            0 <= r.phase <= 300,
    {
        let mut mg: i32 = 0;
        let mut eg: i32 = 0;
        let mut danger: i32 = 0;
        let mut phase: i32 = 0;
        let mut s: Square = 0;
        while s < 64
            invariant
                s <= 64,
                self.wf(),
                self@.variant.royal_king(),
                mg == side_terms(self@.board, c, s as nat).mg,
                eg == side_terms(self@.board, c, s as nat).eg,
                danger == side_terms(self@.board, c, s as nat).danger,
                phase == side_terms(self@.board, c, s as nat).phase,
                -2100 * s <= mg <= 2100 * s,
                -2100 * s <= eg <= 2100 * s,
                0 <= danger <= 80 * s,
                0 <= phase <= 4 * s,
            decreases 64 - s,
        {
            let pc = self.piece_on(s);
            if pc.is_some() {
                if pc.color() == c {
                    let t = self.piece_tally(c, pc.piece_type(), s);
                    mg = mg + t.mg;
                    eg = eg + t.eg;
                    danger = danger + t.danger;
                    phase = phase + t.phase;
                }
            }
            s += 1;
        }
        Tally { mg, eg, danger, phase }
    }

    fn has_bishop_pair(&self, c: Color) -> (r: bool)
        requires
            self.wf(),
        ensures
            r == bishop_pair(self@.board, c),
    {
        let bishops = self.pieces_cp(c, PieceType::Bishop);
        let light = bishops & LIGHT_SQUARES;
        let dark = bishops & DARK_SQUARES;
        proof {
            let b = self@.board;
            let p = Piece::make(c, PieceType::Bishop);
            assert forall|s: int| on_board(s) && #[trigger] b[s] == p implies (holds(light, s)
                <==> square_color(s) == 1) && (holds(dark, s) <==> square_color(s) == 0) by {
                lemma_masks(s);
                assert(holds(bishops, s));
            }
            if light != 0 {
                lemma_lowest(light);
                assert(holds(light, lowest(light)));
                assert(b[lowest(light)] == p);
            } else {
                assert forall|s: int| on_board(s) && #[trigger] b[s] == p implies square_color(s)
                    != 1 by {
                    lemma_empty(light);
                    assert(!holds(light, s));
                }
            }
            if dark != 0 {
                lemma_lowest(dark);
                assert(holds(dark, lowest(dark)));
                assert(b[lowest(dark)] == p);
            } else {
                assert forall|s: int| on_board(s) && #[trigger] b[s] == p implies square_color(s)
                    != 0 by {
                    lemma_empty(dark);
                    assert(!holds(dark, s));
                }
            }
        }
        light != 0 && dark != 0
    }

    fn has_shelter_pawn(&self, c: Color, f: u8, d: u8) -> (r: bool)
        requires
            self.wf(),
            self@.variant.royal_king(),
            f < 8,
            1 <= d <= 3,
        ensures
            r == shelter_pawn(self@.board, c, f as int, d as int),
    {
        proof {
            assert(one_king(self@.board, c));
        }
        let k = rank_of(self.king_square(c)) as i32;
        let r: i32 = match c {
            Color::White => k + d as i32,
            Color::Black => k - d as i32,
        };
        if r < 0 || r > 7 {
            return false;
        }
        let sq = make_square(f, r as u8);
        assert(sq == 8 * r + f);
        self.piece_on(sq) == Piece::make(c, PieceType::Pawn)
    }

    fn shelter_of(&self, c: Color, df: i32) -> (r: i32)
        requires
            self.wf(),
            self@.variant.royal_king(),
            -1 <= df <= 1,
        ensures
            r == shelter_file(self@.board, c, df as int),
            -22 <= r <= 20,
    {
        proof {
            assert(one_king(self@.board, c));
        }
        let x: i32 = file_of(self.king_square(c)) as i32 + df;
        let f: u8 = if x < 0 {
            0
        } else if x > 7 {
            7
        } else {
            x as u8
        };
        if self.has_shelter_pawn(c, f, 1) {
            if df == 0 {
                20
            } else {
                14
            }
        } else if self.has_shelter_pawn(c, f, 2) {
            if df == 0 {
                10
            } else {
                6
            }
        } else if self.has_shelter_pawn(c, f, 3) {
            if df == 0 {
                4
            } else {
                2
            }
        } else {
            if df == 0 {
                -22
            } else {
                -14
            }
        }
    }

    /// Middlegame and endgame score of a side and its share of the phase; `danger` is what
    /// the enemy pieces weigh on its king.
    fn side_score(&self, c: Color, own: &Tally, danger: i32) -> (r: (i32, i32))
        requires
            self.wf(),
            self@.variant.royal_king(),
            own.mg == side_terms(self@.board, c, 64).mg,
            own.eg == side_terms(self@.board, c, 64).eg,
            danger == side_terms(self@.board, c.flip(), 64).danger,
            -140000 <= own.mg <= 140000,
            -140000 <= own.eg <= 140000,
            0 <= danger <= 6000,
        ensures
            r.0 == side_mg(self@.board, c),
            r.1 == side_eg(self@.board, c),
            -300000 <= r.0 <= 300000,
            -300000 <= r.1 <= 300000,
    {
        let mut mg: i32 = own.mg;
        let mut eg: i32 = own.eg;
        if self.has_bishop_pair(c) {
            mg = mg + MG_BISHOP_PAIR;
            eg = eg + EG_BISHOP_PAIR;
        }
        mg = mg + self.shelter_of(c, -1);
        mg = mg + self.shelter_of(c, 0);
        mg = mg + self.shelter_of(c, 1);
        proof {
            assert(0 <= danger * danger <= 36_000_000) by (nonlinear_arith)
                requires
                    0 <= danger <= 6000,
            ;
        }
        mg = mg - danger * danger / 256;
        (mg, eg)
    }
}

/// Hand-crafted evaluation from the side to move's point of view.
pub fn evaluate(pos: &Position) -> (r: Value)
    requires
        pos.wf(),
        pos@.variant.royal_king(),
    ensures
        r == hce_value(pos@.board, pos@.stm),
        -1_300_000 <= r <= 1_300_000,
{
    let us = pos.side_to_move();
    let them = us.flip();
    let own = pos.side_tally(us);
    let other = pos.side_tally(them);
    let (us_mg, us_eg) = pos.side_score(us, &own, other.danger);
    let (them_mg, them_eg) = pos.side_score(them, &other, own.danger);
    let p: i32 = own.phase + other.phase;
    let phase: i32 = if p < MAX_PHASE {
        p
    } else {
        MAX_PHASE
    };
    let mg: i64 = us_mg as i64 - them_mg as i64;
    let eg: i64 = us_eg as i64 - them_eg as i64;
    proof {
        assert(-24 * 600000 <= mg * phase <= 24 * 600000) by (nonlinear_arith)
            requires
                -600000 <= mg <= 600000,
                0 <= phase <= 24,
        ;
        assert(-24 * 600000 <= eg * (24 - phase) <= 24 * 600000) by (nonlinear_arith)
            requires
                -600000 <= eg <= 600000,
                0 <= phase <= 24,
        ;
        assert(us.flip().flip() == us);
    }
    let sum: i64 = mg * phase as i64 + eg * (MAX_PHASE - phase) as i64;
    div_toward_zero(sum, MAX_PHASE as i64) as i32
}

/// Game phase: 24 with full material.
pub fn game_phase(pos: &Position) -> (r: i32)
    requires
        pos.wf(),
    ensures
        r == phase_of(pos@.board),
        0 <= r <= 24,
{
    let ghost b = pos@.board;
    let mut p: i32 = 0;
    let mut s: Square = 0;
    while s < 64
        invariant
            s <= 64,
            pos.wf(),
            b == pos@.board,
            p == side_terms(b, Color::White, s as nat).phase + side_terms(
                b,
                Color::Black,
                s as nat,
            ).phase,
            0 <= p <= 4 * s,
        decreases 64 - s,
    {
        let pc = pos.piece_on(s);
        if pc.is_some() {
            p = p + PHASE_INC[pc.piece_type().idx()];
        }
        s += 1;
    }
    if p < MAX_PHASE {
        p
    } else {
        MAX_PHASE
    }
}

} // verus!
