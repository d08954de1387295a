//! Board representation with incremental state: bitboards plus a mailbox and a stack of
//! per-ply states; queries, attack sets, pins and the derived check information.

use std::sync::Arc;

use vstd::prelude::*;

use crate::bitboard::{
    between_bb, bishop_attacks, king_attacks, knight_attacks, lsb, more_than_one, pawn_attacks,
    pop_lsb, popcount, pseudo_attacks, rook_attacks, sq_bb,
};
use crate::bits::{
    group_has, holds, lemma_empty, lemma_ext, lemma_lowest, lemma_nonzero, lowest, size,
};
use crate::geometry::{clear, lemma_clear_symmetric, lemma_line_symmetric, on_board};
use crate::rules::{
    blocker, board_wf, count, hit_by, king, king_sq, lemma_count_bound, lemma_occ, occ, one_king,
    owned, pinner, shields, sniper, sole_shield, PosView,
};
use crate::state::StateInfo;
use crate::types::{Bitboard, Color, Move, Piece, PieceType, Square, Value, PIECE_NB, PIECE_TYPE_NB};
use crate::variant::Variant;
use crate::zobrist::ZobristKeys;

verus! {

broadcast use {group_has, lemma_occ};

/// Piece values used by exchange evaluation, move ordering and material heuristics.
pub const SEE_VALUE: [Value; 7] = [100, 320, 330, 500, 1000, 0, 0];

/// Exchange value of a piece type.
#[verifier::allow_in_spec]
pub fn piece_value(pt: PieceType) -> Value
    returns
        (match pt {
            PieceType::Pawn => 100i32,
            PieceType::Knight => 320i32,
            PieceType::Bishop => 330i32,
            PieceType::Rook => 500i32,
            PieceType::Queen => 1000i32,
            PieceType::King => 0i32,
        }),
{
    SEE_VALUE[pt.idx()]
}

/// Exchange value of a piece, zero for none.
#[verifier::allow_in_spec]
pub fn piece_value_of(pc: Piece) -> Value
    returns
        (if pc.is_none() {
            0i32
        } else {
            piece_value(pc.piece_type())
        }),
{
    if pc.is_none() {
        0
    } else {
        piece_value(pc.piece_type())
    }
}

#[derive(Clone)]
pub struct Position {
    pub board: [Piece; 64],
    pub by_type: [Bitboard; PIECE_TYPE_NB],
    pub by_color: [Bitboard; 2],
    pub piece_count: [u8; PIECE_NB],
    pub side_to_move: Color,
    pub game_ply: i32,
    pub chess960: bool,
    pub variant: Variant,
    pub castling_rights_mask: [u8; 64],
    pub castling_rook_square: [Square; 16],
    pub castling_path: [Bitboard; 16],
    pub states: Vec<StateInfo>,
    pub keys: Arc<ZobristKeys>,
}

impl View for Position {
    type V = PosView;

    open spec fn view(&self) -> PosView {
        PosView {
            board: self.board@,
            stm: self.side_to_move,
            game_ply: self.game_ply as int,
            chess960: self.chess960,
            variant: self.variant,
            mask: self.castling_rights_mask@,
            rooks: self.castling_rook_square@,
            path: self.castling_path@,
            states: self.states@,
        }
    }
}

impl Position {
    /// Bitboards and counters agree with the mailbox.
    pub open spec fn board_ok(&self) -> bool {
        &&& board_wf(self.board@)
        &&& forall|t: int, s: int|
            0 <= t < 6 ==> (#[trigger] holds(self.by_type@[t], s) <==> on_board(s)
                && self.board@[s].0 < 12 && self.board@[s].0 % 6 == t)
        &&& forall|c: int, s: int|
            0 <= c < 2 ==> (#[trigger] holds(self.by_color@[c], s) <==> on_board(s)
                && self.board@[s].0 < 12 && self.board@[s].0 / 6 == c)
        &&& forall|p: int|
            0 <= p < 12 ==> #[trigger] self.piece_count@[p] == count(self.board@, p)
    }

    /// A valid position whose representation is consistent.
    pub open spec fn wf(&self) -> bool {
        self.board_ok() && self.keys.wf() && self@.wf()
    }

    /// Consistent representation and table sizes, the derived information left open.
    pub open spec fn ready(&self) -> bool {
        self.board_ok() && self.keys.wf() && self@.shape_ok()
    }

    pub fn set_chess960(&mut self, on: bool)
        ensures
            final(self)@ == (PosView { chess960: on, ..old(self)@ }),
            old(self).wf() ==> final(self).wf(),
    {
        let ghost v0 = self@;
        self.chess960 = on;
        proof {
            if v0.wf() {
                lemma_chess960_free(v0, self@);
            }
        }
    }

    pub fn is_chess960(&self) -> (r: bool)
        ensures
            r == self@.chess960,
    {
        self.chess960
    }

    /// State of the current ply.
    #[inline]
    pub(crate) fn state(&self) -> (r: &StateInfo)
        requires
            self.states@.len() >= 1,
        ensures
            *r == self@.st(),
    {
        &self.states[self.states.len() - 1]
    }

    // Accessors

    pub fn side_to_move(&self) -> (r: Color)
        ensures
            r == self@.stm,
    {
        self.side_to_move
    }

    pub fn variant(&self) -> (r: Variant)
        ensures
            r == self@.variant,
    {
        self.variant
    }

    /// Three-check: checks delivered by `c` so far.
    pub fn checks_given(&self, c: Color) -> (r: u8)
        requires
            self.states@.len() >= 1,
        ensures
            r == self@.st().checks_given@[c.idx() as int],
    {
        self.state().checks_given[c.idx()]
    }

    /// Antichess: whether the side to move is obliged to capture.
    pub fn must_capture(&self) -> (r: bool)
        requires
            self.states@.len() >= 1,
        ensures
            r == self@.st().must_capture,
    {
        self.state().must_capture
    }

    /// Crazyhouse: pieces of type `pt` in `c`'s pocket.
    pub fn hand(&self, c: Color, pt: PieceType) -> (r: u8)
        requires
            self.states@.len() >= 1,
            pt != PieceType::King,
        ensures
            r == self@.st().hand@[c.idx() as int]@[pt.idx() as int],
    {
        self.state().hand[c.idx()][pt.idx()]
    }

    /// Crazyhouse: squares holding a promoted piece.
    pub fn promoted(&self) -> (r: Bitboard)
        requires
            self.states@.len() >= 1,
        ensures
            r == self@.st().promoted,
    {
        self.state().promoted
    }

    /// Whether a pawn may promote to a king (antichess).
    pub(crate) fn king_promotions(&self) -> (r: bool)
        ensures
            r == self@.king_promotions(),
    {
        self.variant == Variant::Antichess
    }

    /// Antichess: standing pat is not allowed while a capture is available.
    pub fn captures_forced(&self) -> (r: bool)
        requires
            self.states@.len() >= 1,
        ensures
            r == (self@.variant == Variant::Antichess && self@.st().must_capture),
    {
        self.variant == Variant::Antichess && self.must_capture()
    }

    /// Whether material-draw knowledge (insufficient material, scaling) applies.
    pub(crate) fn material_draws_apply(&self) -> (r: bool)
        ensures
            r == (self@.variant == Variant::Standard || self@.variant == Variant::Chess960
                || self@.variant == Variant::ThreeCheck),
    {
        self.variant.royal_king() && !(self.variant == Variant::RacingKings || self.variant
            == Variant::Crazyhouse || self.variant == Variant::KingOfTheHill)
    }

    /// The castling move type doubles as "promote to king" in antichess, where real
    /// castling does not exist.
    pub fn is_real_castling(&self, m: Move) -> (r: bool)
        ensures
            r == self@.real_castling(m),
    {
        m.is_castling() && self.variant.castling_allowed()
    }

    /// Piece a promotion creates, if `m` promotes (king promotions in antichess included).
    pub fn promotion_piece(&self, m: Move) -> (r: Option<PieceType>)
        ensures
            r == self@.promoted_to(m),
    {
        if m.is_promotion() {
            Some(m.promotion())
        } else if m.is_castling() && self.king_promotions() {
            Some(PieceType::King)
        } else {
            None
        }
    }

    #[inline]
    pub fn piece_on(&self, sq: Square) -> (r: Piece)
        requires
            sq < 64,
        ensures
            r == self@.board[sq as int],
    {
        self.board[sq as usize]
    }

    pub fn is_empty_sq(&self, sq: Square) -> (r: bool)
        requires
            sq < 64,
        ensures
            r == (self@.board[sq as int].0 == 12),
    {
        self.piece_on(sq).is_none()
    }

    /// Every occupied square.
    #[inline]
    pub fn pieces(&self) -> (r: Bitboard)
        requires
            self.board_ok(),
        ensures
            r == occ(self@.board),
            forall|s: int| #[trigger]
                holds(r, s) <==> on_board(s) && self@.board[s].0 < 12,
    {
        let r = self.by_color[0] | self.by_color[1];
        proof {
            assert forall|s: int| #[trigger]
                holds(r, s) <==> on_board(s) && self@.board[s].0 < 12 by {
                assert(holds(r, s) <==> holds(self.by_color@[0], s) || holds(
                    self.by_color@[1],
                    s,
                ));
            }
            lemma_ext(r, occ(self@.board));
        }
        r
    }

    /// Squares of the pieces of one colour.
    #[inline]
    pub fn pieces_c(&self, c: Color) -> (r: Bitboard)
        requires
            self.board_ok(),
        ensures
            forall|s: int| #[trigger] holds(r, s) <==> on_board(s) && owned(self@.board[s], c),
    {
        let r = self.by_color[c.idx()];
        proof {
            assert forall|s: int| #[trigger]
                holds(r, s) <==> on_board(s) && owned(self@.board[s], c) by {
                assert(holds(self.by_color@[c.idx() as int], s) <==> holds(r, s));
            }
        }
        r
    }

    /// Squares of the pieces of one type.
    #[inline]
    pub fn pieces_p(&self, pt: PieceType) -> (r: Bitboard)
        requires
            self.board_ok(),
        ensures
            forall|s: int| #[trigger]
                holds(r, s) <==> on_board(s) && self@.board[s].0 < 12
                    && self@.board[s].piece_type() == pt,
    {
        let r = self.by_type[pt.idx()];
        proof {
            assert forall|s: int| #[trigger]
                holds(r, s) <==> on_board(s) && self@.board[s].0 < 12
                    && self@.board[s].piece_type() == pt by {
                assert(holds(self.by_type@[pt.idx() as int], s) <==> holds(r, s));
            }
        }
        r
    }

    /// Squares of the pieces of two types.
    pub fn pieces_pp(&self, a: PieceType, b: PieceType) -> (r: Bitboard)
        requires
            self.board_ok(),
        ensures
            forall|s: int| #[trigger]
                holds(r, s) <==> on_board(s) && self@.board[s].0 < 12 && (
                self@.board[s].piece_type() == a || self@.board[s].piece_type() == b),
    {
        self.pieces_p(a) | self.pieces_p(b)
    }

    /// Squares of one colour's pieces of one type.
    #[inline]
    pub fn pieces_cp(&self, c: Color, pt: PieceType) -> (r: Bitboard)
        requires
            self.board_ok(),
        ensures
            forall|s: int| #[trigger]
                holds(r, s) <==> on_board(s) && self@.board[s] == Piece::make(c, pt),
    {
        self.pieces_c(c) & self.pieces_p(pt)
    }

    /// Squares of one colour's pieces of two types.
    pub fn pieces_cpp(&self, c: Color, a: PieceType, b: PieceType) -> (r: Bitboard)
        requires
            self.board_ok(),
        ensures
            forall|s: int| #[trigger]
                holds(r, s) <==> on_board(s) && (self@.board[s] == Piece::make(c, a)
                    || self@.board[s] == Piece::make(c, b)),
    {
        self.pieces_c(c) & self.pieces_pp(a, b)
    }

    /// Square of `c`'s king (the lowest one where there are several).
    #[inline]
    pub fn king_square(&self, c: Color) -> (r: Square)
        requires
            self.board_ok(),
            exists|k: int| on_board(k) && #[trigger] self@.board[k] == king(c),
        ensures
            r < 64,
            self@.board[r as int] == king(c),
            forall|s: int| 0 <= s < r ==> #[trigger] self@.board[s] != king(c),
            one_king(self@.board, c) ==> r == king_sq(self@.board, c),
    {
        let b = self.pieces_cp(c, PieceType::King);
        proof {
            let k = choose|k: int| on_board(k) && #[trigger] self@.board[k] == king(c);
            lemma_nonzero(b, k);
        }
        let r = lsb(b);
        proof {
            assert forall|s: int| 0 <= s < r implies #[trigger] self@.board[s] != king(c) by {
                assert(!holds(b, s));
            }
        }
        r
    }

    /// Number of pieces of one kind.
    pub fn count(&self, pc: Piece) -> (r: i32)
        requires
            self.board_ok(),
            pc.0 < 12,
        ensures
            r == count(self@.board, pc.0 as int),
            0 <= r <= 64,
    {
        proof {
            lemma_count_bound(self@.board, pc.0 as int, 0);
        }
        self.piece_count[pc.idx()] as i32
    }

    /// Number of one colour's pieces of one type.
    pub fn count_cp(&self, c: Color, pt: PieceType) -> (r: i32)
        requires
            self.board_ok(),
        ensures
            r == count(self@.board, Piece::make(c, pt).0 as int),
            0 <= r <= 64,
    {
        self.count(Piece::make(c, pt))
    }

    /// Number of pieces on the board.
    pub fn count_all(&self) -> (r: i32)
        requires
            self.board_ok(),
        ensures
            r == size(occ(self@.board)),
            0 <= r <= 64,
    {
        popcount(self.pieces())
    }

    pub fn ep_square(&self) -> (r: Square)
        requires
            self.states@.len() >= 1,
        ensures
            r == self@.st().ep_square,
    {
        self.state().ep_square
    }

    pub fn castling_rights(&self) -> (r: u8)
        requires
            self.states@.len() >= 1,
        ensures
            r == self@.st().castling_rights,
    {
        self.state().castling_rights
    }

    /// Whether any of the rights `cr` is left.
    pub fn can_castle(&self, cr: u8) -> (r: bool)
        requires
            self.states@.len() >= 1,
        ensures
            r == self@.has_right(cr),
    {
        self.state().castling_rights & cr != 0
    }

    /// Whether a piece stands in the way of castling.
    pub fn castling_impeded(&self, cr: u8) -> (r: bool)
        requires
            self.board_ok(),
            cr < 16,
        ensures
            r == exists|x: int| #[trigger]
                holds(self@.path[cr as int], x) && self@.board[x].0 < 12,
    {
        let b = self.pieces() & self.castling_path[cr as usize];
        proof {
            lemma_empty(b);
            if b != 0 {
                lemma_lowest(b);
                assert(holds(self@.path[cr as int], lowest(b)));
            } else {
                assert forall|x: int| #[trigger] holds(self@.path[cr as int], x) implies !(
                self@.board[x].0 < 12) by {
                    assert(!holds(b, x));
                }
            }
        }
        b != 0
    }

    pub fn castling_rook_square(&self, cr: u8) -> (r: Square)
        requires
            cr < 16,
        ensures
            r == self@.rooks[cr as int],
    {
        self.castling_rook_square[cr as usize]
    }

    pub fn checkers(&self) -> (r: Bitboard)
        requires
            self.states@.len() >= 1,
        ensures
            r == self@.st().checkers,
    {
        self.state().checkers
    }

    pub fn in_check(&self) -> (r: bool)
        requires
            self.states@.len() >= 1,
        ensures
            r == self@.in_check(),
    {
        self.state().checkers != 0
    }

    pub fn blockers_for_king(&self, c: Color) -> (r: Bitboard)
        requires
            self.states@.len() >= 1,
        ensures
            r == self@.st().blockers_for_king@[c.idx() as int],
    {
        self.state().blockers_for_king[c.idx()]
    }

    pub fn pinners(&self, c: Color) -> (r: Bitboard)
        requires
            self.states@.len() >= 1,
        ensures
            r == self@.st().pinners@[c.idx() as int],
    {
        self.state().pinners[c.idx()]
    }

    pub fn check_squares(&self, pt: PieceType) -> (r: Bitboard)
        requires
            self.states@.len() >= 1,
        ensures
            r == self@.st().check_squares@[pt.idx() as int],
    {
        self.state().check_squares[pt.idx()]
    }

    pub fn key(&self) -> (r: u64)
        requires
            self.states@.len() >= 1,
        ensures
            r == self@.st().key,
    {
        self.state().key
    }

    pub fn pawn_key(&self) -> (r: u64)
        requires
            self.states@.len() >= 1,
        ensures
            r == self@.st().pawn_key,
    {
        self.state().pawn_key
    }

    pub fn material_key(&self) -> (r: u64)
        requires
            self.states@.len() >= 1,
        ensures
            r == self@.st().material_key,
    {
        self.state().material_key
    }

    pub fn nonpawn_key(&self, c: Color) -> (r: u64)
        requires
            self.states@.len() >= 1,
        ensures
            r == self@.st().nonpawn_key@[c.idx() as int],
    {
        self.state().nonpawn_key[c.idx()]
    }

    pub fn minor_key(&self) -> (r: u64)
        requires
            self.states@.len() >= 1,
        ensures
            r == self@.st().minor_key,
    {
        self.state().minor_key
    }

    pub fn rule50_count(&self) -> (r: i32)
        requires
            self.states@.len() >= 1,
        ensures
            r == self@.st().rule50,
    {
        self.state().rule50
    }

    pub fn plies_from_null(&self) -> (r: i32)
        requires
            self.states@.len() >= 1,
        ensures
            r == self@.st().plies_from_null,
    {
        self.state().plies_from_null
    }

    pub fn game_ply(&self) -> (r: i32)
        ensures
            r == self@.game_ply,
    {
        self.game_ply
    }

    pub fn captured_piece(&self) -> (r: Piece)
        requires
            self.states@.len() >= 1,
        ensures
            r == self@.st().captured_piece,
    {
        self.state().captured_piece
    }

    /// The piece a move moves or drops.
    pub fn moved_piece(&self, m: Move) -> (r: Piece)
        ensures
            r == self@.mover(m),
    {
        if m.is_drop() {
            Piece::make(self.side_to_move, m.drop_piece())
        } else {
            self.piece_on(m.from_sq())
        }
    }

    /// True if the move captures (en passant included).
    pub fn is_capture(&self, m: Move) -> (r: bool)
        ensures
            r == ((self@.board[m.to()].0 != 12 && !self@.real_castling(m)) || m.is_en_passant()),
    {
        (self.piece_on(m.to_sq()).is_some() && !self.is_real_castling(m)) || m.is_en_passant()
    }

    /// Captures and queen promotions: the moves the capture stage generates.
    pub fn is_capture_stage(&self, m: Move) -> (r: bool)
        ensures
            r == ((self@.board[m.to()].0 != 12 && !self@.real_castling(m)) || m.is_en_passant() || (
            m.is_promotion() && m.promotion() == PieceType::Queen)),
    {
        self.is_capture(m) || (m.is_promotion() && m.promotion() == PieceType::Queen)
    }

    /// Piece type captured by `m`, if any (pawn for en passant).
    pub fn captured_type(&self, m: Move) -> (r: Option<PieceType>)
        ensures
            r == (if m.is_en_passant() {
                Some(PieceType::Pawn)
            } else if self@.real_castling(m) || self@.board[m.to()].0 == 12 {
                None
            } else {
                Some(self@.board[m.to()].piece_type())
            }),
    {
        if m.is_en_passant() {
            Some(PieceType::Pawn)
        } else if self.is_real_castling(m) {
            None
        } else {
            let pc = self.piece_on(m.to_sq());
            if pc.is_some() {
                Some(pc.piece_type())
            } else {
                None
            }
        }
    }

    /// Exchange value of `c`'s knights, bishops, rooks and queens.
    pub fn non_pawn_material(&self, c: Color) -> (r: Value)
        requires
            self.board_ok(),
        ensures
            r == 320 * count(self@.board, Piece::make(c, PieceType::Knight).0 as int) + 330 * count(
                self@.board,
                Piece::make(c, PieceType::Bishop).0 as int,
            ) + 500 * count(self@.board, Piece::make(c, PieceType::Rook).0 as int) + 1000 * count(
                self@.board,
                Piece::make(c, PieceType::Queen).0 as int,
            ),
    {
        piece_value(PieceType::Knight) * self.count_cp(c, PieceType::Knight) + piece_value(
            PieceType::Bishop,
        ) * self.count_cp(c, PieceType::Bishop) + piece_value(PieceType::Rook) * self.count_cp(
            c,
            PieceType::Rook,
        ) + piece_value(PieceType::Queen) * self.count_cp(c, PieceType::Queen)
    }

    /// Whether `c` has a piece other than pawns and kings.
    pub fn has_non_pawn_material(&self, c: Color) -> (r: bool)
        requires
            self.board_ok(),
        ensures
            r == self@.has_pieces(c),
    {
        let b = self.pieces_c(c) & !self.pieces_pp(PieceType::Pawn, PieceType::King);
        proof {
            lemma_empty(b);
            if b != 0 {
                lemma_lowest(b);
                assert(owned(self@.board[lowest(b)], c));
            } else {
                assert forall|s: int|
                    on_board(s) && owned(#[trigger] self@.board[s], c) && self@.board[s].piece_type()
                        != PieceType::Pawn && self@.board[s].piece_type()
                        != PieceType::King implies false by {
                    assert(!holds(b, s));
                }
            }
        }
        b != 0
    }

    // Attack queries

    /// All pieces (both colours) attacking `s` with the given occupancy.
    pub fn attackers_to(&self, s: Square, occupied: Bitboard) -> (r: Bitboard)
        requires
            self.board_ok(),
            s < 64,
        ensures
            forall|x: int| #[trigger]
                holds(r, x) <==> on_board(x) && hit_by(self@.board, x, s as int, occupied),
    {
        let r = (pawn_attacks(Color::Black, s) & self.pieces_cp(Color::White, PieceType::Pawn)) | (
        pawn_attacks(Color::White, s) & self.pieces_cp(Color::Black, PieceType::Pawn)) | (
        knight_attacks(s) & self.pieces_p(PieceType::Knight)) | (rook_attacks(s, occupied)
            & self.pieces_pp(PieceType::Rook, PieceType::Queen)) | (bishop_attacks(s, occupied)
            & self.pieces_pp(PieceType::Bishop, PieceType::Queen)) | (king_attacks(s)
            & self.pieces_p(PieceType::King));
        proof {
            assert forall|x: int| #[trigger]
                holds(r, x) <==> on_board(x) && hit_by(self@.board, x, s as int, occupied) by {
                if on_board(x) {
                    lemma_line_symmetric(s as int, x);
                    lemma_clear_symmetric(s as int, x, occupied);
                }
            }
        }
        r
    }

    /// Whether any piece of colour `c` attacks `s`, with early exits.
    pub fn attackers_to_exist(&self, s: Square, occupied: Bitboard, c: Color) -> (r: bool)
        requires
            self.board_ok(),
            s < 64,
        ensures
            r == exists|x: int|
                on_board(x) && owned(self@.board[x], c) && #[trigger] hit_by(
                    self@.board,
                    x,
                    s as int,
                    occupied,
                ),
    {
        let rq = self.pieces_cpp(c, PieceType::Rook, PieceType::Queen);
        let rook_hits = rook_attacks(s, occupied) & rq;
        if rook_hits != 0 {
            proof {
                lemma_lowest(rook_hits);
                let x = lowest(rook_hits);
                lemma_line_symmetric(s as int, x);
                lemma_clear_symmetric(s as int, x, occupied);
                assert(hit_by(self@.board, x, s as int, occupied));
            }
            return true;
        }
        let bq = self.pieces_cpp(c, PieceType::Bishop, PieceType::Queen);
        let bishop_hits = bishop_attacks(s, occupied) & bq;
        if bishop_hits != 0 {
            proof {
                lemma_lowest(bishop_hits);
                let x = lowest(bishop_hits);
                lemma_line_symmetric(s as int, x);
                lemma_clear_symmetric(s as int, x, occupied);
                assert(hit_by(self@.board, x, s as int, occupied));
            }
            return true;
        }
        let r = ((pawn_attacks(c.flip(), s) & self.pieces_p(PieceType::Pawn)) | (knight_attacks(s)
            & self.pieces_p(PieceType::Knight)) | (king_attacks(s) & self.pieces_p(
            PieceType::King,
        ))) & self.pieces_c(c);
        proof {
            if r != 0 {
                lemma_lowest(r);
                let x = lowest(r);
                assert(hit_by(self@.board, x, s as int, occupied));
            } else {
                assert forall|x: int|
                    on_board(x) && owned(self@.board[x], c) && #[trigger] hit_by(
                        self@.board,
                        x,
                        s as int,
                        occupied,
                    ) implies false by {
                    lemma_line_symmetric(s as int, x);
                    lemma_clear_symmetric(s as int, x, occupied);
                    assert(!holds(r, x));
                    assert(!holds(rook_hits, x));
                    assert(!holds(bishop_hits, x));
                }
            }
        }
        r != 0
    }

    pub fn is_square_attacked(&self, s: Square, by: Color) -> (r: bool)
        requires
            self.board_ok(),
            s < 64,
        ensures
            r == crate::rules::attacked(self@.board, by, s as int),
    {
        self.attackers_to_exist(s, self.pieces(), by)
    }

    /// Pieces of either colour that are the sole blocker between `s` and one of the sliders
    /// of `enemy`, plus the sliders that pin a piece of `s`'s colour.
    pub(crate) fn slider_blockers(&self, enemy: Color, s: Square) -> (r: (Bitboard, Bitboard))
        requires
            self.board_ok(),
            s < 64,
        ensures
            forall|x: int| #[trigger]
                holds(r.0, x) <==> blocker(self@.board, s as int, enemy, x),
            forall|n: int| #[trigger]
                holds(r.1, n) <==> pinner(self@.board, s as int, enemy, n),
    {
        let ghost b = self@.board;
        let ghost k = s as int;
        let mut blockers: u64 = 0;
        let mut pinners: u64 = 0;
        let mut snipers = ((pseudo_attacks(PieceType::Rook, s) & self.pieces_pp(
            PieceType::Queen,
            PieceType::Rook,
        )) | (pseudo_attacks(PieceType::Bishop, s) & self.pieces_pp(
            PieceType::Queen,
            PieceType::Bishop,
        ))) & self.pieces_c(enemy);
        let ghost all = snipers;
        proof {
            assert(forall|x: int, y: int| clear(x, y, 0));
            assert forall|n: int| #[trigger] holds(all, n) <==> sniper(b, k, enemy, n) by {}
        }
        let occupancy = self.pieces() ^ snipers;
        proof {
            assert forall|x: int| #[trigger]
                holds(occupancy, x) <==> on_board(x) && b[x].0 < 12 && !sniper(
                    b,
                    k,
                    enemy,
                    x,
                ) by {
                assert(holds(all, x) <==> sniper(b, k, enemy, x));
            }
        }
        let target_color = self.piece_on(s).color();
        while snipers != 0
            invariant
                self.board_ok(),
                b == self@.board,
                k == s,
                s < 64,
                target_color == b[k].color(),
                forall|n: int| #[trigger] holds(all, n) <==> sniper(b, k, enemy, n),
                forall|n: int| #[trigger] holds(snipers, n) ==> holds(all, n),
                forall|x: int| #[trigger]
                    holds(occupancy, x) <==> on_board(x) && b[x].0 < 12 && !sniper(
                        b,
                        k,
                        enemy,
                        x,
                    ),
                forall|x: int| #[trigger]
                    holds(blockers, x) <==> exists|n: int| #[trigger]
                        sniper(b, k, enemy, n) && !holds(snipers, n) && sole_shield(
                            b,
                            k,
                            enemy,
                            n,
                            x,
                        ),
                forall|n: int| #[trigger]
                    holds(pinners, n) <==> !holds(snipers, n) && pinner(b, k, enemy, n),
            decreases snipers,
        {
            let ghost before = snipers;
            let sniper_sq = pop_lsb(&mut snipers);
            let ghost n = sniper_sq as int;
            let inner = between_bb(s, sniper_sq) & occupancy;
            let ghost blockers0 = blockers;
            let ghost pinners0 = pinners;
            proof {
                assert(sniper(b, k, enemy, n));
                assert forall|x: int| #[trigger]
                    holds(inner, x) <==> shields(b, k, enemy, n, x) by {
                    assert(holds(occupancy, x) <==> on_board(x) && b[x].0 < 12 && !sniper(
                        b,
                        k,
                        enemy,
                        x,
                    ));
                }
            }
            let single = inner != 0 && !more_than_one(inner);
            proof {
                if single {
                    lemma_lowest(inner);
                    let x0 = lowest(inner);
                    assert(shields(b, k, enemy, n, x0));
                    assert forall|y: int| #[trigger] shields(b, k, enemy, n, y) implies y
                        == x0 by {
                        assert(holds(inner, y) && holds(inner, x0));
                    }
                    assert(sole_shield(b, k, enemy, n, x0));
                    assert forall|x: int| #[trigger]
                        sole_shield(b, k, enemy, n, x) <==> holds(inner, x) by {
                        if holds(inner, x) {
                            assert(holds(inner, x0));
                        }
                    }
                } else {
                    assert forall|x: int| !#[trigger] sole_shield(b, k, enemy, n, x) by {
                        if sole_shield(b, k, enemy, n, x) {
                            assert(holds(inner, x));
                            lemma_nonzero(inner, x);
                            let (p, q) = choose|p: int, q: int|
                                p != q && #[trigger] holds(inner, p) && #[trigger] holds(inner, q);
                            assert(shields(b, k, enemy, n, p) && shields(b, k, enemy, n, q));
                        }
                    }
                }
            }
            if single {
                blockers = blockers | inner;
                let pinned = inner & self.pieces_c(target_color);
                if pinned != 0 {
                    pinners = pinners | sq_bb(sniper_sq);
                }
                proof {
                    let x0 = lowest(inner);
                    lemma_lowest(inner);
                    lemma_empty(pinned);
                    assert(holds(pinned, x0) <==> b[x0].color() == b[k].color());
                    if pinned != 0 {
                        lemma_lowest(pinned);
                        assert(holds(inner, lowest(pinned)));
                    }
                    assert(pinned != 0 <==> pinner(b, k, enemy, n));
                }
            }
            proof {
                assert forall|x: int| #[trigger]
                    holds(blockers, x) <==> exists|j: int| #[trigger]
                        sniper(b, k, enemy, j) && !holds(snipers, j) && sole_shield(
                            b,
                            k,
                            enemy,
                            j,
                            x,
                        ) by {
                    assert(holds(blockers, x) <==> holds(blockers0, x) || (single && holds(
                        inner,
                        x,
                    )));
                    if holds(blockers0, x) {
                        let j = choose|j: int| #[trigger]
                            sniper(b, k, enemy, j) && !holds(before, j) && sole_shield(
                                b,
                                k,
                                enemy,
                                j,
                                x,
                            );
                        assert(!holds(snipers, j));
                    }
                    if single && holds(inner, x) {
                        assert(sole_shield(b, k, enemy, n, x));
                        assert(!holds(snipers, n));
                    }
                    if exists|j: int| #[trigger]
                        sniper(b, k, enemy, j) && !holds(snipers, j) && sole_shield(
                            b,
                            k,
                            enemy,
                            j,
                            x,
                        ) {
                        let j = choose|j: int| #[trigger]
                            sniper(b, k, enemy, j) && !holds(snipers, j) && sole_shield(
                                b,
                                k,
                                enemy,
                                j,
                                x,
                            );
                        if j != n {
                            assert(!holds(before, j));
                        }
                    }
                }
                assert forall|j: int| #[trigger]
                    holds(pinners, j) <==> !holds(snipers, j) && pinner(b, k, enemy, j) by {
                    assert(holds(snipers, j) <==> holds(before, j) && j != n);
                    assert(holds(pinners0, j) <==> !holds(before, j) && pinner(b, k, enemy, j));
                    assert(holds(before, n));
                }
            }
        }
        proof {
            assert forall|x: int| #[trigger]
                holds(blockers, x) <==> blocker(b, k, enemy, x) by {
                if blocker(b, k, enemy, x) {
                    let j = choose|j: int| #[trigger]
                        sniper(b, k, enemy, j) && sole_shield(b, k, enemy, j, x);
                    assert(!holds(snipers, j));
                }
            }
        }
        (blockers, pinners)
    }
}

/// The Chess960 flag plays no part in a position's validity.
proof fn lemma_chess960_free(v: PosView, w: PosView)
    requires
        v.wf(),
        w == (PosView { chess960: w.chess960, ..v }),
    ensures
        w.wf(),
{
    assert(w.can_capture() == v.can_capture()) by {
        if v.can_capture() {
            let (x, t) = choose|x: int, t: int| #[trigger] v.captures(x, t);
            assert(w.captures(x, t));
        }
        if w.can_capture() {
            let (x, t) = choose|x: int, t: int| #[trigger] w.captures(x, t);
            assert(v.captures(x, t));
        }
    }
    assert forall|cr: u8|
        crate::rules::single_right(cr) && #[trigger] w.has_right(cr) && w.variant.castling_allowed()
            implies w.right_ok(cr) by {
        assert(v.has_right(cr));
        assert(v.right_ok(cr));
    }
}

} // verus!
