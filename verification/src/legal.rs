//! Legality, check and validity tests of single moves.

use vstd::prelude::*;

use crate::bitboard::{
    aligned, attacks_bb, between_bb, bishop_attacks, line_bb, lsb, more_than_one, pawn_attacks,
    rook_attacks, sq_bb, test_bit,
};
use crate::bits::{group_has, holds, lemma_ext, lemma_lowest, lowest, size};
use crate::geometry::{lemma_clear_symmetric, lemma_line_symmetric};
use crate::movegen::{candidates, generate_all, generate_evasions};
use crate::moves::{canonical, lemma_adds_contains};
use crate::position::Position;
use crate::rules::{attacked, is_king_square, king, lemma_occ, occ, one_king};
use crate::types::{
    file_of, make_square, rank_of, relative_rank, relative_square, Bitboard, Color, Move, MoveList,
    MoveType, Piece, PieceType, Square,
};
use crate::variant::Variant;

verus! {

broadcast use {group_has, lemma_occ};

impl Position {
    /// Whether a slider of colour `by` reaches `k` over the occupancy.
    fn slider_reaches(&self, by: Color, k: Square, occupied: Bitboard) -> (r: bool)
        requires
            self.board_ok(),
            k < 64,
        ensures
            r == self@.slider_hits(by, k as int, occupied),
    {
        let straight = rook_attacks(k, occupied) & self.pieces_cpp(
            by,
            PieceType::Queen,
            PieceType::Rook,
        );
        let slanted = bishop_attacks(k, occupied) & self.pieces_cpp(
            by,
            PieceType::Queen,
            PieceType::Bishop,
        );
        proof {
            let v = self@;
            if straight != 0 {
                lemma_lowest(straight);
                let x = lowest(straight);
                lemma_line_symmetric(k as int, x);
                lemma_clear_symmetric(k as int, x, occupied);
                assert(v.slider_at(by, k as int, occupied, x));
            }
            if slanted != 0 {
                lemma_lowest(slanted);
                let x = lowest(slanted);
                lemma_line_symmetric(k as int, x);
                lemma_clear_symmetric(k as int, x, occupied);
                assert(v.slider_at(by, k as int, occupied, x));
            }
            if straight == 0 && slanted == 0 {
                assert forall|x: int| !#[trigger] v.slider_at(by, k as int, occupied, x) by {
                    if v.slider_at(by, k as int, occupied, x) {
                        lemma_line_symmetric(k as int, x);
                        lemma_clear_symmetric(k as int, x, occupied);
                        assert(!holds(straight, x));
                        assert(!holds(slanted, x));
                    }
                }
            }
        }
        straight != 0 || slanted != 0
    }

    /// Occupancy after an en passant capture.
    fn occupancy_after_passing(&self, m: Move) -> (r: Bitboard)
        requires
            self.wf(),
            self@.pseudo(m),
            m.is_en_passant(),
        ensures
            r == self@.passed_occ(m),
    {
        let from = m.from_sq();
        let to = m.to_sq();
        let capsq = make_square(file_of(to), rank_of(from));
        let r = (self.pieces() ^ sq_bb(from) ^ sq_bb(capsq)) | sq_bb(to);
        proof {
            let v = self@;
            assert(capsq == v.capture_square(m));
            lemma_ext(r, v.passed_occ(m));
        }
        r
    }

    /// Full legality test for a pseudo-legal move.
    pub fn legal(&self, m: Move) -> (r: bool)
        requires
            self.wf(),
            self@.pseudo(m),
        ensures
            r == self@.legal_test(m),
    {
        let ghost v = self@;
        if self.variant == Variant::Antichess {
            // No royalty: every pseudo-legal move is legal.
            return true;
        }
        if self.variant == Variant::RacingKings && self.gives_check(m) {
            // Giving check is forbidden.
            return false;
        }
        // Drops are generated onto blocking squares only, so nothing is left to test.
        if m.is_drop() {
            return true;
        }
        let us = self.side_to_move;
        let them = us.flip();
        let from = m.from_sq();
        let to = m.to_sq();
        proof {
            assert(one_king(v.board, us));
            assert(v.board[v.ksq(us)] == king(us));
        }
        let ksq = self.king_square(us);
        if m.is_en_passant() {
            // Test the king directly: the capture removes two pieces from the ray.
            return !self.slider_reaches(them, ksq, self.occupancy_after_passing(m));
        }
        if m.is_castling() {
            // Generation only checked the path was empty; attacks are checked here.
            let kto = relative_square(
                us,
                if to > from {
                    6
                } else {
                    2
                },
            );
            assert(kto == v.castle_king_to(m));
            let mut s: u8 = kto;
            while s != from
                invariant
                    self.wf(),
                    v == self@,
                    us == v.stm,
                    them == us.flip(),
                    from < 64,
                    kto < 64,
                    from == m.from(),
                    kto == v.castle_king_to(m),
                    m.is_castling(),
                    v.variant.royal_king(),
                    from < s <= kto || kto <= s < from || s == from,
                    forall|x: int|
                        (s < x <= kto && from < x) || (kto <= x < s && x < from) ==> !#[trigger] attacked(
                            v.board,
                            them,
                            x,
                        ),
                decreases
                        (if s > from {
                            s - from
                        } else {
                            from - s
                        }),
            {
                if self.is_square_attacked(s, them) {
                    proof {
                        assert(!v.castling_path_safe(m)) by {
                            assert(attacked(v.board, them, s as int));
                        }
                    }
                    return false;
                }
                if s > from {
                    s = s - 1;
                } else {
                    s = s + 1;
                }
            }
            proof {
                assert(v.castling_path_safe(m));
            }
            // Chess960: the rook may have been shielding the king from a slider.
            return !self.chess960 || !test_bit(self.blockers_for_king(us), to);
        }
        if self.piece_on(from).piece_type() == PieceType::King {
            let o = self.pieces() ^ sq_bb(from);
            proof {
                lemma_ext(o, occ(v.board.update(from as int, Piece(12))));
            }
            return !self.attackers_to_exist(to, o, them);
        }
        // A pinned piece may only move along the pin ray.
        !test_bit(self.blockers_for_king(us), from) || aligned(from, to, ksq)
    }

    /// Whether a pseudo-legal move gives check.
    pub fn gives_check(&self, m: Move) -> (r: bool)
        requires
            self.wf(),
            self@.pseudo(m),
        ensures
            r == self@.check_test(m),
    {
        let ghost v = self@;
        if !self.variant.royal_king() {
            return false;
        }
        let us = self.side_to_move;
        let them = us.flip();
        let to = m.to_sq();
        proof {
            assert(one_king(v.board, them));
            assert(v.board[v.ksq(them)] == king(them));
        }
        if m.is_drop() {
            return test_bit(self.check_squares(m.drop_piece()), to);
        }
        let from = m.from_sq();
        let pt = self.piece_on(from).piece_type();
        // Direct check
        if test_bit(self.check_squares(pt), to) {
            return true;
        }
        let ksq = self.king_square(them);
        // Discovered check
        if test_bit(self.blockers_for_king(them), from) {
            return !test_bit(line_bb(from, to), ksq) || m.is_castling();
        }
        match m.move_type() {
            MoveType::Normal => false,
            MoveType::Promotion => {
                let o = self.pieces() ^ sq_bb(from);
                proof {
                    lemma_ext(o, occ(v.board.update(from as int, Piece(12))));
                }
                test_bit(attacks_bb(m.promotion(), to, o), ksq)
            },
            MoveType::EnPassant => self.slider_reaches(us, ksq, self.occupancy_after_passing(m)),
            MoveType::Castling => {
                let rto = relative_square(
                    us,
                    if to > from {
                        5
                    } else {
                        3
                    },
                );
                assert(rto == v.castle_rook_to(m));
                test_bit(self.check_squares(PieceType::Rook), rto)
            },
        }
    }

    /// Whether the square takes the single checker or shuts it out.
    fn answers_check(&self, to: Square) -> (r: bool)
        requires
            self.wf(),
            self@.in_check(),
            to < 64,
        ensures
            r == (size(self@.st().checkers) < 2 && self@.answers(
                lowest(self@.st().checkers),
                to as int,
            )),
    {
        let ghost v = self@;
        let us = self.side_to_move;
        proof {
            assert(one_king(v.board, us));
            assert(v.board[v.ksq(us)] == king(us));
        }
        let checkers = self.checkers();
        !more_than_one(checkers) && test_bit(between_bb(self.king_square(us), lsb(checkers)), to)
    }

    /// Validates a move that may come from the hash table or a killer slot (possibly stale).
    pub fn pseudo_legal(&self, m: Move) -> (r: bool)
        requires
            self.wf(),
        ensures
            r == self@.candidate(m),
    {
        let ghost v = self@;
        let us = self.side_to_move;
        let them = us.flip();
        let from = m.from_sq();
        let to = m.to_sq();
        if m.is_drop() {
            let pt = m.drop_piece();
            if self.variant != Variant::Crazyhouse || self.hand(us, pt) == 0 || !self.is_empty_sq(
                to,
            ) {
                return false;
            }
            if pt == PieceType::Pawn && (rank_of(to) == 0 || rank_of(to) == 7) {
                return false;
            }
            if self.in_check() {
                return self.answers_check(to);
            }
            return true;
        }
        let pc = self.piece_on(from);
        if pc.is_none() || pc.color() != us {
            return false;
        }
        // Special moves are rare: verify them by generation.
        if m.move_type() != MoveType::Normal {
            let mut list = MoveList::new();
            if self.in_check() {
                generate_evasions(self, &mut list);
            } else {
                generate_all(self, &mut list);
            }
            proof {
                lemma_adds_contains(list@, candidates(v));
                assert(canonical(m));
            }
            return list.contains(m);
        }
        let target = self.piece_on(to);
        if target.is_some() && target.color() == us {
            return false;
        }
        // Antichess: a quiet move is illegal while a capture exists.
        if self.variant == Variant::Antichess && self.must_capture() && target.is_none() {
            return false;
        }
        if pc.piece_type() == PieceType::Pawn {
            // Promotions were handled above, so the target cannot be a back rank.
            if relative_rank(us, from) == 6 {
                return false;
            }
            let push: i32 = us.forward();
            let is_capture = test_bit(pawn_attacks(us, from), to) && target.is_some();
            let is_single = from as i32 + push == to as i32 && target.is_none();
            let is_double = from as i32 + 2 * push == to as i32 && relative_rank(us, from) == 1
                && target.is_none() && self.is_empty_sq((to as i32 - push) as Square);
            if !(is_capture || is_single || is_double) {
                return false;
            }
            proof {
                assert(v.pawn_goes(from as int, to as int));
            }
        } else {
            if !test_bit(attacks_bb(pc.piece_type(), from, self.pieces()), to) {
                return false;
            }
        }
        proof {
            assert(v.pseudo(m));
            if v.variant.royal_king() {
                assert(one_king(v.board, us));
                assert(is_king_square(v.board, us, v.ksq(us)));
            }
        }
        if self.in_check() && pc.piece_type() != PieceType::King {
            return self.answers_check(to);
        }
        true
    }
}

} // verus!
