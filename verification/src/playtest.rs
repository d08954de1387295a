//! Whether a game can be played on from a position: a set-up position need not be one that
//! can arise in a game.

use vstd::prelude::*;

use crate::bitboard::{between_bb, sq_bb, test_bit};
use crate::bits::{group_has, holds, lemma_empty, lemma_ext};
use crate::geometry::between;
use crate::play::{face_count, faces};
use crate::position::Position;
use crate::rules::{is_king_square, king, lemma_occ, one_king, right_color, single_right};
use crate::types::{relative_rank, Color, PieceType, Square};
use crate::variant::Variant;

verus! {

broadcast use {group_has, lemma_occ};

impl Position {
    /// Square of the king of `c` where kings are royal.
    fn royal_square(&self, c: Color) -> (r: Square)
        requires
            self.wf(),
            self@.variant.royal_king(),
        ensures
            r < 64,
            r == self@.ksq(c),
    {
        proof {
            assert(one_king(self@.board, c));
            let k = choose|k: int| #[trigger] is_king_square(self@.board, c, k);
            assert(self@.board[k] == king(c));
        }
        self.king_square(c)
    }

    fn checkers_known(&self) -> (r: bool)
        requires
            self.wf(),
            self@.variant.royal_king(),
        ensures
            r == self@.checkers_exact(self@.st().checkers),
    {
        let us = self.side_to_move;
        let k = self.royal_square(us);
        let c = self.attackers_to(k, self.pieces()) & self.pieces_c(us.flip());
        let st = self.checkers();
        proof {
            assert(self@.checkers_exact(c));
            if self@.checkers_exact(st) {
                assert forall|x: int| #[trigger] holds(c, x) <==> holds(st, x) by {}
                lemma_ext(c, st);
            }
        }
        c == st
    }

    fn check_fits_en_passant(&self) -> (r: bool)
        requires
            self.wf(),
            self@.variant.royal_king(),
        ensures
            r == self@.ep_check_ok(),
    {
        let e = self.ep_square();
        let us = self.side_to_move;
        if e == 64 {
            return true;
        }
        let ghost up = us.forward() as int;
        let (front, back): (Square, Square) = match us {
            Color::White => (e + 8, e - 8),
            Color::Black => (e - 8, e + 8),
        };
        let st = self.checkers();
        let others = st & !sq_bb(back);
        let k = self.royal_square(us);
        proof {
            lemma_empty(others);
            if others != 0 {
                crate::bits::lemma_lowest(others);
                let x = crate::bits::lowest(others);
                assert(holds(st, x) && x != e - up);
            }
        }
        if others == 0 {
            proof {
                assert forall|x: int| #[trigger] holds(st, x) implies x == e - up by {
                    assert(!holds(others, x));
                }
            }
            return true;
        }
        let mut c: u8 = 0;
        while c < 64
            invariant
                c <= 64,
                k < 64,
                front < 64,
                e != 64,
                e == self@.st().ep_square,
                st == self@.st().checkers,
                k == self@.ksq(self@.stm),
                front == e + self@.stm.forward(),
                forall|x: int|
                    0 <= x < c && #[trigger] holds(st, x) ==> !between(k as int, x, front as int),
            decreases 64 - c,
        {
            if test_bit(st, c) {
                let line = between_bb(k, c);
                if front != c && test_bit(line, front) {
                    proof {
                        assert(holds(st, c as int) && between(k as int, c as int, front as int));
                    }
                    return true;
                }
                proof {
                    if between(k as int, c as int, front as int) {
                        assert(holds(line, front as int));
                    }
                }
            }
            c = c + 1;
        }
        false
    }

    fn right_orthodox(&self, cr: u8) -> (r: bool)
        requires
            self.wf(),
            self@.variant.royal_king(),
            single_right(cr),
        ensures
            r == (self@.has_right(cr) ==> {
                let c = right_color(cr);
                let k = self@.rooks[cr as int] as int;
                &&& relative_rank(c, self@.ksq(c) as u8) == 0
                &&& relative_rank(c, k as u8) == 0
                &&& self@.chess960 || k % 8 != 1 || k > self@.ksq(c)
            }),
    {
        if !self.can_castle(cr) {
            return true;
        }
        proof {
            if !self@.variant.castling_allowed() {
                assert(0u8 & cr == 0) by (bit_vector);
            }
            assert(self@.right_ok(cr));
        }
        let c = if cr <= 2 {
            Color::White
        } else {
            Color::Black
        };
        let k = self.royal_square(c);
        let rk = self.castling_rook_square[cr as usize];
        relative_rank(c, k) == 0 && relative_rank(c, rk) == 0 && (self.chess960 || rk % 8 != 1 || rk
            > k)
    }

    /// Whether the position can arise in a game.
    pub fn is_sound(&self) -> (r: bool)
        requires
            self.wf(),
        ensures
            r == self@.sound(),
    {
        if !self.variant.royal_king() {
            return true;
        }
        let us = self.side_to_move;
        let k = self.royal_square(us.flip());
        let orthodox = self.right_orthodox(1) && self.right_orthodox(2) && self.right_orthodox(4)
            && self.right_orthodox(8);
        proof {
            let v = self@;
            assert(v.has_right(1) || !v.has_right(1));
            assert(v.has_right(2) || !v.has_right(2));
            assert(v.has_right(4) || !v.has_right(4));
            assert(v.has_right(8) || !v.has_right(8));
            assert(single_right(1) && single_right(2) && single_right(4) && single_right(8));
            assert(orthodox == v.castling_orthodox());
        }
        self.checkers_known() && !self.attackers_to_exist(k, self.pieces(), us)
            && self.check_fits_en_passant() && orthodox
    }

    fn castles_from(&self, s: Square) -> (r: bool)
        requires
            self.wf(),
            s < 64,
        ensures
            r == exists|cr: u8|
                single_right(cr) && #[trigger] self@.has_right(cr) && self@.rooks[cr as int] == s,
    {
        let r = (self.can_castle(1) && self.castling_rook_square[1] == s) || (self.can_castle(2)
            && self.castling_rook_square[2] == s) || (self.can_castle(4)
            && self.castling_rook_square[4] == s) || (self.can_castle(8)
            && self.castling_rook_square[8] == s);
        proof {
            let v = self@;
            assert(single_right(1) && single_right(2) && single_right(4) && single_right(8));
            if exists|cr: u8|
                single_right(cr) && #[trigger] v.has_right(cr) && v.rooks[cr as int] == s {
                let cr = choose|cr: u8|
                    single_right(cr) && #[trigger] v.has_right(cr) && v.rooks[cr as int] == s;
                assert(cr == 1 || cr == 2 || cr == 4 || cr == 8);
            }
        }
        r
    }

    fn marks_fit(&self) -> (r: bool)
        requires
            self.wf(),
        ensures
            r == self@.marks_ok(),
    {
        let marks = self.promoted();
        if self.variant != Variant::Crazyhouse {
            proof {
                if marks == 0 {
                    assert forall|x: int| !#[trigger] holds(marks, x) by {}
                }
            }
            return marks == 0;
        }
        let ghost v = self@;
        let mut s: u8 = 0;
        while s < 64
            invariant
                s <= 64,
                self.wf(),
                v == self@,
                marks == v.st().promoted,
                forall|x: int|
                    0 <= x < s && #[trigger] holds(marks, x) ==> v.board[x].0 < 12
                        && v.board[x].piece_type() != PieceType::Pawn && v.board[x].piece_type()
                        != PieceType::King && forall|cr: u8|
                        single_right(cr) && #[trigger] v.has_right(cr) ==> v.rooks[cr as int] != x,
            decreases 64 - s,
        {
            if test_bit(marks, s) {
                let pc = self.board[s as usize];
                if !(pc.0 < 12 && pc.piece_type() != PieceType::Pawn && pc.piece_type()
                    != PieceType::King) || self.castles_from(s) {
                    proof {
                        assert(holds(v.st().promoted, s as int));
                    }
                    return false;
                }
            }
            s = s + 1;
        }
        proof {
            assert forall|x: int| #[trigger] holds(marks, x) implies 0 <= x < 64 by {}
        }
        true
    }

    /// Pieces of a type on the board, promoted ones counting as pawns.
    fn faces_on_board(&self, p: u8) -> (r: u32)
        requires
            self.wf(),
            p < 6,
        ensures
            r == face_count(faces(self@.board, self@.st().promoted), p as int, 64),
            r <= 64,
    {
        let marks = self.promoted();
        let ghost f = faces(self@.board, self@.st().promoted);
        let mut n: u32 = 0;
        let mut s: u8 = 0;
        while s < 64
            invariant
                s <= 64,
                p < 6,
                self.wf(),
                marks == self@.st().promoted,
                f == faces(self@.board, self@.st().promoted),
                n == face_count(f, p as int, s as nat),
                n <= s,
            decreases 64 - s,
        {
            let pc = self.board[s as usize];
            let mark = test_bit(marks, s);
            if pc.0 < 12 && (if mark {
                p == 0
            } else {
                pc.0 % 6 == p
            }) {
                n = n + 1;
            }
            s = s + 1;
        }
        n
    }

    fn pockets_fit(&self) -> (r: bool)
        requires
            self.wf(),
        ensures
            r == self@.pockets_ok(),
    {
        if self.variant != Variant::Crazyhouse {
            return true;
        }
        let ghost v = self@;
        let mut p: u8 = 0;
        while p < 5
            invariant
                p <= 5,
                self.wf(),
                v == self@,
                v.variant == Variant::Crazyhouse,
                forall|x: int| 0 <= x < p ==> #[trigger] v.supply(x) <= 16,
            decreases 5 - p,
        {
            let n = self.faces_on_board(p);
            let pt = PieceType::from_idx(p as usize);
            let total: u32 = self.hand(Color::White, pt) as u32 + self.hand(Color::Black, pt) as u32
                + n;
            proof {
                assert(total == v.supply(p as int));
            }
            if total > 16 {
                return false;
            }
            p = p + 1;
        }
        true
    }

    /// Whether a game can be played on from the position.
    pub fn is_playable(&self) -> (r: bool)
        requires
            self.wf(),
        ensures
            r == self@.playable(),
    {
        self.is_sound() && self.marks_fit() && self.pockets_fit()
    }

    /// Whether the counters can advance by `n` plies.
    pub fn has_room(&self, n: u32) -> (r: bool)
        requires
            self.wf(),
            n <= 0x7fff_ffff,
        ensures
            r == self@.room(n as int),
    {
        let k = n as i64;
        self.game_ply > i32::MIN && self.game_ply as i64 + k <= i32::MAX as i64
            && self.rule50_count() as i64 + k <= i32::MAX as i64 && self.plies_from_null() as i64
            + k <= i32::MAX as i64
    }

    /// Whether a search can start from the position.
    pub fn is_searchable(&self) -> (r: bool)
        requires
            self.wf(),
        ensures
            r == self@.searchable(0),
    {
        self.is_playable() && self.has_room(129)
    }
}

} // verus!
