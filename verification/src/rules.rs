//! The rules of the game over a plain board: who attacks what, what is pinned, what a move
//! does to the board, and which moves there are.

use vstd::prelude::*;

use crate::bits::{has_one, has_or, has_zero, holds, one};
use crate::geometry::{abs, between, bishop_line, hits, on_board, pawn_hit, reaches, rook_line};
use crate::state::StateInfo;
use crate::types::{relative_rank, relative_square, Color, Move, Piece, PieceType, Square, SQ_NONE};
use crate::variant::Variant;

verus! {

/// What stands on each of the 64 squares.
pub type Board = Seq<Piece>;

/// The logical content of a position: the board, whose turn it is, the castling set-up
/// and the state of every ply so far.
#[verifier::ext_equal]
pub struct PosView {
    pub board: Board,
    pub stm: Color,
    pub game_ply: int,
    pub chess960: bool,
    pub variant: Variant,
    /// Rights lost when a piece leaves or enters each square.
    pub mask: Seq<u8>,
    /// Rook square of each castling right.
    pub rooks: Seq<Square>,
    /// Squares that must be empty for each castling right.
    pub path: Seq<u64>,
    pub states: Seq<StateInfo>,
}

/// 64 squares, each holding a piece or nothing.
pub open spec fn board_wf(b: Board) -> bool {
    b.len() == 64 && forall|s: int| 0 <= s < 64 ==> (#[trigger] b[s]).0 <= 12
}

/// A piece of colour `c`.
pub open spec fn owned(p: Piece, c: Color) -> bool {
    p.0 < 12 && p.color() == c
}

/// The squares below `n` that hold a piece.
pub open spec fn occ_below(b: Board, n: nat) -> u64
    decreases n,
{
    if n == 0 {
        0
    } else {
        occ_below(b, (n - 1) as nat) | if b[n - 1].0 < 12 {
            one(n - 1)
        } else {
            0
        }
    }
}

/// The squares that hold a piece.
#[verifier::opaque]
pub open spec fn occ(b: Board) -> u64 {
    occ_below(b, 64)
}

proof fn lemma_occ_below(b: Board, n: nat, s: int)
    requires
        n <= 64,
    ensures
        holds(occ_below(b, n), s) <==> 0 <= s < n && b[s].0 < 12,
    decreases n,
{
    if n > 0 {
        lemma_occ_below(b, (n - 1) as nat, s);
        let lo = occ_below(b, (n - 1) as nat);
        let hi = if b[n - 1].0 < 12 {
            one(n - 1)
        } else {
            0
        };
        has_or(lo, hi, s);
        has_one(n - 1, s);
        has_zero(s);
    } else {
        has_zero(s);
    }
}

/// The occupancy holds exactly the squares with a piece.
pub broadcast proof fn lemma_occ(b: Board, s: int)
    ensures
        #[trigger] holds(occ(b), s) <==> 0 <= s < 64 && b[s].0 < 12,
{
    reveal(occ);
    lemma_occ_below(b, 64, s);
}

/// The piece on `x` attacks `s` over the occupancy `o`.
pub open spec fn hit_by(b: Board, x: int, s: int, o: u64) -> bool {
    b[x].0 < 12 && hits(b[x].color(), b[x].piece_type(), x, s, o)
}

/// Some piece of colour `by` attacks `s`.
pub open spec fn attacked(b: Board, by: Color, s: int) -> bool {
    exists|x: int| on_board(x) && owned(b[x], by) && #[trigger] hit_by(b, x, s, occ(b))
}

pub open spec fn king(c: Color) -> Piece {
    Piece::make(c, PieceType::King)
}

pub open spec fn rook(c: Color) -> Piece {
    Piece::make(c, PieceType::Rook)
}

pub open spec fn pawn(c: Color) -> Piece {
    Piece::make(c, PieceType::Pawn)
}

/// `k` is the one square with the king of `c`.
pub open spec fn is_king_square(b: Board, c: Color, k: int) -> bool {
    on_board(k) && b[k] == king(c) && forall|s: int|
        0 <= s < 64 && #[trigger] b[s] == king(c) ==> s == k
}

/// There is exactly one king of colour `c`.
pub open spec fn one_king(b: Board, c: Color) -> bool {
    exists|k: int| #[trigger] is_king_square(b, c, k)
}

/// Square of the king of `c`.
pub open spec fn king_sq(b: Board, c: Color) -> int {
    choose|k: int| #[trigger] is_king_square(b, c, k)
}

/// The king of `c` stands attacked.
pub open spec fn in_check(b: Board, c: Color) -> bool {
    attacked(b, c.flip(), king_sq(b, c))
}

/// Number of squares below `n` that hold the piece `p`.
pub open spec fn count_below(b: Board, p: int, n: nat) -> nat
    decreases n,
{
    if n == 0 {
        0
    } else {
        count_below(b, p, (n - 1) as nat) + if b[n - 1].0 == p {
            1nat
        } else {
            0nat
        }
    }
}

/// Number of squares that hold the piece `p` (0..12).
pub open spec fn count(b: Board, p: int) -> nat {
    count_below(b, p, 64)
}

proof fn lemma_count_below_update(b: Board, s: int, q: Piece, p: int, n: nat)
    requires
        b.len() == 64,
        n <= 64,
        0 <= s < 64,
    ensures
        count_below(b.update(s, q), p, n) == count_below(b, p, n) + (if s < n && q.0 == p {
            1int
        } else {
            0
        }) - (if s < n && b[s].0 == p {
            1int
        } else {
            0
        }),
    decreases n,
{
    if n > 0 {
        lemma_count_below_update(b, s, q, p, (n - 1) as nat);
    }
}

/// Changing one square changes the counts of the two pieces involved.
pub proof fn lemma_count_update(b: Board, s: int, q: Piece, p: int)
    requires
        b.len() == 64,
        0 <= s < 64,
    ensures
        count(b.update(s, q), p) == count(b, p) + (if q.0 == p {
            1int
        } else {
            0
        }) - (if b[s].0 == p {
            1int
        } else {
            0
        }),
{
    lemma_count_below_update(b, s, q, p, 64);
}

proof fn lemma_count_below_found(b: Board, p: int, s: int, n: nat)
    requires
        0 <= s < n <= 64,
        b[s].0 == p,
    ensures
        count_below(b, p, n) >= 1,
    decreases n,
{
    if s < n - 1 {
        lemma_count_below_found(b, p, s, (n - 1) as nat);
    }
}

proof fn lemma_count_below_two(b: Board, p: int, s: int, t: int, n: nat)
    requires
        0 <= s < t < n <= 64,
        b[s].0 == p,
        b[t].0 == p,
    ensures
        count_below(b, p, n) >= 2,
    decreases n,
{
    if t < n - 1 {
        lemma_count_below_two(b, p, s, t, (n - 1) as nat);
    } else {
        lemma_count_below_found(b, p, s, (n - 1) as nat);
    }
}

proof fn lemma_count_below_exists(b: Board, p: int, n: nat)
    requires
        n <= 64,
        count_below(b, p, n) >= 1,
    ensures
        exists|s: int| 0 <= s < n && #[trigger] b[s].0 == p,
    decreases n,
{
    if b[n - 1].0 == p {
        assert(b[n - 1].0 == p);
    } else {
        lemma_count_below_exists(b, p, (n - 1) as nat);
    }
}

proof fn lemma_count_below_bound(b: Board, p: int, n: nat)
    ensures
        count_below(b, p, n) <= n,
    decreases n,
{
    if n > 0 {
        lemma_count_below_bound(b, p, (n - 1) as nat);
    }
}

/// No piece is counted more than 64 times, and one that stands somewhere at least once.
pub proof fn lemma_count_bound(b: Board, p: int, s: int)
    ensures
        count(b, p) <= 64,
        0 <= s < 64 && b[s].0 == p ==> count(b, p) >= 1,
{
    lemma_count_below_bound(b, p, 64);
    if 0 <= s < 64 && b[s].0 == p {
        lemma_count_below_found(b, p, s, 64);
    }
}

/// A square without the piece leaves room below the maximal count.
pub proof fn lemma_count_room(b: Board, p: int, s: int)
    requires
        b.len() == 64,
        0 <= s < 64,
        b[s].0 != p,
        0 <= p < 12,
    ensures
        count(b, p) <= 63,
{
    lemma_count_update(b, s, Piece(p as u8), p);
    lemma_count_below_bound(b.update(s, Piece(p as u8)), p, 64);
}

/// A count of one is a unique king.
pub proof fn lemma_one_king(b: Board, c: Color)
    requires
        board_wf(b),
    ensures
        count(b, king(c).0 as int) == 1 <==> one_king(b, c),
{
    let p = king(c).0 as int;
    if count(b, p) == 1 {
        lemma_count_below_exists(b, p, 64);
        let k = choose|s: int| 0 <= s < 64 && #[trigger] b[s].0 == p;
        assert forall|s: int| 0 <= s < 64 && #[trigger] b[s] == king(c) implies s == k by {
            if s < k {
                lemma_count_below_two(b, p, s, k, 64);
            } else if k < s {
                lemma_count_below_two(b, p, k, s, 64);
            }
        }
        assert(is_king_square(b, c, k));
    }
    if one_king(b, c) {
        let k = king_sq(b, c);
        lemma_count_below_found(b, p, k, 64);
        let cleared = b.update(k, Piece(12));
        lemma_count_update(b, k, Piece(12), p);
        if count(b, p) >= 2 {
            lemma_count_below_exists(cleared, p, 64);
            let s = choose|s: int| 0 <= s < 64 && #[trigger] cleared[s].0 == p;
            assert(b[s] == king(c));
        }
    }
}

// Pins

/// An enemy slider on `n` that would attack `s` on an empty board.
pub open spec fn sniper(b: Board, s: int, enemy: Color, n: int) -> bool {
    &&& on_board(n)
    &&& owned(b[n], enemy)
    &&& {
        ||| rook_line(s, n) && (b[n].piece_type() == PieceType::Rook || b[n].piece_type()
            == PieceType::Queen)
        ||| bishop_line(s, n) && (b[n].piece_type() == PieceType::Bishop || b[n].piece_type()
            == PieceType::Queen)
    }
}

/// `x` stands between `s` and the slider on `n`, other such sliders not counted.
pub open spec fn shields(b: Board, s: int, enemy: Color, n: int, x: int) -> bool {
    between(s, n, x) && b[x].0 < 12 && !sniper(b, s, enemy, x)
}

/// `x` is the only piece between `s` and the slider on `n`.
pub open spec fn sole_shield(b: Board, s: int, enemy: Color, n: int, x: int) -> bool {
    shields(b, s, enemy, n, x) && forall|y: int| #[trigger]
        shields(b, s, enemy, n, y) ==> y == x
}

/// `x` is the only piece between `s` and some enemy slider.
pub open spec fn blocker(b: Board, s: int, enemy: Color, x: int) -> bool {
    exists|n: int| #[trigger] sniper(b, s, enemy, n) && sole_shield(b, s, enemy, n, x)
}

/// The slider on `n` pins a piece of the colour of the piece on `s`.
pub open spec fn pinner(b: Board, s: int, enemy: Color, n: int) -> bool {
    sniper(b, s, enemy, n) && exists|x: int| #[trigger]
        sole_shield(b, s, enemy, n, x) && b[x].color() == b[s].color()
}

// What a move does to the board

impl PosView {
    /// State of the current ply.
    pub open spec fn st(self) -> StateInfo {
        self.states.last()
    }

    pub open spec fn ksq(self, c: Color) -> int {
        king_sq(self.board, c)
    }

    /// Checkers of the king to move.
    pub open spec fn in_check(self) -> bool {
        self.st().checkers != 0
    }

    /// The side has pieces other than pawns and the king.
    pub open spec fn has_pieces(self, c: Color) -> bool {
        exists|s: int|
            on_board(s) && owned(#[trigger] self.board[s], c) && self.board[s].piece_type()
                != PieceType::Pawn && self.board[s].piece_type() != PieceType::King
    }

    pub open spec fn king_promotions(self) -> bool {
        self.variant == Variant::Antichess
    }

    /// The castling flavour means castling, not a promotion to king.
    pub open spec fn real_castling(self, m: Move) -> bool {
        m.is_castling() && self.variant.castling_allowed()
    }

    /// The piece a promotion creates.
    pub open spec fn promoted_to(self, m: Move) -> Option<PieceType> {
        if m.is_promotion() {
            Some(m.promotion())
        } else if m.is_castling() && self.king_promotions() {
            Some(PieceType::King)
        } else {
            None
        }
    }

    /// The piece a move moves or drops.
    pub open spec fn mover(self, m: Move) -> Piece {
        if m.is_drop() {
            Piece::make(self.stm, m.drop_piece())
        } else {
            self.board[m.from()]
        }
    }

    /// The piece a move leaves on its destination.
    pub open spec fn arrives(self, m: Move) -> Piece {
        match self.promoted_to(m) {
            Some(pt) => Piece::make(self.stm, pt),
            None => self.board[m.from()],
        }
    }

    /// Square of the piece a move captures.
    pub open spec fn capture_square(self, m: Move) -> int {
        if m.is_en_passant() {
            m.to() - self.stm.forward()
        } else {
            m.to()
        }
    }

    /// The piece a move captures, or none.
    pub open spec fn captured(self, m: Move) -> Piece {
        if m.is_drop() || self.real_castling(m) {
            Piece(12)
        } else if m.is_en_passant() {
            pawn(self.stm.flip())
        } else {
            self.board[m.to()]
        }
    }

    /// King destination of castling.
    pub open spec fn castle_king_to(self, m: Move) -> int {
        relative_square(
            self.stm,
            if m.to() > m.from() {
                6u8
            } else {
                2u8
            },
        ) as int
    }

    /// Rook destination of castling.
    pub open spec fn castle_rook_to(self, m: Move) -> int {
        relative_square(
            self.stm,
            if m.to() > m.from() {
                5u8
            } else {
                3u8
            },
        ) as int
    }

    /// The board after a move.
    pub open spec fn after(self, m: Move) -> Board {
        let b = self.board;
        if m.is_drop() {
            b.update(m.to(), self.mover(m))
        } else if self.real_castling(m) {
            b.update(m.from(), Piece(12)).update(m.to(), Piece(12)).update(
                self.castle_king_to(m),
                king(self.stm),
            ).update(self.castle_rook_to(m), rook(self.stm))
        } else if m.is_en_passant() {
            b.update(self.capture_square(m), Piece(12)).update(m.from(), Piece(12)).update(
                m.to(),
                self.arrives(m),
            )
        } else {
            b.update(m.from(), Piece(12)).update(m.to(), self.arrives(m))
        }
    }
}


// Validity

/// The castling right of a colour and a side.
pub open spec fn castling_right(c: Color, kingside: bool) -> u8 {
    match c {
        Color::White => if kingside {
            1
        } else {
            2
        },
        Color::Black => if kingside {
            4
        } else {
            8
        },
    }
}

/// Origin and destination two ranks apart on one file.
pub open spec fn is_double_step(m: Move) -> bool {
    abs(m.to() - m.from()) == 16
}

impl PosView {
    /// Type under which the captured piece of `m` joins the pocket.
    pub open spec fn pocket_type(self, m: Move) -> PieceType {
        if holds(self.st().promoted, self.capture_square(m)) {
            PieceType::Pawn
        } else {
            self.captured(m).piece_type()
        }
    }

    /// Castling by the king on `m`'s origin with the rook on its destination: the right is
    /// there and nothing stands in the way.
    pub open spec fn castling_free(self, m: Move) -> bool {
        let cr = castling_right(self.stm, m.to() > m.from());
        &&& self.has_right(cr)
        &&& m.from() == self.ksq(self.stm)
        &&& m.to() == self.rooks[cr as int]
        &&& forall|x: int| #[trigger] holds(self.path[cr as int], x) ==> self.board[x].0 == 12
    }

    /// The move can be carried out: the pieces it moves and takes are there, it does not take
    /// a royal king, and the counters have room.
    pub open spec fn can_make(self, m: Move) -> bool {
        let b = self.board;
        let us = self.stm;
        let (from, to) = (m.from(), m.to());
        &&& self.game_ply < i32::MAX
        &&& self.st().rule50 < i32::MAX
        &&& self.st().plies_from_null < i32::MAX
        &&& if m.is_drop() {
            b[to].0 == 12 && self.st().hand@[us.idx() as int]@[m.drop_piece().idx() as int] > 0
        } else if self.real_castling(m) {
            self.castling_free(m)
        } else {
            &&& from != to
            &&& owned(b[from], us)
            &&& !owned(b[to], us)
            &&& self.variant.royal_king() ==> b[to] != king(us.flip())
            &&& self.promoted_to(m) is Some ==> b[from] == pawn(us)
            &&& m.is_en_passant() ==> {
                &&& b[from] == pawn(us)
                &&& b[to].0 == 12
                &&& on_board(self.capture_square(m))
                &&& b[self.capture_square(m)] == pawn(us.flip())
            }
            &&& b[from] == pawn(us) && is_double_step(m) ==> {
                &&& relative_rank(us, from as u8) == 1
                &&& to == from + 2 * us.forward()
                &&& b[from + us.forward()].0 == 12
                &&& b[to].0 == 12
                &&& self.promoted_to(m) is None
                &&& !m.is_en_passant()
            }
            &&& self.variant == Variant::Crazyhouse && self.captured(m).0 < 12
                ==> self.st().hand@[us.idx() as int]@[self.pocket_type(m).idx() as int] < 16
        }
    }

    /// Square on which the moved piece (the king, in castling) arrives.
    pub open spec fn arrival(self, m: Move) -> int {
        if self.real_castling(m) {
            self.castle_king_to(m)
        } else {
            m.to()
        }
    }

    /// A double step that an enemy pawn can answer by capturing en passant.
    pub open spec fn opens_en_passant(self, m: Move) -> bool {
        &&& !m.is_drop()
        &&& self.board[m.from()] == pawn(self.stm)
        &&& is_double_step(m)
        &&& exists|s: int|
            on_board(s) && #[trigger] self.board[s] == pawn(self.stm.flip()) && pawn_hit(
                self.stm,
                m.from() + self.stm.forward(),
                s,
            )
    }

    /// Promoted-piece mark of square `x` once the captured piece is gone.
    pub open spec fn mark_after_capture(self, m: Move, x: int) -> bool {
        holds(self.st().promoted, x) && !(self.variant == Variant::Crazyhouse && self.captured(
            m,
        ).0 < 12 && x == self.capture_square(m))
    }

    /// Promoted-piece mark of square `x` after the move.
    pub open spec fn mark_after(self, m: Move, x: int) -> bool {
        if m.is_drop() || self.real_castling(m) {
            holds(self.st().promoted, x)
        } else {
            let carried = if self.mark_after_capture(m, m.from()) {
                self.mark_after_capture(m, x) != (x == m.from() || x == m.to())
            } else {
                self.mark_after_capture(m, x)
            };
            carried || (self.variant == Variant::Crazyhouse && x == m.to()
                && self.board[m.from()].piece_type() == PieceType::Pawn && self.promoted_to(
                m,
            ) is Some)
        }
    }

    /// Pocket of colour `c` and type `p` after the move.
    pub open spec fn hand_after(self, m: Move, c: int, p: int) -> int {
        let n = self.st().hand@[c]@[p] as int;
        if c != self.stm.idx() {
            n
        } else if m.is_drop() {
            if p == m.drop_piece().idx() {
                n - 1
            } else {
                n
            }
        } else if self.variant == Variant::Crazyhouse && self.captured(m).0 < 12 && p
            == self.pocket_type(m).idx() {
            n + 1
        } else {
            n
        }
    }

    /// Checks given by colour `c` after the move.
    pub open spec fn checks_after(self, m: Move, gives_check: bool, c: int) -> int {
        let n = self.st().checks_given@[c] as int;
        if gives_check && !m.is_drop() && self.variant == Variant::ThreeCheck && c
            == self.stm.idx() && n < 3 {
            n + 1
        } else {
            n
        }
    }

    /// `st` is the state after `m`, its keys and derived information aside.
    pub open spec fn next_counters(self, m: Move, gives_check: bool, st: StateInfo) -> bool {
        &&& self.next_core(m, st)
        &&& st.checks_given@[0] == self.checks_after(m, gives_check, 0)
        &&& st.checks_given@[1] == self.checks_after(m, gives_check, 1)
    }

    /// Castling rights, clocks, en passant, capture, pockets and marks of `st` are those
    /// after `m`.
    pub open spec fn next_core(self, m: Move, st: StateInfo) -> bool {
        let prev = self.st();
        &&& st.castling_rights == (if m.is_drop() {
            prev.castling_rights
        } else {
            prev.castling_rights & !(self.mask[m.from()] | self.mask[self.arrival(m)])
        })
        &&& st.rule50 == (if !m.is_drop() && (self.captured(m).0 < 12
            || self.board[m.from()].piece_type() == PieceType::Pawn) {
            0
        } else {
            prev.rule50 + 1
        })
        &&& st.plies_from_null == prev.plies_from_null + 1
        &&& st.ep_square == (if self.opens_en_passant(m) {
            m.from() + self.stm.forward()
        } else {
            64
        })
        &&& st.captured_piece == self.captured(m)
        &&& forall|c: int, p: int|
            0 <= c < 2 && 0 <= p < 5 ==> #[trigger] st.hand@[c]@[p] == self.hand_after(m, c, p)
        &&& forall|x: int| #[trigger] holds(st.promoted, x) <==> on_board(x) && self.mark_after(m, x)
    }

    /// Promoted-piece marks only where a promoted piece can be: on knights, bishops, rooks
    /// and queens, and not on a rook that may still castle.
    pub open spec fn marks_ok(self) -> bool {
        &&& self.variant != Variant::Crazyhouse ==> self.st().promoted == 0
        &&& forall|x: int| #[trigger]
            holds(self.st().promoted, x) ==> self.board[x].0 < 12 && self.board[x].piece_type()
                != PieceType::Pawn && self.board[x].piece_type() != PieceType::King && forall|
                cr: u8,
            |
                single_right(cr) && #[trigger] self.has_right(cr) ==> self.rooks[cr as int] != x
    }
}

impl PosView {
    /// `w` is the position after `m`, given the check flag it was made with.
    pub open spec fn made(self, m: Move, gives_check: bool, w: PosView) -> bool {
        &&& w.board == self.after(m)
        &&& w.stm == self.stm.flip()
        &&& w.game_ply == self.game_ply + 1
        &&& w.chess960 == self.chess960
        &&& w.variant == self.variant
        &&& w.mask == self.mask
        &&& w.rooks == self.rooks
        &&& w.path == self.path
        &&& w.states == self.states.push(w.st())
        &&& self.next_counters(m, gives_check, w.st())
        &&& w.st().repetition == repetition_from(
            self.states,
            w.st().key,
            4,
            reversible_plies(w.st()),
        )
        &&& if gives_check {
            w.checkers_exact(w.st().checkers)
        } else {
            w.st().checkers == 0
        }
    }
}

impl PosView {
    /// `w` is the position after passing the turn.
    pub open spec fn passed(self, w: PosView) -> bool {
        &&& w == (PosView {
            stm: self.stm.flip(),
            states: self.states.push(w.st()),
            ..self
        })
        &&& w.st() == (StateInfo {
            key: w.st().key,
            ep_square: SQ_NONE,
            rule50: (self.st().rule50 + 1) as i32,
            plies_from_null: 0,
            captured_piece: Piece(12),
            repetition: 0,
            checkers: 0,
            blockers_for_king: w.st().blockers_for_king,
            pinners: w.st().pinners,
            check_squares: w.st().check_squares,
            must_capture: w.st().must_capture,
            ..self.st()
        })
    }

    /// The move's effect on the board can be reversed.
    pub open spec fn undoable(self, m: Move) -> bool {
        let b = self.board;
        let (from, to) = (m.from(), m.to());
        let us = PosView { stm: self.stm.flip(), ..self };
        &&& self.states.len() >= 2
        &&& self.game_ply > i32::MIN
        &&& if m.is_drop() {
            b[to].0 < 12
        } else if self.real_castling(m) {
            let (kto, rto) = (us.castle_king_to(m), us.castle_rook_to(m));
            &&& from != to
            &&& b[kto].0 < 12
            &&& b[rto].0 < 12
            &&& b[from].0 == 12 || from == kto || from == rto
            &&& b[to].0 == 12 || to == kto || to == rto
        } else {
            &&& from != to
            &&& b[to].0 < 12
            &&& b[from].0 == 12
            &&& self.st().captured_piece.0 <= 12
            &&& m.is_en_passant() && self.st().captured_piece.0 < 12 ==> {
                &&& on_board(us.capture_square(m))
                &&& b[us.capture_square(m)].0 == 12
                &&& us.capture_square(m) != from
            }
        }
    }

    /// The position with the move taken back.
    pub open spec fn undo(self, m: Move) -> PosView {
        let b = self.board;
        let (from, to) = (m.from(), m.to());
        let us = PosView { stm: self.stm.flip(), ..self };
        let board = if m.is_drop() {
            b.update(to, Piece(12))
        } else if self.real_castling(m) {
            b.update(us.castle_king_to(m), Piece(12)).update(us.castle_rook_to(m), Piece(12)).update(
                from,
                king(us.stm),
            ).update(to, rook(us.stm))
        } else {
            let moved = if self.promoted_to(m) is Some {
                pawn(us.stm)
            } else {
                b[to]
            };
            let back = b.update(to, Piece(12)).update(from, moved);
            if self.st().captured_piece.0 < 12 {
                back.update(us.capture_square(m), self.st().captured_piece)
            } else {
                back
            }
        };
        PosView {
            board,
            stm: us.stm,
            game_ply: self.game_ply - 1,
            states: self.states.drop_last(),
            ..self
        }
    }
}

/// Distance to the last earlier state with the key, looking back in steps of two from `i`
/// to `end` plies: positive for a first repetition, negative if that state repeats too.
pub open spec fn repetition_from(states: Seq<StateInfo>, key: u64, i: int, end: int) -> int
    decreases end - i + 2,
{
    if i > end {
        0
    } else if states[states.len() - i].key == key {
        if states[states.len() - i].repetition != 0 {
            -i
        } else {
            i
        }
    } else {
        repetition_from(states, key, i + 2, end)
    }
}

/// How far back the position of a new state can have occurred before.
pub open spec fn reversible_plies(st: StateInfo) -> int {
    if st.rule50 <= st.plies_from_null {
        st.rule50 as int
    } else {
        st.plies_from_null as int
    }
}

/// Colour a castling right belongs to.
pub open spec fn right_color(cr: u8) -> Color {
    if cr <= 2 {
        Color::White
    } else {
        Color::Black
    }
}

/// The right is a king-side one.
pub open spec fn right_kingside(cr: u8) -> bool {
    cr == 1 || cr == 4
}

/// The right is one of the four single rights.
pub open spec fn single_right(cr: u8) -> bool {
    cr == 1 || cr == 2 || cr == 4 || cr == 8
}

/// King destination of a castling right.
pub open spec fn right_king_to(cr: u8) -> int {
    relative_square(
        right_color(cr),
        if right_kingside(cr) {
            6u8
        } else {
            2u8
        },
    ) as int
}

/// Rook destination of a castling right.
pub open spec fn right_rook_to(cr: u8) -> int {
    relative_square(
        right_color(cr),
        if right_kingside(cr) {
            5u8
        } else {
            3u8
        },
    ) as int
}

/// A square the king or the rook passes over or arrives on.
pub open spec fn on_castling_path(k: int, r: int, kto: int, rto: int, x: int) -> bool {
    (x == rto || between(r, rto, x) || x == kto || between(k, kto, x)) && x != k && x != r
}

impl PosView {
    /// The side still has the right.
    pub open spec fn has_right(self, cr: u8) -> bool {
        self.st().castling_rights & cr != 0
    }

    /// King and rook of a right stand where they stood when it was granted, and the tables
    /// describe the castling move.
    pub open spec fn right_ok(self, cr: u8) -> bool {
        let c = right_color(cr);
        let k = self.ksq(c);
        let r = self.rooks[cr as int] as int;
        &&& 0 <= r < 64
        &&& self.board[r] == rook(c)
        &&& (r > k) == right_kingside(cr)
        &&& self.mask[k] & cr != 0
        &&& self.mask[r] & cr != 0
        &&& forall|x: int| #[trigger]
            holds(self.path[cr as int], x) <==> on_castling_path(
                k,
                r,
                right_king_to(cr),
                right_rook_to(cr),
                x,
            )
    }

    /// The en passant square, where there is one, lies behind a pawn that just advanced two
    /// squares and can be captured on.
    pub open spec fn ep_ok(self) -> bool {
        let e = self.st().ep_square as int;
        let up = self.stm.forward() as int;
        e == 64 || {
            &&& 0 <= e < 64
            &&& relative_rank(self.stm, e as u8) == 5
            &&& self.board[e].0 == 12
            &&& self.board[e - up] == pawn(self.stm.flip())
            &&& self.board[e + up].0 == 12
            &&& exists|s: int|
                on_board(s) && #[trigger] self.board[s] == pawn(self.stm) && pawn_hit(
                    self.stm,
                    s,
                    e,
                )
        }
    }

    /// The side to move has a capture.
    pub open spec fn can_capture(self) -> bool {
        exists|x: int, t: int| #[trigger] self.captures(x, t)
    }

    /// The piece on `x` can capture on `t`.
    pub open spec fn captures(self, x: int, t: int) -> bool {
        &&& on_board(x)
        &&& on_board(t)
        &&& owned(self.board[x], self.stm)
        &&& hit_by(self.board, x, t, occ(self.board))
        &&& owned(self.board[t], self.stm.flip()) || (self.board[x].piece_type() == PieceType::Pawn
            && t == self.st().ep_square)
    }

    /// A set of the pieces giving check.
    pub open spec fn checkers_exact(self, b: u64) -> bool {
        forall|x: int| #[trigger]
            holds(b, x) <==> on_board(x) && owned(self.board[x], self.stm.flip()) && hit_by(
                self.board,
                x,
                self.ksq(self.stm),
                occ(self.board),
            )
    }

    /// Pins and checking squares of the current state describe the board.
    pub open spec fn info_ok(self) -> bool {
        let st = self.st();
        if self.variant.royal_king() {
            let them = self.stm.flip();
            let k = self.ksq(them);
            let o = occ(self.board);
            &&& forall|x: int| #[trigger]
                holds(st.blockers_for_king@[0], x) <==> blocker(
                    self.board,
                    self.ksq(Color::White),
                    Color::Black,
                    x,
                )
            &&& forall|x: int| #[trigger]
                holds(st.blockers_for_king@[1], x) <==> blocker(
                    self.board,
                    self.ksq(Color::Black),
                    Color::White,
                    x,
                )
            &&& forall|x: int| #[trigger]
                holds(st.pinners@[0], x) <==> pinner(
                    self.board,
                    self.ksq(Color::Black),
                    Color::White,
                    x,
                )
            &&& forall|x: int| #[trigger]
                holds(st.pinners@[1], x) <==> pinner(
                    self.board,
                    self.ksq(Color::White),
                    Color::Black,
                    x,
                )
            &&& forall|x: int| #[trigger]
                holds(st.check_squares@[0], x) <==> on_board(x) && pawn_hit(them, k, x)
            &&& forall|x: int| #[trigger]
                holds(st.check_squares@[1], x) <==> on_board(x) && reaches(
                    PieceType::Knight,
                    k,
                    x,
                    o,
                )
            &&& forall|x: int| #[trigger]
                holds(st.check_squares@[2], x) <==> on_board(x) && reaches(
                    PieceType::Bishop,
                    k,
                    x,
                    o,
                )
            &&& forall|x: int| #[trigger]
                holds(st.check_squares@[3], x) <==> on_board(x) && reaches(
                    PieceType::Rook,
                    k,
                    x,
                    o,
                )
            &&& forall|x: int| #[trigger]
                holds(st.check_squares@[4], x) <==> on_board(x) && reaches(
                    PieceType::Queen,
                    k,
                    x,
                    o,
                )
            &&& st.check_squares@[5] == 0
            &&& !st.must_capture
        } else {
            &&& st.blockers_for_king@[0] == 0
            &&& st.blockers_for_king@[1] == 0
            &&& st.pinners@[0] == 0
            &&& st.pinners@[1] == 0
            &&& forall|t: int| 0 <= t < 6 ==> #[trigger] st.check_squares@[t] == 0
            &&& st.must_capture == self.can_capture()
        }
    }

    /// The tables have their sizes and a royal game has one king a side.
    pub open spec fn shape_ok(self) -> bool {
        &&& board_wf(self.board)
        &&& self.mask.len() == 64
        &&& self.rooks.len() == 16
        &&& self.path.len() == 16
        &&& self.states.len() >= 1
        &&& self.variant.royal_king() ==> one_king(self.board, Color::White) && one_king(
            self.board,
            Color::Black,
        )
    }

    /// Counters of the current state are in range.
    pub open spec fn counters_ok(self) -> bool {
        let st = self.st();
        &&& st.castling_rights < 16
        &&& 0 <= st.plies_from_null < self.states.len()
        &&& st.checks_given@[0] <= 3
        &&& st.checks_given@[1] <= 3
        &&& forall|c: int, p: int| 0 <= c < 2 && 0 <= p < 5 ==> #[trigger] st.hand@[c]@[p] <= 16
        &&& st.captured_piece.0 <= 12
    }

    /// Castling rights are backed by a king and a rook.
    pub open spec fn castling_ok(self) -> bool {
        if self.variant.castling_allowed() {
            forall|cr: u8| single_right(cr) && #[trigger] self.has_right(cr) ==> self.right_ok(cr)
        } else {
            self.st().castling_rights == 0
        }
    }

    /// A valid position.
    pub open spec fn wf(self) -> bool {
        &&& self.shape_ok()
        &&& self.counters_ok()
        &&& self.castling_ok()
        &&& self.ep_ok()
        &&& self.info_ok()
        &&& self.st().checkers == 0 || (self.variant.royal_king() && self.checkers_exact(
            self.st().checkers,
        ))
    }
}

} // verus!
