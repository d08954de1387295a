//! Static exchange evaluation: what a series of captures on one square nets.

use vstd::prelude::*;

use crate::bitboard::{
    bishop_attacks, least_significant_square_bb, rook_attacks, sq_bb,
};
use crate::bits::{group_has, holds, lemma_empty, lemma_lowest, lowest, one};
use crate::geometry::{
    between, bishop_line, clear, lemma_clear_symmetric, lemma_line_symmetric, lemma_lines_differ,
    on_board, rook_line,
};
use crate::position::{piece_value, piece_value_of, Position};
use crate::rules::{hit_by, lemma_occ, occ, owned, Board, PosView};
use crate::types::{Bitboard, Color, Move, MoveType, PieceType, Square, Value, VALUE_ZERO};

verus! {

broadcast use {group_has, lemma_occ};

proof fn bv_clear_bit(b: u64, k: u64)
    by (bit_vector)
    requires
        k < 64,
        (b >> k) & 1 == 1,
    ensures
        b ^ (1u64 << k) < b,
{
}

/// Taking a square out of a set makes the word smaller.
pub proof fn lemma_taken_smaller(b: u64, s: int)
    requires
        holds(b, s),
    ensures
        b ^ one(s) < b,
{
    reveal(holds);
    bv_clear_bit(b, s as u64);
}

impl PosView {
    /// The piece of `c` on `s`, still on the board, attacks `to`.
    pub open spec fn joins(self, to: int, left: u64, c: Color, s: int) -> bool {
        on_board(s) && holds(left, s) && owned(self.board[s], c) && hit_by(
            self.board,
            s,
            to,
            left,
        )
    }

    /// The piece may recapture: it attacks the square and no piece still on the board pins
    /// it.
    pub open spec fn recaptures(self, to: int, left: u64, c: Color, s: int) -> bool {
        &&& self.joins(to, left, c, s)
        &&& self.st().pinners@[c.flip().idx() as int] & left != 0 ==> !holds(
            self.st().blockers_for_king@[c.idx() as int],
            s,
        )
    }

    /// `s` holds the least valuable piece that may recapture, the lowest square deciding
    /// between equals.
    pub open spec fn least_recapture(self, to: int, left: u64, c: Color, s: int) -> bool {
        &&& self.recaptures(to, left, c, s)
        &&& forall|x: int| #[trigger]
            self.recaptures(to, left, c, x) ==> {
                let a = self.board[s].piece_type().idx();
                let b = self.board[x].piece_type().idx();
                a < b || (a == b && s <= x)
            }
    }

    /// Some enemy of `c` still attacks the square.
    pub open spec fn still_attacked(self, to: int, left: u64, c: Color) -> bool {
        exists|x: int| #[trigger] self.joins(to, left, c.flip(), x)
    }

    /// What `c` gains by recapturing a piece worth `on`, each side taking with its least
    /// valuable piece for as long as that pays. A king takes last and never into attack.
    pub open spec fn exchange(self, to: int, left: u64, c: Color, on: int) -> int
        decreases left,
    {
        if !(exists|s: int| #[trigger] self.least_recapture(to, left, c, s)) {
            0
        } else {
            let s = choose|s: int| #[trigger] self.least_recapture(to, left, c, s);
            if self.board[s].piece_type() == PieceType::King {
                if self.still_attacked(to, left, c) || on <= 0 {
                    0
                } else {
                    on
                }
            } else {
                proof {
                    lemma_taken_smaller(left, s);
                }
                let reply = self.exchange(
                    to,
                    left ^ one(s),
                    c.flip(),
                    piece_value_of(self.board[s]) as int,
                );
                if on - reply >= 0 {
                    on - reply
                } else {
                    0
                }
            }
        }
    }

    /// Material netted by `m`, the opponent replying at best; zero for moves other than
    /// normal ones.
    pub open spec fn see_value(self, m: Move) -> int {
        if m.is_drop() || m.move_type() != MoveType::Normal {
            0
        } else {
            let (f, t) = (m.from(), m.to());
            piece_value_of(self.board[t]) - self.exchange(
                t,
                (occ(self.board) ^ one(f)) ^ one(t),
                self.stm.flip(),
                piece_value_of(self.board[f]) as int,
            )
        }
    }
}

/// A recapture gains at least nothing and at most the piece taken.
pub proof fn exchange_is_bounded(v: PosView, to: int, left: u64, c: Color, on: int)
    requires
        on >= 0,
    ensures
        0 <= v.exchange(to, left, c, on) <= on,
    decreases left,
{
    if exists|s: int| #[trigger] v.least_recapture(to, left, c, s) {
        let s = choose|s: int| #[trigger] v.least_recapture(to, left, c, s);
        lemma_taken_smaller(left, s);
        exchange_is_bounded(
            v,
            to,
            left ^ one(s),
            c.flip(),
            piece_value_of(v.board[s]) as int,
        );
    }
}

/// The least valuable recapture is unique, so the exchange goes by it.
proof fn lemma_exchange_step(v: PosView, to: int, left: u64, c: Color, on: int, s: int)
    requires
        v.least_recapture(to, left, c, s),
    ensures
        v.exchange(to, left, c, on) == (if v.board[s].piece_type() == PieceType::King {
            if v.still_attacked(to, left, c) || on <= 0 {
                0
            } else {
                on
            }
        } else {
            let reply = v.exchange(
                to,
                left ^ one(s),
                c.flip(),
                piece_value_of(v.board[s]) as int,
            );
            if on - reply >= 0 {
                on - reply
            } else {
                0
            }
        }),
{
    let t = choose|t: int| #[trigger] v.least_recapture(to, left, c, t);
    assert(v.least_recapture(to, left, c, t));
    assert(v.recaptures(to, left, c, s) && v.recaptures(to, left, c, t));
    assert(s == t);
}

/// With nobody to recapture the exchange is over.
proof fn lemma_exchange_over(v: PosView, to: int, left: u64, c: Color, on: int)
    requires
        forall|s: int| !#[trigger] v.recaptures(to, left, c, s),
    ensures
        v.exchange(to, left, c, on) == 0,
{
    assert forall|s: int| !#[trigger] v.least_recapture(to, left, c, s) by {
        assert(!v.recaptures(to, left, c, s));
    }
}

/// The attackers of `to` once the piece on `s` is gone: those before, and the sliders it
/// stood in front of.
pub open spec fn attack_set(b: Board, to: int, left: u64, set: u64) -> bool {
    forall|x: int|
        holds(left, x) ==> (#[trigger] holds(set, x) <==> on_board(x) && hit_by(b, x, to, left))
}

/// Squares strictly between a square and `to` other than `s` are as they were.
proof fn lemma_reveal_behind(b: Board, to: int, left: u64, s: int, x: int)
    requires
        on_board(to),
        on_board(s),
        on_board(x),
        s != to,
        holds(left, s),
    ensures
        clear(x, to, left) ==> clear(x, to, left ^ one(s)),
        clear(x, to, left ^ one(s)) && !clear(x, to, left) ==> between(x, to, s),
{
    if clear(x, to, left ^ one(s)) && !clear(x, to, left) {
        let y = choose|y: int| between(x, to, y) && holds(left, y);
        assert(y == s) by {
            if y != s {
                assert(holds(left ^ one(s), y));
            }
        }
    }
}

/// A square between two others lies on the same kind of line as they do.
proof fn lemma_between_lines(x: int, to: int, s: int)
    requires
        on_board(x),
        on_board(to),
        between(x, to, s),
    ensures
        bishop_line(x, to) ==> bishop_line(s, to),
        rook_line(x, to) ==> rook_line(s, to),
{
}

impl Position {
    /// Takes the least valuable of `bb` off the board and adds the attackers it uncovers.
    fn next_attackers(
        &self,
        to: Square,
        left: Bitboard,
        attackers: Bitboard,
        bb: Bitboard,
        pt: PieceType,
    ) -> (r: (Bitboard, Bitboard))
        requires
            self.wf(),
            to < 64,
            bb != 0,
            pt != PieceType::King,
            forall|x: int| #[trigger]
                holds(bb, x) ==> on_board(x) && holds(left, x) && holds(attackers, x)
                    && self@.board[x].piece_type() == pt,
            attack_set(self@.board, to as int, left, attackers),
        ensures
            r.0 == left ^ one(lowest(bb)),
            attack_set(self@.board, to as int, r.0, r.1),
    {
        let ghost s = lowest(bb);
        let ghost b = self@.board;
        proof {
            lemma_lowest(bb);
            assert(holds(bb, s));
            assert(hit_by(b, s, to as int, left));
        }
        let now = left ^ least_significant_square_bb(bb);
        let mut found = attackers;
        if pt == PieceType::Pawn || pt == PieceType::Bishop || pt == PieceType::Queen {
            found = found | (bishop_attacks(to, now) & self.pieces_pp(
                PieceType::Bishop,
                PieceType::Queen,
            ));
        }
        if pt == PieceType::Rook || pt == PieceType::Queen {
            found = found | (rook_attacks(to, now) & self.pieces_pp(
                PieceType::Rook,
                PieceType::Queen,
            ));
        }
        proof {
            assert forall|x: int| holds(now, x) implies (#[trigger] holds(found, x) <==> on_board(x)
                && hit_by(b, x, to as int, now)) by {
                if on_board(x) {
                    lemma_reveal_behind(b, to as int, left, s, x);
                    lemma_line_symmetric(to as int, x);
                    lemma_clear_symmetric(to as int, x, now);
                    lemma_lines_differ(s, to as int);
                    lemma_lines_differ(x, to as int);
                    if between(x, to as int, s) {
                        lemma_between_lines(x, to as int, s);
                    }
                    assert(holds(left, x));
                    assert(holds(attackers, x) <==> hit_by(b, x, to as int, left));
                }
            }
        }
        (now, found)
    }

    /// The recapture with a piece of `bb`, the pieces of type `pt` among those that may.
    proof fn lemma_least(
        v: PosView,
        to: int,
        left: u64,
        c: Color,
        eligible: u64,
        bb: u64,
        pt: PieceType,
    )
        requires
            forall|x: int| #[trigger] holds(eligible, x) <==> v.recaptures(to, left, c, x),
            forall|x: int| #[trigger]
                holds(bb, x) <==> holds(eligible, x) && v.board[x].piece_type() == pt,
            forall|x: int| #[trigger]
                holds(eligible, x) ==> v.board[x].piece_type().idx() >= pt.idx(),
            bb != 0,
        ensures
            v.least_recapture(to, left, c, lowest(bb)),
            v.board[lowest(bb)].piece_type() == pt,
    {
        lemma_lowest(bb);
        let s = lowest(bb);
        assert(holds(bb, s));
        assert forall|x: int| #[trigger] v.recaptures(to, left, c, x) implies {
            let a = v.board[s].piece_type().idx();
            let b = v.board[x].piece_type().idx();
            a < b || (a == b && s <= x)
        } by {
            assert(holds(eligible, x));
            if v.board[x].piece_type().idx() == pt.idx() {
                assert(v.board[x].piece_type() == pt);
                assert(holds(bb, x));
            }
        }
    }

    /// The cheapest type among the given pieces and the squares they stand on; the king
    /// where there is nothing else.
    fn cheapest(&self, eligible: Bitboard) -> (r: (PieceType, Bitboard))
        requires
            self.wf(),
            eligible != 0,
            forall|x: int| #[trigger]
                holds(eligible, x) ==> on_board(x) && self@.board[x].0 < 12,
        ensures
            r.1 != 0,
            forall|x: int| #[trigger]
                holds(r.1, x) <==> holds(eligible, x) && self@.board[x].piece_type() == r.0,
            forall|x: int| #[trigger]
                holds(eligible, x) ==> self@.board[x].piece_type().idx() >= r.0.idx(),
    {
        let pawns = eligible & self.pieces_p(PieceType::Pawn);
        if pawns != 0 {
            return (PieceType::Pawn, pawns);
        }
        let knights = eligible & self.pieces_p(PieceType::Knight);
        proof {
            lemma_empty(pawns);
            assert forall|x: int| #[trigger] holds(eligible, x) implies self@.board[x].piece_type()
                != PieceType::Pawn by {
                assert(!holds(pawns, x));
            }
        }
        if knights != 0 {
            return (PieceType::Knight, knights);
        }
        let bishops = eligible & self.pieces_p(PieceType::Bishop);
        proof {
            lemma_empty(knights);
            assert forall|x: int| #[trigger] holds(eligible, x) implies self@.board[x].piece_type()
                != PieceType::Knight by {
                assert(!holds(knights, x));
            }
        }
        if bishops != 0 {
            return (PieceType::Bishop, bishops);
        }
        let rooks = eligible & self.pieces_p(PieceType::Rook);
        proof {
            lemma_empty(bishops);
            assert forall|x: int| #[trigger] holds(eligible, x) implies self@.board[x].piece_type()
                != PieceType::Bishop by {
                assert(!holds(bishops, x));
            }
        }
        if rooks != 0 {
            return (PieceType::Rook, rooks);
        }
        let queens = eligible & self.pieces_p(PieceType::Queen);
        proof {
            lemma_empty(rooks);
            assert forall|x: int| #[trigger] holds(eligible, x) implies self@.board[x].piece_type()
                != PieceType::Rook by {
                assert(!holds(rooks, x));
            }
        }
        if queens != 0 {
            return (PieceType::Queen, queens);
        }
        proof {
            lemma_empty(queens);
            assert forall|x: int| #[trigger] holds(eligible, x) implies self@.board[x].piece_type()
                == PieceType::King by {
                assert(!holds(queens, x));
            }
        }
        (PieceType::King, eligible)
    }

    /// True if the exchange started by `m` nets at least `threshold` (swap-list
    /// algorithm with pin awareness and x-ray discovery).
    pub fn see_ge(&self, m: Move, threshold: Value) -> (r: bool)
        requires
            self.wf(),
        ensures
            r == (self@.see_value(m) >= threshold),
    {
        if m.is_drop() || m.move_type() != MoveType::Normal {
            return VALUE_ZERO >= threshold;
        }
        let from = m.from_sq();
        let to = m.to_sq();
        let ghost v = self@;
        let ghost b = v.board;
        let ghost t = to as int;
        let ghost left0 = (occ(b) ^ one(from as int)) ^ one(t);
        let ghost on0 = piece_value_of(b[from as int]) as int;
        let ghost first = v.exchange(t, left0, v.stm.flip(), on0);
        proof {
            exchange_is_bounded(v, t, left0, v.stm.flip(), on0);
        }
        let mut swap: i64 = piece_value_of(self.piece_on(to)) as i64 - threshold as i64;
        if swap < 0 {
            return false;
        }
        swap = piece_value_of(self.piece_on(from)) as i64 - swap;
        if swap <= 0 {
            return true;
        }
        let mut left = (self.pieces() ^ sq_bb(from)) ^ sq_bb(to);
        let mut stm = self.side_to_move;
        let mut attackers = self.attackers_to(to, left);
        let mut res = true;
        let ghost mut on = on0;
        loop
            invariant
                self.wf(),
                v == self@,
                b == v.board,
                t == to,
                to < 64,
                attack_set(b, t, left, attackers),
                0 <= on <= 1000,
                res ==> 0 < swap <= on,
                !res ==> 0 <= swap < on,
                res ==> ((v.see_value(m) >= threshold) == (v.exchange(t, left, stm.flip(), on)
                    <= on - swap)),
                !res ==> ((v.see_value(m) >= threshold) == (v.exchange(t, left, stm.flip(), on)
                    >= on - swap)),
            decreases left,
        {
            stm = stm.flip();
            attackers = attackers & left;
            let mut eligible = attackers & self.pieces_c(stm);
            proof {
                assert forall|x: int| #[trigger] holds(eligible, x) <==> v.joins(t, left, stm, x) by {
                    if holds(left, x) {
                        assert(holds(attackers, x) <==> on_board(x) && hit_by(b, x, t, left));
                    }
                }
            }
            if eligible == 0 {
                proof {
                    assert forall|s: int| !#[trigger] v.recaptures(t, left, stm, s) by {
                        lemma_empty(eligible);
                        assert(!holds(eligible, s));
                    }
                    lemma_exchange_over(v, t, left, stm, on);
                }
                return res;
            }
            let ghost all = eligible;
            // Pinned pieces cannot recapture while their pinner is still on the board.
            let pinned = self.pinners(stm.flip()) & left;
            if pinned != 0 {
                eligible = eligible & !self.blockers_for_king(stm);
            }
            proof {
                assert forall|x: int| #[trigger] holds(eligible, x) <==> v.recaptures(
                    t,
                    left,
                    stm,
                    x,
                ) by {
                    assert(holds(all, x) <==> v.joins(t, left, stm, x));
                }
            }
            if eligible == 0 {
                proof {
                    assert forall|s: int| !#[trigger] v.recaptures(t, left, stm, s) by {
                        lemma_empty(eligible);
                        assert(!holds(eligible, s));
                    }
                    lemma_exchange_over(v, t, left, stm, on);
                }
                return res;
            }
            proof {
                assert forall|x: int| #[trigger] holds(eligible, x) implies on_board(x)
                    && b[x].0 < 12 && owned(b[x], stm) && holds(left, x) && holds(
                    attackers,
                    x,
                ) by {
                    assert(v.recaptures(t, left, stm, x));
                }
            }
            let (pt, bb) = self.cheapest(eligible);
            let ghost s = lowest(bb);
            proof {
                Position::lemma_least(v, t, left, stm, eligible, bb, pt);
                lemma_exchange_step(v, t, left, stm, on, s);
                lemma_lowest(bb);
                assert(holds(bb, s));
                lemma_taken_smaller(left, s);
            }
            if pt == PieceType::King {
                // The king may capture only if no enemy attacker remains.
                let rest = attackers & !self.pieces_c(stm);
                proof {
                    if rest != 0 {
                        lemma_lowest(rest);
                        let x = lowest(rest);
                        assert(holds(rest, x));
                        assert(holds(attackers, x) && holds(left, x));
                        assert(v.joins(t, left, stm.flip(), x));
                    } else {
                        assert forall|x: int| !#[trigger] v.joins(t, left, stm.flip(), x) by {
                            lemma_empty(rest);
                            assert(!holds(rest, x));
                        }
                    }
                }
                return if rest != 0 {
                    res
                } else {
                    !res
                };
            }
            let value = piece_value(pt);
            let ghost reply = v.exchange(t, left ^ one(s), stm.flip(), value as int);
            proof {
                exchange_is_bounded(v, t, left ^ one(s), stm.flip(), value as int);
            }
            swap = value as i64 - swap;
            res = !res;
            if (res && swap < 1) || (!res && swap < 0) {
                return res;
            }
            let (now, found) = self.next_attackers(to, left, attackers, bb, pt);
            left = now;
            attackers = found;
            proof {
                on = value as int;
            }
        }
    }

    /// Signed exchange value: the material the side to move nets by starting the exchange.
    /// For moves other than normal ones, which count as even, the least the search below
    /// reports is one less than its lower end.
    pub fn see(&self, m: Move) -> (r: Value)
        requires
            self.wf(),
        ensures
            !m.is_drop() && m.move_type() == MoveType::Normal ==> r == self@.see_value(m),
            m.is_drop() || m.move_type() != MoveType::Normal ==> r == (if self@.see_floor(m) > 0 {
                self@.see_floor(m) - 1
            } else {
                0
            }),
    {
        let cap: i32 = match self.captured_type(m) {
            Some(pt) => piece_value(pt),
            None => 0,
        };
        let gain: i32 = if m.is_promotion() {
            cap + piece_value(m.promotion()) - piece_value(PieceType::Pawn)
        } else {
            cap
        };
        let mover: i32 = if m.is_promotion() {
            piece_value(m.promotion())
        } else {
            piece_value_of(self.piece_on(m.from_sq()))
        };
        let ghost value = self@.see_value(m);
        proof {
            let b = self@.board;
            let (f, t) = (m.from(), m.to());
            exchange_is_bounded(
                self@,
                t,
                (occ(b) ^ one(f)) ^ one(t),
                self@.stm.flip(),
                piece_value_of(b[f]) as int,
            );
        }
        let mut lo: i32 = gain - mover;
        let mut hi: i32 = gain;
        if !self.see_ge(m, lo) {
            return lo - 1;
        }
        while lo < hi
            invariant
                self.wf(),
                value == self@.see_value(m),
                -2000 <= lo <= value <= hi <= 2000,
            decreases hi - lo,
        {
            let mid: i32 = lo + (hi - lo + 1) / 2;
            if self.see_ge(m, mid) {
                lo = mid;
            } else {
                hi = mid - 1;
            }
        }
        lo
    }
}

impl PosView {
    /// Lowest exchange value considered for a move: everything taken, the mover lost.
    pub open spec fn see_floor(self, m: Move) -> int {
        let cap = if m.is_en_passant() {
            100
        } else if self.real_castling(m) {
            0
        } else {
            piece_value_of(self.board[m.to()]) as int
        };
        if m.is_promotion() {
            cap - 100
        } else {
            cap - piece_value_of(self.board[m.from()])
        }
    }
}

/// An exchange that reaches a threshold reaches every lower one.
pub proof fn exchanges_reach_lower_thresholds(v: PosView, m: Move, low: Value, high: Value)
    requires
        low <= high,
        v.see_value(m) >= high,
    ensures
        v.see_value(m) >= low,
{
}

/// Drops, promotions, en passant and castling count as even exchanges at every threshold.
pub proof fn special_moves_exchange_evenly(v: PosView, m: Move, threshold: Value)
    requires
        m.is_drop() || m.move_type() != MoveType::Normal,
    ensures
        v.see_value(m) >= threshold <==> 0 >= threshold,
{
}

/// An exchange wins at most what the move takes and loses at most the piece moved.
pub proof fn exchanges_stay_within_the_stakes(v: PosView, m: Move)
    requires
        !m.is_drop(),
        m.move_type() == MoveType::Normal,
    ensures
        piece_value_of(v.board[m.to()]) - piece_value_of(v.board[m.from()]) <= v.see_value(m)
            <= piece_value_of(v.board[m.to()]),
{
    let (f, t) = (m.from(), m.to());
    exchange_is_bounded(
        v,
        t,
        (occ(v.board) ^ one(f)) ^ one(t),
        v.stm.flip(),
        piece_value_of(v.board[f]) as int,
    );
}

} // verus!
