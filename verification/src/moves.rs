//! The moves of a position: which are pseudo-legal, which captures, which answer a check,
//! and exact accounts of what a move list gained.

use vstd::prelude::*;

use crate::bits::{lowest, size};
use crate::geometry::{between, on_board, pawn_hit, reaches};
use crate::rules::{occ, owned, pawn, PosView};
use crate::types::{rank, relative_rank, Move, MoveType, PieceType};
use crate::variant::Variant;

verus! {

/// The code every move is generated with: the promotion bits of a plain move are zero.
pub open spec fn canonical(m: Move) -> bool {
    m.is_drop() || m.0 / 16384 != 0 || m.0 < 4096
}

impl PosView {
    /// The pawn on `from` may go to `to` by a push, a double push or a capture other than
    /// en passant.
    pub open spec fn pawn_goes(self, from: int, to: int) -> bool {
        let up = self.stm.forward() as int;
        ||| on_board(to) && to == from + up && self.board[to].0 == 12
        ||| {
            &&& to == from + 2 * up
            &&& relative_rank(self.stm, from as u8) == 1
            &&& self.board[from + up].0 == 12
            &&& self.board[to].0 == 12
        }
        ||| on_board(to) && pawn_hit(self.stm, from, to) && owned(self.board[to], self.stm.flip())
    }

    /// A pseudo-legal move: right by the way the pieces move, the king's safety left aside.
    pub open spec fn pseudo(self, m: Move) -> bool {
        let (from, to) = (m.from(), m.to());
        let us = self.stm;
        let p = self.board[from];
        if m.is_drop() {
            &&& self.variant == Variant::Crazyhouse
            &&& self.st().hand@[us.idx() as int]@[m.drop_piece().idx() as int] > 0
            &&& self.board[to].0 == 12
            &&& m.drop_piece() == PieceType::Pawn ==> rank(to) != 0 && rank(to) != 7
        } else {
            owned(p, us) && match m.move_type() {
                MoveType::Normal => if p == pawn(us) {
                    self.pawn_goes(from, to) && relative_rank(us, from as u8) != 6
                } else {
                    reaches(p.piece_type(), from, to, occ(self.board)) && !owned(self.board[to], us)
                },
                MoveType::Promotion => p == pawn(us) && relative_rank(us, from as u8) == 6
                    && self.pawn_goes(from, to),
                MoveType::EnPassant => (m.0 / 4096) % 4 == 0 && p == pawn(us) && to
                    == self.st().ep_square && pawn_hit(us, from, to),
                MoveType::Castling => (m.0 / 4096) % 4 == 0 && if self.variant.castling_allowed() {
                    self.castling_free(m)
                } else {
                    self.variant == Variant::Antichess && p == pawn(us) && relative_rank(
                        us,
                        from as u8,
                    ) == 6 && self.pawn_goes(from, to)
                },
            }
        }
    }

    /// The move takes a piece.
    pub open spec fn takes(self, m: Move) -> bool {
        !m.is_drop() && (owned(self.board[m.to()], self.stm.flip()) || m.is_en_passant())
    }

    /// A move of the capture stage: a capture or a queen promotion.
    pub open spec fn in_capture_stage(self, m: Move) -> bool {
        self.takes(m) || (m.is_promotion() && m.promotion() == PieceType::Queen)
    }

    /// A square on which a piece other than the king answers the check by `checker`.
    pub open spec fn answers(self, checker: int, to: int) -> bool {
        to == checker || between(self.ksq(self.stm), checker, to)
    }

    /// A move that may answer a check: one of the king, or, against a single checker, one
    /// that takes it or steps in between. En passant counts unless the check comes over the
    /// square the taken pawn started from.
    pub open spec fn evades(self, m: Move) -> bool {
        let checker = lowest(self.st().checkers);
        !m.is_castling() && ({
            ||| !m.is_drop() && m.from() == self.ksq(self.stm)
            ||| size(self.st().checkers) < 2 && if m.is_en_passant() {
                !self.answers(checker, m.to() + self.stm.forward())
            } else {
                self.answers(checker, m.to())
            }
        })
    }

    /// The pseudo-legal moves worth looking at: in check those that may answer it, in
    /// antichess only captures where there is one.
    pub open spec fn candidate(self, m: Move) -> bool {
        &&& self.pseudo(m)
        &&& self.variant.royal_king() && self.in_check() ==> self.evades(m)
        &&& self.variant == Variant::Antichess && self.st().must_capture ==> self.takes(m)
    }
}

/// The moves of the capture stage; in antichess the captures.
pub open spec fn capture_moves(v: PosView) -> Set<Move> {
    Set::new(
        |m: Move|
            canonical(m) && v.pseudo(m) && if v.variant == Variant::Antichess {
                v.takes(m)
            } else {
                v.in_capture_stage(m)
            },
    )
}

/// The other moves; none in antichess while a capture is available.
pub open spec fn quiet_moves(v: PosView) -> Set<Move> {
    Set::new(
        |m: Move|
            canonical(m) && v.pseudo(m) && if v.variant == Variant::Antichess {
                !v.st().must_capture && !v.takes(m)
            } else {
                !v.in_capture_stage(m)
            },
    )
}

/// Whether a move carries the code it is generated with.
pub fn is_canonical(m: Move) -> (r: bool)
    ensures
        r == canonical(m),
{
    m.is_drop() || m.0 / 16384 != 0 || m.0 < 4096
}

/// The code a move is generated with: that of a plain move has no promotion in it.
#[verifier::allow_in_spec]
pub fn canonical_code(m: Move) -> Move
    returns
        (if canonical(m) {
            m
        } else {
            Move(m.0 % 4096)
        }),
{
    if is_canonical(m) {
        m
    } else {
        Move(m.0 % 4096)
    }
}

/// `b` is `a` with exactly the moves of `s` appended, each once.
pub open spec fn adds(a: Seq<Move>, b: Seq<Move>, s: Set<Move>) -> bool {
    &&& a.len() <= b.len()
    &&& forall|i: int| 0 <= i < a.len() ==> #[trigger] a[i] == b[i]
    &&& forall|i: int, j: int| a.len() <= i < j < b.len() ==> #[trigger] b[i] != #[trigger] b[j]
    &&& forall|i: int| a.len() <= i < b.len() ==> s.contains(#[trigger] b[i])
    &&& forall|m: Move| #[trigger]
        s.contains(m) ==> exists|i: int| a.len() <= i < b.len() && #[trigger] b[i] == m
}

/// Nothing added.
pub proof fn lemma_adds_none(a: Seq<Move>, s: Set<Move>)
    requires
        forall|m: Move| !#[trigger] s.contains(m),
    ensures
        adds(a, a, s),
{
}

/// One more move.
pub proof fn lemma_adds_push(a: Seq<Move>, b: Seq<Move>, s: Set<Move>, m: Move)
    requires
        adds(a, b, s),
        !s.contains(m),
    ensures
        adds(a, b.push(m), s.insert(m)),
{
    let c = b.push(m);
    assert forall|x: Move| #[trigger] s.insert(m).contains(x) implies exists|i: int|
        a.len() <= i < c.len() && #[trigger] c[i] == x by {
        if x == m {
            assert(c[b.len() as int] == m);
        } else {
            let i = choose|i: int| a.len() <= i < b.len() && #[trigger] b[i] == x;
            assert(c[i] == x);
        }
    }
}

/// Two disjoint additions in a row.
pub proof fn lemma_adds_both(
    a: Seq<Move>,
    b: Seq<Move>,
    c: Seq<Move>,
    s: Set<Move>,
    t: Set<Move>,
    u: Set<Move>,
)
    requires
        adds(a, b, s),
        adds(b, c, t),
        forall|m: Move| #[trigger] s.contains(m) ==> !t.contains(m),
        forall|m: Move| #[trigger] u.contains(m) <==> s.contains(m) || t.contains(m),
    ensures
        adds(a, c, u),
{
    assert forall|i: int, j: int| a.len() <= i < j < c.len() implies #[trigger] c[i]
        != #[trigger] c[j] by {
        if i < b.len() {
            assert(b[i] == c[i]);
            assert(s.contains(b[i]));
            if j < b.len() {
                assert(b[j] == c[j]);
            } else {
                assert(t.contains(c[j]));
            }
        }
    }
    assert forall|i: int| a.len() <= i < c.len() implies u.contains(#[trigger] c[i]) by {
        if i < b.len() {
            assert(b[i] == c[i]);
            assert(s.contains(b[i]));
        } else {
            assert(t.contains(c[i]));
        }
    }
    assert forall|m: Move| #[trigger] u.contains(m) implies exists|i: int|
        a.len() <= i < c.len() && #[trigger] c[i] == m by {
        if s.contains(m) {
            let i = choose|i: int| a.len() <= i < b.len() && #[trigger] b[i] == m;
            assert(c[i] == m);
        } else {
            assert(t.contains(m));
            let i = choose|i: int| b.len() <= i < c.len() && #[trigger] c[i] == m;
            assert(c[i] == m);
        }
    }
    assert forall|i: int| 0 <= i < a.len() implies #[trigger] a[i] == c[i] by {
        assert(a[i] == b[i]);
    }
}

/// The same addition under another description of its moves.
pub proof fn lemma_adds_same(a: Seq<Move>, b: Seq<Move>, s: Set<Move>, t: Set<Move>)
    requires
        adds(a, b, s),
        forall|m: Move| #[trigger] s.contains(m) <==> t.contains(m),
    ensures
        adds(a, b, t),
{
    assert forall|m: Move| #[trigger] t.contains(m) implies exists|i: int|
        a.len() <= i < b.len() && #[trigger] b[i] == m by {
        assert(s.contains(m));
    }
}

/// What was added to an empty list is all there is in it.
pub proof fn lemma_adds_contains(b: Seq<Move>, s: Set<Move>)
    requires
        adds(Seq::<Move>::empty(), b, s),
    ensures
        b.no_duplicates(),
        forall|m: Move| #[trigger] b.contains(m) <==> s.contains(m),
{
    assert forall|m: Move| #[trigger] b.contains(m) <==> s.contains(m) by {
        if s.contains(m) {
            let i = choose|i: int| 0 <= i < b.len() && #[trigger] b[i] == m;
            assert(b.contains(m));
        }
    }
}

} // verus!
