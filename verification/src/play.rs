//! Playing legal moves: every legal move of a playable position can be made, and what it
//! leads to is playable again.

use vstd::prelude::*;

use crate::bits::{group_has, holds};
use crate::geometry::{between, on_board};
use crate::legality::{check_test_is_exact, lemma_castling_places};
use crate::makemove::{lemma_after_shape, lemma_castling_squares};
use crate::rules::{
    attacked, hit_by, is_king_square, king, lemma_occ, occ, one_king, owned, right_color,
    single_right, Board, PosView,
};
use crate::types::{file, relative_rank, Move, PieceType};
use crate::variant::Variant;

verus! {

broadcast use {group_has, lemma_occ};

/// What each square counts as in a pocket: -1 for nothing, the pawn's number for a promoted
/// piece, the type's number otherwise.
pub open spec fn faces(b: Board, marks: u64) -> Seq<int> {
    Seq::new(
        64,
        |s: int|
            if b[s].0 >= 12 {
                -1int
            } else if holds(marks, s) {
                0
            } else {
                (b[s].0 % 6) as int
            },
    )
}

/// Number of squares below `n` with the face `p`.
pub open spec fn face_count(f: Seq<int>, p: int, n: nat) -> nat
    decreases n,
{
    if n == 0 {
        0
    } else {
        face_count(f, p, (n - 1) as nat) + if f[n - 1] == p {
            1nat
        } else {
            0nat
        }
    }
}

proof fn lemma_face_update(f: Seq<int>, s: int, q: int, p: int, n: nat)
    requires
        f.len() == 64,
        0 <= s < 64,
        n <= 64,
    ensures
        face_count(f.update(s, q), p, n) == face_count(f, p, n) + (if s < n && q == p {
            1int
        } else {
            0
        }) - (if s < n && f[s] == p {
            1int
        } else {
            0
        }),
    decreases n,
{
    if n > 0 {
        lemma_face_update(f, s, q, p, (n - 1) as nat);
    }
}

proof fn lemma_face_found(f: Seq<int>, s: int, p: int, n: nat)
    requires
        0 <= s < n <= 64,
        f.len() == 64,
        f[s] == p,
    ensures
        face_count(f, p, n) >= 1,
    decreases n,
{
    if s < n - 1 {
        lemma_face_found(f, s, p, (n - 1) as nat);
    }
}

impl PosView {
    /// Crazyhouse pieces of type `p` in both pockets and on the board.
    pub open spec fn supply(self, p: int) -> int {
        self.st().hand@[0]@[p] + self.st().hand@[1]@[p] + face_count(
            faces(self.board, self.st().promoted),
            p,
            64,
        )
    }

    /// No pocket can outgrow its key table.
    pub open spec fn pockets_ok(self) -> bool {
        self.variant == Variant::Crazyhouse ==> forall|p: int|
            0 <= p < 5 ==> #[trigger] self.supply(p) <= 16
    }

    /// A position a game can be played on from.
    pub open spec fn playable(self) -> bool {
        self.sound() && self.marks_ok() && self.pockets_ok()
    }

    /// The move counters can advance by `n` plies.
    pub open spec fn room(self, n: int) -> bool {
        &&& i32::MIN < self.game_ply
        &&& self.game_ply + n <= i32::MAX
        &&& self.st().rule50 + n <= i32::MAX
        &&& self.st().plies_from_null + n <= i32::MAX
    }
}

/// A pseudo-legal move of a sound position does not take a royal king.
proof fn lemma_no_king_taken(v: PosView, m: Move)
    requires
        v.sound(),
        v.variant.royal_king(),
        v.pseudo(m),
    ensures
        v.board[m.to()] != king(v.stm.flip()),
{
    let b = v.board;
    let us = v.stm;
    let j = v.ksq(us.flip());
    assert(one_king(b, us.flip()));
    assert(is_king_square(b, us.flip(), j));
    let (f, t) = (m.from(), m.to());
    if b[t] == king(us.flip()) {
        assert(t == j);
        if !m.is_drop() && !m.is_castling() && !m.is_en_passant() {
            assert(hit_by(b, f, j, occ(b)));
            assert(attacked(b, us, j));
        }
        if m.is_castling() {
            lemma_castling_places(v, m);
        }
    }
}

/// Every pseudo-legal move of a playable position can be made.
pub proof fn pseudo_moves_can_be_made(v: PosView, m: Move)
    requires
        v.playable(),
        v.room(1),
        v.pseudo(m),
    ensures
        v.can_make(m),
{
    let (f, t) = (m.from(), m.to());
    let us = v.stm;
    if v.variant.royal_king() {
        lemma_no_king_taken(v, m);
    }
    if !m.is_drop() && !v.real_castling(m) {
        crate::geometry::lemma_lines_differ(f, t);
        if v.variant == Variant::Crazyhouse && v.captured(m).0 < 12 {
            let c = v.capture_square(m);
            assert(v.board[c] == v.captured(m));
            let p = v.pocket_type(m).idx() as int;
            let fc = faces(v.board, v.st().promoted);
            assert(v.captured(m).piece_type() != PieceType::King);
            assert(fc[c] == p);
            lemma_face_found(fc, c, p, 64);
            assert(v.supply(p) <= 16);
        }
    }
}

/// Every legal move of a playable position can be made.
pub proof fn legal_moves_can_be_made(v: PosView, m: Move)
    requires
        v.playable(),
        v.room(1),
        v.legal(m),
    ensures
        v.can_make(m),
{
    pseudo_moves_can_be_made(v, m);
}

/// The supply of each type stays what it was.
proof fn lemma_supply_kept(v: PosView, m: Move, g: bool, w: PosView)
    requires
        v.playable(),
        v.can_make(m),
        v.pseudo(m),
        v.made(m, g, w),
        v.variant == Variant::Crazyhouse,
    ensures
        w.pockets_ok(),
{
    let b = v.board;
    let a = w.board;
    let (f, t) = (m.from(), m.to());
    let us = v.stm;
    let x0 = faces(b, v.st().promoted);
    let x1 = faces(a, w.st().promoted);
    let c = us.idx() as int;
    assert forall|x: int| on_board(x) implies (#[trigger] holds(w.st().promoted, x) <==> v.mark_after(
        m,
        x,
    )) by {}
    if v.real_castling(m) {
        lemma_castling_squares(v, m);
    }
    assert forall|p: int| 0 <= p < 5 implies #[trigger] w.supply(p) <= 16 by {
        assert(v.supply(p) <= 16);
        assert(w.st().hand@[0]@[p] == v.hand_after(m, 0, p));
        assert(w.st().hand@[1]@[p] == v.hand_after(m, 1, p));
        if m.is_drop() {
            let q = m.drop_piece().idx() as int;
            assert(!holds(v.st().promoted, t));
            assert(x1 =~= x0.update(t, q));
            lemma_face_update(x0, t, q, p, 64);
        } else if v.real_castling(m) {
            let (kto, rto) = (v.castle_king_to(m), v.castle_rook_to(m));
            let cr = crate::rules::castling_right(us, t > f);
            assert(single_right(cr) && v.has_right(cr));
            assert(!holds(v.st().promoted, f));
            assert(!holds(v.st().promoted, t));
            let y1 = x0.update(f, -1);
            let y2 = y1.update(t, -1);
            let y3 = y2.update(kto, 5);
            let y4 = y3.update(rto, 3);
            assert(x1 =~= y4);
            lemma_face_update(x0, f, -1, p, 64);
            lemma_face_update(y1, t, -1, p, 64);
            lemma_face_update(y2, kto, 5, p, 64);
            lemma_face_update(y3, rto, 3, p, 64);
            assert(x0[f] == 5 && x0[t] == 3);
        } else {
            let e = v.capture_square(m);
            let y1 = if v.captured(m).0 < 12 {
                x0.update(e, -1)
            } else {
                x0
            };
            let y2 = y1.update(f, -1);
            let y3 = y2.update(t, x0[f]);
            assert(e != f);
            assert(x1[t] == x0[f]) by {
                if holds(v.st().promoted, f) {
                    assert(b[f].piece_type() != PieceType::Pawn);
                }
                assert(!v.mark_after_capture(m, t)) by {
                    if holds(v.st().promoted, t) {
                        assert(b[t].0 < 12);
                    }
                }
            }
            assert(x1 =~= y3) by {
                assert forall|s: int| 0 <= s < 64 implies x1[s] == y3[s] by {
                    assert(a[s] == v.after(m)[s]);
                    if s != t && s != f && s != e {
                        assert(a[s] == b[s]);
                        assert(v.mark_after(m, s) == holds(v.st().promoted, s));
                    }
                }
            }
            if v.captured(m).0 < 12 {
                lemma_face_update(x0, e, -1, p, 64);
                assert(b[e] == v.captured(m));
                assert(x0[e] == v.pocket_type(m).idx());
            }
            lemma_face_update(y1, f, -1, p, 64);
            lemma_face_update(y2, t, x0[f], p, 64);
        }
    }
}

/// A check given while opening an en passant capture comes from the pawn or over the square
/// it left.
proof fn lemma_ep_check_kept(v: PosView, m: Move, g: bool, w: PosView)
    requires
        v.sound(),
        v.variant.royal_king(),
        v.pseudo(m),
        v.can_make(m),
        v.made(m, g, w),
        w.wf(),
    ensures
        w.ep_check_ok(),
{
    if w.st().ep_square != 64 {
        assert(v.opens_en_passant(m));
        let us = v.stm;
        let (f, t) = (m.from(), m.to());
        let e = w.st().ep_square as int;
        let b = v.board;
        let a = w.board;
        let o = occ(b);
        let o1 = occ(a);
        lemma_after_shape(v, m);
        let j = v.ksq(us.flip());
        assert(w.ksq(w.stm) == j);
        assert(!m.is_en_passant() && !m.is_castling());
        assert(e + w.stm.forward() == f);
        assert(e - w.stm.forward() == t);
        if !(forall|x: int| #[trigger] holds(w.st().checkers, x) ==> x == t) {
            let x = choose|x: int| #[trigger] holds(w.st().checkers, x) && x != t;
            assert(owned(a[x], us) && hit_by(a, x, j, o1));
            assert(x != f);
            assert(a[x] == b[x]);
            assert(one_king(b, us.flip()));
            assert(is_king_square(b, us.flip(), j));
            assert(!hit_by(b, x, j, o)) by {
                if hit_by(b, x, j, o) {
                    assert(attacked(b, us, j));
                }
            }
            assert(between(j, x, f)) by {
                crate::geometry::lemma_line_symmetric(j, x);
                if !between(x, j, f) {
                    assert(crate::geometry::clear(x, j, o1) ==> crate::geometry::clear(x, j, o)) by {
                        if crate::geometry::clear(x, j, o1) {
                            assert forall|y: int| #[trigger] between(x, j, y) implies !holds(
                                o,
                                y,
                            ) by {
                                assert(!holds(o1, y));
                            }
                        }
                    }
                }
            }
        }
    }
}

/// Playing a legal move on a playable position, with the check flag the engine computes,
/// leads to a playable position.
pub proof fn legal_moves_keep_playable(v: PosView, m: Move, w: PosView)
    requires
        v.playable(),
        v.room(1),
        v.legal(m),
        v.made(m, v.check_test(m), w),
        w.wf(),
        w.marks_ok(),
    ensures
        w.playable(),
{
    legal_moves_can_be_made(v, m);
    if v.variant == Variant::Crazyhouse {
        lemma_supply_kept(v, m, v.check_test(m), w);
    }
    if v.variant.royal_king() {
        lemma_after_shape(v, m);
        check_test_is_exact(v, m);
        lemma_ep_check_kept(v, m, v.check_test(m), w);
        let b = w.board;
        let us = v.stm;
        if !v.check_test(m) {
            assert forall|x: int| #[trigger] holds(w.st().checkers, x) <==> on_board(x) && owned(
                w.board[x],
                w.stm.flip(),
            ) && hit_by(w.board, x, w.ksq(w.stm), occ(w.board)) by {
                if on_board(x) && owned(b[x], us) && hit_by(b, x, w.ksq(w.stm), occ(b)) {
                    assert(attacked(b, us, w.ksq(w.stm)));
                }
            }
        }
        assert(w.checkers_exact(w.st().checkers));
        assert forall|cr: u8| single_right(cr) && #[trigger] w.has_right(cr) implies {
            let c = right_color(cr);
            let r = w.rooks[cr as int] as int;
            &&& relative_rank(c, w.ksq(c) as u8) == 0
            &&& relative_rank(c, r as u8) == 0
            &&& w.chess960 || file(r) != 1 || r > w.ksq(c)
        } by {
            lemma_rights_shrink(v, m, v.check_test(m), w, cr);
        }
    }
}

/// A right that is left after a move was there before, with its king and rook in place.
proof fn lemma_rights_shrink(v: PosView, m: Move, g: bool, w: PosView, cr: u8)
    requires
        v.sound(),
        v.variant.royal_king(),
        v.can_make(m),
        v.made(m, g, w),
        w.wf(),
        single_right(cr),
        w.has_right(cr),
    ensures
        v.has_right(cr),
        w.ksq(right_color(cr)) == v.ksq(right_color(cr)),
{
    lemma_after_shape(v, m);
    crate::makemove::lemma_rights_after(v, m, w, cr);
}

/// Passing the turn out of check leaves a position a game can be played on from.
pub proof fn passing_keeps_playable(v: PosView, w: PosView)
    requires
        v.playable(),
        v.st().checkers == 0,
        v.passed(w),
        w.wf(),
        w.marks_ok(),
    ensures
        w.playable(),
        forall|n: int| n >= 1 && #[trigger] v.room(n) ==> w.room(n - 1),
{
    if v.variant.royal_king() {
        assert(w.board == v.board);
        assert(w.checkers_exact(w.st().checkers)) by {
            assert forall|x: int| #[trigger] holds(0, x) implies false by {}
        }
        assert(!attacked(w.board, w.stm, w.ksq(w.stm.flip()))) by {
            if attacked(w.board, w.stm, w.ksq(w.stm.flip())) {
                let x = choose|x: int|
                    on_board(x) && owned(w.board[x], w.stm) && #[trigger] hit_by(
                        w.board,
                        x,
                        w.ksq(w.stm.flip()),
                        occ(w.board),
                    );
                assert(holds(v.st().checkers, x));
            }
        }
        assert(w.castling_orthodox()) by {
            assert forall|cr: u8| crate::rules::single_right(cr) && #[trigger] w.has_right(
                cr,
            ) implies v.has_right(cr) by {}
        }
    }
    if v.variant == Variant::Crazyhouse {
        assert forall|p: int| 0 <= p < 5 implies #[trigger] w.supply(p) <= 16 by {
            assert(v.supply(p) <= 16);
            assert(w.st().hand == v.st().hand && w.st().promoted == v.st().promoted);
        }
    }
}

} // verus!
