//! Check and legality: the tests the engine applies to a candidate move, what they are
//! meant to decide, and the proof that on a sound position they decide it.

use vstd::prelude::*;

use crate::bits::{group_has, holds, lemma_lowest, lemma_size, lowest, size};
use crate::geometry::{
    between, clear, in_line, king_step, lemma_between_split, lemma_clear_symmetric,
    lemma_line_symmetric, lemma_lines_differ, on_board, pawn_hit, reaches, rook_line, same_line,
    steps,
};
use crate::moves::canonical;
use crate::rules::{
    attacked, blocker, hit_by, is_king_square, king, king_sq, lemma_occ, occ, one_king, owned, pawn,
    rook, shields, sniper, sole_shield, Board, PosView,
};
use crate::types::{file, rank, relative_rank, Color, Move, MoveType, Piece, PieceType};
use crate::variant::Variant;

verus! {

broadcast use {group_has, lemma_occ};

impl PosView {
    /// Some slider of `by` reaches `k` over the occupancy `o`.
    pub open spec fn slider_hits(self, by: Color, k: int, o: u64) -> bool {
        exists|x: int| #[trigger] self.slider_at(by, k, o, x)
    }

    /// The slider of `by` on `x` reaches `k` over the occupancy `o`.
    pub open spec fn slider_at(self, by: Color, k: int, o: u64, x: int) -> bool {
        &&& on_board(x)
        &&& owned(self.board[x], by)
        &&& self.board[x].piece_type() == PieceType::Rook || self.board[x].piece_type()
            == PieceType::Bishop || self.board[x].piece_type() == PieceType::Queen
        &&& hit_by(self.board, x, k, o)
    }

    /// The occupancy after an en passant capture.
    pub open spec fn passed_occ(self, m: Move) -> u64 {
        occ(self.after(m))
    }

    /// No square the castling king comes over or to is attacked.
    pub open spec fn castling_path_safe(self, m: Move) -> bool {
        let (from, kto) = (m.from(), self.castle_king_to(m));
        forall|s: int|
            from < s <= kto || kto <= s < from ==> !#[trigger] attacked(
                self.board,
                self.stm.flip(),
                s,
            )
    }

    /// The king's safety as the legality test sees it: the king's own moves by the attacks
    /// on their destination, en passant by looking along the opened lines, castling by its
    /// path, everything else by the pins.
    pub open spec fn king_test(self, m: Move) -> bool {
        let us = self.stm;
        let (from, to) = (m.from(), m.to());
        let k = self.ksq(us);
        if m.is_drop() {
            true
        } else if m.is_en_passant() {
            !self.slider_hits(us.flip(), k, self.passed_occ(m))
        } else if m.is_castling() {
            self.castling_path_safe(m) && (!self.chess960 || !blocker(
                self.board,
                k,
                us.flip(),
                to,
            ))
        } else if self.board[from].piece_type() == PieceType::King {
            !exists|x: int|
                on_board(x) && owned(self.board[x], us.flip()) && #[trigger] hit_by(
                    self.board,
                    x,
                    to,
                    occ(self.board.update(from, Piece(12))),
                )
        } else {
            !blocker(self.board, k, us.flip(), from) || in_line(from, to, k)
        }
    }

    /// Check as the engine foresees it: a direct check by the moved piece, a discovered one
    /// along a line it leaves, or the special cases of promotion, en passant and castling.
    pub open spec fn check_test(self, m: Move) -> bool {
        let us = self.stm;
        let them = us.flip();
        let (from, to) = (m.from(), m.to());
        let j = self.ksq(them);
        let o = occ(self.board);
        let pt = self.mover(m).piece_type();
        self.variant.royal_king() && ({
            ||| pt == PieceType::Pawn && pawn_hit(them, j, to)
            ||| pt != PieceType::King && reaches(pt, j, to, o)
            ||| !m.is_drop() && if blocker(self.board, j, us, from) {
                !in_line(from, to, j) || m.is_castling()
            } else {
                match m.move_type() {
                    MoveType::Normal => false,
                    MoveType::Promotion => reaches(
                        m.promotion(),
                        to,
                        j,
                        occ(self.board.update(from, Piece(12))),
                    ),
                    MoveType::EnPassant => self.slider_hits(us, j, self.passed_occ(m)),
                    MoveType::Castling => reaches(
                        PieceType::Rook,
                        j,
                        self.castle_rook_to(m),
                        o,
                    ),
                }
            }
        })
    }

    /// The test that decides whether a candidate move is played.
    pub open spec fn legal_test(self, m: Move) -> bool {
        &&& self.variant.royal_king() ==> self.king_test(m)
        &&& self.variant == Variant::RacingKings ==> !self.check_test(m)
    }

    /// A legal move: pseudo-legal; it leaves its own king out of check; castling starts
    /// from and passes over squares that are not attacked; racing kings forbids giving
    /// check, antichess demands a capture where there is one.
    pub open spec fn legal(self, m: Move) -> bool {
        &&& canonical(m)
        &&& self.pseudo(m)
        &&& self.variant.royal_king() ==> {
            &&& !attacked(self.after(m), self.stm.flip(), king_sq(self.after(m), self.stm))
            &&& m.is_castling() ==> !attacked(
                self.board,
                self.stm.flip(),
                self.ksq(self.stm),
            ) && self.castling_path_safe(m)
        }
        &&& self.variant == Variant::RacingKings ==> !attacked(
            self.after(m),
            self.stm,
            king_sq(self.after(m), self.stm.flip()),
        )
        &&& self.variant == Variant::Antichess && self.can_capture() ==> self.takes(m)
    }

    /// A check while en passant is possible comes from the pawn that just advanced or over
    /// the square it started from.
    pub open spec fn ep_check_ok(self) -> bool {
        let e = self.st().ep_square as int;
        let up = self.stm.forward() as int;
        let k = self.ksq(self.stm);
        e != 64 ==> {
            ||| forall|x: int| #[trigger] holds(self.st().checkers, x) ==> x == e - up
            ||| exists|c: int| #[trigger] holds(self.st().checkers, c) && between(k, c, e + up)
        }
    }

    /// Castling kings and rooks stand on their back rank. Outside Chess960 no castling rook
    /// left of its king stands on the b-file: there it could shield the king's new square
    /// from the corner, which only Chess960 castling looks at.
    pub open spec fn castling_orthodox(self) -> bool {
        forall|cr: u8|
            crate::rules::single_right(cr) && #[trigger] self.has_right(cr) ==> {
                let c = crate::rules::right_color(cr);
                let r = self.rooks[cr as int] as int;
                &&& relative_rank(c, self.ksq(c) as u8) == 0
                &&& relative_rank(c, r as u8) == 0
                &&& self.chess960 || file(r) != 1 || r > self.ksq(c)
            }
    }

    /// A position that can arise in a game: the side that just moved is not in check, the
    /// checkers are known, and check, en passant and castling rights fit together.
    pub open spec fn sound(self) -> bool {
        &&& self.wf()
        &&& self.variant.royal_king() ==> {
            &&& self.checkers_exact(self.st().checkers)
            &&& !attacked(self.board, self.stm, self.ksq(self.stm.flip()))
            &&& self.ep_check_ok()
            &&& self.castling_orthodox()
        }
    }
}

// Lines through a king

/// Along the line from `k` to the slider on `n` there is a nearest slider of that line.
pub proof fn lemma_nearest_sniper(b: Board, k: int, enemy: Color, n: int) -> (r: int)
    requires
        on_board(k),
        sniper(b, k, enemy, n),
    ensures
        r == n || between(k, n, r),
        sniper(b, k, enemy, r),
        forall|x: int| #[trigger] between(k, r, x) ==> !sniper(b, k, enemy, x),
    decreases steps(k, n),
{
    if exists|x: int| #[trigger] between(k, n, x) && sniper(b, k, enemy, x) {
        let x = choose|x: int| #[trigger] between(k, n, x) && sniper(b, k, enemy, x);
        lemma_between_split(k, n, x);
        assert(steps(k, x) < steps(k, n));
        let r = lemma_nearest_sniper(b, k, enemy, x);
        r
    } else {
        n
    }
}

/// A sniper over a free segment attacks.
proof fn lemma_sniper_hits(b: Board, k: int, enemy: Color, n: int, o: u64)
    requires
        on_board(k),
        sniper(b, k, enemy, n),
        clear(k, n, o),
    ensures
        hit_by(b, n, k, o),
{
    lemma_line_symmetric(k, n);
    lemma_clear_symmetric(k, n, o);
}

/// A slider that attacks is a sniper over a free segment; any other attacker is not
/// affected by the occupancy.
proof fn lemma_hit_kinds(b: Board, x: int, k: int, o: u64)
    requires
        on_board(k),
        on_board(x),
        b[x].0 < 12,
        hit_by(b, x, k, o),
    ensures
        x != k,
        ({
            let pt = b[x].piece_type();
            let slides = pt == PieceType::Rook || pt == PieceType::Bishop || pt == PieceType::Queen;
            &&& slides ==> sniper(b, k, b[x].color(), x) && clear(k, x, o)
            &&& !slides ==> forall|p: u64| #[trigger] hit_by(b, x, k, p)
            &&& !slides ==> forall|y: int| !#[trigger] between(k, x, y)
        }),
{
    lemma_line_symmetric(k, x);
    lemma_clear_symmetric(k, x, o);
    lemma_lines_differ(x, k);
    lemma_lines_differ(k, x);
    let pt = b[x].piece_type();
    if !(pt == PieceType::Rook || pt == PieceType::Bishop || pt == PieceType::Queen) {
        assert forall|y: int| !#[trigger] between(k, x, y) by {
            if between(k, x, y) {
                lemma_between_split(k, x, y);
            }
        }
    }
}

/// Two segments from `k` that share an inner square lie on one ray.
proof fn lemma_same_ray(k: int, a: int, b: int, t: int)
    requires
        on_board(k),
        on_board(a),
        on_board(b),
        between(k, a, t),
        between(k, b, t),
    ensures
        a == b || between(k, a, b) || between(k, b, a),
{
}

/// A square on the line through an inner square `f` of the segment `k`-`n` and `k` is an
/// end of the segment, inside it, or beyond one of its ends.
proof fn lemma_line_places(k: int, n: int, f: int, t: int)
    requires
        on_board(k),
        on_board(n),
        on_board(t),
        between(k, n, f),
        t != f,
        in_line(f, t, k),
    ensures
        t == k || t == n || between(k, n, t) || between(f, t, n) || between(f, t, k),
{
}

// Moves that leave the king where it is, en passant aside

/// A drop, or an ordinary move of a piece other than the king.
spec fn plain(v: PosView, m: Move) -> bool {
    &&& v.pseudo(m)
    &&& !m.is_castling()
    &&& !m.is_en_passant()
    &&& m.is_drop() || v.board[m.from()].piece_type() != PieceType::King
}

/// What a plain move changes: its origin is vacated, its destination filled by an own piece.
proof fn lemma_plain_after(v: PosView, m: Move)
    requires
        v.wf(),
        v.variant.royal_king(),
        plain(v, m),
    ensures
        ({
            let a = v.after(m);
            let k = v.ksq(v.stm);
            &&& is_king_square(v.board, v.stm, k)
            &&& is_king_square(v.board, v.stm.flip(), v.ksq(v.stm.flip()))
            &&& m.to() != k
            &&& m.from() != k || m.is_drop()
            &&& owned(a[m.to()], v.stm)
            &&& !m.is_drop() ==> a[m.from()].0 == 12 && m.from() != m.to()
            &&& forall|x: int|
                0 <= x < 64 && x != m.to() && (m.is_drop() || x != m.from()) ==> #[trigger] a[x]
                    == v.board[x]
            &&& forall|x: int| #[trigger]
                holds(occ(a), x) <==> on_board(x) && (x == m.to() || (holds(occ(v.board), x) && (
                m.is_drop() || x != m.from())))
            &&& !owned(v.board[m.to()], v.stm)
            &&& king_sq(a, v.stm) == k
        }),
{
    let a = v.after(m);
    let k = v.ksq(v.stm);
    assert(one_king(v.board, v.stm) && one_king(v.board, v.stm.flip()));
    assert(is_king_square(a, v.stm, k)) by {
        assert(a[k] == king(v.stm));
    }
    assert(king_sq(a, v.stm) == k);
}

/// An own piece moving along the line through its king and a sniper behind it stays
/// between them or takes the sniper.
proof fn lemma_pinned_path(v: PosView, m: Move, k: int, n: int)
    requires
        v.wf(),
        v.variant.royal_king(),
        plain(v, m),
        !m.is_drop(),
        on_board(k),
        on_board(n),
        v.board[k].0 < 12,
        v.board[n].0 < 12,
        between(k, n, m.from()),
        in_line(m.from(), m.to(), k),
        m.to() != k,
    ensures
        m.to() == n || between(k, n, m.to()),
{
    let (f, t) = (m.from(), m.to());
    lemma_line_places(k, n, f, t);
    let o = occ(v.board);
    if between(f, t, n) || between(f, t, k) {
        let w = if between(f, t, n) {
            n
        } else {
            k
        };
        assert(holds(o, w));
        lemma_lines_differ(f, t);
        lemma_between_split(f, t, w);
        assert(false);
    }
}

/// A candidate plain move that passes the pin test leaves the king out of check.
proof fn lemma_plain_sound(v: PosView, m: Move)
    requires
        v.sound(),
        v.variant.royal_king(),
        plain(v, m),
        v.in_check() ==> v.evades(m),
        v.king_test(m),
    ensures
        !attacked(v.after(m), v.stm.flip(), king_sq(v.after(m), v.stm)),
{
    lemma_plain_after(v, m);
    let b = v.board;
    let a = v.after(m);
    let us = v.stm;
    let them = us.flip();
    let k = v.ksq(us);
    let (f, t) = (m.from(), m.to());
    let o = occ(b);
    let o1 = occ(a);
    if attacked(a, them, k) {
        let n = choose|x: int| on_board(x) && owned(a[x], them) && #[trigger] hit_by(a, x, k, o1);
        assert(n != t && (m.is_drop() || n != f));
        assert(a[n] == b[n]);
        lemma_hit_kinds(a, n, k, o1);
        let checkers = v.st().checkers;
        if hit_by(b, n, k, o) {
            assert(holds(checkers, n));
            crate::bits::lemma_nonzero(checkers, n);
            lemma_lowest(checkers);
            lemma_size_one(checkers, n);
            assert(v.answers(n, t));
            assert(between(k, n, t));
            assert(holds(o1, t));
            assert(false);
        } else {
            assert(sniper(a, k, them, n) && clear(k, n, o1));
            assert(sniper(b, k, them, n));
            if clear(k, n, o) {
                lemma_sniper_hits(b, k, them, n, o);
            }
            let x = choose|x: int| between(k, n, x) && #[trigger] holds(o, x);
            assert(!holds(o1, x));
            assert(x == f && !m.is_drop());
            assert forall|y: int| #[trigger] shields(b, k, them, n, y) implies y == f by {
                assert(holds(o, y));
                assert(!holds(o1, y));
            }
            assert(shields(b, k, them, n, f));
            assert(sole_shield(b, k, them, n, f));
            assert(blocker(b, k, them, f));
            lemma_pinned_path(v, m, k, n);
            assert(holds(o1, t));
            assert(false);
        }
    }
}

/// In a set of fewer than two squares every square is the lowest.
proof fn lemma_size_one(b: u64, n: int)
    requires
        holds(b, n),
    ensures
        size(b) < 2 ==> n == lowest(b),
        size(b) >= 1,
{
    crate::bits::lemma_nonzero(b, n);
    lemma_size(b);
    lemma_lowest(b);
    let rest = b & ((b - 1) as u64);
    crate::bits::lemma_drop_lowest(b);
    if n != lowest(b) {
        assert(holds(rest, n));
        crate::bits::lemma_nonzero(rest, n);
        lemma_size(rest);
    }
}

/// A plain move that leaves the king out of check is a candidate and passes the pin test.
proof fn lemma_plain_complete(v: PosView, m: Move)
    requires
        v.sound(),
        v.variant.royal_king(),
        plain(v, m),
        !attacked(v.after(m), v.stm.flip(), king_sq(v.after(m), v.stm)),
    ensures
        v.in_check() ==> v.evades(m),
        v.king_test(m),
{
    lemma_plain_after(v, m);
    let b = v.board;
    let a = v.after(m);
    let us = v.stm;
    let them = us.flip();
    let k = v.ksq(us);
    let (f, t) = (m.from(), m.to());
    let o = occ(b);
    let o1 = occ(a);
    let checkers = v.st().checkers;
    // Every checker must be taken or shut out.
    assert forall|c: int| #[trigger] holds(checkers, c) implies v.answers(c, t) by {
        assert(owned(b[c], them) && hit_by(b, c, k, o));
        lemma_hit_kinds(b, c, k, o);
        if c != t {
            assert(a[c] == b[c]);
            if !between(k, c, t) {
                assert(hit_by(a, c, k, o1)) by {
                    let pt = b[c].piece_type();
                    if pt == PieceType::Rook || pt == PieceType::Bishop || pt == PieceType::Queen {
                        assert(clear(k, c, o1)) by {
                            assert forall|x: int| between(k, c, x) implies !#[trigger] holds(
                                o1,
                                x,
                            ) by {
                                assert(!holds(o, x));
                            }
                        }
                        assert(sniper(a, k, them, c));
                        lemma_sniper_hits(a, k, them, c, o1);
                    } else {
                        assert(hit_by(b, c, k, o1));
                    }
                }
                assert(owned(a[c], them));
                assert(false);
            }
        }
    }
    if v.in_check() {
        lemma_lowest(checkers);
        let c = lowest(checkers);
        assert(v.answers(c, t));
        if size(checkers) >= 2 {
            lemma_size(checkers);
            let rest = checkers & ((checkers - 1) as u64);
            crate::bits::lemma_drop_lowest(checkers);
            lemma_size(rest);
            if rest == 0 {
                lemma_size(0);
            }
            lemma_lowest(rest);
            let d = lowest(rest);
            assert(holds(checkers, d) && d != c);
            assert(v.answers(d, t));
            lemma_hit_kinds(b, c, k, o);
            lemma_hit_kinds(b, d, k, o);
            assert(holds(o, c) && holds(o, d));
            if t == c {
                assert(between(k, d, c));
            } else if t == d {
                assert(between(k, c, d));
            } else {
                lemma_same_ray(k, c, d, t);
            }
            assert(false);
        }
    }
    if !m.is_drop() && blocker(b, k, them, f) && !in_line(f, t, k) {
        let n = choose|n: int| #[trigger] sniper(b, k, them, n) && sole_shield(b, k, them, n, f);
        let r = lemma_nearest_sniper(b, k, them, n);
        // Nothing is left between the king and the nearest sniper.
        assert forall|x: int| #[trigger] between(k, r, x) implies between(k, n, x) by {
            if r != n {
                lemma_between_split(k, n, r);
            }
        }
        lemma_off_line(k, n, f, t);
        assert(clear(k, r, o1)) by {
            assert forall|x: int| between(k, r, x) implies !#[trigger] holds(o1, x) by {
                assert(between(k, n, x));
                if holds(o1, x) {
                    assert(x != t);
                    assert(holds(o, x));
                    assert(shields(b, k, them, n, x));
                }
            }
        }
        assert(r != t) by {
            if r == t {
                assert(in_line(f, t, k));
            }
        }
        assert(r != f);
        assert(a[r] == b[r]);
        assert(sniper(a, k, them, r));
        lemma_sniper_hits(a, k, them, r, o1);
        assert(owned(a[r], them));
        assert(false);
    }
}

/// A square off the line through `f` and `k` is neither on the segment nor an end of it.
proof fn lemma_off_line(k: int, n: int, f: int, t: int)
    requires
        on_board(k),
        on_board(n),
        on_board(t),
        between(k, n, f),
        t != f,
        !in_line(f, t, k),
    ensures
        t != n,
        !between(k, n, t),
        forall|r: int| #[trigger] between(k, n, r) ==> r != t,
{
}

// King moves

/// A king move passes the test exactly when its destination is safe.
proof fn lemma_king_move(v: PosView, m: Move)
    requires
        v.sound(),
        v.variant.royal_king(),
        v.pseudo(m),
        !m.is_drop(),
        !m.is_castling(),
        !m.is_en_passant(),
        v.board[m.from()].piece_type() == PieceType::King,
    ensures
        v.king_test(m) <==> !attacked(v.after(m), v.stm.flip(), king_sq(v.after(m), v.stm)),
        v.in_check() ==> v.evades(m),
{
    let b = v.board;
    let a = v.after(m);
    let us = v.stm;
    let them = us.flip();
    let (f, t) = (m.from(), m.to());
    assert(one_king(b, us) && one_king(b, them));
    assert(is_king_square(b, us, v.ksq(us)));
    assert(f == v.ksq(us));
    lemma_lines_differ(f, t);
    assert(f != t);
    assert(is_king_square(a, us, t));
    assert(king_sq(a, us) == t);
    let gone = b.update(f, Piece(12));
    let o1 = occ(a);
    let o2 = occ(gone);
    assert forall|x: int| #[trigger] hit_by(a, x, t, o1) && on_board(x) && owned(
        a[x],
        them,
    ) implies hit_by(b, x, t, o2) && owned(b[x], them) by {
        lemma_same_clear(x, t, o1, o2);
    }
    assert forall|x: int| #[trigger] hit_by(b, x, t, o2) && on_board(x) && owned(
        b[x],
        them,
    ) implies hit_by(a, x, t, o1) && owned(a[x], them) by {
        lemma_hit_kinds(b, x, t, o2);
        lemma_same_clear(x, t, o1, o2);
    }
}

/// Occupancies that agree off the end squares give the same free segments.
proof fn lemma_same_clear(x: int, t: int, o1: u64, o2: u64)
    requires
        on_board(x),
        on_board(t),
        forall|y: int| y != t && y != x ==> #[trigger] holds(o1, y) == holds(o2, y),
    ensures
        clear(x, t, o1) == clear(x, t, o2),
{
    assert forall|y: int| #[trigger] between(x, t, y) implies y != x && y != t by {
        lemma_between_split(x, t, y);
    }
    if clear(x, t, o1) {
        assert forall|y: int| #[trigger] between(x, t, y) implies !holds(o2, y) by {
            assert(holds(o1, y) == holds(o2, y));
        }
    }
    if clear(x, t, o2) {
        assert forall|y: int| #[trigger] between(x, t, y) implies !holds(o1, y) by {
            assert(holds(o1, y) == holds(o2, y));
        }
    }
}

// En passant

/// What an en passant capture changes.
proof fn lemma_passing_after(v: PosView, m: Move)
    requires
        v.wf(),
        v.pseudo(m),
        m.is_en_passant(),
    ensures
        ({
            let a = v.after(m);
            let (f, t, c) = (m.from(), m.to(), v.capture_square(m));
            &&& on_board(c)
            &&& f != t
            &&& f != c
            &&& t != c
            &&& v.board[f] == pawn(v.stm)
            &&& v.board[c] == pawn(v.stm.flip())
            &&& v.board[t].0 == 12
            &&& a[t] == pawn(v.stm)
            &&& a[f].0 == 12
            &&& a[c].0 == 12
            &&& rank(c) == rank(f)
            &&& file(c) == file(t)
            &&& t == v.st().ep_square
            &&& forall|x: int|
                0 <= x < 64 && x != f && x != t && x != c ==> #[trigger] a[x] == v.board[x]
            &&& forall|x: int| #[trigger]
                holds(occ(a), x) <==> on_board(x) && (x == t || (holds(occ(v.board), x) && x != f
                    && x != c))
            &&& v.variant.royal_king() ==> king_sq(a, v.stm) == v.ksq(v.stm) && king_sq(
                a,
                v.stm.flip(),
            ) == v.ksq(v.stm.flip()) && is_king_square(v.board, v.stm, v.ksq(v.stm))
                && is_king_square(v.board, v.stm.flip(), v.ksq(v.stm.flip()))
        }),
{
    let a = v.after(m);
    let (f, t, c) = (m.from(), m.to(), v.capture_square(m));
    if v.variant.royal_king() {
        let k = v.ksq(v.stm);
        let j = v.ksq(v.stm.flip());
        assert(one_king(v.board, v.stm) && one_king(v.board, v.stm.flip()));
        assert(is_king_square(a, v.stm, k)) by {
            assert(a[k] == king(v.stm));
        }
        assert(is_king_square(a, v.stm.flip(), j)) by {
            assert(a[j] == king(v.stm.flip()));
        }
        assert(king_sq(a, v.stm) == k);
        assert(king_sq(a, v.stm.flip()) == j);
    }
}

/// En passant passes the test, as an answer to a check where there is one, exactly when it
/// leaves the king out of check.
#[verifier::spinoff_prover]
#[verifier::rlimit(60)]
proof fn lemma_passing(v: PosView, m: Move)
    requires
        v.sound(),
        v.variant.royal_king(),
        v.pseudo(m),
        m.is_en_passant(),
    ensures
        ((v.in_check() ==> v.evades(m)) && v.king_test(m)) <==> !attacked(
            v.after(m),
            v.stm.flip(),
            king_sq(v.after(m), v.stm),
        ),
{
    lemma_passing_after(v, m);
    let b = v.board;
    let a = v.after(m);
    let us = v.stm;
    let them = us.flip();
    let k = v.ksq(us);
    let (f, t, c) = (m.from(), m.to(), v.capture_square(m));
    let o = occ(b);
    let o1 = occ(a);
    let checkers = v.st().checkers;
    let up = us.forward() as int;
    assert(c == t - up);
    // Sliders of the other side are the same before and after.
    assert forall|x: int| #[trigger] v.slider_at(them, k, o1, x) implies hit_by(a, x, k, o1)
        && owned(a[x], them) by {}
    if !v.king_test(m) {
        let x = choose|x: int| #[trigger] v.slider_at(them, k, o1, x);
        assert(hit_by(a, x, k, o1));
        assert(attacked(a, them, k));
    }
    if v.in_check() {
        lemma_lowest(checkers);
    }
    if (v.in_check() ==> v.evades(m)) && v.king_test(m) && attacked(a, them, k) {
        let n = choose|x: int| on_board(x) && owned(a[x], them) && #[trigger] hit_by(a, x, k, o1);
        assert(n != t && n != f && n != c);
        assert(a[n] == b[n]);
        lemma_hit_kinds(a, n, k, o1);
        let pt = a[n].piece_type();
        if pt == PieceType::Rook || pt == PieceType::Bishop || pt == PieceType::Queen {
            assert(v.slider_at(them, k, o1, n));
            assert(false);
        }
        assert(hit_by(a, n, k, o));
        assert(hit_by(b, n, k, o));
        assert(holds(checkers, n));
        crate::bits::lemma_nonzero(checkers, n);
        lemma_size_one(checkers, n);
        if exists|d: int| #[trigger] holds(checkers, d) && between(k, d, t + up) {
            let d = choose|d: int| #[trigger] holds(checkers, d) && between(k, d, t + up);
            lemma_size_one(checkers, d);
            assert(v.answers(d, t + up));
            assert(false);
        }
        assert(n == t - up);
        assert(false);
    }
    if !attacked(a, them, k) && v.in_check() {
        assert forall|d: int| #[trigger] holds(checkers, d) implies !between(k, d, t + up) by {
            if between(k, d, t + up) {
                assert(owned(b[d], them) && hit_by(b, d, k, o));
                lemma_hit_kinds(b, d, k, o);
                assert(holds(o, c));
                lemma_file_segment(k, d, t, up);
                assert(clear(k, d, o1)) by {
                    assert forall|x: int| between(k, d, x) implies !#[trigger] holds(o1, x) by {
                        assert(!holds(o, x));
                        if x == t {
                            assert(between(k, d, c));
                        }
                    }
                }
                assert(d != t && d != f && d != c);
                assert(a[d] == b[d]);
                assert(sniper(a, k, them, d));
                lemma_sniper_hits(a, k, them, d, o1);
                assert(attacked(a, them, k));
            }
        }
        let d = lowest(checkers);
        assert(holds(checkers, d));
        assert(forall|x: int| #[trigger] holds(checkers, x) ==> x == t - up);
        assert(size(checkers) < 2) by {
            if size(checkers) >= 2 {
                lemma_size(checkers);
                let rest = checkers & ((checkers - 1) as u64);
                crate::bits::lemma_drop_lowest(checkers);
                lemma_size(0);
                lemma_lowest(rest);
                assert(holds(checkers, lowest(rest)));
            }
        }
        assert(d == c);
        lemma_hit_kinds(b, c, k, o);
        assert(!between(k, c, t + up));
        assert(v.evades(m));
    }
}

/// A segment over the two squares ahead of a pawn also covers the pawn, unless it ends on it.
proof fn lemma_file_segment(k: int, d: int, t: int, up: int)
    requires
        on_board(k),
        on_board(d),
        on_board(t),
        on_board(t + up),
        on_board(t - up),
        up == 8 || up == -8,
        between(k, d, t + up),
    ensures
        between(k, d, t) ==> between(k, d, t - up) || t - up == k || t - up == d,
{
}

// Castling

/// Places of a castling move on a sound position: everything on the back rank, every
/// square between king and rook and on the way of either empty.
pub proof fn lemma_castling_places(v: PosView, m: Move)
    requires
        v.sound(),
        v.variant.castling_allowed(),
        v.pseudo(m),
        m.is_castling(),
    ensures
        ({
            let (f, t) = (m.from(), m.to());
            let (kto, rto) = (v.castle_king_to(m), v.castle_rook_to(m));
            let r = rank(f);
            &&& f == v.ksq(v.stm)
            &&& f != t
            &&& v.board[f] == king(v.stm)
            &&& v.board[t] == rook(v.stm)
            &&& is_king_square(v.board, v.stm, f)
            &&& is_king_square(v.board, v.stm.flip(), v.ksq(v.stm.flip()))
            &&& r == (if v.stm == Color::White {
                0int
            } else {
                7
            })
            &&& rank(t) == r
            &&& rank(kto) == r
            &&& rank(rto) == r
            &&& on_board(kto)
            &&& on_board(rto)
            &&& t > f ==> file(kto) == 6 && file(rto) == 5
            &&& t < f ==> file(kto) == 2 && file(rto) == 3
            &&& v.chess960 || file(t) != 1 || t > f
            &&& forall|x: int|
                (between(f, kto, x) || between(t, rto, x) || x == kto || x == rto || between(f, t, x))
                    && x != f && x != t ==> #[trigger] v.board[x].0 == 12
        }),
{
    crate::makemove::lemma_castling_squares(v, m);
    let (f, t) = (m.from(), m.to());
    let (kto, rto) = (v.castle_king_to(m), v.castle_rook_to(m));
    let cr = crate::rules::castling_right(v.stm, t > f);
    assert(crate::rules::single_right(cr) && v.has_right(cr));
    assert(v.right_ok(cr));
    assert(one_king(v.board, v.stm) && one_king(v.board, v.stm.flip()));
    assert(crate::rules::right_king_to(cr) == kto);
    assert(crate::rules::right_rook_to(cr) == rto);
    assert forall|x: int|
        (between(f, kto, x) || between(t, rto, x) || x == kto || x == rto || between(f, t, x)) && x
            != f && x != t implies #[trigger] v.board[x].0 == 12 by {
        if between(f, t, x) {
            assert(between(f, kto, x) || between(t, rto, x) || x == kto || x == rto);
        }
        assert(holds(v.path[cr as int], x));
    }
}

/// What castling changes.
pub proof fn lemma_castling_after(v: PosView, m: Move)
    requires
        v.sound(),
        v.variant.castling_allowed(),
        v.pseudo(m),
        m.is_castling(),
    ensures
        ({
            let a = v.after(m);
            let (f, t) = (m.from(), m.to());
            let (kto, rto) = (v.castle_king_to(m), v.castle_rook_to(m));
            &&& a[kto] == king(v.stm)
            &&& a[rto] == rook(v.stm)
            &&& kto != rto
            &&& forall|x: int|
                0 <= x < 64 && x != f && x != t && x != kto && x != rto ==> #[trigger] a[x]
                    == v.board[x]
            &&& f != kto && f != rto ==> a[f].0 == 12
            &&& t != kto && t != rto ==> a[t].0 == 12
            &&& forall|x: int| #[trigger]
                holds(occ(a), x) <==> on_board(x) && (x == kto || x == rto || (holds(
                    occ(v.board),
                    x,
                ) && x != f && x != t))
            &&& king_sq(a, v.stm) == kto
            &&& king_sq(a, v.stm.flip()) == v.ksq(v.stm.flip())
        }),
{
    lemma_castling_places(v, m);
    let a = v.after(m);
    let (f, t) = (m.from(), m.to());
    let (kto, rto) = (v.castle_king_to(m), v.castle_rook_to(m));
    let j = v.ksq(v.stm.flip());
    assert(is_king_square(a, v.stm, kto));
    assert(is_king_square(a, v.stm.flip(), j)) by {
        assert(v.board[j] == king(v.stm.flip()));
        assert(a[j] == king(v.stm.flip()));
    }
    assert(king_sq(a, v.stm) == kto);
    assert(king_sq(a, v.stm.flip()) == j);
}

/// Castling that passes the test outside check leaves the king out of check.
#[verifier::spinoff_prover]
#[verifier::rlimit(60)]
proof fn lemma_castling_sound(v: PosView, m: Move)
    requires
        v.sound(),
        v.variant.castling_allowed(),
        v.pseudo(m),
        m.is_castling(),
        !v.in_check(),
        v.king_test(m),
    ensures
        !attacked(v.after(m), v.stm.flip(), king_sq(v.after(m), v.stm)),
{
    lemma_castling_places(v, m);
    lemma_castling_after(v, m);
    let b = v.board;
    let a = v.after(m);
    let us = v.stm;
    let them = us.flip();
    let (f, t) = (m.from(), m.to());
    let (kto, rto) = (v.castle_king_to(m), v.castle_rook_to(m));
    let o = occ(b);
    let o1 = occ(a);
    assert(!attacked(b, them, f)) by {
        if attacked(b, them, f) {
            let x = choose|x: int| on_board(x) && owned(b[x], them) && #[trigger] hit_by(b, x, f, o);
            assert(holds(v.st().checkers, x));
        }
    }
    assert(!attacked(b, them, kto));
    if attacked(a, them, kto) {
        let n = choose|x: int| on_board(x) && owned(a[x], them) && #[trigger] hit_by(a, x, kto, o1);
        assert(n != f && n != t && n != kto && n != rto);
        assert(a[n] == b[n]);
        lemma_hit_kinds(a, n, kto, o1);
        assert(!hit_by(b, n, kto, o));
        let pt = a[n].piece_type();
        assert(pt == PieceType::Rook || pt == PieceType::Bishop || pt == PieceType::Queen) by {
            if !(pt == PieceType::Rook || pt == PieceType::Bishop || pt == PieceType::Queen) {
                assert(hit_by(a, n, kto, o));
            }
        }
        assert(sniper(b, kto, them, n));
        if clear(kto, n, o) {
            lemma_sniper_hits(b, kto, them, n, o);
        }
        let x = choose|x: int| between(kto, n, x) && #[trigger] holds(o, x);
        assert(!holds(o1, x));
        assert(x == f || x == t);
        // The line is the back rank.
        assert(rank(n) == rank(f));
        assert(b[n].piece_type() != PieceType::Bishop);
        assert(sniper(b, f, them, n));
        if between(kto, n, f) {
            assert forall|y: int| #[trigger] between(f, n, y) implies between(kto, n, y) by {}
            if !between(f, n, t) {
                assert(clear(f, n, o)) by {
                    assert forall|y: int| between(f, n, y) implies !#[trigger] holds(o, y) by {
                        assert(between(kto, n, y));
                        assert(!holds(o1, y));
                    }
                }
                lemma_sniper_hits(b, f, them, n, o);
                assert(false);
            }
        } else {
            assert(x == t && between(kto, n, t));
            assert(holds(o, n));
            assert(!between(f, kto, n) && !between(f, t, n));
            assert(t < f);
            assert(between(f, n, t));
        }
        // The rook alone stands between the slider and the king.
        assert(shields(b, f, them, n, t));
        assert forall|y: int| #[trigger] shields(b, f, them, n, y) implies y == t by {
            assert(holds(o, y));
            if between(kto, n, y) {
                assert(!holds(o1, y));
            } else {
                assert(between(f, kto, y) || y == kto);
            }
        }
        assert(sole_shield(b, f, them, n, t));
        assert(blocker(b, f, them, t));
        assert(!v.chess960);
        assert(t < f && file(t) == 1);
        assert(false);
    }
}

/// Legal castling passes the test.
#[verifier::spinoff_prover]
#[verifier::rlimit(60)]
proof fn lemma_castling_complete(v: PosView, m: Move)
    requires
        v.sound(),
        v.variant.castling_allowed(),
        v.pseudo(m),
        m.is_castling(),
        !attacked(v.board, v.stm.flip(), v.ksq(v.stm)),
        v.castling_path_safe(m),
        !attacked(v.after(m), v.stm.flip(), king_sq(v.after(m), v.stm)),
    ensures
        !v.in_check(),
        v.king_test(m),
{
    lemma_castling_places(v, m);
    lemma_castling_after(v, m);
    let b = v.board;
    let a = v.after(m);
    let us = v.stm;
    let them = us.flip();
    let (f, t) = (m.from(), m.to());
    let (kto, rto) = (v.castle_king_to(m), v.castle_rook_to(m));
    let o = occ(b);
    let o1 = occ(a);
    if v.in_check() {
        lemma_lowest(v.st().checkers);
        let x = lowest(v.st().checkers);
        assert(holds(v.st().checkers, x));
        assert(hit_by(b, x, f, o));
        assert(attacked(b, them, f));
    }
    if blocker(b, f, them, t) {
        let n = choose|n: int| #[trigger] sniper(b, f, them, n) && sole_shield(b, f, them, n, t);
        assert(between(f, n, t));
        let r = lemma_nearest_sniper(b, f, them, n);
        assert(rank(n) == rank(f));
        if r != n {
            lemma_between_split(f, n, r);
        }
        assert(rank(r) == rank(f));
        assert(b[r].0 < 12 && owned(b[r], them));
        assert(b[r].piece_type() != PieceType::Bishop);
        assert(!between(f, t, r) && !between(f, kto, r) && r != kto && r != rto && r != t && r != f);
        assert(between(f, r, t));
        assert forall|y: int| #[trigger] between(f, r, y) implies b[y].0 == 12 || y == t by {
            assert(between(f, n, y));
            if b[y].0 < 12 {
                assert(shields(b, f, them, n, y));
            }
        }
        assert(a[r] == b[r]);
        assert(sniper(a, kto, them, r));
        assert(clear(kto, r, o1)) by {
            assert forall|y: int| between(kto, r, y) implies !#[trigger] holds(o1, y) by {
                if holds(o1, y) {
                    assert(y != rto);
                    assert(holds(o, y) && y != t);
                    assert(between(f, r, y));
                }
            }
        }
        lemma_sniper_hits(a, kto, them, r, o1);
        assert(owned(a[r], them));
        assert(attacked(a, them, kto));
    }
}

/// On a sound position the candidates that pass the legality test are exactly the legal
/// moves, giving check in racing kings aside.
pub proof fn king_test_is_exact(v: PosView, m: Move)
    requires
        v.sound(),
        v.variant.royal_king(),
        v.pseudo(m),
    ensures
        (v.candidate(m) && v.king_test(m)) <==> {
            &&& !attacked(v.after(m), v.stm.flip(), king_sq(v.after(m), v.stm))
            &&& m.is_castling() ==> !attacked(v.board, v.stm.flip(), v.ksq(v.stm))
                && v.castling_path_safe(m)
        },
{
    if m.is_castling() {
        assert(v.variant.castling_allowed());
        if v.candidate(m) && v.king_test(m) {
            lemma_castling_sound(v, m);
            lemma_castling_places(v, m);
            if attacked(v.board, v.stm.flip(), v.ksq(v.stm)) {
                let b = v.board;
                let x = choose|x: int|
                    on_board(x) && owned(b[x], v.stm.flip()) && #[trigger] hit_by(
                        b,
                        x,
                        v.ksq(v.stm),
                        occ(b),
                    );
                assert(holds(v.st().checkers, x));
            }
        }
        if !attacked(v.after(m), v.stm.flip(), king_sq(v.after(m), v.stm)) && !attacked(
            v.board,
            v.stm.flip(),
            v.ksq(v.stm),
        ) && v.castling_path_safe(m) {
            lemma_castling_complete(v, m);
        }
    } else if m.is_en_passant() {
        lemma_passing(v, m);
    } else if !m.is_drop() && v.board[m.from()].piece_type() == PieceType::King {
        lemma_king_move(v, m);
    } else {
        assert(plain(v, m));
        if v.candidate(m) && v.king_test(m) {
            lemma_plain_sound(v, m);
        }
        if !attacked(v.after(m), v.stm.flip(), king_sq(v.after(m), v.stm)) {
            lemma_plain_complete(v, m);
        }
    }
}

// Giving check

/// A drop or a move other than castling and en passant.
spec fn ordinary(v: PosView, m: Move) -> bool {
    v.pseudo(m) && !m.is_castling() && !m.is_en_passant()
}

/// What an ordinary move changes, and that it does not land on the enemy king.
proof fn lemma_ordinary_after(v: PosView, m: Move)
    requires
        v.sound(),
        v.variant.royal_king(),
        ordinary(v, m),
    ensures
        ({
            let a = v.after(m);
            let j = v.ksq(v.stm.flip());
            let (f, t) = (m.from(), m.to());
            &&& is_king_square(v.board, v.stm.flip(), j)
            &&& t != j
            &&& a[t] == (if m.is_drop() {
                v.mover(m)
            } else {
                v.arrives(m)
            })
            &&& owned(a[t], v.stm)
            &&& !m.is_drop() ==> a[f].0 == 12 && f != t && f != j && owned(v.board[f], v.stm)
            &&& forall|x: int|
                0 <= x < 64 && x != t && (m.is_drop() || x != f) ==> #[trigger] a[x] == v.board[x]
            &&& forall|x: int| #[trigger]
                holds(occ(a), x) <==> on_board(x) && (x == t || (holds(occ(v.board), x) && (
                m.is_drop() || x != f)))
            &&& !owned(v.board[t], v.stm)
            &&& king_sq(a, v.stm.flip()) == j
        }),
{
    let a = v.after(m);
    let b = v.board;
    let us = v.stm;
    let j = v.ksq(us.flip());
    let (f, t) = (m.from(), m.to());
    assert(one_king(b, us.flip()) && one_king(b, us));
    assert(!hit_by(b, f, j, occ(b)) || m.is_drop()) by {
        if !m.is_drop() && hit_by(b, f, j, occ(b)) {
            assert(attacked(b, us, j));
        }
    }
    lemma_lines_differ(f, t);
    if t == j {
        assert(!m.is_drop());
        assert(hit_by(b, f, j, occ(b)));
    }
    assert(is_king_square(a, us.flip(), j)) by {
        assert(a[j] == b[j]);
    }
    assert(king_sq(a, us.flip()) == j);
}

/// A piece moving along the line through the enemy king and an own slider behind it stays
/// between them.
proof fn lemma_screen_path(v: PosView, m: Move, n: int)
    requires
        v.sound(),
        v.variant.royal_king(),
        ordinary(v, m),
        !m.is_drop(),
        on_board(n),
        owned(v.board[n], v.stm),
        between(v.ksq(v.stm.flip()), n, m.from()),
        in_line(m.from(), m.to(), v.ksq(v.stm.flip())),
    ensures
        between(v.ksq(v.stm.flip()), n, m.to()),
{
    lemma_ordinary_after(v, m);
    let (f, t) = (m.from(), m.to());
    let j = v.ksq(v.stm.flip());
    lemma_line_places(j, n, f, t);
    let o = occ(v.board);
    if between(f, t, n) || between(f, t, j) {
        let w = if between(f, t, n) {
            n
        } else {
            j
        };
        assert(holds(o, w));
        lemma_lines_differ(f, t);
        lemma_between_split(f, t, w);
        assert(false);
    }
}

/// A piece that leaves the line between the enemy king and an own slider discovers check.
proof fn lemma_discovered(v: PosView, j: int, f: int, us: Color, a: Board) -> (r: int)
    requires
        v.wf(),
        on_board(j),
        on_board(f),
        blocker(v.board, j, us, f),
        !attacked(v.board, us, j),
        forall|x: int|
            0 <= x < 64 && v.board[x].0 < 12 && owned(v.board[x], us) && x != f ==> #[trigger] a[x]
                == v.board[x] || !in_line(j, f, x),
        forall|x: int|
            on_board(x) && in_line(j, f, x) && #[trigger] a[x].0 < 12 ==> v.board[x].0 < 12 && x
                != f,
    ensures
        on_board(r),
        owned(a[r], us),
        hit_by(a, r, j, occ(a)),
{
    let b = v.board;
    let o = occ(b);
    let n = choose|n: int| #[trigger] sniper(b, j, us, n) && sole_shield(b, j, us, n, f);
    assert(between(j, n, f));
    let r = lemma_nearest_sniper(b, j, us, n);
    lemma_between_split(j, n, f);
    assert forall|x: int| #[trigger] between(j, r, x) implies between(j, n, x) by {
        if r != n {
            lemma_between_split(j, n, r);
        }
    }
    assert(in_line(j, n, n)) by {
        assert(same_line(j, n));
    }
    assert(in_line(j, f, r)) by {
        assert(in_line(j, n, r));
    }
    if r == f {
        assert(shields(b, j, us, n, f));
        assert(false);
    }
    if !between(j, r, f) {
        // The slider stands before the piece and attacks already.
        assert(clear(j, r, o)) by {
            assert forall|x: int| between(j, r, x) implies !#[trigger] holds(o, x) by {
                if holds(o, x) {
                    assert(shields(b, j, us, n, x));
                }
            }
        }
        lemma_sniper_hits(b, j, us, r, o);
        assert(attacked(b, us, j));
        assert(false);
    }
    assert(a[r] == b[r]);
    assert(clear(j, r, occ(a))) by {
        assert forall|x: int| between(j, r, x) implies !#[trigger] holds(occ(a), x) by {
            if holds(occ(a), x) {
                assert(between(j, n, x));
                assert(in_line(j, n, x));
                assert(in_line(j, f, x));
                assert(b[x].0 < 12 && x != f);
                assert(shields(b, j, us, n, x));
            }
        }
    }
    assert(sniper(a, j, us, r));
    lemma_sniper_hits(a, j, us, r, occ(a));
    r
}

/// An ordinary move gives check exactly when the check test says so.
#[verifier::spinoff_prover]
#[verifier::rlimit(80)]
proof fn lemma_check_ordinary(v: PosView, m: Move)
    requires
        v.sound(),
        v.variant.royal_king(),
        ordinary(v, m),
        !attacked(v.after(m), v.stm.flip(), king_sq(v.after(m), v.stm)),
    ensures
        v.check_test(m) <==> attacked(v.after(m), v.stm, king_sq(v.after(m), v.stm.flip())),
{
    lemma_ordinary_after(v, m);
    let b = v.board;
    let a = v.after(m);
    let us = v.stm;
    let them = us.flip();
    let j = v.ksq(them);
    let (f, t) = (m.from(), m.to());
    let o = occ(b);
    let o1 = occ(a);
    let at = a[t].piece_type();
    // The moved piece: what it attacks from its new square.
    lemma_line_symmetric(t, j);
    lemma_clear_symmetric(t, j, o);
    lemma_clear_symmetric(t, j, o1);
    crate::geometry::lemma_reaches_symmetric(at, t, j, o);
    crate::geometry::lemma_reaches_symmetric(at, t, j, o1);
    crate::geometry::lemma_pawn_hit_mutual(us, t, j);
    if !m.is_drop() {
        let gone = occ(b.update(f, Piece(12)));
        assert forall|y: int| y != t && y != j implies #[trigger] holds(o1, y) == holds(gone, y) by {}
        lemma_same_clear(t, j, o1, gone);
        // A slider stepping back along the line it attacked on would have given check before.
        if between(t, j, f) && clear(t, j, o1) && same_line(t, j) {
            lemma_between_split(t, j, f);
            assert(clear(f, j, o)) by {
                assert forall|x: int| between(f, j, x) implies !#[trigger] holds(o, x) by {
                    assert(between(t, j, x));
                    lemma_between_split(f, j, x);
                    assert(!holds(o1, x));
                }
            }
            assert(!hit_by(b, f, j, o)) by {
                if hit_by(b, f, j, o) {
                    assert(attacked(b, us, j));
                }
            }
        }
        if !between(t, j, f) {
            lemma_same_clear_but(t, j, f, o, o1);
        }
    } else {
        lemma_same_clear(t, j, o, o1);
    }
    let direct = hit_by(a, t, j, o1);
    let promo = m.is_promotion();
    if promo {
        assert(b[f] == pawn(us));
        assert(!pawn_hit(them, j, t)) by {
            assert(relative_rank(us, f as u8) == 6);
        }
    } else {
        assert(at == v.mover(m).piece_type());
        assert(at == PieceType::King ==> !direct) by {
            if at == PieceType::King && direct {
                lemma_kings_apart(v, m);
            }
        }
        assert(direct <==> (at == PieceType::Pawn && pawn_hit(them, j, t)) || (at != PieceType::King
            && reaches(at, j, t, o)));
    }
    if !m.is_drop() && blocker(b, j, us, f) {
        if in_line(f, t, j) {
            let n = choose|n: int| #[trigger] sniper(b, j, us, n) && sole_shield(b, j, us, n, f);
            assert(between(j, n, f));
            lemma_screen_path(v, m, n);
            if promo {
                assert(relative_rank(us, f as u8) == 6 && relative_rank(us, t as u8) == 7);
                assert(false);
            }
        } else {
            assert(!in_line(j, f, t)) by {
                lemma_line_turn(j, f, t);
            }
            let r = lemma_discovered(v, j, f, us, a);
            assert(attacked(a, us, j));
        }
    }
    if direct {
        assert(attacked(a, us, j));
    }
    if attacked(a, us, j) && !direct {
        let n = choose|x: int| on_board(x) && owned(a[x], us) && #[trigger] hit_by(a, x, j, o1);
        assert(n != t);
        assert(n != f || m.is_drop());
        assert(a[n] == b[n]);
        lemma_hit_kinds(a, n, j, o1);
        assert(!hit_by(b, n, j, o)) by {
            if hit_by(b, n, j, o) {
                assert(attacked(b, us, j));
            }
        }
        let pt = a[n].piece_type();
        assert(pt == PieceType::Rook || pt == PieceType::Bishop || pt == PieceType::Queen) by {
            if !(pt == PieceType::Rook || pt == PieceType::Bishop || pt == PieceType::Queen) {
                assert(hit_by(a, n, j, o));
            }
        }
        assert(sniper(b, j, us, n));
        if clear(j, n, o) {
            lemma_sniper_hits(b, j, us, n, o);
        }
        let x = choose|x: int| between(j, n, x) && #[trigger] holds(o, x);
        assert(!holds(o1, x));
        assert(x == f && !m.is_drop());
        lemma_nearest_screen(b, j, us, n, f, o1);
        if in_line(f, t, j) {
            lemma_screen_path(v, m, n);
            assert(holds(o1, t));
            assert(false);
        }
    }
}

/// A king that is left out of check does not stand next to the other king.
proof fn lemma_kings_apart(v: PosView, m: Move)
    requires
        v.sound(),
        v.variant.royal_king(),
        ordinary(v, m),
        v.after(m)[m.to()] == king(v.stm),
        !attacked(v.after(m), v.stm.flip(), king_sq(v.after(m), v.stm)),
    ensures
        !king_step(m.to(), v.ksq(v.stm.flip())),
{
    lemma_ordinary_after(v, m);
    let a = v.after(m);
    let b = v.board;
    let us = v.stm;
    let j = v.ksq(us.flip());
    let (f, t) = (m.from(), m.to());
    assert(one_king(b, us));
    assert(is_king_square(b, us, v.ksq(us)));
    assert(!m.is_drop());
    assert(b[f] == king(us)) by {
        if m.is_promotion() {
            assert(m.promotion() != PieceType::King);
        }
    }
    assert(f == v.ksq(us));
    assert(is_king_square(a, us, t));
    assert(king_sq(a, us) == t);
    if king_step(t, j) {
        assert(a[j] == king(us.flip()));
        assert(hit_by(a, j, t, occ(a)));
        assert(attacked(a, us.flip(), t));
    }
}

/// Occupancies that differ on the ends and on a square off the segment agree on it.
proof fn lemma_same_clear_but(x: int, t: int, f: int, o1: u64, o2: u64)
    requires
        on_board(x),
        on_board(t),
        !between(x, t, f),
        forall|y: int| y != t && y != x && y != f ==> #[trigger] holds(o1, y) == holds(o2, y),
    ensures
        clear(x, t, o1) == clear(x, t, o2),
{
    assert forall|y: int| #[trigger] between(x, t, y) implies y != x && y != t && y != f by {
        lemma_between_split(x, t, y);
    }
    if clear(x, t, o1) {
        assert forall|y: int| #[trigger] between(x, t, y) implies !holds(o2, y) by {
            assert(holds(o1, y) == holds(o2, y));
        }
    }
    if clear(x, t, o2) {
        assert forall|y: int| #[trigger] between(x, t, y) implies !holds(o1, y) by {
            assert(holds(o1, y) == holds(o2, y));
        }
    }
}

/// The piece whose leaving opened the line to the slider on `n` was its only screen.
proof fn lemma_nearest_screen(b: Board, j: int, us: Color, n: int, f: int, o1: u64)
    requires
        on_board(j),
        sniper(b, j, us, n),
        between(j, n, f),
        b[f].0 < 12,
        clear(j, n, o1),
        forall|x: int|
            on_board(x) && x != f && #[trigger] b[x].0 < 12 ==> holds(o1, x),
        !attacked(b, us, j),
    ensures
        blocker(b, j, us, f),
{
    let o = occ(b);
    assert(!sniper(b, j, us, f)) by {
        if sniper(b, j, us, f) {
            lemma_between_split(j, n, f);
            assert(clear(j, f, o)) by {
                assert forall|x: int| between(j, f, x) implies !#[trigger] holds(o, x) by {
                    assert(between(j, n, x));
                    lemma_between_split(j, f, x);
                    assert(!holds(o1, x));
                }
            }
            lemma_sniper_hits(b, j, us, f, o);
            assert(attacked(b, us, j));
        }
    }
    assert(shields(b, j, us, n, f));
    assert forall|y: int| #[trigger] shields(b, j, us, n, y) implies y == f by {
        assert(!holds(o1, y));
    }
    assert(sole_shield(b, j, us, n, f));
}

/// Three squares on a line, whichever two name it.
proof fn lemma_line_turn(j: int, f: int, t: int)
    requires
        on_board(j),
        on_board(f),
        on_board(t),
        j != f,
        f != t,
    ensures
        in_line(j, f, t) ==> in_line(f, t, j),
{
}

/// En passant gives check exactly when the check test says so.
#[verifier::spinoff_prover]
#[verifier::rlimit(60)]
proof fn lemma_check_passing(v: PosView, m: Move)
    requires
        v.sound(),
        v.variant.royal_king(),
        v.pseudo(m),
        m.is_en_passant(),
    ensures
        v.check_test(m) <==> attacked(v.after(m), v.stm, king_sq(v.after(m), v.stm.flip())),
{
    lemma_passing_after(v, m);
    let b = v.board;
    let a = v.after(m);
    let us = v.stm;
    let them = us.flip();
    let j = v.ksq(them);
    let (f, t, c) = (m.from(), m.to(), v.capture_square(m));
    let o = occ(b);
    let o1 = occ(a);
    crate::geometry::lemma_pawn_hit_mutual(us, t, j);
    let direct = pawn_hit(us, t, j);
    assert(direct == hit_by(a, t, j, o1));
    assert forall|x: int| #[trigger] v.slider_at(us, j, o1, x) implies hit_by(a, x, j, o1) && owned(
        a[x],
        us,
    ) by {
        lemma_hit_kinds(b, x, j, o1);
    }
    // Whoever gives check is the pawn or a slider.
    assert forall|x: int| on_board(x) && owned(a[x], us) && #[trigger] hit_by(
        a,
        x,
        j,
        o1,
    ) && x != t implies v.slider_at(us, j, o1, x) by {
        assert(x != f && x != c);
        assert(a[x] == b[x]);
        lemma_hit_kinds(a, x, j, o1);
        let pt = a[x].piece_type();
        if !(pt == PieceType::Rook || pt == PieceType::Bishop || pt == PieceType::Queen) {
            assert(hit_by(a, x, j, o));
            assert(hit_by(b, x, j, o));
            assert(attacked(b, us, j));
        }
    }
    if v.slider_hits(us, j, o1) {
        let x = choose|x: int| #[trigger] v.slider_at(us, j, o1, x);
        assert(hit_by(a, x, j, o1));
        assert(attacked(a, us, j));
    }
    if direct {
        assert(attacked(a, us, j));
    }
    assert(attacked(a, us, j) <==> direct || v.slider_hits(us, j, o1)) by {
        if attacked(a, us, j) && !direct {
            let x = choose|x: int| on_board(x) && owned(a[x], us) && #[trigger] hit_by(a, x, j, o1);
            assert(v.slider_at(us, j, o1, x));
        }
    }
    if blocker(b, j, us, f) {
        if !in_line(f, t, j) {
            assert(!in_line(j, f, t)) by {
                lemma_line_turn(j, f, t);
            }
            let r = lemma_discovered(v, j, f, us, a);
            assert(attacked(a, us, j));
        } else if v.slider_hits(us, j, o1) {
            let n = choose|x: int| #[trigger] v.slider_at(us, j, o1, x);
            lemma_hit_kinds(b, n, j, o1);
            assert(!hit_by(b, n, j, o)) by {
                if hit_by(b, n, j, o) {
                    assert(attacked(b, us, j));
                }
            }
            if clear(j, n, o) {
                lemma_sniper_hits(b, j, us, n, o);
            }
            let x = choose|x: int| between(j, n, x) && #[trigger] holds(o, x);
            assert(!holds(o1, x));
            assert(x == f || x == c);
            if between(j, n, f) {
                lemma_line_places(j, n, f, t);
                lemma_lines_differ(f, t);
                assert(holds(o1, t));
                assert(!between(j, n, t));
                assert(t == n || t == j);
                assert(false);
            } else {
                lemma_passing_lines(f, t, c, j, n);
                assert(false);
            }
        }
    }
}

/// The enemy king cannot stand both on the capturing pawn's line and on a line through the
/// captured pawn.
proof fn lemma_passing_lines(f: int, t: int, c: int, j: int, n: int)
    requires
        on_board(f),
        on_board(t),
        on_board(c),
        on_board(j),
        on_board(n),
        rank(c) == rank(f),
        file(c) == file(t),
        crate::geometry::abs(file(f) - file(t)) == 1,
        crate::geometry::abs(rank(f) - rank(t)) == 1,
        in_line(f, t, j),
        j != t,
        j != f,
    ensures
        !between(j, n, c),
{
}

/// Four squares of a rank: the one that is neither beyond nor between is the end itself.
proof fn lemma_rank_order(j: int, f: int, r: int, t: int)
    requires
        on_board(j),
        on_board(f),
        on_board(r),
        on_board(t),
        rank(j) == rank(f),
        rank(r) == rank(f),
        rank(t) == rank(f),
        between(j, r, f),
        t != f,
        t != j,
        !between(j, r, t),
        !between(f, t, r),
        !between(f, t, j),
    ensures
        t == r,
{
}

/// A castling king that screens its rook from the enemy king lets the rook give check.
#[verifier::spinoff_prover]
#[verifier::rlimit(60)]
proof fn lemma_castling_screen(v: PosView, m: Move)
    requires
        v.sound(),
        v.variant.castling_allowed(),
        v.pseudo(m),
        m.is_castling(),
        blocker(v.board, v.ksq(v.stm.flip()), v.stm, m.from()),
    ensures
        rook_line(v.castle_rook_to(m), v.ksq(v.stm.flip())),
        clear(v.castle_rook_to(m), v.ksq(v.stm.flip()), occ(v.after(m))),
{
    lemma_castling_places(v, m);
    lemma_castling_after(v, m);
    let b = v.board;
    let a = v.after(m);
    let us = v.stm;
    let them = us.flip();
    let j = v.ksq(them);
    let (f, t) = (m.from(), m.to());
    let (kto, rto) = (v.castle_king_to(m), v.castle_rook_to(m));
    let o = occ(b);
    let o1 = occ(a);
    assert(b[j].0 < 12);
    assert(j != f && j != t && j != kto && j != rto);
    assert(!between(f, t, j) && !between(f, kto, j) && !between(t, rto, j));
    let n = choose|n: int| #[trigger] sniper(b, j, us, n) && sole_shield(b, j, us, n, f);
    assert(between(j, n, f));
    assert(rank(j) == rank(f) && rank(n) == rank(f));
    let r = lemma_nearest_sniper(b, j, us, n);
    if r != n {
        lemma_between_split(j, n, r);
    }
    assert(rank(r) == rank(f));
    assert(between(j, r, f)) by {
        if !between(j, r, f) {
            assert(r != f) by {
                if r == f {
                    assert(shields(b, j, us, n, f));
                }
            }
            assert(clear(j, r, o)) by {
                assert forall|x: int| between(j, r, x) implies !#[trigger] holds(o, x) by {
                    assert(between(j, n, x));
                    if holds(o, x) {
                        assert(shields(b, j, us, n, x));
                    }
                }
            }
            lemma_sniper_hits(b, j, us, r, o);
            assert(attacked(b, us, j));
        }
    }
    assert forall|x: int| #[trigger] between(j, r, x) implies b[x].0 == 12 || x == f by {
        assert(between(j, n, x));
        if b[x].0 < 12 {
            assert(shields(b, j, us, n, x));
        }
    }
    assert(b[t].0 < 12 && b[r].0 < 12);
    assert(r != f);
    assert(!between(f, t, r)) by {
        if between(f, t, r) {
            lemma_between_split(f, t, r);
        }
    }
    lemma_rank_order(j, f, r, t);
    assert(clear(rto, j, o1)) by {
        assert forall|x: int| between(rto, j, x) implies !#[trigger] holds(o1, x) by {
            if holds(o1, x) {
                assert(x != kto && x != rto);
                assert(holds(o, x) && x != f && x != t);
                assert(between(j, t, x) || between(f, kto, x) || between(t, rto, x));
                assert(b[x].0 < 12);
            }
        }
    }
}

/// Where the enemy king can stand when castling is possible.
proof fn lemma_castling_enemy(v: PosView, m: Move)
    requires
        v.sound(),
        v.variant.castling_allowed(),
        v.pseudo(m),
        m.is_castling(),
    ensures
        ({
            let j = v.ksq(v.stm.flip());
            let (f, t) = (m.from(), m.to());
            let (kto, rto) = (v.castle_king_to(m), v.castle_rook_to(m));
            &&& on_board(j)
            &&& v.board[j] == king(v.stm.flip())
            &&& v.after(m)[j] == v.board[j]
            &&& j != f && j != t && j != kto && j != rto
            &&& !between(f, t, j) && !between(f, kto, j) && !between(t, rto, j)
            &&& !(rook_line(t, j) && clear(t, j, occ(v.board)))
        }),
{
    lemma_castling_places(v, m);
    lemma_castling_after(v, m);
    let b = v.board;
    let us = v.stm;
    let j = v.ksq(us.flip());
    let t = m.to();
    assert(b[j].0 < 12);
    if rook_line(t, j) && clear(t, j, occ(b)) {
        assert(hit_by(b, t, j, occ(b)));
        assert(attacked(b, us, j));
    }
}

/// No piece but the rook gives check by castling.
#[verifier::spinoff_prover]
#[verifier::rlimit(60)]
proof fn lemma_castling_no_other(v: PosView, m: Move, x: int)
    requires
        v.sound(),
        v.variant.castling_allowed(),
        v.pseudo(m),
        m.is_castling(),
        !attacked(v.after(m), v.stm.flip(), king_sq(v.after(m), v.stm)),
        on_board(x),
        owned(v.after(m)[x], v.stm),
        x != v.castle_rook_to(m),
    ensures
        !hit_by(v.after(m), x, v.ksq(v.stm.flip()), occ(v.after(m))),
{
    lemma_castling_places(v, m);
    lemma_castling_after(v, m);
    lemma_castling_enemy(v, m);
    let b = v.board;
    let a = v.after(m);
    let us = v.stm;
    let them = us.flip();
    let j = v.ksq(them);
    let (f, t) = (m.from(), m.to());
    let (kto, rto) = (v.castle_king_to(m), v.castle_rook_to(m));
    let o = occ(b);
    let o1 = occ(a);
    if hit_by(a, x, j, o1) {
        if x == kto {
            assert(king_step(kto, j));
            assert(hit_by(a, j, kto, o1));
            assert(owned(a[j], them));
            assert(attacked(a, them, kto));
            assert(false);
        }
        assert(x != f && x != t);
        assert(a[x] == b[x]);
        lemma_hit_kinds(a, x, j, o1);
        assert(!hit_by(b, x, j, o)) by {
            if hit_by(b, x, j, o) {
                assert(attacked(b, us, j));
            }
        }
        let pt = a[x].piece_type();
        assert(pt == PieceType::Rook || pt == PieceType::Bishop || pt == PieceType::Queen) by {
            if !(pt == PieceType::Rook || pt == PieceType::Bishop || pt == PieceType::Queen) {
                assert(hit_by(a, x, j, o));
            }
        }
        assert(sniper(b, j, us, x));
        if clear(j, x, o) {
            lemma_sniper_hits(b, j, us, x, o);
        }
        let y = choose|y: int| between(j, x, y) && #[trigger] holds(o, y);
        assert(!holds(o1, y));
        assert(y == f || y == t);
        assert(rank(x) == rank(f) && rank(j) == rank(f));
        assert(holds(o1, kto) && holds(o1, rto));
        assert(!between(j, x, kto) && !between(j, x, rto));
        assert(b[x].0 < 12);
        assert(!between(f, t, x) && !between(f, kto, x) && !between(t, rto, x) && x != kto && x
            != rto);
        assert(false);
    }
}

/// A rook check by castling that was not there over the old occupancy comes over the
/// king's square.
#[verifier::spinoff_prover]
#[verifier::rlimit(60)]
proof fn lemma_castling_opens(v: PosView, m: Move)
    requires
        v.sound(),
        v.variant.castling_allowed(),
        v.pseudo(m),
        m.is_castling(),
        rook_line(v.castle_rook_to(m), v.ksq(v.stm.flip())),
        clear(v.castle_rook_to(m), v.ksq(v.stm.flip()), occ(v.after(m))),
        !clear(v.castle_rook_to(m), v.ksq(v.stm.flip()), occ(v.board)),
    ensures
        blocker(v.board, v.ksq(v.stm.flip()), v.stm, m.from()),
{
    lemma_castling_places(v, m);
    lemma_castling_after(v, m);
    lemma_castling_enemy(v, m);
    let b = v.board;
    let a = v.after(m);
    let us = v.stm;
    let j = v.ksq(us.flip());
    let (f, t) = (m.from(), m.to());
    let (kto, rto) = (v.castle_king_to(m), v.castle_rook_to(m));
    let o = occ(b);
    let o1 = occ(a);
    let x = choose|x: int| between(rto, j, x) && #[trigger] holds(o, x);
    assert(!holds(o1, x));
    assert(x == f || x == t);
    assert(rank(j) == rank(f));
    assert(holds(o1, kto));
    assert(!between(rto, j, kto));
    assert(between(rto, j, f));
    // The king was the only screen of the rook.
    assert(between(j, t, f));
    assert(sniper(b, j, us, t));
    assert(shields(b, j, us, t, f));
    assert forall|y: int| #[trigger] shields(b, j, us, t, y) implies y == f by {
        assert(holds(o, y));
        if y != f {
            lemma_between_split(j, t, y);
            assert(between(rto, j, y) || between(f, t, y));
            assert(holds(o1, y));
        }
    }
    assert(sole_shield(b, j, us, t, f));
}

/// A rook check over the old occupancy is not shut out by castling.
#[verifier::spinoff_prover]
#[verifier::rlimit(60)]
proof fn lemma_castling_keeps(v: PosView, m: Move)
    requires
        v.sound(),
        v.variant.castling_allowed(),
        v.pseudo(m),
        m.is_castling(),
        rook_line(v.castle_rook_to(m), v.ksq(v.stm.flip())),
        clear(v.castle_rook_to(m), v.ksq(v.stm.flip()), occ(v.board)),
    ensures
        clear(v.castle_rook_to(m), v.ksq(v.stm.flip()), occ(v.after(m))),
{
    lemma_castling_places(v, m);
    lemma_castling_after(v, m);
    lemma_castling_enemy(v, m);
    let b = v.board;
    let a = v.after(m);
    let us = v.stm;
    let j = v.ksq(us.flip());
    let (f, t) = (m.from(), m.to());
    let (kto, rto) = (v.castle_king_to(m), v.castle_rook_to(m));
    let o = occ(b);
    let o1 = occ(a);
    if !clear(rto, j, o1) {
        let x = choose|x: int| between(rto, j, x) && #[trigger] holds(o1, x);
        assert(x == kto) by {
            assert(!holds(o, x));
            lemma_between_split(rto, j, x);
        }
        assert(rank(j) == rank(f));
        assert(b[t].0 < 12 && b[f].0 < 12);
        assert(holds(o, t) && holds(o, f));
        assert(!between(rto, j, t) && !between(rto, j, f));
        assert(rook_line(t, j));
        assert(clear(t, j, o)) by {
            assert forall|y: int| between(t, j, y) implies !#[trigger] holds(o, y) by {
                if holds(o, y) {
                    assert(b[y].0 < 12);
                    lemma_between_split(t, j, y);
                    assert(between(rto, j, y) || between(t, rto, y) || y == rto || between(f, t, y)
                        || y == f);
                    assert(y != f);
                }
            }
        }
    }
}

/// Castling gives check exactly when the check test says so.
proof fn lemma_check_castling(v: PosView, m: Move)
    requires
        v.sound(),
        v.variant.castling_allowed(),
        v.pseudo(m),
        m.is_castling(),
        !attacked(v.after(m), v.stm.flip(), king_sq(v.after(m), v.stm)),
    ensures
        v.check_test(m) <==> attacked(v.after(m), v.stm, king_sq(v.after(m), v.stm.flip())),
{
    lemma_castling_places(v, m);
    lemma_castling_after(v, m);
    lemma_castling_enemy(v, m);
    let b = v.board;
    let a = v.after(m);
    let us = v.stm;
    let j = v.ksq(us.flip());
    let rto = v.castle_rook_to(m);
    let o = occ(b);
    let o1 = occ(a);
    lemma_line_symmetric(rto, j);
    lemma_clear_symmetric(rto, j, o);
    lemma_clear_symmetric(rto, j, o1);
    let rook_check = rook_line(rto, j) && clear(rto, j, o1);
    assert(rook_check == hit_by(a, rto, j, o1));
    if attacked(a, us, j) {
        let x = choose|x: int| on_board(x) && owned(a[x], us) && #[trigger] hit_by(a, x, j, o1);
        if x != rto {
            lemma_castling_no_other(v, m, x);
        }
    }
    assert(attacked(a, us, j) == rook_check);
    if blocker(b, j, us, m.from()) {
        lemma_castling_screen(v, m);
    } else {
        if rook_check && !clear(rto, j, o) {
            lemma_castling_opens(v, m);
        }
        if rook_line(rto, j) && clear(rto, j, o) {
            lemma_castling_keeps(v, m);
        }
    }
}

/// On a sound position a move that leaves its own king out of check gives check exactly
/// when the check test says so.
pub proof fn check_test_is_exact(v: PosView, m: Move)
    requires
        v.sound(),
        v.variant.royal_king(),
        v.pseudo(m),
        !attacked(v.after(m), v.stm.flip(), king_sq(v.after(m), v.stm)),
    ensures
        v.check_test(m) <==> attacked(v.after(m), v.stm, king_sq(v.after(m), v.stm.flip())),
{
    if m.is_castling() {
        lemma_check_castling(v, m);
    } else if m.is_en_passant() {
        lemma_check_passing(v, m);
    } else {
        lemma_check_ordinary(v, m);
    }
}

/// On a sound position the moves the engine plays are exactly the legal ones.
pub proof fn legal_test_is_exact(v: PosView, m: Move)
    requires
        v.sound(),
    ensures
        (canonical(m) && v.candidate(m) && v.legal_test(m)) <==> v.legal(m),
{
    if v.pseudo(m) {
        if v.variant.royal_king() {
            king_test_is_exact(v, m);
            if !attacked(v.after(m), v.stm.flip(), king_sq(v.after(m), v.stm)) {
                check_test_is_exact(v, m);
            }
        }
    }
}

} // verus!
