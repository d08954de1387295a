//! Pseudo-legal move generation split by stage: captures (including every
//! capture-promotion and quiet queen promotions), quiets (including quiet
//! underpromotions and castling), check evasions, and a fully legal generator for
//! the root and perft. Pinned-piece and king-move legality is left to `Position::legal`.

use vstd::prelude::*;

use crate::bitboard::{
    attacks_bb, between_bb, king_attacks, lemma_masks, lsb, more_than_one, pawn_attacks, pop_lsb,
    shift, test_bit, NORTH_EAST, NORTH_WEST, RANK_1_BB, RANK_2_BB, RANK_3_BB, RANK_6_BB, RANK_7_BB,
    RANK_8_BB, SOUTH_EAST, SOUTH_WEST,
};
use crate::bits::{group_has, holds, lemma_lowest, lemma_size, lowest, size};
use crate::geometry::{abs, between, lemma_pawn_hit_mutual, on_board, pawn_hit, reaches};
use crate::moves::{capture_moves, quiet_moves, 
    adds, canonical, lemma_adds_both, lemma_adds_contains, lemma_adds_none, lemma_adds_push, lemma_adds_same,
};
use crate::position::Position;
use crate::rules::{
    castling_right, hit_by, is_king_square, king, lemma_occ, occ, one_king, owned, pawn,
    single_right, PosView,
};
use crate::types::{
    file, rank, relative_rank, Bitboard, Color, Move, MoveList, MoveType, Piece, PieceType, Square,
    BLACK_OO, BLACK_OOO, SQ_NONE, WHITE_OO, WHITE_OOO,
};
use crate::variant::Variant;

verus! {

broadcast use {group_has, lemma_occ};

#[derive(Clone, Copy, PartialEq, Eq, Structural)]
pub enum GenType {
    Captures,
    Quiets,
    Evasions,
    NonEvasions,
}

// Sets of moves described by a set of destinations

/// Plain moves from one square to the squares of `b`.
pub open spec fn from_one(from: int, b: u64) -> Set<Move> {
    Set::new(|m: Move| m.0 < 4096 && m.from() == from && holds(b, m.to()))
}

/// Plain moves to the squares of `b`, each from `d` squares before.
pub open spec fn stepped(b: u64, d: int) -> Set<Move> {
    Set::new(|m: Move| m.0 < 4096 && holds(b, m.to()) && m.from() == m.to() - d)
}

/// Promotions on the squares of `b`, each from `d` squares before: to a queen, to the
/// other pieces, or both.
pub open spec fn promoting(b: u64, d: int, queen: bool, under: bool) -> Set<Move> {
    Set::new(
        |m: Move|
            m.0 / 16384 == 1 && holds(b, m.to()) && m.from() == m.to() - d && if m.promotion()
                == PieceType::Queen {
                queen
            } else {
                under
            },
    )
}

/// Promotions to a king on the squares of `b`, each from `d` squares before.
pub open spec fn crowning(b: u64, d: int) -> Set<Move> {
    Set::new(|m: Move| m.0 / 4096 == 12 && holds(b, m.to()) && m.from() == m.to() - d)
}

/// En passant captures on `ep` from the squares of `b`.
pub open spec fn passing(b: u64, ep: int) -> Set<Move> {
    Set::new(|m: Move| m.0 / 4096 == 8 && holds(b, m.from()) && m.to() == ep)
}

/// Drops of `pt` on the squares of `b`.
pub open spec fn dropping(b: u64, pt: PieceType) -> Set<Move> {
    Set::new(|m: Move| m.is_drop() && m.drop_piece() == pt && holds(b, m.to()))
}

fn push_from(list: &mut MoveList, from: Square, b: Bitboard)
    requires
        from < 64,
    ensures
        adds(old(list)@, final(list)@, from_one(from as int, b)),
{
    let ghost l0 = list@;
    let mut rest = b;
    proof {
        lemma_adds_none(l0, from_one(from as int, b & !rest));
    }
    while rest != 0
        invariant
            from < 64,
            adds(l0, list@, from_one(from as int, b & !rest)),
            forall|s: int| #[trigger] holds(rest, s) ==> holds(b, s),
        decreases rest,
    {
        let ghost before = rest;
        let to = pop_lsb(&mut rest);
        let m = Move::new(from, to);
        proof {
            let s = from_one(from as int, b & !before);
            lemma_adds_push(l0, list@, s, m);
            assert forall|x: Move| #[trigger] s.insert(m).contains(x) <==> from_one(
                from as int,
                b & !rest,
            ).contains(x) by {
                assert(holds(rest, x.to()) <==> holds(before, x.to()) && x.to() != to);
            }
            lemma_adds_same(
                l0,
                list@.push(m),
                s.insert(m),
                from_one(from as int, b & !rest),
            );
        }
        list.push(m);
    }
    proof {
        lemma_adds_same(l0, list@, from_one(from as int, b & !rest), from_one(from as int, b));
    }
}

fn push_stepped(list: &mut MoveList, b: Bitboard, d: i32)
    requires
        -64 <= d <= 64,
        d != 0,
        forall|s: int| #[trigger] holds(b, s) ==> on_board(s - d),
    ensures
        adds(old(list)@, final(list)@, stepped(b, d as int)),
{
    let ghost l0 = list@;
    let mut rest = b;
    proof {
        lemma_adds_none(l0, stepped(b & !rest, d as int));
    }
    while rest != 0
        invariant
            -64 <= d <= 64,
            forall|s: int| #[trigger] holds(b, s) ==> on_board(s - d),
            adds(l0, list@, stepped(b & !rest, d as int)),
            forall|s: int| #[trigger] holds(rest, s) ==> holds(b, s),
        decreases rest,
    {
        let ghost before = rest;
        let to = pop_lsb(&mut rest);
        let m = Move::new((to as i32 - d) as Square, to);
        proof {
            let s = stepped(b & !before, d as int);
            lemma_adds_push(l0, list@, s, m);
            assert forall|x: Move| #[trigger] s.insert(m).contains(x) <==> stepped(
                b & !rest,
                d as int,
            ).contains(x) by {
                assert(holds(rest, x.to()) <==> holds(before, x.to()) && x.to() != to);
            }
            lemma_adds_same(l0, list@.push(m), s.insert(m), stepped(b & !rest, d as int));
        }
        list.push(m);
    }
    proof {
        lemma_adds_same(l0, list@, stepped(b & !rest, d as int), stepped(b, d as int));
    }
}

/// One promotion move and its code.
fn push_promotion(list: &mut MoveList, from: Square, to: Square, pt: PieceType)
    requires
        from < 64,
        to < 64,
        from != to,
        pt != PieceType::Pawn,
        pt != PieceType::King,
    ensures
        final(list)@ == old(list)@.push(Move::make(from, to, MoveType::Promotion, pt)),
        Move::make(from, to, MoveType::Promotion, pt).0 / 16384 == 1,
        Move::make(from, to, MoveType::Promotion, pt).promotion() == pt,
        Move::make(from, to, MoveType::Promotion, pt).from() == from,
        Move::make(from, to, MoveType::Promotion, pt).to() == to,
{
    list.push(Move::make(from, to, MoveType::Promotion, pt));
}

/// A promotion is known by its squares and its piece.
proof fn lemma_promotion_code(m: Move, from: Square, to: Square, pt: PieceType)
    requires
        from < 64,
        to < 64,
        m.0 / 16384 == 1,
        m.from() == from,
        m.to() == to,
        m.promotion() == pt,
    ensures
        m == Move::make(from, to, MoveType::Promotion, pt),
{
}

#[verifier::spinoff_prover]
#[verifier::rlimit(30)]
fn push_promotions(list: &mut MoveList, b: Bitboard, d: i32, queen: bool, under: bool)
    requires
        -64 <= d <= 64,
        d != 0,
        forall|s: int| #[trigger] holds(b, s) ==> on_board(s - d),
    ensures
        adds(old(list)@, final(list)@, promoting(b, d as int, queen, under)),
{
    let ghost l0 = list@;
    let mut rest = b;
    proof {
        lemma_adds_none(l0, promoting(b & !rest, d as int, queen, under));
    }
    while rest != 0
        invariant
            -64 <= d <= 64,
            d != 0,
            forall|s: int| #[trigger] holds(b, s) ==> on_board(s - d),
            adds(l0, list@, promoting(b & !rest, d as int, queen, under)),
            forall|s: int| #[trigger] holds(rest, s) ==> holds(b, s),
        decreases rest,
    {
        let ghost before = rest;
        let to = pop_lsb(&mut rest);
        let from = (to as i32 - d) as Square;
        let ghost s = promoting(b & !before, d as int, queen, under);
        let ghost mut t = s;
        if queen {
            proof {
                lemma_adds_push(
                    l0,
                    list@,
                    t,
                    Move::make(from, to, MoveType::Promotion, PieceType::Queen),
                );
                t = t.insert(Move::make(from, to, MoveType::Promotion, PieceType::Queen));
            }
            push_promotion(list, from, to, PieceType::Queen);
        }
        if under {
            proof {
                lemma_adds_push(
                    l0,
                    list@,
                    t,
                    Move::make(from, to, MoveType::Promotion, PieceType::Rook),
                );
                t = t.insert(Move::make(from, to, MoveType::Promotion, PieceType::Rook));
            }
            push_promotion(list, from, to, PieceType::Rook);
            proof {
                lemma_adds_push(
                    l0,
                    list@,
                    t,
                    Move::make(from, to, MoveType::Promotion, PieceType::Bishop),
                );
                t = t.insert(Move::make(from, to, MoveType::Promotion, PieceType::Bishop));
            }
            push_promotion(list, from, to, PieceType::Bishop);
            proof {
                lemma_adds_push(
                    l0,
                    list@,
                    t,
                    Move::make(from, to, MoveType::Promotion, PieceType::Knight),
                );
                t = t.insert(Move::make(from, to, MoveType::Promotion, PieceType::Knight));
            }
            push_promotion(list, from, to, PieceType::Knight);
        }
        proof {
            let u = promoting(b & !rest, d as int, queen, under);
            assert forall|x: Move| #[trigger] t.contains(x) <==> u.contains(x) by {
                assert(holds(rest, x.to()) <==> holds(before, x.to()) && x.to() != to);
                if u.contains(x) && x.to() == to {
                    lemma_promotion_code(x, from, to, x.promotion());
                }
            }
            lemma_adds_same(l0, list@, t, u);
        }
    }
    proof {
        lemma_adds_same(
            l0,
            list@,
            promoting(b & !rest, d as int, queen, under),
            promoting(b, d as int, queen, under),
        );
    }
}

fn push_crownings(list: &mut MoveList, b: Bitboard, d: i32)
    requires
        -64 <= d <= 64,
        d != 0,
        forall|s: int| #[trigger] holds(b, s) ==> on_board(s - d),
    ensures
        adds(old(list)@, final(list)@, crowning(b, d as int)),
{
    let ghost l0 = list@;
    let mut rest = b;
    proof {
        lemma_adds_none(l0, crowning(b & !rest, d as int));
    }
    while rest != 0
        invariant
            -64 <= d <= 64,
            forall|s: int| #[trigger] holds(b, s) ==> on_board(s - d),
            adds(l0, list@, crowning(b & !rest, d as int)),
            forall|s: int| #[trigger] holds(rest, s) ==> holds(b, s),
        decreases rest,
    {
        let ghost before = rest;
        let to = pop_lsb(&mut rest);
        let m = Move::make((to as i32 - d) as Square, to, MoveType::Castling, PieceType::Knight);
        proof {
            let s = crowning(b & !before, d as int);
            lemma_adds_push(l0, list@, s, m);
            assert forall|x: Move| #[trigger] s.insert(m).contains(x) <==> crowning(
                b & !rest,
                d as int,
            ).contains(x) by {
                assert(holds(rest, x.to()) <==> holds(before, x.to()) && x.to() != to);
            }
            lemma_adds_same(l0, list@.push(m), s.insert(m), crowning(b & !rest, d as int));
        }
        list.push(m);
    }
    proof {
        lemma_adds_same(l0, list@, crowning(b & !rest, d as int), crowning(b, d as int));
    }
}

fn push_passing(list: &mut MoveList, b: Bitboard, ep: Square)
    requires
        ep < 64,
    ensures
        adds(old(list)@, final(list)@, passing(b, ep as int)),
{
    let ghost l0 = list@;
    let mut rest = b;
    proof {
        lemma_adds_none(l0, passing(b & !rest, ep as int));
    }
    while rest != 0
        invariant
            ep < 64,
            adds(l0, list@, passing(b & !rest, ep as int)),
            forall|s: int| #[trigger] holds(rest, s) ==> holds(b, s),
        decreases rest,
    {
        let ghost before = rest;
        let from = pop_lsb(&mut rest);
        let m = Move::make(from, ep, MoveType::EnPassant, PieceType::Knight);
        proof {
            let s = passing(b & !before, ep as int);
            lemma_adds_push(l0, list@, s, m);
            assert forall|x: Move| #[trigger] s.insert(m).contains(x) <==> passing(
                b & !rest,
                ep as int,
            ).contains(x) by {
                assert(holds(rest, x.from()) <==> holds(before, x.from()) && x.from() != from);
            }
            lemma_adds_same(l0, list@.push(m), s.insert(m), passing(b & !rest, ep as int));
        }
        list.push(m);
    }
    proof {
        lemma_adds_same(l0, list@, passing(b & !rest, ep as int), passing(b, ep as int));
    }
}

fn push_drops(list: &mut MoveList, pt: PieceType, b: Bitboard)
    requires
        pt != PieceType::King,
        pt == PieceType::Pawn ==> !holds(b, 0),
    ensures
        adds(old(list)@, final(list)@, dropping(b, pt)),
{
    let ghost l0 = list@;
    let mut rest = b;
    proof {
        lemma_adds_none(l0, dropping(b & !rest, pt));
    }
    while rest != 0
        invariant
            pt != PieceType::King,
            pt == PieceType::Pawn ==> !holds(b, 0),
            adds(l0, list@, dropping(b & !rest, pt)),
            forall|s: int| #[trigger] holds(rest, s) ==> holds(b, s),
        decreases rest,
    {
        let ghost before = rest;
        let to = pop_lsb(&mut rest);
        let m = Move::drop(pt, to);
        proof {
            let s = dropping(b & !before, pt);
            lemma_adds_push(l0, list@, s, m);
            assert forall|x: Move| #[trigger] s.insert(m).contains(x) <==> dropping(
                b & !rest,
                pt,
            ).contains(x) by {
                assert(holds(rest, x.to()) <==> holds(before, x.to()) && x.to() != to);
            }
            lemma_adds_same(l0, list@.push(m), s.insert(m), dropping(b & !rest, pt));
        }
        list.push(m);
    }
    proof {
        lemma_adds_same(l0, list@, dropping(b & !rest, pt), dropping(b, pt));
    }
}

/// A move belongs to a generation stage.
pub open spec fn in_stage(v: PosView, kind: GenType, m: Move) -> bool {
    match kind {
        GenType::Captures => v.in_capture_stage(m),
        GenType::Quiets => !v.in_capture_stage(m),
        GenType::Evasions => v.evades(m),
        GenType::NonEvasions => true,
    }
}

/// The squares between a king and its checker are empty.
proof fn lemma_checker_clear(v: PosView)
    requires
        v.wf(),
        v.in_check(),
    ensures
        ({
            let c = lowest(v.st().checkers);
            &&& on_board(c)
            &&& owned(v.board[c], v.stm.flip())
            &&& hit_by(v.board, c, v.ksq(v.stm), occ(v.board))
            &&& forall|x: int| #[trigger] between(v.ksq(v.stm), c, x) ==> v.board[x].0 == 12
        }),
{
    lemma_lowest(v.st().checkers);
    let c = lowest(v.st().checkers);
    let k = v.ksq(v.stm);
    assert(holds(v.st().checkers, c));
    assert(one_king(v.board, v.stm));
    crate::geometry::lemma_line_symmetric(k, c);
    crate::geometry::lemma_lines_differ(c, k);
    assert forall|x: int| #[trigger] between(k, c, x) implies v.board[x].0 == 12 by {
        assert(between(c, k, x));
        assert(on_board(x));
        if v.board[x].0 < 12 {
            assert(holds(occ(v.board), x));
        }
    }
}

/// Pawn moves of a stage.
pub open spec fn pawn_stage(v: PosView, kind: GenType) -> Set<Move> {
    Set::new(
        |m: Move|
            canonical(m) && !m.is_drop() && v.board[m.from()] == pawn(v.stm) && v.pseudo(m)
                && in_stage(v, kind, m),
    )
}

/// Pushes, double pushes and their destinations.
fn pawn_pushes(pos: &Position, list: &mut MoveList, mask: Bitboard)
    requires
        pos.wf(),
        pos@.variant.royal_king() || pos@.variant == Variant::Antichess,
    ensures
        adds(
            old(list)@,
            final(list)@,
            Set::new(
                |m: Move|
                    m.0 < 4096 && pos@.board[m.from()] == pawn(pos@.stm) && pos@.pseudo(m)
                        && !pos@.takes(m) && holds(mask, m.to()),
            ),
        ),
{
    let ghost v = pos@;
    let ghost l0 = list@;
    let us = pos.side_to_move();
    let rank7: u64 = match us {
        Color::White => RANK_7_BB,
        Color::Black => RANK_2_BB,
    };
    let rank3: u64 = match us {
        Color::White => RANK_3_BB,
        Color::Black => RANK_6_BB,
    };
    let up: i32 = us.forward();
    let empty = !pos.pieces();
    let pawns = pos.pieces_cp(us, PieceType::Pawn) & !rank7;
    let once = shift(pawns, up) & empty;
    let twice = shift(once & rank3, up) & empty;
    let b1 = once & mask;
    let b2 = twice & mask;
    proof {
        assert forall|s: int| on_board(s) implies (#[trigger] holds(rank7, s) <==> relative_rank(
            us,
            s as u8,
        ) == 6) by {
            lemma_masks(s);
        }
        assert forall|s: int| on_board(s) implies (#[trigger] holds(rank3, s) <==> relative_rank(
            us,
            s as u8,
        ) == 2) by {
            lemma_masks(s);
        }
        assert forall|s: int| #[trigger] holds(twice, s) implies holds(once, s - up) && holds(
            pawns,
            s - 2 * up,
        ) && holds(rank3, s - up) by {
            assert(holds(once & rank3, s - up));
        }
    }
    push_stepped(list, b1, up);
    let ghost l1 = list@;
    push_stepped(list, b2, up + up);
    proof {
        let t = Set::new(
            |m: Move|
                m.0 < 4096 && v.board[m.from()] == pawn(us) && v.pseudo(m) && !v.takes(m) && holds(
                    mask,
                    m.to(),
                ),
        );
        let s1 = stepped(b1, up as int);
        let s2 = stepped(b2, up + up);
        assert forall|m: Move| #[trigger] t.contains(m) <==> s1.contains(m) || s2.contains(m) by {
            let (from, to) = (m.from(), m.to());
            if s2.contains(m) {
                assert(holds(twice, to));
                assert(holds(once, to - up) && holds(pawns, to - 2 * up) && holds(rank3, to - up));
                assert(holds(empty, to - up));
            }
            if s1.contains(m) {
                assert(holds(pawns, to - up));
            }
            if t.contains(m) {
                assert(holds(pawns, from));
                if to == from + up {
                    assert(holds(once, to));
                } else {
                    assert(to == from + 2 * up);
                    assert(holds(once, from + up));
                    assert(holds(once & rank3, from + up));
                    assert(holds(twice, to));
                }
            }
        }
        assert forall|m: Move| #[trigger] s1.contains(m) implies !s2.contains(m) by {}
        lemma_adds_both(l0, l1, list@, s1, s2, t);
    }
}

/// Which squares the two promotion-rank masks and the capture steps mean.
proof fn lemma_pawn_masks(us: Color, rank7: u64)
    requires
        rank7 == (match us {
            Color::White => RANK_7_BB,
            Color::Black => RANK_2_BB,
        }),
    ensures
        forall|s: int|
            on_board(s) ==> (#[trigger] holds(rank7, s) <==> relative_rank(us, s as u8) == 6),
{
    assert forall|s: int| on_board(s) implies (#[trigger] holds(rank7, s) <==> relative_rank(
        us,
        s as u8,
    ) == 6) by {
        lemma_masks(s);
    }
}

/// A pawn capture goes one step to the right or to the left of straight ahead.
proof fn lemma_pawn_hit_steps(us: Color, from: int, to: int)
    requires
        on_board(from),
        on_board(to),
    ensures
        pawn_hit(us, from, to) <==> abs(file(to) - file(from)) <= 1 && (to - from == us.forward()
            + ahead_right(us) || to - from == us.forward() - ahead_right(us)),
{
}

/// Offset of one file to the right, seen from the pawn's side.
spec fn ahead_right(us: Color) -> int {
    match us {
        Color::White => 1,
        Color::Black => -1,
    }
}

/// Plain pawn captures on the squares of `mask`.
fn pawn_takes(pos: &Position, list: &mut MoveList, mask: Bitboard)
    requires
        pos.wf(),
    ensures
        adds(
            old(list)@,
            final(list)@,
            Set::new(
                |m: Move|
                    m.0 < 4096 && pos@.board[m.from()] == pawn(pos@.stm) && pos@.pseudo(m)
                        && pos@.takes(m) && holds(mask, m.to()),
            ),
        ),
{
    let ghost v = pos@;
    let ghost l0 = list@;
    let us = pos.side_to_move();
    let rank7: u64 = match us {
        Color::White => RANK_7_BB,
        Color::Black => RANK_2_BB,
    };
    let right: i32 = match us {
        Color::White => NORTH_EAST,
        Color::Black => SOUTH_WEST,
    };
    let left: i32 = match us {
        Color::White => NORTH_WEST,
        Color::Black => SOUTH_EAST,
    };
    let pawns = pos.pieces_cp(us, PieceType::Pawn) & !rank7;
    let prey = pos.pieces_c(us.flip()) & mask;
    let b1 = shift(pawns, right) & prey;
    let b2 = shift(pawns, left) & prey;
    push_stepped(list, b1, right);
    let ghost l1 = list@;
    push_stepped(list, b2, left);
    proof {
        lemma_pawn_masks(us, rank7);
        let t = Set::new(
            |m: Move|
                m.0 < 4096 && v.board[m.from()] == pawn(us) && v.pseudo(m) && v.takes(m) && holds(
                    mask,
                    m.to(),
                ),
        );
        let s1 = stepped(b1, right as int);
        let s2 = stepped(b2, left as int);
        assert forall|m: Move| #[trigger] t.contains(m) <==> s1.contains(m) || s2.contains(m) by {
            let (from, to) = (m.from(), m.to());
            lemma_pawn_hit_steps(us, from, to);
            if s1.contains(m) {
                assert(holds(pawns, to - right));
                assert(holds(prey, to));
            }
            if s2.contains(m) {
                assert(holds(pawns, to - left));
                assert(holds(prey, to));
            }
            if t.contains(m) {
                assert(holds(pawns, from));
                assert(holds(prey, to));
            }
        }
        lemma_adds_both(l0, l1, list@, s1, s2, t);
    }
}

/// Promotions by capture, or by pushing, onto the squares of `mask`: to a queen, to the
/// other pieces, or both.
pub open spec fn promo_moves(
    v: PosView,
    taking: bool,
    mask: u64,
    queen: bool,
    under: bool,
) -> Set<Move> {
    Set::new(
        |m: Move|
            m.0 / 16384 == 1 && !m.is_drop() && v.board[m.from()] == pawn(v.stm) && v.pseudo(m)
                && v.takes(m) == taking && holds(mask, m.to()) && (if m.promotion()
                == PieceType::Queen {
                queen
            } else {
                under
            }),
    )
}

/// Promotions by capture, or by pushing, onto the squares of `mask`.
fn pawn_promotions(
    pos: &Position,
    list: &mut MoveList,
    taking: bool,
    mask: Bitboard,
    queen: bool,
    under: bool,
)
    requires
        pos.wf(),
    ensures
        adds(old(list)@, final(list)@, promo_moves(pos@, taking, mask, queen, under)),
{
    let ghost v = pos@;
    let ghost l0 = list@;
    let us = pos.side_to_move();
    let rank7: u64 = match us {
        Color::White => RANK_7_BB,
        Color::Black => RANK_2_BB,
    };
    let pawns = pos.pieces_cp(us, PieceType::Pawn) & rank7;
    let ghost t = promo_moves(v, taking, mask, queen, under);
    proof {
        lemma_pawn_masks(us, rank7);
    }
    if taking {
        let right: i32 = match us {
            Color::White => NORTH_EAST,
            Color::Black => SOUTH_WEST,
        };
        let left: i32 = match us {
            Color::White => NORTH_WEST,
            Color::Black => SOUTH_EAST,
        };
        let prey = pos.pieces_c(us.flip()) & mask;
        let b1 = shift(pawns, right) & prey;
        let b2 = shift(pawns, left) & prey;
        push_promotions(list, b1, right, queen, under);
        let ghost l1 = list@;
        push_promotions(list, b2, left, queen, under);
        proof {
            let s1 = promoting(b1, right as int, queen, under);
            let s2 = promoting(b2, left as int, queen, under);
            assert forall|m: Move| #[trigger] t.contains(m) <==> s1.contains(m) || s2.contains(
                m,
            ) by {
                let (from, to) = (m.from(), m.to());
                lemma_pawn_hit_steps(us, from, to);
                if s1.contains(m) {
                    assert(holds(pawns, to - right));
                    assert(holds(prey, to));
                }
                if s2.contains(m) {
                    assert(holds(pawns, to - left));
                    assert(holds(prey, to));
                }
                if t.contains(m) {
                    assert(holds(pawns, from));
                    assert(holds(prey, to));
                }
            }
            lemma_adds_both(l0, l1, list@, s1, s2, t);
        }
    } else {
        let up: i32 = us.forward();
        let b = shift(pawns, up) & !pos.pieces() & mask;
        push_promotions(list, b, up, queen, under);
        proof {
            let s1 = promoting(b, up as int, queen, under);
            assert forall|m: Move| #[trigger] s1.contains(m) <==> t.contains(m) by {
                let (from, to) = (m.from(), m.to());
                if s1.contains(m) {
                    assert(holds(pawns, to - up));
                }
                if t.contains(m) {
                    assert(holds(pawns, from));
                }
            }
            lemma_adds_same(l0, list@, s1, t);
        }
    }
}

/// En passant captures.
fn pawn_passing(pos: &Position, list: &mut MoveList)
    requires
        pos.wf(),
    ensures
        adds(
            old(list)@,
            final(list)@,
            Set::new(
                |m: Move|
                    m.is_en_passant() && pos@.board[m.from()] == pawn(pos@.stm) && pos@.pseudo(m),
            ),
        ),
{
    let ghost v = pos@;
    let ghost l0 = list@;
    let us = pos.side_to_move();
    let ep = pos.ep_square();
    let ghost t = Set::new(
        |m: Move| m.is_en_passant() && v.board[m.from()] == pawn(us) && v.pseudo(m),
    );
    if ep != SQ_NONE {
        let b = pos.pieces_cp(us, PieceType::Pawn) & pawn_attacks(us.flip(), ep);
        push_passing(list, b, ep);
        proof {
            let s1 = passing(b, ep as int);
            assert forall|m: Move| #[trigger] s1.contains(m) <==> t.contains(m) by {
                lemma_pawn_hit_mutual(us, m.from(), ep as int);
            }
            lemma_adds_same(l0, list@, s1, t);
        }
    } else {
        proof {
            lemma_adds_none(l0, t);
        }
    }
}

fn generate_pawn_moves(pos: &Position, list: &mut MoveList, target: Bitboard, kind: GenType)
    requires
        pos.wf(),
        pos@.variant.royal_king(),
        kind == GenType::Evasions ==> {
            &&& pos@.in_check()
            &&& size(pos@.st().checkers) < 2
            &&& forall|x: int| #[trigger]
                holds(target, x) <==> pos@.answers(lowest(pos@.st().checkers), x)
        },
    ensures
        adds(old(list)@, final(list)@, pawn_stage(pos@, kind)),
{
    let ghost v = pos@;
    let ghost l0 = list@;
    let us = pos.side_to_move();
    let all: u64 = 0xffff_ffff_ffff_ffff;
    let mask: u64 = if kind == GenType::Evasions {
        target
    } else {
        all
    };
    proof {
        assert forall|s: int| #[trigger] holds(all, s) <==> on_board(s) by {
            crate::bits::lemma_full(s);
        }
        assert(v.board[v.ksq(us)] == king(us)) by {
            assert(one_king(v.board, us));
        }
        if kind == GenType::Evasions {
            lemma_checker_clear(v);
        }
    }
    let quiet = kind != GenType::Captures;
    let taking = kind != GenType::Quiets;
    let every = kind == GenType::Evasions || kind == GenType::NonEvasions;
    // Single and double pushes (no promotions)
    let ghost s1 = Set::new(
        |m: Move|
            quiet && m.0 < 4096 && v.board[m.from()] == pawn(us) && v.pseudo(m) && !v.takes(m)
                && holds(mask, m.to()),
    );
    if quiet {
        pawn_pushes(pos, list, mask);
        proof {
            let s = Set::new(
                |m: Move|
                    m.0 < 4096 && v.board[m.from()] == pawn(us) && v.pseudo(m) && !v.takes(m)
                        && holds(mask, m.to()),
            );
            lemma_adds_same(l0, list@, s, s1);
        }
    } else {
        proof {
            lemma_adds_none(l0, s1);
        }
    }
    let ghost l1 = list@;
    // Promotions
    let ghost s2 = Set::new(
        |m: Move|
            taking && m.0 / 16384 == 1 && !m.is_drop() && v.board[m.from()] == pawn(us) && v.pseudo(
                m,
            ) && v.takes(m) && holds(mask, m.to()),
    );
    if taking {
        pawn_promotions(pos, list, true, mask, true, true);
        proof {
            let s = promo_moves(v, true, mask, true, true);
            lemma_adds_same(l1, list@, s, s2);
        }
    } else {
        proof {
            lemma_adds_none(l1, s2);
        }
    }
    let ghost l2 = list@;
    let ghost s3 = promo_moves(
        v,
        false,
        mask,
        kind != GenType::Quiets,
        kind != GenType::Captures,
    );
    pawn_promotions(
        pos,
        list,
        false,
        mask,
        kind != GenType::Quiets,
        kind != GenType::Captures,
    );
    let ghost l3 = list@;
    // Captures and en passant
    let ghost s4 = Set::new(
        |m: Move|
            taking && m.0 < 4096 && v.board[m.from()] == pawn(us) && v.pseudo(m) && v.takes(m)
                && holds(mask, m.to()),
    );
    if taking {
        pawn_takes(pos, list, mask);
        proof {
            let s = Set::new(
                |m: Move|
                    m.0 < 4096 && v.board[m.from()] == pawn(us) && v.pseudo(m) && v.takes(m)
                        && holds(mask, m.to()),
            );
            lemma_adds_same(l3, list@, s, s4);
        }
    } else {
        proof {
            lemma_adds_none(l3, s4);
        }
    }
    let ghost l4 = list@;
    let ep = pos.ep_square();
    // A check over the double-pushed pawn's origin square is a discovered one that en
    // passant cannot resolve.
    let resolved = !(kind == GenType::Evasions && ep != SQ_NONE && test_bit(
        target,
        (if ep < 64 {
            ep as i32 + us.forward()
        } else {
            0
        }) as Square,
    ));
    let ghost s5 = Set::new(
        |m: Move|
            taking && resolved && m.is_en_passant() && v.board[m.from()] == pawn(us) && v.pseudo(m),
    );
    if taking && resolved {
        pawn_passing(pos, list);
        proof {
            let s = Set::new(
                |m: Move| m.is_en_passant() && v.board[m.from()] == pawn(us) && v.pseudo(m),
            );
            lemma_adds_same(l4, list@, s, s5);
        }
    } else {
        proof {
            lemma_adds_none(l4, s5);
        }
    }
    proof {
        let u12 = s1.union(s2);
        let u13 = u12.union(s3);
        let u14 = u13.union(s4);
        let u15 = u14.union(s5);
        lemma_adds_both(l0, l1, l2, s1, s2, u12);
        lemma_adds_both(l0, l2, l3, u12, s3, u13);
        lemma_adds_both(l0, l3, l4, u13, s4, u14);
        lemma_adds_both(l0, l4, list@, u14, s5, u15);
        let t = pawn_stage(v, kind);
        assert forall|m: Move| #[trigger] u15.contains(m) <==> t.contains(m) by {
            if t.contains(m) {
                assert(v.pseudo(m));
                assert(m.to() < 64);
                if kind == GenType::Evasions {
                    assert(v.evades(m));
                }
            }
            if kind == GenType::Evasions && u15.contains(m) {
                assert(v.evades(m));
            }
        }
        lemma_adds_same(l0, list@, u15, t);
    }
}

/// Moves of the pieces of type `pt` onto the squares of `target`.
pub open spec fn piece_moves(v: PosView, pt: PieceType, target: u64) -> Set<Move> {
    Set::new(
        |m: Move|
            m.0 < 4096 && v.board[m.from()] == Piece::make(v.stm, pt) && reaches(
                pt,
                m.from(),
                m.to(),
                occ(v.board),
            ) && holds(target, m.to()),
    )
}

fn generate_piece_moves(pos: &Position, pt: PieceType, list: &mut MoveList, target: Bitboard)
    requires
        pos.wf(),
    ensures
        adds(old(list)@, final(list)@, piece_moves(pos@, pt, target)),
{
    let ghost v = pos@;
    let ghost l0 = list@;
    let us = pos.side_to_move();
    let mut bb = pos.pieces_cp(us, pt);
    let ghost all = bb;
    let occupied = pos.pieces();
    let ghost t = piece_moves(v, pt, target);
    let ghost mut done = t.intersect(Set::new(|m: Move| !holds(bb, m.from())));
    proof {
        lemma_adds_none(l0, done);
    }
    while bb != 0
        invariant
            pos.wf(),
            v == pos@,
            us == v.stm,
            occupied == occ(v.board),
            t == piece_moves(v, pt, target),
            forall|s: int| #[trigger]
                holds(all, s) <==> on_board(s) && v.board[s] == Piece::make(us, pt),
            forall|s: int| #[trigger] holds(bb, s) ==> holds(all, s),
            forall|m: Move| #[trigger]
                done.contains(m) <==> t.contains(m) && !holds(bb, m.from()),
            adds(l0, list@, done),
        decreases bb,
    {
        let ghost before = bb;
        let from = pop_lsb(&mut bb);
        let b = attacks_bb(pt, from, occupied) & target;
        let ghost l1 = list@;
        push_from(list, from, b);
        proof {
            let s = from_one(from as int, b);
            let next = t.intersect(Set::new(|m: Move| !holds(bb, m.from())));
            assert forall|m: Move| #[trigger] next.contains(m) <==> done.contains(m) || s.contains(
                m,
            ) by {
                assert(holds(bb, m.from()) <==> holds(before, m.from()) && m.from() != from);
                if s.contains(m) {
                    assert(holds(all, from as int));
                }
            }
            lemma_adds_both(l0, l1, list@, done, s, next);
            done = next;
        }
    }
    proof {
        lemma_adds_same(l0, list@, done, t);
    }
}

/// All moves of a stage.
pub open spec fn stage(v: PosView, kind: GenType) -> Set<Move> {
    Set::new(|m: Move| canonical(m) && v.pseudo(m) && in_stage(v, kind, m))
}

/// Knight, bishop, rook and queen moves onto the squares of `target`.
pub open spec fn officer_moves(v: PosView, target: u64) -> Set<Move> {
    Set::new(
        |m: Move|
            m.0 < 4096 && owned(v.board[m.from()], v.stm) && v.board[m.from()].piece_type()
                != PieceType::Pawn && v.board[m.from()].piece_type() != PieceType::King && reaches(
                v.board[m.from()].piece_type(),
                m.from(),
                m.to(),
                occ(v.board),
            ) && holds(target, m.to()),
    )
}

fn generate_officers(pos: &Position, list: &mut MoveList, target: Bitboard)
    requires
        pos.wf(),
    ensures
        adds(old(list)@, final(list)@, officer_moves(pos@, target)),
{
    let ghost v = pos@;
    let ghost l0 = list@;
    generate_piece_moves(pos, PieceType::Knight, list, target);
    let ghost l1 = list@;
    generate_piece_moves(pos, PieceType::Bishop, list, target);
    let ghost l2 = list@;
    generate_piece_moves(pos, PieceType::Rook, list, target);
    let ghost l3 = list@;
    generate_piece_moves(pos, PieceType::Queen, list, target);
    proof {
        let s1 = piece_moves(v, PieceType::Knight, target);
        let s2 = piece_moves(v, PieceType::Bishop, target);
        let s3 = piece_moves(v, PieceType::Rook, target);
        let s4 = piece_moves(v, PieceType::Queen, target);
        let u2 = s1.union(s2);
        let u3 = u2.union(s3);
        lemma_adds_both(l0, l1, l2, s1, s2, u2);
        lemma_adds_both(l0, l2, l3, u2, s3, u3);
        lemma_adds_both(l0, l3, list@, u3, s4, officer_moves(v, target));
    }
}

/// Castling moves.
pub open spec fn castling_moves(v: PosView) -> Set<Move> {
    Set::new(|m: Move| m.is_castling() && v.pseudo(m))
}

/// Castling by one right, if it is there and nothing stands in the way.
fn generate_castling(pos: &Position, list: &mut MoveList, ksq: Square, cr: u8)
    requires
        pos.wf(),
        pos@.variant.castling_allowed(),
        single_right(cr),
        crate::rules::right_color(cr) == pos@.stm,
        ksq == pos@.ksq(pos@.stm),
        ksq < 64,
        pos@.board[ksq as int] == king(pos@.stm),
    ensures
        adds(
            old(list)@,
            final(list)@,
            castling_moves(pos@).intersect(
                Set::new(
                    |m: Move|
                        castling_right(pos@.stm, m.to() > m.from()) == cr,
                ),
            ),
        ),
{
    let ghost v = pos@;
    let ghost l0 = list@;
    let ghost t = castling_moves(v).intersect(
        Set::new(|m: Move| castling_right(v.stm, m.to() > m.from()) == cr),
    );
    let able = pos.can_castle(cr);
    let free = able && !pos.castling_impeded(cr);
    proof {
        if able {
            assert(v.has_right(cr));
            assert(v.right_ok(cr));
        }
    }
    if free {
        let m = Move::make(
            ksq,
            pos.castling_rook_square(cr),
            MoveType::Castling,
            PieceType::Knight,
        );
        proof {
            assert(castling_right(v.stm, m.to() > m.from()) == cr);
            assert(v.castling_free(m));
            let e = Set::<Move>::empty();
            lemma_adds_none(l0, e);
            lemma_adds_push(l0, list@, e, m);
            assert forall|x: Move| #[trigger] e.insert(m).contains(x) <==> t.contains(x) by {}
            lemma_adds_same(l0, list@.push(m), e.insert(m), t);
        }
        list.push(m);
    } else {
        proof {
            assert forall|x: Move| !#[trigger] t.contains(x) by {
                if t.contains(x) {
                    assert(v.castling_free(x));
                }
            }
            lemma_adds_none(l0, t);
        }
    }
}

/// Drops onto the squares of `target` (pawns not on the outer ranks).
pub open spec fn drop_moves(v: PosView, target: u64) -> Set<Move> {
    Set::new(|m: Move| m.is_drop() && v.pseudo(m) && holds(target, m.to()))
}

fn generate_drops(pos: &Position, list: &mut MoveList, target: Bitboard)
    requires
        pos.wf(),
        pos@.variant == Variant::Crazyhouse,
        forall|s: int| #[trigger] holds(target, s) ==> pos@.board[s].0 == 12,
    ensures
        adds(old(list)@, final(list)@, drop_moves(pos@, target)),
{
    let ghost v = pos@;
    let ghost l0 = list@;
    let us = pos.side_to_move();
    let kinds: [PieceType; 5] = [
        PieceType::Pawn,
        PieceType::Knight,
        PieceType::Bishop,
        PieceType::Rook,
        PieceType::Queen,
    ];
    let ghost t = drop_moves(v, target);
    let ghost mut done = Set::<Move>::empty();
    proof {
        lemma_adds_none(l0, done);
    }
    let mut i: usize = 0;
    while i < 5
        invariant
            i <= 5,
            pos.wf(),
            v == pos@,
            us == v.stm,
            v.variant == Variant::Crazyhouse,
            t == drop_moves(v, target),
            kinds@ == seq![
                PieceType::Pawn,
                PieceType::Knight,
                PieceType::Bishop,
                PieceType::Rook,
                PieceType::Queen,
            ],
            forall|s: int| #[trigger] holds(target, s) ==> v.board[s].0 == 12,
            forall|m: Move| #[trigger]
                done.contains(m) <==> t.contains(m) && m.drop_piece().idx() < i,
            adds(l0, list@, done),
        decreases 5 - i,
    {
        let pt = kinds[i];
        assert(pt.idx() == i);
        let ghost next = t.intersect(Set::new(|m: Move| m.drop_piece().idx() < i + 1));
        if pos.hand(us, pt) != 0 {
            let outer: u64 = if pt == PieceType::Pawn {
                RANK_1_BB | RANK_8_BB
            } else {
                0
            };
            let b = target & !outer;
            proof {
                assert forall|s: int| on_board(s) implies (#[trigger] holds(outer, s) <==> pt
                    == PieceType::Pawn && (rank(s) == 0 || rank(s) == 7)) by {
                    lemma_masks(s);
                }
            }
            let ghost l1 = list@;
            push_drops(list, pt, b);
            proof {
                let s = dropping(b, pt);
                assert forall|m: Move| #[trigger] next.contains(m) <==> done.contains(m)
                    || s.contains(m) by {}
                lemma_adds_both(l0, l1, list@, done, s, next);
            }
        } else {
            proof {
                assert forall|m: Move| #[trigger] done.contains(m) <==> next.contains(m) by {}
                lemma_adds_same(l0, list@, done, next);
            }
        }
        proof {
            done = next;
        }
        i += 1;
    }
    proof {
        lemma_adds_same(l0, list@, done, t);
    }
}

/// All moves of a stage, royal games.
#[verifier::rlimit(40)]
fn generate(pos: &Position, list: &mut MoveList, kind: GenType)
    requires
        pos.wf(),
        pos@.variant.royal_king(),
        kind == GenType::Evasions <==> pos@.in_check(),
    ensures
        adds(old(list)@, final(list)@, stage(pos@, kind)),
{
    let ghost v = pos@;
    let ghost l0 = list@;
    let us = pos.side_to_move();
    proof {
        assert(v.board[v.ksq(us)] == king(us) && is_king_square(v.board, us, v.ksq(us))) by {
            assert(one_king(v.board, us));
        }
    }
    let ksq = pos.king_square(us);
    let checkers = pos.checkers();
    let evading = kind == GenType::Evasions;
    let double_check = evading && more_than_one(checkers);
    let king_target: u64 = match kind {
        GenType::Evasions | GenType::NonEvasions => !pos.pieces_c(us),
        GenType::Captures => pos.pieces_c(us.flip()),
        GenType::Quiets => !pos.pieces(),
    };
    let answer: u64 = if evading {
        between_bb(ksq, lsb(checkers))
    } else {
        0xffff_ffff_ffff_ffff
    };
    let target = king_target & answer;
    proof {
        assert forall|s: int| evading || (#[trigger] holds(answer, s) <==> on_board(s)) by {
            crate::bits::lemma_full(s);
        }
        if evading {
            lemma_checker_clear(v);
            lemma_size(checkers);
        }
    }
    // Double check: only the king may move.
    let ghost s1 = Set::new(|m: Move| !double_check && pawn_stage(v, kind).contains(m));
    let ghost s2 = Set::new(|m: Move| !double_check && officer_moves(v, target).contains(m));
    if !double_check {
        generate_pawn_moves(pos, list, answer, kind);
        proof {
            lemma_adds_same(l0, list@, pawn_stage(v, kind), s1);
        }
    } else {
        proof {
            lemma_adds_none(l0, s1);
        }
    }
    let ghost l1 = list@;
    if !double_check {
        generate_officers(pos, list, target);
        proof {
            lemma_adds_same(l1, list@, officer_moves(v, target), s2);
        }
    } else {
        proof {
            lemma_adds_none(l1, s2);
        }
    }
    let ghost l2 = list@;
    let steps = king_attacks(ksq) & king_target;
    push_from(list, ksq, steps);
    let ghost s3 = from_one(ksq as int, steps);
    let ghost l3 = list@;
    let castles = (kind == GenType::Quiets || kind == GenType::NonEvasions)
        && pos.variant().castling_allowed();
    let ghost s4 = Set::new(|m: Move| castles && castling_moves(v).contains(m));
    if castles {
        let (oo, ooo): (u8, u8) = match us {
            Color::White => (WHITE_OO, WHITE_OOO),
            Color::Black => (BLACK_OO, BLACK_OOO),
        };
        let ghost c1 = castling_moves(v).intersect(
            Set::new(|m: Move| castling_right(v.stm, m.to() > m.from()) == oo),
        );
        let ghost c2 = castling_moves(v).intersect(
            Set::new(|m: Move| castling_right(v.stm, m.to() > m.from()) == ooo),
        );
        generate_castling(pos, list, ksq, oo);
        let ghost l31 = list@;
        generate_castling(pos, list, ksq, ooo);
        proof {
            lemma_adds_both(l3, l31, list@, c1, c2, s4);
        }
    } else {
        proof {
            assert forall|m: Move| !#[trigger] s4.contains(m) by {}
            lemma_adds_none(l3, s4);
        }
    }
    let ghost l4 = list@;
    // Crazyhouse drops: any empty square, or only blocking squares against a single check.
    let drops = pos.variant() == Variant::Crazyhouse && kind != GenType::Captures && !double_check;
    let open = !pos.pieces() & answer;
    let ghost s5 = Set::new(|m: Move| drops && drop_moves(v, open).contains(m));
    if drops {
        generate_drops(pos, list, open);
        proof {
            lemma_adds_same(l4, list@, drop_moves(v, open), s5);
        }
    } else {
        proof {
            lemma_adds_none(l4, s5);
        }
    }
    proof {
        let u2 = s1.union(s2);
        let u3 = u2.union(s3);
        let u4 = u3.union(s4);
        let u5 = u4.union(s5);
        lemma_adds_both(l0, l1, l2, s1, s2, u2);
        lemma_adds_both(l0, l2, l3, u2, s3, u3);
        lemma_adds_both(l0, l3, l4, u3, s4, u4);
        lemma_adds_both(l0, l4, list@, u4, s5, u5);
        let t = stage(v, kind);
        assert forall|m: Move| #[trigger] u5.contains(m) <==> t.contains(m) by {
            let (from, to) = (m.from(), m.to());
            if t.contains(m) && !m.is_drop() && owned(v.board[from], us) {
                if v.board[from].piece_type() == PieceType::King {
                    assert(from == ksq);
                }
            }
            if t.contains(m) && evading {
                assert(v.evades(m));
            }
            if u5.contains(m) && evading {
                assert(v.evades(m));
            }
        }
        lemma_adds_same(l0, list@, u5, t);
    }
}

// Antichess: the king is an ordinary piece, pawns may promote to a king (encoded with the
// otherwise unused castling move type), and captures are compulsory.

/// Promotions to a king, by capture or by pushing.
pub open spec fn crown_moves(v: PosView, taking: bool) -> Set<Move> {
    Set::new(
        |m: Move|
            m.is_castling() && v.board[m.from()] == pawn(v.stm) && v.pseudo(m) && v.takes(m)
                == taking,
    )
}

fn pawn_crownings(pos: &Position, list: &mut MoveList, taking: bool)
    requires
        pos.wf(),
        pos@.variant == Variant::Antichess,
    ensures
        adds(old(list)@, final(list)@, crown_moves(pos@, taking)),
{
    let ghost v = pos@;
    let ghost l0 = list@;
    let us = pos.side_to_move();
    let rank7: u64 = match us {
        Color::White => RANK_7_BB,
        Color::Black => RANK_2_BB,
    };
    let pawns = pos.pieces_cp(us, PieceType::Pawn) & rank7;
    let ghost t = crown_moves(v, taking);
    proof {
        lemma_pawn_masks(us, rank7);
    }
    if taking {
        let right: i32 = match us {
            Color::White => NORTH_EAST,
            Color::Black => SOUTH_WEST,
        };
        let left: i32 = match us {
            Color::White => NORTH_WEST,
            Color::Black => SOUTH_EAST,
        };
        let prey = pos.pieces_c(us.flip());
        let b1 = shift(pawns, right) & prey;
        let b2 = shift(pawns, left) & prey;
        push_crownings(list, b1, right);
        let ghost l1 = list@;
        push_crownings(list, b2, left);
        proof {
            let s1 = crowning(b1, right as int);
            let s2 = crowning(b2, left as int);
            assert forall|m: Move| #[trigger] t.contains(m) <==> s1.contains(m) || s2.contains(
                m,
            ) by {
                let (from, to) = (m.from(), m.to());
                lemma_pawn_hit_steps(us, from, to);
                if s1.contains(m) {
                    assert(holds(pawns, to - right));
                    assert(holds(prey, to));
                }
                if s2.contains(m) {
                    assert(holds(pawns, to - left));
                    assert(holds(prey, to));
                }
                if t.contains(m) {
                    assert(holds(pawns, from));
                    assert(holds(prey, to));
                }
            }
            lemma_adds_both(l0, l1, list@, s1, s2, t);
        }
    } else {
        let up: i32 = us.forward();
        let b = shift(pawns, up) & !pos.pieces();
        push_crownings(list, b, up);
        proof {
            let s1 = crowning(b, up as int);
            assert forall|m: Move| #[trigger] s1.contains(m) <==> t.contains(m) by {
                let (from, to) = (m.from(), m.to());
                if s1.contains(m) {
                    assert(holds(pawns, to - up));
                }
                if t.contains(m) {
                    assert(holds(pawns, from));
                }
            }
            lemma_adds_same(l0, list@, s1, t);
        }
    }
}

/// Antichess moves that take, or that do not.
pub open spec fn anti_moves(v: PosView, taking: bool) -> Set<Move> {
    Set::new(|m: Move| canonical(m) && v.pseudo(m) && v.takes(m) == taking)
}

fn generate_antichess(pos: &Position, list: &mut MoveList, taking: bool)
    requires
        pos.wf(),
        pos@.variant == Variant::Antichess,
    ensures
        adds(old(list)@, final(list)@, anti_moves(pos@, taking)),
{
    let ghost v = pos@;
    let ghost l0 = list@;
    let us = pos.side_to_move();
    let all: u64 = 0xffff_ffff_ffff_ffff;
    proof {
        assert forall|s: int| #[trigger] holds(all, s) <==> on_board(s) by {
            crate::bits::lemma_full(s);
        }
    }
    let target: u64 = if taking {
        pos.pieces_c(us.flip())
    } else {
        !pos.pieces()
    };
    let ghost s1 = Set::new(
        |m: Move|
            m.0 < 4096 && v.board[m.from()] == pawn(us) && v.pseudo(m) && v.takes(m) == taking,
    );
    if taking {
        pawn_takes(pos, list, all);
        proof {
            let s = Set::new(
                |m: Move|
                    m.0 < 4096 && v.board[m.from()] == pawn(us) && v.pseudo(m) && v.takes(m)
                        && holds(all, m.to()),
            );
            lemma_adds_same(l0, list@, s, s1);
        }
    } else {
        pawn_pushes(pos, list, all);
        proof {
            let s = Set::new(
                |m: Move|
                    m.0 < 4096 && v.board[m.from()] == pawn(us) && v.pseudo(m) && !v.takes(m)
                        && holds(all, m.to()),
            );
            lemma_adds_same(l0, list@, s, s1);
        }
    }
    let ghost l1 = list@;
    pawn_promotions(pos, list, taking, all, true, true);
    let ghost s2 = promo_moves(v, taking, all, true, true);
    let ghost l2 = list@;
    pawn_crownings(pos, list, taking);
    let ghost s3 = crown_moves(v, taking);
    let ghost l3 = list@;
    let ghost s4 = Set::new(
        |m: Move| taking && m.is_en_passant() && v.board[m.from()] == pawn(us) && v.pseudo(m),
    );
    if taking {
        pawn_passing(pos, list);
        proof {
            let s = Set::new(
                |m: Move| m.is_en_passant() && v.board[m.from()] == pawn(us) && v.pseudo(m),
            );
            lemma_adds_same(l3, list@, s, s4);
        }
    } else {
        proof {
            lemma_adds_none(l3, s4);
        }
    }
    let ghost l4 = list@;
    generate_officers(pos, list, target);
    let ghost s5 = officer_moves(v, target);
    let ghost l5 = list@;
    generate_piece_moves(pos, PieceType::King, list, target);
    let ghost s6 = piece_moves(v, PieceType::King, target);
    proof {
        let u2 = s1.union(s2);
        let u3 = u2.union(s3);
        let u4 = u3.union(s4);
        let u5 = u4.union(s5);
        let u6 = u5.union(s6);
        lemma_adds_both(l0, l1, l2, s1, s2, u2);
        lemma_adds_both(l0, l2, l3, u2, s3, u3);
        lemma_adds_both(l0, l3, l4, u3, s4, u4);
        lemma_adds_both(l0, l4, l5, u4, s5, u5);
        lemma_adds_both(l0, l5, list@, u5, s6, u6);
        let t = anti_moves(v, taking);
        assert forall|m: Move| #[trigger] u6.contains(m) <==> t.contains(m) by {}
        lemma_adds_same(l0, list@, u6, t);
    }
}

/// Captures, en passant, every capture-promotion, and (antichess aside) quiet queen
/// promotions.
pub fn generate_captures(pos: &Position, list: &mut MoveList)
    requires
        pos.wf(),
        !pos@.in_check(),
    ensures
        adds(old(list)@, final(list)@, capture_moves(pos@)),
{
    let ghost l0 = list@;
    let ghost t = capture_moves(pos@);
    if pos.variant() == Variant::Antichess {
        generate_antichess(pos, list, true);
        proof {
            lemma_adds_same(l0, list@, anti_moves(pos@, true), t);
        }
        return ;
    }
    generate(pos, list, GenType::Captures);
    proof {
        lemma_adds_same(l0, list@, stage(pos@, GenType::Captures), t);
    }
}

/// Non-capturing moves: pushes, piece moves, castling, drops and quiet underpromotions.
/// Empty in antichess while a capture is available.
pub fn generate_quiets(pos: &Position, list: &mut MoveList)
    requires
        pos.wf(),
        !pos@.in_check(),
    ensures
        adds(old(list)@, final(list)@, quiet_moves(pos@)),
{
    let ghost l0 = list@;
    let ghost t = quiet_moves(pos@);
    if pos.variant() == Variant::Antichess {
        if !pos.must_capture() {
            generate_antichess(pos, list, false);
            proof {
                lemma_adds_same(l0, list@, anti_moves(pos@, false), t);
            }
        } else {
            proof {
                lemma_adds_none(l0, t);
            }
        }
        return ;
    }
    generate(pos, list, GenType::Quiets);
    proof {
        lemma_adds_same(l0, list@, stage(pos@, GenType::Quiets), t);
    }
}

/// The moves worth looking at.
pub open spec fn candidates(v: PosView) -> Set<Move> {
    Set::new(|m: Move| canonical(m) && v.candidate(m))
}

/// All pseudo-legal moves when not in check (only the captures in antichess when one exists).
pub fn generate_all(pos: &Position, list: &mut MoveList)
    requires
        pos.wf(),
        !pos@.in_check(),
    ensures
        adds(old(list)@, final(list)@, candidates(pos@)),
{
    let ghost l0 = list@;
    let ghost v = pos@;
    let ghost t = candidates(v);
    if pos.variant() == Variant::Antichess {
        generate_antichess(pos, list, true);
        if pos.must_capture() {
            proof {
                lemma_adds_same(l0, list@, anti_moves(v, true), t);
            }
        } else {
            let ghost l1 = list@;
            generate_antichess(pos, list, false);
            proof {
                lemma_adds_both(l0, l1, list@, anti_moves(v, true), anti_moves(v, false), t);
            }
        }
        return ;
    }
    generate(pos, list, GenType::NonEvasions);
    proof {
        lemma_adds_same(l0, list@, stage(v, GenType::NonEvasions), t);
    }
}

/// Pseudo-legal check evasions (king moves, blocks, captures of the checker); in antichess,
/// where there is no check, all candidates.
pub fn generate_evasions(pos: &Position, list: &mut MoveList)
    requires
        pos.wf(),
        pos@.variant.royal_king() ==> pos@.in_check(),
    ensures
        adds(old(list)@, final(list)@, candidates(pos@)),
{
    if pos.variant() == Variant::Antichess {
        return generate_all(pos, list);
    }
    let ghost l0 = list@;
    generate(pos, list, GenType::Evasions);
    proof {
        lemma_adds_same(l0, list@, stage(pos@, GenType::Evasions), candidates(pos@));
    }
}

/// The moves the legality test lets through.
pub open spec fn tested(v: PosView) -> Set<Move> {
    Set::new(|m: Move| canonical(m) && v.candidate(m) && v.legal_test(m))
}

/// Strictly legal moves: the candidates that pass the legality test, which on a sound
/// position are exactly the legal moves.
pub fn generate_legal(pos: &Position, list: &mut MoveList)
    requires
        pos.wf(),
    ensures
        adds(old(list)@, final(list)@, tested(pos@)),
        pos@.sound() ==> adds(old(list)@, final(list)@, Set::new(|m: Move| pos@.legal(m))),
{
    let ghost v = pos@;
    let ghost l0 = list@;
    let ghost t = tested(v);
    let ghost exact = Set::new(|m: Move| v.legal(m));
    proof {
        if v.sound() {
            assert forall|m: Move| #[trigger] t.contains(m) <==> exact.contains(m) by {
                crate::legality::legal_test_is_exact(v, m);
            }
        }
    }
    if pos.variant() == Variant::Antichess {
        generate_all(pos, list);
        proof {
            lemma_adds_same(l0, list@, candidates(v), t);
            if v.sound() {
                lemma_adds_same(l0, list@, t, exact);
            }
        }
        return ;
    }
    let mut pseudo = MoveList::new();
    if pos.in_check() {
        generate_evasions(pos, &mut pseudo);
    } else {
        generate_all(pos, &mut pseudo);
    }
    let us = pos.side_to_move();
    proof {
        lemma_adds_contains(pseudo@, candidates(v));
        assert(one_king(v.board, us));
        assert(is_king_square(v.board, us, v.ksq(us)));
        assert(v.board[v.ksq(us)] == king(us));
    }
    let pinned = pos.blockers_for_king(us) & pos.pieces_c(us);
    let ksq = pos.king_square(us);
    // Racing kings forbids checks, so every move needs the full test.
    let check_all = pos.variant().needs_full_legality();
    let ghost mut done = Set::<Move>::empty();
    proof {
        lemma_adds_none(l0, done);
    }
    let mut i: usize = 0;
    while i < pseudo.len()
        invariant
            pos.wf(),
            v == pos@,
            us == v.stm,
            v.variant.royal_king(),
            t == tested(v),
            i <= pseudo@.len(),
            pseudo@.no_duplicates(),
            forall|m: Move| #[trigger] pseudo@.contains(m) <==> candidates(v).contains(m),
            ksq == v.ksq(us),
            is_king_square(v.board, us, v.ksq(us)),
            check_all == (v.variant == Variant::RacingKings),
            forall|s: int| #[trigger]
                holds(pinned, s) <==> on_board(s) && owned(v.board[s], us)
                    && crate::rules::blocker(v.board, v.ksq(us), us.flip(), s),
            adds(l0, list@, done),
            forall|m: Move| #[trigger]
                done.contains(m) <==> t.contains(m) && exists|j: int|
                    0 <= j < i && #[trigger] pseudo@[j] == m,
        decreases pseudo@.len() - i,
    {
        let m = pseudo.get(i);
        proof {
            assert(pseudo@.contains(m));
            assert(v.candidate(m));
        }
        let from = m.from_sq();
        let needs_check = check_all || test_bit(pinned, from) || from == ksq || m.is_en_passant();
        proof {
            if !needs_check {
                if !m.is_drop() {
                    assert(owned(v.board[from as int], us));
                    assert(!m.is_castling());
                    assert(v.board[from as int].piece_type() != PieceType::King);
                }
                assert(v.king_test(m));
            }
        }
        let ok = !needs_check || pos.legal(m);
        assert(ok == t.contains(m));
        let ghost old_done = done;
        if ok {
            proof {
                assert(!done.contains(m)) by {
                    if done.contains(m) {
                        let j = choose|j: int| 0 <= j < i && #[trigger] pseudo@[j] == m;
                        assert(pseudo@[j] == pseudo@[i as int]);
                    }
                }
                lemma_adds_push(l0, list@, done, m);
                done = done.insert(m);
            }
            list.push(m);
        }
        proof {
            assert forall|x: Move| #[trigger] done.contains(x) <==> t.contains(x) && exists|j: int|
                0 <= j < i + 1 && #[trigger] pseudo@[j] == x by {
                if old_done.contains(x) {
                    let j = choose|j: int| 0 <= j < i && #[trigger] pseudo@[j] == x;
                    assert(0 <= j < i + 1 && pseudo@[j] == x);
                }
                if x == m {
                    assert(pseudo@[i as int] == x);
                }
                if exists|j: int| 0 <= j < i + 1 && #[trigger] pseudo@[j] == x {
                    let j = choose|j: int| 0 <= j < i + 1 && #[trigger] pseudo@[j] == x;
                    if j < i {
                        assert(0 <= j < i && pseudo@[j] == x);
                    }
                }
            }
        }
        i += 1;
    }
    proof {
        assert forall|m: Move| #[trigger] done.contains(m) <==> t.contains(m) by {
            if t.contains(m) {
                assert(candidates(v).contains(m));
                assert(pseudo@.contains(m));
                let j = choose|j: int| 0 <= j < pseudo@.len() && #[trigger] pseudo@[j] == m;
                assert(0 <= j < i && pseudo@[j] == m);
            }
        }
        lemma_adds_same(l0, list@, done, t);
        if v.sound() {
            lemma_adds_same(l0, list@, t, exact);
        }
    }
}

} // verus!
