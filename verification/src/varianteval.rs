//! Variant evaluations: antichess (fewer pieces is better), racing kings (the race to the
//! eighth rank dominates), material in hand, and the bonuses of three-check and King of the
//! Hill.

use vstd::prelude::*;

use crate::bits::{group_has, holds, one};
use crate::geometry::{king_step, on_board};
use crate::mopup::number;
use crate::position::Position;
use crate::rules::{hit_by, king, king_sq, lemma_occ, occ, one_king, owned, Board, PosView};
use crate::bitboard::{king_attacks, sq_bb, test_bit};
use crate::types::{file, file_of, rank, rank_of, Color, PieceType, Square, Value};

verus! {

broadcast use {group_has, lemma_occ};

/// Middlegame material; the king counts as a piece in antichess.
pub const ANTI_VALUES: [Value; 6] = [82, 337, 365, 477, 1025, 300];

/// Bonus toward the third check that ends the game, by checks given.
pub const CHECK_BONUS: [Value; 4] = [0, 300, 900, 3000];

/// Worth of each rank the king has climbed.
pub const RACE_RANK_BONUS: Value = 350;

/// Pocket pieces: pawns and knights a little more than on the board because they drop with
/// tempo.
pub const HAND_VALUES: [Value; 5] = [120, 350, 330, 450, 900];

/// Steps of a rank or file from the two centre ones.
pub const HILL_DIST: [i32; 8] = [3, 2, 1, 0, 0, 1, 2, 3];

/// Antichess material of `c`.
pub open spec fn burden(b: Board, c: Color) -> int {
    82 * number(b, c, PieceType::Pawn) + 337 * number(b, c, PieceType::Knight) + 365 * number(
        b,
        c,
        PieceType::Bishop,
    ) + 477 * number(b, c, PieceType::Rook) + 1025 * number(b, c, PieceType::Queen) + 300 * number(
        b,
        c,
        PieceType::King,
    )
}

/// The king of `c` can step to `t` without being attacked there.
pub open spec fn safe_step(b: Board, c: Color, t: int) -> bool {
    let k = king_sq(b, c);
    &&& king_step(k, t)
    &&& !owned(b[t], c)
    &&& !(exists|x: int|
        on_board(x) && owned(b[x], c.flip()) && #[trigger] hit_by(b, x, t, occ(b) ^ one(k)))
}

/// Safe king steps to squares below `n`.
pub open spec fn safe_steps(b: Board, c: Color, n: nat) -> nat
    decreases n,
{
    if n == 0 {
        0
    } else {
        safe_steps(b, c, (n - 1) as nat) + if safe_step(b, c, n - 1) {
            1nat
        } else {
            0nat
        }
    }
}

/// Racing kings score of `c`: the king's progress, its freedom, and material.
pub open spec fn race_score(b: Board, c: Color) -> int {
    RACE_RANK_BONUS * rank(king_sq(b, c)) + 337 * number(b, c, PieceType::Knight) + 365 * number(
        b,
        c,
        PieceType::Bishop,
    ) + 477 * number(b, c, PieceType::Rook) + 1025 * number(b, c, PieceType::Queen) + 12
        * safe_steps(b, c, 64)
}

/// Material of `c` in hand.
pub open spec fn hand_score(v: PosView, c: Color) -> int {
    let h = v.st().hand@[c.idx() as int]@;
    120 * h[0] + 350 * h[1] + 330 * h[2] + 450 * h[3] + 900 * h[4]
}

/// How far the king of `c` is from the centre, files and ranks added.
pub open spec fn hill_distance(b: Board, c: Color) -> int {
    HILL_DIST@[file(king_sq(b, c))] + HILL_DIST@[rank(king_sq(b, c))]
}

fn burden_of(pos: &Position, c: Color) -> (r: i32)
    requires
        pos.wf(),
    ensures
        r == burden(pos@.board, c),
        0 <= r <= 200_000,
{
    let mut total: i32 = 0;
    total = total + ANTI_VALUES[0] * pos.count_cp(c, PieceType::Pawn);
    total = total + ANTI_VALUES[1] * pos.count_cp(c, PieceType::Knight);
    total = total + ANTI_VALUES[2] * pos.count_cp(c, PieceType::Bishop);
    total = total + ANTI_VALUES[3] * pos.count_cp(c, PieceType::Rook);
    total = total + ANTI_VALUES[4] * pos.count_cp(c, PieceType::Queen);
    total = total + ANTI_VALUES[5] * pos.count_cp(c, PieceType::King);
    total
}

/// Antichess: material is a liability.
pub fn antichess(pos: &Position) -> (r: Value)
    requires
        pos.wf(),
    ensures
        r == burden(pos@.board, pos@.stm.flip()) - burden(pos@.board, pos@.stm),
        -200_000 <= r <= 200_000,
{
    let us = pos.side_to_move();
    burden_of(pos, us.flip()) - burden_of(pos, us)
}

fn safe_steps_of(pos: &Position, c: Color) -> (r: i32)
    requires
        pos.wf(),
        pos@.variant.royal_king(),
    ensures
        r == safe_steps(pos@.board, c, 64),
        0 <= r <= 64,
{
    let ghost b = pos@.board;
    proof {
        assert(one_king(b, c));
        assert(b[king_sq(b, c)] == king(c));
    }
    let k = pos.king_square(c);
    let steps = king_attacks(k) & !pos.pieces_c(c);
    let without = pos.pieces() ^ sq_bb(k);
    let mut n: i32 = 0;
    let mut t: Square = 0;
    while t < 64
        invariant
            t <= 64,
            pos.wf(),
            b == pos@.board,
            k == king_sq(b, c),
            forall|s: int| #[trigger]
                holds(steps, s) <==> on_board(s) && king_step(k as int, s) && !owned(b[s], c),
            without == occ(b) ^ one(k as int),
            n == safe_steps(b, c, t as nat),
            0 <= n <= t,
        decreases 64 - t,
    {
        if test_bit(steps, t) && !pos.attackers_to_exist(t, without, c.flip()) {
            assert(safe_step(b, c, t as int));
            n = n + 1;
        } else {
            assert(!safe_step(b, c, t as int));
        }
        t += 1;
    }
    n
}

fn race_score_of(pos: &Position, c: Color) -> (r: i32)
    requires
        pos.wf(),
        pos@.variant.royal_king(),
    ensures
        r == race_score(pos@.board, c),
        0 <= r <= 200_000,
{
    proof {
        assert(one_king(pos@.board, c));
    }
    let k = pos.king_square(c);
    let mut v: i32 = RACE_RANK_BONUS * rank_of(k) as i32;
    v = v + ANTI_VALUES[1] * pos.count_cp(c, PieceType::Knight);
    v = v + ANTI_VALUES[2] * pos.count_cp(c, PieceType::Bishop);
    v = v + ANTI_VALUES[3] * pos.count_cp(c, PieceType::Rook);
    v = v + ANTI_VALUES[4] * pos.count_cp(c, PieceType::Queen);
    v + 12 * safe_steps_of(pos, c)
}

/// Racing kings: king rank progress plus middlegame material.
pub fn racing_kings(pos: &Position) -> (r: Value)
    requires
        pos.wf(),
        pos@.variant.royal_king(),
    ensures
        r == race_score(pos@.board, pos@.stm) - race_score(pos@.board, pos@.stm.flip()),
        -200_000 <= r <= 200_000,
{
    let us = pos.side_to_move();
    race_score_of(pos, us) - race_score_of(pos, us.flip())
}

fn hand_score_of(pos: &Position, c: Color) -> (r: i32)
    requires
        pos.wf(),
    ensures
        r == hand_score(pos@, c),
        0 <= r <= 600_000,
{
    let mut v: i32 = HAND_VALUES[0] * pos.hand(c, PieceType::Pawn) as i32;
    v = v + HAND_VALUES[1] * pos.hand(c, PieceType::Knight) as i32;
    v = v + HAND_VALUES[2] * pos.hand(c, PieceType::Bishop) as i32;
    v = v + HAND_VALUES[3] * pos.hand(c, PieceType::Rook) as i32;
    v + HAND_VALUES[4] * pos.hand(c, PieceType::Queen) as i32
}

/// Crazyhouse: material in hand, side to move relative.
pub fn crazyhouse_hand(pos: &Position) -> (r: Value)
    requires
        pos.wf(),
    ensures
        r == hand_score(pos@, pos@.stm) - hand_score(pos@, pos@.stm.flip()),
        -600_000 <= r <= 600_000,
{
    let us = pos.side_to_move();
    hand_score_of(pos, us) - hand_score_of(pos, us.flip())
}

fn hill_distance_of(pos: &Position, c: Color) -> (r: i32)
    requires
        pos.wf(),
        pos@.variant.royal_king(),
    ensures
        r == hill_distance(pos@.board, c),
        0 <= r <= 6,
{
    proof {
        assert(one_king(pos@.board, c));
    }
    let k = pos.king_square(c);
    HILL_DIST[file_of(k) as usize] + HILL_DIST[rank_of(k) as usize]
}

/// King of the Hill: reward king proximity to the four centre squares.
pub fn king_of_the_hill_bonus(pos: &Position) -> (r: Value)
    requires
        pos.wf(),
        pos@.variant.royal_king(),
    ensures
        r == 35 * (hill_distance(pos@.board, pos@.stm.flip()) - hill_distance(
            pos@.board,
            pos@.stm,
        )),
        -210 <= r <= 210,
{
    let us = pos.side_to_move();
    35 * (hill_distance_of(pos, us.flip()) - hill_distance_of(pos, us))
}

/// Three-check: added on top of the standard evaluation (side to move relative).
pub fn three_check_bonus(pos: &Position) -> (r: Value)
    requires
        pos.wf(),
    ensures
        r == CHECK_BONUS@[pos@.st().checks_given@[pos@.stm.idx() as int] as int]
            - CHECK_BONUS@[pos@.st().checks_given@[pos@.stm.flip().idx() as int] as int],
        -3000 <= r <= 3000,
{
    let us = pos.side_to_move();
    CHECK_BONUS[pos.checks_given(us) as usize] - CHECK_BONUS[pos.checks_given(us.flip()) as usize]
}

} // verus!
