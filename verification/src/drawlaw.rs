//! What the draw rules are for: a hundred plies without progress, positions that come again,
//! material that cannot win, and the race of Racing Kings.

use vstd::prelude::*;

use crate::draws::{minor_on, square_color};
use crate::geometry::on_board;
use crate::legality::legal_test_is_exact;
use crate::movegen::tested;
use crate::reached::game;
use crate::rules::{owned, repetition_from, reversible_plies, PosView};
use crate::state::StateInfo;
use crate::types::{is_loss, is_win, rank, Color, Move, PieceType};
use crate::variant::Variant;

verus! {

/// A move without progress: a drop, or one that moves no pawn and takes nothing.
pub open spec fn idle(v: PosView, m: Move) -> bool {
    m.is_drop() || (v.board[m.from()].piece_type() != PieceType::Pawn && !owned(
        v.board[m.to()],
        v.stm.flip(),
    ))
}

/// The clock counts moves without progress and starts again with every capture and every
/// move of a pawn.
pub proof fn the_clock_counts_idle_moves(v: PosView, m: Move, gives_check: bool, w: PosView)
    requires
        v.wf(),
        v.pseudo(m),
        v.made(m, gives_check, w),
    ensures
        idle(v, m) ==> w.st().rule50 == v.st().rule50 + 1,
        !idle(v, m) ==> w.st().rule50 == 0,
{
    assert(v.board[m.to()].0 <= 12);
}

/// The positions and moves of a game from a well-formed position on.
#[verifier::opaque]
pub open spec fn played(path: Seq<PosView>, moves: Seq<Move>) -> bool {
    game(path, moves) && path[0].wf()
}

/// One move of a game runs the clock or resets it.
proof fn lemma_step(path: Seq<PosView>, moves: Seq<Move>, k: int)
    requires
        played(path, moves),
        0 <= k < moves.len(),
    ensures
        idle(path[k], moves[k]) ==> path[k + 1].st().rule50 == path[k].st().rule50 + 1,
        !idle(path[k], moves[k]) ==> path[k + 1].st().rule50 == 0,
{
    reveal(played);
    lemma_wf(path, moves, k);
    let v = path[k];
    let w = path[k + 1];
    assert(v.plays(moves[k], w));
    the_clock_counts_idle_moves(v, moves[k], v.check_test(moves[k]), w);
}

proof fn lemma_wf(path: Seq<PosView>, moves: Seq<Move>, k: int)
    requires
        game(path, moves),
        path[0].wf(),
        0 <= k < path.len(),
    ensures
        path[k].wf(),
{
    if k > 0 {
        assert(path[k - 1].plays(moves[k - 1], path[k - 1 + 1]));
    }
}

/// From one position of a game to another, with no progress in between, the clock counts the
/// moves.
pub proof fn idle_moves_add_up(path: Seq<PosView>, moves: Seq<Move>, a: int, b: int)
    requires
        played(path, moves),
        0 <= a <= b <= moves.len(),
        forall|i: int| a <= i < b ==> idle(#[trigger] path[i], moves[i]),
    ensures
        path[b].st().rule50 == path[a].st().rule50 + (b - a),
    decreases b - a,
{
    if a < b {
        idle_moves_add_up(path, moves, a, b - 1);
        lemma_step(path, moves, b - 1);
        assert(idle(path[b - 1], moves[b - 1]));
    }
}

/// From one position to another the clock rises by no more than the moves between them and
/// does not go below zero.
proof fn lemma_clock_from(path: Seq<PosView>, moves: Seq<Move>, a: int, b: int)
    requires
        played(path, moves),
        0 <= a <= b <= moves.len(),
        path[a].st().rule50 >= 0,
    ensures
        0 <= path[b].st().rule50 <= path[a].st().rule50 + (b - a),
    decreases b - a,
{
    if a < b {
        lemma_clock_from(path, moves, a, b - 1);
        lemma_step(path, moves, b - 1);
    }
}

/// The fifty-move rule needs a hundred plies on the clock; with them the game is drawn unless
/// it is mate.
pub proof fn a_hundred_plies_are_a_draw(v: PosView)
    requires
        v.sound(),
    ensures
        v.st().rule50 < 100 ==> !v.fifty_moves(),
        v.st().rule50 >= 100 && (exists|m: Move| #[trigger] v.legal(m)) ==> v.fifty_moves(),
        v.st().rule50 >= 100 && v.st().checkers == 0 ==> v.fifty_moves(),
        v.st().checkers != 0 && (forall|m: Move| !#[trigger] v.legal(m)) ==> !v.fifty_moves(),
{
    if exists|m: Move| #[trigger] v.legal(m) {
        let m = choose|m: Move| #[trigger] v.legal(m);
        legal_test_is_exact(v, m);
        assert(tested(v).contains(m));
    }
    if v.can_move() {
        let m = choose|m: Move| #[trigger] tested(v).contains(m);
        legal_test_is_exact(v, m);
        assert(v.legal(m));
    }
}

/// A game whose last hundred moves made no progress is drawn, unless by mate; one that had a
/// capture or a pawn move among them is not, by this rule.
pub proof fn a_hundred_idle_moves_are_a_draw(path: Seq<PosView>, moves: Seq<Move>)
    requires
        played(path, moves),
        path[moves.len() as int].sound(),
        path[0].st().rule50 >= 0,
    ensures
        moves.len() >= 100 && (forall|i: int|
            moves.len() - 100 <= i < moves.len() ==> idle(#[trigger] path[i], moves[i])) && (
        exists|m: Move| #[trigger] path[moves.len() as int].legal(m))
            ==> path[moves.len() as int].fifty_moves(),
        (exists|j: int|
            0 <= j < moves.len() && moves.len() - 100 <= j && !idle(#[trigger] path[j], moves[j]))
            ==> !path[moves.len() as int].fifty_moves(),
{
    let n = moves.len() as int;
    a_hundred_plies_are_a_draw(path[n]);
    if n >= 100 && (forall|i: int| n - 100 <= i < n ==> idle(#[trigger] path[i], moves[i])) {
        idle_moves_add_up(path, moves, n - 100, n);
        lemma_clock_from(path, moves, 0, n - 100);
    }
    if exists|j: int| 0 <= j < n && n - 100 <= j && !idle(#[trigger] path[j], moves[j]) {
        let j = choose|j: int| 0 <= j < n && n - 100 <= j && !idle(#[trigger] path[j], moves[j]);
        lemma_step(path, moves, j);
        lemma_clock_from(path, moves, j + 1, n);
    }
}

/// A position drawn by `is_draw` has a hundred plies on the clock or has occurred before.
pub proof fn draws_have_a_reason(v: PosView, ply: int)
    requires
        v.fifty_moves() || v.repeated_within(ply),
    ensures
        v.st().rule50 >= 100 || v.st().repetition != 0,
{
}

// Repetition

/// The state `d` plies before the one that follows `states` has the key.
pub open spec fn same_key_before(states: Seq<StateInfo>, key: u64, d: int) -> bool {
    states[states.len() - d].key == key
}

proof fn lemma_repetition(states: Seq<StateInfo>, key: u64, i: int, end: int)
    requires
        i > 0,
        i % 2 == 0,
    ensures
        ({
            let r = repetition_from(states, key, i, end);
            let d = if r < 0 {
                -r
            } else {
                r
            };
            &&& r == 0 <==> forall|k: int|
                i <= k <= end && k % 2 == 0 ==> !#[trigger] same_key_before(states, key, k)
            &&& r != 0 ==> {
                &&& i <= d <= end && d % 2 == 0
                &&& same_key_before(states, key, d)
                &&& forall|k: int|
                    i <= k < d && k % 2 == 0 ==> !#[trigger] same_key_before(states, key, k)
                &&& r < 0 <==> states[states.len() - d].repetition != 0
            }
        }),
    decreases end - i + 2,
{
    if i <= end {
        if same_key_before(states, key, i) {
        } else {
            lemma_repetition(states, key, i + 2, end);
        }
    }
}

/// A position counts as repeated exactly where one with its key stood an even number of
/// plies before, four or more, with no irreversible move in between. The number kept is the
/// distance to the nearest such position, negative where that one was a repetition already.
pub proof fn repetitions_are_found(v: PosView, m: Move, gives_check: bool, w: PosView)
    requires
        v.made(m, gives_check, w),
    ensures
        ({
            let r = w.st().repetition as int;
            let d = if r < 0 {
                -r
            } else {
                r
            };
            let far = reversible_plies(w.st());
            &&& r != 0 <==> exists|k: int|
                4 <= k <= far && k % 2 == 0 && #[trigger] same_key_before(
                    v.states,
                    w.st().key,
                    k,
                )
            &&& r != 0 ==> {
                &&& 4 <= d <= far && d % 2 == 0
                &&& same_key_before(v.states, w.st().key, d)
                &&& r < 0 <==> v.states[v.states.len() - d].repetition != 0
            }
        }),
{
    lemma_repetition(v.states, w.st().key, 4, reversible_plies(w.st()));
}

/// Irreversible moves cut the search for repetitions off: it looks back no further than the
/// last capture, pawn move or pass.
pub proof fn repetitions_lie_within_reversible_plies(st: StateInfo)
    ensures
        reversible_plies(st) <= st.rule50,
        reversible_plies(st) <= st.plies_from_null,
        reversible_plies(st) == st.rule50 || reversible_plies(st) == st.plies_from_null,
{
}

/// A repetition counts where it lies inside the search, and always from the second on.
pub proof fn second_repetitions_always_count(v: PosView, ply: int)
    requires
        ply >= 0,
    ensures
        v.st().repetition == 0 ==> !v.repeated_within(ply),
        v.st().repetition < 0 ==> v.repeated_within(ply),
        v.st().repetition > 0 ==> (v.repeated_within(ply) <==> v.st().repetition < ply),
{
}

// Material

/// Pawns, rooks and queens can always win.
pub proof fn winning_material_is_no_draw(v: PosView, s: int)
    requires
        on_board(s),
        v.board[s].0 < 12,
        v.board[s].piece_type() == PieceType::Pawn || v.board[s].piece_type() == PieceType::Rook
            || v.board[s].piece_type() == PieceType::Queen,
    ensures
        !v.insufficient(),
{
    if v.insufficient() {
        assert(minor_on(v.board, s));
    }
}

/// Bare kings, and kings with one knight or bishop, cannot win; a knight beside another minor
/// piece can, and so can bishops of both square colours.
pub proof fn lone_minors_cannot_win(v: PosView)
    requires
        v.variant == Variant::Standard || v.variant == Variant::Chess960,
        forall|s: int|
            on_board(s) && (#[trigger] v.board[s]).0 < 12 ==> v.board[s].piece_type()
                == PieceType::King || minor_on(v.board, s),
    ensures
        (forall|s: int| !#[trigger] minor_on(v.board, s)) ==> v.insufficient(),
        (forall|s: int, t: int| #[trigger]
            minor_on(v.board, s) && #[trigger] minor_on(v.board, t) ==> s == t)
            ==> v.insufficient(),
        (exists|s: int, t: int| #[trigger]
            minor_on(v.board, s) && #[trigger] minor_on(v.board, t) && s != t
                && v.board[s].piece_type() == PieceType::Knight) ==> !v.insufficient(),
        (exists|s: int, t: int| #[trigger]
            minor_on(v.board, s) && #[trigger] minor_on(v.board, t) && square_color(s)
                != square_color(t)) ==> !v.insufficient(),
{
}

/// Kings, pawns and all can win in the variants that are won in other ways.
pub proof fn other_goals_need_no_material(v: PosView)
    requires
        v.variant == Variant::Antichess || v.variant == Variant::RacingKings || v.variant
            == Variant::Crazyhouse || v.variant == Variant::KingOfTheHill,
    ensures
        !v.insufficient(),
{
}

// The race

/// The race is won by the side whose king alone is home, drawn where both are, and open while
/// none is, or while Black may still follow.
pub proof fn the_race_goes_to_the_king_at_home(v: PosView, ply: usize)
    requires
        ply <= 127,
    ensures
        ({
            let own = rank(v.ksq(v.stm)) == 7;
            let other = rank(v.ksq(v.stm.flip())) == 7;
            match v.race_result(ply) {
                Some(x) => {
                    &&& x > 0 <==> own && (!other || v.stm == Color::Black)
                    &&& x < 0 <==> other && !own
                    &&& x == 0 <==> own && other && v.stm == Color::White
                },
                None => !own && (!other || v.stm == Color::Black),
            }
        }),
{
}

// Ends of the game

/// A side without a move is mated where it is in check, the sooner the worse, and stalemated
/// where it is not; in antichess it has won, in Racing Kings it is a draw either way.
pub proof fn no_move_ends_the_game(v: PosView, ply: usize)
    requires
        ply <= 127,
    ensures
        v.variant == Variant::Antichess ==> is_win(v.terminal_score(ply)) && v.terminal_score(ply)
            > v.terminal_score((ply + 1) as usize),
        v.variant == Variant::RacingKings ==> v.terminal_score(ply) == 0,
        v.variant != Variant::Antichess && v.variant != Variant::RacingKings
            && v.st().checkers != 0 ==> is_loss(v.terminal_score(ply)) && v.terminal_score(ply)
            < v.terminal_score((ply + 1) as usize),
        v.variant != Variant::Antichess && v.st().checkers == 0 ==> v.terminal_score(ply) == 0,
{
}

/// Three-check is lost with the opponent's third check and by nothing before it, King of the
/// Hill with the opponent's king on a centre square; standard chess ends with the moves alone.
pub proof fn goals_end_the_game(v: PosView, ply: usize)
    requires
        ply <= 127,
    ensures
        v.variant == Variant::ThreeCheck ==> {
            let n = v.st().checks_given@[v.stm.flip().idx() as int];
            &&& n >= 3 <==> v.variant_result(ply) is Some
            &&& n >= 3 ==> is_loss(v.variant_result(ply)->0)
        },
        v.variant == Variant::KingOfTheHill ==> {
            let k = v.ksq(v.stm.flip());
            let centre = k == 27 || k == 28 || k == 35 || k == 36;
            &&& on_board(k) ==> (centre <==> v.variant_result(ply) is Some)
            &&& v.variant_result(ply) is Some ==> is_loss(v.variant_result(ply)->0)
        },
        v.variant == Variant::Standard || v.variant == Variant::Chess960 || v.variant
            == Variant::Antichess || v.variant == Variant::Crazyhouse ==> v.variant_result(ply)
            is None,
{
}

/// A check given counts for the side that gave it, one at a time and up to three, and never for
/// the other.
pub proof fn checks_are_counted(v: PosView, m: Move, gives_check: bool, w: PosView)
    requires
        v.made(m, gives_check, w),
        v.st().checks_given@[v.stm.idx() as int] <= 3,
    ensures
        ({
            let us = v.stm.idx() as int;
            let them = v.stm.flip().idx() as int;
            &&& w.st().checks_given@[them] == v.st().checks_given@[them]
            &&& !gives_check ==> w.st().checks_given@[us] == v.st().checks_given@[us]
            &&& v.variant == Variant::ThreeCheck && gives_check && !m.is_drop()
                && v.st().checks_given@[us] < 3 ==> w.st().checks_given@[us]
                == v.st().checks_given@[us] + 1
            &&& w.st().checks_given@[us] <= 3
        }),
{
}

/// A position that has come again, or one since the last irreversible move, is remembered as
/// repeated; four plies are the least it takes.
pub proof fn repetitions_are_remembered(v: PosView, k: int)
    requires
        0 <= k,
    ensures
        reversible_plies(v.st()) < 4 ==> !v.repeated_since(),
        k + 4 <= reversible_plies(v.st()) && v.states[v.states.len() - 1 - k].repetition != 0
            ==> v.repeated_since(),
{
}

} // verus!
