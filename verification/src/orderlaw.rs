//! What goes first: the order in which moves are tried.

use vstd::prelude::*;

use crate::arith::quot;
use crate::history::{
    capture_index, cont_index, main_index, pawn_index, ContKey, Histories,
};
use crate::movescore::{
    attack_bonus, best_victim, capture_score, cont_share, escape_bonus, evasion_score, guarded,
    occ_after, quiet_history, quiet_score, victim, OrderContext,
};
use crate::position::{piece_value, piece_value_of};
use crate::root::first_depth;
use crate::rules::{occ, PosView};
use crate::searcher::Searcher;
use crate::types::{is_win, mate_in, Move, Piece, PieceType, Value};

verus! {

// Captures

/// The pieces in the order of their worth; the king has none of its own.
pub proof fn pieces_have_their_worth()
    ensures
        0 < piece_value(PieceType::Pawn) < piece_value(PieceType::Knight) < piece_value(
            PieceType::Bishop,
        ) < piece_value(PieceType::Rook) < piece_value(PieceType::Queen),
        piece_value(PieceType::King) == 0,
        forall|pt: PieceType| 0 <= #[trigger] piece_value(pt) <= 1000,
{
}

/// Of two captures by pieces of one kind the one that gains more goes first; of two that gain
/// the same the one by the cheaper piece. A pawn more gained goes before any attacker.
pub proof fn greater_gains_go_first(v: PosView, a: Move, b: Move)
    ensures
        ({
            let x = v.victim_value(a) + v.promotion_gain(a);
            let y = v.victim_value(b) + v.promotion_gain(b);
            &&& piece_value_of(v.mover(a)) == piece_value_of(v.mover(b)) && x > y
                ==> v.capture_key(a) > v.capture_key(b)
            &&& x == y && piece_value_of(v.mover(a)) < piece_value_of(v.mover(b))
                ==> v.capture_key(a) > v.capture_key(b)
            &&& x >= y + 101 ==> v.capture_key(a) > v.capture_key(b)
        }),
{
    assert(0 <= piece_value_of(v.mover(a)) <= 1000);
    assert(0 <= piece_value_of(v.mover(b)) <= 1000);
}

/// What a move takes: a pawn en passant, nothing by castling or onto an empty square, otherwise
/// the piece it lands on; a promotion gains the new piece for the pawn.
pub proof fn victims_have_their_worth(v: PosView, m: Move)
    ensures
        m.is_en_passant() ==> v.victim_value(m) == piece_value(PieceType::Pawn),
        !m.is_en_passant() && v.board[m.to()].0 == 12 ==> v.victim_value(m) == 0,
        !m.is_en_passant() && v.board[m.to()].0 < 12 && !v.real_castling(m) ==> v.victim_value(m)
            == piece_value(v.board[m.to()].piece_type()),
        m.is_promotion() ==> v.promotion_gain(m) == piece_value(m.promotion()) - piece_value(
            PieceType::Pawn,
        ),
        !m.is_promotion() ==> v.promotion_gain(m) == 0,
        0 <= v.victim_value(m) <= 1000,
{
}

/// The table's move goes before every capture.
pub proof fn the_table_move_leads_captures(v: PosView, m: Move, tt_move: Move)
    requires
        m != tt_move,
    ensures
        v.capture_rank(m, tt_move) < v.capture_rank(tt_move, tt_move),
        v.capture_rank(m, tt_move) == v.capture_key(m),
{
    lemma_key_range(v, m);
}

proof fn lemma_key_range(v: PosView, m: Move)
    ensures
        -2000 <= v.capture_key(m) <= 19_000,
{
    assert(0 <= piece_value_of(v.mover(m)) <= 1000);
    victims_have_their_worth(v, m);
    assert(0 <= piece_value(m.promotion()) <= 1000);
}

/// A capture with better histories never goes later.
pub proof fn captures_follow_history(a: Histories, b: Histories, v: PosView, m: Move)
    requires
        forall|i: int| #[trigger] a.capture@[i] <= b.capture@[i],
        forall|i: int| #[trigger] a.main@[i] <= b.main@[i],
    ensures
        capture_score(a, v, m) <= capture_score(b, v, m),
{
    let pc = v.mover(m);
    let to = m.to() as usize;
    let i = main_index(pc.color(), m.from_to()) as int;
    assert(a.main@[i] <= b.main@[i]);
    let cap = if m.is_en_passant() {
        PieceType::Pawn
    } else {
        v.board[m.to()].piece_type()
    };
    let j = capture_index(pc, to, cap) as int;
    assert(a.capture@[j] <= b.capture@[j]);
}

// Quiet moves

/// The killers go first, the newer before the older.
pub proof fn killers_go_first(h: Histories, c: OrderContext, v: PosView, m: Move)
    ensures
        m == c.killers.0 ==> quiet_score(h, c, v, m) > quiet_score(h, c, v, c.killers.1)
            || c.killers.0 == c.killers.1,
        m == c.killers.0 || m == c.killers.1 ==> quiet_score(h, c, v, m) >= 800_000,
{
}

proof fn lemma_share(a: Histories, b: Histories, key: Option<ContKey>, pc: Piece, to: int, w: int)
    requires
        forall|i: int| #[trigger] a.cont@[i] <= b.cont@[i],
        w == 1024 || w == 712 || w == 410,
    ensures
        cont_share(a, key, pc, to, w) <= cont_share(b, key, pc, to, w),
{
    if key is Some {
        let i = cont_index(key->0, pc, to as usize) as int;
        assert(a.cont@[i] <= b.cont@[i]);
    }
}

/// A quiet move with better histories never goes later.
pub proof fn quiets_follow_history(
    a: Histories,
    b: Histories,
    c: OrderContext,
    v: PosView,
    m: Move,
)
    requires
        forall|i: int| #[trigger] a.main@[i] <= b.main@[i],
        forall|i: int| #[trigger] a.pawn@[i] <= b.pawn@[i],
        forall|i: int| #[trigger] a.cont@[i] <= b.cont@[i],
        forall|i: int| #[trigger] a.low_ply@[i] <= b.low_ply@[i],
    ensures
        quiet_history(a, c, v, m) <= quiet_history(b, c, v, m),
        quiet_score(a, c, v, m) <= quiet_score(b, c, v, m),
{
    let pc = v.mover(m);
    let i = main_index(pc.color(), m.from_to()) as int;
    assert(a.main@[i] <= b.main@[i]);
    let j = pawn_index(v.st().pawn_key, pc, m.to() as usize) as int;
    assert(a.pawn@[j] <= b.pawn@[j]);
    lemma_share(a, b, c.cont_keys@[0], pc, m.to(), 1024);
    lemma_share(a, b, c.cont_keys@[1], pc, m.to(), 712);
    lemma_share(a, b, c.cont_keys@[2], pc, m.to(), 410);
    if c.ply < 4 {
        let k = c.ply * 4096 + m.from_to();
        assert(a.low_ply@[k] <= b.low_ply@[k]);
        let d = 1 + c.ply;
        assert(d == 1 || d == 2 || d == 3 || d == 4);
        assert(quot(8 * a.low_ply@[k], d) <= quot(8 * b.low_ply@[k], d));
    }
}

/// A piece of worth gets a bonus for leaving an attack for a safe square, nothing else does.
pub proof fn escapes_are_rewarded(v: PosView, m: Move)
    ensures
        ({
            let them = v.mover(m).color().flip();
            &&& 0 <= escape_bonus(v, m) <= 10_000
            &&& !guarded(v.board, m.from(), occ(v.board), them) ==> escape_bonus(v, m) == 0
            &&& guarded(v.board, m.to(), occ_after(v.board, m), them) ==> escape_bonus(v, m) == 0
            &&& piece_value_of(v.mover(m)) >= 250 && guarded(
                v.board,
                m.from(),
                occ(v.board),
                them,
            ) && !guarded(v.board, m.to(), occ_after(v.board, m), them) ==> escape_bonus(v, m) > 0
        }),
{
}

/// The victim threatened is the most valuable one, and there is none where none is threatened.
pub proof fn the_best_victim_is_threatened(v: PosView, m: Move, n: nat)
    requires
        n <= 64,
    ensures
        ({
            let t = best_victim(v, m, n);
            &&& t.0 >= 0
            &&& forall|s: int|
                0 <= s < n && #[trigger] victim(v, m, s) ==> piece_value_of(v.board[s]) <= t.0
            &&& t.0 > 0 ==> 0 <= t.1 < n && victim(v, m, t.1) && piece_value_of(v.board[t.1])
                == t.0
        }),
    decreases n,
{
    if n > 0 {
        the_best_victim_is_threatened(v, m, (n - 1) as nat);
    }
}

/// Threatening something earns a bonus, twice as much where it is undefended, up to a cap.
pub proof fn threats_are_rewarded(v: PosView, m: Move)
    ensures
        ({
            let t = best_victim(v, m, 64);
            let them = v.mover(m).color().flip();
            &&& 0 <= attack_bonus(v, m) <= 12_000
            &&& t.0 > 0 <==> attack_bonus(v, m) > 0
            &&& 0 < t.0 <= 1000 && guarded(v.board, t.1, occ_after(v.board, m), them)
                ==> attack_bonus(v, m) == 6 * t.0
            &&& 0 < t.0 <= 1000 && !guarded(v.board, t.1, occ_after(v.board, m), them)
                ==> attack_bonus(v, m) == 12 * t.0
        }),
{
    the_best_victim_is_threatened(v, m, 64);
}

/// In check captures go before everything else, the greater victims first.
pub proof fn evading_captures_go_first(
    h: Histories,
    c: OrderContext,
    v: PosView,
    a: Move,
    b: Move,
)
    requires
        v.board[a.to()].0 != 12 && !v.real_castling(a),
        v.board[b.to()].0 != 12 && !v.real_castling(b),
        v.victim_value(a) > v.victim_value(b),
    ensures
        evasion_score(h, c, v, a) > evasion_score(h, c, v, b),
        evasion_score(h, c, v, b) >= 0x1000_0000,
{
    victims_have_their_worth(v, b);
}

// At the root

/// At the root the leading move goes first, then the table's, then captures that hold their
/// material; these go before every quiet move and before captures that lose some.
pub proof fn roots_are_ordered(s: &Searcher, v: PosView, first: Move, second: Move, a: Move, b: Move)
    requires
        s.wf(),
        v.mover(b).0 < 12,
        b.from_to() < 4096,
        0 <= b.to() < 64,
        first != second,
        a != first,
        a != second,
        b != first,
        b != second,
        v.in_capture_stage(a) && v.see_value(a) >= 0,
    ensures
        s.root_rank(v, first, second, first) > s.root_rank(v, first, second, second),
        s.root_rank(v, first, second, second) > s.root_rank(v, first, second, a),
        !v.in_capture_stage(b) || v.see_value(b) < 0 ==> s.root_rank(v, first, second, a)
            > s.root_rank(v, first, second, b),
        v.in_capture_stage(b) && v.see_value(b) >= 0 && v.capture_key(a) > v.capture_key(b)
            ==> s.root_rank(v, first, second, a) > s.root_rank(v, first, second, b),
{
    lemma_key_range(v, a);
    lemma_key_range(v, b);
    let pc = v.mover(b);
    let i = main_index(pc.color(), b.from_to()) as int;
    let j = pawn_index(v.st().pawn_key, pc, b.to() as usize) as int;
    let h = s.hist;
    assert(-16_384 <= h.main@[i] <= 16_384);
    assert(-16_384 <= h.pawn@[j] <= 16_384);
    assert(-16_384 <= h.low_ply@[b.from_to() as int] <= 16_384);
}

/// The first iteration is at depth one, helpers with odd numbers start up to two deeper; no
/// thread goes beyond the depth asked for.
pub proof fn helpers_run_ahead(thread_id: usize, max_depth: i32)
    requires
        max_depth >= 1,
    ensures
        1 <= first_depth(thread_id, max_depth) <= max_depth,
        first_depth(thread_id, max_depth) <= 3,
        thread_id % 2 == 0 ==> first_depth(thread_id, max_depth) == 1,
        thread_id % 2 == 1 && max_depth >= 3 ==> first_depth(thread_id, max_depth) == 3,
{
}

/// A search for a mate in `n` moves is done with a mate in `n` or fewer: the mover's `n`-th move
/// is ply `2 n - 1`.
pub proof fn mates_are_counted_in_moves(n: i32, ply: usize)
    requires
        1 <= n <= 60,
        ply <= 128,
    ensures
        Searcher::mates_within(mate_in(ply), n) <==> ply <= 2 * n,
        ply == 2 * n - 1 ==> Searcher::mates_within(mate_in(ply), n)
            && !Searcher::mates_within(mate_in(ply), (n - 1) as i32),
{
}

/// Nothing but a win is a mate.
pub proof fn only_wins_are_mates(score: Value, n: i32)
    ensures
        Searcher::mates_within(score, n) ==> is_win(score) && n > 0,
{
}

} // verus!
