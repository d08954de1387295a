//! Ordering scores of captures, quiet moves and evasions.

use vstd::prelude::*;

use crate::arith::{div_toward_zero, quot};
use crate::bitboard::{attacks_bb, pawn_attacks, sq_bb, test_bit};
use crate::bits::{group_has, holds, one};
use crate::geometry::{hits, on_board};
use crate::history::{
    capture_index, cont_index, key_ok, main_index, pawn_index, ContKey, Histories,
};
use crate::ordering::capture_gain;
use crate::params::{
    CONT_WEIGHTS, LOW_PLY_HISTORY_SIZE, SORT_CHECK_BONUS, SORT_CHECK_SEE, SORT_COUNTERMOVE,
    SORT_KILLER1, SORT_KILLER2, SORT_QUIET, THREAT_ORDERING_MIN_DEPTH,
};
use crate::position::{piece_value, piece_value_of, Position};
use crate::rules::{hit_by, lemma_occ, occ, owned, Board, PosView};
use crate::searcher::Searcher;
use crate::types::{Color, Move, Piece, PieceType, Square};

verus! {

broadcast use {group_has, lemma_occ};

/// What the picker knows besides the position: where it is used and which quiet moves did
/// well in sibling nodes.
#[derive(Clone, Copy)]
pub struct OrderContext {
    pub ply: usize,
    pub depth: i32,
    pub killers: (Move, Move),
    pub countermove: Move,
    /// Ancestor keys for the 1, 2 and 4 ply offsets.
    pub cont_keys: [Option<ContKey>; 3],
}

impl OrderContext {
    pub open spec fn wf(&self) -> bool {
        &&& -603_225 <= self.depth <= 603_225
        &&& forall|i: int| 0 <= i < 3 ==> (#[trigger] self.cont_keys@[i] matches Some(k) ==> key_ok(k))
    }
}

/// Ten times the gain less the attacker, plus capture and main history.
pub open spec fn capture_score(h: Histories, v: PosView, m: Move) -> int {
    let pc = v.mover(m);
    let captured = if m.is_en_passant() {
        Some(PieceType::Pawn)
    } else if v.real_castling(m) || v.board[m.to()].0 == 12 {
        None
    } else {
        Some(v.board[m.to()].piece_type())
    };
    10 * (v.victim_value(m) + v.promotion_gain(m)) - piece_value_of(pc) + quot(
        match captured {
            Some(c) => h.capture@[capture_index(pc, m.to() as usize, c) as int] as int,
            None => 0,
        },
        8,
    ) + quot(h.main@[main_index(pc.color(), m.from_to()) as int] as int, 8)
}

/// Share of a continuation history in the score.
pub open spec fn cont_share(h: Histories, key: Option<ContKey>, pc: Piece, to: int, w: int) -> int {
    match key {
        Some(k) => quot(h.cont@[cont_index(k, pc, to as usize) as int] * w, 1024),
        None => 0,
    }
}

/// Occupied squares after a quiet move.
pub open spec fn occ_after(b: Board, m: Move) -> u64 {
    (occ(b) ^ one(m.from())) | one(m.to())
}

/// The piece a quiet move leaves on its target square attacks `s`.
pub open spec fn threatens(v: PosView, m: Move, s: int) -> bool {
    let pt = if m.is_promotion() {
        m.promotion()
    } else {
        v.mover(m).piece_type()
    };
    hits(v.mover(m).color(), pt, m.to(), s, occ_after(v.board, m))
}

/// An enemy piece other than a king that the move attacks.
pub open spec fn victim(v: PosView, m: Move, s: int) -> bool {
    on_board(s) && threatens(v, m, s) && owned(v.board[s], v.mover(m).color().flip())
        && v.board[s].piece_type() != PieceType::King
}

/// The most valuable attacked piece below `n` and its square, the lowest among equals.
pub open spec fn best_victim(v: PosView, m: Move, n: nat) -> (int, int)
    decreases n,
{
    if n == 0 {
        (0, 64)
    } else {
        let b = best_victim(v, m, (n - 1) as nat);
        if victim(v, m, n - 1) && piece_value_of(v.board[n - 1]) > b.0 {
            (piece_value_of(v.board[n - 1]) as int, n - 1)
        } else {
            b
        }
    }
}

/// `c` attacks the square with the given occupancy.
pub open spec fn guarded(b: Board, s: int, occupied: u64, c: Color) -> bool {
    exists|x: int| on_board(x) && owned(b[x], c) && #[trigger] hit_by(b, x, s, occupied)
}

/// A quiet that attacks an enemy piece, more so an undefended one.
pub open spec fn attack_bonus(v: PosView, m: Move) -> int {
    let t = best_victim(v, m, 64);
    let them = v.mover(m).color().flip();
    if t.0 > 0 {
        let q = if guarded(v.board, t.1, occ_after(v.board, m), them) {
            t.0 * 6
        } else {
            t.0 * 12
        };
        if q < 12000 {
            q
        } else {
            12000
        }
    } else {
        0
    }
}

/// A piece that leaves an attacked square for a safe one.
pub open spec fn escape_bonus(v: PosView, m: Move) -> int {
    let them = v.mover(m).color().flip();
    let value = piece_value_of(v.mover(m)) as int;
    if value >= 250 && guarded(v.board, m.from(), occ(v.board), them) && !guarded(
        v.board,
        m.to(),
        occ_after(v.board, m),
        them,
    ) {
        if value * 5 < 10000 {
            value * 5
        } else {
            10000
        }
    } else {
        0
    }
}

/// What the histories say of a quiet move.
pub open spec fn quiet_history(h: Histories, c: OrderContext, v: PosView, m: Move) -> int {
    let pc = v.mover(m);
    2 * h.main@[main_index(pc.color(), m.from_to()) as int] + 2 * h.pawn@[pawn_index(
        v.st().pawn_key,
        pc,
        m.to() as usize,
    ) as int] + cont_share(h, c.cont_keys@[0], pc, m.to(), 1024) + cont_share(
        h,
        c.cont_keys@[1],
        pc,
        m.to(),
        712,
    ) + cont_share(h, c.cont_keys@[2], pc, m.to(), 410)
}

/// Near the root, what the low-ply history says of a move.
pub open spec fn low_ply_share(h: Histories, ply: usize, m: Move) -> int {
    if ply < LOW_PLY_HISTORY_SIZE {
        quot(8 * h.low_ply@[ply * 4096 + m.from_to()], 1 + ply)
    } else {
        0
    }
}

/// A check that does not lose material.
pub open spec fn check_bonus(v: PosView, m: Move) -> int {
    if v.check_test(m) && v.see_value(m) >= SORT_CHECK_SEE {
        SORT_CHECK_BONUS as int
    } else {
        0
    }
}

/// History-based quiet score with killer and countermove boosts and threat terms.
pub open spec fn quiet_score(h: Histories, c: OrderContext, v: PosView, m: Move) -> int {
    if m == c.killers.0 {
        SORT_KILLER1 as int
    } else if m == c.killers.1 {
        SORT_KILLER2 as int
    } else {
        SORT_QUIET + (if m == c.countermove {
            SORT_COUNTERMOVE as int
        } else {
            0
        }) + quiet_history(h, c, v, m) + check_bonus(v, m) + low_ply_share(h, c.ply, m) + (if c.depth
            >= THREAT_ORDERING_MIN_DEPTH {
            attack_bonus(v, m) + escape_bonus(v, m)
        } else {
            0
        })
    }
}

/// Captures first, by what they take; quiet evasions by their history.
pub open spec fn evasion_score(h: Histories, c: OrderContext, v: PosView, m: Move) -> int {
    if (v.board[m.to()].0 != 12 && !v.real_castling(m)) || m.is_en_passant() {
        v.victim_value(m) + 268435456
    } else {
        quiet_score(h, c, v, m)
    }
}

/// Ordering score of a capture.
pub(crate) fn score_capture(pos: &Position, s: &Searcher, m: Move) -> (r: i32)
    requires
        s.wf(),
        pos.wf(),
        pos@.pseudo(m),
    ensures
        r == capture_score(s.hist, pos@, m),
        -10_000 <= r <= 30_000,
{
    let pc = pos.moved_piece(m);
    let gain = capture_gain(pos, m);
    let cap_hist: i32 = match pos.captured_type(m) {
        Some(v) => s.capture_hist(pc, m.to_sq() as usize, v),
        None => 0,
    };
    let main_hist = s.main_hist(pc.color(), m);
    10 * gain - piece_value_of(pc) + div_toward_zero(cap_hist as i64, 8) as i32 + div_toward_zero(
        main_hist as i64,
        8,
    ) as i32
}

fn cont_share_of(s: &Searcher, key: Option<ContKey>, pc: Piece, to: usize, w: i32) -> (r: i32)
    requires
        s.wf(),
        pc.0 < 12,
        to < 64,
        key matches Some(k) ==> key_ok(k),
        0 <= w <= 1024,
    ensures
        r == cont_share(s.hist, key, pc, to as int, w as int),
        -20_000_000 <= r <= 20_000_000,
{
    match key {
        Some(k) => {
            let v = s.hist.cont(k, pc, to) as i64;
            proof {
                assert(-16_777_216 <= v * w <= 16_777_216) by (nonlinear_arith)
                    requires
                        -16384 <= v <= 16384,
                        0 <= w <= 1024,
                ;
            }
            div_toward_zero(v * w as i64, 1024) as i32
        },
        None => 0,
    }
}

fn attack_bonus_of(pos: &Position, m: Move) -> (r: i32)
    requires
        pos.wf(),
        pos@.pseudo(m),
    ensures
        r == attack_bonus(pos@, m),
        0 <= r <= 12000,
{
    let ghost v = pos@;
    let pc = pos.moved_piece(m);
    let us = pc.color();
    let them = us.flip();
    let to = m.to_sq();
    let after = (pos.pieces() ^ sq_bb(m.from_sq())) | sq_bb(to);
    let mover_type = if m.is_promotion() {
        m.promotion()
    } else {
        pc.piece_type()
    };
    let attacks = match mover_type {
        PieceType::Pawn => pawn_attacks(us, to),
        pt => attacks_bb(pt, to, after),
    };
    let victims = attacks & pos.pieces_c(them) & !pos.pieces_p(PieceType::King);
    let mut best: i32 = 0;
    let mut best_sq: Square = 64;
    let mut s: Square = 0;
    while s < 64
        invariant
            s <= 64,
            pos.wf(),
            v == pos@,
            forall|x: int| #[trigger] holds(victims, x) <==> victim(v, m, x),
            best == best_victim(v, m, s as nat).0,
            best_sq == best_victim(v, m, s as nat).1,
            0 <= best <= 1000,
            best > 0 ==> best_sq < 64,
        decreases 64 - s,
    {
        if test_bit(victims, s) {
            let value = piece_value_of(pos.piece_on(s));
            if value > best {
                best = value;
                best_sq = s;
            }
        }
        s += 1;
    }
    if best > 0 {
        let q: i32 = if pos.attackers_to_exist(best_sq, after, them) {
            best * 6
        } else {
            best * 12
        };
        if q < 12000 {
            q
        } else {
            12000
        }
    } else {
        0
    }
}

fn escape_bonus_of(pos: &Position, m: Move) -> (r: i32)
    requires
        pos.wf(),
        pos@.pseudo(m),
    ensures
        r == escape_bonus(pos@, m),
        0 <= r <= 10000,
{
    let pc = pos.moved_piece(m);
    let them = pc.color().flip();
    let value = piece_value_of(pc);
    if value < 250 {
        return 0;
    }
    let after = (pos.pieces() ^ sq_bb(m.from_sq())) | sq_bb(m.to_sq());
    if pos.attackers_to_exist(m.from_sq(), pos.pieces(), them) && !pos.attackers_to_exist(
        m.to_sq(),
        after,
        them,
    ) {
        if value * 5 < 10000 {
            value * 5
        } else {
            10000
        }
    } else {
        0
    }
}

fn quiet_history_of(pos: &Position, s: &Searcher, c: &OrderContext, m: Move) -> (r: i32)
    requires
        s.wf(),
        pos.wf(),
        c.wf(),
        pos@.pseudo(m),
    ensures
        r == quiet_history(s.hist, *c, pos@, m),
        -61_000_000 <= r <= 61_000_000,
{
    let pc = pos.moved_piece(m);
    let to = m.to_sq() as usize;
    let mut score: i32 = 2 * s.main_hist(pc.color(), m);
    score = score + 2 * s.pawn_hist(pos.pawn_key(), pc, to);
    score = score + cont_share_of(s, c.cont_keys[0], pc, to, CONT_WEIGHTS[0]);
    score = score + cont_share_of(s, c.cont_keys[1], pc, to, CONT_WEIGHTS[1]);
    score + cont_share_of(s, c.cont_keys[2], pc, to, CONT_WEIGHTS[2])
}

fn low_ply_share_of(s: &Searcher, ply: usize, m: Move) -> (r: i32)
    requires
        s.wf(),
    ensures
        r == low_ply_share(s.hist, ply, m),
        -131_072 <= r <= 131_072,
{
    if ply < LOW_PLY_HISTORY_SIZE {
        let low = s.low_ply_hist(ply, m);
        div_toward_zero(8 * low as i64, 1 + ply as i64) as i32
    } else {
        0
    }
}

fn check_bonus_of(pos: &Position, m: Move) -> (r: i32)
    requires
        pos.wf(),
        pos@.pseudo(m),
    ensures
        r == check_bonus(pos@, m),
        0 <= r <= 16384,
{
    if pos.gives_check(m) && pos.see_ge(m, SORT_CHECK_SEE) {
        SORT_CHECK_BONUS
    } else {
        0
    }
}

/// Ordering score of a quiet move.
pub(crate) fn score_quiet(pos: &Position, s: &Searcher, c: &OrderContext, m: Move) -> (r: i32)
    requires
        s.wf(),
        pos.wf(),
        c.wf(),
        pos@.pseudo(m),
    ensures
        r == quiet_score(s.hist, *c, pos@, m),
        -100_000_000 <= r <= 100_000_000,
{
    if m == c.killers.0 {
        return SORT_KILLER1;
    }
    if m == c.killers.1 {
        return SORT_KILLER2;
    }
    let mut score: i32 = SORT_QUIET;
    if m == c.countermove {
        score = score + SORT_COUNTERMOVE;
    }
    score = score + quiet_history_of(pos, s, c, m);
    score = score + check_bonus_of(pos, m);
    score = score + low_ply_share_of(s, c.ply, m);
    if c.depth >= THREAT_ORDERING_MIN_DEPTH {
        score = score + attack_bonus_of(pos, m);
        score = score + escape_bonus_of(pos, m);
    }
    score
}

/// Ordering score of an evasion.
pub(crate) fn score_evasion(pos: &Position, s: &Searcher, c: &OrderContext, m: Move) -> (r: i32)
    requires
        s.wf(),
        pos.wf(),
        c.wf(),
        pos@.pseudo(m),
    ensures
        r == evasion_score(s.hist, *c, pos@, m),
{
    if pos.is_capture(m) {
        let victim: i32 = match pos.captured_type(m) {
            Some(pt) => piece_value(pt),
            None => 0,
        };
        victim + 268435456
    } else {
        score_quiet(pos, s, c, m)
    }
}

} // verus!
