//! What a node teaches: the move that causes a cutoff is credited and those tried before it
//! are debited; the result of a node moves the reliability of the table's moves, credits the
//! move before and corrects the evaluation.

use vstd::prelude::*;

use crate::arith::{clamped, div_toward_zero, quot};
use crate::history::{correction_index, counter_index, history_bonus, reliability, Lore};
use crate::journal::Seen;
use crate::moves::canonical_code;
use crate::negamax::{lemma_mover, Node, Tried};
use crate::params::{LASTMOVE_CORRHIST_SIZE, PAWN_HISTORY_BONUS_SCALE, PAWN_HISTORY_MALUS_SCALE};
use crate::position::Position;
use crate::rules::PosView;
use crate::searcher::{NodeType, Searcher, SCORE_LIMIT, STACK_SIZE};
use crate::types::{Bound, Move, PieceType, Value, MAX_PLY};

verus! {

impl Seen {
    /// The histories after a bonus for `pc` going to `to` in the continuations of the moves
    /// before `ply`, that of four plies before only out of check.
    pub open spec fn credited(
        self,
        l: Lore,
        ply: int,
        in_check: bool,
        pc: crate::types::Piece,
        to: usize,
        bonus: int,
    ) -> Lore {
        let t1 = Searcher::cont_after(
            l.cont,
            self.key_before(ply, 1),
            pc,
            to,
            quot(bonus * 1024, 1024),
        );
        let t2 = Searcher::cont_after(t1, self.key_before(ply, 2), pc, to, quot(bonus * 712, 1024));
        Lore {
            cont: if in_check {
                t2
            } else {
                Searcher::cont_after(t2, self.key_before(ply, 4), pc, to, quot(bonus * 410, 1024))
            },
            ..l
        }
    }
}

/// The histories after the quiet moves tried before a cutoff are debited.
pub open spec fn quiets_debited(
    l: Lore,
    s: Seen,
    v: PosView,
    n: Node,
    c: Tried,
    quiets: Seq<Move>,
) -> Lore
    decreases quiets.len(),
{
    if quiets.len() == 0 {
        l
    } else {
        let q = quiets.last();
        let to = q.to() as usize;
        let bonus = history_bonus(n.depth) as int;
        let r = quiets_debited(l, s, v, n, c, quiets.drop_last());
        if q == c.m {
            r
        } else {
            s.credited(
                r.with_main(c.us, q, -bonus).with_pawn(
                    c.pawn_key,
                    v.mover(q),
                    to,
                    -bonus * PAWN_HISTORY_MALUS_SCALE,
                ).with_low_ply(n.ply, q, -bonus),
                n.ply as int,
                n.in_check,
                v.mover(q),
                to,
                -bonus,
            )
        }
    }
}

/// The histories after the captures tried before a cutoff are debited.
pub open spec fn captures_debited(
    l: Lore,
    v: PosView,
    n: Node,
    c: Tried,
    captures: Seq<(Move, PieceType)>,
) -> Lore
    decreases captures.len(),
{
    if captures.len() == 0 {
        l
    } else {
        let (m, cap) = captures.last();
        let r = captures_debited(l, v, n, c, captures.drop_last());
        if m == c.m {
            r
        } else {
            r.with_capture(v.mover(m), m.to() as usize, cap, -(history_bonus(n.depth) as int))
        }
    }
}

/// The histories after a cutoff: the move is credited, a quiet one also as the answer to the
/// move before, and the moves tried before it are debited, the captures in any case, the
/// quiet moves where the cutoff is quiet.
pub open spec fn cutoff_learned(
    l: Lore,
    s: Seen,
    v: PosView,
    n: Node,
    c: Tried,
    quiets: Seq<Move>,
    captures: Seq<(Move, PieceType)>,
) -> Lore {
    let bonus = history_bonus(n.depth) as int;
    let to = c.m.to() as usize;
    let own = match c.captured {
        None => {
            let first = l.with_main(c.us, c.m, bonus).with_pawn(
                c.pawn_key,
                c.pc,
                to,
                bonus * PAWN_HISTORY_BONUS_SCALE,
            ).with_low_ply(n.ply, c.m, bonus);
            let debited = quiets_debited(first, s, v, n, c, quiets);
            let all = s.credited(debited, n.ply as int, n.in_check, c.pc, to, bonus);
            let prev = s.stack[n.ply - 1];
            if prev.current_move.is_ok() && prev.moved_piece.0 < 12 {
                all.with_counter(prev.moved_piece, prev.current_move.to() as usize, c.m)
            } else {
                all
            }
        },
        Some(cap) => l.with_capture(c.pc, to, cap, bonus),
    };
    captures_debited(own, v, n, c, captures)
}

/// The histories after a node found the table's move best, or another one.
pub open spec fn table_noted(l: Lore, n: Node, best_move: Move) -> Lore {
    if n.node_type != NodeType::PV && best_move.0 != 0 {
        l.with_reliability(
            if best_move == canonical_code(n.tt_move) {
                809
            } else {
                -865
            },
        )
    } else {
        l
    }
}

/// The histories after a node: where nothing raised alpha, the opponent's previous quiet move
/// was good.
pub open spec fn previous_credited(l: Lore, s: Seen, v: PosView, n: Node, best: Value) -> Lore {
    let prev = s.stack[n.ply - 1];
    if best <= n.alpha && !prev.is_capture && prev.current_move.is_ok() && prev.moved_piece.0
        < 12 {
        let bonus = quot(history_bonus(n.depth) as int, 2);
        let to = prev.current_move.to() as usize;
        let x = s.credited(l, n.ply - 1, n.in_check, prev.moved_piece, to, bonus).with_main(
            v.stm.flip(),
            prev.current_move,
            bonus,
        );
        if prev.moved_piece.piece_type() != PieceType::Pawn && !prev.current_move.is_promotion() {
            x.with_pawn(
                v.st().pawn_key,
                prev.moved_piece,
                to,
                bonus * PAWN_HISTORY_BONUS_SCALE,
            )
        } else {
            x
        }
    } else {
        l
    }
}

/// The evaluation is corrected after a quiet node out of check whose score respects the bound
/// relative to the static evaluation.
pub open spec fn corrects(
    v: PosView,
    n: Node,
    best: Value,
    bound: Bound,
    best_move: Move,
) -> bool {
    &&& !n.in_check && n.excluded.0 == 0
    &&& best_move.0 == 0 || (!((v.board[best_move.to()].0 != 12 && !v.real_castling(best_move))
        || best_move.is_en_passant()) && !best_move.is_promotion())
    &&& match bound {
        Bound::Lower => best >= n.raw_eval,
        Bound::Upper => best <= n.raw_eval,
        Bound::Exact => true,
        Bound::Empty => false,
    }
}

/// The histories after the result of a node.
pub open spec fn result_learned(
    l: Lore,
    s: Seen,
    v: PosView,
    n: Node,
    best: Value,
    bound: Bound,
    best_move: Move,
) -> Lore {
    let b = previous_credited(table_noted(l, n, best_move), s, v, n, best);
    if corrects(v, n, best, bound, best_move) {
        corrected(b, v, n.depth as int, n.raw_eval as int, best as int, n.prev_move as int)
    } else {
        b
    }
}

/// The histories after the corrections of the evaluation are taught the difference between a
/// search result and the static evaluation, the more the deeper the search.
pub open spec fn corrected(
    l: Lore,
    v: PosView,
    depth: int,
    static_eval: int,
    score: int,
    prev: int,
) -> Lore {
    let us = v.stm;
    let st = v.st();
    l.blend_in(
        correction_index(us, st.nonpawn_key@[us.idx() as int]) as int,
        correction_index(us, st.material_key) as int,
        correction_index(us, st.minor_key) as int,
        prev,
        score - static_eval,
        clamped(depth * depth + 2 * depth + 1, 1, 128),
    )
}

/// What a cutoff teaches rests on nothing that is noted of its own ply.
pub proof fn lemma_same_cutoff(
    l: Lore,
    a: Seen,
    b: Seen,
    v: PosView,
    n: Node,
    c: Tried,
    quiets: Seq<Move>,
    captures: Seq<(Move, PieceType)>,
)
    requires
        1 <= n.ply < a.stack.len(),
        a.stack.len() == b.stack.len(),
        forall|p: int|
            0 <= p < a.stack.len() && p != n.ply ==> #[trigger] a.stack[p] == b.stack[p],
    ensures
        cutoff_learned(l, a, v, n, c, quiets, captures) == cutoff_learned(
            l,
            b,
            v,
            n,
            c,
            quiets,
            captures,
        ),
{
    lemma_same_keys(a, b, n.ply as int);
    assert(a.stack[n.ply - 1] == b.stack[n.ply - 1]);
    if c.captured is None {
        let bonus = history_bonus(n.depth) as int;
        let to = c.m.to() as usize;
        let first = l.with_main(c.us, c.m, bonus).with_pawn(
            c.pawn_key,
            c.pc,
            to,
            bonus * PAWN_HISTORY_BONUS_SCALE,
        ).with_low_ply(n.ply, c.m, bonus);
        lemma_same_debits(first, a, b, v, n, c, quiets);
    }
}

proof fn lemma_same_keys(a: Seen, b: Seen, ply: int)
    requires
        1 <= ply < a.stack.len(),
        a.stack.len() == b.stack.len(),
        forall|p: int|
            0 <= p < a.stack.len() && p != ply ==> #[trigger] a.stack[p] == b.stack[p],
    ensures
        a.key_before(ply, 1) == b.key_before(ply, 1),
        a.key_before(ply, 2) == b.key_before(ply, 2),
        a.key_before(ply, 4) == b.key_before(ply, 4),
{
    assert(a.stack[ply - 1] == b.stack[ply - 1]);
    if ply >= 2 {
        assert(a.stack[ply - 2] == b.stack[ply - 2]);
    }
    if ply >= 4 {
        assert(a.stack[ply - 4] == b.stack[ply - 4]);
    }
}

proof fn lemma_same_debits(
    l: Lore,
    a: Seen,
    b: Seen,
    v: PosView,
    n: Node,
    c: Tried,
    quiets: Seq<Move>,
)
    requires
        a.key_before(n.ply as int, 1) == b.key_before(n.ply as int, 1),
        a.key_before(n.ply as int, 2) == b.key_before(n.ply as int, 2),
        a.key_before(n.ply as int, 4) == b.key_before(n.ply as int, 4),
    ensures
        quiets_debited(l, a, v, n, c, quiets) == quiets_debited(l, b, v, n, c, quiets),
    decreases quiets.len(),
{
    if quiets.len() > 0 {
        lemma_same_debits(l, a, b, v, n, c, quiets.drop_last());
    }
}

impl Searcher {
    /// Credits the move that caused a cutoff and debits those tried before it; a quiet one
    /// becomes a killer and the answer to the previous move.
    #[verifier::rlimit(60)]
    pub(crate) fn reward_cutoff(
        &mut self,
        pos: &Position,
        n: &Node,
        c: &Tried,
        quiets: &Vec<Move>,
        captures: &Vec<(Move, PieceType)>,
    )
        requires
            old(self).wf(),
            pos.wf(),
            1 <= n.ply < MAX_PLY - 1,
            1 <= n.depth <= 130,
            c.pc.0 < 12,
            forall|i: int| 0 <= i < quiets@.len() ==> pos@.pseudo(#[trigger] quiets@[i]),
            forall|i: int| 0 <= i < captures@.len() ==> pos@.pseudo((#[trigger] captures@[i]).0),
        ensures
            final(self).wf(),
            *final(self) == (Searcher {
                hist: final(self).hist,
                stack: final(self).stack,
                ..*old(self)
            }),
            forall|p: int|
                0 <= p < STACK_SIZE && p != n.ply ==> #[trigger] final(self).stack@[p] == old(
                    self,
                ).stack@[p],
            c.captured is None ==> final(self).stack@[n.ply as int].killers == ({
                let k = old(self).stack@[n.ply as int].killers;
                if k.0 == c.m {
                    k
                } else {
                    (c.m, k.0)
                }
            }),
            c.captured is Some ==> final(self).stack == old(self).stack,
            final(self).hist@ == cutoff_learned(
                old(self).hist@,
                old(self).seen(),
                pos@,
                *n,
                *c,
                quiets@,
                captures@,
            ),
    {
        let ghost o = *self;
        let ghost v = pos@;
        let ply = n.ply;
        let bonus = history_bonus(n.depth);
        let to = c.m.to_sq() as usize;
        match c.captured {
            None => {
                // Credit the cutoff quiet, penalise the quiets tried before it.
                self.update_main_history(c.us, c.m, bonus);
                self.update_pawn_history(c.pawn_key, c.pc, to, bonus * PAWN_HISTORY_BONUS_SCALE);
                self.update_low_ply_history(ply, c.m, bonus);
                let ghost l = self.hist@;
                let mut i: usize = 0;
                proof {
                    assert(quiets@.subrange(0, 0) =~= Seq::<Move>::empty());
                }
                while i < quiets.len()
                    invariant
                        i <= quiets@.len(),
                        v == pos@,
                        self.wf(),
                        self.only_learned(&o),
                        ply < MAX_PLY,
                        ply == n.ply,
                        bonus == history_bonus(n.depth),
                        self.hist@ == quiets_debited(
                            l,
                            o.seen(),
                            v,
                            *n,
                            *c,
                            quiets@.subrange(0, i as int),
                        ),
                        -2000 <= bonus <= 2000,
                        forall|k: int| 0 <= k < quiets@.len() ==> v.pseudo(#[trigger] quiets@[k]),
                    decreases quiets@.len() - i,
                {
                    let q = quiets[i];
                    let ghost done = quiets@.subrange(0, i as int);
                    i += 1;
                    proof {
                        let more = quiets@.subrange(0, i as int);
                        assert(more.drop_last() =~= done && more.last() == q);
                    }
                    if q != c.m {
                        let qpc = pos.moved_piece(q);
                        proof {
                            lemma_mover(v, q);
                        }
                        let qto = q.to_sq() as usize;
                        self.update_main_history(c.us, q, -bonus);
                        self.update_pawn_history(
                            c.pawn_key,
                            qpc,
                            qto,
                            -bonus * PAWN_HISTORY_MALUS_SCALE,
                        );
                        self.update_low_ply_history(ply, q, -bonus);
                        self.update_continuation_histories(ply, n.in_check, qpc, qto, -bonus);
                    }
                }
                proof {
                    assert(quiets@.subrange(0, i as int) =~= quiets@);
                }
                self.update_continuation_histories(ply, n.in_check, c.pc, to, bonus);
                // Killers: a duplicate is not shifted into the second slot.
                let mut e = self.stack[ply];
                if e.killers.0 != c.m {
                    e.killers = (c.m, e.killers.0);
                }
                self.put(ply, e);
                // Countermove
                let prev = self.stack[ply - 1];
                if prev.current_move.is_ok() && prev.moved_piece.is_some() {
                    let slot = counter_index(prev.moved_piece, prev.current_move.to_sq() as usize);
                    self.hist.countermoves.set(slot, c.m);
                }
            },
            Some(cap) => {
                self.update_capture_history(c.pc, to, cap, bonus);
            },
        }
        let ghost mid = *self;
        // Captures tried before the cutoff did not produce one.
        let mut i: usize = 0;
        proof {
            assert(captures@.subrange(0, 0) =~= Seq::<(Move, PieceType)>::empty());
        }
        while i < captures.len()
            invariant
                i <= captures@.len(),
                v == pos@,
                self.wf(),
                self.only_learned(&mid),
                bonus == history_bonus(n.depth),
                self.hist@ == captures_debited(
                    mid.hist@,
                    v,
                    *n,
                    *c,
                    captures@.subrange(0, i as int),
                ),
                -2000 <= bonus <= 2000,
                forall|k: int| 0 <= k < captures@.len() ==> v.pseudo((#[trigger] captures@[k]).0),
            decreases captures@.len() - i,
        {
            let (cm, cap) = captures[i];
            let ghost done = captures@.subrange(0, i as int);
            i += 1;
            proof {
                let more = captures@.subrange(0, i as int);
                assert(more.drop_last() =~= done && more.last() == (cm, cap));
            }
            if cm != c.m {
                let cpc = pos.moved_piece(cm);
                proof {
                    lemma_mover(v, cm);
                }
                self.update_capture_history(cpc, cm.to_sq() as usize, cap, -bonus);
            }
        }
        proof {
            assert(captures@.subrange(0, i as int) =~= captures@);
        }
    }

    /// Learns from the result of a node.
    #[verifier::rlimit(40)]
    #[verifier::spinoff_prover]
    pub(crate) fn learn_result(
        &mut self,
        pos: &Position,
        n: &Node,
        best: Value,
        bound: Bound,
        best_move: Move,
    )
        requires
            old(self).wf(),
            pos.wf(),
            1 <= n.ply < MAX_PLY - 1,
            1 <= n.depth <= 130,
            -36500 <= n.raw_eval <= 36500,
            n.prev_move < LASTMOVE_CORRHIST_SIZE,
            -SCORE_LIMIT <= best <= SCORE_LIMIT,
        ensures
            final(self).wf(),
            final(self).only_learned(old(self)),
            final(self).hist@ == result_learned(
                old(self).hist@,
                old(self).seen(),
                pos@,
                *n,
                best,
                bound,
                best_move,
            ),
    {
        let ghost o = *self;
        self.note_table_move(n, best_move);
        let ghost a = *self;
        self.credit_previous(pos, n, best);
        proof {
            assert(previous_credited(a.hist@, a.seen(), pos@, *n, best) == previous_credited(
                a.hist@,
                o.seen(),
                pos@,
                *n,
                best,
            ));
        }
        if !n.in_check && n.excluded.is_none() {
            let quiet = best_move.is_none() || (!pos.is_capture(best_move)
                && !best_move.is_promotion());
            let agrees = match bound {
                Bound::Lower => best >= n.raw_eval,
                Bound::Upper => best <= n.raw_eval,
                Bound::Exact => true,
                Bound::Empty => false,
            };
            if quiet && agrees {
                self.update_correction_history(pos, n.depth, n.raw_eval, best, n.prev_move);
            }
        }
    }

    /// Reliability of the table's moves (non-PV only for clean statistics).
    fn note_table_move(&mut self, n: &Node, best_move: Move)
        requires
            old(self).wf(),
        ensures
            final(self).wf(),
            final(self).only_learned(old(self)),
            final(self).hist@ == table_noted(old(self).hist@, *n, best_move),
    {
        if n.node_type != NodeType::PV && best_move.is_some() {
            let delta: i32 = if best_move == canonical_code(n.tt_move) {
                809
            } else {
                -865
            };
            self.hist.tt_move_history = reliability(self.hist.tt_move_history, delta);
        }
    }

    /// Nothing raised alpha: the opponent's previous quiet was good.
    fn credit_previous(&mut self, pos: &Position, n: &Node, best: Value)
        requires
            old(self).wf(),
            pos.wf(),
            1 <= n.ply < MAX_PLY - 1,
            1 <= n.depth <= 130,
        ensures
            final(self).wf(),
            final(self).only_learned(old(self)),
            final(self).hist@ == previous_credited(
                old(self).hist@,
                old(self).seen(),
                pos@,
                *n,
                best,
            ),
    {
        let us = pos.side_to_move();
        let ply = n.ply;
        let prev = self.stack[ply - 1];
        if best <= n.alpha && !prev.is_capture && prev.current_move.is_ok()
            && prev.moved_piece.is_some() {
            let bonus: i32 = div_toward_zero(history_bonus(n.depth) as i64, 2) as i32;
            let to = prev.current_move.to_sq() as usize;
            self.update_continuation_histories(ply - 1, n.in_check, prev.moved_piece, to, bonus);
            self.update_main_history(us.flip(), prev.current_move, bonus);
            if prev.moved_piece.piece_type() != PieceType::Pawn
                && !prev.current_move.is_promotion() {
                self.update_pawn_history(
                    pos.pawn_key(),
                    prev.moved_piece,
                    to,
                    bonus * PAWN_HISTORY_BONUS_SCALE,
                );
            }
        }
    }
}

} // verus!
