//! The root of the search: ordering and searching the root moves, aspiration windows and
//! iterative deepening.

use vstd::prelude::*;

use crate::arith::{div_toward_zero, quot};
use crate::decisions::bound_of;
use crate::history::{main_index, pawn_index};
use crate::journal::{extends, lemma_told, tells_to_stop, told_to_stop, Event, RootCall};
use crate::lines::{lemma_line_before, playable_line};
use crate::movegen::{generate_legal, tested};
use crate::movepick::lemma_no_none;
use crate::moves::lemma_adds_contains;
use crate::ordering::capture_sort_key;
use crate::params::{
    ASPIRATION_FAIL_MULT, ASPIRATION_MAX_RETRIES, ASPIRATION_MAX_WINDOW, ASPIRATION_WINDOW,
    SEE_WINNING_THRESHOLD, SORT_HASH, SORT_LOSING_CAPTURE, SORT_WINNING_CAPTURE,
};
use crate::perft::play_move;
use crate::position::Position;
use crate::records::{
    evaluated, has_tried, lemma_root_led, lemma_root_searched, lemma_root_tries,
    lemma_searched_more, lemma_searched_on, lemma_top_more, lemma_tried_more, root_accounted,
    root_at, root_led, root_line, root_outcome, root_reply, root_searched, root_stored, root_try,
    searched_to, top, Try,
};
use crate::rootlist::{
    add_root_nodes, age_roots, goes_before, heads_list, lists_move, move_up, put_in_order, roots_ok,
    same_roots, set_root_line, set_root_score, sort_roots,
};
use crate::rules::PosView;
use crate::search::{evaluate_at, lemma_evaluated, probe, store, stores};
use crate::searcher::{Begin, Host, Iteration, NodeType, RootMove, Searcher, LINES, SCORE_LIMIT};
use crate::timeman::Limits;
use crate::tt::{value_to_tt, Store};
use crate::types::{
    is_win, mate_in, mated_in, Move, MoveList, Value, MAX_PLY, VALUE_INFINITE, VALUE_MATE,
    VALUE_NONE,
};

verus! {

fn copy_line(line: &Vec<Move>) -> (r: Vec<Move>)
    ensures
        r@ == line@,
{
    let mut r: Vec<Move> = Vec::new();
    let mut i: usize = 0;
    while i < line.len()
        invariant
            i <= line@.len(),
            r@ == line@.subrange(0, i as int),
        decreases line@.len() - i,
    {
        r.push(line[i]);
        proof {
            assert(line@.subrange(0, i + 1) =~= line@.subrange(0, i as int).push(line@[i as int]));
        }
        i += 1;
    }
    proof {
        assert(line@.subrange(0, i as int) =~= line@);
    }
    r
}

/// Nodes spent since a count was taken.
#[verifier::allow_in_spec]
fn spent(now: u64, before: u64) -> u64
    returns
        (if now >= before {
            (now - before) as u64
        } else {
            0
        }),
{
    if now >= before {
        now - before
    } else {
        0
    }
}

fn add_nodes(a: u64, b: u64) -> (r: u64)
    ensures
        r == (if a + b <= u64::MAX {
            a + b
        } else {
            u64::MAX as int
        }),
{
    if a <= u64::MAX - b {
        a + b
    } else {
        u64::MAX
    }
}

/// Everything but the root moves and what a search learns is as in `o`. Nodes and journal
/// only grow, and the search stops only where the host says so.
pub open spec fn same_but_roots(s: &Searcher, o: &Searcher) -> bool {
    &&& s.wf()
    &&& extends(o.journal@, s.journal@)
    &&& o.nodes <= s.nodes
    &&& o.stopped ==> s.stopped
    &&& s.stopped && !o.stopped ==> told_to_stop(s.journal@, o.journal@.len() as int)
    &&& s.thread_id == o.thread_id
    &&& s.cuckoo == o.cuckoo
    &&& s.reductions == o.reductions
    &&& s.multipv == o.multipv
    &&& s.skill_level == o.skill_level
}

/// Depth of a thread's first iteration: helpers with odd ids run ahead.
pub open spec fn first_depth(thread_id: usize, max_depth: i32) -> int {
    if thread_id % 2 == 1 {
        if max_depth < 3 {
            max_depth as int
        } else {
            3
        }
    } else {
        1
    }
}

/// The only root move was scored without a search because a clock is running.
pub open spec fn forced_by_clock(s: &Searcher, o: &Searcher, v: PosView, limits: &Limits) -> bool {
    let from = o.journal@.len() as int;
    &&& s.root_moves@.len() == 1 && o.thread_id == 0 && !limits.infinite && limits.depth == 0
    &&& s.journal@.len() > from && s.journal@[from] == Event::Clocked(true)
    &&& s.completed_depth == 1
    &&& exists|raw: Value| #[trigger]
        evaluated(s.journal@, from, v, raw) && s.prev_score == o.seen().corrected(v, 0, raw)
}

impl Searcher {
    /// Rank of a root move in the order of search: the move of the best line, the table's
    /// move, captures by victim and exchange, quiet moves by history.
    pub open spec fn root_rank(&self, v: PosView, prev_pv: Move, tt_move: Move, m: Move) -> int {
        let pc = v.mover(m);
        if m == prev_pv {
            SORT_HASH + 1
        } else if m == tt_move {
            SORT_HASH as int
        } else if v.in_capture_stage(m) {
            v.capture_key(m) + if v.see_value(m) >= SEE_WINNING_THRESHOLD {
                SORT_WINNING_CAPTURE as int
            } else {
                SORT_LOSING_CAPTURE as int
            }
        } else {
            2 * self.hist.main@[main_index(pc.color(), m.from_to()) as int] + 2
                * self.hist.pawn@[pawn_index(v.st().pawn_key, pc, m.to() as usize) as int] + 8
                * self.hist.low_ply@[m.from_to() as int]
        }
    }

    fn root_key(&self, pos: &Position, prev_pv: Move, tt_move: Move, m: Move) -> (r: i32)
        requires
            self.wf(),
            pos.wf(),
            pos@.pseudo(m),
        ensures
            r == self.root_rank(pos@, prev_pv, tt_move, m),
    {
        if m == prev_pv {
            return SORT_HASH + 1;
        }
        if m == tt_move {
            return SORT_HASH;
        }
        if pos.is_capture_stage(m) {
            let base = capture_sort_key(pos, m);
            return if pos.see_ge(m, SEE_WINNING_THRESHOLD) {
                base + SORT_WINNING_CAPTURE
            } else {
                base + SORT_LOSING_CAPTURE
            };
        }
        let pc = pos.moved_piece(m);
        assert(pc.0 < 12);
        2 * self.main_hist(pc.color(), m) + 2 * self.pawn_hist(
            pos.pawn_key(),
            pc,
            m.to_sq() as usize,
        ) + 8 * self.low_ply_hist(0, m)
    }

    /// The move whose line led before, as far as there is one.
    pub open spec fn leading(&self) -> Move {
        let rm = self.root_moves@[self.pv_idx as int];
        if self.completed_depth > 0 || rm.prev_score != -VALUE_INFINITE {
            rm.mv
        } else {
            Move(0)
        }
    }

    /// Orders `root_moves[pv_idx..]`: the previous PV/TT move first, captures by
    /// MVV-LVA+SEE, quiets by history (previous-iteration scores are not used: only the
    /// PV move has a real score, the rest are noisy fail-low bounds).
    pub fn order_root_moves(&mut self, pos: &Position, tt_move: Move)
        requires
            old(self).wf(),
            pos.wf(),
            old(self).pv_idx < old(self).root_moves@.len(),
            roots_ok(old(self).root_moves@, pos@),
        ensures
            final(self).wf(),
            *final(self) == (Searcher { root_moves: final(self).root_moves, ..*old(self) }),
            same_roots(old(self).root_moves@, final(self).root_moves@),
            roots_ok(final(self).root_moves@, pos@),
            exists|keys: Seq<i32>, p: Seq<int>|
                {
                    &&& keys.len() == old(self).root_moves@.len()
                    &&& forall|i: int|
                        old(self).pv_idx <= i < keys.len() ==> #[trigger] keys[i] == old(
                            self,
                        ).root_rank(
                            pos@,
                            old(self).leading(),
                            tt_move,
                            old(self).root_moves@[i].mv,
                        )
                    &&& #[trigger] put_in_order(
                        old(self).root_moves@,
                        final(self).root_moves@,
                        keys,
                        old(self).pv_idx as int,
                        keys.len() as int,
                        p,
                    )
                },
    {
        let ghost o = *self;
        let ghost v = pos@;
        let n = self.root_moves.len();
        let first = self.pv_idx;
        let prev_pv = if self.completed_depth > 0 || self.root_moves[first].prev_score
            != -VALUE_INFINITE {
            self.root_moves[first].mv
        } else {
            Move::none()
        };
        let mut keys: Vec<i32> = Vec::new();
        let mut i: usize = 0;
        while i < n
            invariant
                i <= n == o.root_moves@.len(),
                *self == o,
                self.wf(),
                pos.wf(),
                v == pos@,
                first == o.pv_idx,
                prev_pv == o.leading(),
                roots_ok(o.root_moves@, v),
                keys@.len() == i,
                forall|k: int|
                    first <= k < i ==> #[trigger] keys@[k] == o.root_rank(
                        v,
                        prev_pv,
                        tt_move,
                        o.root_moves@[k].mv,
                    ),
            decreases n - i,
        {
            let key: i32 = if i < first {
                0
            } else {
                let m = self.root_moves[i].mv;
                assert(o.root_moves@[i as int].ok(v));
                self.root_key(pos, prev_pv, tt_move, m)
            };
            keys.push(key);
            i += 1;
        }
        sort_roots(&mut self.root_moves, &keys, first, n, Ghost(v));
        proof {
            let p = choose|p: Seq<int>|
                put_in_order(
                    o.root_moves@,
                    self.root_moves@,
                    keys@,
                    first as int,
                    n as int,
                    p,
                );
            assert(put_in_order(
                o.root_moves@,
                self.root_moves@,
                keys@,
                o.pv_idx as int,
                keys@.len() as int,
                p,
            ));
        }
    }

    /// Searches the position after a root move: the first with the full window, the others
    /// with a null window and again where they come out inside.
    #[verifier::spinoff_prover]
    fn search_root_move<H: Host>(
        &mut self,
        host: &mut H,
        pos: &mut Position,
        m: Move,
        depth: i32,
        alpha: Value,
        beta: Value,
        first: bool,
        in_check: bool,
    ) -> (r: (Value, Ghost<Try>))
        requires
            old(self).wf(),
            old(pos).wf(),
            old(pos)@.searchable(0),
            old(pos)@.legal(m),
            in_check == old(pos)@.in_check(),
            1 <= depth <= 127,
            -VALUE_INFINITE <= alpha < beta <= VALUE_INFINITE,
        ensures
            final(self).kept(old(self), 1),
            playable_line(old(pos)@, seq![m] + final(self).lines@[1]@),
            final(pos).wf(),
            final(pos)@ == old(pos)@,
            final(pos).keys == old(pos).keys,
            -SCORE_LIMIT <= r.0 <= SCORE_LIMIT,
            !final(self).stopped ==> r.1@.m == m && r.1@.score == r.0 && root_reply(
                final(self).journal@,
                old(self).journal@.len() as int,
                old(pos)@,
                depth as int,
                alpha,
                beta,
                first,
                r.1@,
            ) && final(self).lines@[1]@ == final(self).journal@[r.1@.at]->Node_0.line,
    {
        let ghost v = pos@;
        let us = pos.side_to_move();
        let pc = pos.moved_piece(m);
        let is_capture = pos.is_capture(m);
        self.set_ctx(0, m, pc, in_check, is_capture);
        let stat = self.main_hist(us, m);
        self.set_stat_score(0, stat);
        play_move(pos, m);
        let ghost w = pos@;
        proof {
            assert(v.room(MAX_PLY - 0 + 1));
            assert(w.room(MAX_PLY - 1 + 1));
        }
        let score: Value = if first {
            let s = self.negamax(
                host,
                pos,
                depth - 1,
                1,
                -beta,
                -alpha,
                NodeType::PV,
                true,
                Move::none(),
            );
            -s
        } else {
            let s = self.negamax(
                host,
                pos,
                depth - 1,
                1,
                -alpha - 1,
                -alpha,
                NodeType::Cut,
                true,
                Move::none(),
            );
            if -s > alpha && -s < beta && !self.stopped {
                let again = self.negamax(
                    host,
                    pos,
                    depth - 1,
                    1,
                    -beta,
                    -alpha,
                    NodeType::PV,
                    true,
                    Move::none(),
                );
                -again
            } else {
                -s
            }
        };
        pos.unmake_move(m);
        proof {
            lemma_line_before(v, w, m, self.lines@[1]@);
        }
        (score, Ghost(Try { m, at: self.journal@.len() - 1, score }))
    }

    /// What a search of the root moves keeps.
    pub open spec fn root_kept(&self, o: &Searcher, v: PosView) -> bool {
        &&& same_but_roots(self, o)
        &&& self.pv_idx == o.pv_idx
        &&& self.completed_depth == o.completed_depth
        &&& self.prev_score == o.prev_score
        &&& self.seek_mate == o.seek_mate
        &&& same_roots(o.root_moves@, self.root_moves@)
        &&& roots_ok(self.root_moves@, v)
        &&& self.best_move_root == o.best_move_root || lists_move(
            self.root_moves@,
            self.best_move_root,
        )
        &&& forall|i: int| 0 <= i < self.pv_idx ==> #[trigger] self.root_moves@[i]
            == o.root_moves@[i]
    }

    /// The line `k` has been searched with the result `r` and leads those after it.
    pub open spec fn leads(&self, k: int, r: Value) -> bool {
        &&& self.root_moves@[k].score == r
        &&& self.lines@[0]@ == self.root_moves@[k].pv@
        &&& forall|i: int|
            k < i < self.root_moves@.len() ==> (#[trigger] self.root_moves@[i]).score <= r
    }

    /// Takes the score of root move `idx` into account. A move that raises alpha, or the
    /// first, becomes the leading one.
    #[verifier::spinoff_prover]
    fn settle_root(&mut self, Ghost(v): Ghost<PosView>, idx: usize, score: Value, raises: bool)
        requires
            old(self).wf(),
            roots_ok(old(self).root_moves@, v),
            old(self).pv_idx <= idx < old(self).root_moves@.len(),
            -SCORE_LIMIT <= score <= SCORE_LIMIT,
            playable_line(v, seq![old(self).root_moves@[idx as int].mv] + old(self).lines@[1]@),
        ensures
            final(self).root_kept(old(self), v),
            final(self).stopped == old(self).stopped,
            final(self).nodes == old(self).nodes,
            final(self).journal == old(self).journal,
            raises ==> ({
                let rm = final(self).root_moves@[old(self).pv_idx as int];
                &&& rm.mv == old(self).root_moves@[idx as int].mv
                &&& rm.score == score
                &&& rm.pv@ == seq![rm.mv] + old(self).lines@[1]@
                &&& final(self).lines@[0]@ == rm.pv@
                &&& old(self).pv_idx == 0 ==> final(self).best_move_root == rm.mv
                &&& forall|i: int|
                    old(self).pv_idx < i <= idx ==> #[trigger] final(self).root_moves@[i]
                        == old(self).root_moves@[i - 1]
            }),
            !raises ==> final(self).root_moves@ == old(self).root_moves@.update(
                idx as int,
                RootMove { score: (-VALUE_INFINITE) as i32, ..old(self).root_moves@[idx as int] },
            ) && final(self).best_move_root == old(self).best_move_root && final(self).lines
                == old(self).lines,
    {
        let ghost o = *self;
        let first = self.pv_idx;
        if raises {
            let m = self.root_moves[idx].mv;
            self.update_pv(0, m);
            let line = copy_line(&self.lines[0]);
            set_root_line(&mut self.root_moves, idx, score, line, Ghost(v));
            let ghost mid = self.root_moves@;
            // A new best line: move it to the front of the unsearched block.
            if idx > first {
                move_up(&mut self.root_moves, idx, first, Ghost(v));
            }
            if first == 0 {
                self.best_move_root = self.root_moves[first].mv;
                proof {
                    assert(self.root_moves@[0].mv == self.best_move_root);
                }
            }
        } else {
            // Fail-low bound: the score stands for none.
            set_root_score(&mut self.root_moves, idx, -VALUE_INFINITE, Ghost(v));
        }
    }

    /// The search of the root moves, as the journal has it.
    pub open spec fn root_call(
        &self,
        v: PosView,
        depth: i32,
        alpha: Value,
        beta: Value,
        moves: Seq<RootMove>,
        r: Value,
    ) -> RootCall {
        RootCall {
            start: self.journal@.len() as int,
            v,
            depth,
            pv_idx: self.pv_idx as int,
            alpha,
            beta,
            moves,
            r,
        }
    }

    /// PVS over `root_moves[pv_idx..]`; updates their scores and PVs. Unless the search was
    /// stopped, the last entry of the journal is this search, accounted for by the entries
    /// before it.
    #[verifier::spinoff_prover]
    #[verifier::rlimit(40)]
    pub fn search_root<H: Host>(
        &mut self,
        host: &mut H,
        pos: &mut Position,
        depth: i32,
        alpha: Value,
        beta: Value,
    ) -> (r: Value)
        requires
            old(self).wf(),
            old(pos).wf(),
            old(pos)@.searchable(0),
            roots_ok(old(self).root_moves@, old(pos)@),
            old(self).pv_idx < old(self).root_moves@.len(),
            1 <= depth <= 127,
            -VALUE_INFINITE <= alpha < beta <= VALUE_INFINITE,
        ensures
            final(self).root_kept(old(self), old(pos)@),
            final(pos).wf(),
            final(pos)@ == old(pos)@,
            final(pos).keys == old(pos).keys,
            -SCORE_LIMIT <= r <= SCORE_LIMIT,
            !final(self).stopped && old(self).pv_idx == 0 ==> final(self).best_move_root
                == final(self).root_moves@[0].mv,
            !final(self).stopped ==> ({
                let k = old(self).pv_idx as int;
                let rm = final(self).root_moves@[k];
                &&& rm.score <= r
                &&& r > alpha ==> rm.score == r
                &&& final(self).lines@[0]@ == rm.pv@
                &&& r < beta && rm.score >= -VALUE_INFINITE ==> forall|i: int|
                    k < i < final(self).root_moves@.len() ==> (
                    #[trigger] final(self).root_moves@[i]).score <= rm.score
            }),
            !final(self).stopped ==> ({
                let log = final(self).journal@;
                let c = old(self).root_call(
                    old(pos)@,
                    depth,
                    alpha,
                    beta,
                    final(self).root_moves@,
                    r,
                );
                &&& log.len() > old(self).journal@.len()
                &&& log.last() == Event::Root(c)
                &&& root_accounted(log.drop_last(), c)
            }),
    {
        let ghost v = pos@;
        let ghost o = *self;
        let mut alpha = alpha;
        let alpha_orig = alpha;
        self.clear_pv(0);
        let mut e2 = self.stack[2];
        e2.cutoff_cnt = 0;
        e2.stat_score = 0;
        self.put(2, e2);
        self.set_stat_score(4, 0);
        self.set_reduction(0, 0);
        let key = pos.key();
        let tt_move = match probe(&mut self.journal, host, key) {
            Some(d) => d.mv,
            None => Move::none(),
        };
        let in_check = pos.in_check();
        let mut e0 = self.stack[0];
        e0.static_eval = if in_check {
            0
        } else {
            let raw = evaluate_at(&mut self.journal, host, pos);
            self.adjusted_eval(pos, raw, 0)
        };
        self.put(0, e0);
        self.order_root_moves(pos, tt_move);
        let first = self.pv_idx;
        let mut best: Value = -VALUE_INFINITE;
        let mut best_move = Move::none();
        proof {
            assert forall|i: int| 0 <= i < first implies #[trigger] self.root_moves@[i]
                == o.root_moves@[i] by {
                let (keys, p) = choose|keys: Seq<i32>, p: Seq<int>|
                    #[trigger] put_in_order(
                        o.root_moves@,
                        self.root_moves@,
                        keys,
                        first as int,
                        keys.len() as int,
                        p,
                    );
                assert(p[i] == i);
            }
        }
        let mut idx: usize = first;
        let ghost mut tries: Seq<Try> = Seq::empty();
        let ghost call = o.root_call(v, depth, alpha_orig, beta, Seq::empty(), 0);
        while idx < self.root_moves.len() && alpha < beta
            invariant
                v == pos@,
                v == old(pos)@,
                o == *old(self),
                pos.wf(),
                pos.keys == old(pos).keys,
                v.searchable(0),
                self.root_kept(&o, v),
                first == o.pv_idx,
                first < o.root_moves@.len(),
                first <= idx <= o.root_moves@.len(),
                in_check == v.in_check(),
                1 <= depth <= 127,
                -VALUE_INFINITE <= alpha,
                beta <= VALUE_INFINITE,
                idx == first ==> alpha < beta,
                -SCORE_LIMIT <= best <= SCORE_LIMIT,
                idx > first && first == 0 ==> self.best_move_root == self.root_moves@[0].mv,
                idx == first ==> alpha == alpha_orig && best == -VALUE_INFINITE,
                alpha == (if best > alpha_orig {
                    best
                } else {
                    alpha_orig
                }),
                -VALUE_INFINITE <= alpha_orig,
                call == o.root_call(v, depth, alpha_orig, beta, Seq::empty(), 0),
                tries.len() == idx - first,
                best == top(tries, tries.len() as int, (-VALUE_INFINITE) as Value),
                alpha == top(tries, tries.len() as int, alpha_orig),
                forall|i: int|
                    0 <= i < tries.len() ==> #[trigger] root_try(self.journal@, call, tries, i),
                forall|j: int|
                    first <= j < idx ==> has_tried(tries, (#[trigger] self.root_moves@[j]).mv),
                idx > first ==> exists|i: int|
                    0 <= i < tries.len() && root_line(
                        self.journal@,
                        #[trigger] tries[i],
                        self.root_moves@[first as int],
                    ),
                idx > first ==> ({
                    let rm = self.root_moves@[first as int];
                    &&& rm.score <= best
                    &&& best > alpha_orig ==> rm.score == best
                    &&& self.lines@[0]@ == rm.pv@
                    &&& forall|i: int|
                        first < i < idx ==> (#[trigger] self.root_moves@[i]).score <= rm.score
                            || self.root_moves@[i].score <= -VALUE_INFINITE
                }),
            decreases o.root_moves@.len() - idx,
        {
            let m = self.root_moves[idx].mv;
            proof {
                assert(self.root_moves@[idx as int].ok(v));
            }
            let before = self.nodes;
            host.searching(pos, depth, m, idx + 1);
            let leads = idx == first;
            let ghost log = self.journal@;
            let ghost list = self.root_moves@;
            let (score, Ghost(t)) = self.search_root_move(
                host,
                pos,
                m,
                depth,
                alpha,
                beta,
                leads,
                in_check,
            );
            let cost = spent(self.nodes, before);
            add_root_nodes(&mut self.root_moves, idx, cost, Ghost(v));
            if self.stopped {
                return best;
            }
            let raises = leads || score > alpha;
            self.settle_root(Ghost(v), idx, score, raises);
            proof {
                lemma_root_tries(log, self.journal@, call, tries, t);
                lemma_top_more(tries, t, (-VALUE_INFINITE) as Value);
                lemma_top_more(tries, t, alpha_orig);
                lemma_tried_more(tries, t);
                assert(tries.push(t)[tries.len() as int] == t);
                if !raises {
                    let i = choose|i: int|
                        0 <= i < tries.len() && root_line(
                            log,
                            #[trigger] tries[i],
                            list[first as int],
                        );
                    assert(tries.push(t)[i] == tries[i]);
                    assert(root_try(log, call, tries, i));
                    assert(self.journal@[tries[i].at] == log[tries[i].at]);
                    assert(root_line(
                        self.journal@,
                        tries.push(t)[i],
                        self.root_moves@[first as int],
                    ));
                } else {
                    assert(root_line(
                        self.journal@,
                        tries.push(t)[tries.len() as int],
                        self.root_moves@[first as int],
                    ));
                }
                assert forall|j: int| first <= j < idx + 1 implies has_tried(
                    tries.push(t),
                    (#[trigger] self.root_moves@[j]).mv,
                ) by {
                    if raises && j > first {
                        assert(has_tried(tries, list[j - 1].mv));
                    } else if !raises && j < idx {
                        assert(has_tried(tries, list[j].mv));
                    }
                }
                tries = tries.push(t);
            }
            if score > alpha {
                alpha = score;
            }
            if score > best {
                best = score;
                best_move = m;
            }
            if leads {
                self.best_move_nodes = add_nodes(self.best_move_nodes, cost);
            }
            idx += 1;
        }
        let ghost log = self.journal@;
        if first == 0 {
            let tt_best = if self.lines[0].len() > 0 {
                self.lines[0][0]
            } else {
                best_move
            };
            store(
                &mut self.journal,
                host,
                key,
                Store {
                    depth,
                    bound: bound_of(best, alpha_orig, beta),
                    is_pv: true,
                    score: value_to_tt(best, 0),
                    eval: VALUE_NONE,
                    mv: tt_best,
                },
            );
        }
        let ghost c = o.root_call(v, depth, alpha_orig, beta, self.root_moves@, best);
        let ghost last = self.journal@;
        proof {
            assert forall|i: int| 0 <= i < tries.len() implies #[trigger] root_try(
                last,
                c,
                tries,
                i,
            ) by {
                assert(root_try(log, call, tries, i));
                assert(last[tries[i].at] == log[tries[i].at]);
            }
            if first == 0 {
                let rm = self.root_moves@[0];
                assert(rm.ok(v));
                assert(stores(
                    log,
                    last,
                    key,
                    Store {
                        depth,
                        bound: bound_of(best, alpha_orig, beta),
                        is_pv: true,
                        score: value_to_tt(best, 0),
                        eval: VALUE_NONE,
                        mv: rm.mv,
                    },
                ));
                assert(root_stored(last, c));
            }
            let i = choose|i: int|
                0 <= i < tries.len() && root_line(
                    log,
                    #[trigger] tries[i],
                    self.root_moves@[first as int],
                );
            assert(root_try(log, call, tries, i));
            assert(root_line(last, tries[i], self.root_moves@[first as int]));
            assert(root_outcome(last, c, tries));
            reveal(root_accounted);
        }
        self.journal.record(Ghost(Event::Root(c)));
        proof {
            assert(self.journal@.drop_last() =~= last);
        }
        best
    }

    /// Searches the line `pv_idx` to a depth: with the full window at first, later with a
    /// window around the score before, widened on whichever side the score falls outside.
    #[verifier::spinoff_prover]
    pub fn search_line<H: Host>(&mut self, host: &mut H, pos: &mut Position, depth: i32) -> (r:
        Value)
        requires
            old(self).wf(),
            old(pos).wf(),
            old(pos)@.searchable(0),
            roots_ok(old(self).root_moves@, old(pos)@),
            old(self).pv_idx < old(self).root_moves@.len(),
            1 <= depth <= 127,
        ensures
            final(self).root_kept(old(self), old(pos)@),
            final(pos).wf(),
            final(pos)@ == old(pos)@,
            final(pos).keys == old(pos).keys,
            -SCORE_LIMIT <= r <= SCORE_LIMIT,
            !final(self).stopped && old(self).pv_idx == 0 ==> final(self).best_move_root
                == final(self).root_moves@[0].mv,
            !final(self).stopped && -VALUE_INFINITE < final(self).root_moves@[old(
                self,
            ).pv_idx as int].score < VALUE_INFINITE ==> final(self).leads(
                old(self).pv_idx as int,
                r,
            ),
            // The result is that of a search of the root inside its window, or with the full
            // window.
            !final(self).stopped ==> ({
                let log = final(self).journal@;
                &&& log.len() > old(self).journal@.len()
                &&& log.last() matches Event::Root(c) && {
                    &&& c.v == old(pos)@
                    &&& c.depth == depth
                    &&& c.pv_idx == old(self).pv_idx
                    &&& c.moves == final(self).root_moves@
                    &&& c.r == r
                    &&& c.alpha < r < c.beta || (c.alpha == -VALUE_INFINITE && c.beta
                        == VALUE_INFINITE)
                    &&& root_accounted(log.drop_last(), c)
                }
            }),
    {
        let ghost v = pos@;
        let ghost o = *self;
        let prev = self.root_moves[self.pv_idx].prev_score;
        proof {
            assert(self.root_moves@[self.pv_idx as int].ok(v));
        }
        if depth <= 1 || prev == -VALUE_INFINITE {
            return self.search_root(host, pos, depth, -VALUE_INFINITE, VALUE_INFINITE);
        }
        let mut window: Value = ASPIRATION_WINDOW;
        let mut alpha: Value = window_below(prev, window);
        let mut beta: Value = window_above(prev, window);
        let mut retries: u32 = 0;
        loop
            invariant
                v == pos@,
                v == old(pos)@,
                o == *old(self),
                pos.wf(),
                pos.keys == old(pos).keys,
                v.searchable(0),
                self.root_kept(&o, v),
                o.pv_idx < o.root_moves@.len(),
                1 <= depth <= 127,
                -SCORE_LIMIT <= prev <= SCORE_LIMIT,
                ASPIRATION_WINDOW <= window <= ASPIRATION_MAX_WINDOW,
                retries < ASPIRATION_MAX_RETRIES,
                -VALUE_INFINITE <= alpha < beta <= VALUE_INFINITE,
                alpha <= window_below(prev, ASPIRATION_WINDOW),
                beta >= window_above(prev, ASPIRATION_WINDOW),
            decreases ASPIRATION_MAX_RETRIES - retries,
        {
            let score = self.search_root(host, pos, depth, alpha, beta);
            retries += 1;
            if self.stopped {
                return score;
            }
            if score <= alpha {
                window = window * ASPIRATION_FAIL_MULT;
                alpha = window_below(prev, window);
            } else if score >= beta {
                window = window * ASPIRATION_FAIL_MULT;
                beta = window_above(prev, window);
            } else {
                return score;
            }
            if window > ASPIRATION_MAX_WINDOW || retries >= ASPIRATION_MAX_RETRIES {
                return self.search_root(host, pos, depth, -VALUE_INFINITE, VALUE_INFINITE);
            }
        }
    }

    /// What the iterations keep.
    pub open spec fn iterated(&self, o: &Searcher, v: PosView) -> bool {
        &&& same_but_roots(self, o)
        &&& same_roots(o.root_moves@, self.root_moves@)
        &&& roots_ok(self.root_moves@, v)
        &&& self.best_move_root == o.best_move_root || lists_move(
            self.root_moves@,
            self.best_move_root,
        )
    }

    /// Searches the first lines to a depth, the completed ones kept in score order.
    #[verifier::spinoff_prover]
    fn search_lines<H: Host>(
        &mut self,
        host: &mut H,
        pos: &mut Position,
        depth: i32,
        multipv: usize,
    )
        requires
            old(self).wf(),
            old(pos).wf(),
            old(pos)@.searchable(0),
            roots_ok(old(self).root_moves@, old(pos)@),
            1 <= multipv <= old(self).root_moves@.len(),
            1 <= depth <= 127,
        ensures
            final(self).iterated(old(self), old(pos)@),
            final(self).completed_depth == old(self).completed_depth,
            final(self).prev_score == old(self).prev_score,
            final(self).seek_mate == old(self).seek_mate,
            final(pos).wf(),
            final(pos)@ == old(pos)@,
            final(pos).keys == old(pos).keys,
            !final(self).stopped ==> forall|i: int, j: int|
                0 <= i < j < multipv ==> (#[trigger] final(self).root_moves@[i]).score
                    >= (#[trigger] final(self).root_moves@[j]).score,
            !final(self).stopped && multipv == 1 ==> heads_list(final(self).root_moves@),
            !final(self).stopped ==> root_searched(
                final(self).journal@,
                old(self).journal@.len() as int,
                old(pos)@,
                depth as int,
            ),
            !final(self).stopped ==> forall|i: int|
                0 <= i < multipv ==> root_led(
                    final(self).journal@,
                    old(self).journal@.len() as int,
                    old(pos)@,
                    depth as int,
                    #[trigger] final(self).root_moves@[i],
                ),
    {
        let ghost v = pos@;
        let ghost o = *self;
        let mut k: usize = 0;
        while k < multipv && !self.stopped
            invariant
                v == pos@,
                v == old(pos)@,
                o == *old(self),
                pos.wf(),
                pos.keys == old(pos).keys,
                v.searchable(0),
                k <= multipv <= o.root_moves@.len(),
                1 <= depth <= 127,
                self.iterated(&o, v),
                self.completed_depth == o.completed_depth,
                self.prev_score == o.prev_score,
                self.seek_mate == o.seek_mate,
                !self.stopped ==> forall|i: int, j: int|
                    0 <= i < j < k ==> (#[trigger] self.root_moves@[i]).score
                        >= (#[trigger] self.root_moves@[j]).score,
                !self.stopped && k == 1 ==> heads_list(self.root_moves@),
                !self.stopped && k > 0 ==> root_searched(
                    self.journal@,
                    o.journal@.len() as int,
                    v,
                    depth as int,
                ),
                !self.stopped ==> forall|i: int|
                    0 <= i < k ==> root_led(
                        self.journal@,
                        o.journal@.len() as int,
                        v,
                        depth as int,
                        #[trigger] self.root_moves@[i],
                    ),
            decreases multipv - k + (if self.stopped {
                0int
            } else {
                1
            }),
        {
            self.pv_idx = k;
            let ghost mid = *self;
            let _ = self.search_line(host, pos, depth);
            if !self.stopped {
                // A later line may outscore an earlier one because the earlier pass only
                // bounded it.
                let keys = scores_of(&self.root_moves);
                let ghost a = self.root_moves@;
                let ghost from = o.journal@.len() as int;
                proof {
                    let log = self.journal@;
                    let at = log.len() - 1;
                    assert(root_at(log, from, v, depth as int, k as int, at));
                    if k > 0 {
                        lemma_root_searched(mid.journal@, log, from, from, v, depth as int);
                    }
                    assert forall|i: int| 0 <= i <= k implies root_led(
                        log,
                        from,
                        v,
                        depth as int,
                        #[trigger] a[i],
                    ) by {
                        if i < k {
                            assert(a[i] == mid.root_moves@[i]);
                            lemma_root_led(mid.journal@, log, from, from, v, depth as int, a[i]);
                        }
                    }
                }
                sort_roots(&mut self.root_moves, &keys, 0, k + 1, Ghost(v));
                proof {
                    let hi: int = k + 1;
                    let p = choose|p: Seq<int>|
                        put_in_order(a, self.root_moves@, keys@, 0, hi, p);
                    assert forall|i: int| 0 <= i < hi implies root_led(
                        self.journal@,
                        from,
                        v,
                        depth as int,
                        #[trigger] self.root_moves@[i],
                    ) by {
                        assert(self.root_moves@[i] == a[p[i]]);
                    }
                    assert forall|i: int, j: int| 0 <= i < j < hi implies (
                    #[trigger] self.root_moves@[i]).score >= (
                    #[trigger] self.root_moves@[j]).score by {
                        assert(goes_before(keys@, p[i], p[j]));
                    }
                    if k == 0 {
                        assert forall|i: int| 0 <= i < a.len() implies #[trigger] self.root_moves@[i]
                            == a[i] by {
                            assert(p[i] == i);
                        }
                    }
                }
                k += 1;
            }
        }
    }

    /// Makes the list of root moves: the legal moves the limits allow.
    pub fn collect_roots(&mut self, pos: &Position, limits: &Limits)
        requires
            old(self).wf(),
            pos.wf(),
            pos@.playable(),
        ensures
            final(self).wf(),
            *final(self) == (Searcher { root_moves: final(self).root_moves, ..*old(self) }),
            roots_ok(final(self).root_moves@, pos@),
            forall|m: Move| #[trigger]
                lists_move(final(self).root_moves@, m) <==> pos@.legal(m) && limits.admits(m),
            forall|i: int|
                0 <= i < final(self).root_moves@.len()
                    ==> (#[trigger] final(self).root_moves@[i]).score == -VALUE_INFINITE,
    {
        let ghost v = pos@;
        let ghost o = *self;
        let mut legal = MoveList::new();
        generate_legal(pos, &mut legal);
        proof {
            lemma_adds_contains(legal@, Set::new(|m: Move| v.legal(m)));
        }
        let mut list: Vec<RootMove> = Vec::new();
        let mut i: usize = 0;
        while i < legal.len()
            invariant
                i <= legal@.len(),
                v == pos@,
                legal@.no_duplicates(),
                forall|m: Move| #[trigger] legal@.contains(m) <==> v.legal(m),
                roots_ok(list@, v),
                forall|k: int| 0 <= k < list@.len() ==> (#[trigger] list@[k]).score
                    == -VALUE_INFINITE,
                forall|k: int|
                    0 <= k < list@.len() ==> limits.admits((#[trigger] list@[k]).mv),
                forall|k: int|
                    0 <= k < list@.len() ==> legal@.subrange(0, i as int).contains(
                        (#[trigger] list@[k]).mv,
                    ),
                forall|k: int|
                    0 <= k < i && limits.admits(legal@[k]) ==> lists_move(
                        list@,
                        #[trigger] legal@[k],
                    ),
            decreases legal@.len() - i,
        {
            let m = legal.get(i);
            let ghost before = list@;
            let ghost seen = legal@.subrange(0, i as int);
            proof {
                assert(legal@.contains(m));
                assert(legal@.subrange(0, i + 1) =~= seen.push(m));
                assert(!seen.contains(m));
                assert forall|x: Move| seen.contains(x) implies #[trigger] legal@.subrange(
                    0,
                    i + 1,
                ).contains(x) by {
                    let k = choose|k: int| 0 <= k < seen.len() && seen[k] == x;
                    assert(legal@.subrange(0, i + 1)[k] == x);
                }
                assert(legal@.subrange(0, i + 1)[i as int] == m);
            }
            if limits.allows(m) {
                let mut pv: Vec<Move> = Vec::new();
                pv.push(m);
                proof {
                    assert(pv@.skip(1).len() == 0);
                    assert(playable_line(v.successor(m), pv@.skip(1)));
                }
                list.push(
                    RootMove {
                        mv: m,
                        score: -VALUE_INFINITE,
                        prev_score: -VALUE_INFINITE,
                        pv,
                        nodes: 0,
                    },
                );
                proof {
                    assert(list@[before.len() as int].mv == m);
                    assert forall|x: Move| lists_move(before, x) implies #[trigger] lists_move(
                        list@,
                        x,
                    ) by {
                        let k = choose|k: int| 0 <= k < before.len() && (#[trigger] before[k]).mv
                            == x;
                        assert(list@[k].mv == x);
                    }
                }
            }
            i += 1;
        }
        self.root_moves = list;
        proof {
            assert forall|m: Move| #[trigger]
                lists_move(self.root_moves@, m) <==> v.legal(m) && limits.admits(m) by {
                if lists_move(self.root_moves@, m) {
                    let k = choose|k: int| 0 <= k < list@.len() && (#[trigger] list@[k]).mv == m;
                    assert(list@[k].ok(v));
                }
                if v.legal(m) && limits.admits(m) {
                    assert(legal@.contains(m));
                    let k = choose|k: int| 0 <= k < legal@.len() && legal@[k] == m;
                    assert(lists_move(list@, legal@[k]));
                }
            }
        }
    }

    fn clear_lines(&mut self)
        requires
            old(self).wf(),
        ensures
            final(self).wf(),
            *final(self) == (Searcher { lines: final(self).lines, ..*old(self) }),
            forall|p: int| 0 <= p < LINES ==> (#[trigger] final(self).lines@[p])@.len() == 0,
    {
        let ghost o = *self;
        let mut i: usize = 0;
        while i < LINES
            invariant
                i <= LINES,
                self.wf(),
                *self == (Searcher { lines: self.lines, ..o }),
                forall|p: int| 0 <= p < i ==> (#[trigger] self.lines@[p])@.len() == 0,
            decreases LINES - i,
        {
            self.clear_pv(i);
            i += 1;
        }
    }

    /// Number of lines to search: reduced strength picks among several, so at least four.
    pub fn line_count(&self) -> (r: usize)
        requires
            self.root_moves@.len() >= 1,
        ensures
            1 <= r <= self.root_moves@.len(),
            r == ({
                let want: int = if self.skill_level < 20 && self.multipv < 4 {
                    4
                } else {
                    self.multipv as int
                };
                if want < 1 {
                    1
                } else if want > self.root_moves@.len() {
                    self.root_moves@.len() as int
                } else {
                    want
                }
            }),
    {
        let want: usize = if self.skill_level < 20 && self.multipv < 4 {
            4
        } else {
            self.multipv
        };
        if want < 1 {
            1
        } else if want > self.root_moves.len() {
            self.root_moves.len()
        } else {
            want
        }
    }

    /// Runs the whole search for this thread. Results are left in `root_moves`,
    /// `best_move_root`, `prev_score` and `completed_depth`. The root moves are the legal
    /// moves the limits allow, each with a line that can be played, and the best move is one
    /// of them. The first iteration is always begun; unless the search is stopped in it, the
    /// result is that of the last iteration completed.
    #[verifier::spinoff_prover]
    #[verifier::rlimit(60)]
    pub fn iterative_deepening<H: Host>(
        &mut self,
        host: &mut H,
        pos: &mut Position,
        limits: &Limits,
    )
        requires
            old(self).wf(),
            old(pos).wf(),
            old(pos)@.searchable(0),
            -SCORE_LIMIT <= old(self).prev_score <= SCORE_LIMIT,
        ensures
            same_but_roots(final(self), old(self)),
            roots_ok(final(self).root_moves@, old(pos)@),
            forall|m: Move| #[trigger]
                lists_move(final(self).root_moves@, m) <==> old(pos)@.legal(m) && limits.admits(m),
            final(self).root_moves@.len() > 0 ==> old(pos)@.legal(final(self).best_move_root)
                && limits.admits(final(self).best_move_root),
            final(self).root_moves@.len() == 0 ==> final(self).best_move_root == old(
                self,
            ).best_move_root && final(self).completed_depth == old(self).completed_depth,
            final(self).completed_depth == old(self).completed_depth || 1
                <= final(self).completed_depth <= 127,
            -SCORE_LIMIT <= final(self).prev_score <= SCORE_LIMIT,
            // Every depth up to the completed one has been searched.
            final(self).completed_depth == old(self).completed_depth || forced_by_clock(
                final(self),
                old(self),
                old(pos)@,
                limits,
            ) || searched_to(
                final(self).journal@,
                old(self).journal@.len() as int,
                old(pos)@,
                first_depth(old(self).thread_id, limits.max_depth()),
                final(self).completed_depth as int,
            ),
            final(self).root_moves@.len() > 0 && !final(self).stopped ==> {
                &&& forced_by_clock(final(self), old(self), old(pos)@, limits) || (searched_to(
                    final(self).journal@,
                    old(self).journal@.len() as int,
                    old(pos)@,
                    first_depth(old(self).thread_id, limits.max_depth()),
                    final(self).completed_depth as int,
                ) && root_led(
                    final(self).journal@,
                    old(self).journal@.len() as int,
                    old(pos)@,
                    final(self).completed_depth as int,
                    final(self).root_moves@[0],
                ))
                &&& 1 <= final(self).completed_depth <= 127
                &&& final(self).best_move_root == final(self).root_moves@[0].mv
                &&& final(self).prev_score == final(self).root_moves@[0].score
                &&& final(self).multipv <= 1 && final(self).skill_level >= 20 ==> heads_list(
                    final(self).root_moves@,
                )
                // Only the first thread, and only with time to keep, ends before its last
                // iteration.
                &&& final(self).thread_id != 0 || limits.infinite ==> final(self).completed_depth
                    == limits.max_depth() || Searcher::mates_within(
                    final(self).prev_score,
                    limits.mate,
                )
            },
            final(pos).wf(),
            final(pos)@ == old(pos)@,
            final(pos).keys == old(pos).keys,
    {
        let ghost v = pos@;
        self.collect_roots(pos, limits);
        if self.root_moves.len() == 0 {
            return ;
        }
        self.best_move_root = self.root_moves[0].mv;
        let ghost o = *self;
        proof {
            assert(o.root_moves@[0].mv == o.best_move_root);
            assert(lists_move(o.root_moves@, o.best_move_root));
        }
        let max_depth = limits.max_depth();
        let multipv = self.line_count();
        // A forced move under a clock needs no deliberation.
        if self.root_moves.len() == 1 && self.thread_id == 0 && !limits.infinite && limits.depth == 0
            && self.journal.clocked(host) {
            proof {
                assert(self.journal@[o.journal@.len() as int] == Event::Clocked(true));
            }
            let ghost mid = *self;
            self.settle_forced(host, pos);
            proof {
                let at = mid.journal@.len() as int;
                let raw = choose|raw: Value| #[trigger]
                    evaluated(self.journal@, at, v, raw) && self.prev_score
                        == mid.seen().corrected(v, 0, raw);
                lemma_evaluated(
                    self.journal@,
                    self.journal@,
                    at,
                    old(self).journal@.len() as int,
                    v,
                    raw,
                );
                assert(self.journal@[o.journal@.len() as int] == Event::Clocked(true));
                assert(forced_by_clock(self, old(self), v, limits));
            }
            return ;
        }
        // Helpers with odd ids run one depth ahead so the threads diverge.
        let ahead = self.thread_id % 2 == 1;
        let start: i32 = if ahead && max_depth >= 2 {
            2
        } else {
            1
        };
        let heeds = self.thread_id == 0 && !limits.infinite;
        let mut prev_best = Move::none();
        let mut base: i32 = start;
        let mut done = false;
        while base <= max_depth && !done
            invariant
                v == pos@,
                v == old(pos)@,
                pos.wf(),
                pos.keys == old(pos).keys,
                v.searchable(0),
                1 <= base <= 128,
                1 <= max_depth <= 127,
                self.iterated(&o, v),
                same_but_roots(&o, old(self)),
                o.journal == old(self).journal,
                o.thread_id == old(self).thread_id,
                ahead == (o.thread_id % 2 == 1),
                start == (if ahead && max_depth >= 2 {
                    2int
                } else {
                    1
                }),
                self.completed_depth == o.completed_depth || searched_to(
                    self.journal@,
                    o.journal@.len() as int,
                    v,
                    first_depth(o.thread_id, max_depth),
                    self.completed_depth as int,
                ),
                base > start && !self.stopped ==> searched_to(
                    self.journal@,
                    o.journal@.len() as int,
                    v,
                    first_depth(o.thread_id, max_depth),
                    self.completed_depth as int,
                ) && root_led(
                    self.journal@,
                    o.journal@.len() as int,
                    v,
                    self.completed_depth as int,
                    self.root_moves@[0],
                ),
                o.completed_depth == old(self).completed_depth,
                lists_move(o.root_moves@, o.best_move_root),
                lists_move(self.root_moves@, self.best_move_root),
                1 <= multipv <= o.root_moves@.len(),
                self.completed_depth == o.completed_depth || 1 <= self.completed_depth <= 127,
                -SCORE_LIMIT <= self.prev_score <= SCORE_LIMIT,
                start <= base <= max_depth + 1,
                1 <= start <= max_depth,
                max_depth == limits.max_depth(),
                base > start && !self.stopped ==> self.completed_depth == (if ahead && base - 1
                    < max_depth {
                    base as int
                } else {
                    base - 1
                }),
                done && !self.stopped && !heeds ==> Searcher::mates_within(
                    self.prev_score,
                    limits.mate,
                ),
                heeds == (o.thread_id == 0 && !limits.infinite),
                done ==> base > start,
                multipv == 1 || !(o.multipv <= 1 && o.skill_level >= 20),
                base > start && !self.stopped ==> {
                    &&& 1 <= self.completed_depth <= 127
                    &&& self.best_move_root == self.root_moves@[0].mv
                    &&& self.prev_score == self.root_moves@[0].score
                    &&& multipv == 1 ==> heads_list(self.root_moves@)
                },
            decreases max_depth - base + 1, (if done {
                0int
            } else {
                1
            }),
        {
            let depth: i32 = if ahead && base < max_depth {
                base + 1
            } else {
                base
            };
            self.seldepth = 0;
            self.clear_lines();
            // The first iteration is searched whatever the host answers, and so is every one
            // of a thread that has no time to keep.
            let first = base == start;
            let ghost mid = *self;
            let answer = self.journal.begin(host, first);
            proof {
                if mid.stopped && !o.stopped {
                    lemma_told(
                        mid.journal@,
                        self.journal@,
                        o.journal@.len() as int,
                        o.journal@.len() as int,
                    );
                }
                if !mid.stopped && base > start {
                    lemma_searched_on(
                        mid.journal@,
                        self.journal@,
                        o.journal@.len() as int,
                        v,
                        first_depth(o.thread_id, max_depth),
                        mid.completed_depth as int,
                        mid.root_moves@[0],
                    );
                } else if mid.completed_depth != o.completed_depth {
                    lemma_searched_more(
                        mid.journal@,
                        self.journal@,
                        o.journal@.len() as int,
                        v,
                        first_depth(o.thread_id, max_depth),
                        mid.completed_depth as int,
                    );
                }
            }
            match answer {
                Begin::Go => {},
                Begin::Stop => {
                    if heeds && !first {
                        proof {
                            assert(tells_to_stop(self.journal@.last()));
                        }
                        self.stopped = true;
                        done = true;
                    }
                },
                Begin::Enough => {
                    done = heeds && !first;
                },
            }
            if !done {
                let ghost before = *self;
                let changed = self.iterate(host, pos, depth, multipv, prev_best);
                proof {
                    if before.stopped && !o.stopped {
                        lemma_told(
                            before.journal@,
                            self.journal@,
                            o.journal@.len() as int,
                            o.journal@.len() as int,
                        );
                    } else if self.stopped && !before.stopped {
                        lemma_told(
                            self.journal@,
                            self.journal@,
                            before.journal@.len() as int,
                            o.journal@.len() as int,
                        );
                    }
                    let from = o.journal@.len() as int;
                    let low = first_depth(o.thread_id, max_depth);
                    if before.completed_depth != o.completed_depth || base > start {
                        if before.completed_depth != o.completed_depth || !before.stopped {
                            lemma_searched_more(
                                before.journal@,
                                self.journal@,
                                from,
                                v,
                                low,
                                before.completed_depth as int,
                            );
                        }
                    }
                    if !self.stopped {
                        lemma_root_searched(
                            self.journal@,
                            self.journal@,
                            before.journal@.len() as int,
                            from,
                            v,
                            depth as int,
                        );
                        lemma_root_led(
                            self.journal@,
                            self.journal@,
                            before.journal@.len() as int,
                            from,
                            v,
                            depth as int,
                            self.root_moves@[0],
                        );
                    }
                }
                if self.stopped {
                    done = true;
                } else {
                    prev_best = self.best_move_root;
                    let ghost log = self.journal@;
                    let ghost rm = self.root_moves@[0];
                    let timed = self.journal.clocked(host);
                    let ghost asked = self.journal@;
                    done = self.ends_search(host, limits, timed, depth, base, multipv, changed);
                    proof {
                        if self.stopped {
                            lemma_told(
                                self.journal@,
                                self.journal@,
                                asked.len() as int,
                                o.journal@.len() as int,
                            );
                        }
                        lemma_searched_on(
                            log,
                            self.journal@,
                            o.journal@.len() as int,
                            v,
                            first_depth(o.thread_id, max_depth),
                            depth as int,
                            rm,
                        );
                    }
                }
                base += 1;
            }
        }
    }

    /// Score of the only root move without a search.
    fn settle_forced<H: Host>(&mut self, host: &mut H, pos: &Position)
        requires
            old(self).wf(),
            pos.wf(),
            roots_ok(old(self).root_moves@, pos@),
            old(self).root_moves@.len() == 1,
            old(self).best_move_root == old(self).root_moves@[0].mv,
        ensures
            same_but_roots(final(self), old(self)),
            same_roots(old(self).root_moves@, final(self).root_moves@),
            roots_ok(final(self).root_moves@, pos@),
            final(self).best_move_root == old(self).best_move_root,
            final(self).best_move_root == final(self).root_moves@[0].mv,
            final(self).completed_depth == 1,
            final(self).prev_score == final(self).root_moves@[0].score,
            -SCORE_LIMIT <= final(self).prev_score <= SCORE_LIMIT,
            exists|raw: Value| #[trigger]
                evaluated(final(self).journal@, old(self).journal@.len() as int, pos@, raw)
                    && final(self).prev_score == old(self).seen().corrected(pos@, 0, raw),
            final(self).stopped == old(self).stopped,
    {
        let raw = evaluate_at(&mut self.journal, host, pos);
        let score = self.adjusted_eval(pos, raw, 0);
        set_root_score(&mut self.root_moves, 0, score, Ghost(pos@));
        self.prev_score = score;
        self.completed_depth = 1;
        let it = self.iteration(1, 1, false);
        host.report(pos, &self.root_moves, it);
        proof {
            assert(evaluated(self.journal@, old(self).journal@.len() as int, pos@, raw));
            assert(self.prev_score == old(self).seen().corrected(pos@, 0, raw));
        }
    }

    fn iteration(&self, depth: i32, multipv: usize, changed: bool) -> (r: Iteration)
        ensures
            r == (Iteration {
                depth,
                seldepth: self.seldepth,
                multipv,
                score: self.prev_score,
                changed,
                nodes: self.nodes,
                best_move_nodes: self.best_move_nodes,
            }),
    {
        Iteration {
            depth,
            seldepth: self.seldepth,
            multipv,
            score: self.prev_score,
            changed,
            nodes: self.nodes,
            best_move_nodes: self.best_move_nodes,
        }
    }

    /// One iteration: searches the lines and, unless stopped, takes the result over.
    /// Returns whether the best move has changed.
    #[verifier::spinoff_prover]
    fn iterate<H: Host>(
        &mut self,
        host: &mut H,
        pos: &mut Position,
        depth: i32,
        multipv: usize,
        prev_best: Move,
    ) -> (r: bool)
        requires
            old(self).wf(),
            old(pos).wf(),
            old(pos)@.searchable(0),
            roots_ok(old(self).root_moves@, old(pos)@),
            1 <= multipv <= old(self).root_moves@.len(),
            1 <= depth <= 127,
        ensures
            final(self).iterated(old(self), old(pos)@),
            final(pos).wf(),
            final(pos)@ == old(pos)@,
            final(pos).keys == old(pos).keys,
            final(self).seek_mate == old(self).seek_mate,
            if final(self).stopped {
                final(self).completed_depth == old(self).completed_depth && final(self).prev_score
                    == old(self).prev_score
            } else {
                &&& final(self).completed_depth == depth
                &&& final(self).prev_score == final(self).root_moves@[0].score
                &&& -SCORE_LIMIT <= final(self).prev_score <= SCORE_LIMIT
                &&& final(self).best_move_root == final(self).root_moves@[0].mv
                &&& lists_move(final(self).root_moves@, final(self).best_move_root)
                &&& multipv == 1 ==> heads_list(final(self).root_moves@)
                &&& root_searched(
                    final(self).journal@,
                    old(self).journal@.len() as int,
                    old(pos)@,
                    depth as int,
                )
                &&& root_led(
                    final(self).journal@,
                    old(self).journal@.len() as int,
                    old(pos)@,
                    depth as int,
                    final(self).root_moves@[0],
                )
                &&& r == (prev_best.0 != 0 && prev_best != final(self).best_move_root)
            },
    {
        let ghost v = pos@;
        let ghost o = *self;
        age_roots(&mut self.root_moves, Ghost(v));
        let ghost mid = *self;
        self.search_lines(host, pos, depth, multipv);
        if self.stopped {
            return false;
        }
        proof {
            assert(self.root_moves@[0].ok(v));
        }
        self.completed_depth = depth;
        self.prev_score = self.root_moves[0].score;
        self.best_move_root = self.root_moves[0].mv;
        let changed = prev_best.is_some() && prev_best != self.best_move_root;
        if self.thread_id == 0 {
            let it = self.iteration(depth, multipv, changed);
            host.report(pos, &self.root_moves, it);
        }
        changed
    }

    /// A mate that short ends a search under a clock at once.
    #[verifier::allow_in_spec]
    pub fn mate_at_hand(score: Value) -> bool
        returns
            score >= 31997 || score == -31998,
    {
        score >= mate_in(3) || score == mated_in(2)
    }

    /// A mate in as many moves as asked for.
    pub open spec fn mates_within(score: Value, moves: i32) -> bool {
        moves > 0 && is_win(score) && quot(VALUE_MATE - score + 1, 2) <= moves
    }

    /// Whether the search ends after a completed iteration.
    fn ends_search<H: Host>(
        &mut self,
        host: &mut H,
        limits: &Limits,
        timed: bool,
        depth: i32,
        base: i32,
        multipv: usize,
        changed: bool,
    ) -> (r: bool)
        requires
            old(self).wf(),
            !old(self).stopped,
            -SCORE_LIMIT <= old(self).prev_score <= SCORE_LIMIT,
        ensures
            final(self).wf(),
            *final(self) == (Searcher {
                stopped: final(self).stopped,
                seek_mate: final(self).seek_mate,
                journal: final(self).journal,
                ..*old(self)
            }),
            extends(old(self).journal@, final(self).journal@),
            final(self).stopped ==> told_to_stop(
                final(self).journal@,
                old(self).journal@.len() as int,
            ),
            final(self).stopped ==> r,
            Searcher::mates_within(old(self).prev_score, limits.mate) ==> r,
            ({
                let clocked = old(self).thread_id == 0 && timed && !limits.infinite;
                &&& clocked && Searcher::mate_at_hand(old(self).prev_score) ==> r
                &&& !clocked && !final(self).stopped ==> r == Searcher::mates_within(
                    old(self).prev_score,
                    limits.mate,
                ) && final(self).seek_mate == old(self).seek_mate
                &&& clocked && !r ==> final(self).seek_mate == (base >= 16 && (
                old(self).prev_score >= 4000 || old(self).prev_score <= -4000))
            }),
    {
        if self.journal.stop_requested(host) {
            self.stopped = true;
            proof {
                assert(tells_to_stop(self.journal@.last()));
            }
            return true;
        }
        let best = self.prev_score;
        if limits.mate > 0 && is_win(best) && mate_distance(best) <= limits.mate {
            return true;
        }
        // Mate hunting is left to the search unless we are under a clock.
        if self.thread_id == 0 && timed && !limits.infinite {
            if Searcher::mate_at_hand(best) {
                return true;
            }
            self.seek_mate = base >= 16 && (best >= 4000 || best <= -4000);
            let it = self.iteration(depth, multipv, changed);
            return self.journal.spent_enough(host, it);
        }
        false
    }
}

/// Some move for a position that cannot be searched, such as one whose side to move could
/// take the king: the first the move generator offers and the limits allow, or none.
pub fn unsearched_move(pos: &Position, limits: &Limits) -> (r: Move)
    requires
        pos.wf(),
    ensures
        r.0 != 0 ==> tested(pos@).contains(r) && limits.admits(r),
        r.0 == 0 ==> forall|m: Move| #[trigger] tested(pos@).contains(m) ==> !limits.admits(m),
{
    let mut list = MoveList::new();
    generate_legal(pos, &mut list);
    proof {
        lemma_adds_contains(list@, tested(pos@));
        lemma_no_none(pos@);
    }
    let mut i: usize = 0;
    while i < list.len()
        invariant
            i <= list@.len(),
            forall|m: Move| #[trigger] list@.contains(m) <==> tested(pos@).contains(m),
            !pos@.candidate(Move(0)),
            forall|k: int| 0 <= k < i ==> !limits.admits(#[trigger] list@[k]),
        decreases list@.len() - i,
    {
        let m = list.get(i);
        assert(list@.contains(m));
        if limits.allows(m) {
            return m;
        }
        i += 1;
    }
    proof {
        assert forall|m: Move| #[trigger] tested(pos@).contains(m) implies !limits.admits(m) by {
            assert(list@.contains(m));
            let k = choose|k: int| 0 <= k < list@.len() && list@[k] == m;
            assert(!limits.admits(list@[k]));
        }
    }
    Move::none()
}

/// Moves to the mate a winning score stands for.
pub fn mate_distance(score: Value) -> (r: i32)
    requires
        -SCORE_LIMIT <= score <= SCORE_LIMIT,
    ensures
        r == quot(VALUE_MATE - score + 1, 2),
{
    div_toward_zero((VALUE_MATE - score + 1) as i64, 2) as i32
}

/// Scores of the root moves.
fn scores_of(list: &Vec<RootMove>) -> (r: Vec<i32>)
    ensures
        r@.len() == list@.len(),
        forall|i: int| 0 <= i < list@.len() ==> #[trigger] r@[i] == list@[i].score,
{
    let mut r: Vec<i32> = Vec::new();
    let mut i: usize = 0;
    while i < list.len()
        invariant
            i <= list@.len(),
            r@.len() == i,
            forall|k: int| 0 <= k < i ==> #[trigger] r@[k] == list@[k].score,
        decreases list@.len() - i,
    {
        r.push(list[i].score);
        i += 1;
    }
    r
}

/// Lower edge of an aspiration window.
#[verifier::allow_in_spec]
pub fn window_below(score: Value, width: Value) -> Value
    requires
        -SCORE_LIMIT <= score <= SCORE_LIMIT,
        0 <= width <= 100_000,
    returns
        (if score - width < -VALUE_INFINITE {
            (-VALUE_INFINITE) as i32
        } else if score - width > VALUE_INFINITE - 1 {
            (VALUE_INFINITE - 1) as i32
        } else {
            (score - width) as i32
        }),
{
    if score - width < -VALUE_INFINITE {
        -VALUE_INFINITE
    } else if score - width > VALUE_INFINITE - 1 {
        VALUE_INFINITE - 1
    } else {
        score - width
    }
}

/// Upper edge of an aspiration window.
#[verifier::allow_in_spec]
pub fn window_above(score: Value, width: Value) -> Value
    requires
        -SCORE_LIMIT <= score <= SCORE_LIMIT,
        0 <= width <= 100_000,
    returns
        (if score + width > VALUE_INFINITE {
            VALUE_INFINITE
        } else if score + width < 1 - VALUE_INFINITE {
            (1 - VALUE_INFINITE) as i32
        } else {
            (score + width) as i32
        }),
{
    if score + width > VALUE_INFINITE {
        VALUE_INFINITE
    } else if score + width < 1 - VALUE_INFINITE {
        1 - VALUE_INFINITE
    } else {
        score + width
    }
}

} // verus!
