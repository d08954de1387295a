//! Alpha-beta search: table cutoffs, razoring, reverse futility, null moves with
//! verification, ProbCut, internal reductions, staged move picking, late-move, exchange and
//! history pruning, singular extensions and late move reductions.

use vstd::prelude::*;

use crate::arith::{div_toward_zero, quot};
use crate::decisions::{
    bound_of, capture_see_margin, hindsight, late_move_reduction, null_move_promises,
    null_move_reduction, probcut_beta, probcut_depth, quiet_futility, razors, reverse_futility,
    singular_extension, singular_window, softened, tt_cutoff, tt_misleads, Reducing,
};
use crate::history::{capture_index, main_index, reliability, Histories};
use crate::journal::{extends, Event, NodeCall, Seen};
use crate::learning::{cutoff_learned, lemma_same_cutoff, result_learned};
use crate::legality::legal_test_is_exact;
use crate::lines::{lemma_line_before, playable_line};
use crate::makemove::unmake_undoes_pass;
use crate::movegen::candidates;
use crate::movepick::{lemma_no_none, MovePicker};
use crate::moves::{canonical, canonical_code, capture_moves};
use crate::params::{
    HISTORY_PRUNE_MULT, HLP_HISTORY_LEAF, HLP_HISTORY_REDUCE, HLP_MAX_DEPTH, HLP_MIN_MOVES,
    IIR_MIN_DEPTH, IIR_REDUCTION, LASTMOVE_CORRHIST_SIZE, LMR_CUTOFF_THRESH, LMR_MIN_DEPTH,
    LMR_MIN_MOVES, LMR_TT_HISTORY_THRESH, LOW_DEPTH_PROBCUT_MARGIN, NMP_MIN_DEPTH,
    NMP_VERIFY_MIN_DEPTH, PROBCUT_MIN_DEPTH, QUIET_FUTILITY_BASE, QUIET_FUTILITY_MAX_LMR_DEPTH,
    QUIET_FUTILITY_NO_BEST, QUIET_FUTILITY_PER_DEPTH, QUIET_HISTORY_DEPTH_DIV, RFP_MAX_DEPTH,
    RFP_SEEK_MATE_DEPTH, SEE_CAPTURE_HIST_DIV, SEE_CAPTURE_LINEAR, SEE_QUIET_QUAD,
};
use crate::perft::play_move;
use crate::play::passing_keeps_playable;
use crate::position::Position;
use crate::records::{
    after_pass, call_node, checked_at, lemma_known, lemma_moves_back, lemma_probcut_on, lemma_refuted_on,
    lemma_same_node, lemma_settled_by_captures, lemma_settled_by_margin, lemma_settled_by_moves,
    lemma_settled_by_pass, lemma_settled_by_table, may_pass, node_accounted, node_known, node_of,
    node_searched, node_settled, node_worsens, noisy_table_move, pass_answer, pass_at, pass_failed,
    passes, probcut_at, probcut_cuts, probcut_failed, probcut_failed_at, probcut_limit,
    probcut_refuted, probcut_tried, quiet_accounted, quiet_at, razored, reverse_futile, shallow_depth, table_cuts,
    table_move, trusted, verified_at, Try,
};
use crate::replies::{
    captured_by, check_extension, child_learned, child_searched, leaf_pruned, left_out_at,
    lemma_child_back, lemma_same_reduction, lemma_same_shuffle, much_as, multi_cut, noted, replied, singled,
    singular_limit, singular_step, singular_verdict, tried_move, Step,
};
use crate::rules::PosView;
use crate::search::{evaluate_at, lemma_evaluated, lemma_probed, penalize, probe, store, stores};
use crate::searcher::{
    value_draw, variant_terminal, Host, NodeType, Searcher, StackEntry, LINES, SCORE_LIMIT,
    STACK_SIZE,
};
use crate::tt::{value_from_tt, value_to_tt, Store, TTData};
use crate::types::{
    is_decisive, is_loss, is_win, mate_in, mated_in, Bound, Color, Move, MoveType, Piece, PieceType,
    Value, MAX_PLY, VALUE_DRAW, VALUE_INFINITE, VALUE_NONE,
};

verus! {

/// What is known of a node once its static evaluation has been settled.
#[derive(Clone, Copy)]
pub struct Node {
    pub ply: usize,
    pub depth: i32,
    pub alpha: Value,
    pub beta: Value,
    pub node_type: NodeType,
    /// Move left out of the search, or none.
    pub excluded: Move,
    pub in_check: bool,
    pub key: u64,
    pub tt_hit: bool,
    pub tt_move: Move,
    pub tt_value: Value,
    pub tt_depth: i32,
    pub tt_bound: Bound,
    pub tt_pv: bool,
    pub static_eval: Value,
    /// Evaluation before the learned correction.
    pub raw_eval: Value,
    pub improving: bool,
    pub prev_move: usize,
}

impl Node {
    /// The node is one of the position, its numbers in range.
    pub open spec fn ok(self, v: PosView) -> bool {
        &&& 1 <= self.ply < MAX_PLY - 1
        &&& 1 <= self.depth <= 130
        &&& -32000 <= self.alpha < self.beta <= 32000
        &&& self.in_check == v.in_check()
        &&& self.tt_move.0 != 0 ==> v.candidate(self.tt_move) && candidates(v).contains(
            canonical_code(self.tt_move),
        )
        &&& -33000 <= self.tt_value <= 33000
        &&& 0 <= self.tt_depth <= 255
        &&& -36500 <= self.static_eval <= 36500
        &&& -36500 <= self.raw_eval <= 36500
        &&& self.prev_move < LASTMOVE_CORRHIST_SIZE
    }
}

/// Rank of a search among those of the same position: one that leaves a move out starts no
/// other, one after a null move no null move.
pub open spec fn weight(excluded: Move, allow_null: bool) -> int {
    if excluded.0 != 0 {
        0
    } else if !allow_null {
        10
    } else {
        20
    }
}

/// A pseudo-legal move moves a piece.
pub(crate) proof fn lemma_mover(v: PosView, m: Move)
    requires
        v.pseudo(m),
    ensures
        v.mover(m).0 < 12,
{
}

/// Alpha raised to the score of a mate on the spot.
pub open spec fn raised(alpha: Value, ply: usize) -> Value {
    if alpha < mated_in(ply) {
        mated_in(ply)
    } else {
        alpha
    }
}

/// Beta lowered to the score of a mate by the next move.
pub open spec fn lowered(beta: Value, ply: usize) -> Value {
    if beta > mate_in((ply + 1) as usize) {
        mate_in((ply + 1) as usize)
    } else {
        beta
    }
}

/// What the search of a node on the principal variation comes to. Without legal moves it is
/// the score the rules give, unless an entry of the table lies far beyond a beta that is no
/// mate; with legal moves a score inside the window comes with a line.
pub open spec fn explored(
    v: PosView,
    ply: usize,
    alpha: Value,
    beta: Value,
    excluded: Move,
    line: Seq<Move>,
    r: Value,
) -> bool {
    &&& (forall|m: Move| !v.legal(m)) && excluded.0 == 0 ==> r == v.terminal_score(ply) || (
    !is_decisive(beta) && r == beta + LOW_DEPTH_PROBCUT_MARGIN)
    &&& (exists|m: Move| v.legal(m)) && alpha < r < beta ==> line.len() > 0
}

/// A move of the position is one in the code it is generated with, too.
pub proof fn lemma_coded(v: PosView, m: Move)
    requires
        v.candidate(m),
    ensures
        candidates(v).contains(canonical_code(m)),
        m.0 != 0,
        canonical_code(m).0 != 0,
{
    lemma_no_none(v);
    if !canonical(m) {
        let k = canonical_code(m);
        let x = m.0;
        assert((x % 4096) % 64 == x % 64 && ((x % 4096) / 64) % 64 == (x / 64) % 64 && (x % 4096)
            / 16384 == 0 && (x / 16384 == 0 ==> x / 4096 <= 4) && (x % 4096) / 4096 == 0)
            by (bit_vector);
        assert(k.from() == m.from() && k.to() == m.to());
        assert(m.0 / 16384 == 0 && k.0 / 16384 == 0);
        assert(!m.is_drop());
        assert(!k.is_drop());
        assert(k.move_type() == MoveType::Normal && m.move_type() == MoveType::Normal);
        assert(v.pseudo(k));
        assert(v.evades(k) == v.evades(m));
        assert(v.takes(k) == v.takes(m));
    }
}

/// The table's move, if it is one of the position.
fn known_move(pos: &Position, entry: Option<TTData>) -> (r: Move)
    requires
        pos.wf(),
    ensures
        r == table_move(pos@, entry),
        r.0 != 0 ==> pos@.candidate(r) && candidates(pos@).contains(canonical_code(r)),
{
    match entry {
        Some(d) => {
            if pos.pseudo_legal(d.mv) {
                proof {
                    lemma_coded(pos@, d.mv);
                }
                d.mv
            } else {
                Move::none()
            }
        },
        None => Move::none(),
    }
}

/// Node count after one more node.
pub open spec fn counted(nodes: u64) -> u64 {
    if nodes < u64::MAX {
        (nodes + 1) as u64
    } else {
        nodes
    }
}

/// What shallow-depth pruning does with a move.
#[derive(Clone, Copy, PartialEq, Eq, Debug, Structural)]
pub enum Pruning {
    Search,
    Skip,
    /// Skipped because the position is worth no more than this with it.
    Futile(Value),
}

/// History of a quiet move in plies of late-move depth, at least none.
pub open spec fn quiet_depth(h: Histories, v: PosView, m: Move, depth: int) -> int {
    let d = depth - 1 + quot(
        h.main@[main_index(v.stm, m.from_to()) as int] as int,
        QUIET_HISTORY_DEPTH_DIV as int,
    );
    if d > 0 {
        d
    } else {
        0
    }
}

/// Exchange loss a capture may have.
pub open spec fn capture_margin(
    h: Histories,
    v: PosView,
    m: Move,
    cap: PieceType,
    depth: int,
) -> int {
    let d = SEE_CAPTURE_LINEAR * depth + quot(
        h.capture@[capture_index(v.mover(m), m.to() as usize, cap) as int] as int,
        SEE_CAPTURE_HIST_DIV as int,
    );
    if d > 0 {
        d
    } else {
        0
    }
}

/// Shallow-depth pruning of a move.
pub open spec fn pruning(
    h: Histories,
    v: PosView,
    n: Node,
    m: Move,
    captured: Option<PieceType>,
    gives_check: bool,
    no_best: bool,
) -> Pruning {
    if captured is Some || gives_check {
        if captured is Some && !gives_check && v.see_value(m) < -capture_margin(
            h,
            v,
            m,
            captured->Some_0,
            n.depth as int,
        ) {
            Pruning::Skip
        } else {
            Pruning::Search
        }
    } else {
        let d = quiet_depth(h, v, m, n.depth as int);
        let futility = n.static_eval + QUIET_FUTILITY_BASE + (if no_best {
            QUIET_FUTILITY_NO_BEST as int
        } else {
            0
        }) + QUIET_FUTILITY_PER_DEPTH * d;
        if h.main@[main_index(v.stm, m.from_to()) as int] < -HISTORY_PRUNE_MULT * n.depth {
            Pruning::Skip
        } else if !n.in_check && d < QUIET_FUTILITY_MAX_LMR_DEPTH && futility <= n.alpha {
            Pruning::Futile(futility as Value)
        } else if v.see_value(m) < -SEE_QUIET_QUAD * (d * d) {
            Pruning::Skip
        } else {
            Pruning::Search
        }
    }
}

impl Searcher {
    pub fn shallow_pruning(
        &self,
        pos: &Position,
        n: &Node,
        m: Move,
        captured: Option<PieceType>,
        gives_check: bool,
        no_best: bool,
    ) -> (r: Pruning)
        requires
            self.wf(),
            pos.wf(),
            pos@.pseudo(m),
            n.ok(pos@),
        ensures
            r == pruning(self.hist, pos@, *n, m, captured, gives_check, no_best),
            r matches Pruning::Futile(f) ==> f <= n.alpha,
    {
        let us = pos.side_to_move();
        proof {
            lemma_mover(pos@, m);
        }
        if captured.is_some() || gives_check {
            if let Some(cap) = captured {
                if !gives_check {
                    let history = self.capture_hist(pos.moved_piece(m), m.to_sq() as usize, cap);
                    if !pos.see_ge(m, -capture_see_margin(n.depth, history)) {
                        return Pruning::Skip;
                    }
                }
            }
            return Pruning::Search;
        }
        let history = self.main_hist(us, m);
        if history < -4083 * n.depth {
            return Pruning::Skip;
        }
        let steps = div_toward_zero(history as i64, QUIET_HISTORY_DEPTH_DIV as i64) as i32;
        proof {
            assert(-6 <= steps <= 6);
        }
        let d: i32 = if n.depth - 1 + steps > 0 {
            n.depth - 1 + steps
        } else {
            0
        };
        if !n.in_check && d < QUIET_FUTILITY_MAX_LMR_DEPTH {
            let futility = quiet_futility(n.static_eval, no_best, d);
            if futility <= n.alpha {
                return Pruning::Futile(futility);
            }
        }
        proof {
            assert(0 <= d * d <= 40_000) by (nonlinear_arith)
                requires
                    0 <= d <= 200,
            ;
        }
        if !pos.see_ge(m, -11 * (d * d)) {
            return Pruning::Skip;
        }
        Pruning::Search
    }

    /// Alpha-beta search of a position to a depth, its best line left in `lines[ply]`. A
    /// move can be left out, and a null move ruled out. Unless the search was stopped, the
    /// last entry of the journal is this search, accounted for by the entries before it.
    pub fn negamax<H: Host>(
        &mut self,
        host: &mut H,
        pos: &mut Position,
        depth: i32,
        ply: usize,
        alpha: Value,
        beta: Value,
        node_type: NodeType,
        allow_null: bool,
        excluded: Move,
    ) -> (r: Value)
        requires
            old(self).wf(),
            old(pos).wf(),
            1 <= ply < MAX_PLY,
            depth <= 1000,
            old(pos)@.searchable(ply as int),
            -SCORE_LIMIT <= alpha < beta <= SCORE_LIMIT,
        ensures
            final(self).stack_kept(old(self), ply as int),
            final(self).kept(old(self), ply as int),
            playable_line(old(pos)@, final(self).lines@[ply as int]@),
            final(pos).wf(),
            final(pos)@ == old(pos)@,
            final(pos).keys == old(pos).keys,
            -SCORE_LIMIT <= r <= SCORE_LIMIT,
            depth <= 0 ==> old(self).quiesces(
                old(pos)@,
                ply,
                0,
                alpha,
                beta,
                node_type == NodeType::PV && !final(self).stopped,
                r,
            ),
            depth > 0 && ply < MAX_PLY - 1 && old(self).seen().holds_out(
                old(pos)@,
                ply,
                alpha,
                beta,
            ) ==> r == value_draw(old(self).nodes),
            depth > 0 && ply < MAX_PLY - 1 && !final(self).stopped && !old(self).seen().holds_out(
                old(pos)@,
                ply,
                alpha,
                beta,
            ) ==> {
                &&& old(pos)@.drawn(ply as int) ==> r == value_draw(counted(old(self).nodes))
                &&& !old(pos)@.drawn(ply as int) ==> (old(pos)@.variant_result(ply) matches Some(
                    v,
                ) ==> r == v)
                &&& !old(pos)@.drawn(ply as int) && old(pos)@.variant_result(ply) is None ==> {
                    let low = raised(old(self).seen().held(old(pos)@, ply, alpha), ply);
                    let high = lowered(beta, ply);
                    // No mate is near enough to matter.
                    &&& low >= high ==> r == low
                    &&& low < high && node_type == NodeType::PV ==> explored(
                        old(pos)@,
                        ply,
                        low,
                        high,
                        excluded,
                        final(self).lines@[ply as int]@,
                        r,
                    )
                }
            },
            node_type == NodeType::PV && depth > 0 && (forall|m: Move| !#[trigger] old(
                pos,
            )@.legal(m)) ==> final(self).nodes <= counted(old(self).nodes),
            !final(self).stopped ==> ({
                let log = final(self).journal@;
                let c = old(self).node_call(
                    old(pos)@,
                    depth,
                    ply,
                    alpha,
                    beta,
                    node_type,
                    allow_null,
                    excluded,
                    r,
                    final(self).seen(),
                    final(self).lines@[ply as int]@,
                );
                &&& log.len() > old(self).journal@.len()
                &&& log.last() == Event::Node(c)
                &&& node_accounted(log.drop_last(), c)
            }),
        decreases MAX_PLY - ply, weight(excluded, allow_null) + 12,
    {
        let ghost o = *self;
        let ghost v = pos@;
        let r = self.node_value(
            host,
            pos,
            depth,
            ply,
            alpha,
            beta,
            node_type,
            allow_null,
            excluded,
        );
        if !self.stopped {
            let ghost c = o.node_call(
                v,
                depth,
                ply,
                alpha,
                beta,
                node_type,
                allow_null,
                excluded,
                r,
                self.seen(),
                self.lines@[ply as int]@,
            );
            let ghost log = self.journal@;
            self.journal.record(Ghost(Event::Node(c)));
            proof {
                assert(self.journal@.drop_last() =~= log);
            }
        }
        r
    }

    /// The search of a node as far as the node that asks for it depends on it: what it leaves
    /// behind and that it is accounted for.
    fn search_below<H: Host>(
        &mut self,
        host: &mut H,
        pos: &mut Position,
        depth: i32,
        ply: usize,
        alpha: Value,
        beta: Value,
        node_type: NodeType,
        allow_null: bool,
        excluded: Move,
    ) -> (r: Value)
        requires
            old(self).wf(),
            old(pos).wf(),
            1 <= ply < MAX_PLY,
            depth <= 1000,
            old(pos)@.searchable(ply as int),
            -SCORE_LIMIT <= alpha < beta <= SCORE_LIMIT,
        ensures
            final(self).stack_kept(old(self), ply as int),
            final(self).kept(old(self), ply as int),
            playable_line(old(pos)@, final(self).lines@[ply as int]@),
            final(pos).wf(),
            final(pos)@ == old(pos)@,
            final(pos).keys == old(pos).keys,
            -SCORE_LIMIT <= r <= SCORE_LIMIT,
            !final(self).stopped ==> ({
                let log = final(self).journal@;
                let c = old(self).node_call(
                    old(pos)@,
                    depth,
                    ply,
                    alpha,
                    beta,
                    node_type,
                    allow_null,
                    excluded,
                    r,
                    final(self).seen(),
                    final(self).lines@[ply as int]@,
                );
                &&& log.len() > old(self).journal@.len()
                &&& log.last() == Event::Node(c)
                &&& node_accounted(log.drop_last(), c)
            }),
        decreases MAX_PLY - ply, weight(excluded, allow_null) + 13,
    {
        self.negamax(host, pos, depth, ply, alpha, beta, node_type, allow_null, excluded)
    }

    /// Quiescence below a node as far as the node depends on it.
    fn quiet_below<H: Host>(
        &mut self,
        host: &mut H,
        pos: &mut Position,
        ply: usize,
        alpha: Value,
        beta: Value,
        node_type: NodeType,
    ) -> (r: Value)
        requires
            old(self).wf(),
            old(pos).wf(),
            1 <= ply < MAX_PLY,
            old(pos)@.searchable(ply as int),
            -SCORE_LIMIT <= alpha < beta <= SCORE_LIMIT,
        ensures
            final(self).only_looked(old(self), ply as int),
            final(self).kept(old(self), LINES as int),
            final(pos).wf(),
            final(pos)@ == old(pos)@,
            final(pos).keys == old(pos).keys,
            -SCORE_LIMIT <= r <= SCORE_LIMIT,
            !final(self).stopped ==> ({
                let log = final(self).journal@;
                let c = old(self).quiet_call(old(pos)@, ply, 0, alpha, beta, node_type, r);
                &&& log.len() > old(self).journal@.len()
                &&& log.last() == Event::Quiet(c)
                &&& quiet_accounted(log.drop_last(), c)
            }),
    {
        self.qsearch(host, pos, ply, 0, alpha, beta, node_type)
    }

    /// The search of a node, as the journal has it.
    pub open spec fn node_call(
        &self,
        v: PosView,
        depth: i32,
        ply: usize,
        alpha: Value,
        beta: Value,
        node_type: NodeType,
        allow_null: bool,
        excluded: Move,
        r: Value,
        after: Seen,
        line: Seq<Move>,
    ) -> NodeCall {
        NodeCall {
            start: self.journal@.len() as int,
            seen: self.seen(),
            v,
            depth,
            ply,
            alpha,
            beta,
            node_type,
            allow_null,
            excluded,
            r,
            after,
            line,
        }
    }

    /// The search of a node that ends with a result.
    pub open spec fn ended(&self, call: NodeCall, r: Value) -> NodeCall {
        NodeCall { r, after: self.seen(), line: self.lines@[call.ply as int]@, ..call }
    }

    #[verifier::rlimit(40)]
    #[verifier::spinoff_prover]
    fn node_value<H: Host>(
        &mut self,
        host: &mut H,
        pos: &mut Position,
        depth: i32,
        ply: usize,
        alpha: Value,
        beta: Value,
        node_type: NodeType,
        allow_null: bool,
        excluded: Move,
    ) -> (r: Value)
        requires
            old(self).wf(),
            old(pos).wf(),
            1 <= ply < MAX_PLY,
            depth <= 1000,
            old(pos)@.searchable(ply as int),
            -SCORE_LIMIT <= alpha < beta <= SCORE_LIMIT,
        ensures
            final(self).stack_kept(old(self), ply as int),
            final(self).kept(old(self), ply as int),
            playable_line(old(pos)@, final(self).lines@[ply as int]@),
            final(pos).wf(),
            final(pos)@ == old(pos)@,
            final(pos).keys == old(pos).keys,
            -SCORE_LIMIT <= r <= SCORE_LIMIT,
            depth <= 0 ==> old(self).quiesces(
                old(pos)@,
                ply,
                0,
                alpha,
                beta,
                node_type == NodeType::PV && !final(self).stopped,
                r,
            ),
            depth > 0 && ply < MAX_PLY - 1 && old(self).seen().holds_out(
                old(pos)@,
                ply,
                alpha,
                beta,
            ) ==> r == value_draw(old(self).nodes),
            depth > 0 && ply < MAX_PLY - 1 && !final(self).stopped && !old(self).seen().holds_out(
                old(pos)@,
                ply,
                alpha,
                beta,
            ) ==> {
                &&& old(pos)@.drawn(ply as int) ==> r == value_draw(counted(old(self).nodes))
                &&& !old(pos)@.drawn(ply as int) ==> (old(pos)@.variant_result(ply) matches Some(
                    v,
                ) ==> r == v)
                &&& !old(pos)@.drawn(ply as int) && old(pos)@.variant_result(ply) is None ==> {
                    let low = raised(old(self).seen().held(old(pos)@, ply, alpha), ply);
                    let high = lowered(beta, ply);
                    // No mate is near enough to matter.
                    &&& low >= high ==> r == low
                    &&& low < high && node_type == NodeType::PV ==> explored(
                        old(pos)@,
                        ply,
                        low,
                        high,
                        excluded,
                        final(self).lines@[ply as int]@,
                        r,
                    )
                }
            },
            node_type == NodeType::PV && depth > 0 && (forall|m: Move| !#[trigger] old(
                pos,
            )@.legal(m)) ==> final(self).nodes <= counted(old(self).nodes),
            !final(self).stopped ==> node_accounted(
                final(self).journal@,
                old(self).node_call(
                    old(pos)@,
                    depth,
                    ply,
                    alpha,
                    beta,
                    node_type,
                    allow_null,
                    excluded,
                    r,
                    final(self).seen(),
                    final(self).lines@[ply as int]@,
                ),
            ),
        decreases MAX_PLY - ply, weight(excluded, allow_null) + 11,
    {
        proof {
            reveal(node_accounted);
        }
        let ghost call = self.node_call(
            pos@,
            depth,
            ply,
            alpha,
            beta,
            node_type,
            allow_null,
            excluded,
            0,
            self.seen(),
            Seq::empty(),
        );
        let mut alpha = alpha;
        let mut beta = beta;
        // Cleared before any early return: the parent copies this line after the child
        // returns, and a stale one would splice in a line from another node.
        self.clear_pv(ply);
        if depth <= 0 {
            return self.qsearch(host, pos, ply, 0, alpha, beta, node_type);
        }
        let depth: i32 = if depth < 127 {
            depth
        } else {
            127
        };
        if ply >= MAX_PLY - 1 {
            let prev = self.prev_move_idx(ply);
            let raw = evaluate_at(&mut self.journal, host, pos);
            return self.adjusted_eval(pos, raw, prev);
        }
        // A reversible move that repeats a position is always available as a draw.
        if alpha < VALUE_DRAW && pos.upcoming_repetition(ply, &self.cuckoo) {
            let draw: Value = value_draw(self.nodes);
            if draw >= beta {
                return draw;
            }
            if draw > alpha {
                alpha = draw;
            }
        }
        self.count_node();
        self.reset_below(ply);
        if self.check_time(host) {
            return 0;
        }
        if node_type == NodeType::PV && ply > self.seldepth {
            self.seldepth = ply;
        }
        if pos.is_draw(ply) {
            return value_draw(self.nodes);
        }
        if let Some(x) = variant_terminal(pos, ply) {
            return x;
        }
        // Mate distance pruning
        if alpha < mated_in(ply) {
            alpha = mated_in(ply);
        }
        if beta > mate_in(ply + 1) {
            beta = mate_in(ply + 1);
        }
        if alpha >= beta {
            return alpha;
        }
        let r = self.search_node(
            host,
            pos,
            depth,
            ply,
            alpha,
            beta,
            node_type,
            allow_null,
            excluded,
            Ghost(call),
        );
        proof {
            if !self.stopped {
                let c = NodeCall {
                    r,
                    after: self.seen(),
                    line: self.lines@[ply as int]@,
                    ..call
                };
                assert(alpha == raised(c.seen.held(c.v, ply, c.alpha), ply));
                assert(beta == lowered(c.beta, ply));
                assert(node_accounted(self.journal@, c));
            }
        }
        r
    }

    /// Looks the position up in the table and evaluates it where the table has no
    /// evaluation.
    fn enter_node<H: Host>(
        &mut self,
        host: &mut H,
        pos: &Position,
        depth: i32,
        ply: usize,
        alpha: Value,
        beta: Value,
        node_type: NodeType,
        excluded: Move,
    ) -> (r: (Node, bool, Ghost<Option<TTData>>, Ghost<Value>))
        requires
            old(self).wf(),
            pos.wf(),
            1 <= ply < MAX_PLY - 1,
            1 <= depth <= 127,
            -32000 <= alpha < beta <= 32000,
        ensures
            *final(self) == (Searcher {
                stack: final(self).stack,
                journal: final(self).journal,
                ..*old(self)
            }),
            final(self).wf(),
            extends(old(self).journal@, final(self).journal@),
            node_known(
                final(self).journal@,
                old(self).journal@.len() as int,
                pos@,
                r.2@,
                r.3@,
            ),
            r.0 == node_of(
                old(self).seen(),
                pos@,
                depth,
                ply,
                alpha,
                beta,
                node_type,
                excluded,
                r.2@,
                r.3@,
            ),
            r.1 == node_worsens(old(self).seen(), pos@, ply, r.3@),
            r.0.ok(pos@),
            r.0.ply == ply && r.0.alpha == alpha && r.0.beta == beta && r.0.node_type == node_type
                && r.0.excluded == excluded && r.0.key == pos@.st().key,
            r.0.depth <= depth + 1,
            node_type == NodeType::PV ==> r.0.tt_pv,
            final(self).stack@ == old(self).noted(r.0),
    {
        let ghost log0 = self.journal@;
        let key = pos.key();
        let entry = probe(&mut self.journal, host, key);
        let ghost log1 = self.journal@;
        let mut raw: Value = 0;
        if !pos.in_check() {
            let stored: Value = match entry {
                Some(d) => d.eval,
                None => VALUE_NONE,
            };
            if stored == VALUE_NONE {
                raw = evaluate_at(&mut self.journal, host, pos);
                let ghost log2 = self.journal@;
                store(
                    &mut self.journal,
                    host,
                    key,
                    Store {
                        depth: 0,
                        bound: Bound::Empty,
                        is_pv: match entry {
                            Some(d) => d.is_pv,
                            None => false,
                        },
                        score: VALUE_NONE,
                        eval: raw,
                        mv: known_move(pos, entry),
                    },
                );
                proof {
                    lemma_evaluated(
                        log2,
                        self.journal@,
                        log1.len() as int,
                        log0.len() as int,
                        pos@,
                        raw,
                    );
                }
            } else {
                raw = stored;
            }
        }
        proof {
            lemma_probed(
                log1,
                self.journal@,
                log0.len() as int,
                log0.len() as int,
                key,
                entry,
            );
            reveal(node_known);
        }
        let ghost log = self.journal@;
        let (n, worsening) = self.node_at(
            pos,
            depth,
            ply,
            alpha,
            beta,
            node_type,
            excluded,
            entry,
            raw,
        );
        proof {
            assert(self.journal@ == log);
            reveal(node_of);
        }
        (n, worsening, Ghost(entry), Ghost(raw))
    }

    /// The search stack once a node is entered: the parent's reduction is used up, and the
    /// node's evaluation and table mark are noted.
    pub open spec fn noted(&self, n: Node) -> Seq<StackEntry> {
        let s = self.stack@.update(
            n.ply - 1,
            StackEntry { reduction: 0, ..self.stack@[n.ply - 1] },
        );
        s.update(
            n.ply as int,
            StackEntry {
                static_eval: n.static_eval,
                tt_pv: n.tt_pv,
                ..self.stack@[n.ply as int]
            },
        )
    }

    /// What is known of a node, given the table's answer and, out of check, the evaluation
    /// before corrections. The depth is adjusted from the parent's reduction. Also whether
    /// the side that moved is worse off than it thought.
    #[verifier::rlimit(40)]
    pub fn node_at(
        &mut self,
        pos: &Position,
        depth: i32,
        ply: usize,
        alpha: Value,
        beta: Value,
        node_type: NodeType,
        excluded: Move,
        entry: Option<TTData>,
        raw: Value,
    ) -> (r: (Node, bool))
        requires
            old(self).wf(),
            pos.wf(),
            1 <= ply < MAX_PLY - 1,
            1 <= depth <= 127,
            -32000 <= alpha < beta <= 32000,
            entry matches Some(d) ==> d.ok(),
            -32768 <= raw <= 32767,
        ensures
            final(self).wf(),
            *final(self) == (Searcher { stack: final(self).stack, ..*old(self) }),
            final(self).stack@ == old(self).noted(r.0),
            r.0 == node_of(
                old(self).seen(),
                pos@,
                depth,
                ply,
                alpha,
                beta,
                node_type,
                excluded,
                entry,
                raw,
            ),
            r.1 == node_worsens(old(self).seen(), pos@, ply, raw),
            r.0.ok(pos@),
    {
        let ghost o = *self;
        let in_check = pos.in_check();
        let is_pv = node_type == NodeType::PV;
        let prior_reduction = self.stack[ply - 1].reduction;
        let rule50 = pos.rule50_count();
        let tt_hit = entry.is_some();
        let (tt_value, tt_depth, tt_was_pv, tt_bound) = match entry {
            Some(d) => (value_from_tt(d.score, ply, rule50), d.depth, d.is_pv, d.bound),
            None => (VALUE_NONE, 0, false, Bound::Empty),
        };
        let tt_move = known_move(pos, entry);
        let prev_move = self.prev_move_idx(ply);
        // Static evaluation
        let (settled, raw_eval): (Value, Value) = if in_check {
            let prev: Value = if ply >= 2 {
                self.stack[ply - 2].static_eval
            } else {
                0
            };
            (prev, prev)
        } else {
            (self.adjusted_eval(pos, raw, prev_move), raw)
        };
        let prev_entry = self.stack[ply - 1];
        // Evaluation smoothing with the parent move's history score.
        let smoothing = div_toward_zero(-(prev_entry.stat_score as i64), 512) as Value;
        proof {
            assert(-32 <= smoothing <= 32);
        }
        let static_eval: Value = settled + smoothing;
        let tt_pv = is_pv || (tt_hit && tt_was_pv);
        self.set_reduction(ply - 1, 0);
        let mut e = self.stack[ply];
        e.static_eval = static_eval;
        e.tt_pv = tt_pv;
        self.put(ply, e);
        let improving = if in_check {
            false
        } else if ply >= 2 {
            static_eval > self.stack[ply - 2].static_eval
        } else {
            true
        };
        let worsening = !in_check && static_eval > -prev_entry.static_eval;
        // Hindsight depth adjustment from the parent's reduction.
        proof {
            reveal(node_of);
        }
        let depth: i32 = if in_check {
            depth
        } else {
            hindsight(depth, prior_reduction, worsening, static_eval, prev_entry.static_eval)
        };
        (
            Node {
                ply,
                depth,
                alpha,
                beta,
                node_type,
                excluded,
                in_check,
                key: pos.key(),
                tt_hit,
                tt_move,
                tt_value,
                tt_depth,
                tt_bound,
                tt_pv,
                static_eval,
                raw_eval,
                improving,
                prev_move,
            },
            worsening,
        )
    }

    /// Evaluation of a node refined by a table bound in the right direction.
    pub open spec fn refined(n: Node) -> Value {
        if n.excluded.0 == 0 && n.tt_hit && n.tt_value != VALUE_NONE && (if n.tt_value
            > n.static_eval {
            n.tt_bound.has_lower()
        } else {
            n.tt_bound.has_upper()
        }) {
            n.tt_value
        } else {
            n.static_eval
        }
    }

    fn refine(n: &Node) -> (r: Value)
        ensures
            r == Searcher::refined(*n),
    {
        if n.excluded.is_none() && n.tt_hit && n.tt_value != VALUE_NONE {
            let better = if n.tt_value > n.static_eval {
                n.tt_bound.has_lower()
            } else {
                n.tt_bound.has_upper()
            };
            if better {
                return n.tt_value;
            }
        }
        n.static_eval
    }

    /// Search of a node where the game goes on.
    #[verifier::rlimit(80)]
    #[verifier::spinoff_prover]
    fn search_node<H: Host>(
        &mut self,
        host: &mut H,
        pos: &mut Position,
        depth: i32,
        ply: usize,
        alpha: Value,
        beta: Value,
        node_type: NodeType,
        allow_null: bool,
        excluded: Move,
        Ghost(call): Ghost<NodeCall>,
    ) -> (r: Value)
        requires
            old(self).wf(),
            old(pos).wf(),
            1 <= ply < MAX_PLY - 1,
            1 <= depth <= 127,
            old(pos)@.searchable(ply as int),
            -32000 <= alpha < beta <= 32000,
            old(self).lines@[ply as int]@.len() == 0,
            call.v == old(pos)@,
            depth == (if call.depth < 127 {
                call.depth
            } else {
                127
            }),
            call.ply == ply,
            call.node_type == node_type,
            call.allow_null == allow_null,
            call.excluded == excluded,
            0 <= call.start <= old(self).journal@.len(),
            call.seen.hist == old(self).hist,
            call.seen.stack.len() == STACK_SIZE,
            call.seen.stack[ply - 1] == old(self).stack@[ply - 1],
            ply >= 2 ==> call.seen.stack[ply - 2] == old(self).stack@[ply - 2],
            call.seen.nmp_min_ply == old(self).nmp_min_ply,
            call.seen.seek_mate == old(self).seek_mate,
        ensures
            final(self).stack_kept(old(self), ply as int),
            final(self).kept(old(self), ply as int),
            playable_line(old(pos)@, final(self).lines@[ply as int]@),
            final(pos).wf(),
            final(pos)@ == old(pos)@,
            final(pos).keys == old(pos).keys,
            -SCORE_LIMIT <= r <= SCORE_LIMIT,
            node_type == NodeType::PV && !final(self).stopped ==> explored(
                old(pos)@,
                ply,
                alpha,
                beta,
                excluded,
                final(self).lines@[ply as int]@,
                r,
            ),
            node_type == NodeType::PV && (forall|m: Move| !#[trigger] old(pos)@.legal(m))
                ==> final(self).nodes == old(self).nodes,
            !final(self).stopped ==> exists|entry: Option<TTData>, raw: Value|
                node_known(final(self).journal@, call.start, call.v, entry, raw)
                    && #[trigger] node_settled(
                    final(self).journal@,
                    NodeCall {
                        r,
                        after: final(self).seen(),
                        line: final(self).lines@[ply as int]@,
                        ..call
                    },
                    alpha,
                    beta,
                    entry,
                    raw,
                ),
        decreases MAX_PLY - ply, weight(excluded, allow_null) + 10,
    {
        let ghost v = pos@;
        let ghost log0 = self.journal@;
        let is_pv = node_type == NodeType::PV;
        let (n, worsening, Ghost(entry), Ghost(raw)) = self.enter_node(
            host,
            pos,
            depth,
            ply,
            alpha,
            beta,
            node_type,
            excluded,
        );
        let ghost n0 = n;
        proof {
            lemma_same_node(
                old(self).seen(),
                call.seen,
                v,
                depth,
                ply,
                alpha,
                beta,
                node_type,
                excluded,
                entry,
                raw,
            );
            lemma_known(log0, self.journal@, self.journal@, call, entry, raw);
        }
        let ghost log1 = self.journal@;
        let tt_capture = n.tt_move.is_some() && pos.is_capture_stage(n.tt_move);
        // Table cutoff (non-PV)
        if !is_pv && excluded.is_none() && n.tt_hit && n.tt_value != VALUE_NONE {
            let rule50 = pos.rule50_count();
            if tt_cutoff(
                n.depth,
                beta,
                n.tt_value,
                n.tt_depth,
                n.tt_bound,
                node_type == NodeType::Cut,
                rule50,
            ) {
                proof {
                    lemma_settled_by_table(
                        log1,
                        self.ended(call, n.tt_value),
                        alpha,
                        beta,
                        entry,
                        raw,
                        n0,
                    );
                }
                return n.tt_value;
            }
            // Deep enough but holding the opposite bound: shave a ply so a real search
            // replaces it.
            if tt_misleads(n.depth, beta, n.tt_value, n.tt_depth, n.tt_bound) {
                penalize(&mut self.journal, host, n.key);
            }
        }
        let ghost log2 = self.journal@;
        proof {
            assert(!table_cuts(n0, v));
            lemma_known(log1, log1, log2, call, entry, raw);
        }
        self.search_evaluated(
            host,
            pos,
            n,
            worsening,
            allow_null,
            tt_capture,
            Ghost(call),
            Ghost(entry),
            Ghost(raw),
        )
    }

    /// Search of a node that the table has not settled.
    #[verifier::rlimit(60)]
    #[verifier::spinoff_prover]
    fn search_evaluated<H: Host>(
        &mut self,
        host: &mut H,
        pos: &mut Position,
        known: Node,
        worsening: bool,
        allow_null: bool,
        tt_capture: bool,
        Ghost(call): Ghost<NodeCall>,
        Ghost(entry): Ghost<Option<TTData>>,
        Ghost(raw): Ghost<Value>,
    ) -> (r: Value)
        requires
            old(self).wf(),
            old(pos).wf(),
            known.ok(old(pos)@),
            known.depth <= 128,
            known.node_type == NodeType::PV ==> known.tt_pv,
            old(pos)@.searchable(known.ply as int),
            old(self).lines@[known.ply as int]@.len() == 0,
            call.v == old(pos)@,
            call.ply == known.ply,
            call.node_type == known.node_type,
            call.allow_null == allow_null,
            call.excluded == known.excluded,
            0 <= call.start <= old(self).journal@.len(),
            call.seen.nmp_min_ply == old(self).nmp_min_ply,
            call.seen.seek_mate == old(self).seek_mate,
            known == call_node(call, known.alpha, known.beta, entry, raw),
            worsening == node_worsens(call.seen, call.v, call.ply, raw),
            tt_capture == noisy_table_move(known, old(pos)@),
            !table_cuts(known, old(pos)@),
            node_known(old(self).journal@, call.start, call.v, entry, raw),
        ensures
            final(self).stack_kept(old(self), known.ply as int),
            final(self).kept(old(self), known.ply as int),
            playable_line(old(pos)@, final(self).lines@[known.ply as int]@),
            final(pos).wf(),
            final(pos)@ == old(pos)@,
            final(pos).keys == old(pos).keys,
            -SCORE_LIMIT <= r <= SCORE_LIMIT,
            known.node_type == NodeType::PV && !final(self).stopped ==> explored(
                old(pos)@,
                known.ply,
                known.alpha,
                known.beta,
                known.excluded,
                final(self).lines@[known.ply as int]@,
                r,
            ),
            known.node_type == NodeType::PV && (forall|m: Move| !#[trigger] old(pos)@.legal(m))
                ==> final(self).nodes == old(self).nodes,
            !final(self).stopped ==> exists|entry: Option<TTData>, raw: Value|
                node_known(final(self).journal@, call.start, call.v, entry, raw)
                    && #[trigger] node_settled(
                    final(self).journal@,
                    NodeCall {
                        r,
                        after: final(self).seen(),
                        line: final(self).lines@[known.ply as int]@,
                        ..call
                    },
                    known.alpha,
                    known.beta,
                    entry,
                    raw,
                ),
        decreases MAX_PLY - known.ply, weight(known.excluded, allow_null) + 9,
    {
        let ghost v = pos@;
        let ghost n0 = known;
        let ghost log2 = self.journal@;
        let mut n = known;
        let ply = known.ply;
        let (alpha, beta) = (known.alpha, known.beta);
        let node_type = known.node_type;
        let excluded = known.excluded;
        let is_pv = node_type == NodeType::PV;
        let eval = Searcher::refine(&n);
        if !n.in_check {
            // Razoring
            if !is_pv && razors(n.depth, eval, alpha) {
                let r = self.qsearch(host, pos, ply, 0, alpha, beta, node_type);
                proof {
                    let log = self.journal@;
                    lemma_known(log2, log2, log, call, entry, raw);
                    if !self.stopped {
                        assert(quiet_at(log, call.start, n0, v, log.len() - 1, r));
                        lemma_settled_by_captures(
                            log,
                            self.ended(call, r),
                            alpha,
                            beta,
                            entry,
                            raw,
                            n0,
                        );
                    }
                }
                return r;
            }
            // Reverse futility pruning
            let cap: i32 = if self.seek_mate {
                RFP_SEEK_MATE_DEPTH
            } else {
                RFP_MAX_DEPTH
            };
            if !n.tt_pv && n.depth < cap && (n.tt_move.is_none() || tt_capture) && !is_loss(beta)
                && !is_win(eval) {
                if let Some(x) = reverse_futility(
                    n.depth,
                    eval,
                    beta,
                    n.tt_hit,
                    n.improving,
                    worsening,
                ) {
                    proof {
                        assert(reverse_futile(call.seen, n0, v, worsening));
                        lemma_settled_by_margin(
                            log2,
                            self.ended(call, x),
                            alpha,
                            beta,
                            entry,
                            raw,
                            n0,
                        );
                    }
                    return x;
                }
            }
            // Null move pruning with verification at high depth
            if !is_pv && allow_null && excluded.is_none() {
                let passed = self.try_null(host, pos, &n);
                if let Some(x) = passed {
                    proof {
                        let log = self.journal@;
                        lemma_known(log2, log2, log, call, entry, raw);
                        if !self.stopped {
                            lemma_settled_by_pass(
                                log,
                                log2.len() as int,
                                self.ended(call, x),
                                alpha,
                                beta,
                                entry,
                                raw,
                                n0,
                            );
                        }
                    }
                    return x;
                }
            }
            n.improving = n.improving || n.static_eval >= beta;
            // Internal iterative reductions
            if n.depth >= IIR_MIN_DEPTH && n.tt_move.is_none() {
                n.depth = n.depth - IIR_REDUCTION;
            }
        }
        let ghost log3 = self.journal@;
        let ghost pass_from = log2.len() as int;
        proof {
            if passes(call, n0) && !self.stopped {
                assert(pass_failed(log3, pass_from, call.seen, n0, v));
            }
            assert(n == after_pass(n0));
            assert(!razored(n0) && !reverse_futile(call.seen, n0, v, worsening));
        }
        let r = self.search_on(host, pos, &n, tt_capture);
        proof {
            let log = self.journal@;
            lemma_known(log2, log2, log, call, entry, raw);
            if !self.stopped {
                lemma_settled_by_moves(
                    log,
                    log3,
                    pass_from,
                    self.ended(call, r),
                    alpha,
                    beta,
                    entry,
                    raw,
                    n0,
                );
            }
        }
        r
    }

    /// Search of a node that its evaluation has not settled.
    #[verifier::rlimit(40)]
    #[verifier::spinoff_prover]
    fn search_on<H: Host>(
        &mut self,
        host: &mut H,
        pos: &mut Position,
        n: &Node,
        tt_capture: bool,
    ) -> (r: Value)
        requires
            old(self).wf(),
            old(pos).wf(),
            n.ok(old(pos)@),
            n.depth <= 129,
            old(pos)@.searchable(n.ply as int),
            playable_line(old(pos)@, old(self).lines@[n.ply as int]@),
            n.node_type == NodeType::PV ==> old(self).lines@[n.ply as int]@.len() == 0,
            tt_capture == noisy_table_move(*n, old(pos)@),
        ensures
            final(self).stack_kept(old(self), n.ply as int),
            final(self).kept(old(self), n.ply as int),
            playable_line(old(pos)@, final(self).lines@[n.ply as int]@),
            final(pos).wf(),
            final(pos)@ == old(pos)@,
            final(pos).keys == old(pos).keys,
            -SCORE_LIMIT <= r <= SCORE_LIMIT,
            n.node_type == NodeType::PV && !final(self).stopped ==> explored(
                old(pos)@,
                n.ply,
                n.alpha,
                n.beta,
                n.excluded,
                final(self).lines@[n.ply as int]@,
                r,
            ),
            n.node_type == NodeType::PV && (forall|m: Move| !#[trigger] old(pos)@.legal(m))
                ==> final(self).nodes == old(self).nodes,
            !final(self).stopped ==> node_searched(
                final(self).journal@,
                old(self).journal@.len() as int,
                old(pos)@,
                *n,
                r,
                final(self).lines@[n.ply as int]@,
            ),
        decreases MAX_PLY - n.ply, weight(n.excluded, false) + 8,
    {
        proof {
            reveal(node_searched);
        }
        let ghost v = pos@;
        let ghost o = *self;
        let is_pv = n.node_type == NodeType::PV;
        let beta = n.beta;
        // ProbCut: a good capture whose reduced search stays well above beta.
        if !is_pv && !n.in_check && n.excluded.is_none() && n.depth >= PROBCUT_MIN_DEPTH
            && !is_decisive(beta) {
            let raised = probcut_beta(beta, n.improving);
            if n.tt_value == VALUE_NONE || n.tt_value >= raised {
                if let Some(x) = self.try_probcut(host, pos, n, raised) {
                    return x;
                }
            }
        }
        let ghost from = o.journal@.len() as int;
        let ghost log = self.journal@;
        proof {
            if !self.stopped && probcut_tried(*n) {
                assert(probcut_failed(log, from, *n, v));
            }
        }
        // Small ProbCut: a stored lower bound far above beta is trusted at once.
        if n.tt_hit && n.tt_value != VALUE_NONE && n.tt_bound.has_lower() && n.tt_depth >= n.depth
            - 4 && n.tt_value >= beta + LOW_DEPTH_PROBCUT_MARGIN && !is_decisive(beta)
            && !is_decisive(n.tt_value) {
            proof {
                assert(trusted(*n));
            }
            return beta + LOW_DEPTH_PROBCUT_MARGIN;
        }
        let ghost mid = *self;
        let r = self.search_moves(host, pos, n, tt_capture);
        proof {
            if !self.stopped {
                lemma_moves_back(
                    self.journal@,
                    mid.journal@.len() as int,
                    from,
                    v,
                    *n,
                    r,
                    self.lines@[n.ply as int]@,
                );
                if probcut_tried(*n) {
                    lemma_probcut_on(log, self.journal@, from, from, *n, v);
                }
            }
        }
        r
    }

    /// Passes the move and searches at reduced depth: a score still beyond beta ends the
    /// node, at high depth after a search that may not pass.
    fn try_null<H: Host>(&mut self, host: &mut H, pos: &mut Position, n: &Node) -> (r: Option<
        Value,
    >)
        requires
            old(self).wf(),
            old(pos).wf(),
            n.ok(old(pos)@),
            !n.in_check,
            n.excluded.0 == 0,
            old(pos)@.searchable(n.ply as int),
            old(self).lines@[n.ply as int]@.len() == 0,
        ensures
            final(self).stack_kept(old(self), n.ply as int),
            final(self).kept(old(self), n.ply as int),
            playable_line(old(pos)@, final(self).lines@[n.ply as int]@),
            final(pos).wf(),
            final(pos)@ == old(pos)@,
            final(pos).keys == old(pos).keys,
            r matches Some(x) ==> -SCORE_LIMIT <= x <= SCORE_LIMIT,
            !may_pass(old(self).seen(), *n, old(pos)@) ==> r is None && *final(self) == *old(self),
            may_pass(old(self).seen(), *n, old(pos)@) && !final(self).stopped ==> exists|j: int|
                #[trigger] pass_at(
                    final(self).journal@,
                    old(self).journal@.len() as int,
                    *n,
                    old(pos)@,
                    j,
                ) && pass_answer(
                    final(self).journal@,
                    old(self).journal@.len() as int,
                    old(self).seen(),
                    *n,
                    old(pos)@,
                    final(self).journal@[j]->Node_0.r,
                    r,
                ),
        decreases MAX_PLY - n.ply, weight(n.excluded, true) + 4,
    {
        let ghost v = pos@;
        let ghost o = *self;
        let us = pos.side_to_move();
        let beta = n.beta;
        let ply = n.ply;
        if !(pos.variant().allows_null_move() && n.depth >= NMP_MIN_DEPTH && !is_loss(beta) && ply
            >= self.nmp_min_ply && null_move_promises(n.depth, n.static_eval, beta, n.improving)
            && pos.has_non_pawn_material(us)) {
            return None;
        }
        let r = null_move_reduction(n.depth, n.static_eval, beta);
        self.set_null_ctx(ply);
        self.set_reduction(ply, 0);
        self.set_stat_score(ply, 0);
        pos.make_null_move();
        proof {
            let w = pos@;
            passing_keeps_playable(v, w);
            unmake_undoes_pass(v, w);
            assert(v.room(MAX_PLY - ply + 1));
            assert(w.room(MAX_PLY - (ply + 1) + 1));
        }
        let s = self.search_below(
            host,
            pos,
            n.depth - r,
            ply + 1,
            -beta,
            -beta + 1,
            NodeType::Cut,
            false,
            Move::none(),
        );
        let null_score: Value = -s;
        pos.unmake_null_move();
        if self.stopped {
            return Some(0);
        }
        let ghost at = self.journal@.len() - 1;
        let ghost from = o.journal@.len() as int;
        proof {
            assert(pass_at(self.journal@, from, *n, v, at));
        }
        if null_score >= beta && !is_win(null_score) {
            if self.nmp_min_ply != 0 || n.depth < NMP_VERIFY_MIN_DEPTH {
                return Some(null_score);
            }
            // Verification: disable null moves for a few plies and search again.
            self.nmp_min_ply = ply + (3 * (n.depth - r) / 4) as usize;
            let x = self.search_below(
                host,
                pos,
                n.depth - r,
                ply,
                beta - 1,
                beta,
                NodeType::All,
                false,
                Move::none(),
            );
            self.nmp_min_ply = 0;
            if self.stopped {
                return Some(0);
            }
            proof {
                assert(pass_at(self.journal@, from, *n, v, at));
                assert(checked_at(self.journal@, from, *n, v, self.journal@.len() - 1, x));
            }
            if x >= beta {
                proof {
                    assert(verified_at(self.journal@, from, *n, v, self.journal@.len() - 1));
                }
                return Some(null_score);
            }
        }
        None
    }

    /// Good captures searched shallowly against a raised beta.
    #[verifier::rlimit(40)]
    fn try_probcut<H: Host>(
        &mut self,
        host: &mut H,
        pos: &mut Position,
        n: &Node,
        raised: Value,
    ) -> (r: Option<Value>)
        requires
            old(self).wf(),
            old(pos).wf(),
            n.ok(old(pos)@),
            !n.in_check,
            old(pos)@.searchable(n.ply as int),
            n.beta < raised <= n.beta + 300,
            raised == probcut_limit(*n),
            probcut_tried(*n),
            !is_decisive(n.beta),
            playable_line(old(pos)@, old(self).lines@[n.ply as int]@),
        ensures
            final(self).stack_kept(old(self), n.ply as int),
            final(self).kept(old(self), n.ply + 1),
            final(pos).wf(),
            final(pos)@ == old(pos)@,
            final(pos).keys == old(pos).keys,
            r matches Some(x) ==> -SCORE_LIMIT <= x <= SCORE_LIMIT,
            r is None && !final(self).stopped ==> probcut_failed(
                final(self).journal@,
                old(self).journal@.len() as int,
                *n,
                old(pos)@,
            ),
            r matches Some(x) ==> !final(self).stopped ==> probcut_cuts(
                final(self).journal@,
                old(self).journal@.len() as int,
                *n,
                old(pos)@,
                x,
            ),
        decreases MAX_PLY - n.ply, 3int,
    {
        let ghost v = pos@;
        let ghost o = *self;
        let us = pos.side_to_move();
        let ply = n.ply;
        let depth = probcut_depth(n.depth, n.static_eval, n.beta);
        let mut picker = MovePicker::new_probcut(
            canonical_code(n.tt_move),
            raised - n.static_eval,
            self,
            pos,
        );
        let ghost from = self.journal@.len() as int;
        loop
            invariant
                v == pos@,
                v == old(pos)@,
                o == *old(self),
                pos.wf(),
                pos.keys == old(pos).keys,
                v.searchable(ply as int),
                n.ok(v),
                !n.in_check,
                ply == n.ply,
                n.beta < raised <= n.beta + 300,
                0 <= depth <= n.depth,
                depth == shallow_depth(*n),
                raised == probcut_limit(*n),
                probcut_tried(*n),
                picker.wf(v),
                canonical(picker.tt_move),
                self.kept(&o, ply + 1),
                self.stack_kept(&o, ply as int),
                from == o.journal@.len(),
                !picker.skip_quiets,
                forall|x: Move|
                    v.legal(x) && x != n.excluded && capture_moves(v).contains(x) && v.see_value(x)
                        >= raised - n.static_eval ==> picker.due(v, x) || #[trigger]
                    probcut_refuted(self.journal@, from, *n, v, x),
            decreases picker.stage.rank(), picker.left(),
        {
            let ghost before = picker;
            let ghost start = self.journal@;
            let m = match picker.next(pos, self) {
                Some(m) => m,
                None => {
                    proof {
                        assert forall|x: Move|
                            v.legal(x) && x != n.excluded && capture_moves(v).contains(x)
                                && v.see_value(x) >= raised - n.static_eval implies
                        #[trigger] probcut_refuted(self.journal@, from, *n, v, x) by {
                            if before.due(v, x) {
                                assert(before.waived(v, x));
                            }
                        }
                    }
                    return None;
                },
            };
            proof {
                legal_test_is_exact(v, m);
                assert(picker.handed_out(&before, v, m));
                assert forall|x: Move| x != m && before.due(v, x) implies #[trigger] picker.due(
                    v,
                    x,
                ) by {
                    assert(!picker.waived(v, x));
                }
            }
            if m != n.excluded && pos.legal(m) {
                let pc = pos.moved_piece(m);
                let is_capture = pos.is_capture(m);
                self.set_ctx(ply, m, pc, n.in_check, is_capture);
                self.set_reduction(ply, 0);
                let stat = self.main_hist(us, m);
                self.set_stat_score(ply, stat);
                play_move(pos, m);
                let s = self.quiet_below(host, pos, ply + 1, -raised, -raised + 1, NodeType::Cut);
                let mut val: Value = -s;
                if val >= raised && depth > 0 {
                    let s2 = self.search_below(
                        host,
                        pos,
                        depth,
                        ply + 1,
                        -raised,
                        -raised + 1,
                        NodeType::Cut,
                        true,
                        Move::none(),
                    );
                    val = -s2;
                }
                pos.unmake_move(m);
                if self.stopped {
                    return Some(0);
                }
                let ghost at = self.journal@.len() - 1;
                let ghost log = self.journal@;
                if val >= raised {
                    proof {
                        assert(probcut_at(log, o.journal@.len() as int, *n, v, m, at, val));
                    }
                    store(
                        &mut self.journal,
                        host,
                        n.key,
                        Store {
                            depth: depth + 1,
                            bound: Bound::Lower,
                            is_pv: false,
                            score: value_to_tt(val, ply),
                            eval: n.raw_eval,
                            mv: m,
                        },
                    );
                    if !is_decisive(val) {
                        proof {
                            assert(self.journal@[at] == log[at]);
                            assert(probcut_at(
                                self.journal@,
                                o.journal@.len() as int,
                                *n,
                                v,
                                m,
                                at,
                                val,
                            ));
                        }
                        return Some(val - (raised - n.beta));
                    }
                }
                proof {
                    assert(self.journal@[at] == log[at]);
                    assert(probcut_failed_at(self.journal@, from, *n, v, m, at));
                    assert forall|x: Move|
                        v.legal(x) && x != n.excluded && capture_moves(v).contains(x)
                            && v.see_value(x) >= raised - n.static_eval implies picker.due(v, x)
                        || #[trigger] probcut_refuted(self.journal@, from, *n, v, x) by {
                        if x != m && !before.due(v, x) {
                            assert(probcut_refuted(start, from, *n, v, x));
                            lemma_refuted_on(start, self.journal@, from, from, *n, v, x);
                        }
                    }
                }
            } else {
                proof {
                    assert forall|x: Move|
                        v.legal(x) && x != n.excluded && capture_moves(v).contains(x)
                            && v.see_value(x) >= raised - n.static_eval implies picker.due(v, x)
                        || #[trigger] probcut_refuted(self.journal@, from, *n, v, x) by {
                        if !before.due(v, x) {
                            assert(probcut_refuted(start, from, *n, v, x));
                        }
                    }
                }
            }
        }
    }

    /// The table's move against all others: how far to extend it, or that the node can be
    /// cut at once.
    #[verifier::rlimit(40)]
    fn singular<H: Host>(
        &mut self,
        host: &mut H,
        pos: &mut Position,
        n: &Node,
        m: Move,
        tt_capture: bool,
    ) -> (r: Singular)
        requires
            old(self).wf(),
            old(pos).wf(),
            n.ok(old(pos)@),
            n.excluded.0 == 0,
            m.0 != 0,
            n.tt_value != VALUE_NONE,
            !is_decisive(n.tt_value),
            old(pos)@.searchable(n.ply as int),
            tt_capture == noisy_table_move(*n, old(pos)@),
            !old(self).seen().shuffles(
                old(pos)@,
                m,
                n.ply,
                captured_by(old(pos)@, m) is Some,
            ),
        ensures
            final(self).stack_kept(old(self), n.ply as int),
            final(self).kept(old(self), n.ply as int),
            playable_line(old(pos)@, final(self).lines@[n.ply as int]@),
            final(pos).wf(),
            final(pos)@ == old(pos)@,
            final(pos).keys == old(pos).keys,
            r matches Singular::Cut(x) ==> -SCORE_LIMIT <= x <= SCORE_LIMIT,
            r matches Singular::Extend(e) ==> 1 <= e <= 3,
            r matches Singular::Reduce(e) ==> e == 0 || e == -2 || e == -3,
            r is Stopped <==> final(self).stopped,
            !final(self).stopped ==> ({
                let log = final(self).journal@;
                let j = log.len() - 1;
                &&& left_out_at(log, old(self).journal@.len() as int, *n, old(pos)@, m, j)
                &&& log[j]->Node_0.seen == old(self).seen()
                &&& r == singular_verdict(log, *n, old(pos)@, j)
            }),
        decreases MAX_PLY - n.ply, 10 + 4,
    {
        let cut_node = n.node_type == NodeType::Cut;
        let window = singular_window(n.tt_value, n.depth, self.hist.tt_move_history);
        let value = self.search_below(
            host,
            pos,
            (n.depth - 1) / 2,
            n.ply,
            window - 1,
            window,
            if cut_node {
                NodeType::Cut
            } else {
                NodeType::All
            },
            false,
            m,
        );
        if self.stopped {
            return Singular::Stopped;
        }
        let r = if value < window {
            Singular::Extend(singular_extension(value, window, n.depth, tt_capture))
        } else if value >= n.beta && !is_decisive(value) {
            // Multi-cut: other moves also beat beta, so prune the whole node.
            let penalty: i32 = if -400 - 100 * n.depth > -4000 {
                -400 - 100 * n.depth
            } else {
                -4000
            };
            self.hist.tt_move_history = reliability(self.hist.tt_move_history, penalty);
            Singular::Cut(value)
        } else if n.tt_value >= n.beta {
            Singular::Reduce(-3)
        } else if cut_node {
            Singular::Reduce(-2)
        } else {
            Singular::Reduce(0)
        };
        proof {
            assert(window == singular_limit(old(self).seen(), *n));
            assert(left_out_at(
                self.journal@,
                old(self).journal@.len() as int,
                *n,
                pos@,
                m,
                self.journal@.len() - 1,
            ));
        }
        r
    }

    /// Late move reduction of a quiet move that is not the first; `pos` is the position
    /// after it.
    fn reduction_of(&self, pos: &Position, n: &Node, c: &Tried) -> (r: i32)
        requires
            self.wf(),
            pos.wf(),
            1 <= n.depth <= 130,
            1 <= n.ply < MAX_PLY - 1,
            -36500 <= n.static_eval <= 36500,
            -36500 <= n.raw_eval <= 36500,
            c.pc.0 < 12,
        ensures
            0 <= r <= n.depth,
            r == self.seen().reduction(pos@, *n, *c),
    {
        proof {
            reveal(Seen::reduction);
        }
        if !(n.depth >= LMR_MIN_DEPTH && c.count >= LMR_MIN_MOVES && !n.in_check
            && c.captured.is_none() && !(c.gives_check && c.pc.piece_type() == PieceType::Queen)) {
            return 0;
        }
        let to = c.m.to_sq() as usize;
        let x = Reducing {
            base: self.lmr_reduction(n.depth, c.count),
            improving: n.improving,
            tt_pv: n.tt_pv,
            cut_node: n.node_type == NodeType::Cut,
            all_node: n.node_type == NodeType::All,
            history: self.main_hist(c.us, c.m) + self.pawn_hist(c.pawn_key, c.pc, to),
            continuation: self.cont_history_sum(&self.cont_keys(n.ply), c.pc, to),
            correction: n.static_eval - n.raw_eval,
            shuffling: self.is_shuffling(pos, c.m, n.ply, c.captured.is_some()),
            cutting: self.stack[n.ply + 1].cutoff_cnt > LMR_CUTOFF_THRESH,
            unreliable: self.hist.tt_move_history < LMR_TT_HISTORY_THRESH,
        };
        late_move_reduction(x, n.depth)
    }

    /// Searches the position after the first move at full depth and window.
    #[verifier::rlimit(40)]
    #[verifier::spinoff_prover]
    fn search_first<H: Host>(
        &mut self,
        host: &mut H,
        pos: &mut Position,
        n: &Node,
        c: &Tried,
        extension: i32,
        best_score: Value,
    ) -> (r: (Option<Value>, Ghost<(int, int)>))
        requires
            old(self).wf(),
            old(pos).wf(),
            1 <= n.ply < MAX_PLY - 1,
            1 <= n.depth <= 130,
            -32000 <= n.alpha < n.beta <= 32000,
            -33000 <= n.tt_value <= 33000,
            0 <= n.tt_depth <= 255,
            -36500 <= n.static_eval <= 36500,
            -36500 <= n.raw_eval <= 36500,
            old(pos)@.searchable(n.ply + 1),
            c.pc.0 < 12,
            -3 <= extension <= 3,
            noted(old(self).seen(), *n, *c),
            -SCORE_LIMIT <= best_score <= SCORE_LIMIT,
            c.count == 1,
        ensures
            final(self).stack_kept(old(self), n.ply + 1),
            final(self).kept(old(self), n.ply + 1),
            r.0 is Some ==> playable_line(old(pos)@, final(self).lines@[n.ply + 1]@),
            final(pos).wf(),
            final(pos)@ == old(pos)@,
            final(pos).keys == old(pos).keys,
            r.0 matches Some(x) ==> -SCORE_LIMIT <= x <= SCORE_LIMIT,
            r.0 is None ==> *final(self) == *old(self) && leaf_pruned(
                old(self).seen(),
                old(pos)@,
                *n,
                *c,
                extension,
                best_score,
            ),
            r.0 matches Some(x) ==> !final(self).stopped ==> ({
                let log = final(self).journal@;
                let (scout, at) = r.1@;
                &&& child_searched(
                    log,
                    old(self).journal@.len() as int,
                    old(pos)@,
                    *n,
                    *c,
                    extension,
                    best_score,
                    scout,
                    at,
                )
                &&& x == -log[at]->Node_0.r
                &&& much_as(log[scout]->Node_0.seen, old(self).seen(), n.ply)
                &&& much_as(final(self).seen(), log[at]->Node_0.after, n.ply)
                &&& final(self).hist@ == child_learned(log, old(pos)@, *n, *c, scout, at)
                &&& final(self).lines@[n.ply + 1]@ == log[at]->Node_0.line
            }),
        decreases MAX_PLY - n.ply, 2int,
    {
        proof {
            reveal(child_searched);
            reveal(child_learned);
        }
        let is_pv = n.node_type == NodeType::PV;
        let cut_node = n.node_type == NodeType::Cut;
        let ply = n.ply;
        let (alpha, beta) = (n.alpha, n.beta);
        let new_depth: i32 = n.depth - 1 + extension;
        // The child of a cut node is expected to be an all node.
        let flipped = if cut_node {
            NodeType::All
        } else {
            NodeType::Cut
        };
        self.set_reduction(ply, 0);
        let s = self.search_below(
            host,
            pos,
            if new_depth > 0 {
                new_depth
            } else {
                0
            },
            ply + 1,
            -beta,
            -alpha,
            if is_pv {
                NodeType::PV
            } else {
                flipped
            },
            true,
            Move::none(),
        );
        (Some(-s), Ghost((self.journal@.len() - 1, self.journal@.len() - 1)))
    }

    /// Searches the position after a later move, reduced with a null window and again where it
    /// does better than expected.
    #[verifier::rlimit(80)]
    #[verifier::spinoff_prover]
    fn search_later<H: Host>(
        &mut self,
        host: &mut H,
        pos: &mut Position,
        n: &Node,
        c: &Tried,
        extension: i32,
        best_score: Value,
    ) -> (r: (Option<Value>, Ghost<(int, int)>))
        requires
            old(self).wf(),
            old(pos).wf(),
            1 <= n.ply < MAX_PLY - 1,
            1 <= n.depth <= 130,
            -32000 <= n.alpha < n.beta <= 32000,
            -33000 <= n.tt_value <= 33000,
            0 <= n.tt_depth <= 255,
            -36500 <= n.static_eval <= 36500,
            -36500 <= n.raw_eval <= 36500,
            old(pos)@.searchable(n.ply + 1),
            c.pc.0 < 12,
            -3 <= extension <= 3,
            noted(old(self).seen(), *n, *c),
            -SCORE_LIMIT <= best_score <= SCORE_LIMIT,
            c.count != 1,
        ensures
            final(self).stack_kept(old(self), n.ply + 1),
            final(self).kept(old(self), n.ply + 1),
            r.0 is Some ==> playable_line(old(pos)@, final(self).lines@[n.ply + 1]@),
            final(pos).wf(),
            final(pos)@ == old(pos)@,
            final(pos).keys == old(pos).keys,
            r.0 matches Some(x) ==> -SCORE_LIMIT <= x <= SCORE_LIMIT,
            r.0 is None ==> *final(self) == *old(self) && leaf_pruned(
                old(self).seen(),
                old(pos)@,
                *n,
                *c,
                extension,
                best_score,
            ),
            r.0 matches Some(x) ==> !final(self).stopped ==> ({
                let log = final(self).journal@;
                let (scout, at) = r.1@;
                &&& child_searched(
                    log,
                    old(self).journal@.len() as int,
                    old(pos)@,
                    *n,
                    *c,
                    extension,
                    best_score,
                    scout,
                    at,
                )
                &&& x == -log[at]->Node_0.r
                &&& much_as(log[scout]->Node_0.seen, old(self).seen(), n.ply)
                &&& much_as(final(self).seen(), log[at]->Node_0.after, n.ply)
                &&& final(self).hist@ == child_learned(log, old(pos)@, *n, *c, scout, at)
                &&& final(self).lines@[n.ply + 1]@ == log[at]->Node_0.line
            }),
        decreases MAX_PLY - n.ply, 2int,
    {
        proof {
            reveal(child_searched);
            reveal(child_learned);
        }
        let ghost w = pos@;
        let ghost o = *self;
        let is_pv = n.node_type == NodeType::PV;
        let cut_node = n.node_type == NodeType::Cut;
        let ply = n.ply;
        let (alpha, beta) = (n.alpha, n.beta);
        let new_depth: i32 = n.depth - 1 + extension;
        // The child of a cut node is expected to be an all node.
        let flipped = if cut_node {
            NodeType::All
        } else {
            NodeType::Cut
        };
        let quiet = c.captured.is_none() && !c.m.is_promotion();
        let reduction = self.reduction_of(pos, n, c);
        let mut child_depth: i32 = new_depth - reduction;
        // History leaf pruning
        if !n.in_check && !is_pv && quiet && !c.gives_check && n.depth <= HLP_MAX_DEPTH && c.count
            >= HLP_MIN_MOVES && !is_loss(best_score) {
            let value = self.main_hist(c.us, c.m) + self.pawn_hist(
                c.pawn_key,
                c.pc,
                c.m.to_sq() as usize,
            );
            if value < HLP_HISTORY_REDUCE {
                child_depth = child_depth - 1;
                if child_depth <= 0 && value < HLP_HISTORY_LEAF {
                    return (None, Ghost((0, 0)));
                }
            }
        }
        let search_depth: i32 = if child_depth > 0 {
            child_depth
        } else {
            0
        };
        self.set_reduction(ply, reduction);
        proof {
            lemma_same_reduction(o.seen(), self.seen(), w, *n, *c);
        }
        let first = self.search_below(
            host,
            pos,
            search_depth,
            ply + 1,
            -alpha - 1,
            -alpha,
            flipped,
            true,
            Move::none(),
        );
        let mut s: Value = -first;
        let ghost scout: int = self.journal@.len() - 1;
        let ghost mut at: int = scout;
        if s > alpha && (reduction > 0 || s < beta) && !self.stopped {
            let deeper = search_depth < new_depth && s > best_score + 43 + 2 * new_depth;
            let shallower = s < best_score + 9;
            let mut again: i32 = new_depth + (if deeper {
                1
            } else {
                0
            }) - (if shallower {
                1
            } else {
                0
            });
            if again < 0 {
                again = 0;
            }
            if is_pv && c.m == canonical_code(n.tt_move) && again == 0 {
                let decisive = n.tt_value != VALUE_NONE && is_decisive(n.tt_value) && n.tt_depth > 0;
                if decisive || n.tt_depth > 1 {
                    again = 1;
                }
            }
            self.set_reduction(ply, 0);
            let second = self.search_below(
                host,
                pos,
                again,
                ply + 1,
                -beta,
                -alpha,
                if is_pv {
                    NodeType::PV
                } else {
                    flipped
                },
                true,
                Move::none(),
            );
            s = -second;
            proof {
                at = self.journal@.len() - 1;
            }
            // A reduced search that forced another proved the quiet good.
            if reduction > 0 && quiet {
                self.update_continuation_histories(
                    ply,
                    n.in_check,
                    c.pc,
                    c.m.to_sq() as usize,
                    100 * n.depth,
                );
            }
        }
        (Some(s), Ghost((scout, at)))
    }

    /// Searches the position after a move, the first at full depth and window, the others
    /// reduced with a null window and again where they do better than expected. `None`
    /// where history rules the move out.
    fn search_child<H: Host>(
        &mut self,
        host: &mut H,
        pos: &mut Position,
        n: &Node,
        c: &Tried,
        extension: i32,
        best_score: Value,
    ) -> (r: (Option<Value>, Ghost<(int, int)>))
        requires
            old(self).wf(),
            old(pos).wf(),
            1 <= n.ply < MAX_PLY - 1,
            1 <= n.depth <= 130,
            -32000 <= n.alpha < n.beta <= 32000,
            -33000 <= n.tt_value <= 33000,
            0 <= n.tt_depth <= 255,
            -36500 <= n.static_eval <= 36500,
            -36500 <= n.raw_eval <= 36500,
            old(pos)@.searchable(n.ply + 1),
            c.pc.0 < 12,
            -3 <= extension <= 3,
            noted(old(self).seen(), *n, *c),
            -SCORE_LIMIT <= best_score <= SCORE_LIMIT,
        ensures
            final(self).stack_kept(old(self), n.ply + 1),
            final(self).kept(old(self), n.ply + 1),
            r.0 is Some ==> playable_line(old(pos)@, final(self).lines@[n.ply + 1]@),
            final(pos).wf(),
            final(pos)@ == old(pos)@,
            final(pos).keys == old(pos).keys,
            r.0 matches Some(x) ==> -SCORE_LIMIT <= x <= SCORE_LIMIT,
            r.0 is None ==> *final(self) == *old(self) && leaf_pruned(
                old(self).seen(),
                old(pos)@,
                *n,
                *c,
                extension,
                best_score,
            ),
            r.0 matches Some(x) ==> !final(self).stopped ==> ({
                let log = final(self).journal@;
                let (scout, at) = r.1@;
                &&& child_searched(
                    log,
                    old(self).journal@.len() as int,
                    old(pos)@,
                    *n,
                    *c,
                    extension,
                    best_score,
                    scout,
                    at,
                )
                &&& x == -log[at]->Node_0.r
                &&& much_as(log[scout]->Node_0.seen, old(self).seen(), n.ply)
                &&& much_as(final(self).seen(), log[at]->Node_0.after, n.ply)
                &&& final(self).hist@ == child_learned(log, old(pos)@, *n, *c, scout, at)
                &&& final(self).lines@[n.ply + 1]@ == log[at]->Node_0.line
            }),
        decreases MAX_PLY - n.ply, 3int,
    {
        if c.count == 1 {
            self.search_first(host, pos, n, c, extension, best_score)
        } else {
            self.search_later(host, pos, n, c, extension, best_score)
        }
    }

    /// Stores the result of a node and learns from it.
    #[verifier::rlimit(40)]
    #[verifier::spinoff_prover]
    pub(crate) fn finish_node<H: Host>(
        &mut self,
        host: &mut H,
        pos: &Position,
        n: &Node,
        alpha: Value,
        best: Value,
        best_move: Move,
        raising: Move,
    ) -> (r: Value)
        requires
            old(self).wf(),
            pos.wf(),
            1 <= n.ply < MAX_PLY - 1,
            1 <= n.depth <= 130,
            -32000 <= n.alpha < n.beta <= 32000,
            -36500 <= n.raw_eval <= 36500,
            n.prev_move < LASTMOVE_CORRHIST_SIZE,
            -SCORE_LIMIT <= best <= SCORE_LIMIT,
        ensures
            final(self).wf(),
            final(self).only_learned(&(Searcher { journal: final(self).journal, ..*old(self) })),
            extends(old(self).journal@, final(self).journal@),
            if n.excluded.0 != 0 {
                final(self).journal@ == old(self).journal@
            } else {
                stores(
                    old(self).journal@,
                    final(self).journal@,
                    n.key,
                    Store {
                        depth: n.depth,
                        bound: bound_of(r, n.alpha, n.beta),
                        is_pv: n.tt_pv || (r <= n.alpha && old(self).stack@[n.ply - 1].tt_pv),
                        score: value_to_tt(r, n.ply),
                        eval: n.raw_eval,
                        mv: raising,
                    },
                )
            },
            r == node_result(*n, alpha, best),
            -SCORE_LIMIT <= r <= SCORE_LIMIT,
            final(self).hist@ == result_learned(
                old(self).hist@,
                old(self).seen(),
                pos@,
                *n,
                r,
                bound_of(r, n.alpha, n.beta),
                best_move,
            ),
    {
        let ply = n.ply;
        // Every legal move was pruned: the node fails low by construction.
        let mut best: Value = if best == -VALUE_INFINITE {
            n.alpha
        } else {
            best
        };
        // Soften fail-high scores from reduced searches.
        if best >= n.beta && !is_decisive(best) && !is_decisive(alpha) {
            best = softened(best, n.depth, n.beta);
        }
        let prev = self.stack[ply - 1];
        // A fail-low under a PV-marked parent keeps the mark alive on this path.
        let tt_pv = n.tt_pv || (best <= n.alpha && prev.tt_pv);
        let bound = bound_of(best, n.alpha, n.beta);
        if n.excluded.is_none() {
            store(
                &mut self.journal,
                host,
                n.key,
                Store {
                    depth: n.depth,
                    bound,
                    is_pv: tt_pv,
                    score: value_to_tt(best, ply),
                    eval: n.raw_eval,
                    mv: raising,
                },
            );
        }
        self.learn_result(pos, n, best, bound, best_move);
        best
    }

    /// Searches one legal move that was not pruned. `Some` where the node ends at once with
    /// that score.
    #[verifier::rlimit(60)]
    #[verifier::spinoff_prover]
    pub(crate) fn visit<H: Host>(
        &mut self,
        host: &mut H,
        pos: &mut Position,
        p: &mut Progress,
        c: &Tried,
        single: bool,
        tt_capture: bool,
        Ghost(from): Ghost<int>,
    ) -> (r: (Option<Value>, Ghost<Step>))
        requires
            old(self).wf(),
            old(pos).wf(),
            old(p).ok(old(pos)@),
            old(p).k.alpha < old(p).k.beta,
            old(pos)@.searchable(old(p).k.ply as int),
            old(pos)@.legal(c.m),
            c.m.0 != 0,
            c.pc.0 < 12,
            *c == tried_move(old(pos)@, c.m, c.count as int),
            !old(p).done,
            old(p).best <= old(p).k.alpha,
            0 <= from <= old(self).journal@.len(),
            single == (c.count == 1 && singled(old(p).k, old(self).seek_mate) && c.m
                == canonical_code(old(p).k.tt_move)),
            single ==> old(p).k.depth <= 129,
            tt_capture == noisy_table_move(old(p).k, old(pos)@),
            playable_line(old(pos)@, old(self).lines@[old(p).k.ply as int]@),
        ensures
            final(self).stack_kept(old(self), old(p).k.ply as int),
            final(self).kept(old(self), old(p).k.ply as int),
            playable_line(old(pos)@, final(self).lines@[old(p).k.ply as int]@),
            final(pos).wf(),
            final(pos)@ == old(pos)@,
            final(pos).keys == old(pos).keys,
            r.0 matches Some(x) ==> -SCORE_LIMIT <= x <= SCORE_LIMIT,
            r.0 matches Some(x) ==> !final(self).stopped ==> single && multi_cut(
                final(self).journal@,
                from,
                old(p).k,
                old(pos)@,
                x,
            ),
            r.0 is None ==> searched_move(
                *old(self),
                *final(self),
                from,
                old(pos)@,
                *old(p),
                *final(p),
                *c,
                r.1@,
            ),
            final(p).ok(old(pos)@),
            final(p).follows(*old(p)),
            r.0 is None && !final(p).done ==> final(p).k.alpha < final(p).k.beta,
            final(p).best <= final(p).k.alpha,
        decreases MAX_PLY - old(p).k.ply, weight(old(p).k.excluded, false) + 5,
    {
        proof {
            reveal(searched_move);
        }
        let ghost v = pos@;
        let ghost o = *self;
        let ghost k0 = p.k;
        let m = c.m;
        let ply = p.k.ply;
        let in_check = p.k.in_check;
        let is_capture = c.captured.is_some();
        let mut extension: i32 = 0;
        // Singular extension, multi-cut or negative extension on the table's move.
        if single && !self.is_shuffling(pos, m, ply, is_capture) {
            let answer = self.singular(host, pos, &p.k, m, tt_capture);
            match answer {
                Singular::Stopped => {
                    return (Some(0), Ghost(arbitrary()));
                },
                Singular::Cut(x) => {
                    proof {
                        let log = self.journal@;
                        assert(left_out_at(log, from, k0, v, m, log.len() - 1));
                    }
                    return (Some(x), Ghost(arbitrary()));
                },
                Singular::Extend(e) => {
                    extension = e;
                    p.k.depth = p.k.depth + 1;
                },
                Singular::Reduce(e) => {
                    extension = e;
                },
            }
        }
        let ghost tested = self.journal@;
        // A check at the horizon deserves one real reply rather than quiescence.
        if extension == 0 && p.k.depth <= 1 && c.gives_check && !in_check {
            extension = 1;
        }
        self.set_ctx(ply, m, c.pc, in_check, is_capture);
        let stat = self.main_hist(c.us, m);
        self.set_stat_score(ply, stat);
        p.note(Ghost(v), c);
        let ghost mid = *self;
        let (found, Ghost(at)) = self.search_after(host, pos, &p.k, c, extension, p.best);
        if let Some(score) = found {
            if self.stopped {
                return (Some(p.best), Ghost(arbitrary()));
            }
            let ghost t = Try { m, at: at.1, score };
            let ghost s = Step {
                m,
                depth: p.k.depth,
                extension,
                scout: at.0,
                reply: Some(t),
                futile: None,
                seen: o.seen(),
            };
            proof {
                let log = self.journal@;
                let seen = log[at.0]->Node_0.seen;
                let w = log[at.1]->Node_0.v;
                assert(Node { depth: s.depth, ..k0 } == p.k);
                lemma_child_back(
                    log,
                    mid.journal@.len() as int,
                    from,
                    w,
                    p.k,
                    *c,
                    extension,
                    p.best,
                    at.0,
                    at.1,
                );
                if single {
                    if mid.journal@.len() == o.journal@.len() {
                        lemma_same_shuffle(seen, o.seen(), v, k0.ply, m, is_capture);
                    } else {
                        let j = tested.len() - 1;
                        assert(log[j] == tested[j]);
                        assert(singular_step(log, from, v, k0, s, j));
                    }
                }
                assert(replied(log, from, v, k0, c.count as int, p.best, s));
            }
            self.settle(pos, p, c, score, extension);
            return (None, Ghost(s));
        }
        let ghost s = Step {
            m,
            depth: p.k.depth,
            extension,
            scout: 0,
            reply: None,
            futile: None,
            seen: mid.seen(),
        };
        proof {
            assert(c.count >= HLP_MIN_MOVES);
            assert(!single && p.k == k0);
            assert(s.extension == check_extension(v, k0, k0.depth, m, 0));
            assert(much_as(mid.seen(), o.seen(), ply));
            let w = choose|w: PosView| #[trigger]
                v.made(m, v.check_test(m), w) && leaf_pruned(
                    mid.seen(),
                    w,
                    k0,
                    *c,
                    extension,
                    p.best,
                );
            assert(v.made(m, v.check_test(m), w) && leaf_pruned(
                s.seen,
                w,
                k0,
                *c,
                s.extension,
                p.best,
            ));
        }
        (None, Ghost(s))
    }

    /// Makes a move, searches the position after it and takes the move back.
    #[verifier::spinoff_prover]
    fn search_after<H: Host>(
        &mut self,
        host: &mut H,
        pos: &mut Position,
        k: &Node,
        c: &Tried,
        extension: i32,
        best: Value,
    ) -> (r: (Option<Value>, Ghost<(int, int)>))
        requires
            old(self).wf(),
            old(pos).wf(),
            k.ok(old(pos)@),
            old(pos)@.searchable(k.ply as int),
            old(pos)@.legal(c.m),
            c.pc.0 < 12,
            -3 <= extension <= 3,
            noted(old(self).seen(), *k, *c),
            -SCORE_LIMIT <= best <= SCORE_LIMIT,
        ensures
            final(self).stack_kept(old(self), k.ply + 1),
            final(self).kept(old(self), k.ply + 1),
            r.0 is Some ==> playable_line(
                old(pos)@,
                seq![c.m] + final(self).lines@[k.ply + 1]@,
            ),
            final(pos).wf(),
            final(pos)@ == old(pos)@,
            final(pos).keys == old(pos).keys,
            r.0 matches Some(x) ==> -SCORE_LIMIT <= x <= SCORE_LIMIT,
            r.0 is None ==> *final(self) == *old(self) && exists|w: PosView| #[trigger]
                old(pos)@.made(c.m, old(pos)@.check_test(c.m), w) && leaf_pruned(
                    old(self).seen(),
                    w,
                    *k,
                    *c,
                    extension,
                    best,
                ),
            r.0 matches Some(x) ==> !final(self).stopped ==> ({
                let log = final(self).journal@;
                let (scout, at) = r.1@;
                let w = log[at]->Node_0.v;
                &&& old(pos)@.made(c.m, old(pos)@.check_test(c.m), w)
                &&& child_searched(
                    log,
                    old(self).journal@.len() as int,
                    w,
                    *k,
                    *c,
                    extension,
                    best,
                    scout,
                    at,
                )
                &&& x == -log[at]->Node_0.r
                &&& much_as(log[scout]->Node_0.seen, old(self).seen(), k.ply)
                &&& much_as(final(self).seen(), log[at]->Node_0.after, k.ply)
                &&& final(self).hist@ == child_learned(log, w, *k, *c, scout, at)
                &&& final(self).lines@[k.ply + 1]@ == log[at]->Node_0.line
            }),
        decreases MAX_PLY - k.ply, 4int,
    {
        let ghost v = pos@;
        let ghost from = self.journal@.len() as int;
        play_move(pos, c.m);
        let ghost w = pos@;
        proof {
            assert(v.room(MAX_PLY - k.ply + 1));
            assert(w.room(MAX_PLY - (k.ply + 1) + 1));
        }
        let found = self.search_child(host, pos, k, c, extension, best);
        pos.unmake_move(c.m);
        proof {
            if found.0 is Some {
                lemma_line_before(v, w, c.m, self.lines@[k.ply + 1]@);
                if !self.stopped {
                    let (scout, at) = found.1@;
                    lemma_child_back(
                        self.journal@,
                        from,
                        from,
                        w,
                        *k,
                        *c,
                        extension,
                        best,
                        scout,
                        at,
                    );
                }
            }
        }
        found
    }

    /// Takes the score of a move into account.
    #[verifier::spinoff_prover]
    fn settle(&mut self, pos: &Position, p: &mut Progress, c: &Tried, score: Value, extension: i32)
        requires
            old(self).wf(),
            pos.wf(),
            old(p).ok(pos@),
            old(p).k.alpha < old(p).k.beta,
            c.pc.0 < 12,
            -SCORE_LIMIT <= score <= SCORE_LIMIT,
            playable_line(pos@, old(self).lines@[old(p).k.ply as int]@),
            playable_line(pos@, seq![c.m] + old(self).lines@[old(p).k.ply + 1]@),
        ensures
            final(self).kept(old(self), old(p).k.ply as int),
            forall|q: int|
                0 <= q < STACK_SIZE && q != old(p).k.ply ==> #[trigger] final(self).stack@[q]
                    == old(self).stack@[q],
            final(self).stopped == old(self).stopped,
            final(self).journal == old(self).journal,
            final(self).nodes == old(self).nodes,
            !final(p).done ==> final(self).hist == old(self).hist && final(self).stack == old(
                self,
            ).stack,
            final(p).done && !old(p).done ==> final(self).hist@ == cutoff_learned(
                old(self).hist@,
                old(self).seen(),
                pos@,
                Node { alpha: final(p).k.alpha, ..old(p).k },
                *c,
                old(p).quiets@,
                old(p).captures@,
            ),
            playable_line(pos@, final(self).lines@[old(p).k.ply as int]@),
            score > old(p).best && score > old(p).k.alpha
                ==> final(self).lines@[old(p).k.ply as int]@ == seq![c.m] + old(self).lines@[old(p).k.ply + 1]@,
            !(score > old(p).best && score > old(p).k.alpha) ==> final(self).lines == old(self).lines,
            final(p).ok(pos@),
            final(p).follows(*old(p)),
            final(p).k.depth == old(p).k.depth,
            final(p).best == (if score > old(p).best {
                score
            } else {
                old(p).best
            }),
            final(p).k.alpha == (if score > old(p).best && score > old(p).k.alpha {
                score
            } else {
                old(p).k.alpha
            }),
            final(p).best_move == (if score > old(p).best {
                c.m
            } else {
                old(p).best_move
            }),
            final(p).raising == (if score > old(p).best && score > old(p).k.alpha {
                c.m
            } else {
                old(p).raising
            }),
            final(p).done == (old(p).done || final(p).k.alpha >= old(p).k.beta),
    {
        let ply = p.k.ply;
        let is_pv = p.k.node_type == NodeType::PV;
        if score > p.best {
            p.best = score;
            p.best_move = c.m;
            if score > p.k.alpha {
                p.k.alpha = score;
                p.raising = c.m;
                self.update_pv(ply, c.m);
            }
        }
        if p.k.alpha >= p.k.beta {
            if extension < 2 || is_pv {
                let mut e = self.stack[ply];
                if e.cutoff_cnt < 255 {
                    e.cutoff_cnt = e.cutoff_cnt + 1;
                }
                self.put(ply, e);
            }
            proof {
                lemma_same_cutoff(
                    self.hist@,
                    old(self).seen(),
                    self.seen(),
                    pos@,
                    p.k,
                    *c,
                    p.quiets@,
                    p.captures@,
                );
            }
            self.reward_cutoff(pos, &p.k, c, &p.quiets, &p.captures);
            p.done = true;
        }
    }

}

/// What searching a move does: the step made of it, the progress of the node, what the
/// searcher knows and the line.
#[verifier::opaque]
pub open spec fn searched_move(
    a: Searcher,
    b: Searcher,
    from: int,
    v: PosView,
    before: Progress,
    after: Progress,
    c: Tried,
    s: Step,
) -> bool {
    let log = b.journal@;
    let ply = before.k.ply;
    &&& s.m == c.m
    &&& s.futile is None
    &&& s.depth == after.k.depth
    &&& c.count != 1 ==> after.k.depth == before.k.depth
    &&& after.best_move.0 == 0 ==> after.best == before.best && before.best_move.0 == 0
    &&& match s.reply {
        Some(t) => {
            &&& !b.stopped
            &&& replied(log, from, v, before.k, c.count as int, before.best, s)
            &&& after.best == (if t.score > before.best {
                t.score
            } else {
                before.best
            })
            &&& after.k.alpha == (if t.score > before.k.alpha {
                t.score
            } else {
                before.k.alpha
            })
            &&& after.done == (after.k.alpha >= before.k.beta)
            &&& after.raising == (if t.score > before.k.alpha {
                t.m
            } else {
                before.raising
            })
            &&& !after.done ==> much_as(b.seen(), log[t.at]->Node_0.after, ply)
            &&& if t.score > before.k.alpha {
                b.lines@[ply as int]@ == seq![c.m] + log[t.at]->Node_0.line
            } else {
                (c.count != 1 || before.k.node_type == NodeType::PV) ==> b.lines@[ply as int]
                    == a.lines@[ply as int]
            }
        },
        None => {
            &&& b.journal@ == a.journal@
            &&& c.count != 1
            &&& before.k.node_type != NodeType::PV && !is_loss(before.best)
            &&& s.extension == check_extension(v, before.k, before.k.depth, c.m, 0)
            &&& much_as(s.seen, a.seen(), ply)
            &&& much_as(b.seen(), a.seen(), ply)
            &&& exists|w: PosView| #[trigger]
                v.made(c.m, v.check_test(c.m), w) && leaf_pruned(
                    s.seen,
                    w,
                    before.k,
                    c,
                    s.extension,
                    before.best,
                )
            &&& after.best == before.best
            &&& after.k.alpha == before.k.alpha
            &&& after.raising == before.raising
            &&& !after.done
            &&& b.lines@[ply as int] == a.lines@[ply as int]
        },
    }
}

/// A move of the node that is being searched.
#[derive(Clone, Copy)]
pub struct Tried {
    pub us: Color,
    pub m: Move,
    pub pc: Piece,
    pub captured: Option<PieceType>,
    pub gives_check: bool,
    pub pawn_key: u64,
    /// Number of legal moves up to this one.
    pub count: usize,
}

impl Tried {
    /// Late move reductions apply.
    pub open spec fn reducible(self, n: Node) -> bool {
        &&& n.depth >= LMR_MIN_DEPTH
        &&& self.count >= LMR_MIN_MOVES
        &&& !n.in_check
        &&& self.captured is None
        &&& !(self.gives_check && self.pc.piece_type() == PieceType::Queen)
    }
}

/// How far the moves of a node have been searched.
pub struct Progress {
    /// The node, its alpha and depth as they now are.
    pub k: Node,
    pub best: Value,
    pub best_move: Move,
    /// Last move that raised alpha.
    pub raising: Move,
    pub quiets: Vec<Move>,
    /// Captures searched, at most 32 of them.
    pub captures: Vec<(Move, PieceType)>,
    pub done: bool,
}

impl Progress {
    pub open spec fn ok(self, v: PosView) -> bool {
        &&& (Node { alpha: (-32000) as Value, ..self.k }).ok(v)
        &&& -32000 <= self.k.alpha <= SCORE_LIMIT
        &&& -SCORE_LIMIT <= self.best <= SCORE_LIMIT
        &&& forall|i: int| 0 <= i < self.quiets@.len() ==> v.pseudo(#[trigger] self.quiets@[i])
        &&& forall|i: int|
            0 <= i < self.captures@.len() ==> v.pseudo((#[trigger] self.captures@[i]).0)
    }

    /// Only alpha and the depth of the node have changed, and alpha only upwards.
    pub open spec fn follows(self, o: Progress) -> bool {
        &&& self.k == (Node { alpha: self.k.alpha, depth: self.k.depth, ..o.k })
        &&& self.k.alpha >= o.k.alpha
        &&& self.best >= o.best
    }

    /// Notes a move as searched.
    fn note(&mut self, Ghost(v): Ghost<PosView>, c: &Tried)
        requires
            old(self).ok(v),
            v.pseudo(c.m),
        ensures
            final(self).ok(v),
            *final(self) == (Progress {
                quiets: final(self).quiets,
                captures: final(self).captures,
                ..*old(self)
            }),
            final(self).quiets@ == (if c.captured is None && !c.m.is_promotion() {
                old(self).quiets@.push(c.m)
            } else {
                old(self).quiets@
            }),
            final(self).captures@ == (if c.captured is Some && old(self).captures@.len() < 32 {
                old(self).captures@.push((c.m, c.captured->Some_0))
            } else {
                old(self).captures@
            }),
    {
        match c.captured {
            None => {
                if !c.m.is_promotion() {
                    self.quiets.push(c.m);
                }
            },
            Some(cap) => {
                if self.captures.len() < 32 {
                    self.captures.push((c.m, cap));
                }
            },
        }
    }
}

/// Score of a node from the best score found: alpha where every move was pruned, softened
/// beyond beta.
pub open spec fn node_result(n: Node, alpha: Value, best: Value) -> int {
    let b = if best == -VALUE_INFINITE {
        n.alpha
    } else {
        best
    };
    if b >= n.beta && !is_decisive(b) && !is_decisive(alpha) {
        quot(b * n.depth + n.beta, n.depth + 1)
    } else {
        b as int
    }
}

/// Outcome of the search that leaves the table's move out.
#[derive(Clone, Copy)]
pub enum Singular {
    Stopped,
    /// The move stands out: extend it.
    Extend(i32),
    /// Other moves do as well or better.
    Reduce(i32),
    Cut(Value),
}

} // verus!
