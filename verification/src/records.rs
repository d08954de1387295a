//! What accounts for the score of a node: the rules, an answer of the host, or the searches
//! below it.

use vstd::prelude::*;

use crate::arith::{clamped, quot};
use crate::decisions::{bound_fits, bound_of, futility_margin, tt_cutoff};
use crate::history::ContKey;
use crate::journal::{extends, Event, NodeCall, QuietCall, RootCall, Seen};
use crate::moves::{canonical_code, capture_moves};
use crate::negamax::{counted, lowered, raised, Node, Singular};
use crate::replies::{
    left_out_at, lemma_steps_on, moves_outcome, multi_cut, singled, singular_verdict, Step,
};
use crate::params::{
    DELTA_MARGIN, HINDSIGHT_EXTEND_REDUCTION, HINDSIGHT_REDUCE_EVAL, HINDSIGHT_REDUCE_REDUCTION,
    IIR_MIN_DEPTH, IIR_REDUCTION, LOW_DEPTH_PROBCUT_MARGIN, MAX_QSEARCH_DEPTH, NMP_BASE,
    NMP_DEPTH_MULT, NMP_EVAL_DIV, NMP_IMPROVING, NMP_MIN_DEPTH, NMP_REDUCTION_BASE,
    NMP_REDUCTION_DIV, NMP_VERIFY_MIN_DEPTH, PROBCUT_DEPTH_SUB, PROBCUT_DIVISOR, PROBCUT_MIN_DEPTH,
    RAZORING_MAX_DEPTH, RAZORING_QUAD, RFP_MAX_DEPTH, RFP_SEEK_MATE_DEPTH,
};
use crate::rules::PosView;
use crate::search::{lemma_evaluated, lemma_probed, stores, unanswered};
use crate::searcher::{correction, value_draw, NodeType, RootMove, Searcher};
use crate::tt::{decode, find_from, key32, value_from_tt, value_to_tt, Slot, Store, TTData};
use crate::types::{
    is_decisive, is_loss, is_win, mated_in, Bound, Move, PieceType, Value, MAX_PLY, VALUE_EVAL_MAX,
    VALUE_INFINITE, VALUE_NONE,
};
use crate::variant::Variant;

verus! {

impl Seen {
    /// Below a draw, a reversible move brings about a repetition.
    pub open spec fn can_hold(self, v: PosView, ply: usize, alpha: Value) -> bool {
        alpha < 0 && v.can_repeat(self.cuckoo, ply as int)
    }

    /// Alpha once a repetition that can be brought about is taken into account.
    pub open spec fn held(self, v: PosView, ply: usize, alpha: Value) -> Value {
        if self.can_hold(v, ply, alpha) && value_draw(self.nodes) > alpha {
            value_draw(self.nodes)
        } else {
            alpha
        }
    }

    /// A repetition that can be brought about is good enough to end the search of the node.
    pub open spec fn holds_out(self, v: PosView, ply: usize, alpha: Value, beta: Value) -> bool {
        self.can_hold(v, ply, alpha) && value_draw(self.nodes) >= beta
    }

    /// Place of the move before `ply` in the last-move corrections.
    pub open spec fn last_move_index(self, ply: usize) -> int {
        if ply > 0 && self.stack[ply - 1].current_move.is_ok() {
            self.stack[ply - 1].current_move.from_to() as int
        } else {
            0
        }
    }

    /// Square the move before `ply` went to, or none.
    pub open spec fn last_square(self, ply: usize) -> int {
        if self.stack[ply - 1].current_move.is_ok() {
            self.stack[ply - 1].current_move.to()
        } else {
            64
        }
    }

    /// Continuation key of the move `back` plies before `ply`.
    pub open spec fn key_before(self, ply: int, back: int) -> Option<ContKey> {
        let e = self.stack[ply - back];
        if ply >= back && e.current_move.is_ok() && e.moved_piece.0 < 12 {
            Some(
                (
                    if e.in_check {
                        1usize
                    } else {
                        0
                    },
                    if e.is_capture {
                        1usize
                    } else {
                        0
                    },
                    e.moved_piece.0 as usize,
                    e.current_move.to() as usize,
                ),
            )
        } else {
            None
        }
    }

    /// The move undoes the move two plies back, which undid the one four plies back.
    pub open spec fn shuffles(self, v: PosView, m: Move, ply: usize, is_capture: bool) -> bool {
        let m2 = self.stack[ply - 2].current_move;
        let m4 = self.stack[ply - 4].current_move;
        &&& v.mover(m).piece_type() != PieceType::Pawn
        &&& !is_capture
        &&& v.st().rule50 >= 10
        &&& v.st().plies_from_null > 6
        &&& ply >= 20
        &&& m2.is_ok()
        &&& m4.is_ok()
        &&& m.from() == m2.to()
        &&& m2.from() == m4.to()
    }

    /// An evaluation with what has been learned about such positions.
    pub open spec fn corrected(self, v: PosView, ply: usize, raw: Value) -> int {
        clamped(
            raw + correction(self.hist, v, self.last_move_index(ply)),
            -VALUE_EVAL_MAX,
            VALUE_EVAL_MAX as int,
        )
    }
}

// Answers of the host

/// What a bucket says of a position.
pub open spec fn table_entry(slots: Seq<Slot>, key: u64) -> Option<TTData> {
    let i = find_from(slots, key32(key), 0);
    if i < 4 {
        Some(decode(slots[i]))
    } else {
        None
    }
}

/// The table was asked for a position, after the first `from` entries, and said `entry`.
pub open spec fn probed(log: Seq<Event>, from: int, key: u64, entry: Option<TTData>) -> bool {
    exists|j: int|
        from <= j < log.len() && (#[trigger] log[j] matches Event::Bucket { key: k, slots } && k == key
            && entry == table_entry(slots, key))
}

/// `e` is the evaluation of a position, the network asked after the first `from` entries
/// where it has a say.
pub open spec fn evaluated(log: Seq<Event>, from: int, v: PosView, e: Value) -> bool {
    match v.own_evaluation() {
        Some(x) => e == x,
        None => exists|j: int|
            from <= j < log.len() && (#[trigger] log[j] matches Event::Network { v: w, value } && w
                == v && e == v.evaluation(value as int)),
    }
}

/// Score of an entry, seen from a ply.
pub open spec fn entry_value(entry: Option<TTData>, v: PosView, ply: usize) -> Value {
    match entry {
        Some(d) => value_from_tt(d.score, ply, v.st().rule50),
        None => VALUE_NONE,
    }
}

pub open spec fn entry_bound(entry: Option<TTData>) -> Bound {
    match entry {
        Some(d) => d.bound,
        None => Bound::Empty,
    }
}

/// The static evaluation before corrections: the entry's, or the position's own.
pub open spec fn raw_found(
    log: Seq<Event>,
    from: int,
    v: PosView,
    entry: Option<TTData>,
    raw: Value,
) -> bool {
    match entry {
        Some(d) => if d.eval != VALUE_NONE {
            raw == d.eval
        } else {
            evaluated(log, from, v, raw)
        },
        None => evaluated(log, from, v, raw),
    }
}

// Moves searched

/// The stack tells that a move was made at a ply.
pub open spec fn move_noted(s: Seen, ply: usize, v: PosView, m: Move) -> bool {
    let e = s.stack[ply as int];
    &&& e.current_move == m
    &&& e.moved_piece == v.mover(m)
    &&& e.in_check == v.in_check()
    &&& e.is_capture == ((v.board[m.to()].0 != 12 && !v.real_castling(m)) || m.is_en_passant())
}

/// A move, the entry of the search of the position after it, and the score this gives it.
pub struct Try {
    pub m: Move,
    pub at: int,
    pub score: Value,
}

/// Largest of a floor and the first `n` scores.
pub open spec fn top(tries: Seq<Try>, n: int, floor: Value) -> Value
    decreases n,
{
    if n <= 0 {
        floor
    } else if tries[n - 1].score > top(tries, n - 1, floor) {
        tries[n - 1].score
    } else {
        top(tries, n - 1, floor)
    }
}

/// The move is among those searched.
pub open spec fn has_tried(tries: Seq<Try>, m: Move) -> bool {
    exists|i: int| 0 <= i < tries.len() && (#[trigger] tries[i]).m == m
}

// Quiescence

/// In check, or with a capture to be made in antichess.
pub open spec fn pressed(v: PosView) -> bool {
    v.in_check() || (v.variant == Variant::Antichess && v.st().must_capture)
}

/// Evaluation of a position in which nothing has to be done: the corrected one, or a bound
/// of the table in the right direction.
pub open spec fn stand_pat(
    s: Seen,
    v: PosView,
    ply: usize,
    entry: Option<TTData>,
    raw: Value,
) -> Value {
    let own = s.corrected(v, ply, raw) as Value;
    let value = entry_value(entry, v, ply);
    let bound = entry_bound(entry);
    if entry is Some && value != VALUE_NONE && !is_decisive(value) && (if value > own {
        bound.has_lower()
    } else {
        bound.has_upper()
    }) {
        value
    } else {
        own
    }
}

pub open spec fn larger(a: Value, b: Value) -> Value {
    if a > b {
        a
    } else {
        b
    }
}

/// A score beyond beta, drawn halfway back to it unless it is decisive.
pub open spec fn eased(score: Value, beta: Value) -> int {
    if score > beta && !is_decisive(score) {
        quot(score + beta, 2)
    } else {
        score as int
    }
}

/// Alpha after the first `n` moves.
pub open spec fn alpha_after(tries: Seq<Try>, n: int, alpha: Value, floor: Value) -> Value {
    let t = top(tries, n, floor);
    if t > floor && t > alpha {
        t
    } else {
        alpha
    }
}

/// Last of the first `n` moves that raised alpha, or none.
pub open spec fn raising_move(tries: Seq<Try>, n: int, alpha: Value, floor: Value) -> Move
    decreases n,
{
    if n <= 0 {
        Move(0)
    } else if tries[n - 1].score > top(tries, n - 1, floor) && tries[n - 1].score > alpha_after(
        tries,
        n - 1,
        alpha,
        floor,
    ) {
        tries[n - 1].m
    } else {
        raising_move(tries, n - 1, alpha, floor)
    }
}

/// Move `i` of a quiescence node: its score is the negated result of a quiescence search of
/// the position after it, with the window turned round. Where none has to be made it is a
/// capture and was not a poor one in its turn.
pub open spec fn quiet_try(
    log: Seq<Event>,
    c: QuietCall,
    alpha: Value,
    floor: Value,
    tries: Seq<Try>,
    i: int,
) -> bool {
    let t = tries[i];
    &&& c.start <= t.at < log.len()
    &&& c.v.legal(t.m)
    &&& log[t.at] matches Event::Quiet(d) && {
        &&& c.v.made(t.m, c.v.check_test(t.m), d.v)
        &&& d.ply == c.ply + 1
        &&& d.qs_ply == c.qs_ply + 1
        &&& d.node_type == c.node_type
        &&& d.alpha == -c.beta
        &&& d.beta == -alpha_after(tries, i, alpha, floor)
        &&& move_noted(d.seen, c.ply, c.v, t.m)
        &&& t.score == -d.r
    }
    &&& !pressed(c.v) ==> {
        &&& capture_moves(c.v).contains(t.m)
        &&& is_loss(top(tries, i, floor)) || !poor_capture(
            c,
            alpha_after(tries, i, alpha, floor),
            top(tries, i, floor),
            t.m,
        )
    }
}

/// A capture not worth searching: it loses material, or what it gains does not bring the
/// evaluation near alpha. Taking back is always worth it.
pub open spec fn poor_capture(c: QuietCall, alpha: Value, floor: Value, m: Move) -> bool {
    &&& m.to() != c.seen.last_square(c.ply)
    &&& c.v.see_value(m) < 0 || floor + c.v.victim_value(m) + c.v.promotion_gain(m) + DELTA_MARGIN
        < alpha
}

/// The node comes to its floor or the best of the moves searched; these are all legal moves
/// where one has to be made, otherwise all captures but poor ones, unless one reaches beta.
pub open spec fn quiet_outcome(
    log: Seq<Event>,
    c: QuietCall,
    alpha: Value,
    floor: Value,
    tries: Seq<Try>,
) -> bool {
    let n = tries.len() as int;
    let best = top(tries, n, floor);
    &&& forall|i: int| 0 <= i < n ==> #[trigger] quiet_try(log, c, alpha, floor, tries, i)
    &&& if pressed(c.v) && n == 0 {
        &&& forall|m: Move| !#[trigger] c.v.legal(m)
        &&& c.r == (if c.v.in_check() {
            mated_in(c.ply)
        } else {
            c.v.terminal_score(c.ply)
        })
    } else {
        c.r == eased(best, c.beta)
    }
    &&& best < c.beta && pressed(c.v) ==> forall|m: Move| #[trigger]
        c.v.legal(m) ==> has_tried(tries, m)
    &&& best < c.beta && !pressed(c.v) ==> forall|m: Move| #[trigger]
        c.v.legal(m) && capture_moves(c.v).contains(m) ==> has_tried(tries, m) || poor_capture(
            c,
            alpha_after(tries, n, alpha, floor),
            floor,
            m,
        )
}

/// The last entries of the journal put the result of a quiescence node to the table, with the
/// move that raised alpha last, the evaluation before corrections and the mark the entry had.
pub open spec fn quiet_stored(
    log: Seq<Event>,
    c: QuietCall,
    alpha: Value,
    low: Value,
    floor: Value,
    tries: Seq<Try>,
    is_pv: bool,
    eval: Value,
) -> bool {
    exists|a: Seq<Event>| #[trigger]
        stores(
            a,
            log,
            c.v.st().key,
            quiet_record(c, alpha, low, floor, tries, is_pv, eval),
        )
}

pub open spec fn quiet_record(
    c: QuietCall,
    alpha: Value,
    low: Value,
    floor: Value,
    tries: Seq<Try>,
    is_pv: bool,
    eval: Value,
) -> Store {
    Store {
        depth: 0,
        bound: if c.r >= c.beta {
            Bound::Lower
        } else if c.r <= alpha {
            Bound::Upper
        } else {
            Bound::Exact
        },
        is_pv,
        score: value_to_tt(c.r, c.ply),
        eval,
        mv: raising_move(tries, tries.len() as int, low, floor),
    }
}

/// The moves of a quiescence node settle it, and the result is stored unless there is no
/// reply.
pub open spec fn quiet_searched(
    log: Seq<Event>,
    c: QuietCall,
    alpha: Value,
    low: Value,
    floor: Value,
    is_pv: bool,
    eval: Value,
) -> bool {
    exists|tries: Seq<Try>|
        {
            &&& #[trigger] quiet_outcome(log, c, low, floor, tries)
            &&& unanswered(c.v) || quiet_stored(log, c, alpha, low, floor, tries, is_pv, eval)
        }
}

/// A quiescence node where the game goes on, given the table's answer and the evaluation.
#[verifier::opaque]
pub open spec fn quiet_settled(
    log: Seq<Event>,
    c: QuietCall,
    alpha: Value,
    entry: Option<TTData>,
    raw: Value,
) -> bool {
    let value = entry_value(entry, c.v, c.ply);
    let is_pv = entry matches Some(d) && d.is_pv;
    if c.node_type != NodeType::PV && entry is Some && value != VALUE_NONE && bound_fits(
        value,
        c.beta,
        entry_bound(entry),
    ) {
        c.r == value
    } else if pressed(c.v) {
        if c.qs_ply >= MAX_QSEARCH_DEPTH {
            c.r == alpha
        } else {
            quiet_searched(
                log,
                c,
                alpha,
                alpha,
                (-VALUE_INFINITE) as Value,
                is_pv,
                VALUE_NONE,
            )
        }
    } else {
        let stand = stand_pat(c.seen, c.v, c.ply, entry, raw);
        let low = larger(stand, alpha);
        &&& raw_found(log, c.start, c.v, entry, raw)
        &&& if stand >= c.beta {
            c.r == eased(stand, c.beta)
        } else if c.qs_ply >= MAX_QSEARCH_DEPTH {
            c.r == stand
        } else {
            quiet_searched(log, c, alpha, low, stand, is_pv, raw)
        }
    }
}

/// A finished quiescence search is accounted for: the evaluation at the ply limit, a
/// repetition that is good enough, a draw, the end of the game, or what the table, the
/// evaluation and the replies come to.
#[verifier::opaque]
pub open spec fn quiet_accounted(log: Seq<Event>, c: QuietCall) -> bool {
    if c.ply >= MAX_PLY - 1 {
        evaluated(log, c.start, c.v, c.r)
    } else if c.seen.holds_out(c.v, c.ply, c.alpha, c.beta) {
        c.r == value_draw(c.seen.nodes)
    } else if c.v.drawn(c.ply as int) {
        c.r == 0
    } else {
        match c.v.variant_result(c.ply) {
            Some(x) => c.r == x,
            None => exists|entry: Option<TTData>, raw: Value|
                probed(log, c.start, c.v.st().key, entry) && #[trigger] quiet_settled(
                    log,
                    c,
                    c.seen.held(c.v, c.ply, c.alpha),
                    entry,
                    raw,
                ),
        }
    }
}

// The main search

/// Depth adjusted in hindsight of the parent's reduction.
pub open spec fn hindsight_depth(
    depth: i32,
    reduction: i32,
    worsening: bool,
    static_eval: int,
    prev_eval: int,
) -> int {
    let d = if reduction >= HINDSIGHT_EXTEND_REDUCTION && !worsening {
        depth + 1
    } else {
        depth as int
    };
    if reduction >= HINDSIGHT_REDUCE_REDUCTION && d >= 2 && static_eval + prev_eval
        > HINDSIGHT_REDUCE_EVAL {
        d - 1
    } else {
        d
    }
}

/// Static evaluation of a node: the corrected one, in check that of two plies before,
/// smoothed by the history of the move that led here.
pub open spec fn node_eval(s: Seen, v: PosView, ply: usize, raw: Value) -> int {
    (if v.in_check() {
        if ply >= 2 {
            s.stack[ply - 2].static_eval as int
        } else {
            0
        }
    } else {
        s.corrected(v, ply, raw)
    }) + quot(-(s.stack[ply - 1].stat_score as int), 512)
}

/// The side that moved is worse off than it thought.
pub open spec fn node_worsens(s: Seen, v: PosView, ply: usize, raw: Value) -> bool {
    !v.in_check() && node_eval(s, v, ply, raw) > -(s.stack[ply - 1].static_eval as int)
}

/// What is known of a node, given the table's answer and the evaluation.
#[verifier::opaque]
pub open spec fn node_of(
    s: Seen,
    v: PosView,
    depth: i32,
    ply: usize,
    alpha: Value,
    beta: Value,
    node_type: NodeType,
    excluded: Move,
    entry: Option<TTData>,
    raw: Value,
) -> Node {
    let eval = node_eval(s, v, ply, raw);
    let prev = s.stack[ply - 1];
    Node {
        ply,
        depth: (if v.in_check() {
            depth as int
        } else {
            hindsight_depth(
                depth,
                prev.reduction,
                node_worsens(s, v, ply, raw),
                eval,
                prev.static_eval as int,
            )
        }) as i32,
        alpha,
        beta,
        node_type,
        excluded,
        in_check: v.in_check(),
        key: v.st().key,
        tt_hit: entry is Some,
        tt_move: table_move(v, entry),
        tt_value: entry_value(entry, v, ply),
        tt_depth: match entry {
            Some(d) => d.depth,
            None => 0,
        },
        tt_bound: entry_bound(entry),
        tt_pv: node_type == NodeType::PV || (entry matches Some(d) && d.is_pv),
        static_eval: eval as Value,
        raw_eval: if v.in_check() {
            if ply >= 2 {
                s.stack[ply - 2].static_eval
            } else {
                0
            }
        } else {
            raw
        },
        improving: !v.in_check() && (ply < 2 || eval > s.stack[ply - 2].static_eval),
        prev_move: s.last_move_index(ply) as usize,
    }
}

/// The table's move, if it is one of the position.
pub open spec fn table_move(v: PosView, entry: Option<TTData>) -> Move {
    match entry {
        Some(d) => {
            if v.candidate(d.mv) {
                d.mv
            } else {
                Move(0)
            }
        },
        None => Move(0),
    }
}

/// A table entry ends the node at once.
pub open spec fn table_cuts(n: Node, v: PosView) -> bool {
    n.node_type != NodeType::PV && n.excluded.0 == 0 && n.tt_hit && n.tt_value != VALUE_NONE
        && tt_cutoff(
        n.depth,
        n.beta,
        n.tt_value,
        n.tt_depth,
        n.tt_bound,
        n.node_type == NodeType::Cut,
        v.st().rule50,
    )
}

/// Only captures can bring the evaluation to alpha.
pub open spec fn razored(n: Node) -> bool {
    n.node_type != NodeType::PV && !n.in_check && n.depth <= RAZORING_MAX_DEPTH
        && Searcher::refined(n) < n.alpha - RAZORING_QUAD * (n.depth * n.depth)
}

/// The table's move is a capture or a queen promotion.
pub open spec fn noisy_table_move(n: Node, v: PosView) -> bool {
    let m = n.tt_move;
    m.0 != 0 && ((v.board[m.to()].0 != 12 && !v.real_castling(m)) || m.is_en_passant() || (
    m.is_promotion() && m.promotion() == PieceType::Queen))
}

/// The evaluation is so far above beta that no reply is expected to matter.
pub open spec fn reverse_futile(s: Seen, n: Node, v: PosView, worsening: bool) -> bool {
    let eval = Searcher::refined(n);
    &&& !n.in_check && !n.tt_pv
    &&& n.depth < (if s.seek_mate {
        RFP_SEEK_MATE_DEPTH
    } else {
        RFP_MAX_DEPTH
    })
    &&& n.tt_move.0 == 0 || noisy_table_move(n, v)
    &&& !is_loss(n.beta) && !is_win(eval)
    &&& eval >= n.beta
    &&& eval - futility_margin(n.depth as int, n.tt_hit, n.improving, worsening) >= n.beta
}

/// Passing may be tried.
pub open spec fn may_pass(s: Seen, n: Node, v: PosView) -> bool {
    &&& v.variant.allows_null_move()
    &&& n.depth >= NMP_MIN_DEPTH
    &&& !is_loss(n.beta)
    &&& n.ply >= s.nmp_min_ply
    &&& n.static_eval >= n.beta - NMP_DEPTH_MULT * n.depth - (if n.improving {
        NMP_IMPROVING as int
    } else {
        0
    }) + NMP_BASE
    &&& v.has_pieces(v.stm)
}

/// Depth of the search after passing.
pub open spec fn pass_depth(n: Node) -> int {
    let gain = quot(n.static_eval - n.beta, NMP_EVAL_DIV as int);
    let full = NMP_REDUCTION_BASE + n.depth as int / NMP_REDUCTION_DIV as int + (if gain > 0 {
        gain
    } else {
        0
    });
    n.depth - (if full < n.depth {
        full
    } else {
        n.depth as int
    })
}

/// Entry `j` is the search after passing.
pub open spec fn pass_at(log: Seq<Event>, from: int, n: Node, v: PosView, j: int) -> bool {
    &&& from <= j < log.len()
    &&& log[j] matches Event::Node(d) && {
        &&& v.passed(d.v)
        &&& d.ply == n.ply + 1
        &&& d.depth == pass_depth(n)
        &&& d.alpha == -n.beta
        &&& d.beta == 1 - n.beta
        &&& d.node_type == NodeType::Cut
        &&& !d.allow_null
        &&& d.excluded.0 == 0
        &&& pass_noted(d.seen, n)
    }
}

/// The stack tells that the turn was passed.
pub open spec fn pass_noted(s: Seen, n: Node) -> bool {
    let e = s.stack[n.ply as int];
    &&& e.current_move == Move::null() && e.moved_piece.0 == 12
    &&& !e.in_check && !e.is_capture
    &&& e.reduction == 0 && e.stat_score == 0
}

/// Entry `j` is a search of the node itself without passing that reaches beta.
pub open spec fn verified_at(log: Seq<Event>, from: int, n: Node, v: PosView, j: int) -> bool {
    &&& from <= j < log.len()
    &&& log[j] matches Event::Node(d) && {
        &&& d.v == v
        &&& d.ply == n.ply
        &&& d.depth == pass_depth(n)
        &&& d.alpha == n.beta - 1
        &&& d.beta == n.beta
        &&& d.node_type == NodeType::All
        &&& d.excluded.0 == 0
        &&& !d.allow_null
        &&& d.r >= n.beta
    }
}

/// Entry `j` is a search of the node itself without passing that comes to `r`.
pub open spec fn checked_at(
    log: Seq<Event>,
    from: int,
    n: Node,
    v: PosView,
    j: int,
    r: Value,
) -> bool {
    &&& from <= j < log.len()
    &&& log[j] matches Event::Node(d) && {
        &&& d.v == v
        &&& d.ply == n.ply
        &&& d.depth == pass_depth(n)
        &&& d.alpha == n.beta - 1
        &&& d.beta == n.beta
        &&& d.node_type == NodeType::All
        &&& d.excluded.0 == 0
        &&& !d.allow_null
        &&& d.r == r
    }
}

/// What passing comes to, given the reply to it: the node ends with a score that reaches
/// beta and is no win, at high depth if a search that may not pass reaches beta too.
pub open spec fn pass_answer(
    log: Seq<Event>,
    from: int,
    s: Seen,
    n: Node,
    v: PosView,
    reply: Value,
    r: Option<Value>,
) -> bool {
    let reaches = -reply >= n.beta && !is_win((-reply) as Value);
    match r {
        Some(x) => {
            &&& x == -reply
            &&& reaches
            &&& s.nmp_min_ply != 0 || n.depth < NMP_VERIFY_MIN_DEPTH || exists|j: int| #[trigger]
                verified_at(log, from, n, v, j)
        },
        None => reaches ==> exists|j: int, x: Value| #[trigger]
            checked_at(log, from, n, v, j, x) && x < n.beta,
    }
}

/// Passing is tried at a node.
pub open spec fn passes(c: NodeCall, n: Node) -> bool {
    n.node_type != NodeType::PV && !n.in_check && c.allow_null && n.excluded.0 == 0 && may_pass(
        c.seen,
        n,
        c.v,
    )
}

/// Passing has been searched and does not end the node.
pub open spec fn pass_failed(log: Seq<Event>, from: int, s: Seen, n: Node, v: PosView) -> bool {
    exists|j: int| #[trigger]
        pass_at(log, from, n, v, j) && pass_answer(log, from, s, n, v, log[j]->Node_0.r, None)
}

/// Passing has been searched and ends the node.
pub open spec fn pass_cuts(
    log: Seq<Event>,
    from: int,
    s: Seen,
    n: Node,
    v: PosView,
    r: Value,
) -> bool {
    exists|j: int| #[trigger]
        pass_at(log, from, n, v, j) && pass_answer(log, from, s, n, v, log[j]->Node_0.r, Some(r))
}

/// The node once passing has been tried: improving counts wide, and without a table move the
/// depth is reduced.
pub open spec fn after_pass(n: Node) -> Node {
    if n.in_check {
        n
    } else {
        Node {
            improving: n.improving || n.static_eval >= n.beta,
            depth: if n.depth >= IIR_MIN_DEPTH && n.tt_move.0 == 0 {
                (n.depth - IIR_REDUCTION) as i32
            } else {
                n.depth
            },
            ..n
        }
    }
}

/// Beta raised for captures searched shallowly.
pub open spec fn probcut_limit(n: Node) -> Value {
    crate::decisions::probcut_beta(n.beta, n.improving)
}

pub open spec fn probcut_tried(n: Node) -> bool {
    &&& n.node_type != NodeType::PV && !n.in_check && n.excluded.0 == 0
    &&& n.depth >= PROBCUT_MIN_DEPTH
    &&& !is_decisive(n.beta)
    &&& n.tt_value == VALUE_NONE || n.tt_value >= probcut_limit(n)
}

pub open spec fn shallow_depth(n: Node) -> int {
    clamped(
        n.depth - PROBCUT_DEPTH_SUB - quot(n.static_eval - n.beta, PROBCUT_DIVISOR as int),
        0,
        n.depth as int,
    )
}

/// Entry `j` is a shallow search after the capture `m`, its negated result `val`.
pub open spec fn probcut_at(
    log: Seq<Event>,
    from: int,
    n: Node,
    v: PosView,
    m: Move,
    j: int,
    val: Value,
) -> bool {
    let raised = probcut_limit(n);
    &&& from <= j < log.len()
    &&& v.legal(m)
    &&& match log[j] {
        Event::Node(d) => {
            &&& shallow_depth(n) > 0
            &&& d.depth == shallow_depth(n)
            &&& v.made(m, v.check_test(m), d.v)
            &&& d.ply == n.ply + 1
            &&& d.node_type == NodeType::Cut && d.allow_null && d.excluded.0 == 0
            &&& move_noted(d.seen, n.ply, v, m)
            &&& d.alpha == -raised
            &&& d.beta == 1 - raised
            &&& val == -d.r
        },
        Event::Quiet(d) => {
            &&& shallow_depth(n) <= 0
            &&& v.made(m, v.check_test(m), d.v)
            &&& d.ply == n.ply + 1
            &&& d.node_type == NodeType::Cut && d.qs_ply == 0
            &&& move_noted(d.seen, n.ply, v, m)
            &&& d.alpha == -raised
            &&& d.beta == 1 - raised
            &&& val == -d.r
        },
        _ => false,
    }
}

/// The node ends because a capture searched shallowly stays above the raised beta.
pub open spec fn probcut_cuts(log: Seq<Event>, from: int, n: Node, v: PosView, r: Value) -> bool {
    &&& probcut_tried(n)
    &&& exists|m: Move, j: int, val: Value| #[trigger]
        probcut_at(log, from, n, v, m, j, val) && val >= probcut_limit(n) && !is_decisive(val) && r
            == val - (probcut_limit(n) - n.beta)
}

/// Entry `j` is a search after the capture `m` that does not end the node: quiescence stays
/// below the raised beta, or the shallow search does, or the score is decisive.
pub open spec fn probcut_failed_at(
    log: Seq<Event>,
    from: int,
    n: Node,
    v: PosView,
    m: Move,
    j: int,
) -> bool {
    let raised = probcut_limit(n);
    &&& from <= j < log.len()
    &&& match log[j] {
        Event::Node(d) => {
            &&& shallow_depth(n) > 0
            &&& d.depth == shallow_depth(n)
            &&& v.made(m, v.check_test(m), d.v)
            &&& d.ply == n.ply + 1
            &&& d.node_type == NodeType::Cut && d.allow_null && d.excluded.0 == 0
            &&& move_noted(d.seen, n.ply, v, m)
            &&& d.alpha == -raised
            &&& d.beta == 1 - raised
            &&& -d.r < raised || is_decisive((-d.r) as Value)
        },
        Event::Quiet(d) => {
            &&& v.made(m, v.check_test(m), d.v)
            &&& d.ply == n.ply + 1
            &&& d.node_type == NodeType::Cut && d.qs_ply == 0
            &&& move_noted(d.seen, n.ply, v, m)
            &&& d.alpha == -raised
            &&& d.beta == 1 - raised
            &&& -d.r < raised || (shallow_depth(n) <= 0 && is_decisive((-d.r) as Value))
        },
        _ => false,
    }
}

pub open spec fn probcut_refuted(
    log: Seq<Event>,
    from: int,
    n: Node,
    v: PosView,
    m: Move,
) -> bool {
    exists|j: int| #[trigger] probcut_failed_at(log, from, n, v, m, j)
}

/// Every capture whose exchange value can reach the raised beta has been searched, and none
/// ends the node.
pub open spec fn probcut_failed(log: Seq<Event>, from: int, n: Node, v: PosView) -> bool {
    forall|m: Move|
        v.legal(m) && m != n.excluded && capture_moves(v).contains(m) && v.see_value(m)
            >= probcut_limit(n) - n.static_eval ==> #[trigger] probcut_refuted(log, from, n, v, m)
}

/// A stored lower bound far above beta is trusted at once.
pub open spec fn trusted(n: Node) -> bool {
    &&& n.tt_hit && n.tt_value != VALUE_NONE && n.tt_bound.has_lower()
    &&& n.tt_depth >= n.depth - 4
    &&& n.tt_value >= n.beta + LOW_DEPTH_PROBCUT_MARGIN
    &&& !is_decisive(n.beta) && !is_decisive(n.tt_value)
}

/// The table's answer and, out of check, the evaluation before corrections are on record.
#[verifier::opaque]
pub open spec fn node_known(
    log: Seq<Event>,
    from: int,
    v: PosView,
    entry: Option<TTData>,
    raw: Value,
) -> bool {
    &&& probed(log, from, v.st().key, entry)
    &&& v.in_check() || raw_found(log, from, v, entry, raw)
}

/// A node where the game goes on, given the table's answer and the evaluation.
#[verifier::opaque]
pub open spec fn node_settled(
    log: Seq<Event>,
    c: NodeCall,
    low: Value,
    high: Value,
    entry: Option<TTData>,
    raw: Value,
) -> bool {
    let n = node_of(
        c.seen,
        c.v,
        if c.depth < 127 {
            c.depth
        } else {
            127
        },
        c.ply,
        low,
        high,
        c.node_type,
        c.excluded,
        entry,
        raw,
    );
    if table_cuts(n, c.v) {
        c.r == n.tt_value
    } else if razored(n) {
        quiet_at(log, c.start, n, c.v, log.len() - 1, c.r)
    } else if reverse_futile(c.seen, n, c.v, node_worsens(c.seen, c.v, c.ply, raw)) {
        c.r == quot(2 * n.beta + Searcher::refined(n), 3)
    } else if passes(c, n) {
        ||| pass_cuts(log, c.start, c.seen, n, c.v, c.r)
        ||| pass_failed(log, c.start, c.seen, n, c.v) && node_searched(
            log,
            c.start,
            c.v,
            after_pass(n),
            c.r,
            c.line,
        )
    } else {
        node_searched(log, c.start, c.v, after_pass(n), c.r, c.line)
    }
}

/// Entry `j` is a quiescence search of the node itself.
pub open spec fn quiet_at(
    log: Seq<Event>,
    from: int,
    n: Node,
    v: PosView,
    j: int,
    r: Value,
) -> bool {
    &&& from <= j < log.len()
    &&& log[j] matches Event::Quiet(d) && {
        &&& d.v == v
        &&& d.ply == n.ply
        &&& d.qs_ply == 0
        &&& d.alpha == n.alpha
        &&& d.beta == n.beta
        &&& d.node_type == n.node_type
        &&& d.r == r
    }
}

/// A node whose moves are searched, or that is cut before.
#[verifier::opaque]
pub open spec fn node_searched(
    log: Seq<Event>,
    from: int,
    v: PosView,
    k: Node,
    r: Value,
    line: Seq<Move>,
) -> bool {
    ||| probcut_cuts(log, from, k, v, r)
    ||| (probcut_tried(k) ==> probcut_failed(log, from, k, v)) && if trusted(k) {
        r == k.beta + LOW_DEPTH_PROBCUT_MARGIN && (k.node_type == NodeType::PV ==> line.len()
            == 0)
    } else {
        moves_searched(log, from, v, k, r, line)
    }
}

/// The moves of a node have been searched, or the table's move left out and the node cut.
#[verifier::opaque]
pub open spec fn moves_searched(
    log: Seq<Event>,
    from: int,
    v: PosView,
    k: Node,
    r: Value,
    line: Seq<Move>,
) -> bool {
    ||| multi_cut(log, from, k, v, r)
    ||| exists|steps: Seq<Step>, depth: i32| #[trigger]
        moves_outcome(log, from, v, k, steps, depth, r, line)
}

/// A finished search of a node is accounted for: by a quiescence search where no depth is
/// left, the evaluation at the ply limit, a repetition that is good enough, a draw, the end
/// of the game, the distance to mate, or what the table, the evaluation and the searches
/// below come to.
#[verifier::opaque]
pub open spec fn node_accounted(log: Seq<Event>, c: NodeCall) -> bool {
    if c.depth <= 0 {
        &&& c.line.len() == 0
        &&& c.start < log.len()
        &&& log.last() == Event::Quiet(
            QuietCall {
                start: c.start,
                seen: c.seen,
                v: c.v,
                ply: c.ply,
                qs_ply: 0,
                alpha: c.alpha,
                beta: c.beta,
                node_type: c.node_type,
                r: c.r,
            },
        )
    } else if c.ply >= MAX_PLY - 1 {
        &&& c.line.len() == 0
        &&& exists|e: Value| #[trigger]
            evaluated(log, c.start, c.v, e) && c.r == c.seen.corrected(c.v, c.ply, e)
    } else if c.seen.holds_out(c.v, c.ply, c.alpha, c.beta) {
        c.r == value_draw(c.seen.nodes) && c.line.len() == 0
    } else if c.v.drawn(c.ply as int) {
        c.r == value_draw(counted(c.seen.nodes)) && c.line.len() == 0
    } else {
        match c.v.variant_result(c.ply) {
            Some(x) => c.r == x && c.line.len() == 0,
            None => {
                let low = raised(c.seen.held(c.v, c.ply, c.alpha), c.ply);
                let high = lowered(c.beta, c.ply);
                if low >= high {
                    c.r == low && c.line.len() == 0
                } else {
                    exists|entry: Option<TTData>, raw: Value|
                        node_known(log, c.start, c.v, entry, raw) && #[trigger] node_settled(
                            log,
                            c,
                            low,
                            high,
                            entry,
                            raw,
                        )
                }
            },
        }
    }
}

// The root

/// Root move `i`: its score is the negated result of a search of the position after it, the
/// first with the full window.
pub open spec fn root_try(log: Seq<Event>, c: RootCall, tries: Seq<Try>, i: int) -> bool {
    root_reply(
        log,
        c.start,
        c.v,
        c.depth as int,
        top(tries, i, c.alpha),
        c.beta,
        i == 0,
        tries[i],
    )
}

pub open spec fn root_reply(
    log: Seq<Event>,
    from: int,
    v: PosView,
    depth: int,
    alpha: Value,
    beta: Value,
    first: bool,
    t: Try,
) -> bool {
    &&& from <= t.at < log.len()
    &&& v.legal(t.m)
    &&& log[t.at] matches Event::Node(d) && {
        &&& v.made(t.m, v.check_test(t.m), d.v)
        &&& d.ply == 1
        &&& d.depth == depth - 1
        &&& d.allow_null
        &&& d.excluded.0 == 0
        &&& move_noted(d.seen, 0, v, t.m)
        &&& t.score == -d.r
        &&& d.beta == -alpha
        &&& (d.alpha == -beta && d.node_type == NodeType::PV) || (!first && d.alpha == -alpha - 1
            && !(alpha < t.score < beta))
    }
}

/// The root move has the score of a search and its line: the move itself and the line found
/// after it.
pub open spec fn root_line(log: Seq<Event>, t: Try, rm: RootMove) -> bool {
    &&& t.m == rm.mv
    &&& t.score == rm.score
    &&& rm.pv@ == seq![rm.mv] + log[t.at]->Node_0.line
}

/// The search of the root comes to the best of the moves searched; the leading move has the
/// score and the line found for it, and all moves have been searched unless one reaches beta.
pub open spec fn root_outcome(log: Seq<Event>, c: RootCall, tries: Seq<Try>) -> bool {
    let n = tries.len() as int;
    let lead = c.moves[c.pv_idx];
    &&& n > 0
    &&& forall|i: int| 0 <= i < n ==> #[trigger] root_try(log, c, tries, i)
    &&& c.r == top(tries, n, (-VALUE_INFINITE) as Value)
    &&& exists|i: int| 0 <= i < n && root_line(log, #[trigger] tries[i], lead)
    &&& c.r > c.alpha ==> lead.score == c.r
    &&& c.pv_idx == 0 ==> root_stored(log, c)
    &&& top(tries, n, c.alpha) < c.beta ==> forall|j: int|
        c.pv_idx <= j < c.moves.len() ==> has_tried(tries, (#[trigger] c.moves[j]).mv)
}

/// The last entries of the journal put the result of the root to the table, with the leading
/// move.
pub open spec fn root_stored(log: Seq<Event>, c: RootCall) -> bool {
    exists|a: Seq<Event>| #[trigger]
        stores(
            a,
            log,
            c.v.st().key,
            Store {
                depth: c.depth,
                bound: bound_of(c.r, c.alpha, c.beta),
                is_pv: true,
                score: value_to_tt(c.r, 0),
                eval: VALUE_NONE,
                mv: c.moves[0].mv,
            },
        )
}

#[verifier::opaque]
pub open spec fn root_accounted(log: Seq<Event>, c: RootCall) -> bool {
    &&& 0 <= c.pv_idx < c.moves.len()
    &&& exists|tries: Seq<Try>| #[trigger] root_outcome(log, c, tries)
}

/// Entry `j` is a search of the root from line `k` on.
pub open spec fn root_at(
    log: Seq<Event>,
    from: int,
    v: PosView,
    depth: int,
    k: int,
    j: int,
) -> bool {
    &&& from <= j < log.len()
    &&& log[j] matches Event::Root(c) && c.v == v && c.depth == depth && c.pv_idx == k
}

/// A search of the root that tells the score: it came out inside its window, or had the full
/// one.
pub open spec fn conclusive(e: Event) -> bool {
    e matches Event::Root(c) && (c.alpha < c.r < c.beta || (c.alpha == -VALUE_INFINITE && c.beta
        == VALUE_INFINITE))
}

/// The root has been searched to a depth, with a score to tell.
pub open spec fn root_searched(log: Seq<Event>, from: int, v: PosView, depth: int) -> bool {
    exists|j: int| #[trigger] root_at(log, from, v, depth, 0, j) && conclusive(log[j])
}

/// The root has been searched to every depth from `first` to `last`.
pub open spec fn searched_to(
    log: Seq<Event>,
    from: int,
    v: PosView,
    first: int,
    last: int,
) -> bool {
    &&& first <= last
    &&& forall|d: int| first <= d <= last ==> #[trigger] root_searched(log, from, v, d)
}

/// A root move has the score and the line with which it led a search of the root that tells
/// the score.
pub open spec fn root_led(
    log: Seq<Event>,
    from: int,
    v: PosView,
    depth: int,
    rm: RootMove,
) -> bool {
    exists|k: int, j: int| #[trigger]
        root_at(log, from, v, depth, k, j) && conclusive(log[j]) && log[j]->Root_0.moves[k].mv
            == rm.mv && log[j]->Root_0.moves[k].score == rm.score && log[j]->Root_0.moves[k].pv@
            == rm.pv@
}

/// An entry of the journal is accounted for by those before it.
pub open spec fn accounted(log: Seq<Event>, e: Event) -> bool {
    match e {
        Event::Node(c) => 0 <= c.start <= log.len() && node_accounted(log, c),
        Event::Quiet(c) => 0 <= c.start <= log.len() && quiet_accounted(log, c),
        Event::Root(c) => 0 <= c.start <= log.len() && root_accounted(log, c),
        _ => true,
    }
}

// Lemmas

/// Further moves leave the maximum over the first ones alone.
pub proof fn lemma_top_push(tries: Seq<Try>, t: Try, n: int, floor: Value)
    requires
        0 <= n <= tries.len(),
    ensures
        top(tries.push(t), n, floor) == top(tries, n, floor),
    decreases n,
{
    if n > 0 {
        lemma_top_push(tries, t, n - 1, floor);
    }
}

/// Further moves do not change which of the first ones raised alpha.
pub proof fn lemma_raising_push(tries: Seq<Try>, t: Try, n: int, alpha: Value, floor: Value)
    requires
        0 <= n <= tries.len(),
    ensures
        raising_move(tries.push(t), n, alpha, floor) == raising_move(tries, n, alpha, floor),
    decreases n,
{
    if n > 0 {
        lemma_raising_push(tries, t, n - 1, alpha, floor);
        lemma_top_push(tries, t, n - 1, floor);
        assert(tries.push(t)[n - 1] == tries[n - 1]);
    }
}

/// The maximum over one more move.
pub proof fn lemma_top_more(tries: Seq<Try>, t: Try, floor: Value)
    ensures
        top(tries.push(t), tries.len() as int + 1, floor) == (if t.score > top(
            tries,
            tries.len() as int,
            floor,
        ) {
            t.score
        } else {
            top(tries, tries.len() as int, floor)
        }),
{
    lemma_top_push(tries, t, tries.len() as int, floor);
    assert(tries.push(t)[tries.len() as int] == t);
}

/// What was tried stays tried.
pub proof fn lemma_tried_more(tries: Seq<Try>, t: Try)
    ensures
        forall|m: Move| #[trigger]
            has_tried(tries.push(t), m) <==> has_tried(tries, m) || m == t.m,
{
    let s = tries.push(t);
    assert forall|m: Move| #[trigger] has_tried(s, m) <==> has_tried(tries, m) || m == t.m by {
        if has_tried(tries, m) {
            let i = choose|i: int| 0 <= i < tries.len() && (#[trigger] tries[i]).m == m;
            assert(s[i].m == m);
        }
        assert(s[tries.len() as int].m == t.m);
        if has_tried(s, m) && m != t.m {
            let i = choose|i: int| 0 <= i < s.len() && (#[trigger] s[i]).m == m;
            assert(tries[i].m == m);
        }
    }
}

/// The moves of a quiescence node stay accounted for as the journal grows and one more move
/// is searched.
pub proof fn lemma_quiet_tries(
    a: Seq<Event>,
    b: Seq<Event>,
    c: QuietCall,
    alpha: Value,
    floor: Value,
    tries: Seq<Try>,
    t: Try,
)
    requires
        0 <= c.start,
        extends(a, b),
        forall|i: int|
            0 <= i < tries.len() ==> #[trigger] quiet_try(a, c, alpha, floor, tries, i),
        quiet_try(b, c, alpha, floor, tries.push(t), tries.len() as int),
    ensures
        forall|i: int|
            0 <= i < tries.len() + 1 ==> #[trigger] quiet_try(
                b,
                c,
                alpha,
                floor,
                tries.push(t),
                i,
            ),
{
    assert forall|i: int| 0 <= i < tries.len() + 1 implies #[trigger] quiet_try(
        b,
        c,
        alpha,
        floor,
        tries.push(t),
        i,
    ) by {
        if i < tries.len() {
            assert(quiet_try(a, c, alpha, floor, tries, i));
            assert(tries.push(t)[i] == tries[i]);
            lemma_top_push(tries, t, i, floor);
            assert(b[tries[i].at] == a[tries[i].at]);
        }
    }
}

/// The moves of a quiescence node stay accounted for as the journal grows.
pub proof fn lemma_quiet_tries_kept(
    a: Seq<Event>,
    b: Seq<Event>,
    c: QuietCall,
    alpha: Value,
    floor: Value,
    tries: Seq<Try>,
    r: Value,
)
    requires
        0 <= c.start,
        extends(a, b),
        forall|i: int|
            0 <= i < tries.len() ==> #[trigger] quiet_try(a, c, alpha, floor, tries, i),
    ensures
        forall|i: int|
            0 <= i < tries.len() ==> #[trigger] quiet_try(
                b,
                QuietCall { r, ..c },
                alpha,
                floor,
                tries,
                i,
            ),
{
    assert forall|i: int| 0 <= i < tries.len() implies #[trigger] quiet_try(
        b,
        QuietCall { r, ..c },
        alpha,
        floor,
        tries,
        i,
    ) by {
        assert(quiet_try(a, c, alpha, floor, tries, i));
        assert(b[tries[i].at] == a[tries[i].at]);
    }
}

/// What is known of a node is still on record in a longer journal, looked for from the
/// beginning of the search of the node.
pub proof fn lemma_known(
    from: Seq<Event>,
    a: Seq<Event>,
    b: Seq<Event>,
    c: NodeCall,
    entry: Option<TTData>,
    raw: Value,
)
    requires
        node_known(a, from.len() as int, c.v, entry, raw) || node_known(a, c.start, c.v, entry, raw),
        extends(a, b),
        0 <= c.start <= from.len(),
    ensures
        node_known(b, c.start, c.v, entry, raw),
{
    reveal(node_known);
    let at = if node_known(a, c.start, c.v, entry, raw) {
        c.start
    } else {
        from.len() as int
    };
    lemma_probed(a, b, at, c.start, c.v.st().key, entry);
    if !c.v.in_check() && !(entry matches Some(d) && d.eval != VALUE_NONE) {
        lemma_evaluated(a, b, at, c.start, c.v, raw);
    }
}

/// What is known of a node rests on the histories and the two plies before.
pub proof fn lemma_same_node(
    s: Seen,
    o: Seen,
    v: PosView,
    depth: i32,
    ply: usize,
    alpha: Value,
    beta: Value,
    node_type: NodeType,
    excluded: Move,
    entry: Option<TTData>,
    raw: Value,
)
    requires
        1 <= ply,
        s.hist == o.hist,
        s.stack[ply - 1] == o.stack[ply - 1],
        ply >= 2 ==> s.stack[ply - 2] == o.stack[ply - 2],
    ensures
        node_of(s, v, depth, ply, alpha, beta, node_type, excluded, entry, raw) == node_of(
            o,
            v,
            depth,
            ply,
            alpha,
            beta,
            node_type,
            excluded,
            entry,
            raw,
        ),
        node_worsens(s, v, ply, raw) == node_worsens(o, v, ply, raw),
{
    reveal(node_of);
}

/// The node of a search.
pub open spec fn call_node(
    c: NodeCall,
    low: Value,
    high: Value,
    entry: Option<TTData>,
    raw: Value,
) -> Node {
    node_of(
        c.seen,
        c.v,
        if c.depth < 127 {
            c.depth
        } else {
            127
        },
        c.ply,
        low,
        high,
        c.node_type,
        c.excluded,
        entry,
        raw,
    )
}

/// A table entry settles a node.
pub proof fn lemma_settled_by_table(
    log: Seq<Event>,
    c: NodeCall,
    low: Value,
    high: Value,
    entry: Option<TTData>,
    raw: Value,
    n: Node,
)
    requires
        n == call_node(c, low, high, entry, raw),
        table_cuts(n, c.v),
        c.r == n.tt_value,
    ensures
        node_settled(log, c, low, high, entry, raw),
{
    reveal(node_settled);
}

/// Quiescence settles a node far below alpha.
pub proof fn lemma_settled_by_captures(
    log: Seq<Event>,
    c: NodeCall,
    low: Value,
    high: Value,
    entry: Option<TTData>,
    raw: Value,
    n: Node,
)
    requires
        n == call_node(c, low, high, entry, raw),
        !table_cuts(n, c.v),
        razored(n),
        quiet_at(log, c.start, n, c.v, log.len() - 1, c.r),
    ensures
        node_settled(log, c, low, high, entry, raw),
{
    reveal(node_settled);
}

/// The evaluation settles a node far above beta.
pub proof fn lemma_settled_by_margin(
    log: Seq<Event>,
    c: NodeCall,
    low: Value,
    high: Value,
    entry: Option<TTData>,
    raw: Value,
    n: Node,
)
    requires
        n == call_node(c, low, high, entry, raw),
        !table_cuts(n, c.v),
        !razored(n),
        reverse_futile(c.seen, n, c.v, node_worsens(c.seen, c.v, c.ply, raw)),
        c.r == quot(2 * n.beta + Searcher::refined(n), 3),
    ensures
        node_settled(log, c, low, high, entry, raw),
{
    reveal(node_settled);
}

/// Passing settles a node.
pub proof fn lemma_settled_by_pass(
    log: Seq<Event>,
    from: int,
    c: NodeCall,
    low: Value,
    high: Value,
    entry: Option<TTData>,
    raw: Value,
    n: Node,
)
    requires
        n == call_node(c, low, high, entry, raw),
        !table_cuts(n, c.v),
        !razored(n),
        !reverse_futile(c.seen, n, c.v, node_worsens(c.seen, c.v, c.ply, raw)),
        passes(c, n),
        0 <= c.start <= from,
        pass_cuts(log, from, c.seen, n, c.v, c.r),
    ensures
        node_settled(log, c, low, high, entry, raw),
{
    reveal(node_settled);
    let j = choose|j: int| #[trigger]
        pass_at(log, from, n, c.v, j) && pass_answer(
            log,
            from,
            c.seen,
            n,
            c.v,
            log[j]->Node_0.r,
            Some(c.r),
        );
    lemma_pass_on(log, log, from, c.start, c.seen, n, c.v, j, Some(c.r));
}

/// Its moves settle a node.
pub proof fn lemma_settled_by_moves(
    log: Seq<Event>,
    mid: Seq<Event>,
    pass_from: int,
    c: NodeCall,
    low: Value,
    high: Value,
    entry: Option<TTData>,
    raw: Value,
    n: Node,
)
    requires
        n == call_node(c, low, high, entry, raw),
        !table_cuts(n, c.v),
        !razored(n),
        !reverse_futile(c.seen, n, c.v, node_worsens(c.seen, c.v, c.ply, raw)),
        0 <= c.start <= pass_from <= mid.len(),
        extends(mid, log),
        passes(c, n) ==> pass_failed(mid, pass_from, c.seen, n, c.v),
        node_searched(log, mid.len() as int, c.v, after_pass(n), c.r, c.line),
    ensures
        node_settled(log, c, low, high, entry, raw),
{
    reveal(node_settled);
    lemma_searched_back(log, mid.len() as int, c.start, c.v, after_pass(n), c.r, c.line);
    if passes(c, n) {
        let j = choose|j: int| #[trigger]
            pass_at(mid, pass_from, n, c.v, j) && pass_answer(
                mid,
                pass_from,
                c.seen,
                n,
                c.v,
                mid[j]->Node_0.r,
                None,
            );
        lemma_pass_on(mid, log, pass_from, c.start, c.seen, n, c.v, j, None);
    }
}

/// What passing came to is still on record in a longer journal, looked for from further back.
proof fn lemma_pass_on(
    a: Seq<Event>,
    b: Seq<Event>,
    from: int,
    back: int,
    s: Seen,
    n: Node,
    v: PosView,
    j: int,
    r: Option<Value>,
)
    requires
        extends(a, b),
        0 <= back <= from,
        pass_at(a, from, n, v, j),
        pass_answer(a, from, s, n, v, a[j]->Node_0.r, r),
    ensures
        pass_at(b, back, n, v, j),
        pass_answer(b, back, s, n, v, b[j]->Node_0.r, r),
{
    assert(b[j] == a[j]);
    let reply = a[j]->Node_0.r;
    if r is Some {
        if !(s.nmp_min_ply != 0 || n.depth < NMP_VERIFY_MIN_DEPTH) {
            let i = choose|i: int| #[trigger] verified_at(a, from, n, v, i);
            assert(b[i] == a[i]);
            assert(verified_at(b, back, n, v, i));
        }
    } else if -reply >= n.beta && !is_win((-reply) as Value) {
        let (i, x) = choose|i: int, x: Value| #[trigger]
            checked_at(a, from, n, v, i, x) && x < n.beta;
        assert(b[i] == a[i]);
        assert(checked_at(b, back, n, v, i, x));
    }
}

/// A refuted capture stays on record in a longer journal, looked for from further back.
pub proof fn lemma_refuted_on(
    a: Seq<Event>,
    b: Seq<Event>,
    from: int,
    back: int,
    n: Node,
    v: PosView,
    m: Move,
)
    requires
        extends(a, b),
        0 <= back <= from,
        probcut_refuted(a, from, n, v, m),
    ensures
        probcut_refuted(b, back, n, v, m),
{
    let j = choose|j: int| #[trigger] probcut_failed_at(a, from, n, v, m, j);
    assert(b[j] == a[j]);
    assert(probcut_failed_at(b, back, n, v, m, j));
}

/// That no capture ends the node stays on record.
pub proof fn lemma_probcut_on(
    a: Seq<Event>,
    b: Seq<Event>,
    from: int,
    back: int,
    n: Node,
    v: PosView,
)
    requires
        extends(a, b),
        0 <= back <= from,
        probcut_failed(a, from, n, v),
    ensures
        probcut_failed(b, back, n, v),
{
    assert forall|m: Move|
        v.legal(m) && m != n.excluded && capture_moves(v).contains(m) && v.see_value(m)
            >= probcut_limit(n) - n.static_eval implies #[trigger] probcut_refuted(
        b,
        back,
        n,
        v,
        m,
    ) by {
        lemma_refuted_on(a, b, from, back, n, v, m);
    }
}

/// A node searched after some entries was searched after fewer.
pub proof fn lemma_searched_back(
    log: Seq<Event>,
    from: int,
    start: int,
    v: PosView,
    k: Node,
    r: Value,
    line: Seq<Move>,
)
    requires
        0 <= start <= from,
        node_searched(log, from, v, k, r, line),
    ensures
        node_searched(log, start, v, k, r, line),
{
    reveal(node_searched);
    if probcut_tried(k) && probcut_failed(log, from, k, v) {
        lemma_probcut_on(log, log, from, start, k, v);
    }
    if probcut_cuts(log, from, k, v, r) {
        let (m, j, val) = choose|m: Move, j: int, val: Value| #[trigger]
            probcut_at(log, from, k, v, m, j, val) && val >= probcut_limit(k) && !is_decisive(val)
                && r == val - (probcut_limit(k) - k.beta);
        assert(probcut_at(log, start, k, v, m, j, val));
    } else if !trusted(k) {
        lemma_moves_back(log, from, start, v, k, r, line);
    }
}

/// Moves searched after some entries were searched after fewer.
pub proof fn lemma_moves_back(
    log: Seq<Event>,
    from: int,
    start: int,
    v: PosView,
    k: Node,
    r: Value,
    line: Seq<Move>,
)
    requires
        0 <= start <= from,
        moves_searched(log, from, v, k, r, line),
    ensures
        moves_searched(log, start, v, k, r, line),
{
    reveal(moves_searched);
    if multi_cut(log, from, k, v, r) {
        let m = canonical_code(k.tt_move);
        let j = choose|j: int|
            {
                &&& #[trigger] left_out_at(log, from, k, v, m, j)
                &&& v.legal(m)
                &&& singled(k, log[j]->Node_0.seen.seek_mate)
                &&& singular_verdict(log, k, v, j) == Singular::Cut(r)
            };
        assert(left_out_at(log, start, k, v, m, j));
    } else {
        let (steps, depth) = choose|steps: Seq<Step>, depth: i32| #[trigger]
            moves_outcome(log, from, v, k, steps, depth, r, line);
        lemma_steps_on(log, log, from, start, v, k, depth, steps);
        assert(moves_outcome(log, start, v, k, steps, depth, r, line));
    }
}

/// The root moves stay accounted for as the journal grows and one more move is searched.
pub proof fn lemma_root_tries(
    a: Seq<Event>,
    b: Seq<Event>,
    c: RootCall,
    tries: Seq<Try>,
    t: Try,
)
    requires
        0 <= c.start,
        extends(a, b),
        c.start <= a.len(),
        forall|i: int| 0 <= i < tries.len() ==> #[trigger] root_try(a, c, tries, i),
        root_reply(
            b,
            a.len() as int,
            c.v,
            c.depth as int,
            top(tries, tries.len() as int, c.alpha),
            c.beta,
            tries.len() == 0,
            t,
        ),
    ensures
        forall|i: int| 0 <= i < tries.len() + 1 ==> #[trigger] root_try(b, c, tries.push(t), i),
{
    assert forall|i: int| 0 <= i < tries.len() + 1 implies #[trigger] root_try(
        b,
        c,
        tries.push(t),
        i,
    ) by {
        lemma_top_push(tries, t, i, c.alpha);
        if i < tries.len() {
            assert(root_try(a, c, tries, i));
            assert(tries.push(t)[i] == tries[i]);
            assert(b[tries[i].at] == a[tries[i].at]);
        } else {
            assert(tries.push(t)[i] == t);
        }
    }
}

/// A search of the root is still on record in a longer journal, looked for from further back.
pub proof fn lemma_root_searched(
    a: Seq<Event>,
    b: Seq<Event>,
    from: int,
    back: int,
    v: PosView,
    depth: int,
)
    requires
        root_searched(a, from, v, depth),
        extends(a, b),
        0 <= back <= from,
    ensures
        root_searched(b, back, v, depth),
{
    let j = choose|j: int| #[trigger] root_at(a, from, v, depth, 0, j) && conclusive(a[j]);
    assert(b[j] == a[j]);
    assert(root_at(b, back, v, depth, 0, j));
}

/// The lead of a root move is still on record in a longer journal, looked for from further
/// back.
pub proof fn lemma_root_led(
    a: Seq<Event>,
    b: Seq<Event>,
    from: int,
    back: int,
    v: PosView,
    depth: int,
    rm: RootMove,
)
    requires
        root_led(a, from, v, depth, rm),
        extends(a, b),
        0 <= back <= from,
    ensures
        root_led(b, back, v, depth, rm),
{
    let (k, j) = choose|k: int, j: int| #[trigger]
        root_at(a, from, v, depth, k, j) && conclusive(a[j]) && a[j]->Root_0.moves[k].mv == rm.mv
            && a[j]->Root_0.moves[k].score == rm.score && a[j]->Root_0.moves[k].pv@ == rm.pv@;
    assert(b[j] == a[j]);
    assert(root_at(b, back, v, depth, k, j));
}

/// Searches of the root are still on record in a longer journal.
pub proof fn lemma_searched_more(
    a: Seq<Event>,
    b: Seq<Event>,
    from: int,
    v: PosView,
    first: int,
    last: int,
)
    requires
        searched_to(a, from, v, first, last),
        extends(a, b),
        0 <= from,
    ensures
        searched_to(b, from, v, first, last),
{
    assert forall|d: int| first <= d <= last implies #[trigger] root_searched(b, from, v, d) by {
        lemma_root_searched(a, b, from, from, v, d);
    }
}

/// Searches of the root and the move that led the last are still on record in a longer
/// journal.
pub proof fn lemma_searched_on(
    a: Seq<Event>,
    b: Seq<Event>,
    from: int,
    v: PosView,
    first: int,
    last: int,
    rm: RootMove,
)
    requires
        searched_to(a, from, v, first, last),
        root_led(a, from, v, last, rm),
        extends(a, b),
        0 <= from,
    ensures
        searched_to(b, from, v, first, last),
        root_led(b, from, v, last, rm),
{
    lemma_searched_more(a, b, from, v, first, last);
    lemma_root_led(a, b, from, from, v, last, rm);
}

} // verus!
