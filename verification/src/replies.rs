//! What accounts for the moves of a node: how deep each reply was searched, which moves were
//! left out and why, and what the node comes to.

use vstd::prelude::*;

use crate::arith::quot;
use crate::decisions::{bound_of, late_move_limit, Reducing};
use crate::history::{cont_index, main_index, pawn_index, Histories, Lore};
use crate::journal::{extends, Event, NodeCall, Seen};
use crate::moves::{canonical_code, quiet_moves};
use crate::negamax::{node_result, pruning, Node, Pruning, Singular, Tried};
use crate::params::{
    HLP_HISTORY_LEAF, HLP_HISTORY_REDUCE, HLP_MAX_DEPTH, HLP_MIN_MOVES, LMR_CUTOFF_THRESH,
    LMR_TT_HISTORY_THRESH, SE_BETA_DEPTH_MULT, SE_MIN_DEPTH, SE_TT_DEPTH_SUB, SE_TT_HISTORY_DIV,
};
use crate::records::{larger, noisy_table_move, Try};
use crate::rules::PosView;
use crate::search::stores;
use crate::searcher::{NodeType, StackEntry};
use crate::tt::{value_to_tt, Store};
use crate::types::{is_decisive, is_loss, Move, PieceType, Value, VALUE_INFINITE, VALUE_NONE};

verus! {

// The move

/// Type of the piece a move takes.
pub open spec fn captured_by(v: PosView, m: Move) -> Option<PieceType> {
    if m.is_en_passant() {
        Some(PieceType::Pawn)
    } else if v.real_castling(m) || v.board[m.to()].0 == 12 {
        None
    } else {
        Some(v.board[m.to()].piece_type())
    }
}

/// A move as the search looks at it, the `count`-th of the legal ones.
pub open spec fn tried_move(v: PosView, m: Move, count: int) -> Tried {
    Tried {
        us: v.stm,
        m,
        pc: v.mover(m),
        captured: captured_by(v, m),
        gives_check: v.check_test(m),
        pawn_key: v.st().pawn_key,
        count: count as usize,
    }
}

/// Number of a move among the legal ones; the count stops at its limit.
pub open spec fn count_at(i: int) -> int {
    if i < 0xFFFF {
        i + 1
    } else {
        0xFFFF
    }
}

/// What became of a move.
pub struct Step {
    pub m: Move,
    /// Depth of the node and extension the move is searched with.
    pub depth: i32,
    pub extension: i32,
    /// Entry of the first search of the position after the move.
    pub scout: int,
    /// The score found, with the entry of the last search; none where the move is left out.
    pub reply: Option<Try>,
    /// What the position is worth at most with a move left out as futile.
    pub futile: Option<Value>,
    /// What the searcher knew when history ruled the move out.
    pub seen: Seen,
}

// Singular extensions

/// The table's move is tested against all others when it is reached.
pub open spec fn singled(k: Node, seek_mate: bool) -> bool {
    &&& k.depth >= SE_MIN_DEPTH + (if k.tt_pv {
        1int
    } else {
        0
    })
    &&& !k.in_check && k.tt_move.0 != 0 && !seek_mate
    &&& k.tt_hit && k.tt_bound.has_lower() && k.tt_depth >= k.depth - SE_TT_DEPTH_SUB
    &&& k.tt_value != VALUE_NONE && !is_decisive(k.tt_value)
    &&& k.node_type != NodeType::PV && k.excluded.0 == 0
}

/// Window the moves other than the table's are searched with.
pub open spec fn singular_limit(s: Seen, n: Node) -> int {
    n.tt_value - SE_BETA_DEPTH_MULT * n.depth + quot(
        s.hist.tt_move_history as int,
        SE_TT_HISTORY_DIV as int,
    )
}

/// Entry `j` is a search of the node without a move against a limit.
pub open spec fn left_out_at(
    log: Seq<Event>,
    from: int,
    n: Node,
    v: PosView,
    m: Move,
    j: int,
) -> bool {
    &&& from <= j < log.len()
    &&& log[j] matches Event::Node(d) && {
        &&& d.v == v
        &&& d.ply == n.ply
        &&& d.depth == (n.depth - 1) / 2
        &&& d.excluded == m
        &&& !d.allow_null
        &&& d.alpha == singular_limit(d.seen, n) - 1
        &&& d.beta == singular_limit(d.seen, n)
        &&& d.node_type == (if n.node_type == NodeType::Cut {
            NodeType::Cut
        } else {
            NodeType::All
        })
        &&& !d.seen.shuffles(v, m, n.ply, captured_by(v, m) is Some)
    }
}

/// What the search without the table's move says of it.
pub open spec fn singular_outcome(n: Node, limit: int, score: Value, tt_capture: bool) -> Singular {
    if score < limit {
        let slack = if tt_capture {
            5int
        } else {
            0
        };
        Singular::Extend(
            if score < limit - (4 * n.depth - 2 * slack) {
                3
            } else if score < limit - (2 * n.depth - slack) {
                2
            } else {
                1
            },
        )
    } else if score >= n.beta && !is_decisive(score) {
        Singular::Cut(score)
    } else if n.tt_value >= n.beta {
        Singular::Reduce((-3) as i32)
    } else if n.node_type == NodeType::Cut {
        Singular::Reduce((-2) as i32)
    } else {
        Singular::Reduce(0)
    }
}

/// What the search of entry `j` without the table's move says of it.
pub open spec fn singular_verdict(log: Seq<Event>, n: Node, v: PosView, j: int) -> Singular {
    let d = log[j]->Node_0;
    singular_outcome(n, singular_limit(d.seen, n), d.r, noisy_table_move(n, v))
}

/// The node ends because other moves than the table's reach beta too.
pub open spec fn multi_cut(log: Seq<Event>, from: int, n: Node, v: PosView, r: Value) -> bool {
    exists|j: int|
        {
            &&& #[trigger] left_out_at(log, from, n, v, canonical_code(n.tt_move), j)
            &&& v.legal(canonical_code(n.tt_move))
            &&& singled(n, log[j]->Node_0.seen.seek_mate)
            &&& singular_verdict(log, n, v, j) == Singular::Cut(r)
        }
}

/// Extension with that of a check at the horizon, which deserves one real reply.
pub open spec fn check_extension(v: PosView, n: Node, depth: i32, m: Move, e: i32) -> i32 {
    if e == 0 && depth <= 1 && v.check_test(m) && !n.in_check {
        1
    } else {
        e
    }
}

/// Depth and extension of a move as the search of entry `j` without it has them.
pub open spec fn singular_step(
    log: Seq<Event>,
    from: int,
    v: PosView,
    n: Node,
    s: Step,
    j: int,
) -> bool {
    &&& left_out_at(log, from, n, v, s.m, j)
    &&& match singular_verdict(log, n, v, j) {
        Singular::Extend(e) => s.depth == n.depth + 1 && s.extension == check_extension(
            v,
            n,
            s.depth,
            s.m,
            e,
        ),
        Singular::Reduce(e) => s.depth == n.depth && s.extension == check_extension(
            v,
            n,
            s.depth,
            s.m,
            e,
        ),
        _ => false,
    }
}

/// Depth and extension of a move: those of the singular search where the first move is the
/// table's and worth the test, otherwise none but for a check at the horizon. `seen` is what
/// the searcher knew when it searched the position after the move.
pub open spec fn extended(
    log: Seq<Event>,
    from: int,
    v: PosView,
    n: Node,
    first: bool,
    s: Step,
    seen: Seen,
) -> bool {
    let plain = s.depth == n.depth && s.extension == check_extension(v, n, s.depth, s.m, 0);
    if first && singled(n, seen.seek_mate) && s.m == canonical_code(n.tt_move) {
        ||| seen.shuffles(v, s.m, n.ply, captured_by(v, s.m) is Some) && plain
        ||| exists|j: int| #[trigger] singular_step(log, from, v, n, s, j)
    } else {
        plain
    }
}

// Reductions

impl Seen {
    /// What the late move reduction of a move rests on; `w` is the position after it.
    pub open spec fn reducing(self, w: PosView, n: Node, c: Tried) -> Reducing {
        let to = c.m.to() as usize;
        Reducing {
            base: self.reductions[n.depth * 513 + (if c.count < 512 {
                c.count as int
            } else {
                512
            })] as i32,
            improving: n.improving,
            tt_pv: n.tt_pv,
            cut_node: n.node_type == NodeType::Cut,
            all_node: n.node_type == NodeType::All,
            history: quiet_history(self.hist, c) as i32,
            continuation: ((match self.key_before(n.ply as int, 1) {
                Some(k) => self.hist.cont@[cont_index(k, c.pc, to) as int] as int,
                None => 0,
            }) + (match self.key_before(n.ply as int, 2) {
                Some(k) => self.hist.cont@[cont_index(k, c.pc, to) as int] as int,
                None => 0,
            })) as i32,
            correction: (n.static_eval - n.raw_eval) as i32,
            shuffling: self.shuffles(w, c.m, n.ply, c.captured is Some),
            cutting: self.stack[n.ply + 1].cutoff_cnt > LMR_CUTOFF_THRESH,
            unreliable: self.hist.tt_move_history < LMR_TT_HISTORY_THRESH,
        }
    }

    /// Late move reduction of a move; `w` is the position after it.
    #[verifier::opaque]
    pub open spec fn reduction(self, w: PosView, n: Node, c: Tried) -> int {
        if c.reducible(n) {
            self.reducing(w, n, c).amount(n.depth as int)
        } else {
            0
        }
    }
}

/// Butterfly and pawn history of a move.
pub open spec fn quiet_history(h: Histories, c: Tried) -> int {
    h.main@[main_index(c.us, c.m.from_to()) as int] + h.pawn@[pawn_index(
        c.pawn_key,
        c.pc,
        c.m.to() as usize,
    ) as int]
}

/// History may reduce a move further or rule it out.
pub open spec fn doubtful(n: Node, c: Tried, best: Value) -> bool {
    &&& !n.in_check && n.node_type != NodeType::PV
    &&& c.captured is None && !c.m.is_promotion() && !c.gives_check
    &&& n.depth <= HLP_MAX_DEPTH && c.count >= HLP_MIN_MOVES
    &&& !is_loss(best)
}

/// Depth left for a move after the reductions, before it is cut off at none.
pub open spec fn reduced_depth(
    s: Seen,
    w: PosView,
    n: Node,
    c: Tried,
    extension: i32,
    best: Value,
) -> int {
    n.depth - 1 + extension - s.reduction(w, n, c) - (if doubtful(n, c, best) && quiet_history(
        s.hist,
        c,
    ) < HLP_HISTORY_REDUCE {
        1int
    } else {
        0
    })
}

/// History rules the move out.
pub open spec fn leaf_pruned(
    s: Seen,
    w: PosView,
    n: Node,
    c: Tried,
    extension: i32,
    best: Value,
) -> bool {
    &&& doubtful(n, c, best)
    &&& quiet_history(s.hist, c) < HLP_HISTORY_REDUCE && quiet_history(s.hist, c) < HLP_HISTORY_LEAF
    &&& reduced_depth(s, w, n, c, extension, best) <= 0
}

pub open spec fn at_least_none(d: int) -> int {
    if d > 0 {
        d
    } else {
        0
    }
}

/// Depth of the second search of a move that did better than expected: more where it is far
/// better, less where it is hardly so, and some for the table's move.
pub open spec fn again_depth(
    n: Node,
    m: Move,
    full: int,
    scouted: int,
    score: int,
    best: Value,
) -> int {
    let d = at_least_none(
        full + (if scouted < full && score > best + 43 + 2 * full {
            1int
        } else {
            0
        }) - (if score < best + 9 {
            1int
        } else {
            0
        }),
    );
    if n.node_type == NodeType::PV && m == canonical_code(n.tt_move) && d == 0 && ((n.tt_value
        != VALUE_NONE && is_decisive(n.tt_value) && n.tt_depth > 0) || n.tt_depth > 1) {
        1
    } else {
        d
    }
}

/// Kind of the node below one that is not on the principal variation.
pub open spec fn flipped(n: Node) -> NodeType {
    if n.node_type == NodeType::Cut {
        NodeType::All
    } else {
        NodeType::Cut
    }
}

pub open spec fn child_type(n: Node) -> NodeType {
    if n.node_type == NodeType::PV {
        NodeType::PV
    } else {
        flipped(n)
    }
}

/// The stack tells of the move that is searched and its history.
pub open spec fn noted(s: Seen, n: Node, c: Tried) -> bool {
    let e = s.stack[n.ply as int];
    &&& e.current_move == c.m
    &&& e.moved_piece == c.pc
    &&& e.in_check == n.in_check
    &&& e.is_capture == (c.captured is Some)
    &&& e.stat_score == s.hist.main@[main_index(c.us, c.m.from_to()) as int]
}

/// An entry is a search of the position `w` after a move.
pub open spec fn below(e: Event, w: PosView, n: Node) -> bool {
    e matches Event::Node(d) && {
        &&& d.v == w
        &&& d.ply == n.ply + 1
        &&& d.excluded.0 == 0
        &&& d.allow_null
        &&& d.beta == -n.alpha
    }
}

/// The searches of the position `w` after a move, the first of entry `scout` and the last of
/// entry `at`: the first move of the node at full depth and window, the others reduced with
/// a window that only tells whether they beat alpha, and again where they do.
#[verifier::opaque]
pub open spec fn child_searched(
    log: Seq<Event>,
    from: int,
    w: PosView,
    n: Node,
    c: Tried,
    extension: i32,
    best: Value,
    scout: int,
    at: int,
) -> bool {
    let full = n.depth - 1 + extension;
    let d = log[at]->Node_0;
    let e = log[scout]->Node_0;
    &&& from <= scout <= at < log.len()
    &&& below(log[at], w, n)
    &&& below(log[scout], w, n)
    &&& if c.count == 1 {
        &&& at == scout
        &&& noted(d.seen, n, c) && d.seen.stack[n.ply as int].reduction == 0
        &&& d.alpha == -n.beta
        &&& d.depth == at_least_none(full)
        &&& d.node_type == child_type(n)
    } else {
        &&& noted(e.seen, n, c)
        &&& e.seen.stack[n.ply as int].reduction == e.seen.reduction(w, n, c)
        &&& e.alpha == -n.alpha - 1
        &&& e.node_type == flipped(n)
        &&& e.depth == at_least_none(reduced_depth(e.seen, w, n, c, extension, best))
        &&& if -e.r > n.alpha && (e.seen.reduction(w, n, c) > 0 || -e.r < n.beta) {
            &&& scout < at
            &&& d.seen.stack[n.ply as int] == (StackEntry {
                reduction: 0,
                ..e.seen.stack[n.ply as int]
            })
            &&& d.alpha == -n.beta
            &&& d.node_type == child_type(n)
            &&& d.depth == again_depth(n, c.m, full, e.depth as int, -e.r, best)
        } else {
            at == scout
        }
    }
}

/// Searches after a move are found from further back, too.
pub proof fn lemma_child_back(
    log: Seq<Event>,
    from: int,
    back: int,
    w: PosView,
    n: Node,
    c: Tried,
    extension: i32,
    best: Value,
    scout: int,
    at: int,
)
    requires
        child_searched(log, from, w, n, c, extension, best, scout, at),
        back <= from,
    ensures
        child_searched(log, back, w, n, c, extension, best, scout, at),
        from <= scout <= at < log.len(),
        below(log[at], w, n),
        below(log[scout], w, n),
{
    reveal(child_searched);
}

/// The histories after the searches of the position `w` after a move: a quiet move whose
/// reduced search forced another proved good.
#[verifier::opaque]
pub open spec fn child_learned(
    log: Seq<Event>,
    w: PosView,
    n: Node,
    c: Tried,
    scout: int,
    at: int,
) -> Lore {
    let d = log[at]->Node_0;
    if scout < at && log[scout]->Node_0.seen.reduction(w, n, c) > 0 && c.captured is None
        && !c.m.is_promotion() {
        d.after.credited(
            d.after.hist@,
            n.ply as int,
            n.in_check,
            c.pc,
            c.m.to() as usize,
            100 * n.depth,
        )
    } else {
        d.after.hist@
    }
}

/// The move of a step has been searched: its score is the negated result of the last search
/// of the position after it. `n` is the node with alpha and depth as they stand.
pub open spec fn replied(
    log: Seq<Event>,
    from: int,
    v: PosView,
    n: Node,
    count: int,
    best: Value,
    s: Step,
) -> bool {
    s.reply matches Some(t) && {
        let w = log[t.at]->Node_0.v;
        &&& t.m == s.m
        &&& t.score == -log[t.at]->Node_0.r
        &&& v.made(s.m, v.check_test(s.m), w)
        &&& child_searched(
            log,
            from,
            w,
            Node { depth: s.depth, ..n },
            tried_move(v, s.m, count),
            s.extension,
            best,
            s.scout,
            t.at,
        )
        &&& extended(log, from, v, n, count == 1, s, log[s.scout]->Node_0.seen)
        &&& s.futile is None
    }
}

// Moves left out

/// The move of a step is left out: shallow-depth pruning, which needs a piece, or history
/// speaks against it. Never on the principal variation, nor while every reply loses. `known`
/// is what the searcher knows by then.
pub open spec fn left_out(
    v: PosView,
    n: Node,
    count: int,
    best: Value,
    known: Seen,
    s: Step,
) -> bool {
    &&& s.reply is None
    &&& n.node_type != NodeType::PV && !is_loss(best)
    &&& s.depth == n.depth
    &&& match shallow(v, n, known.hist, s.m) {
        Pruning::Skip => s.futile is None,
        Pruning::Futile(f) => s.futile == Some(f),
        Pruning::Search => {
            &&& s.futile is None
            &&& s.extension == check_extension(v, n, n.depth, s.m, 0)
            &&& much_as(s.seen, known, n.ply)
            &&& exists|w: PosView| #[trigger]
                v.made(s.m, v.check_test(s.m), w) && leaf_pruned(
                    s.seen,
                    w,
                    n,
                    tried_move(v, s.m, count),
                    s.extension,
                    best,
                )
        },
    }
}

/// What shallow-depth pruning does with a move; without a piece nothing.
pub open spec fn shallow(v: PosView, n: Node, h: Histories, m: Move) -> Pruning {
    if v.has_pieces(v.stm) {
        pruning(h, v, n, m, captured_by(v, m), v.check_test(m), false)
    } else {
        Pruning::Search
    }
}

// The moves one after the other

/// Best score after the first `n` moves, a move left out as futile standing for what the
/// position is worth at most with it.
pub open spec fn best_at(steps: Seq<Step>, n: int) -> Value
    decreases n,
{
    if n <= 0 {
        (-VALUE_INFINITE) as Value
    } else {
        let b = best_at(steps, n - 1);
        match steps[n - 1].reply {
            Some(t) => larger(t.score, b),
            None => match steps[n - 1].futile {
                Some(f) => if b <= f && !is_decisive(b) {
                    f
                } else {
                    b
                },
                None => b,
            },
        }
    }
}

/// Alpha after the first `n` moves.
pub open spec fn alpha_at(steps: Seq<Step>, n: int, floor: Value) -> Value
    decreases n,
{
    if n <= 0 {
        floor
    } else {
        match steps[n - 1].reply {
            Some(t) => larger(t.score, alpha_at(steps, n - 1, floor)),
            None => alpha_at(steps, n - 1, floor),
        }
    }
}

/// Last of the first `n` moves that raised alpha; -1 for none.
pub open spec fn raised_at(steps: Seq<Step>, n: int, floor: Value) -> int
    decreases n,
{
    if n <= 0 {
        -1
    } else if steps[n - 1].reply matches Some(t) && t.score > alpha_at(steps, n - 1, floor) {
        n - 1
    } else {
        raised_at(steps, n - 1, floor)
    }
}

/// Last of the first `n` moves that was searched; -1 for none.
pub open spec fn last_reply(steps: Seq<Step>, n: int) -> int
    decreases n,
{
    if n <= 0 {
        -1
    } else if steps[n - 1].reply is Some {
        n - 1
    } else {
        last_reply(steps, n - 1)
    }
}

/// The search that gave move `x` its score.
pub open spec fn reply_call(log: Seq<Event>, steps: Seq<Step>, x: int) -> NodeCall {
    log[steps[x].reply->Some_0.at]->Node_0
}

/// What the searcher knew when move `n` was reached, but for the continuation histories, in
/// which the last move searched may have been credited since.
pub open spec fn known_at(log: Seq<Event>, steps: Seq<Step>, n: int) -> Seen {
    reply_call(log, steps, last_reply(steps, n)).after
}

/// Nothing has changed but the continuation histories and the stack at `ply`.
pub open spec fn much_as(a: Seen, b: Seen, ply: usize) -> bool {
    &&& a.hist == (Histories { cont: a.hist.cont, ..b.hist })
    &&& a.reductions == b.reductions
    &&& a.seek_mate == b.seek_mate
    &&& a.stack.len() == b.stack.len()
    &&& forall|p: int|
        0 <= p < a.stack.len() && p != ply ==> #[trigger] a.stack[p] == b.stack[p]
}

/// The node as it stands when move `i` is reached; `depth` is its depth after the first.
pub open spec fn node_at_step(k: Node, depth: i32, steps: Seq<Step>, i: int) -> Node {
    Node {
        alpha: alpha_at(steps, i, k.alpha),
        depth: if i == 0 {
            k.depth
        } else {
            depth
        },
        ..k
    }
}

/// Move `i` of a node was searched or left out as the rules of the search have it.
pub open spec fn node_step(
    log: Seq<Event>,
    from: int,
    v: PosView,
    k: Node,
    depth: i32,
    steps: Seq<Step>,
    i: int,
) -> bool {
    let s = steps[i];
    let n = node_at_step(k, depth, steps, i);
    &&& v.legal(s.m)
    &&& s.m != k.excluded
    &&& if s.reply is Some {
        replied(log, from, v, n, count_at(i), best_at(steps, i), s)
    } else {
        i > 0 && left_out(v, n, count_at(i), best_at(steps, i), known_at(log, steps, i), s)
    }
}

/// The remaining quiet moves are skipped from move `i` on.
pub open spec fn late_at(v: PosView, k: Node, depth: i32, steps: Seq<Step>, i: int) -> bool {
    &&& 0 < i < steps.len()
    &&& k.node_type != NodeType::PV && v.has_pieces(v.stm)
    &&& !is_loss(best_at(steps, i))
    &&& count_at(i) > late_move_limit(depth as int, k.improving)
}

/// The move was reached.
pub open spec fn reached(steps: Seq<Step>, m: Move) -> bool {
    exists|i: int| 0 <= i < steps.len() && (#[trigger] steps[i]).m == m
}

/// A quiet move may be skipped unseen.
pub open spec fn skippable(v: PosView, k: Node, depth: i32, steps: Seq<Step>, m: Move) -> bool {
    &&& v.st().checkers == 0 && quiet_moves(v).contains(m)
    &&& exists|i: int| #[trigger] late_at(v, k, depth, steps, i)
}

/// The line of a node: the last move that raised alpha with the line found after it. On the
/// principal variation there is none where no move raised alpha.
pub open spec fn line_of(log: Seq<Event>, k: Node, steps: Seq<Step>, line: Seq<Move>) -> bool {
    let x = raised_at(steps, steps.len() as int, k.alpha);
    if x >= 0 {
        line == seq![steps[x].m] + reply_call(log, steps, x).line
    } else {
        k.node_type == NodeType::PV ==> line.len() == 0
    }
}

/// The node comes to the best of its moves. Every legal move is reached and searched or left
/// out for a reason, unless one reaches beta; quiet moves may be skipped once enough moves
/// have been seen.
pub open spec fn moves_outcome(
    log: Seq<Event>,
    from: int,
    v: PosView,
    k: Node,
    steps: Seq<Step>,
    depth: i32,
    r: Value,
    line: Seq<Move>,
) -> bool {
    let n = steps.len() as int;
    let alpha = alpha_at(steps, n, k.alpha);
    &&& forall|i: int| 0 <= i < n ==> #[trigger] node_step(log, from, v, k, depth, steps, i)
    &&& depth == (if n > 0 {
        steps[0].depth
    } else {
        k.depth
    })
    &&& alpha < k.beta ==> forall|m: Move| #[trigger]
        v.legal(m) && m != k.excluded ==> reached(steps, m) || skippable(v, k, depth, steps, m)
    &&& line_of(log, k, steps, line)
    &&& if n == 0 {
        r == (if k.excluded.0 != 0 {
            k.alpha
        } else {
            v.terminal_score(k.ply)
        })
    } else {
        &&& k.excluded.0 != 0 || node_stored(log, k, depth, steps, r)
        &&& r == node_result(Node { depth, ..k }, alpha, best_at(steps, n))
    }
}

/// The last entries of the journal put the result of a node to the table, with the move that
/// raised alpha last, if one did.
pub open spec fn node_stored(
    log: Seq<Event>,
    k: Node,
    depth: i32,
    steps: Seq<Step>,
    r: Value,
) -> bool {
    exists|a: Seq<Event>, s: Store| #[trigger]
        stores(a, log, k.key, s) && node_record(k, depth, steps, r, s)
}

pub open spec fn node_record(k: Node, depth: i32, steps: Seq<Step>, r: Value, s: Store) -> bool {
    let x = raised_at(steps, steps.len() as int, k.alpha);
    &&& s.depth == depth
    &&& s.bound == bound_of(r, k.alpha, k.beta)
    &&& s.score == value_to_tt(r, k.ply)
    &&& s.eval == k.raw_eval
    &&& k.tt_pv ==> s.is_pv
    &&& r > k.alpha ==> s.is_pv == k.tt_pv
    &&& s.mv == (if x >= 0 {
        steps[x].m
    } else {
        Move(0)
    })
}

// Lemmas

/// The reduction of a move rests on nothing that is noted of it.
pub proof fn lemma_same_reduction(a: Seen, b: Seen, w: PosView, n: Node, c: Tried)
    requires
        a.hist == b.hist,
        a.reductions == b.reductions,
        a.stack.len() == b.stack.len(),
        n.ply + 1 < a.stack.len(),
        forall|p: int|
            0 <= p < a.stack.len() && p != n.ply ==> #[trigger] a.stack[p] == b.stack[p],
    ensures
        a.reduction(w, n, c) == b.reduction(w, n, c),
{
    assert(a.stack[n.ply + 1] == b.stack[n.ply + 1]);
    if n.ply >= 1 {
        assert(a.stack[n.ply - 1] == b.stack[n.ply - 1]);
    }
    if n.ply >= 2 {
        assert(a.stack[n.ply - 2] == b.stack[n.ply - 2]);
    }
    if n.ply >= 4 {
        assert(a.stack[n.ply - 4] == b.stack[n.ply - 4]);
    }
    assert(a.key_before(n.ply as int, 1) == b.key_before(n.ply as int, 1));
    assert(a.key_before(n.ply as int, 2) == b.key_before(n.ply as int, 2));
    assert(a.reducing(w, n, c) == b.reducing(w, n, c));
    reveal(Seen::reduction);
}

/// Further moves change nothing about the first ones.
pub proof fn lemma_steps_push(steps: Seq<Step>, s: Step, n: int, floor: Value)
    requires
        0 <= n <= steps.len(),
    ensures
        best_at(steps.push(s), n) == best_at(steps, n),
        alpha_at(steps.push(s), n, floor) == alpha_at(steps, n, floor),
        raised_at(steps.push(s), n, floor) == raised_at(steps, n, floor),
        last_reply(steps.push(s), n) == last_reply(steps, n),
    decreases n,
{
    if n > 0 {
        lemma_steps_push(steps, s, n - 1, floor);
        assert(steps.push(s)[n - 1] == steps[n - 1]);
    }
}

/// Where the last searched move stands.
pub proof fn lemma_last_reply(steps: Seq<Step>, n: int)
    requires
        0 <= n <= steps.len(),
    ensures
        -1 <= last_reply(steps, n) < n || (n == 0 && last_reply(steps, n) == -1),
        last_reply(steps, n) >= 0 ==> steps[last_reply(steps, n)].reply is Some,
        n > 0 && steps[0].reply is Some ==> last_reply(steps, n) >= 0,
    decreases n,
{
    if n > 0 {
        lemma_last_reply(steps, n - 1);
    }
}

/// Where the last move that raised alpha stands, and what alpha is.
pub proof fn lemma_raised(steps: Seq<Step>, n: int, floor: Value)
    requires
        0 <= n <= steps.len(),
    ensures
        -1 <= raised_at(steps, n, floor) < n || n == 0,
        raised_at(steps, n, floor) >= 0 ==> steps[raised_at(steps, n, floor)].reply is Some,
        raised_at(steps, n, floor) >= 0 <==> alpha_at(steps, n, floor) > floor,
        alpha_at(steps, n, floor) >= floor,
    decreases n,
{
    if n > 0 {
        lemma_raised(steps, n - 1, floor);
    }
}

/// Whether a move shuffles does not rest on what is noted of it.
pub proof fn lemma_same_shuffle(a: Seen, b: Seen, v: PosView, ply: usize, m: Move, takes: bool)
    requires
        much_as(a, b, ply),
        ply < a.stack.len(),
    ensures
        a.shuffles(v, m, ply, takes) == b.shuffles(v, m, ply, takes),
{
    if ply >= 20 {
        assert(a.stack[ply - 2] == b.stack[ply - 2]);
        assert(a.stack[ply - 4] == b.stack[ply - 4]);
    }
}

/// A searched move is accounted for in a longer journal, looked for from further back.
pub proof fn lemma_replied_on(
    a: Seq<Event>,
    b: Seq<Event>,
    from: int,
    back: int,
    v: PosView,
    n: Node,
    count: int,
    best: Value,
    s: Step,
)
    requires
        extends(a, b),
        0 <= back <= from,
        replied(a, from, v, n, count, best, s),
    ensures
        replied(b, back, v, n, count, best, s),
{
    reveal(child_searched);
    let t = s.reply->Some_0;
    assert(b[t.at] == a[t.at]);
    assert(b[s.scout] == a[s.scout]);
    let seen = a[s.scout]->Node_0.seen;
    if count == 1 && singled(n, seen.seek_mate) && s.m == canonical_code(n.tt_move) {
        if exists|j: int| #[trigger] singular_step(a, from, v, n, s, j) {
            let j = choose|j: int| #[trigger] singular_step(a, from, v, n, s, j);
            assert(b[j] == a[j]);
            assert(singular_step(b, back, v, n, s, j));
        }
    }
}

/// A move stays accounted for as the journal grows and moves are added.
pub proof fn lemma_step_on(
    a: Seq<Event>,
    b: Seq<Event>,
    from: int,
    back: int,
    v: PosView,
    k: Node,
    depth: i32,
    steps: Seq<Step>,
    more: Seq<Step>,
    i: int,
)
    requires
        extends(a, b),
        0 <= back <= from,
        0 <= i < steps.len(),
        more == steps || (more.len() == steps.len() + 1 && more.drop_last() == steps),
        forall|j: int| 0 <= j <= i ==> #[trigger] node_step(a, from, v, k, depth, steps, j),
    ensures
        node_step(b, back, v, k, depth, more, i),
{
    if more != steps {
        assert(more =~= steps.push(more.last()));
        lemma_steps_push(steps, more.last(), i, k.alpha);
        assert(more[i] == steps[i]);
    }
    assert(node_step(a, from, v, k, depth, steps, i));
    let s = steps[i];
    if s.reply is Some {
        lemma_replied_on(
            a,
            b,
            from,
            back,
            v,
            node_at_step(k, depth, steps, i),
            count_at(i),
            best_at(steps, i),
            s,
        );
    } else {
        assert(node_step(a, from, v, k, depth, steps, 0));
        lemma_last_reply(steps, i);
        let x = last_reply(steps, i);
        assert(node_step(a, from, v, k, depth, steps, x));
        assert(more[x] == steps[x]);
        reveal(child_searched);
        assert(b[steps[x].reply->Some_0.at] == a[steps[x].reply->Some_0.at]);
        assert(known_at(b, more, i) == known_at(a, steps, i));
    }
}

/// The moves stay accounted for as the journal grows and one more move is reached.
pub proof fn lemma_steps_more(
    a: Seq<Event>,
    b: Seq<Event>,
    from: int,
    v: PosView,
    k: Node,
    depth: i32,
    steps: Seq<Step>,
    s: Step,
)
    requires
        extends(a, b),
        0 <= from,
        forall|i: int| 0 <= i < steps.len() ==> #[trigger] node_step(a, from, v, k, depth, steps, i),
        node_step(b, from, v, k, depth, steps.push(s), steps.len() as int),
    ensures
        forall|i: int|
            0 <= i < steps.len() + 1 ==> #[trigger] node_step(
                b,
                from,
                v,
                k,
                depth,
                steps.push(s),
                i,
            ),
{
    assert forall|i: int| 0 <= i < steps.len() + 1 implies #[trigger] node_step(
        b,
        from,
        v,
        k,
        depth,
        steps.push(s),
        i,
    ) by {
        if i < steps.len() {
            assert(steps.push(s).drop_last() =~= steps);
            lemma_step_on(a, b, from, from, v, k, depth, steps, steps.push(s), i);
        }
    }
}

/// The moves stay accounted for as the journal grows, looked for from further back.
pub proof fn lemma_steps_on(
    a: Seq<Event>,
    b: Seq<Event>,
    from: int,
    back: int,
    v: PosView,
    k: Node,
    depth: i32,
    steps: Seq<Step>,
)
    requires
        extends(a, b),
        0 <= back <= from,
        forall|i: int| 0 <= i < steps.len() ==> #[trigger] node_step(a, from, v, k, depth, steps, i),
    ensures
        forall|i: int| 0 <= i < steps.len() ==> #[trigger] node_step(b, back, v, k, depth, steps, i),
{
    assert forall|i: int| 0 <= i < steps.len() implies #[trigger] node_step(
        b,
        back,
        v,
        k,
        depth,
        steps,
        i,
    ) by {
        lemma_step_on(a, b, from, back, v, k, depth, steps, steps, i);
    }
}

/// What was reached stays reached.
pub proof fn lemma_reached_more(steps: Seq<Step>, s: Step)
    ensures
        forall|m: Move| #[trigger] reached(steps.push(s), m) <==> reached(steps, m) || m == s.m,
{
    let t = steps.push(s);
    assert forall|m: Move| #[trigger] reached(t, m) <==> reached(steps, m) || m == s.m by {
        if reached(steps, m) {
            let i = choose|i: int| 0 <= i < steps.len() && (#[trigger] steps[i]).m == m;
            assert(t[i].m == m);
        }
        assert(t[steps.len() as int].m == s.m);
        if reached(t, m) && m != s.m {
            let i = choose|i: int| 0 <= i < t.len() && (#[trigger] t[i]).m == m;
            assert(steps[i].m == m);
        }
    }
}

/// Quiet moves that may be skipped may still be skipped after more moves.
pub proof fn lemma_late_more(v: PosView, k: Node, depth: i32, steps: Seq<Step>, s: Step, i: int)
    requires
        late_at(v, k, depth, steps, i),
    ensures
        late_at(v, k, depth, steps.push(s), i),
{
    lemma_steps_push(steps, s, i, k.alpha);
}

/// The best and alpha with one more move.
pub proof fn lemma_one_more(steps: Seq<Step>, s: Step, floor: Value)
    ensures
        ({
            let n = steps.len() as int;
            let t = steps.push(s);
            let b = best_at(steps, n);
            let a = alpha_at(steps, n, floor);
            &&& best_at(t, n + 1) == (match s.reply {
                Some(x) => larger(x.score, b),
                None => match s.futile {
                    Some(f) => if b <= f && !is_decisive(b) {
                        f
                    } else {
                        b
                    },
                    None => b,
                },
            })
            &&& alpha_at(t, n + 1, floor) == (match s.reply {
                Some(x) => larger(x.score, a),
                None => a,
            })
            &&& raised_at(t, n + 1, floor) == (if s.reply matches Some(x) && x.score > a {
                n
            } else {
                raised_at(steps, n, floor)
            })
            &&& last_reply(t, n + 1) == (if s.reply is Some {
                n
            } else {
                last_reply(steps, n)
            })
        }),
{
    let n = steps.len() as int;
    lemma_steps_push(steps, s, n, floor);
    assert(steps.push(s)[n] == s);
}

} // verus!
