//! Which way the rules of the search lean: what never cuts, what a deeper or better node may
//! do, and what a score says of the window it was found with.

use vstd::prelude::*;

use crate::arith::quot;
use crate::decisions::{
    bound_fits, bound_of, futility_margin, late_move_limit, tt_cutoff, tt_misleads, Reducing,
};
use crate::history::{main_index, Histories};
use crate::journal::{QuietCall, Seen};
use crate::negamax::{lowered, node_result, pruning, raised, Node, Pruning, Singular};
use crate::records::{
    after_pass, eased, hindsight_depth, may_pass, pass_depth, poor_capture, probcut_limit,
    probcut_tried, razored, reverse_futile, shallow_depth, stand_pat, table_cuts, top, trusted, Try,
};
use crate::replies::{
    again_depth, alpha_at, best_at, child_type, flipped, raised_at, singular_limit,
    singular_outcome, Step,
};
use crate::rules::PosView;
use crate::searcher::{value_draw, NodeType, Searcher};
use crate::tt::TTData;
use crate::types::{
    is_decisive, is_loss, is_win, mate_in, mated_in, Bound, Move, PieceType, Value, VALUE_INFINITE,
};
use crate::variant::Variant;

verus! {

// Bounds

/// A score below beta is an upper bound and one above alpha a lower bound.
pub proof fn results_bound_the_true_score(score: Value, alpha: Value, beta: Value)
    requires
        alpha < beta,
    ensures
        bound_of(score, alpha, beta).has_upper() <==> score < beta,
        bound_of(score, alpha, beta).has_lower() <==> score > alpha,
{
}

/// A fitting bound decides on which side of the limit the true score lies.
pub proof fn fitting_bounds_decide(value: Value, limit: Value, bound: Bound, score: int)
    requires
        bound_fits(value, limit, bound),
        bound.has_lower() ==> score >= value,
        bound.has_upper() ==> score <= value,
    ensures
        value >= limit ==> score >= limit,
        value < limit ==> score < limit,
{
}

/// An entry that cuts is at least as deep as the node, deeper where it fails high, says on
/// which side of beta the score lies, and is not read close to the fifty-move rule. A deeper
/// entry of the kind expected cuts wherever one less deep does.
pub proof fn cutting_entries_are_deep_enough(
    depth: i32,
    beta: Value,
    value: Value,
    a: i32,
    b: i32,
    bound: Bound,
    cut_node: bool,
    rule50: i32,
    score: int,
)
    requires
        depth > i32::MIN,
        a <= b,
        bound.has_lower() ==> score >= value,
        bound.has_upper() ==> score <= value,
        tt_cutoff(depth, beta, value, a, bound, cut_node, rule50),
    ensures
        a >= depth,
        value > beta ==> a > depth,
        rule50 < 96,
        value >= beta ==> score >= beta,
        value < beta ==> score < beta,
        tt_cutoff(depth, beta, value, b, bound, cut_node, rule50),
        !tt_misleads(depth, beta, value, a, bound),
{
}

/// An exact entry deeper than the node cuts where a fail high is expected and found, or
/// neither, as long as the clock is below ninety-six.
pub proof fn deep_exact_entries_cut(
    depth: i32,
    beta: Value,
    value: Value,
    tt_depth: i32,
    rule50: i32,
)
    requires
        i32::MIN < depth < tt_depth,
        rule50 < 96,
    ensures
        tt_cutoff(depth, beta, value, tt_depth, Bound::Exact, value >= beta, rule50),
{
}

/// The table ends no node of the principal variation and none that leaves a move out.
pub proof fn the_principal_variation_is_searched(n: Node, v: PosView)
    requires
        n.node_type == NodeType::PV || n.excluded.0 != 0,
    ensures
        !table_cuts(n, v),
        !probcut_tried(n),
{
}

// The window

/// Mate distance: alpha is never worth less than being mated on the spot, beta never more than
/// mating with the next move, and a window inside these is left alone. Where a nearer mate has
/// been found the window closes.
pub proof fn no_node_beats_the_nearest_mate(alpha: Value, beta: Value, ply: usize)
    requires
        ply <= 127,
        -32_001 <= alpha < beta <= 32_001,
    ensures
        raised(alpha, ply) >= alpha && raised(alpha, ply) >= mated_in(ply),
        raised(alpha, ply) == alpha || raised(alpha, ply) == mated_in(ply),
        lowered(beta, ply) <= beta && lowered(beta, ply) <= mate_in((ply + 1) as usize),
        lowered(beta, ply) == beta || lowered(beta, ply) == mate_in((ply + 1) as usize),
        alpha >= mate_in((ply + 1) as usize) ==> raised(alpha, ply) >= lowered(beta, ply),
        beta <= mated_in(ply) ==> raised(alpha, ply) >= lowered(beta, ply),
        mated_in(ply) <= alpha && beta <= mate_in((ply + 1) as usize) ==> raised(alpha, ply)
            == alpha && lowered(beta, ply) == beta,
{
}

/// A draw scores one point either way, both ways equally often.
pub proof fn draws_score_about_nothing(nodes: u64)
    requires
        nodes + 2 <= u64::MAX,
    ensures
        value_draw(nodes) == 1 || value_draw(nodes) == -1,
        value_draw((nodes + 2) as u64) == -value_draw(nodes),
{
}

/// A failing high score is drawn halfway back to beta and never beyond it; other scores and
/// mates stay as they are.
pub proof fn eased_scores_stay_beyond_beta(score: Value, beta: Value)
    ensures
        score <= beta ==> eased(score, beta) == score,
        is_decisive(score) ==> eased(score, beta) == score,
        score > beta && !is_decisive(score) ==> beta <= eased(score, beta) <= score && -1
            <= 2 * eased(score, beta) - (score + beta) <= 1,
{
}

// Pruning at the node

/// The refined evaluation is the static one or the table's value, and moves away from the
/// static one only as the stored bound allows.
pub proof fn refined_evaluations_follow_the_bound(n: Node)
    ensures
        Searcher::refined(n) == n.static_eval || Searcher::refined(n) == n.tt_value,
        Searcher::refined(n) > n.static_eval ==> n.tt_hit && n.tt_bound.has_lower(),
        Searcher::refined(n) < n.static_eval ==> n.tt_hit && n.tt_bound.has_upper(),
{
}

/// Razoring is for evaluations below alpha, near the horizon, out of check and off the
/// principal variation; the margin grows with the depth.
pub proof fn razoring_needs_more_margin_deeper(n: Node, d: i32)
    requires
        razored(n),
        1 <= d <= n.depth,
    ensures
        Searcher::refined(n) < n.alpha,
        n.depth <= 8 && !n.in_check && n.node_type != NodeType::PV,
        razored(Node { depth: d, ..n }),
{
    let k = n.depth as int;
    let e = d as int;
    assert(0 <= e * e <= k * k) by (nonlinear_arith)
        requires
            1 <= e <= k,
    ;
}

/// The margin of reverse futility grows with the depth, and shrinks where the side is
/// improving.
pub proof fn futility_margins_grow(depth: int, tt_hit: bool, improving: bool, worsening: bool)
    ensures
        futility_margin(depth, tt_hit, improving, worsening) < futility_margin(
            depth + 1,
            tt_hit,
            improving,
            worsening,
        ),
        futility_margin(depth, tt_hit, true, worsening) < futility_margin(
            depth,
            tt_hit,
            false,
            worsening,
        ),
        futility_margin(depth, tt_hit, improving, true) < futility_margin(
            depth,
            tt_hit,
            improving,
            false,
        ),
        depth >= 0 ==> futility_margin(depth, tt_hit, false, false) >= 0,
{
    let mult: int = if tt_hit {
        101
    } else {
        70
    };
    assert(mult * (depth + 1) == mult * depth + mult) by (nonlinear_arith);
    assert(depth >= 0 ==> mult * depth >= 0) by (nonlinear_arith)
        requires
            mult > 0,
    ;
}

/// Reverse futility ends a node only above beta, out of check, with no mate in sight; what
/// ends a node ends it at any smaller depth.
pub proof fn reverse_futility_stays_above_beta(
    s: Seen,
    n: Node,
    v: PosView,
    worsening: bool,
    d: i32,
)
    requires
        reverse_futile(s, n, v, worsening),
        1 <= d <= n.depth,
    ensures
        Searcher::refined(n) >= n.beta,
        !n.in_check && !is_loss(n.beta) && !is_win(Searcher::refined(n)),
        reverse_futile(s, Node { depth: d, ..n }, v, worsening),
{
    let mult: int = if n.tt_hit {
        101
    } else {
        70
    };
    let k = n.depth as int;
    let e = d as int;
    assert(mult * e <= mult * k) by (nonlinear_arith)
        requires
            e <= k,
            mult > 0,
    ;
}

/// Passing is tried with a piece on the board and never where having no move wins; a better
/// evaluation only speaks for it.
pub proof fn passing_needs_a_piece(s: Seen, n: Node, v: PosView, better: Value)
    requires
        may_pass(s, n, v),
        n.static_eval <= better,
    ensures
        v.has_pieces(v.stm),
        v.variant != Variant::Antichess,
        !is_loss(n.beta),
        n.depth >= 3,
        may_pass(s, Node { static_eval: better, ..n }, v),
{
}

/// After passing the search is at least seven plies shallower, as far as there are that many,
/// and a better evaluation never makes it deeper.
pub proof fn passing_searches_less_deep(n: Node, better: Value)
    requires
        n.depth >= 1,
        n.static_eval <= better,
    ensures
        0 <= pass_depth(n) <= n.depth,
        n.depth >= 7 ==> pass_depth(n) <= n.depth - 7,
        n.depth < 7 ==> pass_depth(n) == 0,
        pass_depth(Node { static_eval: better, ..n }) <= pass_depth(n),
{
}

/// ProbCut asks for more than beta, a little less where the side is improving, and searches no
/// deeper than the node, less the better the evaluation.
pub proof fn probcut_asks_for_more_than_beta(n: Node, better: Value)
    requires
        n.depth >= 1,
        n.static_eval <= better,
        -32_000 <= n.beta <= 32_000,
    ensures
        probcut_limit(n) > n.beta,
        probcut_limit(Node { improving: true, ..n }) < probcut_limit(
            Node { improving: false, ..n },
        ),
        0 <= shallow_depth(n) <= n.depth,
        shallow_depth(Node { static_eval: better, ..n }) <= shallow_depth(n),
        n.static_eval >= n.beta && n.depth >= 5 ==> shallow_depth(n) <= n.depth - 5,
{
}

/// A stored bound that is trusted says that the score lies above beta.
pub proof fn trusted_bounds_lie_above_beta(n: Node, score: int)
    requires
        trusted(n),
        score >= n.tt_value,
    ensures
        score > n.beta,
        n.tt_bound.has_lower(),
        n.tt_depth >= n.depth - 4,
{
}

/// Without a table move a deep node loses depth; with one, or near the horizon, it keeps it,
/// and nothing but the depth and the improvement changes.
pub proof fn nodes_without_a_move_lose_depth(n: Node)
    ensures
        n.tt_move.0 != 0 || n.in_check || n.depth < 3 ==> after_pass(n).depth == n.depth,
        !n.in_check && n.depth >= 3 && n.tt_move.0 == 0 ==> after_pass(n).depth == n.depth - 2,
        n.improving ==> after_pass(n).improving,
        after_pass(n).alpha == n.alpha && after_pass(n).beta == n.beta,
{
}

/// Hindsight moves the depth by one ply at most and only after a reduction; it deepens where
/// the parent's choice was reduced far and did not pay, and never goes below one.
pub proof fn hindsight_moves_one_ply(
    depth: i32,
    reduction: i32,
    worsening: bool,
    static_eval: int,
    prev_eval: int,
)
    requires
        1 <= depth,
    ensures
        ({
            let d = hindsight_depth(depth, reduction, worsening, static_eval, prev_eval);
            &&& 1 <= d
            &&& depth - 1 <= d <= depth + 1
            &&& reduction < 2 ==> d == depth
            &&& worsening ==> d <= depth
            &&& static_eval + prev_eval <= 0 ==> d >= depth
            &&& reduction >= 3 && !worsening && static_eval + prev_eval <= 0 ==> d == depth + 1
        }),
{
}

// Moves

/// A deeper node looks at more quiet moves, an improving one at more as well.
pub proof fn deeper_nodes_see_more_moves(depth: int, improving: bool)
    requires
        depth >= 1,
    ensures
        late_move_limit(depth, improving) < late_move_limit(depth + 1, improving),
        late_move_limit(depth, false) <= late_move_limit(depth, true),
        late_move_limit(depth, true) <= 2 * late_move_limit(depth, false) + 1,
        late_move_limit(depth, improving) >= 2,
{
    assert((depth + 1) * (depth + 1) == depth * depth + 2 * depth + 1) by (nonlinear_arith);
    assert(depth * depth >= 1) by (nonlinear_arith)
        requires
            depth >= 1,
    ;
}

/// Captures that do not lose material and moves that give check are never pruned, nor is a
/// quiet move that holds its material, has no bad history and starts from above alpha.
pub proof fn sound_moves_are_searched(
    h: Histories,
    v: PosView,
    n: Node,
    m: Move,
    captured: Option<PieceType>,
    gives_check: bool,
    no_best: bool,
)
    requires
        n.depth >= 1,
    ensures
        ({
            let p = pruning(h, v, n, m, captured, gives_check, no_best);
            &&& gives_check ==> p == Pruning::Search
            &&& captured is Some && v.see_value(m) >= 0 ==> p == Pruning::Search
            &&& captured is Some ==> !(p is Futile)
            &&& v.see_value(m) >= 0 && h.main@[main_index(v.stm, m.from_to()) as int] >= 0
                && n.static_eval >= n.alpha ==> p == Pruning::Search
            &&& p is Futile ==> !n.in_check && n.static_eval < n.alpha
        }),
{
    let d = crate::negamax::quiet_depth(h, v, m, n.depth as int);
    assert(d * d >= 0) by (nonlinear_arith);
}

/// A futile move is worth more than the evaluation and no more than alpha.
pub proof fn futile_moves_stay_below_alpha(
    h: Histories,
    v: PosView,
    n: Node,
    m: Move,
    captured: Option<PieceType>,
    gives_check: bool,
    no_best: bool,
    f: Value,
)
    requires
        -36_500 <= n.static_eval <= 36_500,
        -32_001 <= n.alpha <= 32_001,
        pruning(h, v, n, m, captured, gives_check, no_best) == Pruning::Futile(f),
    ensures
        n.static_eval < f <= n.alpha,
{
}

/// A reduction lies between nothing and two plies less than the depth, and leans the way it
/// should: less for a good history, an improving side, the principal variation and an
/// uncertain evaluation, more at nodes expected to cut, for shuffling and where children cut.
pub proof fn reductions_lean_the_right_way(x: Reducing, depth: int, y: Reducing)
    requires
        x.wf(),
        depth >= 1,
        y.base >= x.base,
        y.history <= x.history,
        y.continuation <= x.continuation,
        y.correction == x.correction,
        y.improving ==> x.improving,
        y.tt_pv ==> x.tt_pv,
        x.cut_node ==> y.cut_node,
        x.shuffling ==> y.shuffling,
        x.cutting ==> y.cutting,
        x.all_node == y.all_node,
        x.unreliable == y.unreliable,
    ensures
        0 <= x.amount(depth),
        depth >= 2 ==> x.amount(depth) <= depth - 2,
        depth <= 2 ==> x.amount(depth) == 0,
        x.amount(depth) <= y.amount(depth),
{
    assert(quot(y.history as int, 4096) <= quot(x.history as int, 4096));
    assert(quot(y.continuation as int, 6144) <= quot(x.continuation as int, 6144));
}

/// An evaluation known to be uncertain reduces less, the sign of the correction aside, and so
/// does an unreliable table.
pub proof fn uncertainty_reduces_less(x: Reducing, y: Reducing, depth: int)
    requires
        x.wf(),
        depth >= 1,
        y == (Reducing { correction: y.correction, unreliable: y.unreliable, ..x }),
        x.unreliable ==> y.unreliable,
        ({
            let a = if x.correction < 0 {
                -x.correction
            } else {
                x.correction as int
            };
            let b = if y.correction < 0 {
                -y.correction
            } else {
                y.correction as int
            };
            a <= b
        }),
    ensures
        y.amount(depth) <= x.amount(depth),
{
    let a = if x.correction < 0 {
        -x.correction
    } else {
        x.correction as int
    };
    let b = if y.correction < 0 {
        -y.correction
    } else {
        y.correction as int
    };
    assert((a * 256) / 15185 <= (b * 256) / 15185);
}

// Singular moves

/// The limit for the alternatives lies below the table's value, three points per ply, moved
/// by no more than fifty-four by how reliable table moves are.
pub proof fn singular_limits_lie_below(s: Seen, n: Node)
    requires
        -8192 <= s.hist.tt_move_history <= 8192,
    ensures
        n.tt_value - 3 * n.depth - 54 <= singular_limit(s, n) <= n.tt_value - 3 * n.depth + 54,
        s.hist.tt_move_history >= 0 ==> singular_limit(s, n) >= n.tt_value - 3 * n.depth,
        s.hist.tt_move_history <= 0 ==> singular_limit(s, n) <= n.tt_value - 3 * n.depth,
{
}

/// The table's move is extended exactly where the alternatives stay below the limit, by one to
/// three plies, no less the further they fall; a node is cut only at its own beta; and where
/// other moves do as well it is not extended.
pub proof fn singular_moves_are_extended(
    n: Node,
    limit: int,
    score: Value,
    lower: Value,
    tt_capture: bool,
)
    requires
        n.depth >= 1,
        lower <= score,
    ensures
        singular_outcome(n, limit, score, tt_capture) is Extend <==> score < limit,
        singular_outcome(n, limit, score, tt_capture) matches Singular::Extend(e) ==> {
            &&& 1 <= e <= 3
            &&& singular_outcome(n, limit, lower, tt_capture) matches Singular::Extend(f) && e <= f
        },
        singular_outcome(n, limit, score, tt_capture) matches Singular::Cut(c) ==> c == score
            && score >= n.beta && score >= limit && !is_decisive(score),
        singular_outcome(n, limit, score, tt_capture) matches Singular::Reduce(e) ==> e <= 0,
        !(singular_outcome(n, limit, score, tt_capture) is Stopped),
{
}

/// A move that did better than expected is searched again near its full depth, never less
/// deep for doing better.
pub proof fn better_moves_are_searched_deeper(
    n: Node,
    m: Move,
    full: int,
    scouted: int,
    score: int,
    higher: int,
    best: Value,
)
    requires
        full >= 0,
        score <= higher,
    ensures
        full - 1 <= again_depth(n, m, full, scouted, score, best) <= full + 1,
        again_depth(n, m, full, scouted, score, best) >= 0,
        again_depth(n, m, full, scouted, score, best) <= again_depth(
            n,
            m,
            full,
            scouted,
            higher,
            best,
        ),
{
}

/// Below a node expected to cut all moves are expected to fail, below one expected to fail one
/// to cut; the first move on the principal variation stays on it.
pub proof fn expectations_alternate(n: Node)
    ensures
        n.node_type == NodeType::Cut ==> flipped(n) == NodeType::All && child_type(n)
            == NodeType::All,
        n.node_type == NodeType::All ==> flipped(n) == NodeType::Cut && child_type(n)
            == NodeType::Cut,
        n.node_type == NodeType::PV ==> child_type(n) == NodeType::PV && flipped(n)
            == NodeType::Cut,
{
}

// Results

/// A node below beta, or with a mate, has its best score; a fail high lies between beta and
/// the best score, the closer to it the deeper; with every move pruned it has alpha.
pub proof fn fail_highs_are_softened(n: Node, alpha: Value, best: Value)
    requires
        1 <= n.depth <= 1000,
    ensures
        best == -VALUE_INFINITE && n.alpha < n.beta ==> node_result(n, alpha, best) == n.alpha,
        best != -VALUE_INFINITE && best < n.beta ==> node_result(n, alpha, best) == best,
        best != -VALUE_INFINITE && is_decisive(best) ==> node_result(n, alpha, best) == best,
        best != -VALUE_INFINITE && best >= n.beta ==> n.beta <= node_result(n, alpha, best) <= best,
        best != -VALUE_INFINITE && best >= n.beta ==> best - node_result(n, alpha, best) <= (best
            - n.beta) / (n.depth + 1) + 1,
{
    if best != -VALUE_INFINITE && best >= n.beta {
        lemma_weighted(best as int, n.depth as int, n.beta as int);
    }
}

proof fn lemma_weighted(s: int, d: int, b: int)
    requires
        b <= s,
        1 <= d,
    ensures
        b <= quot(s * d + b, d + 1) <= s,
        s - quot(s * d + b, d + 1) <= (s - b) / (d + 1) + 1,
{
    let x = s * d + b;
    let k = d + 1;
    let g = s - b;
    assert(x == s * k - g) by (nonlinear_arith)
        requires
            x == s * d + b,
            k == d + 1,
            g == s - b,
    ;
    let q = g / k;
    let rest = g % k;
    assert(g == q * k + rest && 0 <= rest < k && q >= 0) by (nonlinear_arith)
        requires
            g >= 0,
            k >= 2,
            q == g / k,
            rest == g % k,
    ;
    if x >= 0 {
        assert(s - q - 1 <= x / k <= s) by (nonlinear_arith)
            requires
                x == s * k - (q * k + rest),
                0 <= rest < k,
                q >= 0,
                k >= 2,
        ;
        assert(b <= x / k) by (nonlinear_arith)
            requires
                x == s * k - g,
                g == s - b,
                g >= 0,
                k >= 2,
        ;
    } else {
        let y = -x;
        assert(-s <= y / k <= -s + q + 1) by (nonlinear_arith)
            requires
                y == -(s * k - (q * k + rest)),
                0 <= rest < k,
                q >= 0,
                k >= 2,
        ;
        assert(y / k <= -b) by (nonlinear_arith)
            requires
                y == -(s * k - g),
                g == s - b,
                g >= 0,
                k >= 2,
        ;
    }
}

/// The best score is no less than that of any move searched; alpha is the largest of them and
/// of what it was, and belongs to the move that raised it last.
pub proof fn the_best_move_raises_alpha(steps: Seq<Step>, n: int, floor: Value)
    requires
        0 <= n <= steps.len(),
    ensures
        ({
            let a = alpha_at(steps, n, floor);
            let x = raised_at(steps, n, floor);
            &&& a >= floor
            &&& forall|i: int|
                0 <= i < n && (#[trigger] steps[i]).reply is Some ==> steps[i].reply->0.score <= a
                    && steps[i].reply->0.score <= best_at(steps, n)
            &&& -1 <= x < n
            &&& x < 0 ==> a == floor
            &&& x >= 0 ==> steps[x].reply is Some && steps[x].reply->0.score == a && a > floor
        }),
    decreases n,
{
    if n > 0 {
        the_best_move_raises_alpha(steps, n - 1, floor);
    }
}

/// Quiescence comes to its floor or to the best move tried, whichever is more.
pub proof fn the_best_try_tops_the_floor(tries: Seq<Try>, n: int, floor: Value)
    requires
        0 <= n <= tries.len(),
    ensures
        top(tries, n, floor) >= floor,
        forall|i: int| 0 <= i < n ==> (#[trigger] tries[i]).score <= top(tries, n, floor),
        top(tries, n, floor) == floor || exists|i: int|
            0 <= i < n && (#[trigger] tries[i]).score == top(tries, n, floor),
    decreases n,
{
    if n > 0 {
        the_best_try_tops_the_floor(tries, n - 1, floor);
        assert(tries[n - 1].score <= top(tries, n, floor));
    }
}

/// Standing pat is the corrected evaluation unless a stored bound moves it its own way, and
/// never on the word of a mate score.
pub proof fn standing_pat_follows_the_bound(
    s: Seen,
    v: PosView,
    ply: usize,
    entry: Option<TTData>,
    raw: Value,
)
    ensures
        ({
            let own = s.corrected(v, ply, raw) as Value;
            let r = stand_pat(s, v, ply, entry, raw);
            &&& entry is None ==> r == own
            &&& r > own ==> entry is Some && entry->0.bound.has_lower() && !is_decisive(r)
            &&& r < own ==> entry is Some && entry->0.bound.has_upper() && !is_decisive(r)
        }),
{
}

/// Quiescence never leaves out a recapture, nor a capture that holds its material and gains
/// enough to come near alpha.
pub proof fn recaptures_are_never_poor(c: QuietCall, alpha: Value, floor: Value, m: Move)
    ensures
        m.to() == c.seen.last_square(c.ply) ==> !poor_capture(c, alpha, floor, m),
        c.v.see_value(m) >= 0 && floor + c.v.victim_value(m) + c.v.promotion_gain(m) + 200 >= alpha
            ==> !poor_capture(c, alpha, floor, m),
        m.to() != c.seen.last_square(c.ply) && c.v.see_value(m) < 0 ==> poor_capture(
            c,
            alpha,
            floor,
            m,
        ),
{
}

} // verus!
