//! The moves of a node one after the other: drawn from the picker, left out or searched,
//! until one reaches beta or none is left.

use vstd::prelude::*;

use crate::decisions::{bound_of, late_move_count, late_move_limit};
use crate::journal::{extends, Event};
use crate::legality::legal_test_is_exact;
use crate::lines::playable_line;
use crate::movegen::candidates;
use crate::movepick::{lemma_no_none, MovePicker};
use crate::moves::{canonical, canonical_code};
use crate::negamax::{
    lemma_mover, node_result, pruning, searched_move, weight, Node, Progress, Pruning, Tried,
};
use crate::params::{SE_MIN_DEPTH, SE_TT_DEPTH_SUB};
use crate::position::Position;
use crate::records::{moves_searched, noisy_table_move};
use crate::replies::{
    alpha_at, best_at, child_searched, count_at, known_at, last_reply, late_at, left_out,
    lemma_last_reply, lemma_late_more, lemma_one_more, lemma_raised, lemma_reached_more,
    lemma_steps_more, lemma_steps_on, lemma_steps_push, line_of, moves_outcome, much_as, multi_cut,
    node_at_step, node_record, node_step, node_stored, raised_at, reached, shallow, singled, skippable, tried_move, Step,
};
use crate::rules::PosView;
use crate::search::stores;
use crate::searcher::{terminal_value, Host, NodeType, Searcher, SCORE_LIMIT};
use crate::tt::{value_to_tt, Store};
use crate::types::{
    is_decisive, is_loss, Move, PieceType, MAX_PLY, VALUE_INFINITE, VALUE_NONE, Value,
};

verus! {

/// The picker can hand out moves of the position.
#[verifier::opaque]
pub open spec fn ready(picker: MovePicker, v: PosView) -> bool {
    picker.wf(v) && canonical(picker.tt_move)
}

/// The picker has still to hand out the move.
#[verifier::opaque]
pub open spec fn awaits(picker: MovePicker, v: PosView, m: Move) -> bool {
    picker.due(v, m)
}

/// The picker has handed out nothing and has the table's move.
pub open spec fn first(picker: MovePicker) -> bool {
    picker.stage is MainTT || picker.stage is EvasionTT
}

/// The picker after `m` was drawn from it.
pub open spec fn drew(asked: MovePicker, picker: MovePicker, v: PosView, m: Move) -> bool {
    &&& first(asked) ==> m == asked.tt_move
    &&& !first(picker)
    &&& picker.past(&asked)
    &&& candidates(v).contains(m)
    &&& awaits(asked, v, m) && !awaits(picker, v, m)
    &&& forall|x: Move| #[trigger] awaits(picker, v, x) ==> awaits(asked, v, x)
    &&& forall|x: Move|
        x != m && #[trigger] awaits(asked, v, x) && !asked.waived(v, x) ==> awaits(picker, v, x)
    &&& picker.skip_quiets == asked.skip_quiets
    &&& picker.tt_move == asked.tt_move
}

/// Draws the next move from the picker.
fn draw_move(picker: &mut MovePicker, pos: &Position, searcher: &Searcher) -> (r: Option<Move>)
    requires
        searcher.wf(),
        pos.wf(),
        ready(*old(picker), pos@),
    ensures
        ready(*final(picker), pos@),
        match r {
            Some(m) => drew(*old(picker), *final(picker), pos@, m),
            None => forall|x: Move| #[trigger]
                awaits(*old(picker), pos@, x) ==> old(picker).waived(pos@, x),
        },
{
    reveal(ready);
    reveal(awaits);
    picker.next(pos, searcher)
}

/// No quiet moves from here on.
fn skip_quiets(picker: &mut MovePicker, Ghost(v): Ghost<PosView>)
    requires
        ready(*old(picker), v),
    ensures
        ready(*final(picker), v),
        *final(picker) == (MovePicker { skip_quiets: true, ..*old(picker) }),
        final(picker).left() == old(picker).left(),
        forall|x: Move| #[trigger] awaits(*final(picker), v, x) == awaits(*old(picker), v, x),
{
    reveal(ready);
    reveal(awaits);
    picker.skip_quiet_moves();
}

/// No move is left behind: every one is to come, was reached or may be skipped. The table's
/// move comes first.
#[verifier::opaque]
pub open spec fn covers(
    picker: MovePicker,
    v: PosView,
    k: Node,
    depth: i32,
    steps: Seq<Step>,
) -> bool {
    &&& picker.tt_move == canonical_code(k.tt_move)
    &&& awaits(picker, v, picker.tt_move) ==> first(picker)
    &&& first(picker) ==> steps.len() == 0
    &&& picker.skip_quiets ==> exists|i: int| #[trigger] late_at(v, k, depth, steps, i)
    &&& forall|x: Move| #[trigger]
        v.legal(x) && x != k.excluded ==> awaits(picker, v, x) || reached(steps, x) || skippable(
            v,
            k,
            depth,
            steps,
            x,
        )
}

/// Every move was reached or may be skipped.
#[verifier::opaque]
pub open spec fn all_met(v: PosView, k: Node, depth: i32, steps: Seq<Step>) -> bool {
    forall|x: Move| #[trigger]
        v.legal(x) && x != k.excluded ==> reached(steps, x) || skippable(v, k, depth, steps, x)
}

/// A move that may not be made is passed over.
proof fn lemma_passed_over(
    asked: MovePicker,
    picker: MovePicker,
    v: PosView,
    k: Node,
    depth: i32,
    steps: Seq<Step>,
    m: Move,
)
    requires
        covers(asked, v, k, depth, steps),
        drew(asked, picker, v, m),
        m == k.excluded || !v.legal(m),
    ensures
        covers(picker, v, k, depth, steps),
{
    reveal(covers);
    assert forall|x: Move| #[trigger] v.legal(x) && x != k.excluded implies awaits(picker, v, x)
        || reached(steps, x) || skippable(v, k, depth, steps, x) by {
        if awaits(asked, v, x) && asked.waived(v, x) {
            assert(skippable(v, k, depth, steps, x));
        }
    }
}

/// Nothing is left once the picker is empty.
proof fn lemma_picked_all(asked: MovePicker, v: PosView, k: Node, depth: i32, steps: Seq<Step>)
    requires
        covers(asked, v, k, depth, steps),
        forall|x: Move| #[trigger] awaits(asked, v, x) ==> asked.waived(v, x),
    ensures
        all_met(v, k, depth, steps),
{
    reveal(covers);
    reveal(all_met);
    assert forall|x: Move| #[trigger] v.legal(x) && x != k.excluded implies reached(steps, x)
        || skippable(v, k, depth, steps, x) by {
        if awaits(asked, v, x) {
            assert(skippable(v, k, depth, steps, x));
        }
    }
}

/// The table's move is drawn first.
proof fn lemma_table_first(
    asked: MovePicker,
    picker: MovePicker,
    v: PosView,
    k: Node,
    depth: i32,
    steps: Seq<Step>,
    m: Move,
)
    requires
        covers(asked, v, k, depth, steps),
        drew(asked, picker, v, m),
        m == canonical_code(k.tt_move),
    ensures
        steps.len() == 0,
{
    reveal(covers);
}

/// The moves reached so far are accounted for, and they give the best score, alpha, the move
/// that raised it and the line.
#[verifier::opaque]
pub open spec fn accounted_so_far(
    a: Searcher,
    p: Progress,
    k: Node,
    from: int,
    v: PosView,
    steps: Seq<Step>,
) -> bool {
    let n = steps.len() as int;
    let x = raised_at(steps, n, k.alpha);
    &&& forall|i: int|
        0 <= i < n ==> #[trigger] node_step(a.journal@, from, v, k, p.k.depth, steps, i)
    &&& p.k.depth == (if n > 0 {
        steps[0].depth
    } else {
        k.depth
    })
    &&& p.best == best_at(steps, n)
    &&& p.k.alpha == alpha_at(steps, n, k.alpha)
    &&& p.raising == (if x >= 0 {
        steps[x].m
    } else {
        Move(0)
    })
    &&& line_of(a.journal@, k, steps, a.lines@[k.ply as int]@)
    &&& n > 0 ==> steps[0].reply is Some
    &&& n > 0 && !p.done ==> much_as(a.seen(), known_at(a.journal@, steps, n), k.ply)
}

/// What is accounted for stays so when the node is done.
proof fn lemma_done(a: Searcher, p: Progress, k: Node, from: int, v: PosView, steps: Seq<Step>)
    requires
        accounted_so_far(a, p, k, from, v, steps),
    ensures
        accounted_so_far(a, Progress { done: true, ..p }, k, from, v, steps),
{
    reveal(accounted_so_far);
}

/// A move that is left out for its shallow depth is accounted for.
proof fn lemma_pruned_step(
    a: Searcher,
    before: Progress,
    after: Progress,
    k: Node,
    from: int,
    v: PosView,
    steps: Seq<Step>,
    s: Step,
)
    requires
        0 <= from,
        accounted_so_far(a, before, k, from, v, steps),
        before.k == (Node { alpha: before.k.alpha, depth: before.k.depth, ..k }),
        !before.done,
        v.legal(s.m),
        s.m != k.excluded,
        s.reply is None,
        s.depth == before.k.depth,
        k.node_type != NodeType::PV,
        !is_loss(before.best),
        match shallow(v, before.k, a.hist, s.m) {
            Pruning::Search => false,
            Pruning::Skip => s.futile is None,
            Pruning::Futile(f) => s.futile == Some(f),
        },
        after == (Progress { best: after.best, ..before }),
        after.best == (match s.futile {
            Some(f) => if before.best <= f && !is_decisive(before.best) {
                f
            } else {
                before.best
            },
            None => before.best,
        }),
    ensures
        accounted_so_far(a, after, k, from, v, steps.push(s)),
        steps.len() > 0,
        before.best == best_at(steps, steps.len() as int),
{
    reveal(accounted_so_far);
    let n = steps.len() as int;
    let t = steps.push(s);
    let log = a.journal@;
    assert(n > 0);
    lemma_last_reply(steps, n);
    lemma_one_more(steps, s, k.alpha);
    lemma_raised(steps, n, k.alpha);
    lemma_steps_push(steps, s, n, k.alpha);
    let y = last_reply(steps, n);
    assert(t[y] == steps[y]);
    assert(known_at(log, t, n) == known_at(log, steps, n));
    assert(node_at_step(k, before.k.depth, t, n) == before.k);
    assert(t[n] == s);
    assert(left_out(v, before.k, count_at(n), best_at(t, n), known_at(log, t, n), s));
    assert(node_step(log, from, v, k, before.k.depth, t, n));
    lemma_steps_more(log, log, from, v, k, before.k.depth, steps, s);
    let x = raised_at(steps, n, k.alpha);
    if x >= 0 {
        assert(t[x] == steps[x]);
    }
    assert(t[0] == steps[0]);
    assert(t[last_reply(t, n + 1)] == steps[y]);
}

/// A move that was searched, or left out after it was made, is accounted for.
#[verifier::rlimit(40)]
proof fn lemma_visited_step(
    a: Searcher,
    b: Searcher,
    before: Progress,
    after: Progress,
    k: Node,
    from: int,
    v: PosView,
    steps: Seq<Step>,
    c: Tried,
    s: Step,
)
    requires
        0 <= from,
        extends(a.journal@, b.journal@),
        accounted_so_far(a, before, k, from, v, steps),
        before.k == (Node { alpha: before.k.alpha, depth: before.k.depth, ..k }),
        before.k.beta == k.beta,
        !before.done,
        after.follows(before),
        v.legal(c.m),
        c.m != k.excluded,
        c == tried_move(v, c.m, c.count as int),
        c.count == count_at(steps.len() as int),
        searched_move(a, b, from, v, before, after, c, s),
        k.node_type == NodeType::PV || is_loss(before.best) || !v.has_pieces(v.stm) || pruning(
            a.hist,
            v,
            before.k,
            c.m,
            c.captured,
            c.gives_check,
            before.best_move.0 == 0,
        ) == Pruning::Search,
        before.best_move.0 == 0 ==> before.best == -VALUE_INFINITE,
    ensures
        accounted_so_far(b, after, k, from, v, steps.push(s)),
        steps.len() > 0 ==> after.k.depth == before.k.depth,
        steps.len() == 0 ==> is_loss(before.best),
        before.best == best_at(steps, steps.len() as int),
        after.best_move.0 == 0 ==> after.best == -VALUE_INFINITE,
        after.done ==> after.k.alpha >= k.beta,
        s.m == c.m,
{
    reveal(child_searched);
    reveal(accounted_so_far);
    reveal(searched_move);
    let n = steps.len() as int;
    let t = steps.push(s);
    let la = a.journal@;
    let lb = b.journal@;
    lemma_last_reply(steps, n);
    lemma_one_more(steps, s, k.alpha);
    lemma_raised(steps, n, k.alpha);
    lemma_steps_push(steps, s, n, k.alpha);
    let y = last_reply(steps, n);
    assert(t[n] == s);
    assert(n > 0 ==> t[0] == steps[0]);
    if n == 0 {
        assert(c.count == 1);
        assert(node_at_step(k, after.k.depth, t, n) == before.k);
    } else {
        assert(c.count != 1);
        assert(node_at_step(k, after.k.depth, t, n) == before.k);
        assert(node_step(la, from, v, k, before.k.depth, steps, y));
        assert(t[y] == steps[y]);
        assert(lb[steps[y].reply->Some_0.at] == la[steps[y].reply->Some_0.at]);
        assert(known_at(lb, t, n) == known_at(la, steps, n));
    }
    if s.reply is None {
        assert(shallow(v, before.k, known_at(lb, t, n).hist, s.m) == Pruning::Search);
        assert(left_out(v, before.k, count_at(n), best_at(t, n), known_at(lb, t, n), s));
    }
    assert(node_step(lb, from, v, k, after.k.depth, t, n));
    lemma_steps_more(la, lb, from, v, k, after.k.depth, steps, s);
    let x = raised_at(steps, n, k.alpha);
    if x >= 0 {
        assert(node_step(la, from, v, k, before.k.depth, steps, x));
        assert(t[x] == steps[x]);
        assert(lb[steps[x].reply->Some_0.at] == la[steps[x].reply->Some_0.at]);
    }
    assert(line_of(lb, k, t, b.lines@[k.ply as int]@));
}

/// The first move of a node finds it as it was.
proof fn lemma_first_step(
    a: Searcher,
    p: Progress,
    k: Node,
    from: int,
    v: PosView,
    steps: Seq<Step>,
)
    requires
        accounted_so_far(a, p, k, from, v, steps),
        p.k == (Node { alpha: p.k.alpha, depth: p.k.depth, ..k }),
        steps.len() == 0,
    ensures
        p.k == k,
{
    reveal(accounted_so_far);
}

/// One more move reached leaves no move behind.
proof fn lemma_covered(
    v: PosView,
    k: Node,
    before: i32,
    depth: i32,
    steps: Seq<Step>,
    s: Step,
    asked: MovePicker,
    drawn: MovePicker,
    picker: MovePicker,
)
    requires
        covers(asked, v, k, before, steps),
        steps.len() > 0 ==> before == depth,
        drew(asked, drawn, v, s.m),
        forall|x: Move| #[trigger] awaits(picker, v, x) == awaits(drawn, v, x),
        picker == (MovePicker { skip_quiets: picker.skip_quiets, ..drawn }),
        drawn.skip_quiets ==> picker.skip_quiets,
        picker.skip_quiets && !drawn.skip_quiets ==> {
            &&& steps.len() > 0
            &&& k.node_type != NodeType::PV && v.has_pieces(v.stm)
            &&& !is_loss(best_at(steps, steps.len() as int))
            &&& count_at(steps.len() as int) > late_move_limit(depth as int, k.improving)
        },
    ensures
        covers(picker, v, k, depth, steps.push(s)),
{
    reveal(covers);
    let t = steps.push(s);
    lemma_reached_more(steps, s);
    lemma_steps_push(steps, s, steps.len() as int, k.alpha);
    if picker.skip_quiets && !drawn.skip_quiets {
        assert(late_at(v, k, depth, t, steps.len() as int));
    }
    if exists|i: int| #[trigger] late_at(v, k, before, steps, i) {
        let i = choose|i: int| #[trigger] late_at(v, k, before, steps, i);
        lemma_late_more(v, k, depth, steps, s, i);
    }
    assert forall|x: Move| #[trigger] v.legal(x) && x != k.excluded implies awaits(picker, v, x)
        || reached(t, x) || skippable(v, k, depth, t, x) by {
        if awaits(asked, v, x) && x != s.m {
            if asked.waived(v, x) {
                assert(skippable(v, k, depth, t, x));
            } else {
                assert(awaits(drawn, v, x));
            }
        }
    }
}

/// A node without a move comes to what the rules say, or to alpha where a move was left out.
proof fn lemma_no_moves(
    a: Searcher,
    p: Progress,
    k: Node,
    from: int,
    v: PosView,
    steps: Seq<Step>,
    r: Value,
)
    requires
        accounted_so_far(a, p, k, from, v, steps),
        steps.len() == 0,
        k.alpha < k.beta,
        p.k.alpha < k.beta ==> all_met(v, k, p.k.depth, steps),
        r == (if k.excluded.0 != 0 {
            k.alpha
        } else {
            v.terminal_score(k.ply)
        }),
    ensures
        moves_searched(a.journal@, from, v, k, r, a.lines@[k.ply as int]@),
        p.k.alpha == k.alpha,
        r > k.alpha ==> forall|m: Move| !#[trigger] v.legal(m),
{
    reveal(accounted_so_far);
    reveal(all_met);
    reveal(moves_searched);
    lemma_no_none(v);
    assert(moves_outcome(
        a.journal@,
        from,
        v,
        k,
        steps,
        p.k.depth,
        r,
        a.lines@[k.ply as int]@,
    ));
    if r > k.alpha {
        assert forall|m: Move| !#[trigger] v.legal(m) by {
            if v.legal(m) && m != k.excluded {
                assert(reached(steps, m) || skippable(v, k, p.k.depth, steps, m));
            }
        }
    }
}

/// A node whose moves are accounted for is so once its result is stored; on the principal
/// variation a score above alpha comes with a line.
proof fn lemma_moves_told(
    mid: Searcher,
    a: Searcher,
    p: Progress,
    k: Node,
    from: int,
    v: PosView,
    steps: Seq<Step>,
    s: Store,
    r: Value,
)
    requires
        accounted_so_far(mid, p, k, from, v, steps),
        steps.len() > 0,
        0 <= from,
        extends(mid.journal@, a.journal@),
        a.lines == mid.lines,
        p.best <= p.k.alpha,
        k.alpha < k.beta,
        p.k.alpha < k.beta ==> all_met(v, k, p.k.depth, steps),
        r == node_result(Node { depth: p.k.depth, ..k }, p.k.alpha, p.best),
        k.excluded.0 == 0 ==> stores(mid.journal@, a.journal@, k.key, s),
        s.depth == p.k.depth,
        s.bound == bound_of(r, k.alpha, k.beta),
        k.tt_pv ==> s.is_pv,
        r > k.alpha ==> s.is_pv == k.tt_pv,
        s.score == value_to_tt(r, k.ply),
        s.eval == k.raw_eval,
        s.mv == p.raising,
    ensures
        moves_searched(a.journal@, from, v, k, r, a.lines@[k.ply as int]@),
        k.node_type == NodeType::PV && r > k.alpha ==> a.lines@[k.ply as int]@.len() > 0,
{
    reveal(child_searched);
    reveal(accounted_so_far);
    reveal(all_met);
    reveal(moves_searched);
    let depth = p.k.depth;
    let log = mid.journal@;
    let n = steps.len() as int;
    let x = raised_at(steps, n, k.alpha);
    lemma_raised(steps, n, k.alpha);
    if x >= 0 {
        assert(node_step(log, from, v, k, depth, steps, x));
    }
    lemma_steps_on(log, a.journal@, from, from, v, k, depth, steps);
    if k.excluded.0 == 0 {
        assert(node_record(k, depth, steps, r, s));
        assert(node_stored(a.journal@, k, depth, steps, r));
    }
    assert(line_of(a.journal@, k, steps, a.lines@[k.ply as int]@));
    assert(moves_outcome(a.journal@, from, v, k, steps, depth, r, a.lines@[k.ply as int]@));
}

/// A node that is cut without its table move has its moves searched as far as it takes.
proof fn lemma_cut_short(
    log: Seq<Event>,
    from: int,
    v: PosView,
    k: Node,
    r: Value,
    line: Seq<Move>,
)
    requires
        multi_cut(log, from, k, v, r),
    ensures
        moves_searched(log, from, v, k, r, line),
{
    reveal(moves_searched);
}

impl Searcher {
    /// A node in the middle of its moves.
    pub open spec fn progressing(&self, p: Progress, n: Node, v: PosView) -> bool {
        &&& p.ok(v)
        &&& p.k == (Node { alpha: p.k.alpha, depth: p.k.depth, ..n })
        &&& p.best <= p.k.alpha
        &&& p.best_move.0 == 0 ==> p.best == -VALUE_INFINITE
        &&& !p.done ==> p.k.alpha < p.k.beta
    }

    /// What shallow-depth pruning does with a move; a futile one stands for what the position is
    /// worth at most with it, and once enough moves have been seen no quiet ones follow.
    fn weigh(
        &self,
        pos: &Position,
        p: &mut Progress,
        picker: &mut MovePicker,
        m: Move,
        count: usize,
        captured: Option<PieceType>,
        gives_check: bool,
    ) -> (r: Pruning)
        requires
            self.wf(),
            pos.wf(),
            pos@.pseudo(m),
            old(p).k.ok(pos@),
            ready(*old(picker), pos@),
        ensures
            *final(p) == (Progress { best: final(p).best, ..*old(p) }),
            r == (if old(p).k.node_type == NodeType::PV || !pos@.has_pieces(pos@.stm) || is_loss(
                old(p).best,
            ) {
                Pruning::Search
            } else {
                pruning(
                    self.hist,
                    pos@,
                    old(p).k,
                    m,
                    captured,
                    gives_check,
                    old(p).best_move.0 == 0,
                )
            }),
            final(p).best == (match r {
                Pruning::Futile(f) => if old(p).best <= f && !is_decisive(old(p).best) {
                    f
                } else {
                    old(p).best
                },
                _ => old(p).best,
            }),
            r matches Pruning::Futile(f) ==> f <= old(p).k.alpha,
            ready(*final(picker), pos@),
            *final(picker) == (MovePicker { skip_quiets: final(picker).skip_quiets, ..*old(picker) }),
            final(picker).left() == old(picker).left(),
            forall|x: Move| #[trigger]
                awaits(*final(picker), pos@, x) == awaits(*old(picker), pos@, x),
            old(picker).skip_quiets ==> final(picker).skip_quiets,
            final(picker).skip_quiets && !old(picker).skip_quiets ==> {
                &&& old(p).k.node_type != NodeType::PV && pos@.has_pieces(pos@.stm)
                &&& !is_loss(old(p).best)
                &&& count > late_move_limit(old(p).k.depth as int, old(p).k.improving)
            },
    {
        if p.k.node_type == NodeType::PV || !pos.has_non_pawn_material(pos.side_to_move())
            || is_loss(p.best) {
            return Pruning::Search;
        }
        if count > late_move_count(p.k.depth, p.k.improving) {
            skip_quiets(picker, Ghost(pos@));
        }
        let pruning = self.shallow_pruning(
            pos,
            &p.k,
            m,
            captured,
            gives_check,
            p.best_move.is_none(),
        );
        if let Pruning::Futile(futility) = pruning {
            if p.best <= futility && !is_decisive(p.best) {
                p.best = futility;
            }
        }
        pruning
    }

    /// Leaves a legal move out or searches it. `Some` where the node ends at once with that
    /// score.
    #[verifier::rlimit(100)]
    #[verifier::spinoff_prover]
    fn consider<H: Host>(
        &mut self,
        host: &mut H,
        pos: &mut Position,
        n: &Node,
        p: &mut Progress,
        picker: &mut MovePicker,
        m: Move,
        count: usize,
        eligible: bool,
        tt_capture: bool,
        Ghost(from): Ghost<int>,
        Ghost(steps): Ghost<Seq<Step>>,
        Ghost(asked): Ghost<MovePicker>,
    ) -> (r: (Option<Value>, Ghost<Step>))
        requires
            old(self).wf(),
            old(pos).wf(),
            n.ok(old(pos)@),
            n.depth <= 129,
            old(pos)@.searchable(n.ply as int),
            old(self).progressing(*old(p), *n, old(pos)@),
            !old(p).done,
            ready(*old(picker), old(pos)@),
            drew(asked, *old(picker), old(pos)@, m),
            covers(asked, old(pos)@, *n, old(p).k.depth, steps),
            old(pos)@.legal(m),
            m != n.excluded,
            count == count_at(steps.len() as int),
            eligible == singled(*n, old(self).seek_mate),
            tt_capture == noisy_table_move(*n, old(pos)@),
            playable_line(old(pos)@, old(self).lines@[n.ply as int]@),
            0 <= from <= old(self).journal@.len(),
            accounted_so_far(*old(self), *old(p), *n, from, old(pos)@, steps),
        ensures
            final(self).stack_kept(old(self), n.ply as int),
            final(self).kept(old(self), n.ply as int),
            playable_line(old(pos)@, final(self).lines@[n.ply as int]@),
            final(pos).wf(),
            final(pos)@ == old(pos)@,
            final(pos).keys == old(pos).keys,
            r.0 matches Some(x) ==> -SCORE_LIMIT <= x <= SCORE_LIMIT && (!final(self).stopped
                ==> moves_searched(
                final(self).journal@,
                from,
                old(pos)@,
                *n,
                x,
                final(self).lines@[n.ply as int]@,
            )),
            r.0 is Some && !final(self).stopped ==> n.node_type != NodeType::PV,
            r.0 is None ==> {
                &&& final(self).progressing(*final(p), *n, old(pos)@)
                &&& accounted_so_far(
                    *final(self),
                    *final(p),
                    *n,
                    from,
                    old(pos)@,
                    steps.push(r.1@),
                )
                &&& covers(*final(picker), old(pos)@, *n, final(p).k.depth, steps.push(r.1@))
                &&& final(p).done ==> final(p).k.alpha >= n.beta
            },
            ready(*final(picker), old(pos)@),
            final(picker).stage == old(picker).stage,
            final(picker).left() == old(picker).left(),
        decreases MAX_PLY - n.ply, weight(n.excluded, false) + 6,
    {
        let ghost v = pos@;
        let ghost drawn = *picker;
        let ghost before = *p;
        let ghost started = *self;
        proof {
            lemma_no_none(v);
            lemma_mover(v, m);
        }
        let captured = pos.captured_type(m);
        let gives_check = pos.gives_check(m);
        // Shallow-depth pruning
        let pruning = self.weigh(pos, p, picker, m, count, captured, gives_check);
        if pruning != Pruning::Search {
            let ghost s = Step {
                m,
                depth: p.k.depth,
                extension: 0,
                scout: 0,
                reply: None,
                futile: match pruning {
                    Pruning::Futile(f) => Some(f),
                    _ => None,
                },
                seen: self.seen(),
            };
            proof {
                lemma_pruned_step(*self, before, *p, *n, from, v, steps, s);
                lemma_covered(v, *n, p.k.depth, p.k.depth, steps, s, asked, drawn, *picker);
            }
            return (None, Ghost(s));
        }
        let c = Tried {
            us: pos.side_to_move(),
            m,
            pc: pos.moved_piece(m),
            captured,
            gives_check,
            pawn_key: pos.pawn_key(),
            count,
        };
        let single = eligible && m == canonical_code(n.tt_move);
        proof {
            if single {
                lemma_table_first(asked, drawn, v, *n, p.k.depth, steps, m);
            }
            if steps.len() == 0 {
                lemma_first_step(*self, *p, *n, from, v, steps);
            }
        }
        let (ended, Ghost(s)) = self.visit(
            host,
            pos,
            p,
            &c,
            single,
            tt_capture,
            Ghost(from),
        );
        proof {
            if ended is None {
                lemma_visited_step(started, *self, before, *p, *n, from, v, steps, c, s);
                lemma_covered(
                    v,
                    *n,
                    before.k.depth,
                    p.k.depth,
                    steps,
                    s,
                    asked,
                    drawn,
                    *picker,
                );
            }
            if ended is Some && !self.stopped {
                lemma_cut_short(
                    self.journal@,
                    from,
                    v,
                    *n,
                    ended->0,
                    self.lines@[n.ply as int]@,
                );
            }
        }
        (ended, Ghost(s))
    }

    /// Searches the moves of a node, stores the result and learns from it. Without a legal
    /// move the game is over.
    #[verifier::rlimit(100)]
    #[verifier::spinoff_prover]
    pub(crate) fn search_moves<H: Host>(
        &mut self,
        host: &mut H,
        pos: &mut Position,
        n: &Node,
        tt_capture: bool,
    ) -> (r: Value)
        requires
            old(self).wf(),
            old(pos).wf(),
            n.ok(old(pos)@),
            n.depth <= 129,
            old(pos)@.searchable(n.ply as int),
            playable_line(old(pos)@, old(self).lines@[n.ply as int]@),
            n.node_type == NodeType::PV ==> old(self).lines@[n.ply as int]@.len() == 0,
            tt_capture == noisy_table_move(*n, old(pos)@),
        ensures
            final(self).stack_kept(old(self), n.ply as int),
            final(self).kept(old(self), n.ply as int),
            playable_line(old(pos)@, final(self).lines@[n.ply as int]@),
            final(pos).wf(),
            final(pos)@ == old(pos)@,
            final(pos).keys == old(pos).keys,
            -SCORE_LIMIT <= r <= SCORE_LIMIT,
            n.excluded.0 == 0 && (forall|m: Move| !old(pos)@.legal(m)) ==> r
                == old(pos)@.terminal_score(n.ply),
            (forall|m: Move| !#[trigger] old(pos)@.legal(m)) ==> final(self).nodes == old(self).nodes,
            !final(self).stopped ==> moves_searched(
                final(self).journal@,
                old(self).journal@.len() as int,
                old(pos)@,
                *n,
                r,
                final(self).lines@[n.ply as int]@,
            ),
            n.node_type == NodeType::PV && !final(self).stopped && (exists|m: Move|
                old(pos)@.legal(m)) && r > n.alpha ==> final(self).lines@[n.ply as int]@.len() > 0,
        decreases MAX_PLY - n.ply, weight(n.excluded, false) + 7,
    {
        let ghost v = pos@;
        let ghost o = *self;
        let ply = n.ply;
        let is_pv = n.node_type == NodeType::PV;
        // Singular-extension eligibility, used when the table's move is reached.
        let eligible = n.depth >= SE_MIN_DEPTH && !n.in_check && n.tt_move.is_some()
            && !self.seek_mate && n.tt_hit && n.tt_bound.has_lower() && n.tt_depth >= n.depth
            - SE_TT_DEPTH_SUB && n.tt_value != VALUE_NONE && !is_decisive(n.tt_value) && !is_pv
            && n.excluded.is_none() && n.depth >= SE_MIN_DEPTH + (if n.tt_pv {
            1
        } else {
            0
        });
        let tt_move = canonical_code(n.tt_move);
        let mut picker = MovePicker::new(tt_move, ply, n.depth, self, pos);
        proof {
            reveal(ready);
            reveal(awaits);
            lemma_no_none(v);
            reveal(covers);
            assert forall|x: Move| #[trigger] v.legal(x) implies awaits(picker, v, x) by {
                legal_test_is_exact(v, x);
            }
        }
        let mut p = Progress {
            k: *n,
            best: -VALUE_INFINITE,
            best_move: Move::none(),
            raising: Move::none(),
            quiets: Vec::new(),
            captures: Vec::new(),
            done: false,
        };
        let mut count: usize = 0;
        let ghost from = self.journal@.len() as int;
        let ghost mut steps: Seq<Step> = Seq::empty();
        proof {
            reveal(accounted_so_far);
        }
        while !p.done
            invariant
                v == pos@,
                v == old(pos)@,
                o == *old(self),
                pos.wf(),
                pos.keys == old(pos).keys,
                v.searchable(ply as int),
                n.ok(v),
                n.depth <= 129,
                ply == n.ply,
                is_pv == (n.node_type == NodeType::PV),
                eligible == singled(*n, o.seek_mate),
                tt_capture == noisy_table_move(*n, v),
                self.progressing(p, *n, v),
                ready(picker, v),
                self.kept(&o, ply as int),
                self.stack_kept(&o, ply as int),
                playable_line(v, self.lines@[ply as int]@),
                (forall|m: Move| !v.legal(m)) ==> count == 0,
                count == (if steps.len() < 0xFFFF {
                    steps.len() as int
                } else {
                    0xFFFF
                }),
                count == 0 ==> self.nodes == o.nodes,
                from == o.journal@.len(),
                accounted_so_far(*self, p, *n, from, v, steps),
                !p.done ==> covers(picker, v, *n, p.k.depth, steps),
                p.done && p.k.alpha < n.beta ==> all_met(v, *n, p.k.depth, steps),
            decreases
                    (if p.done {
                        0int
                    } else {
                        1
                    }),
                    picker.stage.rank(),
                    picker.left(),
        {
            let ghost asked = picker;
            let ghost before = p;
            let m = match draw_move(&mut picker, pos, self) {
                Some(m) => m,
                None => {
                    proof {
                        lemma_picked_all(asked, v, *n, p.k.depth, steps);
                        lemma_done(*self, p, *n, from, v, steps);
                    }
                    p.done = true;
                    continue ;
                },
            };
            proof {
                legal_test_is_exact(v, m);
            }
            if m == n.excluded || !pos.legal(m) {
                proof {
                    lemma_passed_over(asked, picker, v, *n, p.k.depth, steps, m);
                }
                continue ;
            }
            // Counted before pruning: a node whose every move is pruned must not read as
            // mate or stalemate.
            if count < 0xFFFF {
                count += 1;
            }
            let (ended, Ghost(s)) = self.consider(
                host,
                pos,
                n,
                &mut p,
                &mut picker,
                m,
                count,
                eligible,
                tt_capture,
                Ghost(from),
                Ghost(steps),
                Ghost(asked),
            );
            if let Some(x) = ended {
                return x;
            }
            proof {
                steps = steps.push(s);
            }
        }
        let ghost told = p;
        if count == 0 {
            proof {
                let r = if n.excluded.0 != 0 {
                    n.alpha
                } else {
                    v.terminal_score(ply)
                };
                lemma_no_moves(*self, p, *n, from, v, steps, r);
            }
            if n.excluded.is_some() {
                return p.k.alpha;
            }
            return terminal_value(pos, ply);
        }
        let alpha = p.k.alpha;
        p.k.alpha = n.alpha;
        let ghost mid = *self;
        let r = self.finish_node(host, pos, &p.k, alpha, p.best, p.best_move, p.raising);
        proof {
            assert(p.k == Node { depth: told.k.depth, ..*n });
            let s = Store {
                depth: told.k.depth,
                bound: bound_of(r, n.alpha, n.beta),
                is_pv: n.tt_pv || (r <= n.alpha && mid.stack@[ply - 1].tt_pv),
                score: value_to_tt(r, ply),
                eval: n.raw_eval,
                mv: told.raising,
            };
            lemma_moves_told(mid, *self, told, *n, from, v, steps, s, r);
        }
        r
    }
}

} // verus!
