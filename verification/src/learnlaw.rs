//! Which way the search learns: bonuses pull towards themselves, cutoffs credit the move and
//! blame the others, and observations move the corrections their own way.

use vstd::prelude::*;

use crate::arith::quot;
use crate::history::{
    applied_bonus, blended, correction_index, gravity_value, history_bonus, history_ok, main_index,
    reliability_after, Histories, Lore,
};
use crate::journal::Seen;
use crate::learning::{
    captures_debited, corrected, corrects, cutoff_learned, previous_credited, quiets_debited,
    table_noted,
};
use crate::moves::canonical_code;
use crate::negamax::{Node, Tried};
use crate::params::HISTORY_MAX;
use crate::rules::PosView;
use crate::searcher::{correction, NodeType};
use crate::types::{Bound, Move, PieceType, Value};

verus! {

// One entry

/// A bonus never lowers an entry and a malus never raises it; nothing leaves it alone, from
/// nothing it is taken whole, and a full one takes the entry to the end of its range.
pub proof fn bonuses_pull_their_own_way(entry: int, bonus: int)
    requires
        -HISTORY_MAX <= entry <= HISTORY_MAX,
    ensures
        bonus >= 0 && entry >= 0 ==> gravity_value(entry, bonus) <= entry + bonus,
        bonus >= 0 ==> entry <= gravity_value(entry, bonus) <= HISTORY_MAX,
        bonus <= 0 ==> -HISTORY_MAX <= gravity_value(entry, bonus) <= entry,
        bonus == 0 ==> gravity_value(entry, bonus) == entry,
        -HISTORY_MAX <= bonus <= HISTORY_MAX ==> gravity_value(0, bonus) == bonus,
        bonus >= HISTORY_MAX ==> gravity_value(entry, bonus) == HISTORY_MAX,
        bonus <= -HISTORY_MAX ==> gravity_value(entry, bonus) == -HISTORY_MAX,
        gravity_value(-entry, -bonus) == -gravity_value(entry, bonus),
{
    crate::history::gravity_is_bounded(entry, bonus);
    let b = applied_bonus(bonus);
    let a = if b < 0 {
        -b
    } else {
        b
    };
    let x = entry * a;
    assert((-entry) * a == -x) by (nonlinear_arith)
        requires
            x == entry * a,
    ;
    assert(0 * a == 0);
    if entry >= 0 {
        assert(0 <= x <= 16384 * a) by (nonlinear_arith)
            requires
                0 <= entry <= 16384,
                0 <= a,
                x == entry * a,
        ;
    } else {
        assert(-16384 * a <= x <= 0) by (nonlinear_arith)
            requires
                -16384 <= entry <= 0,
                0 <= a,
                x == entry * a,
        ;
    }
    if a == 16384 {
        assert(x == entry * 16384);
    }
    if a == 0 {
        assert(x == 0) by (nonlinear_arith)
            requires
                a == 0,
                x == entry * a,
        ;
    }
}

/// A deeper cutoff earns no less, and every cutoff something, up to the cap.
pub proof fn deeper_cutoffs_earn_more(a: i32, b: i32)
    requires
        1 <= a <= b <= 1_000_000,
    ensures
        0 < history_bonus(a) <= history_bonus(b) <= 1536,
        b <= 5 && a < b ==> history_bonus(a) + 300 <= history_bonus(b),
{
}

/// A table move that proved best makes the table's moves no less reliable, another no more.
pub proof fn reliability_follows_the_table(h: int, delta: int)
    requires
        -8192 <= h <= 8192,
        -8192 <= delta <= 8192,
    ensures
        delta >= 0 ==> h <= reliability_after(h, delta) <= 8192,
        delta <= 0 ==> -8192 <= reliability_after(h, delta) <= h,
        reliability_after(0, delta) == delta,
{
    let a = if delta < 0 {
        -delta
    } else {
        delta
    };
    let x = h * a;
    assert(-8192 * a <= x <= 8192 * a) by (nonlinear_arith)
        requires
            -8192 <= h <= 8192,
            0 <= a,
            x == h * a,
    ;
    assert(h + a - x / 8192 <= 8192 && h - a - x / 8192 >= -8192) by (nonlinear_arith)
        requires
            -8192 <= h <= 8192,
            0 <= a <= 8192,
            x == h * a,
    ;
    assert(0 * a == 0);
}

/// Off the principal variation the table's move being best speaks for the table, another
/// being best against it.
pub proof fn tables_earn_their_trust(l: Lore, n: Node, best: Move)
    requires
        -8192 <= l.tt_move_history <= 8192,
        best.0 != 0,
    ensures
        best == canonical_code(n.tt_move) ==> table_noted(l, n, best).tt_move_history
            >= l.tt_move_history,
        best != canonical_code(n.tt_move) ==> table_noted(l, n, best).tt_move_history
            <= l.tt_move_history,
        n.node_type == NodeType::PV ==> table_noted(l, n, best) == l,
{
    reliability_follows_the_table(l.tt_move_history as int, 809);
    reliability_follows_the_table(l.tt_move_history as int, -865);
}

// Cutoffs

proof fn lemma_debited_main(
    l: Lore,
    s: Seen,
    v: PosView,
    n: Node,
    c: Tried,
    quiets: Seq<Move>,
    i: int,
)
    requires
        history_ok(l.main, l.main.len() as int),
        0 <= i < l.main.len(),
        1 <= n.depth <= 1_000_000,
        forall|k: int|
            0 <= k < quiets.len() ==> main_index(c.us, (#[trigger] quiets[k]).from_to())
                < l.main.len(),
    ensures
        ({
            let r = quiets_debited(l, s, v, n, c, quiets);
            &&& r.main.len() == l.main.len()
            &&& history_ok(r.main, l.main.len() as int)
            &&& r.main[i] <= l.main[i]
            &&& (forall|k: int|
                0 <= k < quiets.len() && quiets[k] != c.m ==> main_index(
                    c.us,
                    (#[trigger] quiets[k]).from_to(),
                ) != i) ==> r.main[i] == l.main[i]
        }),
    decreases quiets.len(),
{
    if quiets.len() > 0 {
        let rest = quiets.drop_last();
        assert forall|k: int| 0 <= k < rest.len() implies main_index(
            c.us,
            (#[trigger] rest[k]).from_to(),
        ) < l.main.len() by {
            assert(rest[k] == quiets[k]);
        }
        lemma_debited_main(l, s, v, n, c, rest, i);
        let r = quiets_debited(l, s, v, n, c, rest);
        let q = quiets.last();
        assert(q == quiets[quiets.len() - 1]);
        let at = main_index(c.us, q.from_to()) as int;
        let bonus = history_bonus(n.depth) as int;
        assert(-HISTORY_MAX <= r.main[at] <= HISTORY_MAX);
        deeper_cutoffs_earn_more(n.depth, n.depth);
        bonuses_pull_their_own_way(r.main[at] as int, -bonus);
        if forall|k: int|
            0 <= k < quiets.len() && quiets[k] != c.m ==> main_index(
                c.us,
                (#[trigger] quiets[k]).from_to(),
            ) != i {
            assert forall|k: int| 0 <= k < rest.len() && rest[k] != c.m implies main_index(
                c.us,
                (#[trigger] rest[k]).from_to(),
            ) != i by {
                assert(rest[k] == quiets[k]);
            }
        }
    }
}

proof fn lemma_captures_main(
    l: Lore,
    v: PosView,
    n: Node,
    c: Tried,
    captures: Seq<(Move, PieceType)>,
)
    ensures
        captures_debited(l, v, n, c, captures).main == l.main,
    decreases captures.len(),
{
    if captures.len() > 0 {
        lemma_captures_main(l, v, n, c, captures.drop_last());
    }
}

/// A quiet move that cut off loses nothing of its history, and no move tried before it gains
/// any: squares other than its own only go down.
pub proof fn cutoffs_credit_the_move(
    l: Lore,
    s: Seen,
    v: PosView,
    n: Node,
    c: Tried,
    quiets: Seq<Move>,
    captures: Seq<(Move, PieceType)>,
    i: int,
)
    requires
        history_ok(l.main, 8192),
        1 <= n.depth <= 1_000_000,
        c.captured is None,
        c.m.from_to() < 4096,
        forall|k: int| 0 <= k < quiets.len() ==> (#[trigger] quiets[k]).from_to() < 4096,
        0 <= i < 8192,
    ensures
        ({
            let r = cutoff_learned(l, s, v, n, c, quiets, captures);
            let own = main_index(c.us, c.m.from_to()) as int;
            &&& i != own ==> r.main[i] <= l.main[i]
            &&& (forall|k: int|
                0 <= k < quiets.len() && quiets[k] != c.m ==> (#[trigger] quiets[k]).from_to()
                    != c.m.from_to()) ==> r.main[own] >= l.main[own]
        }),
{
    let bonus = history_bonus(n.depth) as int;
    let to = c.m.to() as usize;
    let own = main_index(c.us, c.m.from_to()) as int;
    deeper_cutoffs_earn_more(n.depth, n.depth);
    assert(-HISTORY_MAX <= l.main[own] <= HISTORY_MAX);
    bonuses_pull_their_own_way(l.main[own] as int, bonus);
    let first = l.with_main(c.us, c.m, bonus).with_pawn(
        c.pawn_key,
        c.pc,
        to,
        bonus * crate::params::PAWN_HISTORY_BONUS_SCALE,
    ).with_low_ply(n.ply, c.m, bonus);
    assert(history_ok(first.main, 8192));
    assert forall|k: int| 0 <= k < quiets.len() implies main_index(
        c.us,
        (#[trigger] quiets[k]).from_to(),
    ) < first.main.len() by {}
    lemma_debited_main(first, s, v, n, c, quiets, i);
    lemma_debited_main(first, s, v, n, c, quiets, own);
    let debited = quiets_debited(first, s, v, n, c, quiets);
    let all = s.credited(debited, n.ply as int, n.in_check, c.pc, to, bonus);
    let prev = s.stack[n.ply - 1];
    let noted = if prev.current_move.is_ok() && prev.moved_piece.0 < 12 {
        all.with_counter(prev.moved_piece, prev.current_move.to() as usize, c.m)
    } else {
        all
    };
    assert(noted.main == debited.main);
    lemma_captures_main(noted, v, n, c, captures);
}

/// A quiet cutoff leaves the histories of captures to the captures tried, and a capture that
/// cut off leaves the histories of quiet moves alone.
pub proof fn captures_learn_apart(
    l: Lore,
    s: Seen,
    v: PosView,
    n: Node,
    c: Tried,
    quiets: Seq<Move>,
    captures: Seq<(Move, PieceType)>,
)
    requires
        c.captured is Some,
    ensures
        cutoff_learned(l, s, v, n, c, quiets, captures).main == l.main,
        cutoff_learned(l, s, v, n, c, quiets, captures).pawn == l.pawn,
        cutoff_learned(l, s, v, n, c, quiets, captures).cont == l.cont,
{
    let bonus = history_bonus(n.depth) as int;
    let own = l.with_capture(c.pc, c.m.to() as usize, c.captured->0, bonus);
    lemma_captures_only(own, v, n, c, captures);
}

proof fn lemma_captures_only(
    l: Lore,
    v: PosView,
    n: Node,
    c: Tried,
    captures: Seq<(Move, PieceType)>,
)
    ensures
        captures_debited(l, v, n, c, captures).main == l.main,
        captures_debited(l, v, n, c, captures).pawn == l.pawn,
        captures_debited(l, v, n, c, captures).cont == l.cont,
    decreases captures.len(),
{
    if captures.len() > 0 {
        lemma_captures_only(l, v, n, c, captures.drop_last());
    }
}

// Corrections

/// A correction moves from what it was towards what was seen, never past it, by no more than
/// the weight in two hundred and fifty-six parts.
pub proof fn corrections_move_towards_what_was_seen(entry: int, scaled: int, w: int)
    requires
        -32_768 <= entry <= 32_768,
        1 <= w <= 128,
    ensures
        entry <= scaled ==> entry <= blended(entry, scaled, w) <= scaled,
        scaled <= entry ==> scaled <= blended(entry, scaled, w) <= entry,
        -32_768 <= blended(entry, scaled, w) <= 32_768,
{
    let x = entry * (256 - w) + scaled * w;
    assert(entry <= scaled ==> 256 * entry <= x <= 256 * scaled) by (nonlinear_arith)
        requires
            1 <= w <= 128,
            x == entry * (256 - w) + scaled * w,
    ;
    assert(scaled <= entry ==> 256 * scaled <= x <= 256 * entry) by (nonlinear_arith)
        requires
            1 <= w <= 128,
            x == entry * (256 - w) + scaled * w,
    ;
}

/// What was learned of the mover's own pieces, of the minor pieces, the material and the last
/// move raises the evaluation; what was learned of the opponent's pieces lowers it.
pub proof fn corrections_count_for_the_mover(a: Histories, b: Histories, v: PosView, prev: int)
    requires
        ({
            let us = v.stm;
            let them = v.stm.flip();
            let st = v.st();
            let own = correction_index(us, st.nonpawn_key@[us.idx() as int]) as int;
            let other = correction_index(them, st.nonpawn_key@[them.idx() as int]) as int;
            let minor = correction_index(us, st.minor_key) as int;
            let material = correction_index(us, st.material_key) as int;
            &&& a.nonpawn_corr@[own] <= b.nonpawn_corr@[own]
            &&& a.nonpawn_corr@[other] >= b.nonpawn_corr@[other]
            &&& a.minor_corr@[minor] <= b.minor_corr@[minor]
            &&& a.material_corr@[material] <= b.material_corr@[material]
            &&& a.lastmove_corr@[prev] <= b.lastmove_corr@[prev]
        }),
    ensures
        correction(a, v, prev) <= correction(b, v, prev),
{
}

/// A deeper result moves a correction at least as far.
pub proof fn deeper_results_correct_more(entry: int, scaled: int, a: int, b: int)
    requires
        -32_768 <= entry <= 32_768,
        1 <= a <= b <= 128,
    ensures
        entry <= scaled ==> blended(entry, scaled, a) <= blended(entry, scaled, b),
        scaled <= entry ==> blended(entry, scaled, a) >= blended(entry, scaled, b),
{
    let x = entry * (256 - a) + scaled * a;
    let y = entry * (256 - b) + scaled * b;
    assert(entry <= scaled ==> x <= y) by (nonlinear_arith)
        requires
            1 <= a <= b,
            x == entry * (256 - a) + scaled * a,
            y == entry * (256 - b) + scaled * b,
    ;
    assert(scaled <= entry ==> y <= x) by (nonlinear_arith)
        requires
            1 <= a <= b,
            x == entry * (256 - a) + scaled * a,
            y == entry * (256 - b) + scaled * b,
    ;
}

/// A result that exceeds the evaluation by more than has been learned raises the correction of
/// the mover's pieces, one that falls short lowers it, and deeper ones do so further.
pub proof fn results_teach_the_correction(
    l: Lore,
    v: PosView,
    depth: int,
    deeper: int,
    eval: int,
    score: int,
    prev: int,
)
    requires
        1 <= depth <= deeper <= 1000,
        ({
            let i = correction_index(v.stm, v.st().nonpawn_key@[v.stm.idx() as int]) as int;
            0 <= i < l.nonpawn_corr.len() && -32_768 <= l.nonpawn_corr[i] <= 32_768
        }),
    ensures
        ({
            let i = correction_index(v.stm, v.st().nonpawn_key@[v.stm.idx() as int]) as int;
            let e = l.nonpawn_corr[i] as int;
            let x = corrected(l, v, depth, eval, score, prev).nonpawn_corr[i] as int;
            let y = corrected(l, v, deeper, eval, score, prev).nonpawn_corr[i] as int;
            let seen = 256 * (score - eval);
            &&& seen >= e ==> e <= x <= y && x <= seen
            &&& seen <= e ==> seen <= x && y <= x <= e
        }),
{
    let i = correction_index(v.stm, v.st().nonpawn_key@[v.stm.idx() as int]) as int;
    let e = l.nonpawn_corr[i] as int;
    let seen = (score - eval) * 256;
    let p = depth * depth + 2 * depth + 1;
    let q = deeper * deeper + 2 * deeper + 1;
    assert(1 <= p <= q) by (nonlinear_arith)
        requires
            1 <= depth <= deeper,
            p == depth * depth + 2 * depth + 1,
            q == deeper * deeper + 2 * deeper + 1,
    ;
    let a = crate::arith::clamped(p, 1, 128);
    let b = crate::arith::clamped(q, 1, 128);
    corrections_move_towards_what_was_seen(e, seen, a);
    corrections_move_towards_what_was_seen(e, seen, b);
    deeper_results_correct_more(e, seen, a, b);
}

/// A bound only teaches what it knows: a lower bound that the evaluation was too low, an upper
/// one that it was too high; tactics and checks teach nothing.
pub proof fn bounds_teach_what_they_know(
    v: PosView,
    n: Node,
    best: Value,
    bound: Bound,
    best_move: Move,
)
    requires
        corrects(v, n, best, bound, best_move),
    ensures
        best < n.raw_eval ==> bound.has_upper(),
        best > n.raw_eval ==> bound.has_lower(),
        !n.in_check && n.excluded.0 == 0,
        !best_move.is_promotion() || best_move.0 == 0,
{
}

/// Where every move failed low the move before it is credited: its history does not fall.
pub proof fn refuting_moves_are_credited(l: Lore, s: Seen, v: PosView, n: Node, best: Value)
    requires
        history_ok(l.main, 8192),
        1 <= n.depth <= 1_000_000,
        ({
            let prev = s.stack[n.ply - 1];
            !prev.is_capture && prev.current_move.is_ok() && prev.moved_piece.0 < 12
                && prev.current_move.from_to() < 4096
        }),
    ensures
        ({
            let i = main_index(v.stm.flip(), s.stack[n.ply - 1].current_move.from_to()) as int;
            &&& previous_credited(l, s, v, n, best).main[i] >= l.main[i]
            &&& best > n.alpha ==> previous_credited(l, s, v, n, best) == l
        }),
{
    let i = main_index(v.stm.flip(), s.stack[n.ply - 1].current_move.from_to()) as int;
    deeper_cutoffs_earn_more(n.depth, n.depth);
    assert(-HISTORY_MAX <= l.main[i] <= HISTORY_MAX);
    bonuses_pull_their_own_way(l.main[i] as int, quot(history_bonus(n.depth) as int, 2));
}

} // verus!
