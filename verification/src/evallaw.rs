//! Which way the evaluation leans: the clock, material, mating a lone king, and the goals of
//! the variants.

use vstd::prelude::*;

use crate::arith::quot;
use crate::draws::square_color;
use crate::eval::{bounded, damped, damping_shrinks};
use crate::geometry::{on_board, steps};
use crate::hce::{
    backward, beside, doubled, features, hce_value, king_distance, on_file, outpost, passed_eg,
    passed_pawn, pawn_rank, phalanx, phase_of, shelter_file, shelter_pawn, side_eg, side_mg,
    structure_eg, structure_mg, supported,
};
use crate::hcetables::{mobility_eg, mobility_mg, CONNECTED_BONUS, MG_PASSED_BONUS};
use crate::mopup::{
    bare, cannot_mate, edge_distance, lone_king_value, mates_lone_king, number, push_close,
    push_to_corner, push_to_edge,
};
use crate::rules::{king_sq, Board, PosView};
use crate::types::{file, rank, Color, PieceType, VALUE_EVAL_MAX};
use crate::variant::Variant;
use crate::varianteval::{
    burden, hand_score, hill_distance, race_score, safe_steps, CHECK_BONUS, HILL_DIST,
};

verus! {

// The clock and the range

/// A better value stays no worse once it is damped, whatever the clock.
pub proof fn damping_keeps_the_order(v: int, w: int, rule50: int)
    requires
        v <= w,
        rule50 >= 0,
    ensures
        damped(v, rule50) <= damped(w, rule50),
        damped(-v, rule50) == -damped(v, rule50),
{
    let clock = if rule50 < 199 {
        rule50
    } else {
        199
    };
    lemma_damped_order(v, w, clock);
    assert((-v) * clock == -(v * clock)) by (nonlinear_arith);
}

proof fn lemma_damped_order(v: int, w: int, clock: int)
    requires
        v <= w,
        0 <= clock <= 199,
    ensures
        v - quot(v * clock, 199) <= w - quot(w * clock, 199),
    decreases w - v,
{
    if v < w {
        lemma_damped_order(v, w - 1, clock);
        let x = (w - 1) * clock;
        let y = w * clock;
        assert(y == x + clock) by (nonlinear_arith)
            requires
                x == (w - 1) * clock,
                y == w * clock,
        ;
        assert(w - 1 >= 0 ==> x >= 0) by (nonlinear_arith)
            requires
                x == (w - 1) * clock,
                0 <= clock,
        ;
        assert(w <= 0 ==> y <= 0) by (nonlinear_arith)
            requires
                y == w * clock,
                0 <= clock,
        ;
    }
}

/// The closer the fifty-move rule, the closer a value is to a draw.
pub proof fn the_clock_draws_to_zero(v: int, a: int, b: int)
    requires
        0 <= a <= b,
    ensures
        v >= 0 ==> 0 <= damped(v, b) <= damped(v, a) <= v,
        v <= 0 ==> v <= damped(v, a) <= damped(v, b) <= 0,
{
    let x = if a < 199 {
        a
    } else {
        199
    };
    let y = if b < 199 {
        b
    } else {
        199
    };
    damping_shrinks(v, a);
    damping_shrinks(v, b);
    assert(v >= 0 ==> 0 <= v * x <= v * y) by (nonlinear_arith)
        requires
            0 <= x <= y,
    ;
    assert(v <= 0 ==> v * y <= v * x <= 0) by (nonlinear_arith)
        requires
            0 <= x <= y,
    ;
}

/// An evaluation stays out of the mate scores, and inside them as it is.
pub proof fn evaluations_are_no_mates(v: int, w: int)
    requires
        v <= w,
    ensures
        -VALUE_EVAL_MAX <= bounded(v) <= VALUE_EVAL_MAX,
        -VALUE_EVAL_MAX <= v <= VALUE_EVAL_MAX ==> bounded(v) == v,
        bounded(v) <= bounded(w),
        bounded(-v) == -bounded(v),
{
}

/// Where the network speaks, a better word of it never makes the evaluation worse, nothing
/// makes nothing, and the sign is its own.
pub proof fn evaluations_follow_the_network(v: PosView, raw: int, better: int)
    requires
        raw <= better,
        v.st().rule50 >= 0,
        v.own_evaluation() is None,
    ensures
        v.evaluation(raw) <= v.evaluation(better),
        v.evaluation(0) == 0,
        raw >= 0 ==> 0 <= v.evaluation(raw) <= raw,
        raw <= 0 ==> raw <= v.evaluation(raw) <= 0,
        v.st().rule50 == 0 && -VALUE_EVAL_MAX <= raw <= VALUE_EVAL_MAX ==> v.evaluation(raw) == raw,
{
    damping_keeps_the_order(raw, better, v.st().rule50 as int);
    damping_shrinks(raw, v.st().rule50 as int);
    damping_shrinks(0, v.st().rule50 as int);
}

/// Dead positions are even in standard chess, whatever the network says.
pub proof fn dead_positions_are_even(v: PosView, raw: int)
    requires
        v.insufficient(),
        v.variant != Variant::ThreeCheck,
    ensures
        v.evaluation(raw) == 0,
{
}

// Lone kings

/// A side that mates a lone king is winning, by more than two thousand and a knight's worth; the
/// other side has the same with the other sign.
pub proof fn lone_kings_lose(b: Board, c: Color)
    requires
        mates_lone_king(b, c),
        !mates_lone_king(b, c.flip()),
        on_board(king_sq(b, c)),
        on_board(king_sq(b, c.flip())),
        forall|d: Color, pt: PieceType| #[trigger] number(b, d, pt) >= 0,
    ensures
        lone_king_value(b, c) matches Some(x) && x > 2000,
        lone_king_value(b, c.flip()) matches Some(y) && lone_king_value(b, c) == Some(-y),
{
    let lk = king_sq(b, c.flip());
    let wk = king_sq(b, c);
    assert(0 <= steps(wk, lk) <= 7);
    lemma_edge(lk);
    assert(number(b, c, PieceType::Knight) >= 0);
    assert(number(b, c, PieceType::Bishop) >= 0);
    assert(number(b, c, PieceType::Rook) >= 0);
    assert(number(b, c, PieceType::Queen) >= 0);
    assert(push_to_corner(lk, true) >= 0 && push_to_corner(lk, false) >= 0);
}

proof fn lemma_edge(s: int)
    requires
        on_board(s),
    ensures
        28 <= push_to_edge(s) <= 90,
{
    let fd = edge_distance(file(s));
    let rd = edge_distance(rank(s));
    assert(0 <= fd <= 3 && 0 <= rd <= 3);
    assert(7 * 0 * 0 / 2 == 0 && 7 * 1 * 1 / 2 == 3 && 7 * 2 * 2 / 2 == 14 && 7 * 3 * 3 / 2 == 31)
        by (nonlinear_arith);
}

/// Two knights, bishops of one colour or nothing at all cannot mate; a rook, a queen, bishops
/// of both colours or a bishop and a knight can.
pub proof fn what_mates_a_lone_king(b: Board, c: Color)
    requires
        bare(b, c.flip()),
        number(b, c, PieceType::Pawn) == 0,
        forall|d: Color, pt: PieceType| #[trigger] number(b, d, pt) >= 0,
    ensures
        number(b, c, PieceType::Rook) > 0 || number(b, c, PieceType::Queen) > 0
            ==> mates_lone_king(b, c),
        number(b, c, PieceType::Bishop) > 0 && number(b, c, PieceType::Knight) > 0
            ==> mates_lone_king(b, c),
        number(b, c, PieceType::Knight) > 2 ==> mates_lone_king(b, c),
        number(b, c, PieceType::Rook) == 0 && number(b, c, PieceType::Queen) == 0 && number(
            b,
            c,
            PieceType::Bishop,
        ) == 0 && number(b, c, PieceType::Knight) <= 2 ==> !mates_lone_king(b, c),
        cannot_mate(b, c) ==> !mates_lone_king(b, c),
{
    assert(number(b, c, PieceType::Knight) >= 0);
}

/// The lone king is driven outwards: to the rim in general, and the kings together.
pub proof fn lone_kings_are_driven(s: int, t: int, a: int)
    requires
        on_board(s),
        on_board(t),
        on_board(a),
    ensures
        edge_distance(file(s)) <= edge_distance(file(t))
            && edge_distance(rank(s)) <= edge_distance(rank(t))
            ==> push_to_edge(s) >= push_to_edge(t),
        file(s) == 0 || file(s) == 7 || rank(s) == 0 || rank(s) == 7 ==> push_to_edge(s) == 90,
        steps(a, s) < steps(a, t) ==> push_close(a, s) > push_close(a, t),
{
    let x = edge_distance(file(s));
    let y = edge_distance(rank(s));
    let z = edge_distance(file(t));
    let w = edge_distance(rank(t));
    assert(0 <= x <= 3 && 0 <= y <= 3 && 0 <= z <= 3 && 0 <= w <= 3);
    assert(7 * 0 * 0 / 2 == 0 && 7 * 1 * 1 / 2 == 3 && 7 * 2 * 2 / 2 == 14 && 7 * 3 * 3 / 2 == 31)
        by (nonlinear_arith);
}

/// With bishop and knight the corner has to be of the bishop's colour: seven in both corners of
/// it, nothing in the corners of the other, and a step never counts for more than two.
pub proof fn the_corner_has_the_bishops_colour(s: int, dark: bool)
    requires
        on_board(s),
    ensures
        0 <= push_to_corner(s, dark) <= 7,
        s == 0 || s == 63 ==> push_to_corner(s, true) == 7 && push_to_corner(s, false) == 0,
        s == 7 || s == 56 ==> push_to_corner(s, true) == 0 && push_to_corner(s, false) == 7,
        push_to_corner(s, dark) == 7 ==> square_color(s) == (if dark {
            0int
        } else {
            1
        }),
{
}

// Variants

/// In antichess a side with less of everything is better off.
pub proof fn burdens_weigh(b: Board, c: Color, d: Color)
    requires
        forall|pt: PieceType| #[trigger] number(b, c, pt) <= number(b, d, pt),
    ensures
        burden(b, c) <= burden(b, d),
        (exists|pt: PieceType| #[trigger] number(b, c, pt) < number(b, d, pt)) ==> burden(b, c)
            < burden(b, d),
{
    assert(number(b, c, PieceType::Pawn) <= number(b, d, PieceType::Pawn));
    assert(number(b, c, PieceType::Knight) <= number(b, d, PieceType::Knight));
    assert(number(b, c, PieceType::Bishop) <= number(b, d, PieceType::Bishop));
    assert(number(b, c, PieceType::Rook) <= number(b, d, PieceType::Rook));
    assert(number(b, c, PieceType::Queen) <= number(b, d, PieceType::Queen));
    assert(number(b, c, PieceType::King) <= number(b, d, PieceType::King));
}

/// An antichess evaluation is positive exactly for the side that carries less, and the
/// negative of the opponent's.
pub proof fn antichess_favours_the_lighter_side(v: PosView, w: PosView, raw: int)
    requires
        v.variant == Variant::Antichess,
        w.variant == Variant::Antichess,
        v.board == w.board,
        w.stm == v.stm.flip(),
    ensures
        v.evaluation(raw) > 0 <==> burden(v.board, v.stm) < burden(v.board, v.stm.flip()),
        w.evaluation(raw) == -v.evaluation(raw),
{
}

/// A king one rank further up the board is worth three hundred and fifty more, as far as the
/// other terms agree, and a piece more is never worth less.
pub proof fn racing_kings_climb(b: Board, x: Board, c: Color)
    requires
        rank(king_sq(b, c)) < rank(king_sq(x, c)),
        forall|pt: PieceType| #[trigger] number(b, c, pt) <= number(x, c, pt),
        safe_steps(b, c, 64) <= safe_steps(x, c, 64),
    ensures
        race_score(b, c) + 350 <= race_score(x, c),
{
    assert(number(b, c, PieceType::Knight) <= number(x, c, PieceType::Knight));
    assert(number(b, c, PieceType::Bishop) <= number(x, c, PieceType::Bishop));
    assert(number(b, c, PieceType::Rook) <= number(x, c, PieceType::Rook));
    assert(number(b, c, PieceType::Queen) <= number(x, c, PieceType::Queen));
}

/// The race is even between sides with the same score and negated with the side to move.
pub proof fn races_are_even_handed(v: PosView, w: PosView, raw: int)
    requires
        v.variant == Variant::RacingKings,
        w.variant == Variant::RacingKings,
        v.board == w.board,
        w.stm == v.stm.flip(),
    ensures
        v.evaluation(raw) > 0 <==> race_score(v.board, v.stm) > race_score(v.board, v.stm.flip()),
        w.evaluation(raw) == -v.evaluation(raw),
{
}

/// In three-check more checks given, or fewer received, never evaluate worse.
pub proof fn checks_given_count(v: PosView, w: PosView, raw: int)
    requires
        v.variant == Variant::ThreeCheck,
        w.variant == Variant::ThreeCheck,
        v.board == w.board,
        v.stm == w.stm,
        v.st().rule50 == w.st().rule50,
        v.st().rule50 >= 0,
        0 <= v.st().checks_given@[v.stm.idx() as int] <= w.st().checks_given@[v.stm.idx() as int]
            <= 3,
        0 <= w.st().checks_given@[v.stm.flip().idx() as int]
            <= v.st().checks_given@[v.stm.flip().idx() as int] <= 3,
    ensures
        v.evaluation(raw) <= w.evaluation(raw),
        v.st().rule50 == 0 && -20_000 <= hce_value(v.board, v.stm) <= 20_000
            && v.st().checks_given@[v.stm.idx() as int] < w.st().checks_given@[v.stm.idx() as int]
            ==> v.evaluation(raw) + 300 <= w.evaluation(raw),
{
    let us = v.stm.idx() as int;
    let them = v.stm.flip().idx() as int;
    let h = hce_value(v.board, v.stm);
    let t = CHECK_BONUS@;
    assert(t[0] == 0 && t[1] == 300 && t[2] == 900 && t[3] == 3000);
    let x = h + (t[v.st().checks_given@[us] as int] - t[v.st().checks_given@[them] as int]);
    let y = h + (t[w.st().checks_given@[us] as int] - t[w.st().checks_given@[them] as int]);
    assert(x <= y);
    damping_keeps_the_order(x, y, v.st().rule50 as int);
    damping_shrinks(x, v.st().rule50 as int);
    damping_shrinks(y, v.st().rule50 as int);
}

/// In Crazyhouse a fuller hand never evaluates worse, nor does a poorer one of the opponent's.
pub proof fn hands_count(v: PosView, w: PosView, raw: int)
    requires
        v.variant == Variant::Crazyhouse,
        w.variant == Variant::Crazyhouse,
        v.board == w.board,
        v.stm == w.stm,
        v.st().rule50 == w.st().rule50,
        v.st().rule50 >= 0,
        forall|i: int|
            0 <= i < 5 ==> #[trigger] v.st().hand@[v.stm.idx() as int]@[i]
                <= w.st().hand@[v.stm.idx() as int]@[i],
        forall|i: int|
            0 <= i < 5 ==> #[trigger] v.st().hand@[v.stm.flip().idx() as int]@[i]
                >= w.st().hand@[v.stm.flip().idx() as int]@[i],
    ensures
        hand_score(v, v.stm) <= hand_score(w, v.stm),
        hand_score(v, v.stm.flip()) >= hand_score(w, v.stm.flip()),
        v.evaluation(raw) <= w.evaluation(raw),
{
    let a = v.st().hand@[v.stm.idx() as int]@;
    let b = w.st().hand@[v.stm.idx() as int]@;
    assert(a[0] <= b[0] && a[1] <= b[1] && a[2] <= b[2] && a[3] <= b[3] && a[4] <= b[4]);
    let c = v.st().hand@[v.stm.flip().idx() as int]@;
    let d = w.st().hand@[v.stm.flip().idx() as int]@;
    assert(c[0] >= d[0] && c[1] >= d[1] && c[2] >= d[2] && c[3] >= d[3] && c[4] >= d[4]);
    let h = hce_value(v.board, v.stm);
    damping_keeps_the_order(
        h + (hand_score(v, v.stm) - hand_score(v, v.stm.flip())),
        h + (hand_score(w, v.stm) - hand_score(w, v.stm.flip())),
        v.st().rule50 as int,
    );
}

/// The hill is where the distance is nothing: the four centre squares.
pub proof fn the_hill_is_the_centre(b: Board, c: Color)
    requires
        on_board(king_sq(b, c)),
    ensures
        0 <= hill_distance(b, c) <= 6,
        hill_distance(b, c) == 0 <==> 3 <= file(king_sq(b, c)) <= 4 && 3 <= rank(king_sq(b, c))
            <= 4,
        ({
            let k = king_sq(b, c);
            k == 0 || k == 7 || k == 56 || k == 63
        }) ==> hill_distance(b, c) == 6,
{
    let t = HILL_DIST@;
    assert(t[0] == 3 && t[1] == 2 && t[2] == 1 && t[3] == 0 && t[4] == 0 && t[5] == 1 && t[6] == 2
        && t[7] == 3);
}

/// The king closer to the hill adds to the evaluation what the other side's would take away.
pub proof fn the_hill_attracts(v: PosView, raw: int)
    requires
        v.variant == Variant::KingOfTheHill,
        v.st().rule50 >= 0,
    ensures
        hill_distance(v.board, v.stm) <= hill_distance(v.board, v.stm.flip()) ==> v.evaluation(raw)
            >= bounded(damped(hce_value(v.board, v.stm), v.st().rule50 as int)),
        hill_distance(v.board, v.stm) >= hill_distance(v.board, v.stm.flip()) ==> v.evaluation(raw)
            <= bounded(damped(hce_value(v.board, v.stm), v.st().rule50 as int)),
{
    let h = hce_value(v.board, v.stm);
    let x = h + 35 * (hill_distance(v.board, v.stm.flip()) - hill_distance(v.board, v.stm));
    if h <= x {
        damping_keeps_the_order(h, x, v.st().rule50 as int);
    }
    if x <= h {
        damping_keeps_the_order(x, h, v.st().rule50 as int);
    }
}

// The hand-crafted evaluation

/// The value lies between the middlegame's and the endgame's, is the endgame's with no pieces
/// left and the middlegame's with all of them.
pub proof fn values_are_tapered(b: Board, c: Color)
    requires
        phase_of(b) >= 0,
    ensures
        ({
            let mg = side_mg(b, c) - side_mg(b, c.flip());
            let eg = side_eg(b, c) - side_eg(b, c.flip());
            let v = hce_value(b, c);
            &&& phase_of(b) <= 24
            &&& phase_of(b) == 24 ==> v == mg
            &&& phase_of(b) == 0 ==> v == eg
            &&& mg <= eg ==> mg <= v <= eg
            &&& eg <= mg ==> eg <= v <= mg
        }),
{
    let mg = side_mg(b, c) - side_mg(b, c.flip());
    let eg = side_eg(b, c) - side_eg(b, c.flip());
    let p = phase_of(b);
    let x = mg * p + eg * (24 - p);
    assert(mg <= eg ==> 24 * mg <= x <= 24 * eg) by (nonlinear_arith)
        requires
            0 <= p <= 24,
            x == mg * p + eg * (24 - p),
    ;
    assert(eg <= mg ==> 24 * eg <= x <= 24 * mg) by (nonlinear_arith)
        requires
            0 <= p <= 24,
            x == mg * p + eg * (24 - p),
    ;
    assert(p == 24 ==> x == 24 * mg) by (nonlinear_arith)
        requires
            x == mg * p + eg * (24 - p),
    ;
    assert(p == 0 ==> x == 24 * eg) by (nonlinear_arith)
        requires
            x == mg * p + eg * (24 - p),
    ;
    assert(hce_value(b, c) == quot(x, 24));
}

/// A pawn before the king shelters it, better the nearer it is, and best on the king's own
/// file; no pawn within three ranks costs.
pub proof fn near_pawns_shelter(b: Board, c: Color, df: int)
    requires
        -1 <= df <= 1,
    ensures
        ({
            let x = file(king_sq(b, c)) + df;
            let f = if x < 0 {
                0
            } else if x > 7 {
                7
            } else {
                x
            };
            let v = shelter_file(b, c, df);
            &&& shelter_pawn(b, c, f, 1) ==> v >= 14
            &&& !shelter_pawn(b, c, f, 1) && shelter_pawn(b, c, f, 2) ==> 6 <= v <= 10
            &&& !shelter_pawn(b, c, f, 1) && !shelter_pawn(b, c, f, 2) && shelter_pawn(b, c, f, 3)
                ==> 2 <= v <= 4
            &&& !shelter_pawn(b, c, f, 1) && !shelter_pawn(b, c, f, 2) && !shelter_pawn(b, c, f, 3)
                ==> v < 0
        }),
{
}

/// A rook is best on an open file, better on one without own pawns than behind them.
pub proof fn rooks_like_open_files(b: Board, s: int, t: int, u: int)
    requires
        b[s].piece_type() == PieceType::Rook,
        b[t].piece_type() == PieceType::Rook,
        b[u].piece_type() == PieceType::Rook,
        !on_file(b, b[s].color(), file(s)) && !on_file(b, b[s].color().flip(), file(s)),
        !on_file(b, b[t].color(), file(t)) && on_file(b, b[t].color().flip(), file(t)),
        on_file(b, b[u].color(), file(u)),
    ensures
        features(b, s).0 > features(b, t).0 > features(b, u).0,
        features(b, s).1 > features(b, t).1 > features(b, u).1,
        features(b, u).0 == 0 && features(b, u).1 == 0,
{
}

/// A minor piece on an outpost is worth more, a knight more than a bishop.
pub proof fn outposts_are_worth_more(b: Board, s: int)
    requires
        b[s].piece_type() == PieceType::Knight || b[s].piece_type() == PieceType::Bishop,
    ensures
        outpost(b, s) ==> features(b, s).0 > 0 && features(b, s).1 > 0,
        !outpost(b, s) ==> features(b, s).1 == 0,
        features(b, s).0 >= 0,
{
}

/// Weak pawns cost: an isolated, doubled or backward pawn that is neither connected nor passed
/// is never worth more than nothing; a passed or connected one without weaknesses never less.
pub proof fn pawns_are_judged(b: Board, s: int)
    requires
        0 <= pawn_rank(b[s].color(), s) <= 7,
    ensures
        ({
            let weak = !beside(b, b[s].color(), file(s)) || doubled(b, s) || backward(b, s);
            let good = phalanx(b, s) || supported(b, s) || passed_pawn(b, s);
            &&& weak && !good ==> structure_mg(b, s) < 0
            &&& !weak ==> structure_mg(b, s) >= 0
            &&& !weak && !good ==> structure_mg(b, s) == 0 && structure_eg(b, s) == 0
            &&& weak && !good ==> structure_eg(b, s) < 0
        }),
{
    let c = CONNECTED_BONUS@;
    let p = MG_PASSED_BONUS@;
    assert(c[0] == 0 && c[1] == 0 && c[2] == 7 && c[3] == 8 && c[4] == 12 && c[5] == 29 && c[6]
        == 48 && c[7] == 86);
    assert(p[0] == 0 && p[1] == 0 && p[2] == 5 && p[3] == 10 && p[4] == 20 && p[5] == 40 && p[6]
        == 70 && p[7] == 120);
}

/// A passed pawn is worth more the further it has come and, once it is on its way, the nearer
/// its own king and the further the other.
pub proof fn passed_pawns_run(b: Board, s: int, x: Board)
    requires
        b[s] == x[s],
        pawn_rank(b[s].color(), s) >= 3,
        ({
            let c = b[s].color();
            let promo = match c {
                Color::White => 56 + file(s),
                Color::Black => file(s),
            };
            &&& king_distance(b, c, promo) >= king_distance(x, c, promo)
            &&& king_distance(b, c.flip(), promo) <= king_distance(x, c.flip(), promo)
        }),
    ensures
        passed_eg(b, s) <= passed_eg(x, s),
{
    let c = b[s].color();
    let r = pawn_rank(c, s);
    let promo = match c {
        Color::White => 56 + file(s),
        Color::Black => file(s),
    };
    let p = king_distance(b, c.flip(), promo) - king_distance(b, c, promo);
    let q = king_distance(x, c.flip(), promo) - king_distance(x, c, promo);
    assert(p * ((r - 2) * 5) <= q * ((r - 2) * 5)) by (nonlinear_arith)
        requires
            p <= q,
            r >= 3,
    ;
}

/// More free squares are never worth less.
pub proof fn mobility_pays(pt: PieceType, n: int)
    requires
        0 <= n < 64,
    ensures
        mobility_mg(pt, n) <= mobility_mg(pt, n + 1),
        mobility_eg(pt, n) <= mobility_eg(pt, n + 1),
{
    reveal(mobility_mg);
    reveal(mobility_eg);
}

} // verus!
