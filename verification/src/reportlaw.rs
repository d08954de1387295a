//! What is reported and asked for: scores as text, strength levels.

use vstd::prelude::*;

use crate::arith::quot;
use crate::mopup::number;
use crate::options::{Options, SKILL_ELO};
use crate::report::{material, score_text, side_material, wdl_parameter, wdl_text};
use crate::rules::Board;
use crate::text::decimal_int;
use crate::types::{is_decisive, is_loss, is_win, mate_in, mated_in, Color, PieceType, Value};

verus! {

/// A mate is reported in moves of the side that mates: `n` for a mate with its `n`-th move, and
/// minus `n` for being mated after the mover's own `n`-th.
pub proof fn mates_are_reported_in_moves(n: usize, b: Board, normalize: bool)
    requires
        1 <= n <= 64,
    ensures
        score_text(mate_in((2 * n - 1) as usize), b, normalize) == "mate "@ + decimal_int(n as int),
        score_text(mated_in((2 * n) as usize), b, normalize) == "mate -"@ + decimal_int(n as int),
{
}

/// Other scores are reported in centipawns, as they are where nothing is normalised; a
/// normalised score keeps its sign and the order of scores.
pub proof fn scores_are_reported_in_order(v: Value, w: Value, b: Board)
    requires
        !is_decisive(v),
        !is_decisive(w),
        v <= w,
    ensures
        score_text(v, b, false) == "cp "@ + decimal_int(v as int),
        exists|x: int, y: int|
            #![trigger decimal_int(x), decimal_int(y)]
            score_text(v, b, true) == "cp "@ + decimal_int(x) && score_text(w, b, true) == "cp "@
                + decimal_int(y) && x <= y && (v >= 0 ==> x >= 0) && (v <= 0 ==> x <= 0),
{
    let a = wdl_parameter(
        crate::params::WDL_A_INTERCEPT as int,
        crate::params::WDL_A_SLOPE as int,
        material(b),
    );
    let x = quot(100_000 * v, a);
    let y = quot(100_000 * w, a);
    lemma_quot_order(100_000 * v, 100_000 * w, a);
    assert(score_text(v, b, true) == "cp "@ + decimal_int(x));
    assert(score_text(w, b, true) == "cp "@ + decimal_int(y));
}

proof fn lemma_quot_order(p: int, q: int, d: int)
    requires
        p <= q,
        d > 0,
    ensures
        quot(p, d) <= quot(q, d),
        p >= 0 ==> quot(p, d) >= 0,
        p <= 0 ==> quot(p, d) <= 0,
{
    if p >= 0 {
        assert(0 <= p / d <= q / d) by (nonlinear_arith)
            requires
                0 <= p <= q,
                d > 0,
        ;
    } else {
        let n = -p;
        assert(n / d >= 0) by (nonlinear_arith)
            requires
                n >= 0,
                d > 0,
        ;
        if q >= 0 {
            assert(q / d >= 0) by (nonlinear_arith)
                requires
                    q >= 0,
                    d > 0,
            ;
        } else {
            let m = -q;
            assert(0 <= m / d <= n / d) by (nonlinear_arith)
                requires
                    0 <= m <= n,
                    d > 0,
            ;
        }
    }
}

/// Chances are certain with a mate on the board and otherwise as given; they add up to a
/// thousand.
pub proof fn chances_add_up(v: Value, win: i32, loss: i32)
    ensures
        is_win(v) ==> wdl_text(v, win, loss) == " wdl "@ + decimal_int(1000) + " "@ + decimal_int(0)
            + " "@ + decimal_int(0),
        is_loss(v) ==> wdl_text(v, win, loss) == " wdl "@ + decimal_int(0) + " "@ + decimal_int(0)
            + " "@ + decimal_int(1000),
        !is_decisive(v) ==> wdl_text(v, win, loss) == " wdl "@ + decimal_int(win as int) + " "@
            + decimal_int(1000 - win - loss) + " "@ + decimal_int(loss as int),
{
}

/// Material is counted in pawns, a pawn of either side for one, and never falls as the board
/// fills.
pub proof fn material_is_counted_in_pawns(b: Board, x: Board)
    requires
        forall|c: Color, pt: PieceType| #[trigger] number(b, c, pt) <= number(x, c, pt),
    ensures
        material(b) <= material(x),
        forall|c: Color|
            #![trigger side_material(x, c)]
            side_material(x, c) - side_material(b, c) >= number(x, c, PieceType::Pawn) - number(
                b,
                c,
                PieceType::Pawn,
            ) + 3 * (number(x, c, PieceType::Knight) - number(b, c, PieceType::Knight)),
{
    assert forall|c: Color| #[trigger] side_material(x, c) - side_material(b, c) >= number(
        x,
        c,
        PieceType::Pawn,
    ) - number(b, c, PieceType::Pawn) + 3 * (number(x, c, PieceType::Knight) - number(
        b,
        c,
        PieceType::Knight,
    )) && side_material(b, c) <= side_material(x, c) by {
        assert(number(b, c, PieceType::Pawn) <= number(x, c, PieceType::Pawn));
        assert(number(b, c, PieceType::Knight) <= number(x, c, PieceType::Knight));
        assert(number(b, c, PieceType::Bishop) <= number(x, c, PieceType::Bishop));
        assert(number(b, c, PieceType::Rook) <= number(x, c, PieceType::Rook));
        assert(number(b, c, PieceType::Queen) <= number(x, c, PieceType::Queen));
    }
    assert(side_material(b, Color::White) <= side_material(x, Color::White));
    assert(side_material(b, Color::Black) <= side_material(x, Color::Black));
}

// Strength

/// The strengths of the levels rise.
proof fn lemma_levels_rise(l: int)
    requires
        0 <= l < 20,
    ensures
        SKILL_ELO@[l] < SKILL_ELO@[l + 1],
{
    let t = SKILL_ELO@;
    assert(t[0] == 2301 && t[1] == 2364 && t[2] == 2428 && t[3] == 2491 && t[4] == 2555 && t[5]
        == 2624 && t[6] == 2692 && t[7] == 2760 && t[8] == 2828 && t[9] == 2874 && t[10] == 2919
        && t[11] == 2964 && t[12] == 3010 && t[13] == 3015 && t[14] == 3020 && t[15] == 3025
        && t[16] == 3030 && t[17] == 3065 && t[18] == 3099 && t[19] == 3125 && t[20] == 3500);
}

pub open spec fn apart(a: int, b: int) -> int {
    if a < b {
        b - a
    } else {
        a - b
    }
}

proof fn lemma_level(target: int, l: int)
    requires
        0 <= l <= 20,
    ensures
        ({
            let r = Options::level_from(target, l);
            &&& l <= r <= 20
            &&& r < 20 ==> target <= (SKILL_ELO@[r] + SKILL_ELO@[r + 1]) / 2
            &&& r > l ==> target > (SKILL_ELO@[r - 1] + SKILL_ELO@[r]) / 2
        }),
    decreases 20 - l,
{
    if l < 20 && target > (SKILL_ELO@[l] + SKILL_ELO@[l + 1]) / 2 {
        lemma_level(target, l + 1);
    }
}

proof fn lemma_farther_up(target: int, r: int, k: int)
    requires
        0 <= r <= k <= 20,
        r < 20 ==> target <= (SKILL_ELO@[r] + SKILL_ELO@[r + 1]) / 2,
    ensures
        apart(target, SKILL_ELO@[r] as int) <= apart(target, SKILL_ELO@[k] as int),
        r < k ==> target <= SKILL_ELO@[k],
    decreases k - r,
{
    if r < k {
        lemma_levels_rise(r);
        if r + 1 < k {
            lemma_farther_up(target, r, k - 1);
            lemma_levels_rise(k - 1);
        }
    }
}

proof fn lemma_farther_down(target: int, r: int, k: int)
    requires
        0 <= k <= r <= 20,
        r > 0 ==> target > (SKILL_ELO@[r - 1] + SKILL_ELO@[r]) / 2,
    ensures
        apart(target, SKILL_ELO@[r] as int) <= apart(target, SKILL_ELO@[k] as int),
        k < r ==> target >= SKILL_ELO@[k],
    decreases r - k,
{
    if k < r {
        lemma_levels_rise(r - 1);
        if k + 1 < r {
            lemma_farther_down(target, r, k + 1);
            lemma_levels_rise(k);
        }
    }
}

/// A strength asked for gives the level whose own strength is nearest.
pub proof fn the_nearest_level_plays(target: int, k: int)
    requires
        0 <= k <= 20,
    ensures
        0 <= Options::level_from(target, 0) <= 20,
        apart(target, SKILL_ELO@[Options::level_from(target, 0)] as int) <= apart(
            target,
            SKILL_ELO@[k] as int,
        ),
{
    lemma_level(target, 0);
    let r = Options::level_from(target, 0);
    if k >= r {
        lemma_farther_up(target, r, k);
    } else {
        lemma_farther_down(target, r, k);
    }
}

/// Asking for more never gives a lower level; each level answers to its own strength.
pub proof fn stronger_requests_play_stronger(a: int, b: int, l: int)
    requires
        a <= b,
        0 <= l <= 20,
    ensures
        Options::level_from(a, 0) <= Options::level_from(b, 0),
        Options::level_from(SKILL_ELO@[l] as int, 0) == l,
{
    lemma_level_order(a, b, 0);
    let t = SKILL_ELO@[l] as int;
    let r = Options::level_from(t, 0);
    lemma_level(t, 0);
    the_nearest_level_plays(t, l);
    assert(SKILL_ELO@[r] == SKILL_ELO@[l]);
    if r < l {
        lemma_levels_apart(r, l);
    }
    if l < r {
        lemma_levels_apart(l, r);
    }
}

proof fn lemma_levels_apart(a: int, b: int)
    requires
        0 <= a < b <= 20,
    ensures
        SKILL_ELO@[a] < SKILL_ELO@[b],
    decreases b - a,
{
    lemma_levels_rise(b - 1);
    if a < b - 1 {
        lemma_levels_apart(a, b - 1);
    }
}

proof fn lemma_level_order(a: int, b: int, l: int)
    requires
        a <= b,
        0 <= l <= 20,
    ensures
        Options::level_from(a, l) <= Options::level_from(b, l),
    decreases 20 - l,
{
    if l < 20 {
        if a > (SKILL_ELO@[l] + SKILL_ELO@[l + 1]) / 2 {
            lemma_level_order(a, b, l + 1);
        } else {
            lemma_level(b, l);
        }
    }
}

} // verus!
