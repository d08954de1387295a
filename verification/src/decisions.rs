//! The rules by which a search cuts, reduces and extends.

use vstd::prelude::*;

use crate::arith::{clamp, clamped, div_toward_zero, quot};
use crate::params::{
    HINDSIGHT_EXTEND_REDUCTION, HINDSIGHT_REDUCE_EVAL, HINDSIGHT_REDUCE_REDUCTION, NMP_BASE,
    NMP_DEPTH_MULT, NMP_EVAL_DIV, NMP_IMPROVING, NMP_REDUCTION_BASE, NMP_REDUCTION_DIV,
    PROBCUT_DEPTH_SUB, PROBCUT_DIVISOR, PROBCUT_IMPROVING, PROBCUT_MARGIN, QUIET_FUTILITY_BASE,
    QUIET_FUTILITY_NO_BEST, QUIET_FUTILITY_PER_DEPTH, RAZORING_MAX_DEPTH, RAZORING_QUAD,
    RFP_IMPROVING_MULT, RFP_MULT_NO_TT, RFP_MULT_TT, RFP_WORSENING_MULT, SEE_CAPTURE_HIST_DIV,
    SEE_CAPTURE_LINEAR, SE_BETA_DEPTH_MULT, SE_TT_HISTORY_DIV,
};
use crate::types::{Bound, Value};

verus! {

/// The bound a result is, given the window it was searched with.
#[verifier::allow_in_spec]
pub fn bound_of(score: Value, alpha: Value, beta: Value) -> Bound
    returns
        (if score <= alpha {
            Bound::Upper
        } else if score >= beta {
            Bound::Lower
        } else {
            Bound::Exact
        }),
{
    if score <= alpha {
        Bound::Upper
    } else if score >= beta {
        Bound::Lower
    } else {
        Bound::Exact
    }
}

/// A stored bound says something about the window: a lower bound if it fails high, an upper
/// bound if it does not.
#[verifier::allow_in_spec]
pub fn bound_fits(value: Value, limit: Value, bound: Bound) -> bool
    returns
        (if value >= limit {
            bound.has_lower()
        } else {
            bound.has_upper()
        }),
{
    if value >= limit {
        bound.has_lower()
    } else {
        bound.has_upper()
    }
}

/// A stored result ends the search of a node outside the principal variation: deep enough,
/// a fitting bound, of the expected kind or deep, and not under the fifty-move rule.
#[verifier::allow_in_spec]
pub fn tt_cutoff(
    depth: i32,
    beta: Value,
    value: Value,
    tt_depth: i32,
    bound: Bound,
    cut_node: bool,
    rule50: i32,
) -> bool
    requires
        depth > i32::MIN,
    returns
        ({
            &&& tt_depth > (if value <= beta {
                depth - 1
            } else {
                depth as int
            })
            &&& bound_fits(value, beta, bound)
            &&& cut_node == (value >= beta) || depth > 5
            &&& rule50 < 96
        }),
{
    let threshold: i32 = if value <= beta {
        depth - 1
    } else {
        depth
    };
    tt_depth > threshold && bound_fits(value, beta, bound) && (cut_node == (value >= beta) || depth
        > 5) && rule50 < 96
}

/// A stored result deep enough to cut but of the opposite bound is shaved.
#[verifier::allow_in_spec]
pub fn tt_misleads(depth: i32, beta: Value, value: Value, tt_depth: i32, bound: Bound) -> bool
    requires
        depth > i32::MIN,
    returns
        ({
            &&& depth > 5
            &&& tt_depth > (if value <= beta {
                depth - 1
            } else {
                depth as int
            })
            &&& bound != Bound::Exact
            &&& if value >= beta {
                bound.has_upper()
            } else {
                bound.has_lower()
            }
        }),
{
    let threshold: i32 = if value <= beta {
        depth - 1
    } else {
        depth
    };
    depth > 5 && tt_depth > threshold && bound != Bound::Exact && (if value >= beta {
        bound.has_upper()
    } else {
        bound.has_lower()
    })
}

/// Depth adjusted in hindsight of the parent's reduction.
pub fn hindsight(
    depth: i32,
    prior_reduction: i32,
    worsening: bool,
    static_eval: Value,
    prev_eval: Value,
) -> (r: i32)
    requires
        1 <= depth <= 1000,
        -100_000 <= static_eval <= 100_000,
        -100_000 <= prev_eval <= 100_000,
    ensures
        r == ({
            let d = if prior_reduction >= HINDSIGHT_EXTEND_REDUCTION && !worsening {
                depth + 1
            } else {
                depth as int
            };
            if prior_reduction >= HINDSIGHT_REDUCE_REDUCTION && d >= 2 && static_eval + prev_eval
                > HINDSIGHT_REDUCE_EVAL {
                d - 1
            } else {
                d
            }
        }),
        1 <= r <= depth + 1,
{
    let mut d: i32 = depth;
    if prior_reduction >= HINDSIGHT_EXTEND_REDUCTION && !worsening {
        d = d + 1;
    }
    if prior_reduction >= HINDSIGHT_REDUCE_REDUCTION && d >= 2 && static_eval + prev_eval
        > HINDSIGHT_REDUCE_EVAL {
        d = d - 1;
    }
    d
}

/// The evaluation is so far below the window that only captures can help.
pub fn razors(depth: i32, eval: Value, alpha: Value) -> (r: bool)
    requires
        1 <= depth <= 1000,
        -100_000 <= eval <= 100_000,
        -100_000 <= alpha <= 100_000,
    ensures
        r == (depth <= RAZORING_MAX_DEPTH && eval < alpha - RAZORING_QUAD * (depth * depth)),
{
    if depth > RAZORING_MAX_DEPTH {
        return false;
    }
    proof {
        assert(1 <= depth * depth <= 64) by (nonlinear_arith)
            requires
                1 <= depth <= 8,
        ;
    }
    eval < alpha - RAZORING_QUAD * (depth * depth)
}

/// Margin by which the evaluation has to exceed the window for reverse futility pruning.
pub open spec fn futility_margin(depth: int, tt_hit: bool, improving: bool, worsening: bool) -> int {
    let mult = if tt_hit {
        RFP_MULT_TT as int
    } else {
        RFP_MULT_NO_TT as int
    };
    mult * depth - (if improving {
        2474 * mult / 1024
    } else {
        0
    }) - (if worsening {
        331 * mult / 1024
    } else {
        0
    })
}

/// Reverse futility pruning: the score to return where the evaluation is far enough above
/// the window.
pub fn reverse_futility(
    depth: i32,
    eval: Value,
    beta: Value,
    tt_hit: bool,
    improving: bool,
    worsening: bool,
) -> (r: Option<Value>)
    requires
        1 <= depth <= 1000,
        -100_000 <= eval <= 100_000,
        -100_000 <= beta <= 100_000,
    ensures
        match r {
            Some(v) => eval >= beta && eval - futility_margin(
                depth as int,
                tt_hit,
                improving,
                worsening,
            ) >= beta && v == quot(2 * beta + eval, 3) && (beta <= v <= eval || v == 0),
            None => eval < beta || eval - futility_margin(
                depth as int,
                tt_hit,
                improving,
                worsening,
            ) < beta,
        },
{
    let mult: i32 = if tt_hit {
        RFP_MULT_TT
    } else {
        RFP_MULT_NO_TT
    };
    let mut bonus: i32 = 0;
    if improving {
        bonus = bonus + RFP_IMPROVING_MULT * mult / 1024;
    }
    if worsening {
        bonus = bonus + RFP_WORSENING_MULT * mult / 1024;
    }
    proof {
        assert(0 <= mult * depth <= 200_000) by (nonlinear_arith)
            requires
                0 <= mult <= 200,
                1 <= depth <= 1000,
        ;
    }
    let margin: i32 = mult * depth - bonus;
    if eval - margin >= beta && eval >= beta {
        Some(div_toward_zero(2 * beta as i64 + eval as i64, 3) as i32)
    } else {
        None
    }
}

/// The static evaluation is good enough to try passing.
pub fn null_move_promises(depth: i32, static_eval: Value, beta: Value, improving: bool) -> (r: bool)
    requires
        1 <= depth <= 1000,
        -100_000 <= static_eval <= 100_000,
        -100_000 <= beta <= 100_000,
    ensures
        r == (static_eval >= beta - NMP_DEPTH_MULT * depth - (if improving {
            NMP_IMPROVING as int
        } else {
            0
        }) + NMP_BASE),
{
    static_eval >= beta - NMP_DEPTH_MULT * depth - (if improving {
        NMP_IMPROVING
    } else {
        0
    }) + NMP_BASE
}

/// Reduction of the search after passing.
pub fn null_move_reduction(depth: i32, static_eval: Value, beta: Value) -> (r: i32)
    requires
        1 <= depth <= 1000,
        -100_000 <= static_eval <= 100_000,
        -100_000 <= beta <= 100_000,
    ensures
        ({
            let gain = quot(static_eval - beta, NMP_EVAL_DIV as int);
            let full = NMP_REDUCTION_BASE + depth as int / NMP_REDUCTION_DIV as int + (if gain > 0 {
                gain
            } else {
                0
            });
            r == (if full < depth {
                full
            } else {
                depth as int
            })
        }),
        0 <= r <= depth,
{
    let gain = div_toward_zero(static_eval as i64 - beta as i64, NMP_EVAL_DIV as i64) as i32;
    let full: i32 = NMP_REDUCTION_BASE + depth / NMP_REDUCTION_DIV + (if gain > 0 {
        gain
    } else {
        0
    });
    if full < depth {
        full
    } else {
        depth
    }
}

/// Window a capture has to exceed for ProbCut.
#[verifier::allow_in_spec]
pub fn probcut_beta(beta: Value, improving: bool) -> Value
    requires
        -100_000 <= beta <= 100_000,
    returns
        (beta + PROBCUT_MARGIN - (if improving {
            PROBCUT_IMPROVING as int
        } else {
            0
        })) as i32,
{
    beta + PROBCUT_MARGIN - (if improving {
        PROBCUT_IMPROVING
    } else {
        0
    })
}

/// Depth of the ProbCut search.
pub fn probcut_depth(depth: i32, static_eval: Value, beta: Value) -> (r: i32)
    requires
        1 <= depth <= 1000,
        -100_000 <= static_eval <= 100_000,
        -100_000 <= beta <= 100_000,
    ensures
        r == clamped(
            depth - PROBCUT_DEPTH_SUB - quot(static_eval - beta, PROBCUT_DIVISOR as int),
            0,
            depth as int,
        ),
        0 <= r <= depth,
{
    let d: i64 = depth as i64 - PROBCUT_DEPTH_SUB as i64 - div_toward_zero(
        static_eval as i64 - beta as i64,
        PROBCUT_DIVISOR as i64,
    );
    clamp(d, 0, depth)
}

/// Number of moves after which the remaining quiet ones are skipped.
pub open spec fn late_move_limit(depth: int, improving: bool) -> int {
    if improving {
        3 + depth * depth
    } else {
        (3 + depth * depth) / 2
    }
}

/// Number of moves after which the remaining quiet ones are skipped.
pub fn late_move_count(depth: i32, improving: bool) -> (r: usize)
    requires
        1 <= depth <= 1000,
    ensures
        r == late_move_limit(depth as int, improving),
{
    proof {
        assert(1 <= depth * depth <= 1_000_000) by (nonlinear_arith)
            requires
                1 <= depth <= 1000,
        ;
    }
    let n: usize = (3 + depth * depth) as usize;
    if improving {
        n
    } else {
        n / 2
    }
}

/// Exchange loss a capture may have at this depth, given its history.
pub fn capture_see_margin(depth: i32, history: i32) -> (r: Value)
    requires
        1 <= depth <= 1000,
        -20_000 <= history <= 20_000,
    ensures
        ({
            let m = SEE_CAPTURE_LINEAR * depth + quot(history as int, SEE_CAPTURE_HIST_DIV as int);
            r == (if m > 0 {
                m
            } else {
                0
            })
        }),
        0 <= r <= 200_000,
{
    let m: i64 = 166 * depth as i64 + div_toward_zero(history as i64, SEE_CAPTURE_HIST_DIV as i64);
    if m > 0 {
        m as i32
    } else {
        0
    }
}

/// The most a quiet move can be expected to reach.
pub fn quiet_futility(static_eval: Value, no_best: bool, lmr_depth: i32) -> (r: Value)
    requires
        -100_000 <= static_eval <= 100_000,
        0 <= lmr_depth <= 2000,
    ensures
        r == static_eval + QUIET_FUTILITY_BASE + (if no_best {
            QUIET_FUTILITY_NO_BEST as int
        } else {
            0
        }) + QUIET_FUTILITY_PER_DEPTH * lmr_depth,
        static_eval < r <= static_eval + 203 + 127 * lmr_depth,
{
    static_eval + QUIET_FUTILITY_BASE + (if no_best {
        QUIET_FUTILITY_NO_BEST
    } else {
        0
    }) + QUIET_FUTILITY_PER_DEPTH * lmr_depth
}

/// Score the alternatives to the table's move are held against.
pub fn singular_window(tt_value: Value, depth: i32, tt_move_history: i32) -> (r: Value)
    requires
        -40_000 <= tt_value <= 40_000,
        1 <= depth <= 1000,
        -8192 <= tt_move_history <= 8192,
    ensures
        r == tt_value - SE_BETA_DEPTH_MULT * depth + quot(
            tt_move_history as int,
            SE_TT_HISTORY_DIV as int,
        ),
        tt_value - 3 * depth - 60 <= r <= tt_value - 3 * depth + 60,
{
    proof {
        assert(-55 <= quot(tt_move_history as int, 150) <= 55);
    }
    (tt_value as i64 - 3 * depth as i64 + div_toward_zero(
        tt_move_history as i64,
        SE_TT_HISTORY_DIV as i64,
    )) as i32
}

/// How far a singular table move is extended: further the further the alternatives fall
/// behind.
pub fn singular_extension(value: Value, window: Value, depth: i32, tt_capture: bool) -> (r: i32)
    requires
        -100_000 <= value <= 100_000,
        -100_000 <= window <= 100_000,
        1 <= depth <= 1000,
    ensures
        ({
            let double = depth * 2 - (if tt_capture {
                5int
            } else {
                0
            });
            let triple = depth * 4 - (if tt_capture {
                10int
            } else {
                0
            });
            r == (if value < window - triple {
                3
            } else if value < window - double {
                2
            } else {
                1int
            })
        }),
        1 <= r <= 3,
{
    let double: i32 = depth * 2 - (if tt_capture {
        5
    } else {
        0
    });
    let triple: i32 = depth * 4 - (if tt_capture {
        10
    } else {
        0
    });
    let mut e: i32 = 1;
    if value < window - double {
        e = 2;
    }
    if value < window - triple {
        e = 3;
    }
    e
}

/// What decides the reduction of a late move.
#[derive(Clone, Copy)]
pub struct Reducing {
    /// Reduction by depth and move count alone.
    pub base: i32,
    pub improving: bool,
    pub tt_pv: bool,
    pub cut_node: bool,
    pub all_node: bool,
    /// Butterfly and pawn history of the move.
    pub history: i32,
    /// Continuation histories of the move.
    pub continuation: i32,
    /// How much the static evaluation was corrected.
    pub correction: i32,
    pub shuffling: bool,
    /// Many children of the node cut off.
    pub cutting: bool,
    /// The table's moves have not been reliable.
    pub unreliable: bool,
}

impl Reducing {
    pub open spec fn wf(self) -> bool {
        &&& 0 <= self.base <= 255
        &&& -40_000 <= self.history <= 40_000
        &&& -40_000 <= self.continuation <= 40_000
        &&& -100_000 <= self.correction <= 100_000
    }

    /// Reduction before the last two adjustments.
    pub open spec fn raw(self) -> int {
        let c = if self.correction < 0 {
            -self.correction
        } else {
            self.correction as int
        };
        self.base + (if !self.improving {
            1int
        } else {
            0
        }) - (if self.tt_pv {
            1int
        } else {
            0
        }) + (if self.cut_node {
            1int
        } else {
            0
        }) - (quot(self.history as int, 4096) + quot(self.continuation as int, 6144)) - clamped(
            (c * 256) / 15185,
            0,
            2,
        ) + (if self.shuffling {
            1int
        } else {
            0
        }) + (if self.cutting {
            if self.all_node {
                2int
            } else {
                1
            }
        } else {
            0
        })
    }

    /// The reduction of a late move at `depth`.
    pub open spec fn amount(self, depth: int) -> int {
        let r = if self.unreliable && self.raw() > 0 {
            self.raw() - 1
        } else {
            self.raw()
        };
        clamped(
            r,
            0,
            if depth > 2 {
                depth - 2
            } else {
                0
            },
        )
    }
}

/// The reduction of a late move.
#[verifier::rlimit(40)]
#[verifier::spinoff_prover]
pub fn late_move_reduction(x: Reducing, depth: i32) -> (r: i32)
    requires
        x.wf(),
        1 <= depth <= 1000,
    ensures
        r == x.amount(depth as int),
        0 <= r <= depth,
        depth >= 2 ==> r <= depth - 2,
{
    let mut r: i64 = x.base as i64;
    if !x.improving {
        r = r + 1;
    }
    if x.tt_pv {
        r = r - 1;
    }
    if x.cut_node {
        r = r + 1;
    }
    r = r - (div_toward_zero(x.history as i64, 4096) + div_toward_zero(x.continuation as i64, 6144));
    let c: i64 = if x.correction < 0 {
        -(x.correction as i64)
    } else {
        x.correction as i64
    };
    let trimmed = clamp(c * 256 / 15185, 0, 2) as i64;
    r = r - trimmed;
    if x.shuffling {
        r = r + 1;
    }
    if x.cutting {
        r = r + 1;
        if x.all_node {
            r = r + 1;
        }
    }
    assert(r == x.raw());
    if x.unreliable && r > 0 {
        r = r - 1;
    }
    let top: i32 = if depth > 2 {
        depth - 2
    } else {
        0
    };
    clamp(r, 0, top)
}

/// A fail-high score drawn towards the window, the less the deeper it was searched.
pub fn softened(score: Value, depth: i32, beta: Value) -> (r: Value)
    requires
        1 <= depth <= 1000,
        -100_000 <= beta <= score <= 100_000,
    ensures
        r == quot(score * depth + beta, depth + 1),
        beta <= r <= score,
{
    proof {
        let (s, d, b) = (score as int, depth as int, beta as int);
        assert(-100_000_000 <= s * d <= 100_000_000) by (nonlinear_arith)
            requires
                -100_000 <= s <= 100_000,
                1 <= d <= 1000,
        ;
        lemma_between(s, d, b);
    }
    div_toward_zero(score as i64 * depth as i64 + beta as i64, depth as i64 + 1) as i32
}

/// Halfway between a score and the bound it went beyond.
pub fn halfway(score: Value, beta: Value) -> (r: Value)
    requires
        -100_000 <= score <= 100_000,
        -100_000 <= beta <= 100_000,
    ensures
        r == quot(score + beta, 2),
        score <= beta ==> score <= r <= beta,
        beta <= score ==> beta <= r <= score,
{
    div_toward_zero(score as i64 + beta as i64, 2) as Value
}

/// A weighted mean lies between what it is taken of.
proof fn lemma_between(s: int, d: int, b: int)
    requires
        b <= s,
        1 <= d,
    ensures
        b <= quot(s * d + b, d + 1) <= s,
{
    let x = s * d + b;
    assert(x <= s * (d + 1) && x >= b * (d + 1)) by (nonlinear_arith)
        requires
            b <= s,
            1 <= d,
            x == s * d + b,
    ;
    if x >= 0 {
        assert(b <= x / (d + 1) <= s) by (nonlinear_arith)
            requires
                x >= 0,
                d >= 1,
                b * (d + 1) <= x <= s * (d + 1),
        ;
    } else {
        let y = -x;
        assert((-s) * (d + 1) == -(s * (d + 1)) && (-b) * (d + 1) == -(b * (d + 1)))
            by (nonlinear_arith);
        assert(-s <= y / (d + 1) <= -b) by (nonlinear_arith)
            requires
                y >= 0,
                d >= 1,
                (-s) * (d + 1) <= y <= (-b) * (d + 1),
        ;
    }
}

} // verus!
