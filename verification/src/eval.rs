//! Static evaluation: insufficient-material draws, the network's value (or, for the
//! variants it does not speak for, the hand-crafted evaluation), the lone-king
//! specialisation and fifty-move damping.

use vstd::prelude::*;

use crate::arith::{clamp, clamped, div_toward_zero, quot};
use crate::hce;
use crate::hce::hce_value;
use crate::mopup::{kx_vs_k, lone_king_value};
use crate::position::Position;
use crate::rules::PosView;
use crate::types::{Value, VALUE_DRAW, VALUE_EVAL_MAX};
use crate::variant::Variant;
use crate::varianteval::{
    antichess, burden, crazyhouse_hand, hand_score, hill_distance, king_of_the_hill_bonus,
    race_score, racing_kings, three_check_bonus, CHECK_BONUS,
};

verus! {

/// A value drawn towards zero as the fifty-move rule comes closer.
pub open spec fn damped(v: int, rule50: int) -> int {
    let clock = if rule50 < 199 {
        rule50
    } else {
        199
    };
    v - quot(v * clock, 199)
}

/// A value kept below the mate range.
pub open spec fn bounded(v: int) -> int {
    clamped(v, -VALUE_EVAL_MAX, VALUE_EVAL_MAX as int)
}

impl PosView {
    /// The evaluation where the network has no say.
    pub open spec fn own_evaluation(self) -> Option<int> {
        let b = self.board;
        let us = self.stm;
        let them = self.stm.flip();
        let fifty = self.st().rule50 as int;
        match self.variant {
            Variant::Antichess => Some(bounded(burden(b, them) - burden(b, us))),
            Variant::RacingKings => Some(bounded(race_score(b, us) - race_score(b, them))),
            Variant::ThreeCheck => Some(
                bounded(
                    damped(
                        hce_value(b, us) + (CHECK_BONUS@[self.st().checks_given@[us.idx() as int] as int]
                            - CHECK_BONUS@[self.st().checks_given@[them.idx() as int] as int]),
                        fifty,
                    ),
                ),
            ),
            Variant::Crazyhouse => Some(
                bounded(
                    damped(
                        hce_value(b, us) + (hand_score(self, us) - hand_score(self, them)),
                        fifty,
                    ),
                ),
            ),
            Variant::KingOfTheHill => Some(
                bounded(
                    damped(
                        hce_value(b, us) + 35 * (hill_distance(b, them) - hill_distance(b, us)),
                        fifty,
                    ),
                ),
            ),
            _ => if self.insufficient() {
                Some(0)
            } else {
                match lone_king_value(b, us) {
                    Some(v) => Some(bounded(damped(v, fifty))),
                    None => None,
                }
            },
        }
    }

    /// The evaluation, `raw` being what the network says of the position.
    pub open spec fn evaluation(self, raw: int) -> int {
        match self.own_evaluation() {
            Some(v) => v,
            None => bounded(damped(raw, self.st().rule50 as int)),
        }
    }
}

/// Draws a value towards zero as the fifty-move rule comes closer.
fn apply_rule50_damping(pos: &Position, v: Value) -> (r: i64)
    requires
        pos.wf(),
    ensures
        r == damped(v as int, pos@.st().rule50 as int),
{
    let rule50 = pos.rule50_count();
    let clock: i32 = if rule50 < 199 {
        rule50
    } else {
        199
    };
    proof {
        assert(-0x4000_0000_0000_0000 <= v * clock <= 0x4000_0000_0000_0000) by (nonlinear_arith)
            requires
                -0x8000_0000 <= v <= 0x7fff_ffff,
                -0x8000_0000 <= clock <= 199,
        ;
        if clock == 0 {
            assert(v * clock == 0) by (nonlinear_arith)
                requires
                    clock == 0,
            ;
        }
    }
    if clock == 0 {
        return v as i64;
    }
    v as i64 - div_toward_zero(v as i64 * clock as i64, 199)
}

fn damped_and_bounded(pos: &Position, v: Value) -> (r: Value)
    requires
        pos.wf(),
    ensures
        r == bounded(damped(v as int, pos@.st().rule50 as int)),
        -VALUE_EVAL_MAX <= r <= VALUE_EVAL_MAX,
{
    clamp(apply_rule50_damping(pos, v), -VALUE_EVAL_MAX, VALUE_EVAL_MAX)
}

/// The evaluation where the network has no say: the variants with an evaluation of their
/// own, dead positions and lone kings.
pub fn evaluate_without_network(pos: &Position) -> (r: Option<Value>)
    requires
        pos.wf(),
    ensures
        match pos@.own_evaluation() {
            Some(v) => r == Some(v as i32) && -VALUE_EVAL_MAX <= v <= VALUE_EVAL_MAX,
            None => r is None,
        },
{
    match pos.variant() {
        Variant::Antichess => {
            return Some(clamp(antichess(pos) as i64, -VALUE_EVAL_MAX, VALUE_EVAL_MAX));
        },
        Variant::RacingKings => {
            return Some(clamp(racing_kings(pos) as i64, -VALUE_EVAL_MAX, VALUE_EVAL_MAX));
        },
        Variant::ThreeCheck => {
            let v = hce::evaluate(pos) + three_check_bonus(pos);
            return Some(damped_and_bounded(pos, v));
        },
        Variant::Crazyhouse => {
            let v = hce::evaluate(pos) + crazyhouse_hand(pos);
            return Some(damped_and_bounded(pos, v));
        },
        Variant::KingOfTheHill => {
            let v = hce::evaluate(pos) + king_of_the_hill_bonus(pos);
            return Some(damped_and_bounded(pos, v));
        },
        _ => {},
    }
    if pos.is_insufficient_material() {
        return Some(VALUE_DRAW);
    }
    if let Some(v) = kx_vs_k(pos) {
        return Some(damped_and_bounded(pos, v));
    }
    None
}

/// Evaluation from the side to move's perspective, clamped below the mate range; `raw` is
/// the network's value of the position.
pub fn evaluate(pos: &Position, raw: Value) -> (r: Value)
    requires
        pos.wf(),
    ensures
        r == pos@.evaluation(raw as int),
        -VALUE_EVAL_MAX <= r <= VALUE_EVAL_MAX,
{
    match evaluate_without_network(pos) {
        Some(v) => v,
        None => damped_and_bounded(pos, raw),
    }
}

/// Damping keeps the sign of a value and never enlarges it.
pub proof fn damping_shrinks(v: int, rule50: int)
    requires
        rule50 >= 0,
    ensures
        v >= 0 ==> 0 <= damped(v, rule50) <= v,
        v <= 0 ==> v <= damped(v, rule50) <= 0,
        rule50 == 0 ==> damped(v, rule50) == v,
        rule50 >= 199 ==> damped(v, rule50) == 0,
{
    let clock = if rule50 < 199 {
        rule50
    } else {
        199
    };
    assert(v >= 0 ==> 0 <= (v * clock) / 199 <= v) by (nonlinear_arith)
        requires
            0 <= clock <= 199,
    ;
    assert(v <= 0 ==> 0 <= ((-v) * clock) / 199 <= -v) by (nonlinear_arith)
        requires
            0 <= clock <= 199,
    ;
    assert((-v) * clock == -(v * clock)) by (nonlinear_arith);
    assert(clock == 0 ==> v * clock == 0) by (nonlinear_arith);
    assert(clock == 199 ==> v * clock == v * 199);
    assert(v >= 0 && clock >= 0 ==> v * clock >= 0) by (nonlinear_arith);
    assert(v <= 0 && clock >= 0 ==> v * clock <= 0) by (nonlinear_arith);
}

} // verus!
