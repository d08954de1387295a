//! What a search tells of itself: scores and lines as text.

use vstd::prelude::*;

use crate::arith::{clamp, clamped, div_toward_zero, quot};
use crate::mopup::number;
use crate::params::{
    WDL_A_INTERCEPT, WDL_A_SLOPE, WDL_B_INTERCEPT, WDL_B_SLOPE, WDL_MATERIAL_ANCHOR,
    WDL_MATERIAL_MAX, WDL_MATERIAL_MIN,
};
use crate::position::Position;
use crate::rules::{Board, PosView};
use crate::searcher::SCORE_LIMIT;
use crate::text::{decimal, decimal_int, push_integer, push_natural, push_text};
use crate::types::{
    is_loss, is_win, Color, Move, PieceType, Value, VALUE_MATE,
};

verus! {

/// Material of both sides in pawns: minor pieces three, rooks five, queens nine.
pub open spec fn material(b: Board) -> int {
    side_material(b, Color::White) + side_material(b, Color::Black)
}

pub open spec fn side_material(b: Board, c: Color) -> int {
    number(b, c, PieceType::Pawn) + 3 * number(b, c, PieceType::Knight) + 3 * number(
        b,
        c,
        PieceType::Bishop,
    ) + 5 * number(b, c, PieceType::Rook) + 9 * number(b, c, PieceType::Queen)
}

impl Position {
    fn side_material_count(&self, c: Color) -> (r: i32)
        requires
            self.board_ok(),
        ensures
            r == side_material(self@.board, c),
            0 <= r <= 2000,
    {
        self.count_cp(c, PieceType::Pawn) + 3 * self.count_cp(c, PieceType::Knight) + 3
            * self.count_cp(c, PieceType::Bishop) + 5 * self.count_cp(c, PieceType::Rook) + 9
            * self.count_cp(c, PieceType::Queen)
    }

    /// Material of both sides in pawns.
    pub fn material_count(&self) -> (r: i32)
        requires
            self.board_ok(),
        ensures
            r == material(self@.board),
            0 <= r <= 4000,
    {
        self.side_material_count(Color::White) + self.side_material_count(Color::Black)
    }
}

/// One parameter of the win-rate model, times 1000.
pub open spec fn wdl_parameter(intercept: int, slope: int, m: int) -> int {
    let x = intercept + quot(
        slope * clamped(m, WDL_MATERIAL_MIN as int, WDL_MATERIAL_MAX as int),
        WDL_MATERIAL_ANCHOR as int,
    );
    if x > 1000 {
        x
    } else {
        1000
    }
}

/// The win-rate model's parameters for this position, both times 1000.
pub fn win_rate_params(pos: &Position) -> (r: (i32, i32))
    requires
        pos.board_ok(),
    ensures
        r.0 == wdl_parameter(
            WDL_A_INTERCEPT as int,
            WDL_A_SLOPE as int,
            material(pos@.board),
        ),
        r.1 == wdl_parameter(
            WDL_B_INTERCEPT as int,
            WDL_B_SLOPE as int,
            material(pos@.board),
        ),
        1000 <= r.0 <= 10_000_000,
        1000 <= r.1 <= 10_000_000,
{
    let m: i64 = clamp(pos.material_count() as i64, WDL_MATERIAL_MIN, WDL_MATERIAL_MAX) as i64;
    let a: i64 = WDL_A_INTERCEPT as i64 + div_toward_zero(-103_382 * m, 58);
    let b: i64 = WDL_B_INTERCEPT as i64 + div_toward_zero(41_764 * m, 58);
    (
        if a > 1000 {
            a as i32
        } else {
            1000
        },
        if b > 1000 {
            b as i32
        } else {
            1000
        },
    )
}

/// Text of a score: moves to mate, or centipawns, where normalised a pawn being what wins
/// half the time.
pub open spec fn score_text(v: Value, b: Board, normalize: bool) -> Seq<char> {
    if is_win(v) {
        "mate "@ + decimal_int(quot(VALUE_MATE - v + 1, 2))
    } else if is_loss(v) {
        "mate -"@ + decimal_int(quot(VALUE_MATE + v + 1, 2))
    } else if normalize {
        "cp "@ + decimal_int(
            quot(
                100_000 * v,
                wdl_parameter(WDL_A_INTERCEPT as int, WDL_A_SLOPE as int, material(b)),
            ),
        )
    } else {
        "cp "@ + decimal_int(v as int)
    }
}

/// Chances of winning, drawing and losing, in a thousand.
pub open spec fn wdl_text(v: Value, win: i32, loss: i32) -> Seq<char> {
    let w: int = if is_win(v) {
        1000
    } else if is_loss(v) {
        0
    } else {
        win as int
    };
    let l: int = if is_win(v) {
        0
    } else if is_loss(v) {
        1000
    } else {
        loss as int
    };
    " wdl "@ + decimal_int(w) + " "@ + decimal_int(1000 - w - l) + " "@ + decimal_int(l)
}

/// A score as text. `chances` holds the chances of winning and losing in a thousand, where
/// they are to be shown.
pub fn format_score(v: Value, pos: &Position, normalize: bool, chances: Option<(i32, i32)>) -> (r:
    String)
    requires
        pos.board_ok(),
        -SCORE_LIMIT <= v <= SCORE_LIMIT,
        chances matches Some((w, l)) ==> 0 <= w <= 1000 && 0 <= l <= 1000,
    ensures
        r@ == score_text(v, pos@.board, normalize) + (match chances {
            Some((w, l)) => wdl_text(v, w, l),
            None => seq![],
        }),
{
    let mut s = String::new();
    if is_win(v) {
        push_text(&mut s, "mate ");
        push_integer(&mut s, div_toward_zero((VALUE_MATE - v + 1) as i64, 2));
    } else if is_loss(v) {
        push_text(&mut s, "mate -");
        push_integer(&mut s, div_toward_zero((VALUE_MATE + v + 1) as i64, 2));
    } else {
        push_text(&mut s, "cp ");
        if normalize {
            let (a, _) = win_rate_params(pos);
            push_integer(&mut s, div_toward_zero(100_000 * v as i64, a as i64));
        } else {
            push_integer(&mut s, v as i64);
        }
    }
    proof {
        assert(s@ =~= score_text(v, pos@.board, normalize));
    }
    if let Some((win, loss)) = chances {
        let ghost head = s@;
        let w: i32 = if is_win(v) {
            1000
        } else if is_loss(v) {
            0
        } else {
            win
        };
        let l: i32 = if is_win(v) {
            0
        } else if is_loss(v) {
            1000
        } else {
            loss
        };
        push_text(&mut s, " wdl ");
        push_integer(&mut s, w as i64);
        push_text(&mut s, " ");
        push_integer(&mut s, (1000 - w - l) as i64);
        push_text(&mut s, " ");
        push_integer(&mut s, l as i64);
        proof {
            assert(s@ =~= head + wdl_text(v, win, loss));
        }
    } else {
        proof {
            assert(s@ =~= s@ + Seq::<char>::empty());
        }
    }
    s
}

/// The moves of a line as text, a space between.
pub open spec fn line_text(v: PosView, line: Seq<Move>, n: nat) -> Seq<char>
    decreases n,
{
    if n == 0 {
        seq![]
    } else if n == 1 {
        v.move_text(line[0])
    } else {
        line_text(v, line, (n - 1) as nat) + " "@ + v.move_text(line[n - 1])
    }
}

/// Numbers of a search at one moment.
#[derive(Clone, Copy)]
pub struct Progression {
    pub depth: i32,
    pub seldepth: usize,
    /// Number of the line, from one.
    pub number: usize,
    pub nodes: u64,
    pub hashfull: u32,
    /// Milliseconds spent.
    pub elapsed: u64,
}

impl Progression {
    /// Milliseconds spent, at least one.
    pub open spec fn time(self) -> int {
        if self.elapsed < 1 {
            1
        } else {
            self.elapsed as int
        }
    }

    pub open spec fn text(self, score: Seq<char>, v: PosView, line: Seq<Move>) -> Seq<char> {
        "info depth "@ + decimal_int(self.depth as int) + " seldepth "@ + decimal_int(
            if self.seldepth > self.depth {
                self.seldepth as int
            } else {
                self.depth as int
            },
        ) + " multipv "@ + decimal(self.number as nat) + " score "@ + score + " nodes "@ + decimal(
            self.nodes as nat,
        ) + " nps "@ + decimal(((self.nodes as int) * 1000 / self.time()) as nat) + " hashfull "@
            + decimal(self.hashfull as nat) + " time "@ + decimal(self.time() as nat) + " pv "@
            + line_text(v, line, line.len())
    }
}

/// The information line of one principal variation.
#[verifier::rlimit(40)]
pub fn info_line(p: Progression, score: &str, pos: &Position, line: &Vec<Move>) -> (r: String)
    requires
        1 <= p.depth <= 1000,
        p.seldepth <= 1000,
        p.nodes <= 0x0020_0000_0000_0000,
    ensures
        r@ == p.text(score@, pos@, line@),
{
    let time: u64 = if p.elapsed < 1 {
        1
    } else {
        p.elapsed
    };
    let deepest: u64 = if p.seldepth > p.depth as usize {
        p.seldepth as u64
    } else {
        p.depth as u64
    };
    let mut s = String::new();
    push_text(&mut s, "info depth ");
    push_integer(&mut s, p.depth as i64);
    push_text(&mut s, " seldepth ");
    push_integer(&mut s, deepest as i64);
    push_text(&mut s, " multipv ");
    push_natural(&mut s, p.number as u64);
    push_text(&mut s, " score ");
    push_text(&mut s, score);
    push_text(&mut s, " nodes ");
    push_natural(&mut s, p.nodes);
    push_text(&mut s, " nps ");
    push_natural(&mut s, p.nodes * 1000 / time);
    push_text(&mut s, " hashfull ");
    push_natural(&mut s, p.hashfull as u64);
    push_text(&mut s, " time ");
    push_natural(&mut s, time);
    push_text(&mut s, " pv ");
    let ghost head = s@;
    push_line(&mut s, pos, line);
    proof {
        assert(s@ =~= p.text(score@, pos@, line@));
    }
    s
}

/// Appends the moves of a line, a space between.
pub fn push_line(s: &mut String, pos: &Position, line: &Vec<Move>)
    ensures
        final(s)@ == old(s)@ + line_text(pos@, line@, line@.len()),
{
    let ghost head = s@;
    let mut i: usize = 0;
    while i < line.len()
        invariant
            i <= line@.len(),
            s@ =~= head + line_text(pos@, line@, i as nat),
        decreases line@.len() - i,
    {
        if i > 0 {
            push_text(s, " ");
        }
        let t = pos.move_to_uci(line[i]);
        push_text(s, t.as_str());
        i += 1;
    }
}

} // verus!
