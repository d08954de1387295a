//! Evaluation of a lone king against pieces that can force mate: a constant saying the
//! position is won, plus a small gradient that always points at the mate.

use vstd::prelude::*;

use crate::bitboard::{distance, lemma_masks, DARK_SQUARES, LIGHT_SQUARES};
use crate::bits::{group_has, holds, lemma_empty, lemma_lowest, lowest};
use crate::draws::square_color;
use crate::geometry::{abs, on_board, steps};
use crate::position::Position;
use crate::rules::{count, king, king_sq, lemma_count_bound, lemma_occ, one_king, owned, Board};
use crate::types::{file, file_of, rank, rank_of, Color, Piece, PieceType, Square, Value};

verus! {

broadcast use {group_has, lemma_occ};

/// Base score for a position the winning side mates from by force.
pub const KNOWN_WIN: Value = 2000;

/// Weight on the corner term for bishop and knight, which has to outweigh everything else.
pub const CORNER_WEIGHT: i32 = 560;

/// Number of pieces of a type.
pub open spec fn number(b: Board, c: Color, pt: PieceType) -> int {
    count(b, Piece::make(c, pt).0 as int) as int
}

/// Every bishop of `c` stands on squares of one colour.
pub open spec fn bishops_share(b: Board, c: Color, shade: int) -> bool {
    forall|s: int|
        on_board(s) && #[trigger] b[s] == Piece::make(c, PieceType::Bishop) ==> square_color(s)
            == shade
}

/// Without pawns, rooks or queens: at most two knights, or bishops of one square colour.
pub open spec fn cannot_mate(b: Board, c: Color) -> bool {
    &&& number(b, c, PieceType::Pawn) == 0
    &&& number(b, c, PieceType::Rook) == 0
    &&& number(b, c, PieceType::Queen) == 0
    &&& if number(b, c, PieceType::Bishop) == 0 {
        number(b, c, PieceType::Knight) <= 2
    } else {
        number(b, c, PieceType::Knight) == 0 && (bishops_share(b, c, 0) || bishops_share(b, c, 1))
    }
}

/// `c` has nothing but its king.
pub open spec fn bare(b: Board, c: Color) -> bool {
    forall|s: int| on_board(s) && owned(#[trigger] b[s], c) ==> b[s] == king(c)
}

/// `c` mates a lone king by force.
pub open spec fn mates_lone_king(b: Board, c: Color) -> bool {
    bare(b, c.flip()) && number(b, c, PieceType::Pawn) == 0 && !cannot_mate(b, c)
}

/// Distance from the nearer edge.
pub open spec fn edge_distance(x: int) -> int {
    if x < 7 - x {
        x
    } else {
        7 - x
    }
}

/// Drives the bare king to an edge: 90 on the rim, down to 28 in the centre.
pub open spec fn push_to_edge(s: int) -> int {
    let fd = edge_distance(file(s));
    let rd = edge_distance(rank(s));
    let d = if fd < rd {
        fd
    } else {
        rd
    };
    90 - 2 * (7 * d * d / 2)
}

/// Brings the kings together.
pub open spec fn push_close(a: int, b: int) -> int {
    140 - 20 * steps(a, b)
}

/// Distance from the diagonal between the corners that do not count: seven at the corners
/// that do. A dark bishop mates at a1 and h8, a light one at h1 and a8.
pub open spec fn push_to_corner(s: int, dark: bool) -> int {
    if dark {
        abs(7 - rank(s) - file(s))
    } else {
        abs(rank(s) - file(s))
    }
}

/// The dark bishop stands on the board.
pub open spec fn dark_bishop(b: Board, c: Color) -> bool {
    exists|s: int|
        on_board(s) && #[trigger] b[s] == Piece::make(c, PieceType::Bishop) && square_color(s) == 0
}

/// How well the winning side `c` has cornered the lone king.
pub open spec fn shaping(b: Board, c: Color) -> int {
    let wk = king_sq(b, c);
    let lk = king_sq(b, c.flip());
    if number(b, c, PieceType::Bishop) == 1 && number(b, c, PieceType::Knight) == 1 {
        CORNER_WEIGHT * push_to_corner(lk, dark_bishop(b, c)) + push_close(wk, lk)
    } else {
        push_to_edge(lk) + push_close(wk, lk)
    }
}

/// Exchange value of the pieces of `c` other than pawns.
pub open spec fn pieces_value(b: Board, c: Color) -> int {
    number(b, c, PieceType::Knight) * 320 + number(b, c, PieceType::Bishop) * 330 + number(
        b,
        c,
        PieceType::Rook,
    ) * 500 + number(b, c, PieceType::Queen) * 1000
}

/// The winner, White first.
pub open spec fn lone_king_winner(b: Board) -> Option<Color> {
    if mates_lone_king(b, Color::White) {
        Some(Color::White)
    } else if mates_lone_king(b, Color::Black) {
        Some(Color::Black)
    } else {
        None
    }
}

/// The evaluation against a lone king, for the side to move.
pub open spec fn lone_king_value(b: Board, stm: Color) -> Option<int> {
    match lone_king_winner(b) {
        None => None,
        Some(c) => {
            let v = KNOWN_WIN + pieces_value(b, c) + shaping(b, c);
            Some(
                if stm == c {
                    v
                } else {
                    -v
                },
            )
        },
    }
}

/// Whether the bishops of `c` in `set` are all off it.
fn none_on(pos: &Position, c: Color, set: u64, shade: u8) -> (r: bool)
    requires
        pos.wf(),
        shade < 2,
        forall|s: int| on_board(s) ==> (#[trigger] holds(set, s) <==> square_color(s) == shade),
    ensures
        r == bishops_share(pos@.board, c, 1 - shade),
        !r == exists|s: int|
            on_board(s) && #[trigger] pos@.board[s] == Piece::make(c, PieceType::Bishop)
                && square_color(s) == shade,
{
    let x = pos.pieces_cp(c, PieceType::Bishop) & set;
    proof {
        let b = pos@.board;
        if x != 0 {
            lemma_lowest(x);
            assert(holds(x, lowest(x)));
            assert(b[lowest(x)] == Piece::make(c, PieceType::Bishop));
        } else {
            assert forall|s: int|
                on_board(s) && #[trigger] b[s] == Piece::make(
                    c,
                    PieceType::Bishop,
                ) implies square_color(s) == 1 - shade by {
                lemma_empty(x);
                assert(!holds(x, s));
                assert(!holds(set, s));
            }
        }
    }
    x == 0
}

/// True when `c`, having no pawns, cannot force mate against a bare king.
pub fn side_cannot_mate(pos: &Position, c: Color) -> (r: bool)
    requires
        pos.wf(),
    ensures
        r == cannot_mate(pos@.board, c),
{
    if pos.count_cp(c, PieceType::Pawn) != 0 {
        return false;
    }
    if pos.count_cp(c, PieceType::Rook) != 0 || pos.count_cp(c, PieceType::Queen) != 0 {
        return false;
    }
    let knights = pos.count_cp(c, PieceType::Knight);
    let bishops = pos.count_cp(c, PieceType::Bishop);
    if bishops == 0 {
        return knights <= 2;
    }
    if knights == 0 {
        proof {
            assert forall|s: int| on_board(s) implies (#[trigger] holds(LIGHT_SQUARES, s)
                <==> square_color(s) == 1) by {
                lemma_masks(s);
            }
            assert forall|s: int| on_board(s) implies (#[trigger] holds(DARK_SQUARES, s)
                <==> square_color(s) == 0) by {
                lemma_masks(s);
            }
        }
        return none_on(pos, c, LIGHT_SQUARES, 1) || none_on(pos, c, DARK_SQUARES, 0);
    }
    false
}

fn edge_distance_of(x: u8) -> (r: i32)
    requires
        x < 8,
    ensures
        r == edge_distance(x as int),
        0 <= r <= 3,
{
    if x < 7 - x {
        x as i32
    } else {
        7 - x as i32
    }
}

fn push_to_edge_of(sq: Square) -> (r: i32)
    requires
        sq < 64,
    ensures
        r == push_to_edge(sq as int),
        28 <= r <= 90,
{
    let rd = edge_distance_of(rank_of(sq));
    let fd = edge_distance_of(file_of(sq));
    let d = if fd < rd {
        fd
    } else {
        rd
    };
    proof {
        assert(0 <= 7 * d * d <= 63) by (nonlinear_arith)
            requires
                0 <= d <= 3,
        ;
        assert(0 <= 7 * d <= 21);
    }
    90 - 2 * (7 * d * d / 2)
}

fn push_to_corner_of(sq: Square, dark: bool) -> (r: i32)
    requires
        sq < 64,
    ensures
        r == push_to_corner(sq as int, dark),
        0 <= r <= 7,
{
    let f = file_of(sq) as i32;
    let k = rank_of(sq) as i32;
    let d: i32 = if dark {
        7 - k - f
    } else {
        k - f
    };
    if d < 0 {
        -d
    } else {
        d
    }
}

/// Whether `c` has nothing but its king.
fn is_bare(pos: &Position, c: Color) -> (r: bool)
    requires
        pos.wf(),
    ensures
        r == bare(pos@.board, c),
{
    let x = pos.pieces_c(c) & !pos.pieces_cp(c, PieceType::King);
    proof {
        let b = pos@.board;
        if x != 0 {
            lemma_lowest(x);
            assert(holds(x, lowest(x)));
            assert(owned(b[lowest(x)], c) && b[lowest(x)] != king(c));
        } else {
            assert forall|s: int| on_board(s) && owned(#[trigger] b[s], c) implies b[s] == king(
                c,
            ) by {
                lemma_empty(x);
                assert(!holds(x, s));
            }
        }
    }
    x == 0
}

/// A complete evaluation for a lone king from the side to move's point of view, or `None`
/// where the position is not one.
#[verifier::rlimit(60)]
pub fn kx_vs_k(pos: &Position) -> (r: Option<Value>)
    requires
        pos.wf(),
        pos@.variant.royal_king(),
    ensures
        match lone_king_value(pos@.board, pos@.stm) {
            Some(v) => r == Some(v as i32) && -150_000 <= v <= 150_000,
            None => r is None,
        },
{
    let ghost b = pos@.board;
    proof {
        assert(one_king(b, Color::White) && one_king(b, Color::Black));
    }
    let mut winner = Color::White;
    let mut found = false;
    if is_bare(pos, Color::Black) && pos.count_cp(Color::White, PieceType::Pawn) == 0
        && !side_cannot_mate(pos, Color::White) {
        found = true;
    } else if is_bare(pos, Color::White) && pos.count_cp(Color::Black, PieceType::Pawn) == 0
        && !side_cannot_mate(pos, Color::Black) {
        winner = Color::Black;
        found = true;
    }
    if !found {
        return None;
    }
    proof {
        assert(lone_king_winner(b) == Some(winner));
        assert(one_king(b, winner) && one_king(b, winner.flip()));
    }
    let wk = pos.king_square(winner);
    let lk = pos.king_square(winner.flip());
    let close: i32 = 140 - 20 * distance(wk, lk) as i32;
    let shape: i32 = if pos.count_cp(winner, PieceType::Bishop) == 1 && pos.count_cp(
        winner,
        PieceType::Knight,
    ) == 1 {
        proof {
            assert forall|s: int| on_board(s) implies (#[trigger] holds(DARK_SQUARES, s)
                <==> square_color(s) == 0) by {
                lemma_masks(s);
            }
        }
        let dark = !none_on(pos, winner, DARK_SQUARES, 0);
        CORNER_WEIGHT * push_to_corner_of(lk, dark) + close
    } else {
        push_to_edge_of(lk) + close
    };
    proof {
        lemma_count_bound(b, Piece::make(winner, PieceType::Knight).0 as int, 0);
        lemma_count_bound(b, Piece::make(winner, PieceType::Bishop).0 as int, 0);
        lemma_count_bound(b, Piece::make(winner, PieceType::Rook).0 as int, 0);
        lemma_count_bound(b, Piece::make(winner, PieceType::Queen).0 as int, 0);
    }
    let v: i32 = KNOWN_WIN + pos.non_pawn_material(winner) + shape;
    Some(
        if pos.side_to_move() == winner {
            v
        } else {
            -v
        },
    )
}

} // verus!
