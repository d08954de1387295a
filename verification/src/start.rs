//! The starting position.

use vstd::prelude::*;

use crate::fen::{describes, lemma_no_rights};
use crate::fenspec::{no_castling, with_right, Castling, Setup};
use crate::geometry::on_board;
use crate::position::Position;
use crate::rules::{is_king_square, king, king_sq, one_king, Board, PosView};
use crate::types::{Color, Piece, Square, SQ_NONE};
use crate::variant::Variant;

verus! {

/// Pieces of the starting position, by square.
pub const START_BOARD: [u8; 64] = [
    3, 1, 2, 4, 5, 2, 1, 3,
    0, 0, 0, 0, 0, 0, 0, 0,
    12, 12, 12, 12, 12, 12, 12, 12,
    12, 12, 12, 12, 12, 12, 12, 12,
    12, 12, 12, 12, 12, 12, 12, 12,
    12, 12, 12, 12, 12, 12, 12, 12,
    6, 6, 6, 6, 6, 6, 6, 6,
    9, 7, 8, 10, 11, 8, 7, 9,
];

pub open spec fn start_board() -> Board {
    Seq::new(64, |s: int| Piece(START_BOARD@[s]))
}

/// The starting position: the usual board, White to move, every castling right.
pub open spec fn start_setup() -> Setup {
    let b = start_board();
    let x1 = with_right(b, no_castling(), Color::White, 7);
    let x2 = with_right(b, x1, Color::White, 0);
    let x3 = with_right(b, x2, Color::Black, 63);
    let x4 = with_right(b, x3, Color::Black, 56);
    Setup {
        board: b,
        stm: Color::White,
        castling: x4,
        ep: 64,
        rule50: 0,
        game_ply: 0,
        checks: (0, 0),
        marks: 0,
        pocket: seq![],
    }
}

proof fn lemma_start_board(s: int)
    requires
        on_board(s),
    ensures
        START_BOARD@[s] <= 12,
        START_BOARD@[s] == 5 <==> s == 4,
        START_BOARD@[s] == 11 <==> s == 60,
        START_BOARD@[s] == 3 <==> s == 0 || s == 7,
        START_BOARD@[s] == 9 <==> s == 56 || s == 63,
{
}

proof fn lemma_start_kings()
    ensures
        one_king(start_board(), Color::White),
        one_king(start_board(), Color::Black),
        king_sq(start_board(), Color::White) == 4,
        king_sq(start_board(), Color::Black) == 60,
{
    let b = start_board();
    assert forall|s: int| on_board(s) implies (#[trigger] b[s] == king(Color::White) <==> s == 4)
        && (b[s] == king(Color::Black) <==> s == 60) by {
        lemma_start_board(s);
    }
    assert(is_king_square(b, Color::White, 4));
    assert(is_king_square(b, Color::Black, 60));
}

impl Position {
    /// The standard starting position.
    pub fn startpos() -> (r: Position)
        ensures
            r.wf(),
            describes(start_setup(), Variant::Standard, r@),
    {
        let mut pos = Position::empty(Variant::Standard);
        let ghost v0 = pos@;
        let mut s: usize = 0;
        while s < 64
            invariant
                s <= 64,
                pos.board_ok(),
                pos.keys.wf(),
                pos@ == (PosView { board: pos@.board, ..v0 }),
                forall|x: int| 0 <= x < s ==> #[trigger] pos@.board[x] == Piece(START_BOARD@[x]),
                forall|x: int| s <= x < 64 ==> (#[trigger] pos@.board[x]).0 == 12,
            decreases 64 - s,
        {
            let pc = Piece(START_BOARD[s]);
            proof {
                lemma_start_board(s as int);
            }
            if pc.is_some() {
                pos.put_piece(pc, s as Square);
            }
            s += 1;
        }
        proof {
            assert(pos@.board =~= start_board());
            lemma_start_kings();
            assert(pos.ready());
            lemma_no_rights(pos@);
            lemma_start_board(0);
            lemma_start_board(7);
            lemma_start_board(56);
            lemma_start_board(63);
            assert((Castling {
                rights: pos@.st().castling_rights,
                mask: pos@.mask,
                rooks: pos@.rooks,
            }) =~= no_castling());
        }
        pos.set_castling_right(Color::White, 7);
        pos.set_castling_right(Color::White, 0);
        pos.set_castling_right(Color::Black, 63);
        pos.set_castling_right(Color::Black, 56);
        proof {
            assert(pos@.states =~= seq![pos@.st()]);
        }
        pos.complete(SQ_NONE, 0, 0, [0, 0], [[0;5];2], 0);
        proof {
            assert(start_setup().pocket =~= seq![]);
        }
        pos
    }
}

impl Default for Position {
    fn default() -> (r: Position)
        ensures
            r.wf(),
            describes(start_setup(), Variant::Standard, r@),
    {
        Position::startpos()
    }
}

} // verus!
