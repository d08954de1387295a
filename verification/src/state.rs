//! Per-ply state of a position.

use vstd::prelude::*;

use crate::types::{Bitboard, Piece, Square, PIECE_TYPE_NB, SQ_NONE};

verus! {

#[derive(Clone, Copy, Debug)]
pub struct StateInfo {
    // Copied from the previous state when a move is made.
    pub castling_rights: u8,
    pub rule50: i32,
    pub plies_from_null: i32,
    pub ep_square: Square,
    pub pawn_key: u64,
    pub nonpawn_key: [u64; 2],
    pub minor_key: u64,
    pub material_key: u64,
    // Recomputed after every move.
    pub key: u64,
    pub checkers: Bitboard,
    pub blockers_for_king: [Bitboard; 2],
    pub pinners: [Bitboard; 2],
    pub check_squares: [Bitboard; PIECE_TYPE_NB],
    pub captured_piece: Piece,
    /// 0 = no repetition; +d = the position d plies ago repeats (first repeat);
    /// -d = that earlier position was itself already a repetition (a threefold).
    pub repetition: i32,
    /// Three-check: checks delivered so far by each colour.
    pub checks_given: [u8; 2],
    /// Antichess: the side to move has a capture available and must take.
    pub must_capture: bool,
    /// Crazyhouse pockets [color][piece type].
    pub hand: [[u8; 5]; 2],
    /// Crazyhouse: pieces that arrived by promotion (captured as pawns).
    pub promoted: Bitboard,
}

impl StateInfo {
    pub(crate) fn empty() -> (r: StateInfo)
        ensures
            r.castling_rights == 0,
            r.rule50 == 0,
            r.plies_from_null == 0,
            r.ep_square == SQ_NONE,
            r.checkers == 0,
            r.captured_piece == Piece::none(),
            r.repetition == 0,
            forall|c: int| 0 <= c < 2 ==> #[trigger] r.checks_given@[c] == 0,
            forall|c: int, p: int|
                0 <= c < 2 && 0 <= p < 5 ==> #[trigger] r.hand@[c]@[p] == 0,
            r.promoted == 0,
            !r.must_capture,
    {
        StateInfo {
            castling_rights: 0,
            rule50: 0,
            plies_from_null: 0,
            ep_square: SQ_NONE,
            pawn_key: 0,
            nonpawn_key: [0;2],
            minor_key: 0,
            material_key: 0,
            key: 0,
            checkers: 0,
            blockers_for_king: [0;2],
            pinners: [0;2],
            check_squares: [0;PIECE_TYPE_NB],
            captured_piece: Piece(12),
            repetition: 0,
            checks_given: [0;2],
            must_capture: false,
            hand: [[0;5];2],
            promoted: 0,
        }
    }
}

} // verus!
