//! Geometry of the board over plain integers: lines, segments, and which square each
//! kind of piece reaches from which.

use vstd::prelude::*;

use crate::bits::holds;
use crate::types::{file, rank, Color, PieceType};

verus! {

/// A square of the board.
pub open spec fn on_board(s: int) -> bool {
    0 <= s < 64
}

pub open spec fn abs(x: int) -> int {
    if x < 0 {
        -x
    } else {
        x
    }
}

/// King steps from `a` to `b`.
pub open spec fn steps(a: int, b: int) -> int {
    if abs(file(a) - file(b)) >= abs(rank(a) - rank(b)) {
        abs(file(a) - file(b))
    } else {
        abs(rank(a) - rank(b))
    }
}

/// Two different squares of one rank or file.
pub open spec fn rook_line(a: int, b: int) -> bool {
    a != b && (file(a) == file(b) || rank(a) == rank(b))
}

/// Two different squares of one diagonal.
pub open spec fn bishop_line(a: int, b: int) -> bool {
    a != b && abs(file(a) - file(b)) == abs(rank(a) - rank(b))
}

/// Two different squares of one rank, file or diagonal.
pub open spec fn same_line(a: int, b: int) -> bool {
    rook_line(a, b) || bishop_line(a, b)
}

/// `v` lies strictly between `lo` and `hi`, in either order.
pub open spec fn inside(lo: int, v: int, hi: int) -> bool {
    lo < v < hi || hi < v < lo
}

/// The square `x` lies on the rank, file or diagonal through `a` and `b`.
pub open spec fn in_line(a: int, b: int, x: int) -> bool {
    &&& on_board(x)
    &&& ({
        ||| file(a) == file(b) && rank(a) != rank(b) && file(x) == file(a)
        ||| rank(a) == rank(b) && file(a) != file(b) && rank(x) == rank(a)
        ||| a != b && file(a) - file(b) == rank(a) - rank(b) && file(x) - file(a) == rank(x) - rank(
            a,
        )
        ||| a != b && file(a) - file(b) == rank(b) - rank(a) && file(x) - file(a) == rank(a) - rank(
            x,
        )
    })
}

/// The square `x` lies strictly between `a` and `b` on their common line.
pub open spec fn between(a: int, b: int, x: int) -> bool {
    &&& in_line(a, b, x)
    &&& inside(file(a), file(x), file(b)) || inside(rank(a), rank(x), rank(b))
}

/// No square strictly between `a` and `b` is in `occ`.
pub open spec fn clear(a: int, b: int, occ: u64) -> bool {
    forall|x: int|
        #![trigger between(a, b, x)]
        #![trigger holds(occ, x)]
        between(a, b, x) ==> !holds(occ, x)
}

/// A knight's jump.
pub open spec fn knight_jump(a: int, b: int) -> bool {
    ||| abs(file(a) - file(b)) == 1 && abs(rank(a) - rank(b)) == 2
    ||| abs(file(a) - file(b)) == 2 && abs(rank(a) - rank(b)) == 1
}

/// A king's step.
pub open spec fn king_step(a: int, b: int) -> bool {
    a != b && abs(file(a) - file(b)) <= 1 && abs(rank(a) - rank(b)) <= 1
}

/// Rank change of a pawn of colour `c` moving ahead.
pub open spec fn ahead(c: Color) -> int {
    match c {
        Color::White => 1,
        Color::Black => -1,
    }
}

/// A pawn of colour `c` on `a` attacks `b`.
pub open spec fn pawn_hit(c: Color, a: int, b: int) -> bool {
    rank(b) - rank(a) == ahead(c) && abs(file(a) - file(b)) == 1
}

/// A piece of type `pt` (not a pawn) on `a` reaches `b` over the occupancy `occ`.
pub open spec fn reaches(pt: PieceType, a: int, b: int, occ: u64) -> bool {
    match pt {
        PieceType::Pawn => false,
        PieceType::Knight => knight_jump(a, b),
        PieceType::Bishop => bishop_line(a, b) && clear(a, b, occ),
        PieceType::Rook => rook_line(a, b) && clear(a, b, occ),
        PieceType::Queen => same_line(a, b) && clear(a, b, occ),
        PieceType::King => king_step(a, b),
    }
}

/// A piece of type `pt` and colour `c` on `a` attacks `b` over the occupancy `occ`.
pub open spec fn hits(c: Color, pt: PieceType, a: int, b: int, occ: u64) -> bool {
    if pt == PieceType::Pawn {
        pawn_hit(c, a, b)
    } else {
        reaches(pt, a, b, occ)
    }
}

/// Lines and segments do not depend on the order of their ends.
pub proof fn lemma_line_symmetric(a: int, b: int)
    requires
        on_board(a),
        on_board(b),
    ensures
        rook_line(a, b) == rook_line(b, a),
        bishop_line(a, b) == bishop_line(b, a),
        forall|x: int| #[trigger] between(a, b, x) == between(b, a, x),
        forall|x: int| #[trigger] in_line(a, b, x) == in_line(b, a, x),
{
}

/// A free segment is free from both ends.
pub proof fn lemma_clear_symmetric(a: int, b: int, occ: u64)
    requires
        on_board(a),
        on_board(b),
    ensures
        clear(a, b, occ) == clear(b, a, occ),
{
    lemma_line_symmetric(a, b);
}

/// Reaching is mutual for every piece but the pawn.
pub proof fn lemma_reaches_symmetric(pt: PieceType, a: int, b: int, occ: u64)
    requires
        on_board(a),
        on_board(b),
    ensures
        reaches(pt, a, b, occ) == reaches(pt, b, a, occ),
{
    lemma_line_symmetric(a, b);
    lemma_clear_symmetric(a, b, occ);
}

/// A pawn attacks the squares from which a pawn of the other colour attacks it.
pub proof fn lemma_pawn_hit_mutual(c: Color, a: int, b: int)
    ensures
        pawn_hit(c, a, b) == pawn_hit(c.flip(), b, a),
{
}

/// An inner square of a segment splits it: it shares the line with both ends, and the
/// squares before and after it are inner squares too.
pub proof fn lemma_between_split(a: int, b: int, x: int)
    requires
        on_board(a),
        on_board(b),
        between(a, b, x),
    ensures
        x != a,
        x != b,
        rook_line(a, b) ==> rook_line(a, x) && rook_line(x, b),
        bishop_line(a, b) ==> bishop_line(a, x) && bishop_line(x, b),
        rook_line(a, x) ==> rook_line(a, b),
        bishop_line(a, x) ==> bishop_line(a, b),
        same_line(a, b),
        forall|y: int| #[trigger] between(a, x, y) ==> between(a, b, y),
        forall|y: int| #[trigger] between(x, b, y) ==> between(a, b, y),
        forall|y: int| #[trigger]
            between(a, b, y) ==> y == x || between(a, x, y) || between(x, b, y),
        forall|y: int| #[trigger] in_line(a, x, y) ==> in_line(a, b, y),
        forall|y: int| #[trigger] in_line(a, b, y) ==> in_line(a, x, y),
{
}

/// Rook lines and bishop lines exclude each other, and neither is a knight's jump.
pub proof fn lemma_lines_differ(a: int, b: int)
    requires
        on_board(a),
        on_board(b),
    ensures
        !(rook_line(a, b) && bishop_line(a, b)),
        knight_jump(a, b) ==> !same_line(a, b),
        king_step(a, b) ==> same_line(a, b) && forall|x: int| !#[trigger] between(a, b, x),
        !knight_jump(a, a),
        !king_step(a, a),
{
}

} // verus!
