//! Sizes of the attack sets on the empty board: how many pairs of squares there are where a
//! piece attacks the second from the first.

use vstd::prelude::*;

use crate::bits::group_has;
use crate::geometry::{clear, reaches};
use crate::threats::{pair_reached, pairs_before, sizes_match};
use crate::types::{file, rank, PieceType};

verus! {

broadcast use group_has;

spec fn one_if(b: bool) -> int {
    if b {
        1
    } else {
        0
    }
}

/// Squares of a rank `gap` ranks away that a piece on file `f` attacks.
spec fn on_rank(pt: PieceType, f: int, gap: int) -> int {
    let diagonal = if gap == 0 {
        0
    } else {
        one_if(f >= gap) + one_if(f + gap <= 7)
    };
    let straight = if gap == 0 {
        7int
    } else {
        1
    };
    match pt {
        PieceType::Knight => if gap == 1 {
            one_if(f >= 2) + one_if(f <= 5)
        } else if gap == 2 {
            one_if(f >= 1) + one_if(f <= 6)
        } else {
            0
        },
        PieceType::Bishop => diagonal,
        PieceType::Rook => straight,
        PieceType::Queen => diagonal + straight,
        _ => 0,
    }
}

spec fn gap(a: int, b: int) -> int {
    if a < b {
        b - a
    } else {
        a - b
    }
}

/// Squares that a piece on `s` attacks.
#[verifier::opaque]
spec fn from_square(pt: PieceType, s: int) -> int {
    on_rank(pt, s % 8, gap(s / 8, 0)) + on_rank(pt, s % 8, gap(s / 8, 1)) + on_rank(
        pt,
        s % 8,
        gap(s / 8, 2),
    ) + on_rank(pt, s % 8, gap(s / 8, 3)) + on_rank(pt, s % 8, gap(s / 8, 4)) + on_rank(
        pt,
        s % 8,
        gap(s / 8, 5),
    ) + on_rank(pt, s % 8, gap(s / 8, 6)) + on_rank(pt, s % 8, gap(s / 8, 7))
}

spec fn slides_or_jumps(pt: PieceType) -> bool {
    pt == PieceType::Knight || pt == PieceType::Bishop || pt == PieceType::Rook || pt
        == PieceType::Queen
}

/// The square numbered `j` of rank `r` is attacked as its distance says.
proof fn lemma_attacked(pt: PieceType, s: int, r: int, j: int)
    requires
        slides_or_jumps(pt),
        0 <= s < 64,
        0 <= r < 8,
        0 <= j < 8,
    ensures
        pair_reached(pt, 64 * s + 8 * r + j) == ({
            let d = gap(s / 8, r);
            let e = gap(s % 8, j);
            match pt {
                PieceType::Knight => (d == 1 && e == 2) || (d == 2 && e == 1),
                PieceType::Bishop => d != 0 && d == e,
                PieceType::Rook => (d == 0) != (e == 0),
                _ => (d != 0 && d == e) || (d == 0) != (e == 0),
            }
        }),
{
    let k = 64 * s + 8 * r + j;
    let t = 8 * r + j;
    assert(k / 64 == s && k % 64 == t);
    assert(file(t) == j && rank(t) == r);
    assert(file(s) == s % 8 && rank(s) == s / 8);
    assert(clear(s, t, 0));
    assert(pair_reached(pt, k) == reaches(pt, s, t, 0));
}

/// The attacked squares of one rank.
#[verifier::spinoff_prover]
proof fn lemma_on_rank(pt: PieceType, s: int, r: int)
    requires
        slides_or_jumps(pt),
        0 <= s < 64,
        0 <= r < 8,
    ensures
        pairs_before(pt, (64 * s + 8 * r + 8) as nat) == pairs_before(pt, (64 * s + 8 * r) as nat)
            + on_rank(pt, s % 8, gap(s / 8, r)),
{
    let k = 64 * s + 8 * r;
    lemma_attacked(pt, s, r, 0);
    lemma_attacked(pt, s, r, 1);
    lemma_attacked(pt, s, r, 2);
    lemma_attacked(pt, s, r, 3);
    lemma_attacked(pt, s, r, 4);
    lemma_attacked(pt, s, r, 5);
    lemma_attacked(pt, s, r, 6);
    lemma_attacked(pt, s, r, 7);
    assert(pairs_before(pt, (k + 1) as nat) == pairs_before(pt, k as nat) + one_if(
        pair_reached(pt, k),
    ));
    assert(pairs_before(pt, (k + 2) as nat) == pairs_before(pt, (k + 1) as nat) + one_if(
        pair_reached(pt, k + 1),
    ));
    assert(pairs_before(pt, (k + 3) as nat) == pairs_before(pt, (k + 2) as nat) + one_if(
        pair_reached(pt, k + 2),
    ));
    assert(pairs_before(pt, (k + 4) as nat) == pairs_before(pt, (k + 3) as nat) + one_if(
        pair_reached(pt, k + 3),
    ));
    assert(pairs_before(pt, (k + 5) as nat) == pairs_before(pt, (k + 4) as nat) + one_if(
        pair_reached(pt, k + 4),
    ));
    assert(pairs_before(pt, (k + 6) as nat) == pairs_before(pt, (k + 5) as nat) + one_if(
        pair_reached(pt, k + 5),
    ));
    assert(pairs_before(pt, (k + 7) as nat) == pairs_before(pt, (k + 6) as nat) + one_if(
        pair_reached(pt, k + 6),
    ));
    assert(pairs_before(pt, (k + 8) as nat) == pairs_before(pt, (k + 7) as nat) + one_if(
        pair_reached(pt, k + 7),
    ));
    let f = s % 8;
    assert(f == 0 || f == 1 || f == 2 || f == 3 || f == 4 || f == 5 || f == 6 || f == 7);
}

/// The attacked squares from one square.
proof fn lemma_from_square(pt: PieceType, s: int)
    requires
        slides_or_jumps(pt),
        0 <= s < 64,
    ensures
        pairs_before(pt, (64 * (s + 1)) as nat) == pairs_before(pt, (64 * s) as nat) + from_square(
            pt,
            s,
        ),
{
    reveal(from_square);
    lemma_on_rank(pt, s, 0);
    lemma_on_rank(pt, s, 1);
    lemma_on_rank(pt, s, 2);
    lemma_on_rank(pt, s, 3);
    lemma_on_rank(pt, s, 4);
    lemma_on_rank(pt, s, 5);
    lemma_on_rank(pt, s, 6);
    lemma_on_rank(pt, s, 7);
}

/// Squares attacked from the squares of a rank together.
#[verifier::opaque]
spec fn from_rank(pt: PieceType, r: int) -> int {
    from_square(pt, 8 * r) + from_square(pt, 8 * r + 1) + from_square(pt, 8 * r + 2)
        + from_square(pt, 8 * r + 3) + from_square(pt, 8 * r + 4) + from_square(pt, 8 * r + 5)
        + from_square(pt, 8 * r + 6) + from_square(pt, 8 * r + 7)
}

proof fn lemma_from_rank(pt: PieceType, r: int)
    requires
        slides_or_jumps(pt),
        0 <= r < 8,
    ensures
        pairs_before(pt, (512 * (r + 1)) as nat) == pairs_before(pt, (512 * r) as nat) + from_rank(
            pt,
            r,
        ),
{
    reveal(from_rank);
    lemma_from_square(pt, 8 * r);
    lemma_from_square(pt, 8 * r + 1);
    lemma_from_square(pt, 8 * r + 2);
    lemma_from_square(pt, 8 * r + 3);
    lemma_from_square(pt, 8 * r + 4);
    lemma_from_square(pt, 8 * r + 5);
    lemma_from_square(pt, 8 * r + 6);
    lemma_from_square(pt, 8 * r + 7);
}

proof fn lemma_total(pt: PieceType)
    requires
        slides_or_jumps(pt),
    ensures
        pairs_before(pt, 4096) == from_rank(pt, 0) + from_rank(pt, 1) + from_rank(pt, 2)
            + from_rank(pt, 3) + from_rank(pt, 4) + from_rank(pt, 5) + from_rank(pt, 6)
            + from_rank(pt, 7),
{
    lemma_from_rank(pt, 0);
    lemma_from_rank(pt, 1);
    lemma_from_rank(pt, 2);
    lemma_from_rank(pt, 3);
    lemma_from_rank(pt, 4);
    lemma_from_rank(pt, 5);
    lemma_from_rank(pt, 6);
    lemma_from_rank(pt, 7);
}

#[verifier::spinoff_prover]
#[verifier::rlimit(40)]
proof fn lemma_knights()
    ensures
        pairs_before(PieceType::Knight, 4096) == 336,
{
    let pt = PieceType::Knight;
    lemma_total(pt);
    reveal(from_square);
    reveal(from_rank);
    assert(from_rank(pt, 0) == 26);
    assert(from_rank(pt, 1) == 38);
    assert(from_rank(pt, 2) == 52);
    assert(from_rank(pt, 3) == 52);
    assert(from_rank(pt, 4) == 52);
    assert(from_rank(pt, 5) == 52);
    assert(from_rank(pt, 6) == 38);
    assert(from_rank(pt, 7) == 26);
}

#[verifier::spinoff_prover]
#[verifier::rlimit(40)]
proof fn lemma_bishops()
    ensures
        pairs_before(PieceType::Bishop, 4096) == 560,
{
    let pt = PieceType::Bishop;
    lemma_total(pt);
    reveal(from_square);
    reveal(from_rank);
    assert(from_rank(pt, 0) == 56);
    assert(from_rank(pt, 1) == 68);
    assert(from_rank(pt, 2) == 76);
    assert(from_rank(pt, 3) == 80);
    assert(from_rank(pt, 4) == 80);
    assert(from_rank(pt, 5) == 76);
    assert(from_rank(pt, 6) == 68);
    assert(from_rank(pt, 7) == 56);
}

#[verifier::spinoff_prover]
#[verifier::rlimit(40)]
proof fn lemma_rooks()
    ensures
        pairs_before(PieceType::Rook, 4096) == 896,
{
    let pt = PieceType::Rook;
    lemma_total(pt);
    reveal(from_square);
    reveal(from_rank);
    assert forall|r: int| 0 <= r < 8 implies #[trigger] from_rank(pt, r) == 112 by {
        assert forall|s: int| 0 <= s < 64 implies #[trigger] from_square(pt, s) == 14 by {}
    }
}

/// What a queen attacks is what a bishop and a rook attack together.
#[verifier::spinoff_prover]
proof fn lemma_queen_square(s: int)
    ensures
        from_square(PieceType::Queen, s) == from_square(PieceType::Bishop, s) + from_square(
            PieceType::Rook,
            s,
        ),
{
    reveal(from_square);
}

#[verifier::spinoff_prover]
proof fn lemma_queen_rank(r: int)
    ensures
        from_rank(PieceType::Queen, r) == from_rank(PieceType::Bishop, r) + from_rank(
            PieceType::Rook,
            r,
        ),
{
    reveal(from_rank);
    lemma_queen_square(8 * r);
    lemma_queen_square(8 * r + 1);
    lemma_queen_square(8 * r + 2);
    lemma_queen_square(8 * r + 3);
    lemma_queen_square(8 * r + 4);
    lemma_queen_square(8 * r + 5);
    lemma_queen_square(8 * r + 6);
    lemma_queen_square(8 * r + 7);
}

#[verifier::spinoff_prover]
proof fn lemma_queens()
    ensures
        pairs_before(PieceType::Queen, 4096) == 1456,
{
    lemma_bishops();
    lemma_rooks();
    lemma_total(PieceType::Bishop);
    lemma_total(PieceType::Rook);
    lemma_total(PieceType::Queen);
    lemma_queen_rank(0);
    lemma_queen_rank(1);
    lemma_queen_rank(2);
    lemma_queen_rank(3);
    lemma_queen_rank(4);
    lemma_queen_rank(5);
    lemma_queen_rank(6);
    lemma_queen_rank(7);
}

/// The attack sets have the sizes the numbering of threats is laid out for.
pub proof fn attack_sets_have_their_sizes()
    ensures
        sizes_match(),
{
    lemma_knights();
    lemma_bishops();
    lemma_rooks();
    lemma_queens();
}

} // verus!
