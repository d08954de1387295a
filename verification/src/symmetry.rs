//! The hand-crafted evaluation is the same for both sides: a position with the board turned
//! upside down and the colours swapped has the same value.

use vstd::prelude::*;

use crate::bits::{group_has, holds};
use crate::geometry::{
    abs, bishop_line, between, clear, king_step, knight_jump, on_board, pawn_hit, reaches,
    rook_line, steps,
};
use crate::hce::{
    backed, backward, behind_pawn, beside, bishop_pair, doubled, features, free_below, hce_value,
    king_distance, lower, on_file, outpost, passed_eg, passed_pawn, pawn_rank, phalanx, phase_of,
    piece_terms, shelter_file, shelter_pawn, side_eg, side_mg, side_terms, structure_eg,
    structure_mg, supported, table_index,
};
use crate::rules::{
    board_wf, is_king_square, king, king_sq, lemma_occ, occ, one_king, owned, pawn, Board,
};
use crate::types::{file, rank, Color, Piece, PieceType};

verus! {

broadcast use {group_has, lemma_occ};

/// The square with its rank counted from the other side.
pub open spec fn mirror(s: int) -> int {
    8 * (7 - s / 8) + s % 8
}

/// The piece in the other colour.
pub open spec fn swapped(p: Piece) -> Piece {
    if p.0 < 6 {
        Piece((p.0 + 6) as u8)
    } else if p.0 < 12 {
        Piece((p.0 - 6) as u8)
    } else {
        p
    }
}

/// The board upside down with the colours swapped.
pub open spec fn mirrored(b: Board) -> Board {
    Seq::new(64, |s: int| swapped(b[mirror(s)]))
}

pub proof fn lemma_mirror(s: int)
    requires
        on_board(s),
    ensures
        on_board(mirror(s)),
        mirror(mirror(s)) == s,
        file(mirror(s)) == file(s),
        rank(mirror(s)) == 7 - rank(s),
{
    assert(mirror(s) / 8 == 7 - s / 8 && mirror(s) % 8 == s % 8);
}

pub proof fn lemma_swapped(p: Piece, c: Color, pt: PieceType)
    requires
        p.0 <= 12,
    ensures
        swapped(swapped(p)) == p,
        swapped(p).0 <= 12,
        swapped(p).0 == 12 <==> p.0 == 12,
        p.0 < 12 ==> swapped(p).color() == p.color().flip() && swapped(p).piece_type()
            == p.piece_type(),
        owned(swapped(p), c.flip()) == owned(p, c),
        swapped(Piece::make(c, pt)) == Piece::make(c.flip(), pt),
        swapped(p) == Piece::make(c.flip(), pt) <==> p == Piece::make(c, pt),
        c.flip().flip() == c,
{
}

/// What stands on a mirrored square.
pub proof fn lemma_mirrored(b: Board, s: int)
    requires
        board_wf(b),
        on_board(s),
    ensures
        board_wf(mirrored(b)),
        mirrored(b)[mirror(s)] == swapped(b[s]),
        mirrored(b)[s] == swapped(b[mirror(s)]),
        b[s].0 <= 12,
{
    lemma_mirror(s);
    assert forall|x: int| 0 <= x < 64 implies (#[trigger] mirrored(b)[x]).0 <= 12 by {
        lemma_mirror(x);
        lemma_swapped(b[mirror(x)], Color::White, PieceType::Pawn);
    }
}

/// Mirroring twice changes nothing.
pub proof fn mirroring_is_an_involution(b: Board)
    requires
        board_wf(b),
    ensures
        mirrored(mirrored(b)) == b,
        board_wf(mirrored(b)),
{
    lemma_mirrored(b, 0);
    assert forall|s: int| 0 <= s < 64 implies mirrored(mirrored(b))[s] == b[s] by {
        lemma_mirror(s);
        lemma_mirrored(b, mirror(s));
        lemma_swapped(b[s], Color::White, PieceType::Pawn);
    }
    assert(mirrored(mirrored(b)) =~= b);
}

// Sums over the board

/// The sum of `f` over the squares below `n`.
pub open spec fn total(f: spec_fn(int) -> int, n: nat) -> int
    decreases n,
{
    if n == 0 {
        0
    } else {
        total(f, (n - 1) as nat) + f(n - 1)
    }
}

spec fn row_sum(f: spec_fn(int) -> int, r: int) -> int {
    f(8 * r) + f(8 * r + 1) + f(8 * r + 2) + f(8 * r + 3) + f(8 * r + 4) + f(8 * r + 5) + f(
        8 * r + 6,
    ) + f(8 * r + 7)
}

proof fn lemma_row_sum(f: spec_fn(int) -> int, r: int)
    requires
        0 <= r < 8,
    ensures
        total(f, (8 * r + 8) as nat) == total(f, (8 * r) as nat) + row_sum(f, r),
{
    reveal_with_fuel(total, 9);
}

proof fn lemma_rows_sum(f: spec_fn(int) -> int)
    ensures
        total(f, 64) == row_sum(f, 0) + row_sum(f, 1) + row_sum(f, 2) + row_sum(f, 3) + row_sum(
            f,
            4,
        ) + row_sum(f, 5) + row_sum(f, 6) + row_sum(f, 7),
{
    lemma_row_sum(f, 0);
    lemma_row_sum(f, 1);
    lemma_row_sum(f, 2);
    lemma_row_sum(f, 3);
    lemma_row_sum(f, 4);
    lemma_row_sum(f, 5);
    lemma_row_sum(f, 6);
    lemma_row_sum(f, 7);
    assert(total(f, 0) == 0);
}

proof fn lemma_mirrored_row(f: spec_fn(int) -> int, g: spec_fn(int) -> int, r: int)
    requires
        0 <= r < 8,
        forall|s: int| 0 <= s < 64 ==> #[trigger] g(s) == f(mirror(s)),
    ensures
        row_sum(g, r) == row_sum(f, 7 - r),
{
    assert(mirror(8 * r + 0) == 8 * (7 - r) && mirror(8 * r + 1) == 8 * (7 - r) + 1);
    assert(mirror(8 * r + 2) == 8 * (7 - r) + 2 && mirror(8 * r + 3) == 8 * (7 - r) + 3);
    assert(mirror(8 * r + 4) == 8 * (7 - r) + 4 && mirror(8 * r + 5) == 8 * (7 - r) + 5);
    assert(mirror(8 * r + 6) == 8 * (7 - r) + 6 && mirror(8 * r + 7) == 8 * (7 - r) + 7);
    assert(g(8 * r) == f(mirror(8 * r + 0)));
    assert(g(8 * r + 1) == f(mirror(8 * r + 1)));
    assert(g(8 * r + 2) == f(mirror(8 * r + 2)));
    assert(g(8 * r + 3) == f(mirror(8 * r + 3)));
    assert(g(8 * r + 4) == f(mirror(8 * r + 4)));
    assert(g(8 * r + 5) == f(mirror(8 * r + 5)));
    assert(g(8 * r + 6) == f(mirror(8 * r + 6)));
    assert(g(8 * r + 7) == f(mirror(8 * r + 7)));
}

/// A sum over the board does not mind the order of the ranks.
pub proof fn lemma_total_mirrored(f: spec_fn(int) -> int, g: spec_fn(int) -> int)
    requires
        forall|s: int| 0 <= s < 64 ==> #[trigger] g(s) == f(mirror(s)),
    ensures
        total(g, 64) == total(f, 64),
{
    lemma_rows_sum(f);
    lemma_rows_sum(g);
    lemma_mirrored_row(f, g, 0);
    lemma_mirrored_row(f, g, 1);
    lemma_mirrored_row(f, g, 2);
    lemma_mirrored_row(f, g, 3);
    lemma_mirrored_row(f, g, 4);
    lemma_mirrored_row(f, g, 5);
    lemma_mirrored_row(f, g, 6);
    lemma_mirrored_row(f, g, 7);
}

// Geometry

pub proof fn lemma_between_mirrored(a: int, b: int, x: int)
    requires
        on_board(a),
        on_board(b),
        on_board(x),
    ensures
        between(mirror(a), mirror(b), mirror(x)) == between(a, b, x),
        rook_line(mirror(a), mirror(b)) == rook_line(a, b),
        bishop_line(mirror(a), mirror(b)) == bishop_line(a, b),
        knight_jump(mirror(a), mirror(b)) == knight_jump(a, b),
        king_step(mirror(a), mirror(b)) == king_step(a, b),
        steps(mirror(a), mirror(b)) == steps(a, b),
        pawn_hit(Color::White, mirror(a), mirror(b)) == pawn_hit(Color::Black, a, b),
        pawn_hit(Color::Black, mirror(a), mirror(b)) == pawn_hit(Color::White, a, b),
{
    lemma_mirror(a);
    lemma_mirror(b);
    lemma_mirror(x);
}

proof fn lemma_clear_mirrored(b: Board, x: int, y: int)
    requires
        board_wf(b),
        on_board(x),
        on_board(y),
    ensures
        clear(mirror(x), mirror(y), occ(mirrored(b))) == clear(x, y, occ(b)),
{
    let m = mirrored(b);
    lemma_mirrored(b, x);
    lemma_mirror(x);
    lemma_mirror(y);
    if clear(x, y, occ(b)) {
        assert forall|z: int| between(mirror(x), mirror(y), z) implies !holds(occ(m), z) by {
            lemma_mirror(z);
            lemma_between_mirrored(x, y, mirror(z));
            lemma_mirrored(b, mirror(z));
            lemma_swapped(b[mirror(z)], Color::White, PieceType::Pawn);
            assert(!holds(occ(b), mirror(z)));
        }
    }
    if clear(mirror(x), mirror(y), occ(m)) {
        assert forall|z: int| between(x, y, z) implies !holds(occ(b), z) by {
            lemma_mirror(z);
            lemma_between_mirrored(x, y, z);
            lemma_mirrored(b, z);
            lemma_swapped(b[z], Color::White, PieceType::Pawn);
            assert(!holds(occ(m), mirror(z)));
        }
    }
}

pub proof fn lemma_reaches_mirrored(b: Board, pt: PieceType, x: int, y: int)
    requires
        board_wf(b),
        on_board(x),
        on_board(y),
    ensures
        reaches(pt, mirror(x), mirror(y), occ(mirrored(b))) == reaches(pt, x, y, occ(b)),
{
    lemma_between_mirrored(x, y, y);
    lemma_clear_mirrored(b, x, y);
}

pub proof fn lemma_king_mirrored(b: Board, c: Color)
    requires
        board_wf(b),
        one_king(b, c),
    ensures
        one_king(mirrored(b), c.flip()),
        king_sq(mirrored(b), c.flip()) == mirror(king_sq(b, c)),
        on_board(king_sq(b, c)),
{
    let m = mirrored(b);
    let k = king_sq(b, c);
    assert(is_king_square(b, c, k));
    lemma_mirror(k);
    lemma_mirrored(b, k);
    lemma_swapped(b[k], c, PieceType::King);
    assert(is_king_square(m, c.flip(), mirror(k))) by {
        assert forall|s: int| 0 <= s < 64 && #[trigger] m[s] == king(c.flip()) implies s == mirror(
            k,
        ) by {
            lemma_mirror(s);
            lemma_mirrored(b, s);
            lemma_mirrored(b, mirror(s));
            lemma_swapped(b[mirror(s)], c, PieceType::King);
        }
    }
}

// Pawn structure

/// A pawn and its mirror image.
proof fn lemma_pawn_mirrored(b: Board, c: Color, s: int)
    requires
        board_wf(b),
        on_board(s),
    ensures
        on_board(mirror(s)),
        mirror(mirror(s)) == s,
        file(mirror(s)) == file(s),
        rank(mirror(s)) == 7 - rank(s),
        mirrored(b)[mirror(s)] == pawn(c.flip()) <==> b[s] == pawn(c),
        mirrored(b)[s] == pawn(c.flip()) <==> b[mirror(s)] == pawn(c),
{
    lemma_mirror(s);
    lemma_mirrored(b, s);
    lemma_mirrored(b, mirror(s));
    lemma_swapped(b[s], c, PieceType::Pawn);
    lemma_swapped(b[mirror(s)], c, PieceType::Pawn);
}

proof fn lemma_beside_mirrored(b: Board, c: Color, f: int)
    requires
        board_wf(b),
    ensures
        beside(mirrored(b), c.flip(), f) == beside(b, c, f),
        on_file(mirrored(b), c.flip(), f) == on_file(b, c, f),
{
    let m = mirrored(b);
    if beside(b, c, f) {
        let s = choose|s: int| on_board(s) && #[trigger] b[s] == pawn(c) && abs(file(s) - f) == 1;
        lemma_pawn_mirrored(b, c, s);
        assert(m[mirror(s)] == pawn(c.flip()));
    }
    if beside(m, c.flip(), f) {
        let s = choose|s: int|
            on_board(s) && #[trigger] m[s] == pawn(c.flip()) && abs(file(s) - f) == 1;
        lemma_pawn_mirrored(b, c, s);
        assert(b[mirror(s)] == pawn(c));
    }
    if on_file(b, c, f) {
        let s = choose|s: int| on_board(s) && #[trigger] b[s] == pawn(c) && file(s) == f;
        lemma_pawn_mirrored(b, c, s);
        assert(m[mirror(s)] == pawn(c.flip()));
    }
    if on_file(m, c.flip(), f) {
        let s = choose|s: int| on_board(s) && #[trigger] m[s] == pawn(c.flip()) && file(s) == f;
        lemma_pawn_mirrored(b, c, s);
        assert(b[mirror(s)] == pawn(c));
    }
}

/// What relates a pawn to others of its side: `m` is the mirrored board.
proof fn lemma_chain_one_way(b: Board, s: int)
    requires
        board_wf(b),
        on_board(s),
        b[s].0 < 12,
    ensures
        doubled(b, s) ==> doubled(mirrored(b), mirror(s)),
        phalanx(b, s) ==> phalanx(mirrored(b), mirror(s)),
        supported(b, s) ==> supported(mirrored(b), mirror(s)),
        backed(b, s) ==> backed(mirrored(b), mirror(s)),
        !passed_pawn(b, s) ==> !passed_pawn(mirrored(b), mirror(s)),
{
    let m = mirrored(b);
    let c = b[s].color();
    lemma_mirror(s);
    lemma_mirrored(b, s);
    lemma_swapped(b[s], c, PieceType::Pawn);
    if doubled(b, s) {
        let x = choose|x: int|
            on_board(x) && x != s && #[trigger] b[x] == b[s] && file(x) == file(s);
        lemma_mirror(x);
        lemma_mirrored(b, x);
        assert(m[mirror(x)] == m[mirror(s)]);
    }
    if phalanx(b, s) {
        let x = choose|x: int|
            on_board(x) && #[trigger] b[x] == b[s] && rank(x) == rank(s) && abs(
                file(x) - file(s),
            ) == 1;
        lemma_mirror(x);
        lemma_mirrored(b, x);
        assert(m[mirror(x)] == m[mirror(s)]);
    }
    if supported(b, s) {
        let x = choose|x: int|
            on_board(x) && #[trigger] b[x] == b[s] && pawn_hit(b[s].color(), x, s);
        lemma_mirror(x);
        lemma_mirrored(b, x);
        lemma_between_mirrored(x, s, s);
        assert(m[mirror(x)] == m[mirror(s)]);
    }
    if backed(b, s) {
        let x = choose|x: int|
            on_board(x) && #[trigger] b[x] == b[s] && abs(file(x) - file(s)) == 1 && lower(
                b[s].color(),
                x,
                s,
            );
        lemma_mirror(x);
        lemma_mirrored(b, x);
        assert(m[mirror(x)] == m[mirror(s)]);
    }
    if !passed_pawn(b, s) {
        let x = choose|x: int|
            on_board(x) && abs(file(x) - file(s)) <= 1 && lower(c, s, x) && #[trigger] b[x]
                == pawn(c.flip());
        lemma_pawn_mirrored(b, c.flip(), x);
        assert(m[mirror(x)] == pawn(c.flip().flip()));
    }
}

proof fn lemma_chain_mirrored(b: Board, s: int)
    requires
        board_wf(b),
        on_board(s),
        b[s].0 < 12,
    ensures
        doubled(mirrored(b), mirror(s)) == doubled(b, s),
        phalanx(mirrored(b), mirror(s)) == phalanx(b, s),
        supported(mirrored(b), mirror(s)) == supported(b, s),
        backed(mirrored(b), mirror(s)) == backed(b, s),
        passed_pawn(mirrored(b), mirror(s)) == passed_pawn(b, s),
{
    lemma_chain_one_way(b, s);
    mirroring_is_an_involution(b);
    lemma_mirror(s);
    lemma_mirrored(b, s);
    lemma_swapped(b[s], Color::White, PieceType::Pawn);
    lemma_chain_one_way(mirrored(b), mirror(s));
}

proof fn lemma_distance_mirrored(b: Board, c: Color, t: int)
    requires
        board_wf(b),
        one_king(b, c),
        on_board(t),
    ensures
        king_distance(mirrored(b), c.flip(), mirror(t)) == king_distance(b, c, t),
{
    lemma_king_mirrored(b, c);
    lemma_between_mirrored(king_sq(b, c), t, t);
}

/// The square a pawn of `c` on the file of `s` promotes on.
spec fn promotion_square(c: Color, s: int) -> int {
    match c {
        Color::White => 56 + file(s),
        Color::Black => file(s),
    }
}

proof fn lemma_passed_mirrored(b: Board, s: int)
    requires
        board_wf(b),
        one_king(b, Color::White),
        one_king(b, Color::Black),
        on_board(s),
        b[s].0 < 12,
    ensures
        passed_eg(mirrored(b), mirror(s)) == passed_eg(b, s),
{
    let m = mirrored(b);
    let c = b[s].color();
    lemma_backward_mirrored(b, s);
    let promo = promotion_square(c, s);
    lemma_distance_mirrored(b, c, promo);
    lemma_distance_mirrored(b, c.flip(), promo);
    assert(c.flip().flip() == c);
    assert(m[mirror(s)].color() == c.flip() && promotion_square(c.flip(), mirror(s)) == mirror(
        promo,
    )) by {
        lemma_mirror(s);
        lemma_mirror(promo);
        lemma_mirrored(b, s);
        lemma_swapped(b[s], c, PieceType::Pawn);
    }
    lemma_same_passed(m, mirror(s), b, s);
}

proof fn lemma_same_passed(m: Board, x: int, b: Board, s: int)
    requires
        ({
            let c = b[s].color();
            let d = m[x].color();
            let p = promotion_square(c, s);
            let q = promotion_square(d, x);
            &&& pawn_rank(d, x) == pawn_rank(c, s)
            &&& king_distance(m, d, q) == king_distance(b, c, p)
            &&& king_distance(m, d.flip(), q) == king_distance(b, c.flip(), p)
        }),
    ensures
        passed_eg(m, x) == passed_eg(b, s),
{
}

proof fn lemma_backward_mirrored(b: Board, s: int)
    requires
        board_wf(b),
        on_board(s),
        b[s].0 < 12,
    ensures
        backward(mirrored(b), mirror(s)) == backward(b, s),
        beside(mirrored(b), mirrored(b)[mirror(s)].color(), file(mirror(s))) == beside(
            b,
            b[s].color(),
            file(s),
        ),
        pawn_rank(mirrored(b)[mirror(s)].color(), mirror(s)) == pawn_rank(b[s].color(), s),
{
    let c = b[s].color();
    lemma_mirror(s);
    lemma_mirrored(b, s);
    lemma_swapped(b[s], c, PieceType::Pawn);
    lemma_beside_mirrored(b, c, file(s));
    lemma_beside_mirrored(b, c.flip(), file(s));
    lemma_chain_mirrored(b, s);
}

proof fn lemma_structure_mirrored(b: Board, s: int)
    requires
        board_wf(b),
        one_king(b, Color::White),
        one_king(b, Color::Black),
        on_board(s),
        b[s].0 < 12,
    ensures
        structure_mg(mirrored(b), mirror(s)) == structure_mg(b, s),
        structure_eg(mirrored(b), mirror(s)) == structure_eg(b, s),
{
    lemma_backward_mirrored(b, s);
    lemma_chain_mirrored(b, s);
    lemma_passed_mirrored(b, s);
    lemma_same_structure(mirrored(b), mirror(s), b, s);
}

/// Structures that agree in every respect are worth the same.
proof fn lemma_same_structure(m: Board, x: int, b: Board, s: int)
    requires
        beside(m, m[x].color(), file(x)) == beside(b, b[s].color(), file(s)),
        pawn_rank(m[x].color(), x) == pawn_rank(b[s].color(), s),
        doubled(m, x) == doubled(b, s),
        phalanx(m, x) == phalanx(b, s),
        supported(m, x) == supported(b, s),
        backward(m, x) == backward(b, s),
        passed_pawn(m, x) == passed_pawn(b, s),
        passed_eg(m, x) == passed_eg(b, s),
    ensures
        structure_mg(m, x) == structure_mg(b, s),
        structure_eg(m, x) == structure_eg(b, s),
{
}

// Pieces

proof fn lemma_features_mirrored(b: Board, s: int)
    requires
        board_wf(b),
        one_king(b, Color::White),
        one_king(b, Color::Black),
        on_board(s),
        b[s].0 < 12,
    ensures
        features(mirrored(b), mirror(s)) == features(b, s),
{
    let m = mirrored(b);
    let c = b[s].color();
    lemma_mirror(s);
    lemma_mirrored(b, s);
    lemma_swapped(b[s], c, PieceType::Pawn);
    lemma_beside_mirrored(b, c, file(s));
    lemma_beside_mirrored(b, c.flip(), file(s));
    lemma_structure_mirrored(b, s);
    assert(outpost(m, mirror(s)) == outpost(b, s));
    assert(behind_pawn(m, mirror(s)) == behind_pawn(b, s)) by {
        let t = s + c.forward();
        let u = mirror(s) + c.flip().forward();
        if on_board(t) {
            lemma_pawn_mirrored(b, c, t);
            assert(u == mirror(t));
        } else {
            assert(!on_board(u));
        }
    }
}

proof fn lemma_free_is_total(b: Board, s: int, n: nat)
    ensures
        free_below(b, s, n) == total(
            |t: int|
                if reaches(b[s].piece_type(), s, t, occ(b)) && !owned(b[t], b[s].color()) {
                    1int
                } else {
                    0
                },
            n,
        ),
    decreases n,
{
    if n > 0 {
        lemma_free_is_total(b, s, (n - 1) as nat);
    }
}

proof fn lemma_free_mirrored(b: Board, s: int)
    requires
        board_wf(b),
        on_board(s),
        b[s].0 < 12,
    ensures
        free_below(mirrored(b), mirror(s), 64) == free_below(b, s, 64),
{
    let m = mirrored(b);
    let c = b[s].color();
    let x = mirror(s);
    lemma_mirror(s);
    lemma_mirrored(b, s);
    lemma_swapped(b[s], c, PieceType::Pawn);
    let f = |t: int|
        if reaches(b[s].piece_type(), s, t, occ(b)) && !owned(b[t], b[s].color()) {
            1int
        } else {
            0
        };
    let g = |t: int|
        if reaches(m[x].piece_type(), x, t, occ(m)) && !owned(m[t], m[x].color()) {
            1int
        } else {
            0
        };
    lemma_free_is_total(b, s, 64);
    lemma_free_is_total(m, x, 64);
    assert forall|t: int| 0 <= t < 64 implies #[trigger] g(t) == f(mirror(t)) by {
        lemma_mirror(t);
        lemma_mirrored(b, mirror(t));
        lemma_swapped(b[mirror(t)], c, PieceType::Pawn);
        lemma_reaches_mirrored(b, b[s].piece_type(), s, mirror(t));
    }
    lemma_total_mirrored(f, g);
}

proof fn lemma_terms_mirrored(b: Board, s: int)
    requires
        board_wf(b),
        one_king(b, Color::White),
        one_king(b, Color::Black),
        on_board(s),
        b[s].0 < 12,
    ensures
        piece_terms(mirrored(b), mirror(s)) == piece_terms(b, s),
{
    let c = b[s].color();
    lemma_mirror(s);
    lemma_mirrored(b, s);
    lemma_swapped(b[s], c, PieceType::Pawn);
    lemma_features_mirrored(b, s);
    lemma_free_mirrored(b, s);
    lemma_king_mirrored(b, c.flip());
    lemma_between_mirrored(s, king_sq(b, c.flip()), s);
    assert(table_index(c.flip(), mirror(s)) == table_index(c, s));
}

/// The part of the terms of a square that `pick` takes.
spec fn term_at(b: Board, c: Color, s: int, k: int) -> int {
    if !owned(b[s], c) {
        0
    } else if k == 0 {
        piece_terms(b, s).mg
    } else if k == 1 {
        piece_terms(b, s).eg
    } else if k == 2 {
        piece_terms(b, s).danger
    } else {
        piece_terms(b, s).phase
    }
}

proof fn lemma_side_is_total(b: Board, c: Color, n: nat)
    ensures
        side_terms(b, c, n).mg == total(|s: int| term_at(b, c, s, 0), n),
        side_terms(b, c, n).eg == total(|s: int| term_at(b, c, s, 1), n),
        side_terms(b, c, n).danger == total(|s: int| term_at(b, c, s, 2), n),
        side_terms(b, c, n).phase == total(|s: int| term_at(b, c, s, 3), n),
    decreases n,
{
    if n > 0 {
        lemma_side_is_total(b, c, (n - 1) as nat);
    }
}

proof fn lemma_term_total(b: Board, c: Color, k: int)
    requires
        board_wf(b),
        one_king(b, Color::White),
        one_king(b, Color::Black),
    ensures
        total(|s: int| term_at(mirrored(b), c.flip(), s, k), 64) == total(
            |s: int| term_at(b, c, s, k),
            64,
        ),
{
    let m = mirrored(b);
    let f = |s: int| term_at(b, c, s, k);
    let g = |s: int| term_at(m, c.flip(), s, k);
    assert forall|s: int| 0 <= s < 64 implies #[trigger] g(s) == f(mirror(s)) by {
        let x = mirror(s);
        lemma_mirror(s);
        lemma_mirrored(b, x);
        lemma_swapped(b[x], c, PieceType::Pawn);
        if b[x].0 < 12 {
            lemma_terms_mirrored(b, x);
        }
    }
    lemma_total_mirrored(f, g);
}

proof fn lemma_side_terms_mirrored(b: Board, c: Color)
    requires
        board_wf(b),
        one_king(b, Color::White),
        one_king(b, Color::Black),
    ensures
        side_terms(mirrored(b), c.flip(), 64) == side_terms(b, c, 64),
{
    lemma_side_is_total(b, c, 64);
    lemma_side_is_total(mirrored(b), c.flip(), 64);
    lemma_term_total(b, c, 0);
    lemma_term_total(b, c, 1);
    lemma_term_total(b, c, 2);
    lemma_term_total(b, c, 3);
}

proof fn lemma_pair_one_way(b: Board, c: Color)
    requires
        board_wf(b),
        bishop_pair(b, c),
    ensures
        bishop_pair(mirrored(b), c.flip()),
{
    let p = Piece::make(c, PieceType::Bishop);
    let s = choose|s: int|
        on_board(s) && #[trigger] b[s] == p && crate::draws::square_color(s) == 0;
    let t = choose|t: int|
        on_board(t) && #[trigger] b[t] == p && crate::draws::square_color(t) == 1;
    lemma_mirror(s);
    lemma_mirror(t);
    lemma_mirrored(b, s);
    lemma_mirrored(b, t);
    lemma_swapped(b[s], c, PieceType::Bishop);
    let m = mirrored(b);
    assert(m[mirror(s)] == Piece::make(c.flip(), PieceType::Bishop));
    assert(m[mirror(t)] == Piece::make(c.flip(), PieceType::Bishop));
    assert(crate::draws::square_color(mirror(s)) == 1);
    assert(crate::draws::square_color(mirror(t)) == 0);
}

proof fn lemma_pair_mirrored(b: Board, c: Color)
    requires
        board_wf(b),
    ensures
        bishop_pair(mirrored(b), c.flip()) == bishop_pair(b, c),
{
    mirroring_is_an_involution(b);
    lemma_swapped(Piece(12), c, PieceType::Pawn);
    if bishop_pair(b, c) {
        lemma_pair_one_way(b, c);
    }
    if bishop_pair(mirrored(b), c.flip()) {
        lemma_pair_one_way(mirrored(b), c.flip());
    }
}

proof fn lemma_shelter_mirrored(b: Board, c: Color, df: int)
    requires
        board_wf(b),
        one_king(b, c),
    ensures
        shelter_file(mirrored(b), c.flip(), df) == shelter_file(b, c, df),
{
    let m = mirrored(b);
    let k = king_sq(b, c);
    lemma_king_mirrored(b, c);
    lemma_mirror(k);
    let x = file(k) + df;
    let f = if x < 0 {
        0
    } else if x > 7 {
        7
    } else {
        x
    };
    assert forall|d: int| 1 <= d <= 3 implies #[trigger] shelter_pawn(m, c.flip(), f, d)
        == shelter_pawn(b, c, f, d) by {
        let r = rank(k) + (match c {
            Color::White => d,
            Color::Black => -d,
        });
        if 0 <= r < 8 {
            lemma_pawn_mirrored(b, c, 8 * r + f);
            assert(mirror(8 * r + f) == 8 * (7 - r) + f);
        }
    }
    assert(shelter_pawn(m, c.flip(), f, 1) == shelter_pawn(b, c, f, 1));
    assert(shelter_pawn(m, c.flip(), f, 2) == shelter_pawn(b, c, f, 2));
    assert(shelter_pawn(m, c.flip(), f, 3) == shelter_pawn(b, c, f, 3));
}

/// The hand-crafted evaluation does not favour a colour: the mirrored board has the same
/// value for the side in the mirrored place.
pub proof fn hand_crafted_evaluation_is_symmetric(b: Board, stm: Color)
    requires
        board_wf(b),
        one_king(b, Color::White),
        one_king(b, Color::Black),
    ensures
        hce_value(mirrored(b), stm.flip()) == hce_value(b, stm),
{
    let m = mirrored(b);
    let w = Color::White;
    let k = Color::Black;
    assert(w.flip() == k && k.flip() == w);
    lemma_side_terms_mirrored(b, w);
    lemma_side_terms_mirrored(b, k);
    lemma_pair_mirrored(b, w);
    lemma_pair_mirrored(b, k);
    lemma_shelter_mirrored(b, w, -1);
    lemma_shelter_mirrored(b, w, 0);
    lemma_shelter_mirrored(b, w, 1);
    lemma_shelter_mirrored(b, k, -1);
    lemma_shelter_mirrored(b, k, 0);
    lemma_shelter_mirrored(b, k, 1);
    assert(side_mg(m, k) == side_mg(b, w));
    assert(side_mg(m, w) == side_mg(b, k));
    assert(side_eg(m, k) == side_eg(b, w));
    assert(side_eg(m, w) == side_eg(b, k));
    assert(phase_of(m) == phase_of(b));
}

} // verus!
