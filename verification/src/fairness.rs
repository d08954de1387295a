//! The evaluation is the same for both sides: the network, like the rules for dead positions
//! and lone kings, sees a mirrored position as it sees the position itself.

use vstd::prelude::*;

use crate::bits::{group_has, holds, size};
use crate::draws::{minor_on, square_color};
use crate::geometry::on_board;
use crate::mopup::{
    bare, bishops_share, cannot_mate, dark_bishop, edge_distance, lone_king_value, mates_lone_king,
    number, pieces_value, push_close, push_to_corner, push_to_edge, shaping,
};
use crate::network::Network;
use crate::nnue::{board_sums, lanes, network_value, perspective};
use crate::rules::{
    board_wf, count, count_below, king, king_sq, lemma_occ, occ, one_king, owned, Board, PosView,
};
use crate::snapshot::{
    is_pawn, pair_part, pair_total, psqt_part, psqt_total, threat, threat_part, threat_total,
    Perspective, Snapshot,
};
use crate::symmetry::{
    lemma_between_mirrored, lemma_king_mirrored, lemma_mirror, lemma_mirrored,
    lemma_reaches_mirrored, lemma_swapped, lemma_total_mirrored, mirror, mirrored,
    mirroring_is_an_involution, swapped, total,
};
use crate::threats::{oriented, pair_number, pawn_place, psqt_feature, relative_piece};
use crate::types::{file, rank, relative_square, Color, Piece, PieceType, Square};
use crate::variant::Variant;

verus! {

broadcast use {group_has, lemma_occ};

/// The perspective of the other side.
pub open spec fn across(v: Perspective) -> Perspective {
    Perspective { p: v.p.flip(), ..v }
}

/// A square looks the same from the other side once it is mirrored.
proof fn lemma_oriented(p: Color, s: int, flip: u8)
    requires
        on_board(s),
    ensures
        relative_square(p.flip(), mirror(s) as Square) == relative_square(p, s as Square),
        oriented(p.flip(), mirror(s) as Square, flip) == oriented(p, s as Square, flip),
{
    lemma_mirror(s);
    assert((mirror(s) as Square) / 8 == 7 - (s as Square) / 8);
    assert((mirror(s) as Square) % 8 == (s as Square) % 8);
}

proof fn lemma_relative_piece(pc: Piece, p: Color)
    requires
        pc.0 < 12,
    ensures
        relative_piece(swapped(pc), p.flip()) == relative_piece(pc, p),
{
}

// Sums

/// Sums of equal terms are equal.
proof fn lemma_total_same(f: spec_fn(int) -> int, g: spec_fn(int) -> int, n: nat)
    requires
        forall|s: int| 0 <= s < n ==> #[trigger] g(s) == f(s),
    ensures
        total(g, n) == total(f, n),
    decreases n,
{
    if n > 0 {
        lemma_total_same(f, g, (n - 1) as nat);
        assert(g(n - 1) == f(n - 1));
    }
}

proof fn lemma_total_plus(f: spec_fn(int) -> int, g: spec_fn(int) -> int, n: nat)
    ensures
        total(|s: int| f(s) + g(s), n) == total(f, n) + total(g, n),
    decreases n,
{
    if n > 0 {
        lemma_total_plus(f, g, (n - 1) as nat);
    }
}

/// The sum over all pairs of squares, row by row.
pub open spec fn pair_sum(q: spec_fn(int, int) -> int) -> int {
    total(|s: int| total(|d: int| q(s, d), 64), 64)
}

proof fn lemma_flat_row(f: spec_fn(int) -> int, s: int, n: nat)
    requires
        0 <= s,
        n <= 64,
    ensures
        total(f, (64 * s + n) as nat) == total(f, (64 * s) as nat) + total(
            |d: int| f(64 * s + d),
            n,
        ),
    decreases n,
{
    if n > 0 {
        lemma_flat_row(f, s, (n - 1) as nat);
        let g = |d: int| f(64 * s + d);
        assert(g(n - 1) == f(64 * s + n - 1));
        assert((64 * s + n - 1) as nat == (64 * s + (n - 1) as nat) as nat);
    }
}

/// A sum over numbered pairs, row by row.
proof fn lemma_flat(f: spec_fn(int) -> int, n: nat)
    ensures
        total(f, 64 * n) == total(|s: int| total(|d: int| f(64 * s + d), 64), n),
    decreases n,
{
    let rows = |s: int| total(|d: int| f(64 * s + d), 64);
    if n > 0 {
        lemma_flat(f, (n - 1) as nat);
        lemma_flat_row(f, n - 1, 64);
        assert((64 * (n - 1) + 64) as nat == 64 * n);
        assert((64 * (n - 1)) as nat == 64 * ((n - 1) as nat));
        assert(rows(n - 1) == total(|d: int| f(64 * (n - 1) + d), 64));
    }
}

/// Sums over pairs do not mind the order of the ranks.
proof fn lemma_pairs_mirrored(f: spec_fn(int, int) -> int, g: spec_fn(int, int) -> int)
    requires
        forall|s: int, d: int|
            0 <= s < 64 && 0 <= d < 64 ==> #[trigger] g(s, d) == f(mirror(s), mirror(d)),
    ensures
        pair_sum(g) == pair_sum(f),
{
    let fs = |s: int| total(|d: int| f(s, d), 64);
    let gs = |s: int| total(|d: int| g(s, d), 64);
    assert forall|s: int| 0 <= s < 64 implies #[trigger] gs(s) == fs(mirror(s)) by {
        let fd = |d: int| f(mirror(s), d);
        let gd = |d: int| g(s, d);
        assert forall|d: int| 0 <= d < 64 implies #[trigger] gd(d) == fd(mirror(d)) by {}
        lemma_total_mirrored(fd, gd);
    }
    lemma_total_mirrored(fs, gs);
}

/// Rows and columns can be summed in either order.
proof fn lemma_swap(q: spec_fn(int, int) -> int, n: nat, k: nat)
    ensures
        total(|s: int| total(|d: int| q(s, d), k), n) == total(
            |d: int| total(|s: int| q(s, d), n),
            k,
        ),
    decreases n,
{
    let rows = |s: int| total(|d: int| q(s, d), k);
    let columns = |d: int| total(|s: int| q(s, d), n);
    if n == 0 {
        lemma_total_zero(columns, k);
    } else {
        let m = (n - 1) as nat;
        lemma_swap(q, m, k);
        let shorter = |d: int| total(|s: int| q(s, d), m);
        let last = |d: int| q(n - 1, d);
        assert forall|d: int| 0 <= d < k implies #[trigger] columns(d) == (|x: int|
            shorter(x) + last(x))(d) by {
            let c = |s: int| q(s, d);
            assert(total(c, n) == total(c, m) + c(n - 1));
        }
        lemma_total_same(|x: int| shorter(x) + last(x), columns, k);
        lemma_total_plus(shorter, last, k);
        assert(rows(n - 1) == total(last, k));
    }
}

proof fn lemma_total_zero(f: spec_fn(int) -> int, n: nat)
    requires
        forall|d: int| #[trigger] f(d) == 0,
    ensures
        total(f, n) == 0,
    decreases n,
{
    if n > 0 {
        lemma_total_zero(f, (n - 1) as nat);
        assert(f(n - 1) == 0);
    }
}

/// The terms with the first square below the second.
pub open spec fn upper_half(q: spec_fn(int, int) -> int) -> spec_fn(int, int) -> int {
    |s: int, d: int|
        if s < d {
            q(s, d)
        } else {
            0
        }
}

/// A symmetric sum without diagonal is twice its upper half.
proof fn lemma_halves(q: spec_fn(int, int) -> int)
    requires
        forall|s: int, d: int| #[trigger] q(s, d) == q(d, s),
        forall|s: int| #[trigger] q(s, s) == 0,
    ensures
        pair_sum(q) == 2 * pair_sum(upper_half(q)),
{
    let u = upper_half(q);
    let l = |s: int, d: int|
        if d < s {
            q(s, d)
        } else {
            0
        };
    // The lower half, summed by columns, is the upper half.
    lemma_swap(l, 64, 64);
    let by_columns = |d: int| total(|s: int| l(s, d), 64);
    let by_rows = |s: int| total(|d: int| u(s, d), 64);
    assert forall|x: int| 0 <= x < 64 implies #[trigger] by_columns(x) == by_rows(x) by {
        let a = |s: int| l(s, x);
        let b = |d: int| u(x, d);
        assert forall|y: int| 0 <= y < 64 implies #[trigger] a(y) == b(y) by {
            assert(q(y, x) == q(x, y));
        }
        lemma_total_same(b, a, 64);
    }
    lemma_total_same(by_rows, by_columns, 64);
    // Together they are everything.
    let all = |s: int| total(|d: int| q(s, d), 64);
    let low = |s: int| total(|d: int| l(s, d), 64);
    assert forall|s: int| 0 <= s < 64 implies #[trigger] all(s) == (|x: int| by_rows(x) + low(x))(
        s,
    ) by {
        let a = |d: int| q(s, d);
        let b = |d: int| u(s, d);
        let c = |d: int| l(s, d);
        assert forall|d: int| 0 <= d < 64 implies #[trigger] a(d) == (|x: int| b(x) + c(x))(
            d,
        ) by {
            if s == d {
                assert(q(s, s) == 0);
            }
        }
        lemma_total_same(|x: int| b(x) + c(x), a, 64);
        lemma_total_plus(b, c, 64);
    }
    lemma_total_same(|x: int| by_rows(x) + low(x), all, 64);
    lemma_total_plus(by_rows, low, 64);
}

// Inputs of the network

proof fn lemma_psqt_is_total(b: Board, v: Perspective, w: spec_fn(int) -> int, n: nat)
    ensures
        psqt_total(b, v, w, n) == total(|s: int| psqt_part(b, v, w, s), n),
    decreases n,
{
    if n > 0 {
        lemma_psqt_is_total(b, v, w, (n - 1) as nat);
    }
}

proof fn lemma_psqt_mirrored(b: Board, v: Perspective, w: spec_fn(int) -> int)
    requires
        board_wf(b),
    ensures
        psqt_total(mirrored(b), across(v), w, 64) == psqt_total(b, v, w, 64),
{
    let m = mirrored(b);
    let f = |s: int| psqt_part(b, v, w, s);
    let g = |s: int| psqt_part(m, across(v), w, s);
    lemma_psqt_is_total(b, v, w, 64);
    lemma_psqt_is_total(m, across(v), w, 64);
    assert forall|s: int| 0 <= s < 64 implies #[trigger] g(s) == f(mirror(s)) by {
        let x = mirror(s);
        lemma_mirror(s);
        lemma_mirrored(b, x);
        lemma_swapped(b[x], v.p, PieceType::Pawn);
        lemma_oriented(v.p, x, v.flip);
        if b[x].0 < 12 {
            assert(psqt_feature(v.p.flip(), v.bucket, v.flip, m[s], s as Square) == psqt_feature(
                v.p,
                v.bucket,
                v.flip,
                b[x],
                x as Square,
            ));
        }
    }
    lemma_total_mirrored(f, g);
}

proof fn lemma_threat_is_total(b: Board, v: Perspective, w: spec_fn(int) -> int, n: nat)
    ensures
        threat_total(b, v, w, n) == total(|k: int| threat_part(b, v, w, k), n),
    decreases n,
{
    if n > 0 {
        lemma_threat_is_total(b, v, w, (n - 1) as nat);
    }
}

/// A threat by its two squares.
pub open spec fn threat_of(b: Board, v: Perspective, w: spec_fn(int) -> int) -> spec_fn(
    int,
    int,
) -> int {
    |s: int, d: int| threat_part(b, v, w, 64 * s + d)
}

proof fn lemma_threat_rows(b: Board, v: Perspective, w: spec_fn(int) -> int)
    ensures
        threat_total(b, v, w, 4096) == pair_sum(threat_of(b, v, w)),
{
    let f = |k: int| threat_part(b, v, w, k);
    let q = threat_of(b, v, w);
    lemma_threat_is_total(b, v, w, 4096);
    lemma_flat(f, 64);
    let a = |s: int| total(|d: int| f(64 * s + d), 64);
    let c = |s: int| total(|d: int| q(s, d), 64);
    assert forall|s: int| 0 <= s < 64 implies #[trigger] c(s) == a(s) by {
        let x = |d: int| f(64 * s + d);
        let y = |d: int| q(s, d);
        assert forall|d: int| 0 <= d < 64 implies #[trigger] y(d) == x(d) by {}
        lemma_total_same(x, y, 64);
    }
    lemma_total_same(a, c, 64);
}

proof fn lemma_threat_mirrored(b: Board, s: int, d: int)
    requires
        board_wf(b),
        on_board(s),
        on_board(d),
    ensures
        threat(mirrored(b), mirror(s), mirror(d)) == threat(b, s, d),
{
    lemma_mirror(s);
    lemma_mirror(d);
    lemma_mirrored(b, s);
    lemma_mirrored(b, d);
    lemma_swapped(b[s], Color::White, PieceType::Pawn);
    lemma_swapped(b[d], Color::White, PieceType::Pawn);
    lemma_between_mirrored(s, d, d);
    if b[s].0 < 12 {
        lemma_reaches_mirrored(b, b[s].piece_type(), s, d);
    }
}

proof fn lemma_threat_part_mirrored(
    b: Board,
    v: Perspective,
    w: spec_fn(int) -> int,
    s: int,
    d: int,
)
    requires
        board_wf(b),
        on_board(s),
        on_board(d),
    ensures
        threat_part(mirrored(b), across(v), w, 64 * mirror(s) + mirror(d)) == threat_part(
            b,
            v,
            w,
            64 * s + d,
        ),
{
    let m = mirrored(b);
    lemma_mirror(s);
    lemma_mirror(d);
    lemma_mirrored(b, s);
    lemma_mirrored(b, d);
    lemma_threat_mirrored(b, s, d);
    lemma_oriented(v.p, s, v.flip);
    lemma_oriented(v.p, d, v.flip);
    assert((64 * s + d) / 64 == s && (64 * s + d) % 64 == d);
    let k = 64 * mirror(s) + mirror(d);
    assert(k / 64 == mirror(s) && k % 64 == mirror(d));
    if threat(b, s, d) {
        lemma_relative_piece(b[s], v.p);
        lemma_relative_piece(b[d], v.p);
    }
}

proof fn lemma_threats_mirrored(b: Board, v: Perspective, w: spec_fn(int) -> int)
    requires
        board_wf(b),
    ensures
        threat_total(mirrored(b), across(v), w, 4096) == threat_total(b, v, w, 4096),
{
    let m = mirrored(b);
    let f = threat_of(b, v, w);
    let g = threat_of(m, across(v), w);
    lemma_threat_rows(b, v, w);
    lemma_threat_rows(m, across(v), w);
    assert forall|s: int, d: int| 0 <= s < 64 && 0 <= d < 64 implies #[trigger] g(s, d) == f(
        mirror(s),
        mirror(d),
    ) by {
        lemma_mirror(s);
        lemma_mirror(d);
        lemma_threat_part_mirrored(b, v, w, mirror(s), mirror(d));
    }
    lemma_pairs_mirrored(f, g);
}

// Pairs of pawns

proof fn lemma_pair_is_total(b: Board, v: Perspective, w: spec_fn(int) -> int, n: nat)
    ensures
        pair_total(b, v, w, n) == total(|k: int| pair_part(b, v, w, k), n),
    decreases n,
{
    if n > 0 {
        lemma_pair_is_total(b, v, w, (n - 1) as nat);
    }
}

/// Two pawns in either order.
pub open spec fn couple(b: Board, v: Perspective, w: spec_fn(int) -> int, s: int, d: int) -> int {
    if s != d && is_pawn(b, s) && is_pawn(b, d) && -1 <= file(s) - file(d) <= 1 {
        w(
            pair_number(
                pawn_place(b[s].color(), s as Square, v.p, v.flip),
                pawn_place(b[d].color(), d as Square, v.p, v.flip),
            ),
        )
    } else {
        0
    }
}

proof fn lemma_pair_rows(b: Board, v: Perspective, w: spec_fn(int) -> int)
    ensures
        pair_total(b, v, w, 4096) == pair_sum(
            upper_half(|s: int, d: int| couple(b, v, w, s, d)),
        ),
{
    let f = |k: int| pair_part(b, v, w, k);
    let q = upper_half(|s: int, d: int| couple(b, v, w, s, d));
    lemma_pair_is_total(b, v, w, 4096);
    lemma_flat(f, 64);
    let a = |s: int| total(|d: int| f(64 * s + d), 64);
    let c = |s: int| total(|d: int| q(s, d), 64);
    assert forall|s: int| 0 <= s < 64 implies #[trigger] c(s) == a(s) by {
        let x = |d: int| f(64 * s + d);
        let y = |d: int| q(s, d);
        assert forall|d: int| 0 <= d < 64 implies #[trigger] y(d) == x(d) by {
            assert((64 * s + d) / 64 == s && (64 * s + d) % 64 == d);
        }
        lemma_total_same(x, y, 64);
    }
    lemma_total_same(a, c, 64);
}

proof fn lemma_couple_mirrored(b: Board, v: Perspective, w: spec_fn(int) -> int, s: int, d: int)
    requires
        board_wf(b),
        on_board(s),
        on_board(d),
    ensures
        couple(mirrored(b), across(v), w, mirror(s), mirror(d)) == couple(b, v, w, s, d),
{
    lemma_mirror(s);
    lemma_mirror(d);
    lemma_mirrored(b, s);
    lemma_mirrored(b, d);
    lemma_swapped(b[s], v.p, PieceType::Pawn);
    lemma_swapped(b[d], v.p, PieceType::Pawn);
    lemma_oriented(v.p, s, v.flip);
    lemma_oriented(v.p, d, v.flip);
}

proof fn lemma_pair_number_order(a: int, b: int)
    ensures
        pair_number(a, b) == pair_number(b, a),
{
}

proof fn lemma_pair_total_mirrored(b: Board, v: Perspective, w: spec_fn(int) -> int)
    requires
        board_wf(b),
    ensures
        pair_total(mirrored(b), across(v), w, 4096) == pair_total(b, v, w, 4096),
{
    let m = mirrored(b);
    let f = |s: int, d: int| couple(b, v, w, s, d);
    let g = |s: int, d: int| couple(m, across(v), w, s, d);
    lemma_pair_rows(b, v, w);
    lemma_pair_rows(m, across(v), w);
    assert forall|s: int, d: int| #[trigger] f(s, d) == f(d, s) by {
        lemma_pair_number_order(
            pawn_place(b[s].color(), s as Square, v.p, v.flip),
            pawn_place(b[d].color(), d as Square, v.p, v.flip),
        );
    }
    assert forall|s: int, d: int| #[trigger] g(s, d) == g(d, s) by {
        lemma_pair_number_order(
            pawn_place(m[s].color(), s as Square, v.p.flip(), v.flip),
            pawn_place(m[d].color(), d as Square, v.p.flip(), v.flip),
        );
    }
    lemma_halves(f);
    lemma_halves(g);
    assert forall|s: int, d: int| 0 <= s < 64 && 0 <= d < 64 implies #[trigger] g(s, d) == f(
        mirror(s),
        mirror(d),
    ) by {
        lemma_mirror(s);
        lemma_mirror(d);
        lemma_couple_mirrored(b, v, w, mirror(s), mirror(d));
    }
    lemma_pairs_mirrored(f, g);
}

/// Both sides see the mirrored board as the other sees the board.
proof fn lemma_lanes_mirrored(net: &Network, b: Board, v: Perspective)
    requires
        board_wf(b),
    ensures
        lanes(net, mirrored(b), across(v)) == lanes(net, b, v),
{
    assert forall|i: int| 0 <= i < 1024 implies lanes(net, mirrored(b), across(v))[i] == lanes(
        net,
        b,
        v,
    )[i] by {
        lemma_psqt_mirrored(b, v, net.psqt_lane(i));
        lemma_threats_mirrored(b, v, net.aux_lane(i));
        lemma_pair_total_mirrored(b, v, net.aux_lane(i));
    }
    assert(lanes(net, mirrored(b), across(v)) =~= lanes(net, b, v));
}

/// `y` shows the mirror image of what `x` shows.
pub open spec fn shows_mirrored(x: Snapshot, y: Snapshot) -> bool {
    &&& y.board@ == mirrored(x.board@)
    &&& on_board(x.kings@[0] as int)
    &&& on_board(x.kings@[1] as int)
    &&& y.kings@[0] == mirror(x.kings@[1] as int)
    &&& y.kings@[1] == mirror(x.kings@[0] as int)
}

/// The network does not favour a colour: whatever its weights, the mirrored position has the
/// same value for the side in the mirrored place.
pub proof fn network_evaluation_is_symmetric(
    net: &Network,
    x: Snapshot,
    y: Snapshot,
    stm: Color,
    count: i32,
)
    requires
        board_wf(x.board@),
        shows_mirrored(x, y),
    ensures
        network_value(net, y, stm.flip(), count) == network_value(net, x, stm, count),
{
    let b = x.board@;
    let w = perspective(Color::White, x.kings@[0]);
    let k = perspective(Color::Black, x.kings@[1]);
    lemma_oriented(Color::White, x.kings@[0] as int, 0);
    lemma_oriented(Color::Black, x.kings@[1] as int, 0);
    assert(Color::White.flip() == Color::Black && Color::Black.flip() == Color::White);
    assert(perspective(Color::Black, y.kings@[1]) == across(w));
    assert(perspective(Color::White, y.kings@[0]) == across(k));
    lemma_lanes_mirrored(net, b, w);
    lemma_lanes_mirrored(net, b, k);
    let bucket = crate::nnue::bucket_for(count);
    assert(board_sums(net, y, stm.flip(), bucket) =~= board_sums(net, x, stm, bucket));
}

// Material

proof fn lemma_count_is_total(b: Board, p: int, n: nat)
    ensures
        count_below(b, p, n) == total(
            |s: int|
                if b[s].0 == p {
                    1int
                } else {
                    0
                },
            n,
        ),
    decreases n,
{
    if n > 0 {
        lemma_count_is_total(b, p, (n - 1) as nat);
    }
}

proof fn lemma_number_mirrored(b: Board, c: Color, pt: PieceType)
    requires
        board_wf(b),
    ensures
        number(mirrored(b), c.flip(), pt) == number(b, c, pt),
{
    let m = mirrored(b);
    let p = Piece::make(c, pt);
    let q = Piece::make(c.flip(), pt);
    let f = |s: int|
        if b[s].0 == p.0 {
            1int
        } else {
            0
        };
    let g = |s: int|
        if m[s].0 == q.0 {
            1int
        } else {
            0
        };
    lemma_count_is_total(b, p.0 as int, 64);
    lemma_count_is_total(m, q.0 as int, 64);
    lemma_total_same(f, |s: int| if b[s].0 == p.0 as int { 1int } else { 0 }, 64);
    lemma_total_same(g, |s: int| if m[s].0 == q.0 as int { 1int } else { 0 }, 64);
    assert forall|s: int| 0 <= s < 64 implies #[trigger] g(s) == f(mirror(s)) by {
        lemma_mirror(s);
        lemma_mirrored(b, mirror(s));
        lemma_swapped(b[mirror(s)], c, pt);
    }
    lemma_total_mirrored(f, g);
}

proof fn lemma_bits_are_total(x: u64, n: nat)
    ensures
        crate::bits::count_below(x, n) == total(
            |s: int|
                if holds(x, s) {
                    1int
                } else {
                    0
                },
            n,
        ),
    decreases n,
{
    if n > 0 {
        lemma_bits_are_total(x, (n - 1) as nat);
    }
}

/// A mirrored board holds as many pieces.
proof fn lemma_size_mirrored(b: Board)
    requires
        board_wf(b),
    ensures
        size(occ(mirrored(b))) == size(occ(b)),
{
    let m = mirrored(b);
    let f = |s: int|
        if holds(occ(b), s) {
            1int
        } else {
            0
        };
    let g = |s: int|
        if holds(occ(m), s) {
            1int
        } else {
            0
        };
    lemma_bits_are_total(occ(b), 64);
    lemma_bits_are_total(occ(m), 64);
    assert forall|s: int| 0 <= s < 64 implies #[trigger] g(s) == f(mirror(s)) by {
        lemma_mirror(s);
        lemma_mirrored(b, mirror(s));
        lemma_swapped(b[mirror(s)], Color::White, PieceType::Pawn);
    }
    lemma_total_mirrored(f, g);
}

/// Bishops of one shade, one way.
proof fn lemma_share_one_way(b: Board, c: Color, shade: int)
    requires
        board_wf(b),
        shade == 0 || shade == 1,
        bishops_share(b, c, shade),
    ensures
        bishops_share(mirrored(b), c.flip(), 1 - shade),
{
    let m = mirrored(b);
    assert forall|s: int|
        on_board(s) && #[trigger] m[s] == Piece::make(
            c.flip(),
            PieceType::Bishop,
        ) implies square_color(s) == 1 - shade by {
        lemma_mirror(s);
        lemma_mirrored(b, mirror(s));
        lemma_swapped(b[mirror(s)], c, PieceType::Bishop);
        assert(b[mirror(s)] == Piece::make(c, PieceType::Bishop));
    }
}

proof fn lemma_cannot_mate_mirrored(b: Board, c: Color)
    requires
        board_wf(b),
    ensures
        cannot_mate(mirrored(b), c.flip()) == cannot_mate(b, c),
        pieces_value(mirrored(b), c.flip()) == pieces_value(b, c),
{
    let m = mirrored(b);
    mirroring_is_an_involution(b);
    assert(c.flip().flip() == c);
    lemma_number_mirrored(b, c, PieceType::Pawn);
    lemma_number_mirrored(b, c, PieceType::Knight);
    lemma_number_mirrored(b, c, PieceType::Bishop);
    lemma_number_mirrored(b, c, PieceType::Rook);
    lemma_number_mirrored(b, c, PieceType::Queen);
    if bishops_share(b, c, 0) {
        lemma_share_one_way(b, c, 0);
    }
    if bishops_share(b, c, 1) {
        lemma_share_one_way(b, c, 1);
    }
    if bishops_share(m, c.flip(), 0) {
        lemma_share_one_way(m, c.flip(), 0);
    }
    if bishops_share(m, c.flip(), 1) {
        lemma_share_one_way(m, c.flip(), 1);
    }
}

proof fn lemma_bare_one_way(b: Board, c: Color)
    requires
        board_wf(b),
        bare(b, c),
    ensures
        bare(mirrored(b), c.flip()),
{
    let m = mirrored(b);
    assert forall|s: int| on_board(s) && owned(#[trigger] m[s], c.flip()) implies m[s] == king(
        c.flip(),
    ) by {
        lemma_mirror(s);
        lemma_mirrored(b, mirror(s));
        lemma_swapped(b[mirror(s)], c, PieceType::King);
        assert(owned(b[mirror(s)], c));
    }
}

proof fn lemma_mates_mirrored(b: Board, c: Color)
    requires
        board_wf(b),
    ensures
        mates_lone_king(mirrored(b), c.flip()) == mates_lone_king(b, c),
{
    let m = mirrored(b);
    mirroring_is_an_involution(b);
    assert(c.flip().flip() == c);
    lemma_cannot_mate_mirrored(b, c);
    lemma_number_mirrored(b, c, PieceType::Pawn);
    if bare(b, c.flip()) {
        lemma_bare_one_way(b, c.flip());
    }
    if bare(m, c) {
        lemma_bare_one_way(m, c);
    }
}

/// A side without pieces does not mate.
proof fn lemma_bare_cannot_mate(b: Board, c: Color)
    requires
        bare(b, c),
    ensures
        cannot_mate(b, c),
{
    lemma_no_such_piece(b, c, PieceType::Pawn, 64);
    lemma_no_such_piece(b, c, PieceType::Knight, 64);
    lemma_no_such_piece(b, c, PieceType::Bishop, 64);
    lemma_no_such_piece(b, c, PieceType::Rook, 64);
    lemma_no_such_piece(b, c, PieceType::Queen, 64);
}

proof fn lemma_no_such_piece(b: Board, c: Color, pt: PieceType, n: nat)
    requires
        bare(b, c),
        pt != PieceType::King,
        n <= 64,
    ensures
        count_below(b, Piece::make(c, pt).0 as int, n) == 0,
    decreases n,
{
    if n > 0 {
        lemma_no_such_piece(b, c, pt, (n - 1) as nat);
        let p = b[n - 1];
        if p.0 == Piece::make(c, pt).0 {
            assert(p == Piece::make(c, pt));
            assert(owned(b[n - 1], c));
        }
    }
}

proof fn lemma_dark_mirrored(b: Board, c: Color)
    requires
        board_wf(b),
        number(b, c, PieceType::Bishop) == 1,
    ensures
        dark_bishop(mirrored(b), c.flip()) == !dark_bishop(b, c),
{
    let m = mirrored(b);
    let p = Piece::make(c, PieceType::Bishop);
    let q = Piece::make(c.flip(), PieceType::Bishop);
    let s = lemma_the_one(b, p, 64);
    lemma_mirror(s);
    lemma_mirrored(b, s);
    lemma_swapped(b[s], c, PieceType::Bishop);
    assert(m[mirror(s)] == q);
    if dark_bishop(m, c.flip()) {
        let t = choose|t: int| on_board(t) && #[trigger] m[t] == q && square_color(t) == 0;
        lemma_mirror(t);
        lemma_mirrored(b, mirror(t));
        lemma_swapped(b[mirror(t)], c, PieceType::Bishop);
        assert(b[mirror(t)] == p);
    }
}

/// The one square with a piece that occurs once.
proof fn lemma_the_one(b: Board, p: Piece, n: nat) -> (s: int)
    requires
        p.0 < 12,
        n <= 64,
        count_below(b, p.0 as int, n) == 1,
    ensures
        0 <= s < n,
        b[s] == p,
        forall|t: int| 0 <= t < n && #[trigger] b[t] == p ==> t == s,
    decreases n,
{
    let k = (n - 1) as nat;
    if b[n - 1].0 == p.0 {
        assert(b[n - 1] == p);
        assert forall|t: int| 0 <= t < n && #[trigger] b[t] == p implies t == n - 1 by {
            if t < k {
                lemma_found_counts(b, p, t, k);
            }
        }
        n - 1
    } else {
        lemma_the_one(b, p, k)
    }
}

proof fn lemma_found_counts(b: Board, p: Piece, t: int, n: nat)
    requires
        0 <= t < n,
        b[t] == p,
    ensures
        count_below(b, p.0 as int, n) >= 1,
    decreases n,
{
    if t < n - 1 {
        lemma_found_counts(b, p, t, (n - 1) as nat);
    }
}

proof fn lemma_shaping_mirrored(b: Board, c: Color)
    requires
        board_wf(b),
        one_king(b, Color::White),
        one_king(b, Color::Black),
    ensures
        shaping(mirrored(b), c.flip()) == shaping(b, c),
{
    let wk = king_sq(b, c);
    let lk = king_sq(b, c.flip());
    assert(c.flip().flip() == c);
    lemma_king_mirrored(b, c);
    lemma_king_mirrored(b, c.flip());
    lemma_mirror(lk);
    lemma_between_mirrored(wk, lk, lk);
    lemma_number_mirrored(b, c, PieceType::Bishop);
    lemma_number_mirrored(b, c, PieceType::Knight);
    assert(push_close(mirror(wk), mirror(lk)) == push_close(wk, lk));
    assert(edge_distance(rank(mirror(lk))) == edge_distance(rank(lk)));
    assert(push_to_edge(mirror(lk)) == push_to_edge(lk));
    assert(push_to_corner(mirror(lk), true) == push_to_corner(lk, false));
    assert(push_to_corner(mirror(lk), false) == push_to_corner(lk, true));
    if number(b, c, PieceType::Bishop) == 1 {
        lemma_dark_mirrored(b, c);
    }
}

/// Against a lone king.
proof fn lemma_lone_king_mirrored(b: Board, stm: Color)
    requires
        board_wf(b),
        one_king(b, Color::White),
        one_king(b, Color::Black),
    ensures
        lone_king_value(mirrored(b), stm.flip()) == lone_king_value(b, stm),
{
    let m = mirrored(b);
    let w = Color::White;
    let k = Color::Black;
    assert(w.flip() == k && k.flip() == w);
    lemma_mates_mirrored(b, w);
    lemma_mates_mirrored(b, k);
    lemma_shaping_mirrored(b, w);
    lemma_shaping_mirrored(b, k);
    lemma_cannot_mate_mirrored(b, w);
    lemma_cannot_mate_mirrored(b, k);
    if mates_lone_king(b, w) && mates_lone_king(b, k) {
        lemma_bare_cannot_mate(b, k);
        assert(false);
    }
}

proof fn lemma_insufficient_one_way(v: PosView, x: PosView)
    requires
        board_wf(v.board),
        x.board == mirrored(v.board),
        x.variant == v.variant,
        v.insufficient(),
    ensures
        x.insufficient(),
{
    let b = v.board;
    let m = x.board;
    assert forall|s: int| on_board(s) implies minor_on(m, s) == minor_on(b, mirror(s)) && (m[s].0
        < 12 <==> b[mirror(s)].0 < 12) && (m[s].0 < 12 ==> m[s].piece_type()
        == b[mirror(s)].piece_type()) && square_color(mirror(s)) == 1 - square_color(s)
        && mirror(mirror(s)) == s && on_board(mirror(s)) by {
        lemma_mirror(s);
        lemma_mirrored(b, mirror(s));
        lemma_swapped(b[mirror(s)], Color::White, PieceType::Pawn);
    }
    assert forall|s: int| on_board(s) && (#[trigger] m[s]).0 < 12 implies m[s].piece_type()
        == PieceType::King || minor_on(m, s) by {
        assert(b[mirror(s)].0 < 12);
    }
    if forall|s: int, t: int| #[trigger] minor_on(b, s) && #[trigger] minor_on(b, t) ==> s == t {
        assert forall|s: int, t: int| #[trigger] minor_on(m, s) && #[trigger] minor_on(m, t)
            implies s == t by {
            assert(minor_on(b, mirror(s)) && minor_on(b, mirror(t)));
        }
    } else if forall|s: int| #[trigger]
        minor_on(b, s) ==> b[s].piece_type() == PieceType::Bishop && square_color(s) == 0 {
        assert forall|s: int| #[trigger] minor_on(m, s) implies m[s].piece_type()
            == PieceType::Bishop && square_color(s) == 1 by {
            assert(minor_on(b, mirror(s)));
        }
    } else {
        assert forall|s: int| #[trigger] minor_on(m, s) implies m[s].piece_type()
            == PieceType::Bishop && square_color(s) == 0 by {
            assert(minor_on(b, mirror(s)));
        }
    }
}

/// `x` is `v` upside down with the colours swapped, as far as standard chess is concerned.
pub open spec fn mirror_image(v: PosView, x: PosView) -> bool {
    &&& x.board == mirrored(v.board)
    &&& x.stm == v.stm.flip()
    &&& x.variant == v.variant
    &&& x.st().rule50 == v.st().rule50
}

proof fn lemma_insufficient_mirrored(v: PosView, x: PosView)
    requires
        board_wf(v.board),
        mirror_image(v, x),
    ensures
        x.insufficient() == v.insufficient(),
{
    mirroring_is_an_involution(v.board);
    if v.insufficient() {
        lemma_insufficient_one_way(v, x);
    }
    if x.insufficient() {
        lemma_insufficient_one_way(x, v);
    }
}

/// Positions that agree on what the evaluation asks have the same value.
proof fn lemma_same_evaluation(v: PosView, x: PosView, raw: int)
    requires
        v.variant == Variant::Standard || v.variant == Variant::Chess960,
        x.variant == v.variant,
        x.st().rule50 == v.st().rule50,
        x.insufficient() == v.insufficient(),
        lone_king_value(x.board, x.stm) == lone_king_value(v.board, v.stm),
    ensures
        x.evaluation(raw) == v.evaluation(raw),
{
}

/// The evaluation of standard chess and Chess960 does not favour a colour: a position and
/// its mirror image have the same value for the side to move, and the network is asked the
/// same question about both.
pub proof fn evaluation_is_symmetric(
    net: &Network,
    v: PosView,
    x: PosView,
    a: Snapshot,
    b: Snapshot,
)
    requires
        v.wf(),
        v.variant == Variant::Standard || v.variant == Variant::Chess960,
        mirror_image(v, x),
        a.board@ == v.board,
        shows_mirrored(a, b),
    ensures
        ({
            let here = network_value(net, a, v.stm, size(occ(v.board)) as i32) as int;
            let there = network_value(net, b, x.stm, size(occ(x.board)) as i32) as int;
            &&& there == here
            &&& x.evaluation(there) == v.evaluation(here)
        }),
{
    lemma_size_mirrored(v.board);
    let count = size(occ(v.board)) as i32;
    network_evaluation_is_symmetric(net, a, b, v.stm, count);
    lemma_insufficient_mirrored(v, x);
    lemma_lone_king_mirrored(v.board, v.stm);
    lemma_same_evaluation(v, x, network_value(net, a, v.stm, count) as int);
}

} // verus!
