//! Numbering of the network's inputs: piece-square inputs by king bucket, threats (which
//! piece attacks which, from where) and pawn pairs, each seen from one side's perspective
//! and mirrored onto the half of the board its king stands on.
//!
//! A threat input is (attacker type, attacker square, attacked square, attacked piece).
//! Attacked squares are numbered within the attacker's empty-board attack sets, and each
//! attacker type only has inputs for some target types: pawns for knights and rooks,
//! bishops and rooks for pawns, knights, bishops and rooks, knights and queens for all but
//! kings. A piece attacking a piece of its own type is only counted from the higher square,
//! since the relation is symmetric. Kings never attack or are attacked here.

use vstd::prelude::*;

use crate::attackcounts::attack_sets_have_their_sizes;
use crate::bitboard::{pseudo_attacks, test_bit};
use crate::bits::{group_has, holds};
use crate::geometry::{on_board, pawn_hit, reaches};
use crate::types::{relative_square, Color, Piece, PieceType, Square};

verus! {

broadcast use group_has;

/// Width of the accumulator.
pub const HL: usize = 1024;

/// Half the transformer, after the two halves are multiplied together.
pub const PAIRED: usize = 512;

pub const INPUT_BUCKETS: usize = 10;

pub const OUTPUT_BUCKETS: usize = 8;

pub const PSQT_FEATURES: usize = 7680;

pub const PP_FEATURES: usize = 4560;

pub const THREATS_PER_SIDE: usize = 29904;

pub const AUX_FEATURES: usize = 64368;

/// King bucket by square (own perspective, a1 = 0), given for the a-d files only; the
/// e-h files mirror onto them.
pub const BUCKET_LAYOUT: [u8; 32] = [
    0, 1, 2, 3, 4, 4, 5, 5, 6, 6, 6, 6, 7, 7, 7, 7, 8, 8, 8, 8, 8, 8, 8, 8, 9, 9, 9, 9, 9, 9, 9, 9,
];

/// Column of the bucket layout a file belongs to.
pub open spec fn mirrored_file(f: int) -> int {
    if f < 4 {
        f
    } else {
        7 - f
    }
}

/// Bucket of a king on `sq`, own perspective.
pub open spec fn king_bucket(sq: int) -> int {
    BUCKET_LAYOUT@[sq / 8 * 4 + mirrored_file(sq % 8)] as int
}

proof fn lemma_bucket(sq: int)
    requires
        0 <= sq < 64,
    ensures
        0 <= king_bucket(sq) < 10,
{
    let i = sq / 8 * 4 + mirrored_file(sq % 8);
    assert(0 <= i < 32);
    assert(forall|k: int| 0 <= k < 32 ==> #[trigger] BUCKET_LAYOUT@[k] < 10);
}

/// Bucket and file-mirror flag of `p`'s king on `ksq`.
pub fn king_context(p: Color, ksq: Square) -> (r: (usize, u8))
    requires
        ksq < 64,
    ensures
        r.0 == king_bucket(relative_square(p, ksq) as int),
        r.0 < INPUT_BUCKETS,
        r.1 == (if relative_square(p, ksq) % 8 > 3 {
            7u8
        } else {
            0
        }),
{
    let rel = relative_square(p, ksq);
    proof {
        lemma_bucket(rel as int);
    }
    let f = rel % 8;
    let col = if f < 4 {
        f
    } else {
        7 - f
    };
    let bucket = BUCKET_LAYOUT[(rel / 8 * 4 + col) as usize] as usize;
    (
        bucket,
        if f > 3 {
            7
        } else {
            0
        },
    )
}

/// The square as `p` sees it, mirrored where `flip` is set.
#[verifier::allow_in_spec]
pub fn oriented(p: Color, sq: Square, flip: u8) -> Square
    requires
        sq < 64,
    returns
        (if flip == 0 {
            relative_square(p, sq)
        } else {
            (relative_square(p, sq) + 7 - 2 * (relative_square(p, sq) % 8)) as Square
        }),
{
    let r = relative_square(p, sq);
    if flip == 0 {
        r
    } else {
        r + 7 - 2 * (r % 8)
    }
}

/// Different squares stay different.
pub proof fn orientation_is_injective(p: Color, a: Square, b: Square, flip: u8)
    requires
        a < 64,
        b < 64,
        oriented(p, a, flip) == oriented(p, b, flip),
    ensures
        a == b,
{
}

/// Piece-square feature index of `pc` on `sq` from `p`'s perspective.
#[verifier::allow_in_spec]
pub fn psqt_feature(p: Color, bucket: usize, flip: u8, pc: Piece, sq: Square) -> usize
    requires
        bucket < INPUT_BUCKETS,
        pc.0 < 12,
        sq < 64,
    returns
        (768 * bucket + (if pc.color() == p {
            0int
        } else {
            384
        }) + 64 * pc.piece_type().idx() + oriented(p, sq, flip)) as usize,
{
    let side: usize = if pc.color() == p {
        0
    } else {
        384
    };
    768 * bucket + side + 64 * pc.piece_type().idx() + oriented(p, sq, flip) as usize
}

/// Every piece on every square has an input of its own within the table.
pub proof fn piece_square_inputs_are_unique(
    p: Color,
    bucket: usize,
    flip: u8,
    a: Piece,
    sa: Square,
    b: Piece,
    sb: Square,
)
    requires
        bucket < INPUT_BUCKETS,
        a.0 < 12,
        b.0 < 12,
        sa < 64,
        sb < 64,
    ensures
        0 <= psqt_feature(p, bucket, flip, a, sa) < PSQT_FEATURES,
        psqt_feature(p, bucket, flip, a, sa) == psqt_feature(p, bucket, flip, b, sb) ==> a == b
            && sa == sb,
{
    let (ka, kb) = (a.piece_type().idx() as int, b.piece_type().idx() as int);
    let (oa, ob) = (oriented(p, sa, flip) as int, oriented(p, sb, flip) as int);
    lemma_places_differ(bucket as int, a.color() == p, ka, oa, b.color() == p, kb, ob);
    if psqt_feature(p, bucket, flip, a, sa) == psqt_feature(p, bucket, flip, b, sb) {
        assert(a.color() == b.color() && ka == kb);
    }
}

/// The number of an input tells the side, the type and the square apart.
proof fn lemma_places_differ(
    bucket: int,
    own_a: bool,
    ka: int,
    oa: int,
    own_b: bool,
    kb: int,
    ob: int,
)
    requires
        0 <= bucket < 10,
        0 <= ka < 6,
        0 <= kb < 6,
        0 <= oa < 64,
        0 <= ob < 64,
    ensures
        ({
            let x = 768 * bucket + (if own_a {
                0int
            } else {
                384
            }) + 64 * ka + oa;
            let y = 768 * bucket + (if own_b {
                0int
            } else {
                384
            }) + 64 * kb + ob;
            &&& 0 <= x < 7680
            &&& x == y ==> own_a == own_b && ka == kb && oa == ob
        }),
{
}

/// Place of a pawn among the 96 a side distinguishes.
pub open spec fn pawn_place(c: Color, s: Square, p: Color, flip: u8) -> int {
    (if c != p {
        48int
    } else {
        0
    }) + oriented(p, s, flip) - 8
}

/// Number of the unordered pair of two different places.
pub open spec fn pair_number(a: int, b: int) -> int {
    let lo = if a < b {
        a
    } else {
        b
    };
    let hi = if a < b {
        b
    } else {
        a
    };
    hi * (hi - 1) / 2 + lo
}

fn pawn_place_of(c: Color, s: Square, p: Color, flip: u8) -> (r: usize)
    requires
        8 <= s < 56,
    ensures
        r == pawn_place(c, s, p, flip),
        r < 96,
{
    let o = oriented(p, s, flip) as usize;
    if c != p {
        40 + o
    } else {
        o - 8
    }
}

/// Different pawns have different places.
pub proof fn pawn_places_are_unique(
    ca: Color,
    sa: Square,
    cb: Color,
    sb: Square,
    p: Color,
    flip: u8,
)
    requires
        8 <= sa < 56,
        8 <= sb < 56,
        pawn_place(ca, sa, p, flip) == pawn_place(cb, sb, p, flip),
    ensures
        ca == cb && sa == sb,
{
    assert(8 <= oriented(p, sa, flip) < 56);
    assert(8 <= oriented(p, sb, flip) < 56);
    assert((ca == p) == (cb == p));
    orientation_is_injective(p, sa, sb, flip);
}

fn pair_of(a: usize, b: usize) -> (r: usize)
    requires
        a < 96,
        b < 96,
        a != b,
    ensures
        r == pair_number(a as int, b as int),
        r < PP_FEATURES,
{
    let (lo, hi) = if a < b {
        (a, b)
    } else {
        (b, a)
    };
    proof {
        assert(0 <= hi * (hi - 1) <= 8930) by (nonlinear_arith)
            requires
                1 <= hi <= 95,
        ;
    }
    hi * (hi - 1) / 2 + lo
}

/// Pawn-pair feature index from `p`'s perspective for pawns `a` and `b` (any colours).
pub fn pp_feature(ca: Color, sa: Square, cb: Color, sb: Square, p: Color, flip: u8) -> (r: usize)
    requires
        8 <= sa < 56,
        8 <= sb < 56,
        sa != sb || ca != cb,
    ensures
        r == pair_number(pawn_place(ca, sa, p, flip), pawn_place(cb, sb, p, flip)),
        r < PP_FEATURES,
{
    let a = pawn_place_of(ca, sa, p, flip);
    let b = pawn_place_of(cb, sb, p, flip);
    proof {
        if a == b {
            pawn_places_are_unique(ca, sa, cb, sb, p, flip);
        }
    }
    pair_of(a, b)
}

/// Different pairs have different numbers.
pub proof fn pair_numbers_are_unique(a: int, b: int, c: int, d: int)
    requires
        0 <= a < b,
        0 <= c < d,
        pair_number(a, b) == pair_number(c, d),
    ensures
        a == c && b == d,
{
    assert(b * (b - 1) / 2 <= pair_number(a, b) < (b + 1) * b / 2) by (nonlinear_arith)
        requires
            0 <= a < b,
            pair_number(a, b) == b * (b - 1) / 2 + a,
    ;
    assert(d * (d - 1) / 2 <= pair_number(c, d) < (d + 1) * d / 2) by (nonlinear_arith)
        requires
            0 <= c < d,
            pair_number(c, d) == d * (d - 1) / 2 + c,
    ;
    if b < d {
        assert((b + 1) * b / 2 <= d * (d - 1) / 2) by (nonlinear_arith)
            requires
                0 < b < d,
        ;
    }
    if d < b {
        assert((d + 1) * d / 2 <= b * (b - 1) / 2) by (nonlinear_arith)
            requires
                0 < d < b,
        ;
    }
}

// Threats

/// `pc` as seen from `p`: the perspective's own pieces occupy 0..6 and the opponent's 6..12.
#[verifier::allow_in_spec]
pub fn relative_piece(pc: Piece, p: Color) -> usize
    requires
        pc.0 < 12,
    returns
        (if p == Color::White {
            pc.0 as usize
        } else {
            ((pc.0 + 6) % 12) as usize
        }),
{
    if p == Color::White {
        pc.idx()
    } else {
        (pc.idx() + 6) % 12
    }
}

/// Type of a perspective-relative piece.
#[verifier::allow_in_spec]
fn kind(ra: usize) -> PieceType
    returns
        PieceType::from_idx((ra % 6) as usize),
{
    PieceType::from_idx(ra % 6)
}

/// The square numbered `k % 64` is attacked from that numbered `k / 64` on an empty board.
pub open spec fn pair_reached(pt: PieceType, k: int) -> bool {
    reaches(pt, k / 64, k % 64, 0)
}

/// Number of pairs of squares before the `n`-th where the first attacks the second.
pub open spec fn pairs_before(pt: PieceType, n: nat) -> nat
    decreases n,
{
    if n == 0 {
        0
    } else {
        pairs_before(pt, (n - 1) as nat) + if pair_reached(pt, n - 1) {
            1nat
        } else {
            0nat
        }
    }
}

proof fn lemma_pairs_grow(pt: PieceType, a: nat, b: nat)
    requires
        a <= b,
    ensures
        pairs_before(pt, a) <= pairs_before(pt, b) <= pairs_before(pt, a) + (b - a),
    decreases b,
{
    if a < b {
        lemma_pairs_grow(pt, a, (b - 1) as nat);
    }
}

/// Number of inputs of an attacker type for one target: squares it attacks on the empty
/// board, from every square together.
pub open spec fn block_size(t: int) -> int {
    if t == 0 {
        84
    } else if t == 1 {
        336
    } else if t == 2 {
        560
    } else if t == 3 {
        896
    } else {
        1456
    }
}

/// First input of an attacker type.
pub open spec fn block_start(t: int) -> int {
    if t == 0 {
        0
    } else if t == 1 {
        336
    } else if t == 2 {
        3696
    } else if t == 3 {
        8176
    } else {
        15344
    }
}

/// Place of a target among those of an attacker type; -1 where there is no input.
pub open spec fn target_slot(t: int, rt: int) -> int {
    let (k, foe) = (rt % 6, rt >= 6);
    if t == 0 {
        if k == 1 || k == 3 {
            k / 2 + if foe {
                2int
            } else {
                0
            }
        } else {
            -1
        }
    } else if t == 2 || t == 3 {
        if k <= 3 {
            k + if foe {
                4int
            } else {
                0
            }
        } else {
            -1
        }
    } else if t == 1 || t == 4 {
        if k <= 4 {
            k + if foe {
                5int
            } else {
                0
            }
        } else {
            -1
        }
    } else {
        -1
    }
}

/// Place of the pair of squares among those of a pawn: by rank, file and direction.
pub open spec fn pawn_pair(s: int, d: int) -> int {
    let gap = if d > s {
        d - s
    } else {
        s - d
    };
    let right = if gap == (if d > s {
        7int
    } else {
        9
    }) {
        0int
    } else {
        1
    };
    (s / 8 - 1) * 14 + 2 * (s % 8) + right - 1
}

/// Number of a threat among the inputs, where there is one: a perspective-relative attacker
/// on `s` attacking a perspective-relative target on `d`.
pub open spec fn threat_number(ra: int, rt: int, s: int, d: int) -> Option<int> {
    let t = ra % 6;
    let m = target_slot(t, rt);
    if m < 0 || (t != 0 && d > s && rt % 6 == t) {
        None
    } else {
        Some(
            PP_FEATURES + THREATS_PER_SIDE * (ra / 6) + block_start(t) + m * block_size(t) + (
            if t == 0 {
                pawn_pair(s, d)
            } else {
                pairs_before(PieceType::from_idx(t as usize), (64 * s + d) as nat) as int
            }),
        )
    }
}

/// A perspective-relative piece on `s` can attack `d`; own pawns go up the board.
pub open spec fn can_attack(ra: int, s: int, d: int) -> bool {
    &&& on_board(s)
    &&& on_board(d)
    &&& if ra % 6 == 0 {
        8 <= s < 56 && pawn_hit(
            if ra < 6 {
                Color::White
            } else {
                Color::Black
            },
            s,
            d,
        )
    } else {
        reaches(PieceType::from_idx((ra % 6) as usize), s, d, 0)
    }
}

/// Numbers of pairs of squares for each attacker type.
pub struct ThreatTables {
    /// Pairs before each, 4096 entries each for knights, bishops, rooks and queens.
    pub before: Vec<u16>,
}

/// The attack sets have the sizes the numbering is laid out for.
pub open spec fn sizes_match() -> bool {
    &&& pairs_before(PieceType::Knight, 4096) == 336
    &&& pairs_before(PieceType::Bishop, 4096) == 560
    &&& pairs_before(PieceType::Rook, 4096) == 896
    &&& pairs_before(PieceType::Queen, 4096) == 1456
}

/// Appends the number of pairs before each pair and returns their number.
fn append_pairs(before: &mut Vec<u16>, pt: PieceType) -> (r: u16)
    requires
        pt != PieceType::Pawn,
        old(before)@.len() <= 0x10_0000,
    ensures
        r == pairs_before(pt, 4096),
        final(before)@.len() == old(before)@.len() + 4096,
        forall|i: int|
            0 <= i < old(before)@.len() ==> #[trigger] final(before)@[i] == old(before)@[i],
        forall|k: int|
            0 <= k < 4096 ==> #[trigger] final(before)@[old(before)@.len() + k] == pairs_before(
                pt,
                k as nat,
            ),
{
    let ghost a = before@;
    let mut n: u16 = 0;
    let mut s: u8 = 0;
    while s < 64
        invariant
            s <= 64,
            a == old(before)@,
            n == pairs_before(pt, (64 * s) as nat),
            before@.len() == a.len() + 64 * s,
            forall|i: int| 0 <= i < a.len() ==> #[trigger] before@[i] == a[i],
            forall|k: int|
                0 <= k < 64 * s ==> #[trigger] before@[a.len() + k] == pairs_before(pt, k as nat),
        decreases 64 - s,
    {
        let b = pseudo_attacks(pt, s);
        let mut d: u8 = 0;
        while d < 64
            invariant
                d <= 64,
                s < 64,
                a == old(before)@,
                forall|t: int| #[trigger]
                    holds(b, t) <==> on_board(t) && reaches(pt, s as int, t, 0),
                n == pairs_before(pt, (64 * s + d) as nat),
                before@.len() == a.len() + 64 * s + d,
                forall|i: int| 0 <= i < a.len() ==> #[trigger] before@[i] == a[i],
                forall|k: int|
                    0 <= k < 64 * s + d ==> #[trigger] before@[a.len() + k] == pairs_before(
                        pt,
                        k as nat,
                    ),
            decreases 64 - d,
        {
            before.push(n);
            proof {
                let k: int = 64 * s + d;
                assert(k / 64 == s && k % 64 == d);
                lemma_pairs_grow(pt, 0, (k + 1) as nat);
                assert(pair_reached(pt, k) == holds(b, d as int));
                assert(pairs_before(pt, (k + 1) as nat) == pairs_before(pt, k as nat) + if holds(
                    b,
                    d as int,
                ) {
                    1nat
                } else {
                    0nat
                });
            }
            if test_bit(b, d) {
                n = n + 1;
            }
            d = d + 1;
        }
        s = s + 1;
    }
    n
}

fn slot_of(t: usize, rt: usize) -> (r: Option<usize>)
    requires
        t < 6,
        rt < 12,
    ensures
        match r {
            Some(m) => m == target_slot(t as int, rt as int) && m < 10 && t < 5,
            None => target_slot(t as int, rt as int) < 0,
        },
{
    let k = rt % 6;
    let per_side: usize = if t == 0 {
        2
    } else if t == 2 || t == 3 {
        4
    } else {
        5
    };
    let foe: usize = if rt >= 6 {
        per_side
    } else {
        0
    };
    if t == 0 {
        if k == 1 || k == 3 {
            Some(k / 2 + foe)
        } else {
            None
        }
    } else if t < 5 && k < per_side {
        Some(k + foe)
    } else {
        None
    }
}

fn block_of(t: usize, m: usize) -> (r: usize)
    requires
        t < 5,
        m < 10,
    ensures
        r == block_start(t as int) + m * block_size(t as int),
        r <= 100_000,
{
    if t == 0 {
        m * 84
    } else if t == 1 {
        336 + m * 336
    } else if t == 2 {
        3696 + m * 560
    } else if t == 3 {
        8176 + m * 896
    } else {
        15344 + m * 1456
    }
}

fn pawn_pair_of(s: usize, d: usize) -> (r: usize)
    requires
        s < 64,
        d < 64,
    ensures
        r == pawn_pair(s as int, d as int) + 15,
        r <= 200,
{
    let gap: usize = if d > s {
        d - s
    } else {
        s - d
    };
    let right: usize = if gap == (if d > s {
        7
    } else {
        9
    }) {
        0
    } else {
        1
    };
    s / 8 * 14 + 2 * (s % 8) + right
}

impl ThreatTables {
    pub open spec fn wf(&self) -> bool {
        &&& sizes_match()
        &&& self.before@.len() == 16384
        &&& forall|k: int|
            0 <= k < 4096 ==> #[trigger] self.before@[k] == pairs_before(
                PieceType::Knight,
                k as nat,
            )
        &&& forall|k: int|
            0 <= k < 4096 ==> #[trigger] self.before@[4096 + k] == pairs_before(
                PieceType::Bishop,
                k as nat,
            )
        &&& forall|k: int|
            0 <= k < 4096 ==> #[trigger] self.before@[8192 + k] == pairs_before(
                PieceType::Rook,
                k as nat,
            )
        &&& forall|k: int|
            0 <= k < 4096 ==> #[trigger] self.before@[12288 + k] == pairs_before(
                PieceType::Queen,
                k as nat,
            )
    }

    /// The tables. The attack sets have the sizes the numbering is laid out for.
    pub fn new() -> (r: Option<ThreatTables>)
        ensures
            r is Some,
            r matches Some(t) ==> t.wf(),
    {
        let mut before: Vec<u16> = Vec::new();
        let knight = append_pairs(&mut before, PieceType::Knight);
        let ghost a1 = before@;
        let bishop = append_pairs(&mut before, PieceType::Bishop);
        let ghost a2 = before@;
        let rook = append_pairs(&mut before, PieceType::Rook);
        let ghost a3 = before@;
        let queen = append_pairs(&mut before, PieceType::Queen);
        proof {
            assert forall|k: int| 0 <= k < 4096 implies #[trigger] before@[k] == pairs_before(
                PieceType::Knight,
                k as nat,
            ) by {
                assert(a1[0 + k] == pairs_before(PieceType::Knight, k as nat));
                assert(a2[k] == a1[k]);
                assert(a3[k] == a2[k]);
            }
            assert forall|k: int| 0 <= k < 4096 implies #[trigger] before@[4096 + k]
                == pairs_before(PieceType::Bishop, k as nat) by {
                assert(a2[a1.len() + k] == pairs_before(PieceType::Bishop, k as nat));
                assert(a3[4096 + k] == a2[4096 + k]);
            }
            assert forall|k: int| 0 <= k < 4096 implies #[trigger] before@[8192 + k]
                == pairs_before(PieceType::Rook, k as nat) by {
                assert(a3[a2.len() + k] == pairs_before(PieceType::Rook, k as nat));
            }
            assert forall|k: int| 0 <= k < 4096 implies #[trigger] before@[12288 + k]
                == pairs_before(PieceType::Queen, k as nat) by {
                assert(before@[a3.len() + k] == pairs_before(PieceType::Queen, k as nat));
            }
        }
        proof {
            attack_sets_have_their_sizes();
        }
        if knight == 336 && bishop == 560 && rook == 896 && queen == 1456 {
            Some(ThreatTables { before })
        } else {
            None
        }
    }

    /// Number of pairs of squares where a piece of the type attacks the second from the
    /// first, on the empty board.
    pub fn count(&self, pt: PieceType) -> (r: u32)
        requires
            self.wf(),
            pt != PieceType::Pawn,
            pt != PieceType::King,
        ensures
            r == pairs_before(pt, 4096),
    {
        match pt {
            PieceType::Knight => 336,
            PieceType::Bishop => 560,
            PieceType::Rook => 896,
            _ => 1456,
        }
    }

    /// Pairs of squares before the given one.
    fn pairs(&self, ra: usize, s: usize, d: usize) -> (r: usize)
        requires
            self.wf(),
            1 <= ra % 6 <= 4,
            s < 64,
            d < 64,
        ensures
            r == pairs_before(PieceType::from_idx((ra % 6) as usize), (64 * s + d) as nat),
            r <= 4096,
    {
        let k: usize = 64 * s + d;
        proof {
            lemma_pairs_grow(PieceType::from_idx((ra % 6) as usize), 0, k as nat);
            assert(self.before@[k as int] == pairs_before(PieceType::Knight, k as nat));
            assert(self.before@[4096 + k] == pairs_before(PieceType::Bishop, k as nat));
            assert(self.before@[8192 + k] == pairs_before(PieceType::Rook, k as nat));
            assert(self.before@[12288 + k] == pairs_before(PieceType::Queen, k as nat));
        }
        let t = ra % 6;
        let base: usize = if t == 1 {
            0
        } else if t == 2 {
            4096
        } else if t == 3 {
            8192
        } else {
            12288
        };
        self.before[base + k] as usize
    }

    /// Number of a threat among the inputs, or `None` for pairs the network has no input
    /// for: perspective-relative attacker and target, oriented squares.
    pub fn threat_index(&self, ra: usize, rt: usize, s: usize, d: usize) -> (r: Option<usize>)
        requires
            self.wf(),
            ra < 12,
            rt < 12,
            s < 64,
            d < 64,
        ensures
            match r {
                Some(f) => threat_number(ra as int, rt as int, s as int, d as int) == Some(
                    f as int,
                ),
                None => threat_number(ra as int, rt as int, s as int, d as int) is None,
            },
    {
        let t = ra % 6;
        let m = match slot_of(t, rt) {
            Some(m) => m,
            None => {
                return None;
            },
        };
        if t != 0 && d > s && rt % 6 == t {
            return None;
        }
        let side: usize = if ra >= 6 {
            THREATS_PER_SIDE
        } else {
            0
        };
        let base = block_of(t, m);
        if t == 0 {
            Some(PP_FEATURES + side + base + pawn_pair_of(s, d) - 15)
        } else {
            Some(PP_FEATURES + side + base + self.pairs(ra, s, d))
        }
    }

    /// Threat feature index from `p`'s perspective, or `None` for pairs the net has no input
    /// for.
    pub fn threat_feature(
        &self,
        attacker: Piece,
        src: Square,
        dest: Square,
        target: Piece,
        p: Color,
        flip: u8,
    ) -> (r: Option<usize>)
        requires
            self.wf(),
            attacker.0 < 12,
            target.0 < 12,
            src < 64,
            dest < 64,
        ensures
            match r {
                Some(f) => seen_threat(attacker, src, dest, target, p, flip) == Some(f as int),
                None => seen_threat(attacker, src, dest, target, p, flip) is None,
            },
    {
        let s = oriented(p, src, flip) as usize;
        let d = oriented(p, dest, flip) as usize;
        self.threat_index(relative_piece(attacker, p), relative_piece(target, p), s, d)
    }
}

/// Number of a threat as `p` sees it.
pub open spec fn seen_threat(
    attacker: Piece,
    src: Square,
    dest: Square,
    target: Piece,
    p: Color,
    flip: u8,
) -> Option<int> {
    threat_number(
        relative_piece(attacker, p) as int,
        relative_piece(target, p) as int,
        oriented(p, src, flip) as int,
        oriented(p, dest, flip) as int,
    )
}

/// Place of a threat within the block of its attacker and target.
pub open spec fn local_number(ra: int, s: int, d: int) -> int {
    if ra % 6 == 0 {
        pawn_pair(s, d)
    } else {
        pairs_before(PieceType::from_idx((ra % 6) as usize), (64 * s + d) as nat) as int
    }
}

proof fn lemma_local(ra: int, s: int, d: int)
    requires
        sizes_match(),
        0 <= ra < 12,
        ra % 6 < 5,
        can_attack(ra, s, d),
    ensures
        0 <= local_number(ra, s, d) < block_size(ra % 6),
{
    if ra % 6 != 0 {
        let pt = PieceType::from_idx((ra % 6) as usize);
        let k = 64 * s + d;
        assert(k / 64 == s && k % 64 == d);
        assert(pair_reached(pt, k));
        lemma_pairs_grow(pt, (k + 1) as nat, 4096);
    }
}

/// Threats that can occur have inputs within the table, after those of the pawn pairs.
pub proof fn threat_inputs_are_in_range(ra: int, rt: int, s: int, d: int)
    requires
        sizes_match(),
        0 <= ra < 12,
        0 <= rt < 12,
        can_attack(ra, s, d),
    ensures
        threat_number(ra, rt, s, d) matches Some(f) ==> PP_FEATURES <= f < AUX_FEATURES,
{
    let t = ra % 6;
    let m = target_slot(t, rt);
    if t < 5 && m >= 0 {
        lemma_local(ra, s, d);
    }
}

proof fn lemma_pawn_pairs(c: Color, s: int, d: int, s2: int, d2: int)
    requires
        8 <= s < 56,
        8 <= s2 < 56,
        on_board(d),
        on_board(d2),
        pawn_hit(c, s, d),
        pawn_hit(c, s2, d2),
        pawn_pair(s, d) == pawn_pair(s2, d2),
    ensures
        s == s2 && d == d2,
{
}

proof fn lemma_digits(m: int, a: int, m2: int, b: int, n: int)
    by (nonlinear_arith)
    requires
        0 <= a < n,
        0 <= b < n,
        m * n + a == m2 * n + b,
    ensures
        m == m2 && a == b,
{
}

/// Offset of a threat within its side's inputs.
pub open spec fn side_offset(ra: int, rt: int, s: int, d: int) -> int {
    block_start(ra % 6) + target_slot(ra % 6, rt) * block_size(ra % 6) + local_number(ra, s, d)
}

proof fn lemma_side_offset(ra: int, rt: int, s: int, d: int)
    requires
        sizes_match(),
        0 <= ra < 12,
        0 <= rt < 12,
        can_attack(ra, s, d),
        threat_number(ra, rt, s, d) is Some,
    ensures
        ra % 6 < 5,
        target_slot(ra % 6, rt) >= 0,
        threat_number(ra, rt, s, d) == Some(
            PP_FEATURES + THREATS_PER_SIDE * (ra / 6) + side_offset(ra, rt, s, d),
        ),
        block_start(ra % 6) <= side_offset(ra, rt, s, d) < if ra % 6 == 4 {
            29904
        } else {
            block_start(ra % 6 + 1)
        },
{
    lemma_local(ra, s, d);
}

proof fn lemma_slots(t: int, rt: int, rt2: int)
    requires
        0 <= rt < 12,
        0 <= rt2 < 12,
        0 <= t < 5,
        target_slot(t, rt) >= 0,
        target_slot(t, rt) == target_slot(t, rt2),
    ensures
        rt == rt2,
{
}

/// Different threats that can occur have different inputs.
pub proof fn threat_inputs_are_unique(
    ra: int,
    rt: int,
    s: int,
    d: int,
    ra2: int,
    rt2: int,
    s2: int,
    d2: int,
)
    requires
        sizes_match(),
        0 <= ra < 12,
        0 <= rt < 12,
        0 <= ra2 < 12,
        0 <= rt2 < 12,
        can_attack(ra, s, d),
        can_attack(ra2, s2, d2),
        threat_number(ra, rt, s, d) is Some,
        threat_number(ra, rt, s, d) == threat_number(ra2, rt2, s2, d2),
    ensures
        ra == ra2 && rt == rt2 && s == s2 && d == d2,
{
    lemma_side_offset(ra, rt, s, d);
    lemma_side_offset(ra2, rt2, s2, d2);
    lemma_local(ra, s, d);
    lemma_local(ra2, s2, d2);
    let (a, b) = (local_number(ra, s, d), local_number(ra2, s2, d2));
    let (t, t2) = (ra % 6, ra2 % 6);
    let (m, m2) = (target_slot(t, rt), target_slot(t2, rt2));
    assert(ra / 6 == ra2 / 6);
    assert(t == t2);
    lemma_digits(m, a, m2, b, block_size(t));
    lemma_slots(t, rt, rt2);
    if t == 0 {
        lemma_pawn_pairs(
            if ra < 6 {
                Color::White
            } else {
                Color::Black
            },
            s,
            d,
            s2,
            d2,
        );
    } else {
        let pt = PieceType::from_idx(t as usize);
        let (k, k2) = (64 * s + d, 64 * s2 + d2);
        assert(k / 64 == s && k % 64 == d);
        assert(k2 / 64 == s2 && k2 % 64 == d2);
        assert(pair_reached(pt, k) && pair_reached(pt, k2));
        if k < k2 {
            lemma_pairs_grow(pt, (k + 1) as nat, k2 as nat);
        }
        if k2 < k {
            lemma_pairs_grow(pt, (k2 + 1) as nat, k as nat);
        }
    }
}

/// Whether `slider` has a threat input for attacking `target`: queens are only targets
/// of queens.
#[verifier::allow_in_spec]
pub fn can_slider_threat(target: Piece, slider: Piece) -> bool
    returns
        target.piece_type() != PieceType::Queen || slider.piece_type() == PieceType::Queen,
{
    target.piece_type() != PieceType::Queen || slider.piece_type() == PieceType::Queen
}

} // verus!
