//! Attack sets of sliding pieces by magic multiplication, with the other tables that depend
//! on squares alone. Building the tables tests every multiplier.

use vstd::prelude::*;

use crate::bitboard::{
    between_bb, bishop_attacks, distance, file_bb, lemma_masks, line_bb, pawn_attacks,
    pseudo_attacks, rank_bb, rook_attacks, FILE_A_BB, FILE_H_BB, RANK_1_BB, RANK_8_BB,
};
use crate::bits::{group_has, holds, lemma_ext};
use crate::geometry::{
    between, bishop_line, clear, in_line, on_board, pawn_hit, reaches, rook_line, steps,
};
use crate::types::{file, rank, Bitboard, Color, PieceType, Square};

verus! {

broadcast use group_has;

/// Entry range and multiplier of one square.
#[derive(Clone, Copy, PartialEq, Eq, Debug, Structural)]
pub struct Magic {
    pub mask: Bitboard,
    pub magic: u64,
    pub shift: u32,
    pub offset: u32,
}

pub const ROOK_TABLE_SIZE: usize = 0x19000;

pub const BISHOP_TABLE_SIZE: usize = 0x1480;

/// Relevant occupancy bit counts per square.
pub const BISHOP_BITS: [u32; 64] = [
    6, 5, 5, 5, 5, 5, 5, 6, 5, 5, 5, 5, 5, 5, 5, 5, 5, 5, 7, 7, 7, 7, 5, 5, 5, 5, 7, 9, 9, 7, 5, 5,
    5, 5, 7, 9, 9, 7, 5, 5, 5, 5, 7, 7, 7, 7, 5, 5, 5, 5, 5, 5, 5, 5, 5, 5, 6, 5, 5, 5, 5, 5, 5, 6,
];

pub const ROOK_BITS: [u32; 64] = [
    12, 11, 11, 11, 11, 11, 11, 12, 11, 10, 10, 10, 10, 10, 10, 11, 11, 10, 10, 10, 10, 10, 10, 11,
    11, 10, 10, 10, 10, 10, 10, 11, 11, 10, 10, 10, 10, 10, 10, 11, 11, 10, 10, 10, 10, 10, 10, 11,
    11, 10, 10, 10, 10, 10, 10, 11, 12, 11, 11, 11, 11, 11, 11, 12,
];

/// Multipliers, indexed by square.
pub const ROOK_MAGICS: [u64; 64] = [
    0xA180022080400230, 0x0040100040022000, 0x0080088020001002, 0x0080080280841000,
    0x4200042010460008, 0x04800A0003040080, 0x0400110082041008, 0x008000A041000880,
    0x10138001A080C010, 0x0000804008200480, 0x00010011012000C0, 0x0022004128102200,
    0x000200081201200C, 0x202A001048460004, 0x0081000100420004, 0x4000800380004500,
    0x0000208002904001, 0x0090004040026008, 0x0208808010002001, 0x2002020020704940,
    0x8048010008110005, 0x6820808004002200, 0x0A80040008023011, 0x00B1460000811044,
    0x4204400080008EA0, 0xB002400180200184, 0x2020200080100380, 0x0010080080100080,
    0x2204080080800400, 0x0000A40080360080, 0x02040604002810B1, 0x008C218600004104,
    0x8180004000402000, 0x488C402000401001, 0x4018A00080801004, 0x1230002105001008,
    0x8904800800800400, 0x0042000C42003810, 0x008408110400B012, 0x0018086182000401,
    0x2240088020C28000, 0x001001201040C004, 0x0A02008010420020, 0x0010003009010060,
    0x0004008008008014, 0x0080020004008080, 0x0282020001008080, 0x50000181204A0004,
    0x48FFFE99FECFAA00, 0x48FFFE99FECFAA00, 0x497FFFADFF9C2E00, 0x613FFFDDFFCE9200,
    0xFFFFFFE9FFE7CE00, 0xFFFFFFF5FFF3E600, 0x0010301802830400, 0x510FFFF5F63C96A0,
    0xEBFFFFB9FF9FC526, 0x61FFFEDDFEEDAEAE, 0x53BFFFEDFFDEB1A2, 0x127FFFB9FFDFB5F6,
    0x411FFFDDFFDBF4D6, 0x0801000804000603, 0x0003FFEF27EEBE74, 0x7645FFFECBFEA79E,
];

pub const BISHOP_MAGICS: [u64; 64] = [
    0xFFEDF9FD7CFCFFFF, 0xFC0962854A77F576, 0x5822022042000000, 0x2CA804A100200020,
    0x0204042200000900, 0x2002121024000002, 0xFC0A66C64A7EF576, 0x7FFDFDFCBD79FFFF,
    0xFC0846A64A34FFF6, 0xFC087A874A3CF7F6, 0x1001080204002100, 0x1810080489021800,
    0x0062040420010A00, 0x5028043004300020, 0xFC0864AE59B4FF76, 0x3C0860AF4B35FF76,
    0x73C01AF56CF4CFFB, 0x41A01CFAD64AAFFC, 0x040C0422080A0598, 0x4228020082004050,
    0x0200800400E00100, 0x020B001230021040, 0x7C0C028F5B34FF76, 0xFC0A028E5AB4DF76,
    0x0020208050A42180, 0x001004804B280200, 0x2048020024040010, 0x0102C04004010200,
    0x020408204C002010, 0x02411100020080C1, 0x102A008084042100, 0x0941030000A09846,
    0x0244100800400200, 0x4000901010080696, 0x0000280404180020, 0x0800042008240100,
    0x0220008400088020, 0x04020182000904C9, 0x0023010400020600, 0x0041040020110302,
    0xDCEFD9B54BFCC09F, 0xF95FFA765AFD602B, 0x1401210240484800, 0x0022244208010080,
    0x1105040104000210, 0x2040088800C40081, 0x43FF9A5CF4CA0C01, 0x4BFFCD8E7C587601,
    0xFC0FF2865334F576, 0xFC0BF6CE5924F576, 0x80000B0401040402, 0x0020004821880A00,
    0x8200002022440100, 0x0009431801010068, 0xC3FFB7DC36CA8C89, 0xC3FF8A54F4CA2C89,
    0xFFFFFCFCFD79EDFF, 0xFC0863FCCB147576, 0x040C000022013020, 0x2000104000420600,
    0x0400000260142410, 0x0800633408100500, 0xFC087E8E4BB2F736, 0x43FF9E4EF4CA2C89,
];

impl Magic {
    /// The upper bits of the product of the relevant occupancy and the multiplier.
    pub open spec fn slot(self, occupied: u64) -> u64 {
        ((((occupied & self.mask) as nat * self.magic as nat) % 0x1_0000_0000_0000_0000) as u64)
            >> self.shift
    }

    /// Place of an occupancy in the table.
    pub fn index(&self, occupied: Bitboard) -> (r: usize)
        requires
            52 <= self.shift < 64,
            self.offset <= 0x4_0000,
        ensures
            r == self.slot(occupied) + self.offset,
            r - self.offset < (1u64 << ((64 - self.shift) as u64)),
    {
        let x = (occupied & self.mask).wrapping_mul(self.magic);
        let k = x >> self.shift;
        proof {
            bv_shifted(x, self.shift);
        }
        k as usize + self.offset as usize
    }
}

proof fn bv_shifted(x: u64, shift: u32)
    by (bit_vector)
    requires
        52 <= shift < 64,
    ensures
        (x >> shift) < (1u64 << ((64 - shift) as u64)),
        (1u64 << ((64 - shift) as u64)) <= 4096,
{
}

/// The next larger subset of a mask, after one that is not all of it.
proof fn bv_next_subset(s: u64, m: u64, t: u64)
    by (bit_vector)
    requires
        s & m == s,
        s != m,
    ensures
        (s | !m) < 0xffff_ffff_ffff_ffffu64,
        ((((s | !m) + 1) as u64) & m) > s,
        ((((s | !m) + 1) as u64) & m) & m == (((s | !m) + 1) as u64) & m,
        t & m == t && t > s ==> t >= ((((s | !m) + 1) as u64) & m),
        s <= m,
{
}

fn next_subset(s: Bitboard, m: Bitboard) -> (r: Bitboard)
    requires
        s & m == s,
        s != m,
    ensures
        r > s,
        r & m == r,
        r <= m,
        forall|t: u64| #[trigger] (t & m) == t && t > s ==> t >= r,
{
    proof {
        bv_next_subset(s, m, 0);
    }
    let r = ((s | !m) + 1) & m;
    proof {
        assert forall|t: u64| #[trigger] (t & m) == t && t > s implies t >= r by {
            bv_next_subset(s, m, t);
        }
        assert(r & m == r ==> r <= m) by (bit_vector);
    }
    r
}

/// A slider of one of the two elementary kinds.
pub open spec fn glides(rook: bool, a: int, b: int, occ: u64) -> bool {
    on_board(b) && (if rook {
        rook_line(a, b)
    } else {
        bishop_line(a, b)
    }) && clear(a, b, occ)
}

/// `w` holds the squares the slider attacks.
pub open spec fn is_attack(w: u64, rook: bool, a: int, occ: u64) -> bool {
    forall|t: int| #[trigger] holds(w, t) <==> glides(rook, a, t, occ)
}

fn slide(rook: bool, sq: Square, occupied: Bitboard) -> (r: Bitboard)
    requires
        sq < 64,
    ensures
        is_attack(r, rook, sq as int, occupied),
        r != 0,
{
    let r = if rook {
        rook_attacks(sq, occupied)
    } else {
        bishop_attacks(sq, occupied)
    };
    proof {
        let s = sq as int;
        let df: int = if file(s) < 7 {
            1
        } else {
            -1
        };
        let dr: int = if rank(s) < 7 {
            8
        } else {
            -8
        };
        let t = if rook {
            s + df
        } else {
            s + df + dr
        };
        assert(file(t) == file(s) + df);
        assert(rook ==> rank(t) == rank(s));
        assert(!rook ==> rank(t) == rank(s) + dr / 8);
        assert(clear(s, t, occupied));
        assert(glides(rook, s, t, occupied));
        assert(holds(r, t));
    }
    r
}

/// Squares whose occupancy matters: edges never do, only as destinations.
pub open spec fn relevant(rook: bool, a: int, y: int) -> bool {
    &&& glides(rook, a, y, 0)
    &&& (rank(y) == 0 || rank(y) == 7) ==> rank(y) == rank(a)
    &&& (file(y) == 0 || file(y) == 7) ==> file(y) == file(a)
}

fn relevant_mask(rook: bool, sq: Square) -> (r: Bitboard)
    requires
        sq < 64,
    ensures
        forall|y: int| #[trigger] holds(r, y) <==> relevant(rook, sq as int, y),
{
    let edges = ((RANK_1_BB | RANK_8_BB) & !rank_bb(sq)) | ((FILE_A_BB | FILE_H_BB) & !file_bb(sq));
    let r = slide(rook, sq, 0) & !edges;
    proof {
        assert forall|y: int| #[trigger] holds(r, y) <==> relevant(rook, sq as int, y) by {
            if on_board(y) {
                lemma_masks(y);
            }
        }
    }
    r
}

/// Attacks depend on the relevant occupancy alone.
proof fn lemma_relevant(rook: bool, a: int, mask: u64, occ: u64, t: int)
    requires
        on_board(a),
        forall|y: int| #[trigger] holds(mask, y) <==> relevant(rook, a, y),
    ensures
        glides(rook, a, t, occ) == glides(rook, a, t, occ & mask),
{
    if on_board(t) && (if rook {
        rook_line(a, t)
    } else {
        bishop_line(a, t)
    }) {
        assert forall|y: int| between(a, t, y) implies holds(occ & mask, y) == holds(occ, y) by {
            lemma_between_relevant(rook, a, t, y);
        }
        if clear(a, t, occ) {
            assert forall|y: int| between(a, t, y) implies !holds(occ & mask, y) by {
                assert(!holds(occ, y));
            }
        }
        if clear(a, t, occ & mask) {
            assert forall|y: int| between(a, t, y) implies !holds(occ, y) by {
                assert(!holds(occ & mask, y));
            }
        }
    }
}

proof fn lemma_between_relevant(rook: bool, a: int, t: int, y: int)
    requires
        on_board(a),
        on_board(t),
        if rook {
            rook_line(a, t)
        } else {
            bishop_line(a, t)
        },
        between(a, t, y),
    ensures
        relevant(rook, a, y),
{
    assert(0 <= file(a) < 8 && 0 <= rank(a) < 8);
    assert(0 <= file(t) < 8 && 0 <= rank(t) < 8);
    assert(clear(a, y, 0));
}

/// The table has the right attacks for every relevant occupancy of a square.
pub open spec fn square_ok(table: Seq<u64>, m: Magic, rook: bool, sq: int) -> bool {
    &&& 52 <= m.shift < 64
    &&& m.offset <= 0x4_0000
    &&& m.offset + (1u64 << ((64 - m.shift) as u64)) <= table.len()
    &&& forall|y: int| #[trigger] holds(m.mask, y) <==> relevant(rook, sq, y)
    &&& forall|o: u64| #[trigger]
        (o & m.mask) == o ==> is_attack(table[m.slot(o) + m.offset], rook, sq, o)
}

/// Occupancies that fall on one entry give the same attacks.
pub open spec fn no_clash(m: Magic, rook: bool, sq: int) -> bool {
    forall|a: u64, b: u64, t: int|
        #![trigger glides(rook, sq, t, a), glides(rook, sq, t, b)]
        (a & m.mask) == a && (b & m.mask) == b && m.slot(a) == m.slot(b) ==> glides(
            rook,
            sq,
            t,
            a,
        ) == glides(rook, sq, t, b)
}

/// The mask of a square with a multiplier and a number of bits.
pub open spec fn describes(m: Magic, rook: bool, sq: int, magic: u64, bits: int) -> bool {
    &&& m.magic == magic
    &&& m.shift == 64 - bits
    &&& forall|y: int| #[trigger] holds(m.mask, y) <==> relevant(rook, sq, y)
}

/// Multiplier of a square.
pub open spec fn multiplier(rook: bool, sq: int) -> u64 {
    if rook {
        ROOK_MAGICS@[sq]
    } else {
        BISHOP_MAGICS@[sq]
    }
}

/// Number of relevant occupancy bits of a square.
pub open spec fn bit_count(rook: bool, sq: int) -> u32 {
    if rook {
        ROOK_BITS@[sq]
    } else {
        BISHOP_BITS@[sq]
    }
}

/// The multiplier of a square brings no two occupancies with different attacks together.
pub open spec fn multiplier_fits(rook: bool, sq: int) -> bool {
    forall|m: Magic|
        describes(m, rook, sq, multiplier(rook, sq), bit_count(rook, sq) as int)
            ==> #[trigger] no_clash(m, rook, sq)
}

/// Entry `k` was written for the occupancy `o`.
spec fn entered(t: Seq<u64>, m: Magic, rook: bool, sq: int, o: u64, k: int) -> bool {
    (o & m.mask) == o && m.slot(o) + m.offset == k && is_attack(t[k], rook, sq, o)
}

/// Two descriptions of a square clash alike.
proof fn lemma_same_clash(m: Magic, n: Magic, rook: bool, sq: int, magic: u64, bits: int)
    requires
        describes(m, rook, sq, magic, bits),
        describes(n, rook, sq, magic, bits),
    ensures
        no_clash(m, rook, sq) == no_clash(n, rook, sq),
{
    lemma_ext(m.mask, n.mask);
    assert(forall|o: u64| m.slot(o) == n.slot(o));
}

/// Attack sets that differ on one entry clash.
proof fn lemma_clash(m: Magic, rook: bool, sq: int, a: u64, b: u64, v: u64, w: u64)
    requires
        (a & m.mask) == a,
        (b & m.mask) == b,
        m.slot(a) == m.slot(b),
        is_attack(v, rook, sq, a),
        is_attack(w, rook, sq, b),
        v != w,
    ensures
        !no_clash(m, rook, sq),
{
    if no_clash(m, rook, sq) {
        assert forall|t: int| #[trigger] holds(v, t) == holds(w, t) by {
            assert(glides(rook, sq, t, a) == glides(rook, sq, t, b));
        }
        lemma_ext(v, w);
    }
}

/// A table that is right for every occupancy has no clash.
proof fn lemma_right_table(t: Seq<u64>, m: Magic, rook: bool, sq: int)
    requires
        square_ok(t, m, rook, sq),
    ensures
        no_clash(m, rook, sq),
{
    assert forall|a: u64, b: u64, x: int|
        #![trigger glides(rook, sq, x, a), glides(rook, sq, x, b)]
        (a & m.mask) == a && (b & m.mask) == b && m.slot(a) == m.slot(b) implies glides(
        rook,
        sq,
        x,
        a,
    ) == glides(rook, sq, x, b) by {
        let w = t[m.slot(a) + m.offset];
        assert(is_attack(w, rook, sq, a));
        assert(is_attack(w, rook, sq, b));
        assert(holds(w, x) == glides(rook, sq, x, a));
    }
}

proof fn bv_subset(o: u64, m: u64)
    by (bit_vector)
    ensures
        (o & m) & m == o & m,
        o & m == o ==> o <= m,
        0u64 & m == 0,
{
}

/// Appends the entries of a square; nothing where two occupancies with different attacks
/// fall on one entry.
fn fill_square(table: &mut Vec<Bitboard>, rook: bool, sq: Square, magic: u64, bits: u32) -> (r:
    Option<Magic>)
    requires
        sq < 64,
        1 <= bits <= 12,
        old(table)@.len() <= 0x4_0000,
    ensures
        old(table)@.len() <= final(table)@.len() <= old(table)@.len() + 4096,
        forall|i: int|
            0 <= i < old(table)@.len() ==> #[trigger] final(table)@[i] == old(table)@[i],
        r matches Some(m) ==> square_ok(final(table)@, m, rook, sq as int),
        forall|m: Magic|
            describes(m, rook, sq as int, magic, bits as int) ==> (r is Some <==> #[trigger]
            no_clash(m, rook, sq as int)),
        r is None ==> exists|m: Magic|
            describes(m, rook, sq as int, magic, bits as int) && !(#[trigger] no_clash(
                m,
                rook,
                sq as int,
            )),
{
    let ghost before = table@;
    let off = table.len();
    let mask = relevant_mask(rook, sq);
    let m = Magic { mask, magic, shift: 64 - bits, offset: off as u32 };
    let size: u64 = 1u64 << (bits as u64);
    proof {
        bv_shifted(0, m.shift);
        assert((64 - m.shift) as u64 == bits as u64);
    }
    let mut i: u64 = 0;
    while i < size
        invariant
            i <= size <= 4096,
            off == before.len() <= 0x4_0000,
            table@.len() == off + i,
            forall|k: int| 0 <= k < off ==> #[trigger] table@[k] == before[k],
            forall|k: int| off <= k < off + i ==> #[trigger] table@[k] == 0,
        decreases size - i,
    {
        table.push(0);
        i += 1;
    }
    let mut sub: Bitboard = 0;
    proof {
        bv_subset(0, mask);
    }
    loop
        invariant
            sq < 64,
            size <= 4096,
            off == before.len() <= 0x4_0000,
            before == old(table)@,
            table@.len() == off + size,
            m.mask == mask,
            52 <= m.shift < 64,
            m.offset == off,
            size == 1u64 << ((64 - m.shift) as u64),
            forall|k: int| 0 <= k < off ==> #[trigger] table@[k] == before[k],
            forall|y: int| #[trigger] holds(mask, y) <==> relevant(rook, sq as int, y),
            sub & mask == sub,
            sub <= mask,
            describes(m, rook, sq as int, magic, bits as int),
            forall|k: int|
                off <= k < off + size && #[trigger] table@[k] != 0 ==> exists|o: u64| #[trigger]
                    entered(table@, m, rook, sq as int, o, k),
            forall|o: u64| #[trigger]
                (o & mask) == o && o < sub ==> table@[m.slot(o) + off] != 0 && is_attack(
                    table@[m.slot(o) + off],
                    rook,
                    sq as int,
                    o,
                ),
        decreases mask - sub,
    {
        let ghost t0 = table@;
        let idx = m.index(sub);
        let att = slide(rook, sq, sub);
        if table[idx] != 0 && table[idx] != att {
            proof {
                let s = sq as int;
                let o = choose|o: u64| #[trigger] entered(table@, m, rook, s, o, idx as int);
                lemma_clash(m, rook, s, o, sub, table@[idx as int], att);
                assert forall|n: Magic| describes(n, rook, s, magic, bits as int) implies !(
                #[trigger] no_clash(n, rook, s)) by {
                    lemma_same_clash(m, n, rook, s, magic, bits as int);
                }
            }
            return None;
        }
        table.set(idx, att);
        proof {
            assert forall|k: int|
                off <= k < off + size && #[trigger] table@[k] != 0 implies exists|o: u64| #[trigger]
                entered(table@, m, rook, sq as int, o, k) by {
                if k == idx {
                    assert(entered(table@, m, rook, sq as int, sub, k));
                } else {
                    assert(t0[k] != 0);
                    let o = choose|o: u64| #[trigger] entered(t0, m, rook, sq as int, o, k);
                    assert(entered(table@, m, rook, sq as int, o, k));
                }
            }
            assert forall|o: u64| #[trigger] (o & mask) == o && o <= sub implies table@[m.slot(o)
                + off] != 0 && is_attack(table@[m.slot(o) + off], rook, sq as int, o) by {
                if o < sub {
                    assert(t0[m.slot(o) + off] != 0);
                    if m.slot(o) + off == idx {
                        assert(t0[idx as int] == att);
                    } else {
                        lemma_slot_in_range(m, o, size);
                    }
                }
            }
        }
        if sub == mask {
            proof {
                assert forall|o: u64| #[trigger] (o & mask) == o implies is_attack(
                    table@[m.slot(o) + m.offset],
                    rook,
                    sq as int,
                    o,
                ) by {
                    bv_subset(o, mask);
                }
                let s = sq as int;
                assert(square_ok(table@, m, rook, s));
                lemma_right_table(table@, m, rook, s);
                assert forall|n: Magic| describes(n, rook, s, magic, bits as int) implies
                #[trigger] no_clash(n, rook, s) by {
                    lemma_same_clash(m, n, rook, s, magic, bits as int);
                }
            }
            return Some(m);
        }
        sub = next_subset(sub, mask);
    }
}

proof fn lemma_slot_in_range(m: Magic, o: u64, size: u64)
    requires
        52 <= m.shift < 64,
        size == 1u64 << ((64 - m.shift) as u64),
    ensures
        m.slot(o) < size,
{
    bv_shifted(
        (((o & m.mask) as nat * m.magic as nat) % 0x1_0000_0000_0000_0000) as u64,
        m.shift,
    );
}

/// Every square's entries.
pub open spec fn all_squares_ok(table: Seq<u64>, magics: Seq<Magic>, rook: bool) -> bool {
    magics.len() == 64 && forall|s: int|
        0 <= s < 64 ==> square_ok(table, #[trigger] magics[s], rook, s)
}

/// A table that only grew keeps the squares it had.
proof fn lemma_grown(t0: Seq<u64>, t1: Seq<u64>, m: Magic, rook: bool, sq: int)
    requires
        square_ok(t0, m, rook, sq),
        t0.len() <= t1.len(),
        forall|i: int| 0 <= i < t0.len() ==> #[trigger] t1[i] == t0[i],
    ensures
        square_ok(t1, m, rook, sq),
{
    assert forall|o: u64| #[trigger] (o & m.mask) == o implies is_attack(
        t1[m.slot(o) + m.offset],
        rook,
        sq,
        o,
    ) by {
        lemma_slot_in_range(m, o, 1u64 << ((64 - m.shift) as u64));
        assert(t1[m.slot(o) + m.offset] == t0[m.slot(o) + m.offset]);
    }
}

proof fn lemma_bit_counts(sq: int)
    requires
        0 <= sq < 64,
    ensures
        1 <= ROOK_BITS@[sq] <= 12,
        1 <= BISHOP_BITS@[sq] <= 12,
{
    assert(forall|k: int| 0 <= k < 64 ==> 1 <= #[trigger] ROOK_BITS@[k] <= 12);
    assert(forall|k: int| 0 <= k < 64 ==> 1 <= #[trigger] BISHOP_BITS@[k] <= 12);
}

fn build_sliders(rook: bool) -> (r: Option<(Vec<Magic>, Vec<Bitboard>)>)
    ensures
        r matches Some((magics, table)) ==> all_squares_ok(table@, magics@, rook),
        r is Some <==> forall|s: int| 0 <= s < 64 ==> #[trigger] multiplier_fits(rook, s),
{
    let mut magics: Vec<Magic> = Vec::new();
    let mut table: Vec<Bitboard> = Vec::new();
    let mut sq: u8 = 0;
    while sq < 64
        invariant
            sq <= 64,
            magics@.len() == sq,
            table@.len() <= 4096 * sq,
            forall|s: int| 0 <= s < sq ==> #[trigger] multiplier_fits(rook, s),
            forall|s: int| 0 <= s < sq ==> square_ok(table@, #[trigger] magics@[s], rook, s),
        decreases 64 - sq,
    {
        let bits = if rook {
            ROOK_BITS[sq as usize]
        } else {
            BISHOP_BITS[sq as usize]
        };
        let magic = if rook {
            ROOK_MAGICS[sq as usize]
        } else {
            BISHOP_MAGICS[sq as usize]
        };
        let ghost t0 = table@;
        proof {
            lemma_bit_counts(sq as int);
        }
        match fill_square(&mut table, rook, sq, magic, bits) {
            Some(m) => {
                proof {
                    assert forall|s: int| 0 <= s < sq implies square_ok(
                        table@,
                        #[trigger] magics@[s],
                        rook,
                        s,
                    ) by {
                        lemma_grown(t0, table@, magics@[s], rook, s);
                    }
                }
                magics.push(m);
                proof {
                    assert(multiplier_fits(rook, sq as int));
                }
            },
            None => {
                proof {
                    assert(exists|m: Magic|
                        describes(m, rook, sq as int, magic, bits as int) && !(#[trigger] no_clash(
                            m,
                            rook,
                            sq as int,
                        )));
                    assert(!multiplier_fits(rook, sq as int));
                }
                return None;
            },
        }
        sq += 1;
    }
    Some((magics, table))
}

// The tables

/// Everything that depends on squares alone, looked up.
pub struct Tables {
    /// By colour and square.
    pub pawn_attacks: Vec<Bitboard>,
    /// By piece type and square, on the empty board.
    pub pseudo_attacks: Vec<Bitboard>,
    /// By two squares.
    pub between_bb: Vec<Bitboard>,
    pub line_bb: Vec<Bitboard>,
    pub square_distance: Vec<u8>,
    pub rook_magics: Vec<Magic>,
    pub bishop_magics: Vec<Magic>,
    pub rook_table: Vec<Bitboard>,
    pub bishop_table: Vec<Bitboard>,
}

/// Attacks of the pawns of both colours.
pub open spec fn pawns_ok(t: Seq<u64>) -> bool {
    t.len() == 128 && forall|i: int, x: int|
        0 <= i < 128 ==> (#[trigger] holds(t[i], x) <==> on_board(x) && pawn_hit(
            Color::from_idx((i / 64) as usize),
            i % 64,
            x,
        ))
}

/// Attacks on the empty board.
pub open spec fn pieces_ok(t: Seq<u64>) -> bool {
    t.len() == 384 && forall|i: int, x: int|
        0 <= i < 384 ==> (#[trigger] holds(t[i], x) <==> on_board(x) && reaches(
            PieceType::from_idx((i / 64) as usize),
            i % 64,
            x,
            0,
        ))
}

/// The squares between two, with the second.
pub open spec fn between_ok(t: Seq<u64>) -> bool {
    t.len() == 4096 && forall|i: int, x: int|
        0 <= i < 4096 ==> (#[trigger] holds(t[i], x) <==> x == i % 64 || between(i / 64, i % 64, x))
}

pub open spec fn lines_ok(t: Seq<u64>) -> bool {
    t.len() == 4096 && forall|i: int, x: int|
        0 <= i < 4096 ==> (#[trigger] holds(t[i], x) <==> in_line(i / 64, i % 64, x))
}

pub open spec fn distances_ok(t: Seq<u8>) -> bool {
    t.len() == 4096 && forall|i: int| 0 <= i < 4096 ==> #[trigger] t[i] == steps(i / 64, i % 64)
}

fn build_pawns() -> (r: Vec<Bitboard>)
    ensures
        pawns_ok(r@),
{
    let mut t: Vec<Bitboard> = Vec::new();
    let mut i: usize = 0;
    while i < 128
        invariant
            i <= 128,
            t@.len() == i,
            forall|k: int, x: int|
                0 <= k < i ==> (#[trigger] holds(t@[k], x) <==> on_board(x) && pawn_hit(
                    Color::from_idx((k / 64) as usize),
                    k % 64,
                    x,
                )),
        decreases 128 - i,
    {
        t.push(pawn_attacks(Color::from_idx(i / 64), (i % 64) as u8));
        i += 1;
    }
    t
}

fn build_pieces() -> (r: Vec<Bitboard>)
    ensures
        pieces_ok(r@),
{
    let mut t: Vec<Bitboard> = Vec::new();
    let mut i: usize = 0;
    while i < 384
        invariant
            i <= 384,
            t@.len() == i,
            forall|k: int, x: int|
                0 <= k < i ==> (#[trigger] holds(t@[k], x) <==> on_board(x) && reaches(
                    PieceType::from_idx((k / 64) as usize),
                    k % 64,
                    x,
                    0,
                )),
        decreases 384 - i,
    {
        t.push(pseudo_attacks(PieceType::from_idx(i / 64), (i % 64) as u8));
        i += 1;
    }
    t
}

fn build_between() -> (r: Vec<Bitboard>)
    ensures
        between_ok(r@),
{
    let mut t: Vec<Bitboard> = Vec::new();
    let mut i: usize = 0;
    while i < 4096
        invariant
            i <= 4096,
            t@.len() == i,
            forall|k: int, x: int|
                0 <= k < i ==> (#[trigger] holds(t@[k], x) <==> x == k % 64 || between(
                    k / 64,
                    k % 64,
                    x,
                )),
        decreases 4096 - i,
    {
        t.push(between_bb((i / 64) as u8, (i % 64) as u8));
        i += 1;
    }
    t
}

fn build_lines() -> (r: Vec<Bitboard>)
    ensures
        lines_ok(r@),
{
    let mut t: Vec<Bitboard> = Vec::new();
    let mut i: usize = 0;
    while i < 4096
        invariant
            i <= 4096,
            t@.len() == i,
            forall|k: int, x: int|
                0 <= k < i ==> (#[trigger] holds(t@[k], x) <==> in_line(k / 64, k % 64, x)),
        decreases 4096 - i,
    {
        t.push(line_bb((i / 64) as u8, (i % 64) as u8));
        i += 1;
    }
    t
}

fn build_distances() -> (r: Vec<u8>)
    ensures
        distances_ok(r@),
{
    let mut t: Vec<u8> = Vec::new();
    let mut i: usize = 0;
    while i < 4096
        invariant
            i <= 4096,
            t@.len() == i,
            forall|k: int| 0 <= k < i ==> #[trigger] t@[k] == steps(k / 64, k % 64),
        decreases 4096 - i,
    {
        t.push(distance((i / 64) as u8, (i % 64) as u8));
        i += 1;
    }
    t
}

impl Tables {
    pub open spec fn wf(&self) -> bool {
        &&& pawns_ok(self.pawn_attacks@)
        &&& pieces_ok(self.pseudo_attacks@)
        &&& between_ok(self.between_bb@)
        &&& lines_ok(self.line_bb@)
        &&& distances_ok(self.square_distance@)
        &&& all_squares_ok(self.rook_table@, self.rook_magics@, true)
        &&& all_squares_ok(self.bishop_table@, self.bishop_magics@, false)
    }

    /// Builds every table; nothing where a multiplier does not fit its square.
    pub fn new() -> (r: Option<Tables>)
        ensures
            r is Some <==> forall|rook: bool, s: int|
                0 <= s < 64 ==> #[trigger] multiplier_fits(rook, s),
            r matches Some(t) ==> t.wf(),
    {
        let (rook_magics, rook_table) = match build_sliders(true) {
            Some(x) => x,
            None => {
                return None;
            },
        };
        let (bishop_magics, bishop_table) = match build_sliders(false) {
            Some(x) => x,
            None => {
                return None;
            },
        };
        Some(
            Tables {
                pawn_attacks: build_pawns(),
                pseudo_attacks: build_pieces(),
                between_bb: build_between(),
                line_bb: build_lines(),
                square_distance: build_distances(),
                rook_magics,
                bishop_magics,
                rook_table,
                bishop_table,
            },
        )
    }

    /// Squares a rook on `sq` attacks over the occupancy.
    pub fn rook_attacks(&self, sq: Square, occupied: Bitboard) -> (r: Bitboard)
        requires
            self.wf(),
            sq < 64,
        ensures
            forall|t: int| #[trigger]
                holds(r, t) <==> on_board(t) && rook_line(sq as int, t) && clear(
                    sq as int,
                    t,
                    occupied,
                ),
    {
        look_up(&self.rook_magics, &self.rook_table, true, sq, occupied)
    }

    /// Squares a bishop on `sq` attacks over the occupancy.
    pub fn bishop_attacks(&self, sq: Square, occupied: Bitboard) -> (r: Bitboard)
        requires
            self.wf(),
            sq < 64,
        ensures
            forall|t: int| #[trigger]
                holds(r, t) <==> on_board(t) && bishop_line(sq as int, t) && clear(
                    sq as int,
                    t,
                    occupied,
                ),
    {
        look_up(&self.bishop_magics, &self.bishop_table, false, sq, occupied)
    }
}

fn look_up(
    magics: &Vec<Magic>,
    table: &Vec<Bitboard>,
    rook: bool,
    sq: Square,
    occupied: Bitboard,
) -> (r: Bitboard)
    requires
        all_squares_ok(table@, magics@, rook),
        sq < 64,
    ensures
        is_attack(r, rook, sq as int, occupied),
{
    let m = magics[sq as usize];
    let ghost s = sq as int;
    assert(square_ok(table@, m, rook, s));
    let r = table[m.index(occupied)];
    proof {
        let o = occupied & m.mask;
        bv_subset(occupied, m.mask);
        assert(m.slot(o) == m.slot(occupied));
        assert forall|t: int| #[trigger] holds(r, t) <==> glides(rook, s, t, occupied) by {
            lemma_relevant(rook, s, m.mask, occupied, t);
        }
    }
    r
}

/// Looking an attack set up gives the set that walking the rays gives.
pub proof fn looked_up_attacks_agree(w: u64, u: u64, rook: bool, a: int, occ: u64)
    requires
        is_attack(w, rook, a, occ),
        is_attack(u, rook, a, occ),
    ensures
        w == u,
{
    assert forall|t: int| 0 <= t < 64 implies holds(w, t) == holds(u, t) by {}
    lemma_ext(w, u);
}

} // verus!
