use peras::bitboard::{
    aligned, between_bb, bishop_attacks, distance, file_bb, forward_file_bb, forward_ranks_bb, knight_attacks,
    least_significant_square_bb, line_bb, lsb, manhattan_distance, more_than_one, msb,
    passed_pawn_span, pawn_attacks_bb, pop_lsb, popcount, rank_bb, rook_attacks, shift, sq_bb,
    FILE_A_BB, NORTH_EAST, RANK_1_BB, SOUTH_WEST,
};
use peras::magics::{Tables, BISHOP_TABLE_SIZE, ROOK_TABLE_SIZE};
use peras::types::{make_square, Color};

#[test]
fn between_and_line() {
    let (a1, a8, c2, h8, d4, d5) = (0, 56, 10, 63, 27, 35);
    let (b1, c1) = (1, 2);
    assert_eq!(between_bb(a1, a8), (FILE_A_BB & !sq_bb(a1)));
    assert_eq!(between_bb(a1, c2), sq_bb(c2)); // unaligned
    assert!(aligned(a1, h8, d4));
    assert!(!aligned(a1, h8, d5));
    assert_eq!(knight_attacks(a1), sq_bb(b1 + 16) | sq_bb(c1 + 8));
}

/// Sliding attacks square by square.
fn slide(dirs: [(i32, i32); 4], sq: u8, occupied: u64) -> u64 {
    let mut attacks = 0;
    for (df, dr) in dirs {
        let (mut f, mut r) = ((sq % 8) as i32 + df, (sq / 8) as i32 + dr);
        while (0..8).contains(&f) && (0..8).contains(&r) {
            let to = sq_bb(make_square(f as u8, r as u8));
            attacks |= to;
            if occupied & to != 0 {
                break;
            }
            f += df;
            r += dr;
        }
    }
    attacks
}

const ROOK_DIRS: [(i32, i32); 4] = [(0, 1), (0, -1), (1, 0), (-1, 0)];
const BISHOP_DIRS: [(i32, i32); 4] = [(1, 1), (-1, 1), (1, -1), (-1, -1)];

#[test]
fn magics_match_on_the_fly() {
    let tables = Tables::new().unwrap();
    let mut rng: u64 = 0x9E3779B97F4A7C15;
    for _ in 0..20000 {
        rng ^= rng << 13;
        rng ^= rng >> 7;
        rng ^= rng << 17;
        let occ = rng & (rng.rotate_left(23));
        let sq = (rng >> 58) as u8;
        assert_eq!(tables.rook_attacks(sq, occ), slide(ROOK_DIRS, sq, occ));
        assert_eq!(tables.bishop_attacks(sq, occ), slide(BISHOP_DIRS, sq, occ));
    }
}

#[test]
fn tables_hold_what_is_computed() {
    let t = Tables::new().unwrap();
    assert_eq!(t.rook_table.len(), ROOK_TABLE_SIZE);
    assert_eq!(t.bishop_table.len(), BISHOP_TABLE_SIZE);
    assert_eq!(t.rook_magics[0].offset, 0);
    assert_eq!(t.rook_magics[1].offset, 4096);
    assert_eq!(t.rook_magics[1].index(0), 4096);
    for a in 0..64u8 {
        for b in 0..64u8 {
            let i = 64 * a as usize + b as usize;
            assert_eq!(t.between_bb[i], between_bb(a, b));
            assert_eq!(t.line_bb[i], line_bb(a, b));
            assert_eq!(t.square_distance[i], distance(a, b));
        }
        assert_eq!(t.pseudo_attacks[64 + a as usize], knight_attacks(a));
        assert_eq!(t.pseudo_attacks[192 + a as usize], rook_attacks(a, 0));
        assert_eq!(t.pawn_attacks[a as usize], pawn_attacks_bb(Color::White, sq_bb(a)));
    }
}

#[test]
fn sliders_match_a_walk() {
    let mut rng: u64 = 0x9E3779B97F4A7C15;
    for _ in 0..20000 {
        rng ^= rng << 13;
        rng ^= rng >> 7;
        rng ^= rng << 17;
        let occ = rng & (rng.rotate_left(23));
        let sq = (rng >> 58) as u8;
        assert_eq!(rook_attacks(sq, occ), slide(ROOK_DIRS, sq, occ));
        assert_eq!(bishop_attacks(sq, occ), slide(BISHOP_DIRS, sq, occ));
    }
}

#[test]
fn bits_are_counted_and_taken() {
    let mut b: u64 = 0x8000_0000_0000_1010;
    assert_eq!(popcount(b), 3);
    assert!(more_than_one(b));
    assert!(!more_than_one(8));
    assert!(!more_than_one(0));
    assert_eq!(lsb(b), 4);
    assert_eq!(msb(b), 63);
    assert_eq!(least_significant_square_bb(b), 0x10);
    assert_eq!(pop_lsb(&mut b), 4);
    assert_eq!(pop_lsb(&mut b), 12);
    assert_eq!(b, 1 << 63);
    assert_eq!(popcount(u64::MAX), 64);
    assert_eq!(popcount(0), 0);
}

#[test]
fn shifts_do_not_wrap() {
    assert_eq!(shift(sq_bb(7), NORTH_EAST), 0);
    assert_eq!(shift(sq_bb(0), NORTH_EAST), sq_bb(9));
    assert_eq!(shift(sq_bb(8), SOUTH_WEST), 0);
    assert_eq!(shift(sq_bb(9), SOUTH_WEST), sq_bb(0));
    assert_eq!(pawn_attacks_bb(Color::White, sq_bb(8)), sq_bb(17));
    assert_eq!(pawn_attacks_bb(Color::Black, sq_bb(12)), sq_bb(3) | sq_bb(5));
}

#[test]
fn spans_and_distances() {
    assert_eq!(file_bb(9), FILE_A_BB << 1);
    assert_eq!(rank_bb(9), RANK_1_BB << 8);
    assert_eq!(forward_file_bb(Color::White, 48), sq_bb(56));
    assert_eq!(forward_ranks_bb(Color::White, 28), 0x1010_1010_0000_0000);
    assert_eq!(forward_ranks_bb(Color::Black, 28), 0x0010_1010);
    assert_eq!(
        passed_pawn_span(Color::White, 52),
        sq_bb(59) | sq_bb(60) | sq_bb(61)
    );
    assert_eq!(distance(0, 63), 7);
    assert_eq!(distance(0, 8), 1);
    assert_eq!(manhattan_distance(0, 63), 14);
    assert_eq!(line_bb(0, 9), 0x8040_2010_0804_0201);
    assert_eq!(line_bb(0, 17), 0);
}
