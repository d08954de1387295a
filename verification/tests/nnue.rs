use peras::bitboard::{file_bb_of, pop_lsb, pseudo_attacks, sq_bb};
use peras::dirty::{compute_from_dirty, ray_pass, DirtyThreat, DirtyThreats};
use peras::inputs::debug_features;
use peras::movegen::generate_legal;
use peras::network::{output_bucket, Network};
use peras::nnue::{perspective_of, NnueState};
use peras::position::Position;
use peras::snapshot::{compute, Lists, Perspective, Snapshot};
use peras::threats::{
    king_context, oriented, pp_feature, psqt_feature, relative_piece, ThreatTables, AUX_FEATURES,
    PP_FEATURES, PSQT_FEATURES, THREATS_PER_SIDE,
};
use peras::types::{Color, MoveList, Piece, PieceType};

const FENS: [&str; 5] = [
    "rnbqkbnr/pppppppp/8/8/8/8/PPPPPPPP/RNBQKBNR w KQkq - 0 1",
    "r3k2r/p1ppqpb1/bn2pnp1/3PN3/1p2P3/2N2Q1p/PPPBBPPP/R3K2R w KQkq - 0 1",
    "r3k2r/Pppp1ppp/1b3nbN/nP6/BBP1P3/q4N2/Pp1P2PP/R2Q1RK1 w kq - 0 1",
    "8/2p5/3p4/KP5r/1R3p1k/8/4P1P1/8 w - - 0 1",
    "r4rk1/1pp1qppp/p1np1n2/2b1p1B1/4P1b1/1nP2N2/PP1PQPPP/R4RKR w - - 0 1",
];

/// The threat tables must match the trainer's: these are its attack-set sizes.
#[test]
fn threat_table_sizes() {
    let t = ThreatTables::new().unwrap();
    assert_eq!(t.count(PieceType::Knight), 336);
    assert_eq!(t.count(PieceType::Bishop), 560);
    assert_eq!(t.count(PieceType::Rook), 896);
    assert_eq!(t.count(PieceType::Queen), 1456);
    let queens = 4 * 84 + 10 * 336 + 8 * 560 + 8 * 896;
    assert_eq!(queens + 10 * t.count(PieceType::Queen), THREATS_PER_SIDE as u32);
    // The numbering follows the attack sets of the empty board.
    for (k, pt) in [PieceType::Knight, PieceType::Bishop, PieceType::Rook, PieceType::Queen]
        .into_iter()
        .enumerate()
    {
        let mut seen = 0;
        for sq in 0..64u8 {
            for d in 0..64usize {
                assert_eq!(t.before[4096 * k + 64 * sq as usize + d], seen);
                if pseudo_attacks(pt, sq) & (1 << d) != 0 {
                    seen += 1;
                }
            }
        }
        assert_eq!(seen as u32, t.count(pt));
    }
}

struct PieceThreats {
    attacks: Vec<u64>,
    index: Vec<u32>,
    count: u32,
    targets: [Option<u32>; 12],
    offset: u32,
}

fn targets(valid: &[usize]) -> [Option<u32>; 12] {
    let mut t = [None; 12];
    for (i, &v) in valid.iter().enumerate() {
        t[v] = Some(i as u32);
        t[v + 6] = Some((i + valid.len()) as u32);
    }
    t
}

fn piece_threats(pt: PieceType, valid: &[usize], offset: u32) -> PieceThreats {
    let attacks: Vec<u64> = (0..64).map(|s| pseudo_attacks(pt, s)).collect();
    let mut index = Vec::new();
    let mut count = 0;
    for a in &attacks {
        index.push(count);
        count += a.count_ones();
    }
    PieceThreats { attacks, index, count, targets: targets(valid), offset }
}

/// The numbering must agree with plain arithmetic, for every attacker, target and reachable
/// pair of squares, in both directions (neither may decline where the other produces a
/// value).
#[test]
fn threat_lut_matches_reference() {
    let pawn = targets(&[1, 3]);
    let knight = piece_threats(PieceType::Knight, &[0, 1, 2, 3, 4], 4 * 84);
    let bishop =
        piece_threats(PieceType::Bishop, &[0, 1, 2, 3], knight.offset + 10 * knight.count);
    let rook = piece_threats(PieceType::Rook, &[0, 1, 2, 3], bishop.offset + 8 * bishop.count);
    let queen = piece_threats(PieceType::Queen, &[0, 1, 2, 3, 4], rook.offset + 8 * rook.count);

    let reference = |attacker: Piece, s: usize, d: usize, target: Piece, p: Color| {
        let tpt = target.piece_type().idx();
        let tclass = tpt + if target.color() == p { 0 } else { 6 };
        let pt = attacker.piece_type();
        let idx = if pt == PieceType::Pawn {
            let m = pawn[tclass]?;
            let id = if d.abs_diff(s) == [9, 7][(d > s) as usize] { 0 } else { 1 };
            let attack = (2 * (s % 8) + id) as i32 - 1;
            m as i64 * 84 + (s as i64 / 8 - 1) * 14 + attack as i64
        } else {
            let t = match pt {
                PieceType::Knight => &knight,
                PieceType::Bishop => &bishop,
                PieceType::Rook => &rook,
                PieceType::Queen => &queen,
                _ => return None,
            };
            let m = t.targets[tclass]?;
            if d > s && tpt == pt.idx() {
                return None;
            }
            let within = (t.attacks[s] & ((1u64 << d) - 1)).count_ones();
            (t.offset + m * t.count + t.index[s] + within) as i64
        };
        let side = (attacker.color() != p) as usize;
        Some(((PP_FEATURES + THREATS_PER_SIDE * side) as i64 + idx) as usize)
    };

    // Squares `attacker` on `s` can actually attack, in p-relative coordinates: own pawns
    // capture upward, the opponent's downward.
    let reachable = |ra: usize, s: usize| -> u64 {
        let own = ra < 6;
        match ra % 6 {
            0 => {
                let bb = sq_bb(s as u8);
                if own {
                    ((bb << 7) & !file_bb_of(7)) | ((bb << 9) & !file_bb_of(0))
                } else {
                    ((bb >> 7) & !file_bb_of(0)) | ((bb >> 9) & !file_bb_of(7))
                }
            }
            1 => knight.attacks[s],
            2 => bishop.attacks[s],
            3 => rook.attacks[s],
            4 => queen.attacks[s],
            _ => 0,
        }
    };

    let tables = ThreatTables::new().unwrap();
    let mut checked = 0u64;
    for a in 0..12u8 {
        for t in 0..12u8 {
            let (attacker, target) = (Piece(a), Piece(t));
            for p in [Color::White, Color::Black] {
                let ra = relative_piece(attacker, p);
                for s in 0..64usize {
                    let mut bb = reachable(ra, s);
                    while bb != 0 {
                        let d = pop_lsb(&mut bb) as usize;
                        let want = reference(attacker, s, d, target, p);
                        let got = tables.threat_index(ra, relative_piece(target, p), s, d);
                        assert_eq!(
                            want, got,
                            "attacker {a} target {t} {s}->{d} perspective {p:?}"
                        );
                        checked += 1;
                    }
                }
            }
        }
    }
    assert!(checked > 100_000, "only {checked} comparisons");
}

fn perspective(p: Color, snap: &Snapshot) -> Perspective {
    let (bucket, flip) = king_context(p, snap.kings[p.idx()]);
    Perspective { p, bucket, flip }
}

/// Every feature index of a full position lies inside its table, and no delta from the empty
/// snapshot has duplicates (each feature is added once).
#[test]
fn features_in_range_and_unique() {
    let tables = ThreatTables::new().unwrap();
    for fen in FENS {
        let pos = Position::from_fen(fen).ok().unwrap();
        let mut snap = pos.nnue_snapshot().unwrap();
        snap.ensure_threats();
        for p in [Color::White, Color::Black] {
            let l = compute(&tables, &Snapshot::empty(), &snap, perspective(p, &snap));
            assert_eq!(l.psqt_sub.len(), 0);
            assert_eq!(l.aux_sub.len(), 0);
            let mut aux = l.aux_add.clone();
            assert!(aux.iter().all(|&f| f < AUX_FEATURES));
            aux.sort_unstable();
            aux.dedup();
            assert_eq!(aux.len(), l.aux_add.len(), "duplicate aux feature in {fen}");
            assert!(l.psqt_add.iter().all(|&f| f < PSQT_FEATURES));
        }
    }
}

/// A network of small pseudo-random weights.
fn network() -> Network {
    let mix = |i: usize, k: u64| ((i as u64 + 1).wrapping_mul(k) >> 40) as i32;
    Network {
        psqt: (0..PSQT_FEATURES * 1024)
            .map(|i| (mix(i, 0x9E37_79B9_7F4A_7C15) % 41 - 20) as i16)
            .collect(),
        aux: (0..AUX_FEATURES * 1024)
            .map(|i| (mix(i, 0xBF58_476D_1CE4_E5B9) % 15 - 7) as i8)
            .collect(),
        ft_bias: (0..1024).map(|i| (mix(i, 0x94D0_49BB_1331_11EB) % 101) as i16).collect(),
        l1_weights: (0..1024 * 8 * 32)
            .map(|i| (mix(i, 0xD6E8_FEB8_6659_FD93) % 61 - 30) as i8)
            .collect(),
        l1_bias: (0..8 * 32).map(|i| mix(i, 0xA076_1D64_78BD_642F) % 2001 - 1000).collect(),
        l2_weights: (0..64 * 8 * 32).map(|i| mix(i, 0xE703_7ED1_A0B4_28DB) % 101 - 50).collect(),
        l2_bias: (0..8 * 32).map(|i| mix(i, 0x8EBC_6AF0_9C88_C6E3) % 20001 - 10000).collect(),
        l3_weights: (0..32 * 8).map(|i| mix(i, 0x5895_65A5_2A4C_3D21) % 101 - 50).collect(),
        l3_bias: (0..8).map(|i| mix(i, 0x1D8E_4E27_C47D_124F) % 200_001 - 100_000).collect(),
    }
}

fn fresh_value(pos: &Position, net: &Network, tables: &ThreatTables) -> i32 {
    let again = Position::from_fen(&pos.fen()).ok().unwrap();
    let mut state = NnueState::new(net, again.nnue_snapshot().unwrap());
    again.evaluate(net, tables, &mut state)
}

/// Random playouts with evaluations at random plies, after unmade side branches and after
/// null moves; every incremental value must equal a fresh evaluation of the same position, so
/// this covers the snapshot diffs, king-bucket refreshes and the cache.
#[test]
fn incremental_matches_fresh() {
    let net = network();
    let tables = ThreatTables::new().unwrap();
    let mut rng = 0x9E37_79B9_7F4A_7C15u64;
    let mut next = move || {
        rng ^= rng << 13;
        rng ^= rng >> 7;
        rng ^= rng << 17;
        rng
    };
    let mut checks = 0;
    let mut differing = 0;
    for fen in FENS {
        for _ in 0..12 {
            let mut pos = Position::from_fen(fen).ok().unwrap();
            let mut state = NnueState::new(&net, pos.nnue_snapshot().unwrap());
            let mut last = 0;
            for _ in 0..160 {
                let mut list = MoveList::new();
                generate_legal(&pos, &mut list);
                if list.len() == 0 || pos.rule50_count() > 90 {
                    break;
                }
                let m = list.as_slice()[next() as usize % list.len()];

                // A side branch that is unmade again, evaluated so its accumulators fill in.
                if next() % 2 == 0 {
                    let side = list.as_slice()[next() as usize % list.len()];
                    let gives_check = pos.gives_check(side);
                    pos.make_move(side, gives_check);
                    state.push(&net, pos.nnue_snapshot().unwrap());
                    let _ = pos.evaluate(&net, &tables, &mut state);
                    pos.unmake_move(side);
                    state.pop(&net);
                }
                if next() % 4 == 0 && !pos.in_check() {
                    pos.make_null_move();
                    state.push_same(&net);
                    let inc = pos.evaluate(&net, &tables, &mut state);
                    assert_eq!(inc, fresh_value(&pos, &net, &tables), "after null move");
                    pos.unmake_null_move();
                    state.pop(&net);
                }

                let gives_check = pos.gives_check(m);
                pos.make_move(m, gives_check);
                state.push(&net, pos.nnue_snapshot().unwrap());
                if next() % 3 == 0 {
                    let inc = pos.evaluate(&net, &tables, &mut state);
                    assert_eq!(inc, fresh_value(&pos, &net, &tables), "{}", pos.fen());
                    checks += 1;
                    if inc != last {
                        differing += 1;
                    }
                    last = inc;
                }
            }
        }
    }
    assert!(checks > 500, "only {checks} comparisons");
    assert!(differing > checks / 2, "only {differing} different values");
}

/// Mirrors a FEN vertically and swaps colours.
fn flip_fen(fen: &str) -> String {
    let parts: Vec<&str> = fen.split_whitespace().collect();
    let other = |c: char| {
        if c.is_ascii_uppercase() {
            c.to_ascii_lowercase()
        } else {
            c.to_ascii_uppercase()
        }
    };
    let ranks: Vec<String> =
        parts[0].split('/').rev().map(|r| r.chars().map(other).collect()).collect();
    let side = if parts[1] == "w" { "b" } else { "w" };
    let castling: String = parts[2].chars().map(other).collect();
    format!("{} {} {} {} {} {}", ranks.join("/"), side, castling, parts[3], parts[4], parts[5])
}

#[test]
fn network_does_not_favour_a_colour() {
    let net = network();
    let tables = ThreatTables::new().unwrap();
    let mut values = Vec::new();
    for fen in FENS {
        let flipped = flip_fen(fen);
        let here = fresh_value(&Position::from_fen(fen).ok().unwrap(), &net, &tables);
        let there = fresh_value(&Position::from_fen(&flipped).ok().unwrap(), &net, &tables);
        assert_eq!(here, there, "{}", fen);
        values.push(here);
    }
    values.dedup();
    assert!(values.len() > 1);
}

/// What the lists add to each input on balance.
fn net_of(l: &Lists) -> Vec<(usize, i32)> {
    let mut all: Vec<(usize, i32)> = l.aux_add.iter().map(|&f| (f, 1)).collect();
    all.extend(l.aux_sub.iter().map(|&f| (f, -1)));
    all.sort_unstable();
    let mut out: Vec<(usize, i32)> = Vec::new();
    for (f, n) in all {
        match out.last_mut() {
            Some(x) if x.0 == f => x.1 += n,
            _ => out.push((f, n)),
        }
    }
    out.retain(|x| x.1 != 0);
    out
}

/// Recorded threat changes give the same inputs as the difference of the attack sets.
#[test]
fn recorded_threats_match_snapshots() {
    let tables = ThreatTables::new().unwrap();
    let mut was = Position::from_fen(FENS[1]).ok().unwrap().nnue_snapshot().unwrap();
    let mut now = Position::from_fen(
        "r3k2r/p1ppqpb1/bn2pnp1/3P4/1p2P3/2N2Q1N/PPPBBPPP/R3K2R b KQkq - 0 1",
    )
    .ok()
    .unwrap()
    .nnue_snapshot()
    .unwrap();
    was.ensure_threats();
    now.ensure_threats();
    let mut dirty = DirtyThreats::new();
    for s in 0..64u8 {
        for d in 0..64u8 {
            let (a, b) = (was.threats[s as usize] >> d & 1, now.threats[s as usize] >> d & 1);
            let pair = |x: &Snapshot| (x.board[s as usize], x.board[d as usize]);
            if a == 1 && (b == 0 || pair(&was) != pair(&now)) {
                let (x, y) = pair(&was);
                dirty.push(false, x, y, s, d);
            }
            if b == 1 && (a == 0 || pair(&was) != pair(&now)) {
                let (x, y) = pair(&now);
                dirty.push(true, x, y, s, d);
            }
        }
    }
    assert!(!dirty.overflow);
    assert!(!dirty.list.is_empty());
    for p in [Color::White, Color::Black] {
        let v = perspective(p, &now);
        let a = compute(&tables, &was, &now, v);
        let b = compute_from_dirty(&tables, &was, &now, &dirty, v);
        assert_eq!(net_of(&a), net_of(&b));
        assert!(!net_of(&a).is_empty());
    }
}

#[test]
fn recorded_threat_reads_back() {
    let d = DirtyThreat::new(true, Piece(3), Piece(7), 63, 5);
    assert!(d.add());
    assert_eq!(d.attacker(), Piece(3));
    assert_eq!(d.target(), Piece(7));
    assert_eq!(d.from(), 63);
    assert_eq!(d.to(), 5);
    assert!(!DirtyThreat::new(false, Piece(3), Piece(7), 63, 5).add());
    assert_eq!(ray_pass(0, 9), 0x8040_2010_0804_0200);
    assert_eq!(ray_pass(0, 17), 0);
}

#[test]
fn piece_and_pawn_inputs_are_unique() {
    for p in [Color::White, Color::Black] {
        let mut seen = vec![false; PSQT_FEATURES];
        for bucket in 0..10 {
            for pc in 0..12u8 {
                for sq in 0..64u8 {
                    let f = psqt_feature(p, bucket, 0, Piece(pc), sq);
                    assert!(!seen[f]);
                    seen[f] = true;
                }
            }
        }
        assert!(seen.into_iter().all(|x| x));
    }
    assert_eq!(oriented(Color::Black, 0, 7), 63);
    assert_eq!(oriented(Color::White, 12, 0), 12);
    assert!(pp_feature(Color::White, 8, Color::Black, 55, Color::White, 0) < PP_FEATURES);
    assert_eq!(
        pp_feature(Color::White, 8, Color::Black, 55, Color::White, 0),
        pp_feature(Color::Black, 55, Color::White, 8, Color::White, 0)
    );
}

#[test]
fn kings_fall_into_ten_buckets() {
    let mut seen = vec![0; 10];
    for sq in 0..64u8 {
        let v = perspective_of(Color::White, sq);
        seen[v.bucket] += 1;
        assert_eq!(v.bucket, perspective_of(Color::White, sq ^ 7).bucket);
    }
    assert!(seen.into_iter().all(|n| n > 0));
    assert_eq!(PSQT_FEATURES + 2 * THREATS_PER_SIDE + PP_FEATURES, 72048);
}

#[test]
fn perspectives_mirror_the_board() {
    let white = perspective_of(Color::White, 4);
    let black = perspective_of(Color::Black, 60);
    assert_eq!((white.bucket, white.flip), (black.bucket, black.flip));
    assert_eq!(white.flip, 7);
    assert_eq!(perspective_of(Color::White, 3).flip, 0);
    assert_eq!(output_bucket(2), 0);
    assert_eq!(output_bucket(32), 7);
}

#[test]
fn network_files_have_one_size() {
    assert!(Network::from_bytes(&vec![0; 1000]).is_none());
}

#[test]
fn inputs_are_listed() {
    let tables = ThreatTables::new().unwrap();
    let snap = Position::startpos().nnue_snapshot().unwrap();
    let text = debug_features(&tables, snap, Color::White);
    let lines: Vec<&str> = text.lines().collect();
    assert_eq!(lines.len(), 4);
    // Thirty-two pieces for each side, after the name of the line.
    assert_eq!(lines[0].split_whitespace().count(), 33);
}
