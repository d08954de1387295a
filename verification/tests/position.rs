use peras::fenspec::FenError;
use peras::movegen::generate_legal;
use peras::notation::{square_from_str, square_to_string};
use peras::perft::{perft, perft_divide};
use peras::position::Position;
use peras::types::{Color, Move, MoveList, PieceType};
use peras::variant::Variant;

fn at(fen: &str) -> Position {
    Position::from_fen(fen).ok().unwrap()
}

#[test]
fn positions_are_written_as_they_were_read() {
    let cases = [
        (Variant::Standard, "rnbqkbnr/pppppppp/8/8/8/8/PPPPPPPP/RNBQKBNR w KQkq - 0 1"),
        (Variant::Standard, "r3k2r/p1ppqpb1/bn2pnp1/3PN3/1p2P3/2N2Q1p/PPPBBPPP/R3K2R w KQkq - 0 1"),
        (Variant::Standard, "rnbqkbnr/ppp1pppp/8/8/3pP3/8/PPPP1PPP/RNBQKBNR b KQkq e3 0 3"),
        (Variant::Standard, "8/2p5/3p4/KP5r/1R3p1k/8/4P1P1/8 b - - 17 43"),
        (Variant::Chess960, "bqnb1rkr/pp3ppp/3ppn2/2p5/5P2/P2P4/NPP1P1PP/BQ1BNRKR w HFhf - 2 9"),
        (Variant::ThreeCheck, "rnbqkbnr/pppppppp/8/8/8/8/PPPPPPPP/RNBQKBNR w KQkq - 1+3 0 1"),
        (Variant::Crazyhouse, "4k3/8/8/8/8/8/8/4K2Q~[QPPnp] b - - 0 12"),
        (Variant::Antichess, "8/P7/8/8/8/8/8/7k w - - 3 5"),
    ];
    for (variant, fen) in cases {
        let pos = Position::from_fen_variant(fen, variant).ok().unwrap();
        assert_eq!(pos.fen(), fen);
        let again = Position::from_fen_variant(&pos.fen(), variant).ok().unwrap();
        assert_eq!(again.fen(), fen);
        assert_eq!(again.key(), pos.key());
    }
}

#[test]
fn en_passant_squares_are_kept_where_they_count() {
    let pos = at("rnbqkbnr/pppppppp/8/8/4P3/8/PPPP1PPP/RNBQKBNR b KQkq e3 0 1");
    assert!(pos.fen().contains(" - 0 1"));
}

#[test]
fn bad_texts_are_refused() {
    let error = |fen: &str| Position::from_fen(fen).err();
    assert_eq!(error(""), Some(FenError::TooFewFields));
    assert_eq!(error("8/8/8/8/8/8/8/8"), Some(FenError::TooFewFields));
    assert_eq!(error("9/8/8/8/8/8/8/8 w"), Some(FenError::BadDigit('9')));
    assert_eq!(error("8/8/8/8/8/8/8/8/8/K7 w"), Some(FenError::BoardOverflow));
    assert_eq!(error("x7/8/8/8/8/8/8/8 w"), Some(FenError::BadCharacter('x')));
    assert_eq!(error("8/8/8/8/8/8/8/8 w"), Some(FenError::Kings));
    assert_eq!(error("kk6/8/8/8/8/8/8/7K w"), Some(FenError::Kings));
    assert_eq!(error("k7/8/8/8/8/8/8/7K x"), Some(FenError::BadSide));
    assert_eq!(error("k7/8/8/8/8/8/8/7K w - - 0 2000000000"), Some(FenError::MoveNumber));
    // Too long a rank runs on into the one above it, over what stands there.
    assert_eq!(error("k7/8K7/8/8/8/8/8/8 w"), Some(FenError::Kings));
    let over = at("n6k/8N7/8/4K3/8/8/8/8 w - - 0 1");
    assert_eq!(over.fen(), "N6k/8/4K3/8/8/8/8/8 w - - 0 1");
    // Too short a one leaves the next short of its place.
    assert_eq!(error("7k/K/8/8/8/8/8/8 w"), None);
    let pocket = "4k3/8/8/8/8/8/8/4K3[PPPPPPPPPPPPPPPPP] w - - 0 1";
    assert_eq!(
        Position::from_fen_variant(pocket, Variant::Crazyhouse).err(),
        Some(FenError::PocketOverflow)
    );
}

#[test]
fn every_move_reads_back() {
    for fen in [
        "r3k2r/p1ppqpb1/bn2pnp1/3PN3/1p2P3/2N2Q1p/PPPBBPPP/R3K2R w KQkq - 0 1",
        "r3k2r/Pppp1ppp/1b3nbN/nP6/BBP1P3/q4N2/Pp1P2PP/R2Q1RK1 w kq - 0 1",
        "rnbqkbnr/ppp1pppp/8/8/3pP3/8/PPPP1PPP/RNBQKBNR b KQkq e3 0 3",
    ] {
        let pos = at(fen);
        let mut list = MoveList::new();
        generate_legal(&pos, &mut list);
        assert!(list.len() > 0);
        for &m in list.as_slice() {
            assert_eq!(pos.parse_uci_move(&pos.move_to_uci(m)), Some(m));
        }
    }
    let pos = at("r3k2r/p1ppqpb1/bn2pnp1/3PN3/1p2P3/2N2Q1p/PPPBBPPP/R3K2R w KQkq - 0 1");
    assert_eq!(pos.parse_uci_move("e1h1"), pos.parse_uci_move(" e1g1 "));
    assert_eq!(pos.parse_uci_move("e1e3"), None);
}

#[test]
fn squares_read_back() {
    for s in 0..64u8 {
        assert_eq!(square_from_str(&square_to_string(s)), Some(s));
    }
    assert_eq!(square_to_string(64), "-");
    assert_eq!(square_from_str("i1"), None);
}

#[test]
fn unmaking_restores_the_position() {
    let mut pos = at("r3k2r/p1ppqpb1/bn2pnp1/3PN3/1p2P3/2N2Q1p/PPPBBPPP/R3K2R w KQkq - 0 1");
    let (fen, key, pawns) = (pos.fen(), pos.key(), pos.pawn_key());
    let mut list = MoveList::new();
    generate_legal(&pos, &mut list);
    for &m in list.as_slice() {
        let g = pos.gives_check(m);
        pos.make_move(m, g);
        assert_eq!(pos.in_check(), g);
        assert_eq!(at(&pos.fen()).key(), pos.key());
        pos.unmake_move(m);
        assert_eq!((pos.fen(), pos.key(), pos.pawn_key()), (fen.clone(), key, pawns));
    }
    pos.make_null_move();
    assert_eq!(pos.side_to_move(), Color::Black);
    assert_ne!(pos.key(), key);
    pos.unmake_null_move();
    assert_eq!((pos.fen(), pos.key()), (fen, key));
}

#[test]
fn reached_positions_are_those_read_from_their_texts() {
    let start = "rnbqkbnr/pppppppp/8/8/8/8/PPPPPPPP/RNBQKBNR w KQkq - 0 1";
    let games: [(Variant, &[&str]); 3] = [
        (Variant::Standard, &["e2e4", "d7d5", "e4d5", "d8d5", "b1c3", "d5e5", "f1e2", "g8f6"]),
        (Variant::Antichess, &["e2e3", "b7b5", "f1b5"]),
        (Variant::Crazyhouse, &["e2e4", "d7d5", "e4d5", "d8d5", "b1c3", "d5d2"]),
    ];
    for (variant, moves) in games {
        let mut pos = Position::from_fen_variant(start, variant).ok().unwrap();
        let mut checks = 0;
        for m in moves {
            let m = pos.parse_uci_move(m).unwrap();
            let g = pos.gives_check(m);
            pos.make_move(m, g);
            checks += pos.checkers().count_ones();
            let read = Position::from_fen_variant(&pos.fen(), variant).ok().unwrap();
            assert_eq!(read.key(), pos.key());
            assert_eq!(read.pawn_key(), pos.pawn_key());
            assert_eq!(read.material_key(), pos.material_key());
            if variant != Variant::Antichess {
                assert_eq!(read.minor_key(), pos.minor_key());
            }
            for c in [Color::White, Color::Black] {
                assert_eq!(read.nonpawn_key(c), pos.nonpawn_key(c));
                assert_eq!(read.blockers_for_king(c), pos.blockers_for_king(c));
                assert_eq!(read.pinners(c), pos.pinners(c));
            }
            for pt in [PieceType::Pawn, PieceType::Knight, PieceType::Bishop, PieceType::Rook, PieceType::Queen] {
                assert_eq!(read.check_squares(pt), pos.check_squares(pt));
            }
            assert_eq!(read.checkers(), pos.checkers());
            assert_eq!(read.ep_square(), pos.ep_square());
            assert_eq!(read.castling_rights(), pos.castling_rights());
            assert_eq!(read.captures_forced(), pos.captures_forced());
            assert_eq!(read.fen(), pos.fen());
        }
        assert_eq!(checks > 0, variant != Variant::Antichess);
    }
}

#[test]
fn castling_reads_back_by_its_rook() {
    let pos = at("r3k2r/8/8/8/8/8/8/R3K2R w KQkq - 0 1");
    for (by_king, by_rook) in [("e1g1", "e1h1"), ("e1c1", "e1a1")] {
        let m = pos.parse_uci_move(by_king).unwrap();
        assert_eq!(m.to_uci(true), by_rook);
        assert_eq!(pos.parse_uci_move(by_rook), Some(m));
    }
}

#[test]
fn inner_rooks_castle_without_the_chess960_flag() {
    let fen = "4k3/8/8/8/8/8/8/4KR2 w K - 0 1";
    let mut pos = at(fen);
    assert!(pos.is_playable());
    assert_eq!(pos.fen(), fen);
    let m = pos.parse_uci_move("e1g1").unwrap();
    assert_eq!(pos.parse_uci_move("e1f1"), Some(m));
    assert_eq!(perft(&mut pos, 1), 14);
    pos.make_move(m, false);
    assert_eq!(pos.fen(), "4k3/8/8/8/8/8/8/5RK1 b - - 1 1");
    // A rook on the b-file could shield the king from the corner.
    assert!(!at("4k3/8/8/8/8/8/8/rR2K3 w Q - 0 1").is_playable());
    // With another rook further out the right is read as that of the outer one.
    assert_eq!(at("4k3/8/8/8/8/8/8/4KR1R w K - 0 1").parse_uci_move("e1f1"), None);
}

#[test]
fn keys_are_foreseen() {
    let fen = "rnbqkbnr/ppp1pppp/8/8/3pP3/8/PPPP1PPP/RNBQKBNR b KQkq e3 0 3";
    for m in ["g8f6", "b8c6", "d8d6", "c8h3"] {
        let mut pos = at(fen);
        let m = pos.parse_uci_move(m).unwrap();
        let foreseen = pos.key_after(m);
        let g = pos.gives_check(m);
        pos.make_move(m, g);
        assert_eq!(pos.key(), foreseen);
    }
    let mut pos = at("4k3/8/8/3p4/8/2N5/8/4K3 w - - 0 1");
    let m = pos.parse_uci_move("c3d5").unwrap();
    let foreseen = pos.key_after(m);
    pos.make_move(m, false);
    assert_eq!(pos.key(), foreseen);
}

#[test]
fn a_pending_pass_is_written_and_read() {
    for fen in [
        "rnbqkbnr/pppppppp/8/8/8/8/PPPPPPPP/RNBQKBNR w KQkq - 0 1",
        "r3k2r/p1ppqpb1/bn2pnp1/3PN3/1p2P3/2N2Q1p/PPPBBPPP/R3K2R b KQkq - 3 17",
    ] {
        let mut pos = at(fen);
        pos.make_null_move();
        assert_eq!(at(&pos.fen()).key(), pos.key());
    }
}

#[test]
fn exchanges_reach_lower_thresholds() {
    let pos = at("1k1r4/1pp4p/p7/4p3/8/P5P1/1PP4P/2K1R3 w - - 0 1");
    let m = pos.parse_uci_move("e1e5").unwrap();
    for t in [i32::MIN, -1_000_000, -1, 0, 100] {
        assert!(pos.see_ge(m, t));
    }
    assert!(!pos.see_ge(m, i32::MAX));
    let pos = at("8/P6k/8/8/8/8/8/7K w - - 0 1");
    let m = pos.parse_uci_move("a7a8q").unwrap();
    assert!(pos.see_ge(m, i32::MIN) && pos.see_ge(m, 0));
    assert!(!pos.see_ge(m, 1));
}

#[test]
fn exchanges_are_weighed() {
    let pos = at("1k1r4/1pp4p/p7/4p3/8/P5P1/1PP4P/2K1R3 w - - 0 1");
    let m = pos.parse_uci_move("e1e5").unwrap();
    assert!(pos.see_ge(m, 100));
    assert!(!pos.see_ge(m, 101));
    let pos = at("1k1r3q/1ppn3p/p4b2/4p3/8/P2N2P1/1PP1R1BP/2K1Q3 w - - 0 1");
    let m = pos.parse_uci_move("d3e5").unwrap();
    assert!(!pos.see_ge(m, 0));
}

#[test]
fn draws_are_seen() {
    let mut pos = Position::startpos();
    for _ in 0..2 {
        for m in ["g1f3", "g8f6", "f3g1", "f6g8"] {
            let m = pos.parse_uci_move(m).unwrap();
            let g = pos.gives_check(m);
            pos.make_move(m, g);
        }
    }
    assert!(pos.is_draw(1));
    assert!(pos.is_repetition(1));
    assert!(!Position::startpos().is_draw(1));
    assert!(at("4k3/8/8/8/8/8/8/4K2R w - - 100 80").is_draw(1));
}

#[test]
fn divided_counts_add_up() {
    let mut pos = Position::startpos();
    let parts = perft_divide(&mut pos, 3);
    assert_eq!(parts.len(), 20);
    assert_eq!(parts.iter().map(|x| x.1).sum::<u64>(), perft(&mut pos, 3));
    assert_eq!(perft(&mut pos, 0), 1);
}

#[test]
fn moves_are_packed() {
    let m = Move::new(12, 28);
    assert_eq!((m.from_sq(), m.to_sq()), (12, 28));
    assert!(!m.is_none() && Move::none().is_none());
    let d = Move::drop(PieceType::Knight, 27);
    assert!(d.is_drop());
    assert_eq!(d.drop_piece(), PieceType::Knight);
    assert_eq!(d.to_sq(), 27);
}

#[test]
fn boards_are_drawn() {
    let text = Position::startpos().pretty();
    assert!(text.contains('r') && text.contains('K'));
    assert!(text.lines().count() >= 8);
}
