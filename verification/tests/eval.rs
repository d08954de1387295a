use peras::eval::evaluate;
use peras::hce;
use peras::mopup::kx_vs_k;
use peras::position::Position;
use peras::variant::Variant;

/// The evaluation with the hand-crafted value standing in for a network's.
fn value(pos: &Position) -> i32 {
    evaluate(pos, hce::evaluate(pos))
}

#[test]
fn startpos_is_balanced() {
    let pos = Position::startpos();
    assert!(value(&pos).abs() < 100);
}

#[test]
fn eval_is_symmetric() {
    let fens = [
        "r1bqkbnr/pppp1ppp/2n5/4p3/4P3/5N2/PPPP1PPP/RNBQKB1R w KQkq - 2 3",
        "r3k2r/p1ppqpb1/bn2pnp1/3PN3/1p2P3/2N2Q1p/PPPBBPPP/R3K2R w KQkq - 0 1",
        "8/2p5/3p4/KP5r/1R3p1k/8/4P1P1/8 w - - 0 1",
    ];
    for fen in fens {
        let pos = Position::from_fen(fen).ok().unwrap();
        let flipped = Position::from_fen(&flip_fen(fen)).ok().unwrap();
        assert_eq!(value(&pos), value(&flipped), "asymmetric eval for {}", fen);
    }
}

fn other_case(c: char) -> char {
    if c.is_ascii_uppercase() {
        c.to_ascii_lowercase()
    } else {
        c.to_ascii_uppercase()
    }
}

/// Mirrors a FEN vertically and swaps colours.
fn flip_fen(fen: &str) -> String {
    let parts: Vec<&str> = fen.split_whitespace().collect();
    let ranks: Vec<String> =
        parts[0].split('/').rev().map(|r| r.chars().map(other_case).collect()).collect();
    let side = if parts[1] == "w" { "b" } else { "w" };
    let castling: String = parts[2].chars().map(other_case).collect();
    let ep = if parts[3] == "-" {
        "-".to_string()
    } else {
        let b = parts[3].as_bytes();
        format!("{}{}", b[0] as char, (b'9' - (b[1] - b'0')) as char)
    };
    format!(
        "{} {} {} {} {} {}",
        ranks.join("/"),
        side,
        castling,
        ep,
        parts.get(4).unwrap_or(&"0"),
        parts.get(5).unwrap_or(&"1")
    )
}

#[test]
fn material_advantage_shows() {
    let pos = Position::from_fen("4k3/8/8/8/3Q4/8/8/4K3 w - - 0 1").ok().unwrap();
    assert!(value(&pos) > 500);
    let pos = Position::from_fen("4k3/8/8/8/3Q4/8/8/4K3 b - - 0 1").ok().unwrap();
    assert!(value(&pos) < -500);
}

#[test]
fn insufficient_material_is_draw() {
    for fen in [
        "4k3/8/8/8/8/8/8/4K3 w - - 0 1",
        "4k3/8/8/8/8/8/8/4KB2 w - - 0 1",
        "4k3/8/8/8/8/8/8/4KN2 b - - 0 1",
        "4k3/8/8/8/8/8/2b5/4KB2 w - - 0 1",
    ] {
        assert_eq!(value(&Position::from_fen(fen).ok().unwrap()), 0, "{}", fen);
    }
}

#[test]
fn the_network_value_is_damped_towards_the_fifty_move_rule() {
    let fresh = Position::from_fen("r3k3/8/8/8/8/8/4P3/R3K3 w - - 0 1").ok().unwrap();
    let stale = Position::from_fen("r3k3/8/8/8/8/8/4P3/R3K3 w - - 80 60").ok().unwrap();
    assert_eq!(evaluate(&fresh, 300), 300);
    let damped = evaluate(&stale, 300);
    assert!(0 < damped && damped < 300);
    assert_eq!(evaluate(&fresh, 1_000_000), 31871);
    assert_eq!(evaluate(&fresh, -1_000_000), -31871);
}

#[test]
fn lone_kings_have_a_value_of_their_own() {
    let pos = Position::from_fen("4k3/8/8/8/3Q4/8/8/4K3 w - - 0 1").ok().unwrap();
    assert_eq!(kx_vs_k(&pos), Some(value(&pos)));
    assert_eq!(kx_vs_k(&Position::startpos()), None);
    // The whole rim is alike, the centre lowest; near kings count for the winner.
    let against = |fen: &str| kx_vs_k(&Position::from_fen(fen).ok().unwrap());
    assert_eq!(against("8/8/8/8/k7/8/8/6KR w - - 0 1"), Some(2000 + 500 + 90 + 20));
    assert_eq!(against("k7/8/8/8/8/8/8/6KR w - - 0 1"), Some(2000 + 500 + 90));
    assert_eq!(against("8/8/8/8/3k4/8/8/6KR w - - 0 1"), Some(2000 + 500 + 28 + 80));
    assert_eq!(against("8/8/8/8/3k4/8/8/6KR b - - 0 1"), Some(-(2000 + 500 + 28 + 80)));
}

#[test]
fn variants_do_not_ask_the_network() {
    let fen = Variant::Antichess.start_fen();
    let pos = Position::from_fen_variant(fen, Variant::Antichess).ok().unwrap();
    assert_eq!(evaluate(&pos, 5000), evaluate(&pos, -5000));
}
