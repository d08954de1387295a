use peras::command::{
    bench_depth, best_move_text, command, depth_argument, read_go, read_position, setting, words,
    Command, Halt, Setting, BENCH_FENS,
};
use peras::fenspec::FenError;
use peras::options::{option_lines, Effect, Options};
use peras::outcome::SearchOutcome;
use peras::position::Position;
use peras::types::{Color, Move};
use peras::variant::Variant;

#[test]
fn lines_are_recognised() {
    let of = |line: &str| command(&words(line));
    assert_eq!(of("  \t"), Command::Empty);
    assert_eq!(of("uci"), Command::Uci);
    assert_eq!(of(" isready "), Command::IsReady);
    assert_eq!(of("setoption name Hash value 1"), Command::SetOption);
    assert_eq!(of("ucinewgame"), Command::NewGame);
    assert_eq!(of("position startpos"), Command::Position);
    assert_eq!(of("go infinite"), Command::Go);
    assert_eq!(of("stop"), Command::Stop);
    assert_eq!(of("ponderhit"), Command::PonderHit);
    assert_eq!(of("quit"), Command::Quit);
    assert_eq!(of("d"), Command::Display);
    assert_eq!(of("display"), Command::Display);
    assert_eq!(of("eval"), Command::Eval);
    assert_eq!(of("perft 3"), Command::Perft);
    assert_eq!(of("divide 3"), Command::Divide);
    assert_eq!(of("bench"), Command::Bench);
    assert_eq!(of("Uci"), Command::Unknown);
}

#[test]
fn depths_have_defaults() {
    assert_eq!(depth_argument(&words("perft 4"), 5), 4);
    assert_eq!(depth_argument(&words("perft +4"), 5), 4);
    assert_eq!(depth_argument(&words("perft -4"), 5), 5);
    assert_eq!(depth_argument(&words("perft 4294967296"), 5), 5);
    assert_eq!(depth_argument(&words("perft"), 5), 5);
    assert_eq!(bench_depth(&words("bench")), 12);
    assert_eq!(bench_depth(&words("bench -3")), -3);
    assert_eq!(bench_depth(&words("bench x")), 12);
}

#[test]
fn settings_are_taken_apart() {
    match setting(&words("setoption NAME Move Overhead Value 12 ms")) {
        Setting::Named(n, v) => assert_eq!((n.as_str(), v.as_str()), ("Move Overhead", "12 ms")),
        _ => panic!("an option is named"),
    }
    match setting(&words("setoption name Clear Hash")) {
        Setting::Named(n, v) => assert_eq!((n.as_str(), v.as_str()), ("Clear Hash", "")),
        _ => panic!("an option is named"),
    }
    assert!(matches!(setting(&words("setoption")), Setting::Absent));
    assert!(matches!(setting(&words("setoption value 3 name Hash")), Setting::Misplaced));
}

#[test]
fn options_are_set() {
    let mut o = Options::default();
    assert_eq!(o.set_option("Hash", "0"), Effect::NewTable);
    assert_eq!(o.hash_mb, 1);
    assert_eq!(o.set_option("hash", "99999999"), Effect::NewTable);
    assert_eq!(o.hash_mb, 1 << 20);
    assert_eq!(o.set_option("hash", "many"), Effect::Nothing);
    assert_eq!(o.set_option("Clear Hash", ""), Effect::ClearTable);
    assert_eq!(o.set_option("THREADS", "1000"), Effect::NewSearchers);
    assert_eq!(o.threads, 256);
    assert_eq!(o.set_option("Move Overhead", "6000"), Effect::Nothing);
    assert_eq!(o.move_overhead, 5000);
    assert_eq!(o.set_option("MultiPV", "5"), Effect::Apply);
    assert_eq!(o.multipv, 5);
    assert!(o.normalize && !o.show_wdl);
    assert_eq!(o.set_option("Normalize", "false"), Effect::Apply);
    assert!(!o.normalize);
    assert_eq!(o.set_option("UCI_ShowWDL", "TRUE"), Effect::Apply);
    assert!(o.show_wdl);
    assert_eq!(o.set_option("Ponder", "true"), Effect::Nothing);
    assert_eq!(o.set_option("Nonsense", "1"), Effect::UnknownOption);
    assert_eq!(o.set_option("Contempt", "10"), Effect::UnknownOption);
}

#[test]
fn variants_are_chosen() {
    let mut o = Options::default();
    assert_eq!(o.set_option("UCI_Chess960", "false"), Effect::Nothing);
    assert_eq!(o.set_option("UCI_Chess960", "true"), Effect::NewGame);
    assert!(o.chess960 && o.variant == Variant::Chess960);
    assert_eq!(o.set_option("UCI_Chess960", "false"), Effect::NewGame);
    assert!(!o.chess960 && o.variant == Variant::Standard);
    assert_eq!(o.set_option("UCI_Variant", " Crazyhouse "), Effect::NewGame);
    assert_eq!(o.variant, Variant::Crazyhouse);
    assert_eq!(o.set_option("UCI_Variant", "shogi"), Effect::UnknownVariant);
    assert_eq!(o.variant, Variant::Crazyhouse);
}

#[test]
fn strength_follows_the_table() {
    let mut o = Options::default();
    assert_eq!(o.effective_skill(), 20);
    assert_eq!(o.set_option("Skill Level", "7"), Effect::Apply);
    assert_eq!(o.effective_skill(), 7);
    o.set_option("UCI_LimitStrength", "true");
    assert_eq!(o.effective_skill(), 0);
    o.set_option("UCI_Elo", "4000");
    assert_eq!(o.elo, 3500);
    assert_eq!(o.effective_skill(), 20);
    o.set_option("UCI_Elo", "3000");
    assert_eq!(o.effective_skill(), 12);
    o.set_option("UCI_Elo", "100");
    assert_eq!(o.elo, 2301);
}

#[test]
fn options_are_announced() {
    let lines = option_lines();
    assert_eq!(lines.len(), 13);
    assert_eq!(lines[0], "option name Hash type spin default 64 min 1 max 1048576");
    assert_eq!(lines[1], "option name Clear Hash type button");
    assert_eq!(lines[5], "option name Normalize type check default true");
    assert_eq!(lines[7], "option name UCI_Chess960 type check default false");
    assert_eq!(lines[11], "option name UCI_Elo type spin default 2301 min 2301 max 3500");
    assert_eq!(
        lines[12],
        "option name UCI_Variant type combo default standard var standard var chess960 \
         var antichess var 3check var racingkings var crazyhouse var kingofthehill"
    );
}

#[test]
fn limits_are_read() {
    let pos = Position::startpos();
    let l = read_go(
        &pos,
        &words("wtime 1000 btime x winc -5 binc 7 movestogo 40 depth 9 nodes 12 mate 3 ponder"),
    );
    assert_eq!(l.time, [1000, 0]);
    assert_eq!(l.inc, [0, 7]);
    assert_eq!((l.movestogo, l.depth, l.nodes, l.mate), (40, 9, 12, 3));
    assert!(l.ponder && !l.infinite);
    let l = read_go(&pos, &words("searchmoves e2e4 d2d4 infinite movetime"));
    assert_eq!(l.searchmoves.len(), 2);
    assert_eq!(pos.move_to_uci(l.searchmoves[1]), "d2d4");
    assert!(l.infinite);
    assert_eq!(l.movetime, 0);
    let l = read_go(&pos, &words("searchmoves e2e5 depth 2"));
    assert!(l.searchmoves.is_empty());
    assert_eq!(l.depth, 2);
}

fn placed(line: &str, variant: Variant) -> (Position, Halt) {
    match read_position(&words(line), variant, false) {
        Some(Ok(x)) => x,
        _ => panic!("no position from {}", line),
    }
}

#[test]
fn positions_are_read() {
    let (pos, halt) = placed("startpos moves e2e4 e7e5", Variant::Standard);
    assert_eq!(halt, Halt::Done);
    assert_eq!(pos.fen(), "rnbqkbnr/pppp1ppp/8/4p3/4P3/8/PPPP1PPP/RNBQKBNR w KQkq - 0 2");
    let (pos, halt) = placed("startpos moves e2e4 e2e4 d7d5", Variant::Standard);
    assert_eq!(halt, Halt::Illegal(3));
    assert_eq!(pos.side_to_move(), Color::Black);
    let (pos, halt) = placed("fen 4k3/8/8/8/8/8/8/4K2R w K - 3 7 moves e1g1", Variant::Standard);
    assert_eq!(halt, Halt::Done);
    assert_eq!(pos.fen(), "4k3/8/8/8/8/8/8/5RK1 b - - 4 7");
    let (pos, _) = placed("4k3/8/8/8/8/8/8/4K2R w K - 3 7", Variant::Standard);
    assert_eq!(pos.fen(), "4k3/8/8/8/8/8/8/4K2R w K - 3 7");
    let (pos, _) = placed("startpos", Variant::RacingKings);
    assert_eq!(pos.fen(), Variant::RacingKings.start_fen());
    assert!(read_position(&words(""), Variant::Standard, false).is_none());
    assert!(matches!(
        read_position(&words("fen"), Variant::Standard, false),
        Some(Err(FenError::TooFewFields))
    ));
}

#[test]
fn no_moves_are_made_in_an_impossible_position() {
    // The side that has moved is in check.
    let (pos, halt) = placed("fen 4k3/4R3/8/8/8/8/8/4K3 w - - 0 1 moves e1e2", Variant::Standard);
    assert_eq!(halt, Halt::Unplayable(8));
    assert!(!pos.is_playable());
}

#[test]
fn best_moves_are_written() {
    let pos = Position::startpos();
    let e4 = pos.parse_uci_move("e2e4").unwrap();
    let mut o = SearchOutcome { best_move: e4, ponder: Move::none(), score: 0, depth: 1, nodes: 1 };
    assert_eq!(best_move_text(&pos, &o), "bestmove e2e4");
    o.ponder = Move::new(52, 36);
    assert_eq!(best_move_text(&pos, &o), "bestmove e2e4 ponder e7e5");
    o.best_move = Move::none();
    assert_eq!(best_move_text(&pos, &o), "bestmove 0000");
}

#[test]
fn benchmark_positions_can_be_searched() {
    for fen in BENCH_FENS {
        assert!(Position::from_fen(fen).ok().unwrap().is_searchable(), "{}", fen);
    }
}
