use peras::cuckoo::Cuckoo;
use peras::hce;
use peras::movegen::{generate_all, generate_legal};
use peras::movepick::MovePicker;
use peras::outcome::{
    extend_pv_with_tt, final_outcome, next_random, ponder_move, select_best_thread, skill_pick, skilled_outcome,
    table_continuation,
    voted_outcome, ThreadResult,
};
use peras::position::Position;
use peras::report::{format_score, info_line, win_rate_params, Progression};
use peras::root::unsearched_move;
use peras::searcher::{
    Begin, Host, Iteration, NodeType, RootMove, Searcher, REDUCTION_DEPTHS, REDUCTION_MOVES,
    REDUCTION_SIZE,
};
use peras::timeman::{plan, Limits, Plan, TimeManager, UNTIMED_MS};
use peras::tt::{Slot, TTData, TranspositionTable};
use peras::types::{mate_in, mated_in, Bound, Color, Move, MoveList, Value, VALUE_INFINITE, VALUE_MATE};
use peras::variant::Variant;
use peras::zobrist::ZobristKeys;

/// A host with a table of its own, a limit on the nodes, and the hand-crafted evaluation in
/// place of a network.
struct Local {
    tt: TranspositionTable,
    nodes: u64,
    depths: Vec<i32>,
    answer: Begin,
    clock: bool,
}

impl Local {
    fn new(nodes: u64) -> Local {
        Local {
            tt: TranspositionTable::new(4),
            nodes,
            depths: Vec::new(),
            answer: Begin::Go,
            clock: false,
        }
    }

    fn base(&self, key: u64) -> usize {
        4 * (key % self.tt.buckets as u64) as usize
    }
}

impl Host for Local {
    fn bucket(&mut self, key: u64) -> [Slot; 4] {
        let b = self.base(key);
        [self.tt.slots[b], self.tt.slots[b + 1], self.tt.slots[b + 2], self.tt.slots[b + 3]]
    }

    fn write(&mut self, key: u64, index: usize, slot: Slot) {
        let b = self.base(key);
        self.tt.slots[b + index] = slot;
    }

    fn generation(&mut self) -> u8 {
        self.tt.generation
    }

    fn poll(&mut self, nodes: u64) -> bool {
        self.nodes > 0 && nodes >= self.nodes
    }

    fn network(&mut self, pos: &Position) -> Value {
        hce::evaluate(pos)
    }

    fn begin(&mut self, _first: bool) -> Begin {
        self.answer
    }

    fn searching(&mut self, _pos: &Position, _depth: i32, _m: Move, _number: usize) {}

    fn report(&mut self, _pos: &Position, lines: &Vec<RootMove>, iteration: Iteration) {
        assert!(!lines.is_empty());
        self.depths.push(iteration.depth);
    }

    fn stop_requested(&mut self) -> bool {
        false
    }

    fn clocked(&mut self) -> bool {
        self.clock
    }

    fn spent_enough(&mut self, _iteration: Iteration) -> bool {
        false
    }
}

/// Base reductions growing with the logarithms of depth and move count.
fn reductions() -> Vec<u8> {
    let mut t = Vec::with_capacity(REDUCTION_SIZE);
    for d in 0..REDUCTION_DEPTHS {
        for m in 0..REDUCTION_MOVES {
            let r = if d == 0 || m == 0 { 0.0 } else { 1.0 + (d as f64).ln() * (m as f64).ln() / 2.0 };
            t.push(r as u8);
        }
    }
    t
}

fn searcher() -> Searcher {
    let cuckoo = Cuckoo::new(&ZobristKeys::new()).unwrap();
    Searcher::new(0, cuckoo, reductions())
}

fn search(fen: &str, variant: Variant, depth: i32) -> (Searcher, Position) {
    let mut pos = Position::from_fen_variant(fen, variant).ok().unwrap();
    assert!(pos.is_searchable());
    let before = pos.fen();
    let mut s = searcher();
    s.new_search();
    let mut host = Local::new(0);
    let limits = Limits { depth, ..Limits::default() };
    s.iterative_deepening(&mut host, &mut pos, &limits);
    assert_eq!(pos.fen(), before);
    (s, pos)
}

#[test]
fn the_first_iteration_is_always_searched() {
    for answer in [Begin::Stop, Begin::Enough] {
        let mut pos = Position::startpos();
        let mut s = searcher();
        s.new_search();
        let mut host = Local::new(0);
        host.answer = answer;
        let limits = Limits { depth: 6, ..Limits::default() };
        s.iterative_deepening(&mut host, &mut pos, &limits);
        assert_eq!(s.completed_depth, 1);
        assert_eq!(host.depths, vec![1]);
        assert_eq!(s.stopped, answer == Begin::Stop);
        assert_eq!(s.best_move_root, s.root_moves[0].mv);
        assert_eq!(s.prev_score, s.root_moves[0].score);
        assert!(s.root_moves.iter().all(|rm| rm.score <= s.prev_score));
    }
}

#[test]
fn helpers_search_to_the_last_iteration() {
    let mut pos = Position::startpos();
    let cuckoo = Cuckoo::new(&ZobristKeys::new()).unwrap();
    let mut s = Searcher::new(1, cuckoo, reductions());
    s.new_search();
    let mut host = Local::new(0);
    host.answer = Begin::Enough;
    let limits = Limits { depth: 4, ..Limits::default() };
    s.iterative_deepening(&mut host, &mut pos, &limits);
    assert_eq!(s.completed_depth, 4);
    assert!(!s.stopped && host.depths.is_empty());
}

#[test]
fn a_forced_move_under_a_clock_is_answered_at_once() {
    let mut pos = Position::from_fen("k7/8/8/8/8/8/6q1/7K w - - 0 1").ok().unwrap();
    let mut s = searcher();
    s.new_search();
    let mut host = Local::new(0);
    host.clock = true;
    s.iterative_deepening(&mut host, &mut pos, &Limits::default());
    assert_eq!(s.completed_depth, 1);
    assert_eq!(host.depths, vec![1]);
    assert_eq!(pos.move_to_uci(s.best_move_root), "h1g2");
    assert_eq!(s.best_move_root, s.root_moves[0].mv);
    assert_eq!(s.prev_score, s.root_moves[0].score);
}

#[test]
fn mated_nodes_are_scored_by_their_distance() {
    let mated = "R5k1/5ppp/8/8/8/8/8/6K1 b - - 0 1";
    let mut pos = Position::from_fen(mated).ok().unwrap();
    let mut s = searcher();
    s.new_search();
    let mut host = Local::new(0);
    let r = s.negamax(
        &mut host,
        &mut pos,
        4,
        3,
        -VALUE_INFINITE,
        VALUE_INFINITE,
        NodeType::PV,
        true,
        Move::none(),
    );
    assert_eq!(r, -31997);
    let r = s.qsearch(&mut host, &mut pos, 3, 0, -VALUE_INFINITE, VALUE_INFINITE, NodeType::PV);
    assert_eq!(r, -31997);
    assert_eq!(pos.fen(), mated);
    let mut stale = Position::from_fen("7k/5Q2/6K1/8/8/8/8/8 b - - 0 1").ok().unwrap();
    let r = s.negamax(
        &mut host,
        &mut stale,
        4,
        3,
        -VALUE_INFINITE,
        VALUE_INFINITE,
        NodeType::PV,
        true,
        Move::none(),
    );
    assert_eq!(r, 0);
}

#[test]
fn a_node_is_what_the_table_and_the_evaluation_say() {
    let pos = Position::startpos();
    let mut s = searcher();
    s.new_search();
    let m = pos.parse_uci_move("e2e4").unwrap();
    let (n, worsening) =
        s.node_at(&pos, 5, 1, -100, 100, NodeType::Cut, Move::none(), None, 25);
    assert_eq!((n.depth, n.static_eval, n.raw_eval), (5, 25, 25));
    assert_eq!((n.tt_hit, n.tt_move, n.tt_pv), (false, Move::none(), false));
    assert!(n.improving && worsening && !n.in_check);
    assert_eq!((n.key, n.ply, n.alpha, n.beta), (pos.key(), 1, -100, 100));
    assert_eq!(s.stack[1].static_eval, 25);
    let entry =
        TTData { score: 40, eval: 30, depth: 7, bound: Bound::Lower, is_pv: true, mv: m };
    s.stack[0].reduction = 3;
    let (n, _) =
        s.node_at(&pos, 5, 1, -100, 100, NodeType::All, Move::none(), Some(entry), 30);
    assert_eq!((n.tt_value, n.tt_depth, n.tt_bound), (40, 7, Bound::Lower));
    assert_eq!((n.tt_hit, n.tt_move, n.tt_pv), (true, m, true));
    assert_eq!(s.stack[0].reduction, 0);
    // A table move that cannot be played here is dropped.
    let stray = TTData { mv: Move(0x0fff), ..entry };
    let (n, _) =
        s.node_at(&pos, 5, 1, -100, 100, NodeType::All, Move::none(), Some(stray), 30);
    assert_eq!(n.tt_move, Move::none());
}

#[test]
fn new_searchers_know_nothing() {
    let s = searcher();
    assert_eq!(s.reductions, reductions());
    assert_eq!((s.nodes, s.qnodes, s.seldepth, s.completed_depth), (0, 0, 0, 0));
    assert_eq!((s.multipv, s.skill_level, s.pv_idx, s.nmp_min_ply), (1, 20, 0, 0));
    assert!(!s.stopped && !s.seek_mate && s.root_moves.is_empty());
    assert!(s.lines.iter().all(|l| l.is_empty()));
    assert!(s.stack.iter().all(|e| e.killers == (Move::none(), Move::none())));
    assert!(s.hist.main.iter().all(|&x| x == 0) && s.hist.tt_move_history == 0);
}

#[test]
fn a_cutoff_is_learned() {
    // In check, with quiet evasions only: the first one is good enough.
    let mut pos = Position::from_fen("4k3/8/8/8/8/8/8/r6K w - - 0 1").ok().unwrap();
    let mut s = searcher();
    s.new_search();
    let mut host = Local::new(0);
    let r = s.negamax(
        &mut host,
        &mut pos,
        1,
        3,
        -30001,
        -30000,
        NodeType::Cut,
        true,
        Move::none(),
    );
    assert!(r >= -30000);
    let m = s.stack[3].killers.0;
    assert!(pos.pseudo_legal(m) && pos.legal(m));
    let learned: Vec<i32> = s.hist.main.iter().copied().filter(|&x| x != 0).collect();
    assert_eq!(learned, vec![50]);
    assert_eq!(s.hist.low_ply.iter().copied().max(), Some(147));
    assert_eq!(s.hist.tt_move_history, -865);
    assert_eq!(s.stack[3].cutoff_cnt, 1);
    assert_eq!(s.lines[3], vec![m]);
}

#[test]
fn stored_codes_are_kept_as_they_are() {
    // The promotion bits of a plain move mean nothing.
    let pos = Position::startpos();
    let m = pos.parse_uci_move("e2e4").unwrap();
    let odd = Move(m.0 | 0x1000);
    let entry = TTData { score: 0, eval: 0, depth: 3, bound: Bound::Lower, is_pv: false, mv: odd };
    let mut s = searcher();
    s.new_search();
    let (n, _) = s.node_at(&pos, 5, 1, -100, 100, NodeType::Cut, Move::none(), Some(entry), 0);
    assert_eq!(n.tt_move, odd);
}

#[test]
fn shallow_nodes_come_to_the_best_reply() {
    // One ply: the score is the best of the negated quiescence scores of the replies.
    let fen = "4k3/8/8/3q4/4P3/8/8/4K3 w - - 0 1";
    let mut pos = Position::from_fen(fen).ok().unwrap();
    let mut list = MoveList::new();
    generate_legal(&pos, &mut list);
    let mut best = -VALUE_INFINITE;
    for &m in list.as_slice() {
        let mut s = searcher();
        s.new_search();
        let mut host = Local::new(0);
        let g = pos.gives_check(m);
        pos.make_move(m, g);
        let r = s.qsearch(&mut host, &mut pos, 4, 0, -VALUE_INFINITE, VALUE_INFINITE, NodeType::PV);
        pos.unmake_move(m);
        best = best.max(-r);
    }
    let mut s = searcher();
    s.new_search();
    let mut host = Local::new(0);
    let r = s.negamax(
        &mut host,
        &mut pos,
        1,
        3,
        -VALUE_INFINITE,
        VALUE_INFINITE,
        NodeType::PV,
        true,
        Move::none(),
    );
    assert_eq!(r, best);
    assert_eq!(s.lines[3][0], pos.parse_uci_move("e4d5").unwrap());
}

#[test]
fn the_table_prolongs_lines_with_moves_that_can_be_played() {
    let pos = Position::startpos();
    let m = pos.parse_uci_move("e2e4").unwrap();
    let entry =
        TTData { score: 0, eval: 0, depth: 3, bound: Bound::Exact, is_pv: true, mv: m };
    let seen = vec![1u64, 2];
    assert_eq!(table_continuation(&pos, Some(entry), &seen), Some(m));
    assert_eq!(table_continuation(&pos, None, &seen), None);
    let stray = TTData { mv: Move(0x0fff), ..entry };
    assert_eq!(table_continuation(&pos, Some(stray), &seen), None);
    let empty = TTData { mv: Move::none(), ..entry };
    assert_eq!(table_continuation(&pos, Some(empty), &seen), None);
    let again = vec![1u64, pos.key()];
    assert_eq!(table_continuation(&pos, Some(entry), &again), None);
}

/// The moves a picker hands out.
fn picked(s: &Searcher, pos: &Position, tt: Move) -> Vec<Move> {
    let mut picker = MovePicker::new(tt, 1, 5, s, pos);
    let mut out = Vec::new();
    while let Some(m) = picker.next(pos, s) {
        out.push(m);
    }
    out
}

#[test]
fn moves_are_handed_out_in_turn() {
    let fen = "r3k2r/p1ppqpb1/bn2pnp1/3PN3/1p2P3/2N2Q1p/PPPBBPPP/R3K2R w KQkq - 0 1";
    let pos = Position::from_fen(fen).ok().unwrap();
    let mut s = searcher();
    s.new_search();
    let tt = pos.parse_uci_move("a2a3").unwrap();
    let first = pos.parse_uci_move("g2g3").unwrap();
    let second = pos.parse_uci_move("b2b3").unwrap();
    s.stack[1].killers = (first, second);
    let moves = picked(&s, &pos, tt);
    assert_eq!(moves[0], tt);
    let at = |m: Move| moves.iter().position(|&x| x == m).unwrap();
    let good = |m: Move| pos.is_capture_stage(m) && pos.see_ge(m, -18);
    let n = moves.iter().filter(|&&m| good(m)).count();
    assert!(n > 0 && moves[1..=n].iter().all(|&m| good(m)));
    assert_eq!((at(first), at(second)), (n + 1, n + 2));
    // The losing captures come after quiet moves, best first.
    let losing = pos.parse_uci_move("f3f6").unwrap();
    assert!(pos.is_capture_stage(losing) && !good(losing) && at(losing) > n + 2);
    let mut all = MoveList::new();
    generate_legal(&pos, &mut all);
    let mut sorted: Vec<u16> = moves.iter().map(|m| m.0).collect();
    sorted.sort_unstable();
    sorted.dedup();
    assert_eq!(sorted.len(), moves.len());
    assert!(all.as_slice().iter().all(|m| moves.contains(m)));
    let mut generated = MoveList::new();
    generate_all(&pos, &mut generated);
    let mut codes: Vec<u16> = generated.as_slice().iter().map(|m| m.0).collect();
    codes.sort_unstable();
    assert_eq!(sorted, codes);
    // A hash move that is no move here is dropped.
    let none = picked(&s, &pos, Move(0x0fff));
    assert_eq!(none.len(), moves.len());
    assert_ne!(none[0], tt);
}

#[test]
fn evasions_begin_with_the_hash_move() {
    let pos = Position::from_fen("4k3/8/8/8/8/8/4r3/3QK3 w - - 0 1").ok().unwrap();
    let mut s = searcher();
    s.new_search();
    let tt = pos.parse_uci_move("e1f1");
    let tt = tt.unwrap_or(pos.parse_uci_move("e1e2").unwrap());
    let moves = picked(&s, &pos, tt);
    assert_eq!(moves[0], tt);
    let quiet = picked(&s, &pos, Move::none());
    assert!(pos.is_capture(quiet[0]));
}

#[test]
fn quiet_queen_promotions_can_be_killers_in_antichess() {
    let pos = Position::from_fen_variant("8/P7/8/8/8/8/8/7k w - - 0 1", Variant::Antichess)
        .ok()
        .unwrap();
    let mut s = searcher();
    s.new_search();
    let m = pos.parse_uci_move("a7a8q").unwrap();
    s.stack[1].killers = (m, Move::none());
    let moves = picked(&s, &pos, Move::none());
    assert_eq!(moves[0], m);
    assert_eq!(moves.iter().filter(|&&x| x == m).count(), 1);
    let mut all = MoveList::new();
    generate_legal(&pos, &mut all);
    assert_eq!(moves.len(), all.len());
}

#[test]
fn positions_beyond_a_search_still_get_a_move() {
    let pos = Position::from_fen("4k3/8/8/8/8/8/4R3/4K3 w - - 0 1").ok().unwrap();
    assert!(!pos.is_searchable());
    assert!(unsearched_move(&pos, &Limits::default()).is_some());
    let only = Move(1);
    let limits = Limits { searchmoves: vec![only], ..Limits::default() };
    assert!(unsearched_move(&pos, &limits).is_none());
}

#[test]
fn finds_mate_in_one() {
    let (s, pos) = search("6k1/5ppp/8/8/8/8/5PPP/R5K1 w - - 0 1", Variant::Standard, 4);
    assert_eq!(pos.move_to_uci(s.best_move_root), "a1a8");
    assert_eq!(s.prev_score, mate_in(1));
}

#[test]
fn finds_mate_in_two() {
    let (s, pos) = search("7k/8/5K2/8/8/8/8/R7 w - - 0 1", Variant::Standard, 8);
    assert_eq!(s.prev_score, mate_in(3));
    assert_eq!(s.root_moves[0].pv.len(), 3);
    assert!(s.root_moves[0].mv == s.best_move_root);
    assert!(pos.is_playable());
}

#[test]
fn takes_a_hanging_queen() {
    let (s, pos) = search("4k3/8/8/3q4/8/2N5/8/4K3 w - - 0 1", Variant::Standard, 5);
    assert_eq!(pos.move_to_uci(s.best_move_root), "c3d5");
}

#[test]
fn lines_are_played_out() {
    let (s, mut pos) = search(
        "r3k2r/p1ppqpb1/bn2pnp1/3PN3/1p2P3/2N2Q1p/PPPBBPPP/R3K2R w KQkq - 0 1",
        Variant::Standard,
        5,
    );
    assert_eq!(s.root_moves.len(), 48);
    for rm in &s.root_moves {
        assert_eq!(rm.pv[0], rm.mv);
        let mut made: Vec<Move> = Vec::new();
        for &m in &rm.pv {
            let mut list = MoveList::new();
            generate_legal(&pos, &mut list);
            assert!(list.as_slice().contains(&m));
            let g = pos.gives_check(m);
            pos.make_move(m, g);
            made.push(m);
        }
        for &m in made.iter().rev() {
            pos.unmake_move(m);
        }
    }
}

#[test]
fn no_moves_no_best_move() {
    let (s, _) = search("7k/5Q2/6K1/8/8/8/8/8 b - - 0 1", Variant::Standard, 3);
    assert!(s.root_moves.is_empty());
    let outcome = voted_outcome(&vec![s]);
    assert_eq!(outcome.best_move, Move::none());
}

#[test]
fn the_hill_wins() {
    let (s, pos) = search("7k/8/8/8/8/3K4/8/8 w - - 0 1", Variant::KingOfTheHill, 4);
    assert!(["d3d4", "d3e4"].contains(&pos.move_to_uci(s.best_move_root).as_str()));
    assert_eq!(s.prev_score, mate_in(1));
}

#[test]
fn node_limit_ends_the_search() {
    let mut pos = Position::startpos();
    let mut s = searcher();
    s.new_search();
    let mut host = Local::new(8192);
    let limits = Limits { nodes: 8192, ..Limits::default() };
    s.iterative_deepening(&mut host, &mut pos, &limits);
    assert!(s.stopped);
    assert!(s.nodes >= 8192);
    assert!(s.completed_depth >= 1);
    let mut sorted = host.depths.clone();
    sorted.sort_unstable();
    assert_eq!(sorted, host.depths);
}

#[test]
fn search_moves_restrict_the_root() {
    let mut pos = Position::startpos();
    let mut s = searcher();
    s.new_search();
    let mut host = Local::new(0);
    let only = pos.parse_uci_move("a2a3").unwrap();
    let limits = Limits { depth: 3, searchmoves: vec![only], ..Limits::default() };
    s.iterative_deepening(&mut host, &mut pos, &limits);
    assert_eq!(s.root_moves.len(), 1);
    assert_eq!(s.best_move_root, only);
}

#[test]
fn several_lines_come_in_order() {
    let mut pos = Position::startpos();
    let mut s = searcher();
    s.multipv = 3;
    s.new_search();
    let mut host = Local::new(0);
    let limits = Limits { depth: 4, ..Limits::default() };
    s.iterative_deepening(&mut host, &mut pos, &limits);
    assert!(s.root_moves[0].score >= s.root_moves[1].score);
    assert!(s.root_moves[1].score >= s.root_moves[2].score);
    let mut line = vec![s.best_move_root];
    extend_pv_with_tt(&mut host, &mut pos, &mut line, 4);
    assert_eq!(line[0], s.best_move_root);
    assert!(line.len() <= 4);
}

fn result(m: u16, score: Value, depth: i32) -> ThreadResult {
    ThreadResult {
        best_move: Move(m),
        score,
        completed_depth: depth,
        pv_length: 3,
        nodes: 100,
    }
}

#[test]
fn threads_vote() {
    // Two threads that agree outweigh one that is a little better.
    let votes = vec![result(1, 50, 10), result(2, 40, 10), result(2, 40, 10)];
    assert_eq!(votes[select_best_thread(&votes)].best_move, Move(2));
    assert_eq!(select_best_thread(&vec![result(1, 0, 5)]), 0);
    // A proven win goes before all votes.
    let wins = vec![result(1, 50, 10), result(1, 60, 10), result(2, mate_in(5), 8)];
    assert_eq!(select_best_thread(&wins), 2);
}

#[test]
fn weaker_levels_pick_among_the_best() {
    let root = |m: u16, score: Value| RootMove {
        mv: Move(m),
        score,
        prev_score: score,
        pv: vec![Move(m)],
        nodes: 1,
    };
    let list = vec![root(1, 100), root(2, 95), root(3, 90), root(4, -500)];
    let mut picked = vec![0; 5];
    for seed in 1..200u64 {
        picked[skill_pick(&list, 5, seed).0 as usize] += 1;
    }
    assert!(picked[1] > 0 && picked[2] > 0);
    assert_eq!(picked.iter().sum::<i32>(), 199);
    assert_ne!(next_random(1), next_random(2));
    let mut s = searcher();
    s.skill_level = 5;
    s.root_moves = list;
    s.best_move_root = Move(1);
    let outcome = skilled_outcome(&vec![s], 12345);
    assert!((1..=4).contains(&outcome.best_move.0));
}

#[test]
fn answers_are_legal() {
    for level in [0, 20] {
        let (mut s, pos) = search(
            "r3k2r/p1ppqpb1/bn2pnp1/3PN3/1p2P3/2N2Q1p/PPPBBPPP/R3K2R w KQkq - 0 1",
            Variant::Standard,
            4,
        );
        s.skill_level = level;
        let outcome = final_outcome(&vec![s], pos.key());
        let mut list = MoveList::new();
        generate_legal(&pos, &mut list);
        assert!(list.as_slice().contains(&outcome.best_move));
        assert!(outcome.nodes > 0);
        assert_eq!(outcome.depth, 4);
        if outcome.ponder.is_some() {
            let mut after = pos.clone();
            let g = after.gives_check(outcome.best_move);
            after.make_move(outcome.best_move, g);
            let mut replies = MoveList::new();
            generate_legal(&after, &mut replies);
            assert!(replies.as_slice().contains(&outcome.ponder));
        }
    }
}

#[test]
fn the_reply_of_the_line_is_pondered() {
    let list = vec![RootMove {
        mv: Move(7),
        score: 1,
        prev_score: 1,
        pv: vec![Move(7), Move(9)],
        nodes: 1,
    }];
    assert_eq!(ponder_move(&list, Move(7)), Move(9));
    assert_eq!(ponder_move(&list, Move(8)), Move::none());
}

#[test]
fn scores_are_written() {
    let pos = Position::startpos();
    assert_eq!(format_score(mate_in(1), &pos, false, None), "mate 1");
    assert_eq!(format_score(mate_in(4), &pos, false, None), "mate 2");
    assert_eq!(format_score(mated_in(4), &pos, false, None), "mate -2");
    assert_eq!(format_score(-35, &pos, false, None), "cp -35");
    assert_eq!(format_score(35, &pos, false, Some((300, 200))), "cp 35 wdl 300 500 200");
    assert_eq!(format_score(VALUE_MATE - 3, &pos, false, Some((0, 0))), "mate 2 wdl 1000 0 0");
    let (a, b) = win_rate_params(&pos);
    assert!(a > 0 && b > 0);
    assert_eq!(format_score(a / 1000, &pos, true, None), format!("cp {}", 100 * (a / 1000 * 1000) / a));
}

#[test]
fn info_lines_are_written() {
    let pos = Position::startpos();
    let p = Progression { depth: 5, seldepth: 3, number: 1, nodes: 4000, hashfull: 7, elapsed: 20 };
    let line = vec![pos.parse_uci_move("e2e4").unwrap()];
    assert_eq!(
        info_line(p, "cp 12", &pos, &line),
        "info depth 5 seldepth 5 multipv 1 score cp 12 nodes 4000 nps 200000 hashfull 7 time 20 pv e2e4"
    );
}

#[test]
fn fixed_times_are_planned() {
    let fixed = Limits { movetime: 1000, ..Limits::default() };
    match plan(&fixed, Color::White, 10) {
        Plan::Settled(t) => {
            assert_eq!((t.optimum, t.maximum, t.soft, t.timed), (990, 990, true, true))
        }
        _ => panic!("a fixed time is settled"),
    }
    let short = Limits { movetime: 10, ..Limits::default() };
    match plan(&short, Color::White, 1000) {
        Plan::Settled(t) => assert_eq!(t.maximum, 5),
        _ => panic!("a fixed time is settled"),
    }
    let clock = Limits { time: [5000, 3000], ..Limits::default() };
    assert!(matches!(plan(&clock, Color::Black, 10), Plan::Clock(3000)));
    assert!(clock.use_time_management());
    let open = Limits { infinite: true, time: [5000, 3000], ..Limits::default() };
    match plan(&open, Color::Black, 10) {
        Plan::Settled(t) => assert!(!t.timed && t.maximum == UNTIMED_MS),
        _ => panic!("nothing to share out"),
    }
    assert_eq!(TimeManager::untimed().optimum, UNTIMED_MS);
}

#[test]
fn repetitions_are_seen_coming() {
    let keys = ZobristKeys::new();
    let cuckoo = Cuckoo::new(&keys).unwrap();
    let mut pos = Position::startpos();
    for m in ["g1f3", "g8f6", "f3g1"] {
        let m = pos.parse_uci_move(m).unwrap();
        let g = pos.gives_check(m);
        pos.make_move(m, g);
    }
    assert!(pos.upcoming_repetition(10, &cuckoo));
    assert!(!Position::startpos().upcoming_repetition(10, &cuckoo));
}
