//! State of one search thread: histories, the search stack, principal variations and the
//! statistics a search is steered by.

use vstd::prelude::*;

use crate::arith::{clamp, clamped, div_toward_zero, quot};
use crate::bitboard::CENTER;
use crate::bits::{group_has, holds};
use crate::cuckoo::Cuckoo;
use crate::history::{
    blend, bump, bump_small, capture_index, cont_index, correction_index, gravity_value, key_ok,
    main_index, pawn_index, ContKey, Histories, LOW_PLY_SIZE,
};
use crate::learning::corrected;
use crate::journal::{extends, tells_to_stop, told_to_stop, Event, Journal, Seen};
use crate::params::{
    CONT_WEIGHTS, CORRHIST_GRAIN, CORR_W_LASTMOVE, CORR_W_MATERIAL, CORR_W_MINOR, CORR_W_NONPAWN,
    CORR_W_OPP_NONPAWN, HISTORY_MAX, LASTMOVE_CORRHIST_SIZE, LOW_PLY_HISTORY_SIZE,
};
use crate::position::Position;
use crate::rules::{king, lemma_occ, one_king, PosView};
use crate::tt::Slot;
use crate::types::{
    file, mate_in, mated_in, rank, Color, Move, Piece, PieceType, Value, VALUE_DRAW, VALUE_EVAL_MAX,
};
use crate::variant::Variant;

verus! {

broadcast use {group_has, lemma_occ};

/// What a search draws on from outside: the shared table, the clock and the network. A
/// search makes no assumption about the answers.
pub trait Host {
    /// The table bucket of a position.
    fn bucket(&mut self, key: u64) -> [Slot; 4];

    /// Writes one entry of the bucket of a position.
    fn write(&mut self, key: u64, index: usize, slot: Slot)
        requires
            index < 4,
    ;

    /// Current generation of the table.
    fn generation(&mut self) -> u8;

    /// Asked every 4096 nodes: whether the search has to end.
    fn poll(&mut self, nodes: u64) -> bool;

    /// The network's value of a position, for the side to move.
    fn network(&mut self, pos: &Position) -> Value;

    /// Asked before each iteration; `first` until one has been completed.
    fn begin(&mut self, first: bool) -> Begin;

    /// Told of each root move before it is searched, with its number in the list.
    fn searching(&mut self, pos: &Position, depth: i32, m: Move, number: usize);

    /// Told of the lines a completed iteration has found.
    fn report(&mut self, pos: &Position, lines: &Vec<RootMove>, iteration: Iteration);

    /// Whether the search has been told to end.
    fn stop_requested(&mut self) -> bool;

    /// Whether a clock is running; it may start while the search goes on.
    fn clocked(&mut self) -> bool;

    /// Asked after each iteration under a clock: whether the time spent is enough.
    fn spent_enough(&mut self, iteration: Iteration) -> bool;
}

/// Answer of the host before an iteration.
#[derive(Clone, Copy, PartialEq, Eq, Debug, Structural)]
pub enum Begin {
    /// Search it.
    Go,
    /// Time is up.
    Stop,
    /// It could not be finished: what has been found stands.
    Enough,
}

/// A completed iteration.
#[derive(Clone, Copy)]
pub struct Iteration {
    pub depth: i32,
    pub seldepth: usize,
    /// Number of lines searched.
    pub multipv: usize,
    pub score: Value,
    /// Whether the best move is another than after the iteration before.
    pub changed: bool,
    pub nodes: u64,
    pub best_move_nodes: u64,
}

#[derive(Clone, Copy, PartialEq, Eq, Debug, Structural)]
pub enum NodeType {
    PV,
    Cut,
    All,
}

/// Number of entries of the search stack.
pub const STACK_SIZE: usize = 136;

/// Number of lines kept, one per ply.
pub const LINES: usize = 129;

/// Depths and move counts the reduction table covers.
pub const REDUCTION_DEPTHS: usize = 136;

pub const REDUCTION_MOVES: usize = 513;

pub const REDUCTION_SIZE: usize = 69768;

/// No score a search returns is larger, either way.
pub const SCORE_LIMIT: Value = 40001;

#[derive(Clone, Copy)]
pub struct StackEntry {
    /// Move made from this ply (none before any, null for a null move).
    pub current_move: Move,
    pub moved_piece: Piece,
    /// Whether the side to move at this ply was in check.
    pub in_check: bool,
    /// Whether `current_move` captured.
    pub is_capture: bool,
    pub static_eval: Value,
    pub stat_score: i32,
    pub cutoff_cnt: u8,
    pub tt_pv: bool,
    pub reduction: i32,
    pub killers: (Move, Move),
}

impl StackEntry {
    /// A stack entry before anything happened.
    #[verifier::allow_in_spec]
    pub fn fresh() -> StackEntry
        returns
            (StackEntry {
                current_move: Move(0),
                moved_piece: Piece(12),
                in_check: false,
                is_capture: false,
                static_eval: 0,
                stat_score: 0,
                cutoff_cnt: 0,
                tt_pv: false,
                reduction: 0,
                killers: (Move(0), Move(0)),
            }),
    {
        StackEntry {
            current_move: Move(0),
            moved_piece: Piece(12),
            in_check: false,
            is_capture: false,
            static_eval: 0,
            stat_score: 0,
            cutoff_cnt: 0,
            tt_pv: false,
            reduction: 0,
            killers: (Move(0), Move(0)),
        }
    }

    /// Numbers of the entry at ply `p` are in range.
    pub open spec fn ok(self, p: int) -> bool {
        &&& -32000 - 33 * (p + 1) <= self.static_eval <= 32000 + 33 * (p + 1)
        &&& -HISTORY_MAX <= self.stat_score <= HISTORY_MAX
        &&& 0 <= self.reduction <= 1000
        &&& self.moved_piece.0 <= 12
    }
}

impl Default for StackEntry {
    fn default() -> (r: StackEntry)
        ensures
            r == StackEntry::fresh(),
    {
        StackEntry::fresh()
    }
}

#[derive(Clone)]
pub struct RootMove {
    pub mv: Move,
    pub score: Value,
    pub prev_score: Value,
    pub pv: Vec<Move>,
    pub nodes: u64,
}

/// Per-thread search state. Histories persist across moves of a game.
pub struct Searcher {
    pub thread_id: usize,
    pub hist: Histories,
    pub cuckoo: Cuckoo,
    /// Base reduction by depth and move count.
    pub reductions: Vec<u8>,
    pub stack: Vec<StackEntry>,
    /// Principal variation found from each ply.
    pub lines: Vec<Vec<Move>>,
    pub nodes: u64,
    pub qnodes: u64,
    pub seldepth: usize,
    pub stopped: bool,
    pub multipv: usize,
    /// Skill level 0..=20; below 20 the final move is picked from several lines.
    pub skill_level: i32,
    pub root_moves: Vec<RootMove>,
    pub pv_idx: usize,
    pub completed_depth: i32,
    pub best_move_root: Move,
    pub best_move_nodes: u64,
    pub prev_score: Value,
    pub nmp_min_ply: usize,
    pub seek_mate: bool,
    /// What the search has asked and found so far.
    pub journal: Journal,
}

/// A score a little either side of a draw, so that repetitions are not all alike.
#[verifier::allow_in_spec]
pub fn value_draw(nodes: u64) -> Value
    returns
        (-1 + (nodes / 2 % 2) * 2) as i32,
{
    VALUE_DRAW - 1 + ((nodes / 2 % 2) * 2) as Value
}

impl PosView {
    /// Score of a position without legal moves: being stalemated wins in antichess and
    /// draws in racing kings.
    pub open spec fn terminal_score(self, ply: usize) -> Value {
        match self.variant {
            Variant::Antichess => mate_in(ply),
            Variant::RacingKings => 0,
            _ => if self.st().checkers != 0 {
                mated_in(ply)
            } else {
                0
            },
        }
    }

    /// The king of `c` stands on a centre square.
    pub open spec fn on_hill(self, c: Color) -> bool {
        let k = self.ksq(c);
        3 <= file(k) <= 4 && 3 <= rank(k) <= 4
    }

    /// Game-over rules of the variants that do not depend on the moves.
    pub open spec fn variant_result(self, ply: usize) -> Option<Value> {
        let them = self.stm.flip();
        match self.variant {
            Variant::ThreeCheck => if self.st().checks_given@[them.idx() as int] >= 3 {
                Some(mated_in(ply))
            } else {
                None
            },
            Variant::RacingKings => self.race_result(ply),
            Variant::KingOfTheHill => if self.on_hill(them) {
                Some(mated_in(ply))
            } else {
                None
            },
            _ => None,
        }
    }
}

/// Score of a node with no legal moves.
pub fn terminal_value(pos: &Position, ply: usize) -> (r: Value)
    requires
        pos.wf(),
        ply <= 1000,
    ensures
        r == pos@.terminal_score(ply),
        -32000 <= r <= 32000,
{
    match pos.variant() {
        Variant::Antichess => mate_in(ply),
        Variant::RacingKings => VALUE_DRAW,
        _ => if pos.in_check() {
            mated_in(ply)
        } else {
            VALUE_DRAW
        },
    }
}

/// Variant game-over tests that do not depend on move generation.
pub fn variant_terminal(pos: &Position, ply: usize) -> (r: Option<Value>)
    requires
        pos.wf(),
        ply <= 1000,
    ensures
        r == pos@.variant_result(ply),
        r matches Some(v) ==> -32000 <= v <= 32000,
{
    let them = pos.side_to_move().flip();
    match pos.variant() {
        Variant::ThreeCheck => if pos.checks_given(them) >= 3 {
            Some(mated_in(ply))
        } else {
            None
        },
        Variant::RacingKings => pos.racing_kings_result(ply),
        Variant::KingOfTheHill => {
            let hill = pos.pieces_cp(them, PieceType::King) & CENTER;
            proof {
                let b = pos@.board;
                let k = pos@.ksq(them);
                assert(one_king(b, them));
                assert(b[k] == king(them));
                crate::bitboard::lemma_masks(k);
                if hill != 0 {
                    crate::bits::lemma_lowest(hill);
                    let s = crate::bits::lowest(hill);
                    assert(holds(hill, s));
                    assert(b[s] == king(them));
                    assert(s == k);
                } else {
                    crate::bits::lemma_empty(hill);
                    assert(!holds(hill, k));
                }
            }
            if hill != 0 {
                Some(mated_in(ply))
            } else {
                None
            }
        },
        _ => None,
    }
}

/// Correction of the static evaluation learned for a position.
pub open spec fn correction(h: Histories, v: PosView, prev: int) -> int {
    let us = v.stm;
    let them = v.stm.flip();
    let st = v.st();
    quot(
        h.nonpawn_corr@[correction_index(us, st.nonpawn_key@[us.idx() as int]) as int]
            * CORR_W_NONPAWN - h.nonpawn_corr@[correction_index(
            them,
            st.nonpawn_key@[them.idx() as int],
        ) as int] * CORR_W_OPP_NONPAWN + h.minor_corr@[correction_index(us, st.minor_key) as int]
            * CORR_W_MINOR + h.material_corr@[correction_index(us, st.material_key) as int]
            * CORR_W_MATERIAL + h.lastmove_corr@[prev] * CORR_W_LASTMOVE,
        25600,
    )
}

impl Searcher {
    /// Tables of the right size, every number in range.
    pub open spec fn wf(&self) -> bool {
        &&& self.hist.wf()
        &&& self.cuckoo.wf()
        &&& self.reductions@.len() == REDUCTION_SIZE
        &&& self.stack@.len() == STACK_SIZE
        &&& forall|p: int| 0 <= p < STACK_SIZE ==> (#[trigger] self.stack@[p]).ok(p)
        &&& self.lines@.len() == LINES
        &&& self.nmp_min_ply <= 1000
        &&& self.journal.wf()
    }

    /// What the searcher knows.
    pub open spec fn seen(&self) -> Seen {
        Seen {
            hist: self.hist,
            stack: self.stack@,
            cuckoo: self.cuckoo,
            nodes: self.nodes,
            nmp_min_ply: self.nmp_min_ply,
            seek_mate: self.seek_mate,
            reductions: self.reductions@,
        }
    }

    /// Everything but what the search learns and counts is as in `o`.
    pub open spec fn same_setup(&self, o: &Searcher) -> bool {
        &&& self.thread_id == o.thread_id
        &&& self.cuckoo == o.cuckoo
        &&& self.reductions == o.reductions
        &&& self.multipv == o.multipv
        &&& self.skill_level == o.skill_level
        &&& self.root_moves == o.root_moves
        &&& self.pv_idx == o.pv_idx
        &&& self.completed_depth == o.completed_depth
        &&& self.best_move_root == o.best_move_root
        &&& self.best_move_nodes == o.best_move_nodes
        &&& self.prev_score == o.prev_score
        &&& self.seek_mate == o.seek_mate
    }

    /// Everything but the histories is as in `o`.
    pub open spec fn only_learned(&self, o: &Searcher) -> bool {
        &&& *self == (Searcher { hist: self.hist, ..*o })
    }

    /// A new searcher. `reductions` holds the base reduction for every depth and move
    /// count.
    pub fn new(thread_id: usize, cuckoo: Cuckoo, reductions: Vec<u8>) -> (r: Searcher)
        requires
            cuckoo.wf(),
            reductions@.len() == REDUCTION_SIZE,
        ensures
            r.wf(),
            r.hist.blank(),
            r.cuckoo == cuckoo,
            r.reductions == reductions,
            forall|p: int| 0 <= p < STACK_SIZE ==> #[trigger] r.stack@[p] == StackEntry::fresh(),
            forall|p: int| 0 <= p < LINES ==> (#[trigger] r.lines@[p])@.len() == 0,
            r.root_moves@.len() == 0,
            r.journal@.len() == 0,
            r == (Searcher {
                thread_id,
                hist: r.hist,
                cuckoo,
                reductions,
                stack: r.stack,
                lines: r.lines,
                nodes: 0,
                qnodes: 0,
                seldepth: 0,
                stopped: false,
                multipv: 1,
                skill_level: 20,
                root_moves: r.root_moves,
                pv_idx: 0,
                completed_depth: 0,
                best_move_root: Move(0),
                best_move_nodes: 0,
                prev_score: 0,
                nmp_min_ply: 0,
                seek_mate: false,
                journal: r.journal,
            }),
    {
        let mut s = Searcher {
            thread_id,
            hist: Histories::new(),
            cuckoo,
            reductions,
            stack: Vec::new(),
            lines: Vec::new(),
            nodes: 0,
            qnodes: 0,
            seldepth: 0,
            stopped: false,
            multipv: 1,
            skill_level: 20,
            root_moves: Vec::new(),
            pv_idx: 0,
            completed_depth: 0,
            best_move_root: Move::none(),
            best_move_nodes: 0,
            prev_score: 0,
            nmp_min_ply: 0,
            seek_mate: false,
            journal: Journal::new(),
        };
        let ghost o = s;
        let mut i: usize = 0;
        while i < STACK_SIZE
            invariant
                i <= STACK_SIZE,
                s.stack@.len() == i,
                forall|p: int|
                    0 <= p < i ==> (#[trigger] s.stack@[p]) == StackEntry::fresh() && s.stack@[p].ok(
                        p,
                    ),
                s == (Searcher { stack: s.stack, ..o }),
                o.lines@.len() == 0,
            decreases STACK_SIZE - i,
        {
            s.stack.push(StackEntry::fresh());
            i += 1;
        }
        let mut j: usize = 0;
        while j < LINES
            invariant
                j <= LINES,
                s.lines@.len() == j,
                s.stack@.len() == STACK_SIZE,
                forall|p: int|
                    0 <= p < STACK_SIZE ==> (#[trigger] s.stack@[p]) == StackEntry::fresh()
                        && s.stack@[p].ok(p),
                forall|p: int| 0 <= p < j ==> (#[trigger] s.lines@[p])@.len() == 0,
                s == (Searcher { stack: s.stack, lines: s.lines, ..o }),
            decreases LINES - j,
        {
            s.lines.push(Vec::new());
            j += 1;
        }
        s
    }

    fn reset_stack(&mut self)
        requires
            old(self).wf(),
        ensures
            final(self).wf(),
            *final(self) == (Searcher { stack: final(self).stack, ..*old(self) }),
            forall|p: int|
                0 <= p < STACK_SIZE ==> #[trigger] final(self).stack@[p] == StackEntry::fresh(),
    {
        let mut i: usize = 0;
        while i < STACK_SIZE
            invariant
                i <= STACK_SIZE,
                *self == (Searcher { stack: self.stack, ..*old(self) }),
                self.wf(),
                forall|p: int| 0 <= p < i ==> #[trigger] self.stack@[p] == StackEntry::fresh(),
            decreases STACK_SIZE - i,
        {
            self.stack.set(i, StackEntry::fresh());
            i += 1;
        }
    }

    /// Forgets everything learned (new game).
    pub fn clear(&mut self)
        requires
            old(self).wf(),
        ensures
            final(self).wf(),
            final(self).hist.blank(),
            forall|p: int|
                0 <= p < STACK_SIZE ==> #[trigger] final(self).stack@[p] == StackEntry::fresh(),
            *final(self) == (Searcher {
                hist: final(self).hist,
                stack: final(self).stack,
                ..*old(self)
            }),
    {
        self.hist.clear();
        self.reset_stack();
    }

    /// Per-search reset. Killers are position specific and start fresh; histories persist,
    /// with a small positive bias for moves not yet seen near the root.
    pub fn new_search(&mut self)
        requires
            old(self).wf(),
        ensures
            final(self).wf(),
            forall|p: int|
                0 <= p < STACK_SIZE ==> #[trigger] final(self).stack@[p] == StackEntry::fresh(),
            forall|i: int| 0 <= i < LOW_PLY_SIZE ==> #[trigger] final(self).hist.low_ply@[i] == 97,
            final(self).hist == (Histories {
                low_ply: final(self).hist.low_ply,
                tt_move_history: 0,
                ..old(self).hist
            }),
            *final(self) == (Searcher {
                hist: final(self).hist,
                stack: final(self).stack,
                nodes: 0,
                qnodes: 0,
                seldepth: 0,
                stopped: false,
                best_move_nodes: 0,
                seek_mate: false,
                prev_score: 0,
                completed_depth: 0,
                best_move_root: Move(0),
                nmp_min_ply: 0,
                pv_idx: 0,
                ..*old(self)
            }),
    {
        self.nodes = 0;
        self.qnodes = 0;
        self.seldepth = 0;
        self.stopped = false;
        self.best_move_nodes = 0;
        self.seek_mate = false;
        self.prev_score = 0;
        self.completed_depth = 0;
        self.best_move_root = Move(0);
        self.nmp_min_ply = 0;
        self.pv_idx = 0;
        self.reset_stack();
        self.hist.tt_move_history = 0;
        let ghost mid = *self;
        let mut i: usize = 0;
        while i < LOW_PLY_SIZE
            invariant
                i <= LOW_PLY_SIZE,
                self.wf(),
                self.hist == (Histories { low_ply: self.hist.low_ply, ..mid.hist }),
                *self == (Searcher { hist: self.hist, ..mid }),
                forall|j: int| 0 <= j < i ==> #[trigger] self.hist.low_ply@[j] == 97,
            decreases LOW_PLY_SIZE - i,
        {
            self.hist.low_ply.set(i, 97);
            i += 1;
        }
    }

    // History helpers

    /// Continuation key of the move `back` plies before `ply`.
    pub open spec fn key_before(&self, ply: int, back: int) -> Option<ContKey> {
        self.seen().key_before(ply, back)
    }

    fn cont_key(&self, ply: usize, back: usize) -> (r: Option<ContKey>)
        requires
            self.wf(),
            ply < STACK_SIZE,
            back >= 1,
        ensures
            r == self.key_before(ply as int, back as int),
            r matches Some(k) ==> key_ok(k),
    {
        if ply < back {
            return None;
        }
        let e = self.stack[ply - back];
        if e.current_move.is_ok() && e.moved_piece.is_some() {
            Some(
                (
                    if e.in_check {
                        1
                    } else {
                        0
                    },
                    if e.is_capture {
                        1
                    } else {
                        0
                    },
                    e.moved_piece.idx(),
                    e.current_move.to_sq() as usize,
                ),
            )
        } else {
            None
        }
    }

    /// Continuation-history keys for the moves 1, 2 and 4 plies before `ply`.
    pub fn cont_keys(&self, ply: usize) -> (r: [Option<ContKey>; 3])
        requires
            self.wf(),
            ply < STACK_SIZE,
        ensures
            r@[0] == self.key_before(ply as int, 1),
            r@[1] == self.key_before(ply as int, 2),
            r@[2] == self.key_before(ply as int, 4),
            forall|i: int| 0 <= i < 3 ==> (#[trigger] r@[i] matches Some(k) ==> key_ok(k)),
    {
        [self.cont_key(ply, 1), self.cont_key(ply, 2), self.cont_key(ply, 4)]
    }

    /// Pawn-structure history of `pc` going to `to`.
    pub fn pawn_hist(&self, pawn_key: u64, pc: Piece, to: usize) -> (r: i32)
        requires
            self.wf(),
            pc.0 < 12,
            to < 64,
        ensures
            r == self.hist.pawn@[pawn_index(pawn_key, pc, to) as int],
            -HISTORY_MAX <= r <= HISTORY_MAX,
    {
        self.hist.pawn[pawn_index(pawn_key, pc, to)] as i32
    }

    /// Butterfly history of a move.
    pub(crate) fn main_hist(&self, c: Color, m: Move) -> (r: i32)
        requires
            self.wf(),
        ensures
            r == self.hist.main@[main_index(c, m.from_to()) as int],
            -HISTORY_MAX <= r <= HISTORY_MAX,
    {
        self.hist.main[main_index(c, m.from_to())]
    }

    /// Capture history of `pc` taking a piece of type `captured` on `to`.
    pub(crate) fn capture_hist(&self, pc: Piece, to: usize, captured: PieceType) -> (r: i32)
        requires
            self.wf(),
            pc.0 < 12,
            to < 64,
        ensures
            r == self.hist.capture@[capture_index(pc, to, captured) as int],
            -HISTORY_MAX <= r <= HISTORY_MAX,
    {
        self.hist.capture[capture_index(pc, to, captured)]
    }

    /// Low-ply history of a move.
    pub(crate) fn low_ply_hist(&self, ply: usize, m: Move) -> (r: i32)
        requires
            self.wf(),
            ply < LOW_PLY_HISTORY_SIZE,
        ensures
            r == self.hist.low_ply@[ply * 4096 + m.from_to()],
            -HISTORY_MAX <= r <= HISTORY_MAX,
    {
        self.hist.low_ply[ply * 4096 + m.from_to()]
    }

    pub(crate) fn update_pawn_history(&mut self, pawn_key: u64, pc: Piece, to: usize, bonus: i32)
        requires
            old(self).wf(),
            pc.0 < 12,
            to < 64,
        ensures
            final(self).wf(),
            final(self).only_learned(old(self)),
            final(self).hist == (Histories { pawn: final(self).hist.pawn, ..old(self).hist }),
            final(self).hist@ == old(self).hist@.with_pawn(pawn_key, pc, to, bonus as int),
    {
        bump_small(&mut self.hist.pawn, pawn_index(pawn_key, pc, to), bonus);
    }

    pub(crate) fn update_main_history(&mut self, c: Color, m: Move, bonus: i32)
        requires
            old(self).wf(),
        ensures
            final(self).wf(),
            final(self).only_learned(old(self)),
            final(self).hist == (Histories { main: final(self).hist.main, ..old(self).hist }),
            final(self).hist@ == old(self).hist@.with_main(c, m, bonus as int),
    {
        bump(&mut self.hist.main, main_index(c, m.from_to()), bonus);
    }

    pub(crate) fn update_capture_history(
        &mut self,
        pc: Piece,
        to: usize,
        captured: PieceType,
        bonus: i32,
    )
        requires
            old(self).wf(),
            pc.0 < 12,
            to < 64,
        ensures
            final(self).wf(),
            final(self).only_learned(old(self)),
            final(self).hist == (Histories { capture: final(self).hist.capture, ..old(self).hist }),
            final(self).hist@ == old(self).hist@.with_capture(pc, to, captured, bonus as int),
    {
        bump(&mut self.hist.capture, capture_index(pc, to, captured), bonus);
    }

    pub(crate) fn update_low_ply_history(&mut self, ply: usize, m: Move, bonus: i32)
        requires
            old(self).wf(),
        ensures
            final(self).wf(),
            final(self).only_learned(old(self)),
            final(self).hist == (Histories { low_ply: final(self).hist.low_ply, ..old(self).hist }),
            final(self).hist@ == old(self).hist@.with_low_ply(ply, m, bonus as int),
    {
        if ply < LOW_PLY_HISTORY_SIZE {
            bump(&mut self.hist.low_ply, ply * 4096 + m.from_to(), bonus);
        }
    }

    /// The continuation table after a bonus for `pc` going to `to` under one key.
    pub open spec fn cont_after(
        t: Seq<i16>,
        key: Option<ContKey>,
        pc: Piece,
        to: usize,
        bonus: int,
    ) -> Seq<i16> {
        match key {
            Some(k) => {
                let i = cont_index(k, pc, to) as int;
                t.update(i, gravity_value(t[i] as int, bonus) as i16)
            },
            None => t,
        }
    }

    fn bump_key(&mut self, key: Option<ContKey>, pc: Piece, to: usize, bonus: i32)
        requires
            old(self).wf(),
            pc.0 < 12,
            to < 64,
            key matches Some(k) ==> key_ok(k),
        ensures
            final(self).wf(),
            final(self).only_learned(old(self)),
            final(self).hist == (Histories { cont: final(self).hist.cont, ..old(self).hist }),
            final(self).hist.cont@ == Searcher::cont_after(
                old(self).hist.cont@,
                key,
                pc,
                to,
                bonus as int,
            ),
    {
        if let Some(k) = key {
            self.hist.bump_cont(k, pc, to, bonus);
        }
    }

    /// Updates the continuation histories of `pc`/`to` for the ancestors of `ply`, the
    /// oldest one only when not in check.
    pub(crate) fn update_continuation_histories(
        &mut self,
        ply: usize,
        in_check: bool,
        pc: Piece,
        to: usize,
        bonus: i32,
    )
        requires
            old(self).wf(),
            ply < STACK_SIZE,
            pc.0 < 12,
            to < 64,
            -100_000 <= bonus <= 100_000,
        ensures
            final(self).wf(),
            final(self).only_learned(old(self)),
            final(self).hist == (Histories { cont: final(self).hist.cont, ..old(self).hist }),
            final(self).hist@ == old(self).seen().credited(
                old(self).hist@,
                ply as int,
                in_check,
                pc,
                to,
                bonus as int,
            ),
    {
        let keys = self.cont_keys(ply);
        let b: i64 = bonus as i64;
        self.bump_key(keys[0], pc, to, div_toward_zero(b * CONT_WEIGHTS[0] as i64, 1024) as i32);
        self.bump_key(keys[1], pc, to, div_toward_zero(b * CONT_WEIGHTS[1] as i64, 1024) as i32);
        if !in_check {
            self.bump_key(
                keys[2],
                pc,
                to,
                div_toward_zero(b * CONT_WEIGHTS[2] as i64, 1024) as i32,
            );
        }
    }

    /// Sum of the continuation histories one and two plies back.
    pub(crate) fn cont_history_sum(&self, keys: &[Option<ContKey>; 3], pc: Piece, to: usize) -> (r:
        i32)
        requires
            self.wf(),
            pc.0 < 12,
            to < 64,
            forall|i: int| 0 <= i < 3 ==> (#[trigger] keys@[i] matches Some(k) ==> key_ok(k)),
        ensures
            r == (match keys@[0] {
                Some(k) => self.hist.cont@[cont_index(k, pc, to) as int] as int,
                None => 0,
            }) + (match keys@[1] {
                Some(k) => self.hist.cont@[cont_index(k, pc, to) as int] as int,
                None => 0,
            }),
            -32768 <= r <= 32768,
    {
        let a: i32 = match keys[0] {
            Some(k) => self.hist.cont(k, pc, to),
            None => 0,
        };
        let b: i32 = match keys[1] {
            Some(k) => self.hist.cont(k, pc, to),
            None => 0,
        };
        a + b
    }

    /// Butterfly index of the previous move for the last-move correction table.
    pub(crate) fn prev_move_idx(&self, ply: usize) -> (r: usize)
        requires
            self.wf(),
            ply <= STACK_SIZE,
        ensures
            r < LASTMOVE_CORRHIST_SIZE,
            r == self.seen().last_move_index(ply),
    {
        if ply == 0 {
            return 0;
        }
        let m = self.stack[ply - 1].current_move;
        if m.is_ok() {
            m.from_to()
        } else {
            0
        }
    }

    /// Static evaluation corrected by the learned search-vs-eval error.
    pub fn adjusted_eval(&self, pos: &Position, raw: Value, prev_move_idx: usize) -> (r: Value)
        requires
            self.wf(),
            pos.wf(),
            -40_000 <= raw <= 40_000,
            prev_move_idx < LASTMOVE_CORRHIST_SIZE,
        ensures
            r == clamped(
                raw + correction(self.hist, pos@, prev_move_idx as int),
                -VALUE_EVAL_MAX,
                VALUE_EVAL_MAX as int,
            ),
            -VALUE_EVAL_MAX <= r <= VALUE_EVAL_MAX,
    {
        let us = pos.side_to_move();
        let them = us.flip();
        let nonpawn = self.hist.nonpawn_corr[correction_index(us, pos.nonpawn_key(us))] as i64;
        // The opponent's slot holds corrections learned with them to move: negated.
        let opp = self.hist.nonpawn_corr[correction_index(them, pos.nonpawn_key(them))] as i64;
        let minor = self.hist.minor_corr[correction_index(us, pos.minor_key())] as i64;
        let mat = self.hist.material_corr[correction_index(us, pos.material_key())] as i64;
        let lm = self.hist.lastmove_corr[prev_move_idx] as i64;
        assert(-32768 <= nonpawn <= 32768 && -32768 <= opp <= 32768 && -32768 <= minor <= 32768
            && -32768 <= mat <= 32768 && -32768 <= lm <= 32768);
        let sum: i64 = nonpawn * CORR_W_NONPAWN - opp * CORR_W_OPP_NONPAWN + minor
            * CORR_W_MINOR + mat * CORR_W_MATERIAL + lm * CORR_W_LASTMOVE;
        clamp(raw as i64 + div_toward_zero(sum, 25600), -VALUE_EVAL_MAX, VALUE_EVAL_MAX)
    }

    /// Teaches the corrections the difference between a search result and the static
    /// evaluation, the more the deeper the search.
    pub(crate) fn update_correction_history(
        &mut self,
        pos: &Position,
        depth: i32,
        static_eval: Value,
        score: Value,
        prev_move_idx: usize,
    )
        requires
            old(self).wf(),
            pos.wf(),
            0 <= depth <= 1000,
            -50_000 <= static_eval <= 50_000,
            -50_000 <= score <= 50_000,
            prev_move_idx < LASTMOVE_CORRHIST_SIZE,
        ensures
            final(self).wf(),
            final(self).only_learned(old(self)),
            final(self).hist@ == corrected(
                old(self).hist@,
                pos@,
                depth as int,
                static_eval as int,
                score as int,
                prev_move_idx as int,
            ),
    {
        let us = pos.side_to_move();
        proof {
            assert(0 <= depth * depth <= 1_000_000) by (nonlinear_arith)
                requires
                    0 <= depth <= 1000,
            ;
        }
        let w: i64 = clamp((depth * depth + 2 * depth + 1) as i64, 1, 128) as i64;
        let scaled: i64 = (score as i64 - static_eval as i64) * CORRHIST_GRAIN as i64;
        blend(
            &mut self.hist.nonpawn_corr,
            correction_index(us, pos.nonpawn_key(us)),
            scaled,
            w,
        );
        blend(&mut self.hist.material_corr, correction_index(us, pos.material_key()), scaled, w);
        blend(&mut self.hist.minor_corr, correction_index(us, pos.minor_key()), scaled, w);
        blend(
            &mut self.hist.lastmove_corr,
            prev_move_idx,
            scaled,
            if w < 64 {
                w
            } else {
                64
            },
        );
    }

    // Stack context

    /// Notes the move made from `ply`.
    pub(crate) fn set_ctx(
        &mut self,
        ply: usize,
        m: Move,
        pc: Piece,
        in_check: bool,
        is_capture: bool,
    )
        requires
            old(self).wf(),
            ply < STACK_SIZE,
            pc.0 <= 12,
        ensures
            final(self).wf(),
            *final(self) == (Searcher { stack: final(self).stack, ..*old(self) }),
            final(self).stack@ == old(self).stack@.update(
                ply as int,
                StackEntry {
                    current_move: m,
                    moved_piece: pc,
                    in_check,
                    is_capture,
                    ..old(self).stack@[ply as int]
                },
            ),
    {
        let mut e = self.stack[ply];
        e.current_move = m;
        e.moved_piece = pc;
        e.in_check = in_check;
        e.is_capture = is_capture;
        self.stack.set(ply, e);
    }

    /// Notes a null move from `ply`.
    pub(crate) fn set_null_ctx(&mut self, ply: usize)
        requires
            old(self).wf(),
            ply < STACK_SIZE,
        ensures
            final(self).wf(),
            *final(self) == (Searcher { stack: final(self).stack, ..*old(self) }),
            final(self).stack@ == old(self).stack@.update(
                ply as int,
                StackEntry {
                    current_move: Move::null(),
                    moved_piece: Piece(12),
                    in_check: false,
                    is_capture: false,
                    ..old(self).stack@[ply as int]
                },
            ),
    {
        self.set_ctx(ply, Move::null(), Piece(12), false, false);
    }

    /// The line of `ply` becomes `m` followed by the line of the next ply.
    pub(crate) fn update_pv(&mut self, ply: usize, m: Move)
        requires
            old(self).wf(),
            ply + 1 < LINES,
        ensures
            final(self).wf(),
            *final(self) == (Searcher { lines: final(self).lines, ..*old(self) }),
            final(self).lines@.len() == LINES,
            final(self).lines@[ply as int]@ == seq![m] + old(self).lines@[ply + 1]@,
            forall|p: int|
                0 <= p < LINES && p != ply ==> #[trigger] final(self).lines@[p]
                    == old(self).lines@[p],
    {
        let mut line: Vec<Move> = Vec::new();
        line.push(m);
        let n = self.lines[ply + 1].len();
        let ghost child = self.lines@[ply + 1]@;
        let mut i: usize = 0;
        assert(line@ =~= seq![m] + child.subrange(0, 0));
        while i < n
            invariant
                i <= n,
                *self == *old(self),
                self.lines@.len() == LINES,
                ply + 1 < LINES,
                child == self.lines@[ply + 1]@,
                n == child.len(),
                line@ == seq![m] + child.subrange(0, i as int),
            decreases n - i,
        {
            line.push(self.lines[ply + 1][i]);
            i += 1;
            assert(line@ =~= seq![m] + child.subrange(0, i as int));
        }
        assert(child.subrange(0, n as int) =~= child);
        self.lines.set(ply, line);
    }

    /// Empties the line of a ply.
    pub(crate) fn clear_pv(&mut self, ply: usize)
        requires
            old(self).wf(),
            ply < LINES,
        ensures
            final(self).wf(),
            *final(self) == (Searcher { lines: final(self).lines, ..*old(self) }),
            final(self).lines@.len() == LINES,
            final(self).lines@[ply as int]@.len() == 0,
            forall|p: int|
                0 <= p < LINES && p != ply ==> #[trigger] final(self).lines@[p]
                    == old(self).lines@[p],
    {
        let line: Vec<Move> = Vec::new();
        self.lines.set(ply, line);
    }

    /// Geometric shuffle detection: this move undoes the move two plies back, which undid
    /// the one four plies back.
    pub(crate) fn is_shuffling(&self, pos: &Position, m: Move, ply: usize, is_capture: bool) -> (r:
        bool)
        requires
            self.wf(),
            pos.wf(),
            ply < STACK_SIZE,
        ensures
            r == self.seen().shuffles(pos@, m, ply, is_capture),
    {
        if pos.moved_piece(m).piece_type() == PieceType::Pawn || is_capture || pos.rule50_count()
            < 10 {
            return false;
        }
        if pos.plies_from_null() <= 6 || ply < 20 {
            return false;
        }
        let m2 = self.stack[ply - 2].current_move;
        let m4 = self.stack[ply - 4].current_move;
        m2.is_ok() && m4.is_ok() && m.from_sq() == m2.to_sq() && m2.from_sq() == m4.to_sq()
    }

    /// Polls the host every 4096 nodes. Returns true once stopped.
    pub fn check_time<H: Host>(&mut self, host: &mut H) -> (r: bool)
        requires
            old(self).wf(),
        ensures
            final(self).wf(),
            *final(self) == (Searcher {
                stopped: final(self).stopped,
                journal: final(self).journal,
                ..*old(self)
            }),
            r == final(self).stopped,
            if old(self).nodes % 4096 != 0 {
                *final(self) == *old(self)
            } else {
                exists|stop: bool|
                    final(self).journal@ == old(self).journal@.push(
                        Event::Polled { nodes: old(self).nodes, stop },
                    ) && r == (old(self).stopped || stop)
            },
            extends(old(self).journal@, final(self).journal@),
            r && !old(self).stopped ==> old(self).nodes % 4096 == 0 && told_to_stop(
                final(self).journal@,
                old(self).journal@.len() as int,
            ),
    {
        let ghost log = self.journal@;
        if self.nodes % 4096 != 0 {
            return self.stopped;
        }
        if self.journal.poll(host, self.nodes) {
            self.stopped = true;
            proof {
                assert(tells_to_stop(self.journal@[log.len() as int]));
            }
        }
        self.stopped
    }

    /// Base reduction for a depth and a move count.
    pub(crate) fn lmr_reduction(&self, depth: i32, moves: usize) -> (r: i32)
        requires
            self.wf(),
            depth < REDUCTION_DEPTHS,
        ensures
            0 <= r <= 255,
            r == (if depth <= 0 || moves == 0 {
                0
            } else {
                self.reductions@[depth * 513 + (if moves < 512 {
                    moves as int
                } else {
                    512
                })] as int
            }),
    {
        if depth <= 0 || moves == 0 {
            return 0;
        }
        let n: usize = if moves < 512 {
            moves
        } else {
            512
        };
        self.reductions[depth as usize * 513 + n] as i32
    }
}

} // verus!
