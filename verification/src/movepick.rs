//! Staged move generation: hash move, good captures, killers, quiets (history ordered, good
//! before bad), bad captures. Evasions and ProbCut have their own sequences. Later stages
//! generate nothing if the search cuts off first.

use vstd::multiset::group_multiset_axioms;
use vstd::prelude::*;
use vstd::seq_lib::group_to_multiset_ensures;

use crate::history::{counter_index, Histories};
use crate::movegen;
use crate::movegen::candidates;
use crate::moves::{
    adds, canonical, capture_moves, is_canonical, lemma_adds_contains, quiet_moves,
};
use crate::movescore::{
    capture_score, evasion_score, quiet_score, score_capture, score_evasion, score_quiet,
    OrderContext,
};
use crate::ordering::{falling, occurs, partial_sort, rearranged, sort_range, ScoredMove};
use crate::params::{GOOD_CAPTURE_SEE, GOOD_QUIET_THRESHOLD, QUIET_SORT_LIMIT_PER_DEPTH};
use crate::position::Position;
use crate::rules::PosView;
use crate::searcher::{Searcher, STACK_SIZE};
use crate::types::{Move, MoveList, PieceType, Value};
use crate::variant::Variant;

verus! {

#[derive(Clone, Copy, PartialEq, Eq, Debug, Structural)]
pub enum Stage {
    MainTT,
    CaptureInit,
    GoodCapture,
    Killer1,
    Killer2,
    QuietInit,
    GoodQuiet,
    BadCapture,
    BadQuiet,
    EvasionTT,
    EvasionInit,
    Evasion,
    ProbCutTT,
    ProbCutInit,
    ProbCut,
    Done,
}

impl Stage {
    /// Stages still to come, at most.
    pub open spec fn rank(self) -> nat {
        match self {
            Stage::MainTT => 9,
            Stage::CaptureInit => 8,
            Stage::GoodCapture => 7,
            Stage::Killer1 => 6,
            Stage::Killer2 => 5,
            Stage::QuietInit => 4,
            Stage::GoodQuiet => 3,
            Stage::BadCapture => 2,
            Stage::BadQuiet => 1,
            Stage::EvasionTT => 3,
            Stage::EvasionInit => 2,
            Stage::Evasion => 1,
            Stage::ProbCutTT => 3,
            Stage::ProbCutInit => 2,
            Stage::ProbCut => 1,
            Stage::Done => 0,
        }
    }
}

pub struct MovePicker {
    pub stage: Stage,
    pub tt_move: Move,
    pub moves: Vec<ScoredMove>,
    pub cur: usize,
    pub end_bad_captures: usize,
    pub end_captures: usize,
    pub end_generated: usize,
    pub threshold: Value,
    pub context: OrderContext,
    pub skip_quiets: bool,
}

/// The move stands somewhere from `lo` to `hi`.
pub open spec fn lists(s: Seq<ScoredMove>, lo: int, hi: int, m: Move) -> bool {
    exists|i: int| lo <= i < hi && (#[trigger] s[i]).m == m
}

/// The move stands somewhere from `lo` to `hi` with a low score.
pub open spec fn lists_low(s: Seq<ScoredMove>, lo: int, hi: int, m: Move) -> bool {
    exists|i: int|
        lo <= i < hi && (#[trigger] s[i]).m == m && s[i].score <= GOOD_QUIET_THRESHOLD
}

/// Scores fall from `lo` to `hi` as far as they reach the limit; those below it come last.
pub open spec fn tiered(s: Seq<ScoredMove>, lo: int, hi: int, limit: int) -> bool {
    forall|i: int, j: int|
        lo <= i < j < hi ==> ahead((#[trigger] s[i]).score, (#[trigger] s[j]).score, limit)
}

/// A score that may stand before another, where only scores from the limit on are sorted.
pub open spec fn ahead(a: i32, b: i32, limit: int) -> bool {
    a >= b || (a < limit && b < limit)
}

/// No move stands twice.
pub open spec fn distinct(s: Seq<ScoredMove>) -> bool {
    forall|i: int, j: int| 0 <= i < j < s.len() ==> (#[trigger] s[i]).m != (#[trigger] s[j]).m
}

impl MovePicker {
    /// A quiet move other than the hash move.
    pub open spec fn quiet_left(&self, v: PosView, m: Move) -> bool {
        quiet_moves(v).contains(m) && m != self.tt_move
    }

    /// The move is still to come, quiet moves not being skipped.
    pub open spec fn due(&self, v: PosView, m: Move) -> bool {
        let s = self.moves@;
        let k = self.context.killers;
        match self.stage {
            Stage::MainTT => m == self.tt_move || capture_moves(v).contains(m) || quiet_moves(
                v,
            ).contains(m),
            Stage::CaptureInit => m != self.tt_move && (capture_moves(v).contains(m)
                || quiet_moves(v).contains(m)),
            Stage::GoodCapture => lists(s, self.cur as int, self.end_captures as int, m) || lists(
                s,
                0,
                self.end_bad_captures as int,
                m,
            ) || self.quiet_left(v, m),
            Stage::Killer1 => lists(s, 0, self.end_bad_captures as int, m) || self.quiet_left(v, m),
            Stage::Killer2 => lists(s, 0, self.end_bad_captures as int, m) || (self.quiet_left(v, m)
                && m != k.0),
            Stage::QuietInit => lists(s, 0, self.end_bad_captures as int, m) || (self.quiet_left(
                v,
                m,
            ) && m != k.0 && m != k.1),
            Stage::GoodQuiet => lists(s, 0, self.end_bad_captures as int, m) || lists(
                s,
                self.cur as int,
                self.end_generated as int,
                m,
            ) || lists_low(s, self.end_captures as int, self.cur as int, m),
            Stage::BadCapture => lists(s, self.cur as int, self.end_bad_captures as int, m)
                || lists_low(s, self.end_captures as int, self.end_generated as int, m),
            Stage::BadQuiet => lists_low(s, self.cur as int, self.end_generated as int, m),
            Stage::EvasionTT => m == self.tt_move || candidates(v).contains(m),
            Stage::EvasionInit => candidates(v).contains(m) && m != self.tt_move,
            Stage::Evasion => lists(s, self.cur as int, self.end_generated as int, m),
            Stage::ProbCutTT => m == self.tt_move || (capture_moves(v).contains(m) && v.see_value(m)
                >= self.threshold),
            Stage::ProbCutInit => m != self.tt_move && capture_moves(v).contains(m) && v.see_value(m)
                >= self.threshold,
            Stage::ProbCut => lists(s, self.cur as int, self.end_captures as int, m) && v.see_value(
                m,
            ) >= self.threshold,
            Stage::Done => false,
        }
    }

    /// The same scored moves, in whatever order.
    pub open spec fn reorders(&self, o: &MovePicker) -> bool {
        &&& self.moves@.len() == o.moves@.len()
        &&& forall|i: int|
            0 <= i < self.moves@.len() ==> occurs(
                o.moves@,
                0,
                o.moves@.len() as int,
                #[trigger] self.moves@[i],
            )
    }

    /// Quiet moves below this score are left unsorted.
    pub open spec fn sort_limit(&self) -> int {
        -QUIET_SORT_LIMIT_PER_DEPTH * self.context.depth
    }

    /// The captures parked for later lose material and stand best first.
    pub open spec fn parked(&self, v: PosView) -> bool {
        &&& falling(self.moves@, 0, self.end_bad_captures as int)
        &&& forall|i: int|
            0 <= i < self.end_bad_captures ==> v.see_value((#[trigger] self.moves@[i]).m)
                < GOOD_CAPTURE_SEE
    }

    /// Score a move is given when it is generated.
    pub open spec fn price(&self, h: Histories, v: PosView, m: Move) -> int {
        if v.st().checkers != 0 {
            evasion_score(h, self.context, v, m)
        } else if capture_moves(v).contains(m) {
            capture_score(h, v, m)
        } else {
            quiet_score(h, self.context, v, m)
        }
    }

    /// Every move listed has the score it had before or, if it is new, the one the
    /// histories give it.
    pub open spec fn priced(&self, o: &MovePicker, h: Histories, v: PosView) -> bool {
        forall|i: int|
            0 <= i < self.moves@.len() ==> occurs(
                o.moves@,
                0,
                o.moves@.len() as int,
                #[trigger] self.moves@[i],
            ) || self.moves@[i].score == self.price(h, v, self.moves@[i].m)
    }

    /// The picker has just handed out `m` in its turn: the hash move, the best capture left
    /// that does not lose material, a killer, the best quiet move left of good score, the
    /// best losing capture left, a quiet move of bad score, the best evasion left.
    pub open spec fn in_turn(&self, v: PosView, m: Move) -> bool {
        let s = self.moves@;
        let c = self.cur - 1;
        match self.stage {
            Stage::CaptureInit | Stage::EvasionInit | Stage::ProbCutInit => m == self.tt_move,
            Stage::GoodCapture => {
                &&& 0 <= c && s[c].m == m
                &&& v.see_value(m) >= GOOD_CAPTURE_SEE
                &&& forall|i: int|
                    self.cur <= i < self.end_captures ==> (#[trigger] s[i]).score <= s[c].score
            },
            Stage::Killer2 => m == self.context.killers.0,
            Stage::QuietInit => m == self.context.killers.1,
            Stage::GoodQuiet => {
                &&& 0 <= c && s[c].m == m
                &&& s[c].score > GOOD_QUIET_THRESHOLD
                &&& forall|i: int|
                    self.cur <= i < self.end_generated ==> ahead(
                        s[c].score,
                        (#[trigger] s[i]).score,
                        self.sort_limit(),
                    )
            },
            Stage::BadCapture => {
                &&& 0 <= c && s[c].m == m
                &&& forall|i: int|
                    self.cur <= i < self.end_bad_captures ==> (#[trigger] s[i]).score <= s[c].score
            },
            Stage::BadQuiet => {
                &&& 0 <= c && s[c].m == m
                &&& s[c].score <= GOOD_QUIET_THRESHOLD
                &&& forall|i: int|
                    self.cur <= i < self.end_generated ==> ahead(
                        s[c].score,
                        (#[trigger] s[i]).score,
                        self.sort_limit(),
                    )
            },
            Stage::Evasion => {
                &&& 0 <= c && s[c].m == m
                &&& forall|i: int|
                    self.cur <= i < self.end_generated ==> (#[trigger] s[i]).score <= s[c].score
            },
            Stage::ProbCut => {
                &&& 0 <= c && s[c].m == m
                &&& v.see_value(m) >= self.threshold
                &&& forall|i: int|
                    self.cur <= i < self.end_captures ==> (#[trigger] s[i]).score <= s[c].score
            },
            _ => false,
        }
    }

    /// The captures have been generated and nothing else.
    pub open spec fn captures_ready(&self, v: PosView) -> bool {
        &&& self.end_captures == self.moves@.len()
        &&& self.end_bad_captures <= self.end_captures
        &&& forall|i: int|
            0 <= i < self.moves@.len() ==> capture_moves(v).contains((#[trigger] self.moves@[i]).m)
    }

    /// Captures and quiet moves have been generated.
    pub open spec fn quiets_ready(&self, v: PosView) -> bool {
        &&& self.end_bad_captures <= self.end_captures <= self.moves@.len()
        &&& self.end_generated <= self.moves@.len()
        &&& forall|i: int|
            0 <= i < self.end_captures ==> capture_moves(v).contains(
                (#[trigger] self.moves@[i]).m,
            )
        &&& forall|i: int|
            self.end_captures <= i < self.end_generated ==> quiet_moves(v).contains(
                (#[trigger] self.moves@[i]).m,
            )
        &&& tiered(
            self.moves@,
            self.end_captures as int,
            self.end_generated as int,
            self.sort_limit(),
        )
    }

    /// What holds between calls.
    pub open spec fn wf(&self, v: PosView) -> bool {
        &&& self.context.wf()
        &&& distinct(self.moves@)
        &&& match self.stage {
            Stage::MainTT => {
                &&& self.moves@.len() == 0
                &&& v.st().checkers == 0
                &&& v.candidate(self.tt_move)
            },
            Stage::CaptureInit => self.moves@.len() == 0 && v.st().checkers == 0,
            Stage::GoodCapture => {
                &&& self.captures_ready(v)
                &&& self.end_bad_captures <= self.cur <= self.end_captures
                &&& v.st().checkers == 0
                &&& self.parked(v)
                &&& falling(self.moves@, self.cur as int, self.end_captures as int)
                &&& forall|i: int, j: int|
                    0 <= i < self.end_bad_captures && self.cur <= j < self.end_captures ==> (
                    #[trigger] self.moves@[i]).score >= (#[trigger] self.moves@[j]).score
            },
            Stage::Killer1 | Stage::Killer2 | Stage::QuietInit => {
                &&& self.captures_ready(v)
                &&& v.st().checkers == 0
                &&& self.end_generated == 0
                &&& self.parked(v)
            },
            Stage::GoodQuiet => self.quiets_ready(v) && self.parked(v) && self.end_captures
                <= self.cur <= self.end_generated && v.st().checkers == 0,
            Stage::BadCapture => self.quiets_ready(v) && self.parked(v) && self.cur
                <= self.end_bad_captures && v.st().checkers == 0,
            Stage::BadQuiet => self.quiets_ready(v) && self.end_captures <= self.cur
                && v.st().checkers == 0,
            Stage::EvasionTT => {
                &&& self.moves@.len() == 0
                &&& v.st().checkers != 0
                &&& v.candidate(self.tt_move)
            },
            Stage::EvasionInit => self.moves@.len() == 0 && v.st().checkers != 0,
            Stage::Evasion => {
                &&& self.cur <= self.end_generated == self.moves@.len()
                &&& forall|i: int|
                    0 <= i < self.moves@.len() ==> candidates(v).contains(
                        (#[trigger] self.moves@[i]).m,
                    )
                &&& falling(self.moves@, self.cur as int, self.end_generated as int)
                &&& v.st().checkers != 0
            },
            Stage::ProbCutTT => {
                &&& self.moves@.len() == 0
                &&& v.st().checkers == 0
                &&& v.candidate(self.tt_move)
            },
            Stage::ProbCutInit => self.moves@.len() == 0 && v.st().checkers == 0,
            Stage::ProbCut => self.captures_ready(v) && self.cur <= self.end_captures
                && v.st().checkers == 0 && falling(
                self.moves@,
                self.cur as int,
                self.end_captures as int,
            ),
            Stage::Done => true,
        }
        &&& self.stage is GoodCapture ==> self.end_generated == 0
    }

    /// What is fixed when the picker is made.
    pub open spec fn same_use(&self, o: &MovePicker) -> bool {
        &&& self.tt_move == o.tt_move
        &&& self.threshold == o.threshold
        &&& self.context == o.context
        &&& self.skip_quiets == o.skip_quiets
    }

    /// Moves the stage still has in store.
    pub open spec fn left(&self) -> int {
        match self.stage {
            Stage::GoodCapture => self.end_captures - self.cur,
            Stage::GoodQuiet => self.end_generated - self.cur,
            Stage::BadCapture => self.end_bad_captures - self.cur,
            Stage::BadQuiet => if self.cur < self.end_generated {
                self.end_generated - self.cur
            } else {
                0
            },
            Stage::Evasion => self.end_generated - self.cur,
            Stage::ProbCut => self.end_captures - self.cur,
            _ => 0,
        }
    }

    /// Nearer to the end than `o`.
    pub open spec fn past(&self, o: &MovePicker) -> bool {
        self.stage.rank() < o.stage.rank() || (self.stage.rank() == o.stage.rank() && 0
            <= self.left() < o.left())
    }

    /// A quiet move that may be left out, quiets being skipped.
    pub open spec fn waived(&self, v: PosView, m: Move) -> bool {
        self.skip_quiets && v.st().checkers == 0 && quiet_moves(v).contains(m)
    }

    /// Nothing more is due than before, and nothing less but quiet moves that are skipped.
    pub open spec fn continues(&self, o: &MovePicker, v: PosView) -> bool {
        &&& self.same_use(o)
        &&& self.past(o) || (self.stage.rank() == o.stage.rank() && self.left() == o.left())
        &&& forall|m: Move| #[trigger] self.due(v, m) ==> o.due(v, m)
        &&& forall|m: Move| #[trigger] o.due(v, m) && !self.waived(v, m) ==> self.due(v, m)
    }

    /// The picker after handing out `m`.
    pub open spec fn handed_out(&self, o: &MovePicker, v: PosView, m: Move) -> bool {
        &&& self.same_use(o)
        &&& self.past(o)
        &&& v.candidate(m)
        &&& m != self.tt_move ==> canonical(m) && !self.waived(v, m)
        &&& o.due(v, m)
        &&& !self.due(v, m)
        &&& forall|x: Move| #[trigger] self.due(v, x) ==> o.due(v, x)
        &&& forall|x: Move|
            x != m && #[trigger] o.due(v, x) && !self.waived(v, x) ==> self.due(v, x)
    }

    /// The picker after it was asked for a move and gave `r`.
    pub open spec fn drawn_from(&self, o: &MovePicker, v: PosView, r: Option<Move>) -> bool {
        &&& o.stage is MainTT || o.stage is EvasionTT || o.stage is ProbCutTT ==> r == Some(
            o.tt_move,
        )
        &&& match r {
            Some(m) => self.handed_out(o, v, m) && self.in_turn(v, m),
            None => self.same_use(o) && forall|m: Move| #[trigger]
                o.due(v, m) ==> o.waived(v, m),
        }
    }

    /// Main-search and evasion picker. An invalid hash move is dropped entirely so the
    /// later stages do not skip a real move they think was already tried.
    pub fn new(tt_move: Move, ply: usize, depth: i32, searcher: &Searcher, pos: &Position) -> (r:
        MovePicker)
        requires
            searcher.wf(),
            pos.wf(),
            ply < STACK_SIZE,
            -603_225 <= depth <= 603_225,
        ensures
            r.wf(pos@),
            !r.skip_quiets,
            r.context.ply == ply,
            r.context.depth == depth,
            r.context.killers == searcher.stack@[ply as int].killers,
            r.tt_move == (if pos@.candidate(tt_move) {
                tt_move
            } else {
                Move(0)
            }),
            r.stage == (if pos@.in_check() {
                if pos@.candidate(tt_move) {
                    Stage::EvasionTT
                } else {
                    Stage::EvasionInit
                }
            } else if pos@.candidate(tt_move) {
                Stage::MainTT
            } else {
                Stage::CaptureInit
            }),
            forall|m: Move| #[trigger]
                r.due(pos@, m) <==> candidates(pos@).contains(m) || (m == tt_move
                    && pos@.candidate(m)),
    {
        let valid = tt_move.is_some() && pos.pseudo_legal(tt_move);
        let tt = if valid {
            tt_move
        } else {
            Move::none()
        };
        let stage = if pos.in_check() {
            if valid {
                Stage::EvasionTT
            } else {
                Stage::EvasionInit
            }
        } else if valid {
            Stage::MainTT
        } else {
            Stage::CaptureInit
        };
        let r = MovePicker::init(tt, ply, depth, 0, searcher, stage);
        proof {
            lemma_no_none(pos@);
            lemma_candidates(pos@);
        }
        r
    }

    /// ProbCut picker: captures whose exchange value reaches `threshold`.
    pub fn new_probcut(tt_move: Move, threshold: Value, searcher: &Searcher, pos: &Position) -> (r:
        MovePicker)
        requires
            searcher.wf(),
            pos.wf(),
            pos@.st().checkers == 0,
        ensures
            r.wf(pos@),
            r.tt_move == (if pos@.candidate(tt_move) && pos@.in_capture_stage(tt_move) {
                tt_move
            } else {
                Move(0)
            }),
            r.stage == (if pos@.candidate(tt_move) && pos@.in_capture_stage(tt_move) {
                Stage::ProbCutTT
            } else {
                Stage::ProbCutInit
            }),
            forall|m: Move| #[trigger]
                r.due(pos@, m) ==> pos@.candidate(m) && (m == tt_move || pos@.see_value(m)
                    >= threshold),
            forall|m: Move|
                capture_moves(pos@).contains(m) && pos@.see_value(m) >= threshold
                    ==> #[trigger] r.due(pos@, m),
            !r.skip_quiets,
    {
        let valid = tt_move.is_some() && pos.is_capture_stage(tt_move)
            && pos.pseudo_legal(tt_move);
        let tt = if valid {
            tt_move
        } else {
            Move::none()
        };
        let stage = if valid {
            Stage::ProbCutTT
        } else {
            Stage::ProbCutInit
        };
        let r = MovePicker::init(tt, 0, 0, threshold, searcher, stage);
        proof {
            lemma_no_none(pos@);
            lemma_candidates(pos@);
        }
        r
    }

    fn init(
        tt_move: Move,
        ply: usize,
        depth: i32,
        threshold: Value,
        searcher: &Searcher,
        stage: Stage,
    ) -> (r: MovePicker)
        requires
            searcher.wf(),
            ply < STACK_SIZE,
            -603_225 <= depth <= 603_225,
        ensures
            r.tt_move == tt_move,
            r.stage == stage,
            r.moves@.len() == 0,
            r.threshold == threshold,
            r.context.wf(),
            r.context.ply == ply,
            r.context.depth == depth,
            r.context.killers == searcher.stack@[ply as int].killers,
            !r.skip_quiets,
            r.end_generated == 0,
    {
        let countermove = if ply > 0 {
            let prev = searcher.stack[ply - 1];
            if prev.current_move.is_ok() && prev.moved_piece.is_some() {
                searcher.hist.countermoves[counter_index(
                    prev.moved_piece,
                    prev.current_move.to_sq() as usize,
                )]
            } else {
                Move::none()
            }
        } else {
            Move::none()
        };
        MovePicker {
            stage,
            tt_move,
            moves: Vec::new(),
            cur: 0,
            end_bad_captures: 0,
            end_captures: 0,
            end_generated: 0,
            threshold,
            context: OrderContext {
                ply,
                depth,
                killers: searcher.stack[ply].killers,
                countermove,
                cont_keys: searcher.cont_keys(ply),
            },
            skip_quiets: false,
        }
    }

    /// No quiet moves from here on.
    pub fn skip_quiet_moves(&mut self)
        ensures
            *final(self) == (MovePicker { skip_quiets: true, ..*old(self) }),
    {
        self.skip_quiets = true;
    }

    fn generate_captures(&mut self, pos: &Position, searcher: &Searcher)
        requires
            searcher.wf(),
            pos.wf(),
            pos@.st().checkers == 0,
            old(self).moves@.len() == 0,
        ensures
            *final(self) == (MovePicker { moves: final(self).moves, ..*old(self) }),
            distinct(final(self).moves@),
            forall|i: int|
                0 <= i < final(self).moves@.len() ==> capture_moves(pos@).contains(
                    (#[trigger] final(self).moves@[i]).m,
                ) && final(self).moves@[i].m != old(self).tt_move && final(self).moves@[i].score
                    == capture_score(searcher.hist, pos@, final(self).moves@[i].m),
            forall|m: Move| #[trigger]
                capture_moves(pos@).contains(m) && m != old(self).tt_move ==> lists(
                    final(self).moves@,
                    0,
                    final(self).moves@.len() as int,
                    m,
                ),
    {
        let ghost v = pos@;
        let mut list = MoveList::new();
        movegen::generate_captures(pos, &mut list);
        let ghost l = list@;
        proof {
            lemma_adds_contains(l, capture_moves(v));
        }
        let mut i: usize = 0;
        while i < list.len()
            invariant
                i <= l.len(),
                list@ == l,
                l.no_duplicates(),
                v == pos@,
                pos.wf(),
                searcher.wf(),
                forall|m: Move| #[trigger] l.contains(m) <==> capture_moves(v).contains(m),
                *self == (MovePicker { moves: self.moves, ..*old(self) }),
                distinct(self.moves@),
                forall|k: int|
                    0 <= k < self.moves@.len() ==> capture_moves(v).contains(
                        (#[trigger] self.moves@[k]).m,
                    ) && self.moves@[k].m != self.tt_move && self.moves@[k].score == capture_score(
                        searcher.hist,
                        v,
                        self.moves@[k].m,
                    ),
                forall|k: int|
                    0 <= k < self.moves@.len() ==> exists|j: int|
                        0 <= j < i && l[j] == (#[trigger] self.moves@[k]).m,
                forall|j: int|
                    0 <= j < i && #[trigger] l[j] != self.tt_move ==> lists(
                        self.moves@,
                        0,
                        self.moves@.len() as int,
                        l[j],
                    ),
            decreases l.len() - i,
        {
            let m = list.get(i);
            assert(l.contains(m));
            if m != self.tt_move {
                let score = score_capture(pos, searcher, m);
                let ghost before = self.moves@;
                self.moves.push(ScoredMove { m, score });
                proof {
                    lemma_lists_push(before, ScoredMove { m, score });
                    assert(self.moves@ =~= before.push(ScoredMove { m, score }));
                }
            }
            i += 1;
        }
        proof {
            assert forall|m: Move| #[trigger]
                capture_moves(v).contains(m) && m != self.tt_move implies lists(
                self.moves@,
                0,
                self.moves@.len() as int,
                m,
            ) by {
                assert(l.contains(m));
                let j = choose|j: int| 0 <= j < l.len() && l[j] == m;
                assert(l[j] != self.tt_move);
            }
        }
    }

    fn generate_quiets(&mut self, pos: &Position, searcher: &Searcher)
        requires
            searcher.wf(),
            pos.wf(),
            pos@.st().checkers == 0,
            old(self).context.wf(),
            distinct(old(self).moves@),
            forall|i: int|
                0 <= i < old(self).moves@.len() ==> capture_moves(pos@).contains(
                    (#[trigger] old(self).moves@[i]).m,
                ),
        ensures
            *final(self) == (MovePicker { moves: final(self).moves, ..*old(self) }),
            distinct(final(self).moves@),
            old(self).moves@.len() <= final(self).moves@.len(),
            forall|i: int|
                0 <= i < old(self).moves@.len() ==> #[trigger] final(self).moves@[i]
                    == old(self).moves@[i],
            forall|i: int|
                old(self).moves@.len() <= i < final(self).moves@.len() ==> old(self).quiet_left(
                    pos@,
                    (#[trigger] final(self).moves@[i]).m,
                ) && final(self).moves@[i].m != old(self).context.killers.0
                    && final(self).moves@[i].m != old(self).context.killers.1
                    && final(self).moves@[i].score == quiet_score(
                    searcher.hist,
                    old(self).context,
                    pos@,
                    final(self).moves@[i].m,
                ),
            forall|m: Move| #[trigger]
                quiet_moves(pos@).contains(m) && m != old(self).tt_move && m
                    != old(self).context.killers.0 && m != old(self).context.killers.1 ==> lists(
                    final(self).moves@,
                    old(self).moves@.len() as int,
                    final(self).moves@.len() as int,
                    m,
                ),
    {
        let ghost v = pos@;
        let ghost s0 = self.moves@;
        let ghost k = self.context.killers;
        let mut list = MoveList::new();
        movegen::generate_quiets(pos, &mut list);
        let ghost l = list@;
        proof {
            lemma_adds_contains(l, quiet_moves(v));
        }
        let mut i: usize = 0;
        while i < list.len()
            invariant
                i <= l.len(),
                list@ == l,
                l.no_duplicates(),
                v == pos@,
                pos.wf(),
                searcher.wf(),
                k == self.context.killers,
                s0 == old(self).moves@,
                self.context.wf(),
                forall|m: Move| #[trigger] l.contains(m) <==> quiet_moves(v).contains(m),
                *self == (MovePicker { moves: self.moves, ..*old(self) }),
                distinct(self.moves@),
                s0.len() <= self.moves@.len(),
                forall|j: int| 0 <= j < s0.len() ==> #[trigger] self.moves@[j] == s0[j],
                forall|j: int|
                    0 <= j < s0.len() ==> capture_moves(v).contains((#[trigger] s0[j]).m),
                forall|j: int|
                    s0.len() <= j < self.moves@.len() ==> self.quiet_left(
                        v,
                        (#[trigger] self.moves@[j]).m,
                    ) && self.moves@[j].m != k.0 && self.moves@[j].m != k.1 && self.moves@[j].score
                        == quiet_score(searcher.hist, self.context, v, self.moves@[j].m),
                forall|j: int|
                    s0.len() <= j < self.moves@.len() ==> exists|x: int|
                        0 <= x < i && l[x] == (#[trigger] self.moves@[j]).m,
                forall|x: int|
                    0 <= x < i && #[trigger] l[x] != self.tt_move && l[x] != k.0 && l[x] != k.1
                        ==> lists(
                        self.moves@,
                        s0.len() as int,
                        self.moves@.len() as int,
                        l[x],
                    ),
            decreases l.len() - i,
        {
            let m = list.get(i);
            assert(l.contains(m));
            if m != self.tt_move && m != self.context.killers.0 && m != self.context.killers.1 {
                let score = score_quiet(pos, searcher, &self.context, m);
                let ghost before = self.moves@;
                self.moves.push(ScoredMove { m, score });
                proof {
                    let n = ScoredMove { m, score };
                    assert(self.moves@ =~= before.push(n));
                    lemma_disjoint(v);
                    assert forall|a: int, b: int|
                        0 <= a < b < self.moves@.len() implies (#[trigger] self.moves@[a]).m
                        != (#[trigger] self.moves@[b]).m by {
                        if b == before.len() {
                            if a < s0.len() {
                                assert(capture_moves(v).contains(s0[a].m));
                            } else {
                                assert(before[a].m == self.moves@[a].m);
                                let x = choose|x: int| 0 <= x < i && l[x] == before[a].m;
                                assert(l[x] != l[i as int]);
                            }
                        } else {
                            assert(before[a].m != before[b].m);
                        }
                    }
                    assert forall|x: int|
                        0 <= x < i + 1 && #[trigger] l[x] != self.tt_move && l[x] != k.0 && l[x]
                            != k.1 implies lists(
                        self.moves@,
                        s0.len() as int,
                        self.moves@.len() as int,
                        l[x],
                    ) by {
                        if x < i {
                            let j = choose|j: int|
                                s0.len() <= j < before.len() && (#[trigger] before[j]).m == l[x];
                            assert(self.moves@[j].m == l[x]);
                        } else {
                            assert(self.moves@[before.len() as int].m == l[x]);
                        }
                    }
                    assert forall|j: int| s0.len() <= j < self.moves@.len() implies exists|x: int|
                        0 <= x < i + 1 && l[x] == (#[trigger] self.moves@[j]).m by {
                        if j < before.len() {
                            assert(before[j].m == self.moves@[j].m);
                        } else {
                            assert(l[i as int] == self.moves@[j].m);
                        }
                    }
                }
            }
            i += 1;
        }
        proof {
            assert forall|m: Move| #[trigger]
                quiet_moves(v).contains(m) && m != self.tt_move && m != k.0 && m
                    != k.1 implies lists(
                self.moves@,
                s0.len() as int,
                self.moves@.len() as int,
                m,
            ) by {
                assert(l.contains(m));
                let j = choose|j: int| 0 <= j < l.len() && l[j] == m;
                assert(l[j] == m);
            }
        }
    }

    fn generate_evasions(&mut self, pos: &Position, searcher: &Searcher)
        requires
            searcher.wf(),
            pos.wf(),
            pos@.st().checkers != 0,
            old(self).context.wf(),
            old(self).moves@.len() == 0,
        ensures
            *final(self) == (MovePicker { moves: final(self).moves, ..*old(self) }),
            distinct(final(self).moves@),
            forall|i: int|
                0 <= i < final(self).moves@.len() ==> candidates(pos@).contains(
                    (#[trigger] final(self).moves@[i]).m,
                ) && final(self).moves@[i].m != old(self).tt_move && final(self).moves@[i].score
                    == evasion_score(
                    searcher.hist,
                    old(self).context,
                    pos@,
                    final(self).moves@[i].m,
                ),
            forall|m: Move| #[trigger]
                candidates(pos@).contains(m) && m != old(self).tt_move ==> lists(
                    final(self).moves@,
                    0,
                    final(self).moves@.len() as int,
                    m,
                ),
    {
        let ghost v = pos@;
        let mut list = MoveList::new();
        movegen::generate_evasions(pos, &mut list);
        let ghost l = list@;
        proof {
            lemma_adds_contains(l, candidates(v));
        }
        let mut i: usize = 0;
        while i < list.len()
            invariant
                i <= l.len(),
                list@ == l,
                l.no_duplicates(),
                v == pos@,
                pos.wf(),
                searcher.wf(),
                self.context.wf(),
                forall|m: Move| #[trigger] l.contains(m) <==> candidates(v).contains(m),
                *self == (MovePicker { moves: self.moves, ..*old(self) }),
                distinct(self.moves@),
                forall|k: int|
                    0 <= k < self.moves@.len() ==> candidates(v).contains(
                        (#[trigger] self.moves@[k]).m,
                    ) && self.moves@[k].m != self.tt_move && self.moves@[k].score == evasion_score(
                        searcher.hist,
                        self.context,
                        v,
                        self.moves@[k].m,
                    ),
                forall|k: int|
                    0 <= k < self.moves@.len() ==> exists|j: int|
                        0 <= j < i && l[j] == (#[trigger] self.moves@[k]).m,
                forall|j: int|
                    0 <= j < i && #[trigger] l[j] != self.tt_move ==> lists(
                        self.moves@,
                        0,
                        self.moves@.len() as int,
                        l[j],
                    ),
            decreases l.len() - i,
        {
            let m = list.get(i);
            assert(l.contains(m));
            if m != self.tt_move {
                let score = score_evasion(pos, searcher, &self.context, m);
                let ghost before = self.moves@;
                self.moves.push(ScoredMove { m, score });
                proof {
                    lemma_lists_push(before, ScoredMove { m, score });
                    assert(self.moves@ =~= before.push(ScoredMove { m, score }));
                }
            }
            i += 1;
        }
        proof {
            assert forall|m: Move| #[trigger]
                candidates(v).contains(m) && m != self.tt_move implies lists(
                self.moves@,
                0,
                self.moves@.len() as int,
                m,
            ) by {
                assert(l.contains(m));
                let j = choose|j: int| 0 <= j < l.len() && l[j] == m;
                assert(l[j] != self.tt_move);
            }
        }
    }
}

impl MovePicker {
    /// Hands out the hash move.
    fn step_tt(&mut self, Ghost(v): Ghost<PosView>) -> (m: Move)
        requires
            old(self).wf(v),
            old(self).stage is MainTT || old(self).stage is EvasionTT || old(self).stage is ProbCutTT,
        ensures
            final(self).wf(v),
            final(self).handed_out(old(self), v, m),
            final(self).in_turn(v, m),
            m == old(self).tt_move,
            final(self).moves@ == old(self).moves@,
    {
        proof {
            lemma_candidates(v);
        }
        self.stage = match self.stage {
            Stage::MainTT => Stage::CaptureInit,
            Stage::EvasionTT => Stage::EvasionInit,
            _ => Stage::ProbCutInit,
        };
        self.tt_move
    }

    /// Generates and sorts the captures.
    fn step_captures(&mut self, pos: &Position, searcher: &Searcher)
        requires
            searcher.wf(),
            pos.wf(),
            old(self).wf(pos@),
            old(self).stage is CaptureInit || old(self).stage is ProbCutInit,
        ensures
            final(self).wf(pos@),
            final(self).continues(old(self), pos@),
            final(self).stage.rank() < old(self).stage.rank(),
            final(self).priced(old(self), searcher.hist, pos@),
    {
        let ghost v = pos@;
        let ghost o = *self;
        self.generate_captures(pos, searcher);
        let ghost a = self.moves@;
        let n = self.moves.len();
        sort_range(&mut self.moves, 0, n);
        let ghost b = self.moves@;
        self.cur = 0;
        self.end_bad_captures = 0;
        self.end_captures = n;
        self.end_generated = 0;
        self.stage = match self.stage {
            Stage::CaptureInit => Stage::GoodCapture,
            _ => Stage::ProbCut,
        };
        proof {
            lemma_sorted(a, b, 0, n as int);
            assert forall|k: int| 0 <= k < b.len() implies capture_moves(v).contains(
                (#[trigger] b[k]).m,
            ) && b[k].m != o.tt_move && b[k].score == self.price(searcher.hist, v, b[k].m) by {
                assert(occurs(a, 0, n as int, b[k]));
                let j = choose|j: int| 0 <= j < n && #[trigger] a[j] == b[k];
                assert(capture_moves(v).contains(a[j].m));
            }
            assert forall|m: Move| #[trigger] self.due(v, m) implies o.due(v, m) by {
                if lists(b, 0, n as int, m) {
                    let k = choose|k: int| 0 <= k < n && (#[trigger] b[k]).m == m;
                    assert(capture_moves(v).contains(b[k].m));
                }
            }
            assert forall|m: Move| #[trigger] o.due(v, m) implies self.due(v, m) by {
                if capture_moves(v).contains(m) {
                    assert(lists(a, 0, n as int, m));
                    assert(lists(b, 0, n as int, m));
                }
            }
        }
    }

    /// The next capture that does not lose material; the others are parked at the front.
    fn step_good_capture(&mut self, pos: &Position) -> (r: Option<Move>)
        requires
            pos.wf(),
            old(self).wf(pos@),
            old(self).stage is GoodCapture,
        ensures
            final(self).wf(pos@),
            match r {
                Some(m) => final(self).handed_out(old(self), pos@, m) && final(self).in_turn(
                    pos@,
                    m,
                ),
                None => final(self).continues(old(self), pos@) && final(self).stage.rank()
                    < old(self).stage.rank(),
            },
            final(self).reorders(old(self)),
    {
        let ghost v = pos@;
        let ghost o = *self;
        while self.cur < self.end_captures
            invariant
                pos.wf(),
                v == pos@,
                self.wf(v),
                self.stage is GoodCapture,
                self.continues(&o, v),
                o.stage is GoodCapture,
                o == *old(self),
                self.reorders(&o),
            decreases self.end_captures - self.cur,
        {
            let ghost b = *self;
            let sm = self.moves[self.cur];
            self.cur = self.cur + 1;
            assert(capture_moves(v).contains(b.moves@[b.cur as int].m));
            if pos.see_ge(sm.m, GOOD_CAPTURE_SEE) {
                proof {
                    let m = sm.m;
                    lemma_capture_candidate(v, m);
                    lemma_disjoint(v);
                    assert(lists(b.moves@, b.cur as int, b.end_captures as int, m)) by {
                        assert(b.moves@[b.cur as int].m == m);
                    }
                    lemma_lists_once(b.moves@, b.cur as int, m);
                    assert(b.due(v, m));
                    assert(!self.due(v, m));
                    assert forall|x: Move| #[trigger] self.due(v, x) implies o.due(v, x) by {
                        lemma_lists_wider(
                            b.moves@,
                            self.cur as int,
                            self.end_captures as int,
                            b.cur as int,
                            x,
                        );
                        assert(b.due(v, x));
                    }
                    assert forall|x: Move| x != m && !self.waived(v, x) && #[trigger] o.due(v, x) implies self.due(v, x) by {
                        assert(b.due(v, x));
                        lemma_lists_without(
                            b.moves@,
                            b.cur as int,
                            b.end_captures as int,
                            x,
                        );
                    }
                }
                return Some(sm.m);
            }
            let e = self.end_bad_captures;
            let c = self.cur - 1;
            let x = self.moves[e];
            let y = self.moves[c];
            self.moves.set(e, y);
            self.moves.set(c, x);
            self.end_bad_captures = e + 1;
            proof {
                lemma_park(b.moves@, self.moves@, e as int, c as int);
                lemma_reordered(o, b, *self, e as int, c as int);
                assert(v.see_value(sm.m) < GOOD_CAPTURE_SEE);
                assert forall|m: Move| #[trigger] self.due(v, m) <==> b.due(v, m) by {
                    lemma_parked_due(
                        b.moves@,
                        self.moves@,
                        e as int,
                        c as int,
                        self.end_captures as int,
                        m,
                    );
                }
                assert forall|m: Move| #[trigger] self.due(v, m) implies o.due(v, m) by {
                    assert(b.due(v, m));
                }
                assert forall|m: Move| !self.waived(v, m) && #[trigger] o.due(v, m) implies self.due(v, m) by {
                    assert(b.due(v, m));
                }
            }
        }
        let ghost b = *self;
        self.stage = Stage::Killer1;
        proof {
            assert forall|m: Move| #[trigger] self.due(v, m) <==> b.due(v, m) by {}
            assert forall|m: Move| #[trigger] self.due(v, m) implies o.due(v, m) by {
                assert(b.due(v, m));
            }
            assert forall|m: Move| !self.waived(v, m) && #[trigger] o.due(v, m) implies self.due(v, m) by {
                assert(b.due(v, m));
            }
        }
        None
    }

    /// A killer move, if it is a quiet move here.
    fn step_killer(&mut self, pos: &Position) -> (r: Option<Move>)
        requires
            pos.wf(),
            old(self).wf(pos@),
            old(self).stage is Killer1 || old(self).stage is Killer2,
        ensures
            final(self).wf(pos@),
            match r {
                Some(m) => final(self).handed_out(old(self), pos@, m) && final(self).in_turn(
                    pos@,
                    m,
                ),
                None => final(self).continues(old(self), pos@) && final(self).stage.rank()
                    < old(self).stage.rank(),
            },
            final(self).moves@ == old(self).moves@,
    {
        let ghost v = pos@;
        let ghost o = *self;
        let first = match self.stage {
            Stage::Killer1 => true,
            _ => false,
        };
        let k = if first {
            self.context.killers.0
        } else {
            self.context.killers.1
        };
        self.stage = if first {
            Stage::Killer2
        } else {
            Stage::QuietInit
        };
        proof {
            lemma_candidates(v);
            lemma_disjoint(v);
        }
        if self.skip_quiets {
            return None;
        }
        // In antichess a queen promotion that takes nothing is a quiet move.
        let captures = if pos.variant() == Variant::Antichess {
            pos.is_capture(k)
        } else {
            pos.is_capture_stage(k)
        };
        let usable = k.is_some() && k != self.tt_move && (first || k != self.context.killers.0)
            && !captures && is_canonical(k) && pos.pseudo_legal(k);
        proof {
            lemma_no_none(v);
            lemma_quiet_test(v, k);
            if usable {
                assert(quiet_moves(v).contains(k));
                lemma_quiet_candidate(v, k);
                assert(!lists(o.moves@, 0, o.end_bad_captures as int, k)) by {
                    if lists(o.moves@, 0, o.end_bad_captures as int, k) {
                        let j = choose|j: int|
                            0 <= j < o.end_bad_captures && (#[trigger] o.moves@[j]).m == k;
                        assert(capture_moves(v).contains(o.moves@[j].m));
                    }
                }
                assert(o.due(v, k));
                assert(!self.due(v, k));
            }
        }
        if usable {
            Some(k)
        } else {
            None
        }
    }

    /// Generates and sorts the quiet moves.
    fn step_quiet_init(&mut self, pos: &Position, searcher: &Searcher)
        requires
            searcher.wf(),
            pos.wf(),
            old(self).wf(pos@),
            old(self).stage is QuietInit,
        ensures
            final(self).wf(pos@),
            final(self).continues(old(self), pos@),
            final(self).stage.rank() < old(self).stage.rank(),
            final(self).priced(old(self), searcher.hist, pos@),
    {
        let ghost v = pos@;
        let ghost o = *self;
        if self.skip_quiets {
            self.cur = 0;
            self.stage = Stage::BadCapture;
            return ;
        }
        let start = self.moves.len();
        self.generate_quiets(pos, searcher);
        let ghost a = self.moves@;
        let n = self.moves.len();
        self.end_generated = n;
        let limit: i32 = -QUIET_SORT_LIMIT_PER_DEPTH * self.context.depth;
        let _ = partial_sort(&mut self.moves, start, n, limit);
        let ghost b = self.moves@;
        self.cur = start;
        self.stage = Stage::GoodQuiet;
        proof {
            lemma_sorted(a, b, start as int, n as int);
            lemma_disjoint(v);
            assert forall|k: int| start <= k < n implies o.quiet_left(v, (#[trigger] b[k]).m)
                && b[k].m != o.context.killers.0 && b[k].m != o.context.killers.1 && b[k].score
                == self.price(searcher.hist, v, b[k].m) by {
                assert(occurs(a, start as int, n as int, b[k]));
                let j = choose|j: int| start <= j < n && #[trigger] a[j] == b[k];
                assert(o.quiet_left(v, a[j].m));
            }
            assert forall|k: int| 0 <= k < start implies #[trigger] b[k] == o.moves@[k] by {
                assert(b[k] == a[k]);
            }
            assert(self.priced(&o, searcher.hist, v));
            assert forall|m: Move| #[trigger] lists(
                b,
                0,
                self.end_bad_captures as int,
                m,
            ) == lists(o.moves@, 0, self.end_bad_captures as int, m) by {
                lemma_lists_same(b, o.moves@, 0, self.end_bad_captures as int, m);
            }
            assert forall|m: Move| #[trigger] self.due(v, m) implies o.due(v, m) by {
                if lists(b, start as int, n as int, m) {
                    let k = choose|k: int| start <= k < n && (#[trigger] b[k]).m == m;
                    assert(o.quiet_left(v, b[k].m));
                }
            }
            assert forall|m: Move| #[trigger] o.due(v, m) implies self.due(v, m) by {
                if o.quiet_left(v, m) && m != o.context.killers.0 && m != o.context.killers.1 {
                    assert(lists(a, start as int, n as int, m));
                    assert(lists(b, start as int, n as int, m));
                }
            }
        }
    }

    /// The next quiet move with a good score.
    fn step_good_quiet(&mut self, Ghost(v): Ghost<PosView>) -> (r: Option<Move>)
        requires
            old(self).wf(v),
            old(self).stage is GoodQuiet,
        ensures
            final(self).wf(v),
            match r {
                Some(m) => final(self).handed_out(old(self), v, m) && final(self).in_turn(v, m),
                None => final(self).continues(old(self), v) && final(self).stage.rank() < old(
                    self,
                ).stage.rank(),
            },
            final(self).moves@ == old(self).moves@,
    {
        let ghost o = *self;
        if self.skip_quiets {
            self.cur = 0;
            self.stage = Stage::BadCapture;
            proof {
                assert forall|m: Move| #[trigger] self.due(v, m) implies o.due(v, m) by {
                    lemma_low_split(
                        o.moves@,
                        o.end_captures as int,
                        o.cur as int,
                        o.end_generated as int,
                        m,
                    );
                }
                assert forall|m: Move| #[trigger] o.due(v, m) && !self.waived(
                    v,
                    m,
                ) implies self.due(v, m) by {
                    if lists(o.moves@, o.cur as int, o.end_generated as int, m) {
                        let k = choose|k: int|
                            o.cur <= k < o.end_generated && (#[trigger] o.moves@[k]).m == m;
                        assert(quiet_moves(v).contains(o.moves@[k].m));
                    }
                    if lists_low(o.moves@, o.end_captures as int, o.cur as int, m) {
                        let k = choose|k: int|
                            o.end_captures <= k < o.cur && (#[trigger] o.moves@[k]).m == m
                                && o.moves@[k].score <= GOOD_QUIET_THRESHOLD;
                        assert(self.moves@[k].m == m);
                    }
                }
            }
            return None;
        }
        while self.cur < self.end_generated
            invariant
                self.wf(v),
                self.stage is GoodQuiet,
                o.stage is GoodQuiet,
                o == *old(self),
                self.moves@ == o.moves@,
                self.continues(&o, v),
                !self.skip_quiets,
            decreases self.end_generated - self.cur,
        {
            let ghost b = *self;
            let sm = self.moves[self.cur];
            self.cur = self.cur + 1;
            proof {
                assert(quiet_moves(v).contains(b.moves@[b.cur as int].m));
                lemma_low_grows(b.moves@, b.end_captures as int, b.cur as int);
            }
            if sm.score > GOOD_QUIET_THRESHOLD {
                proof {
                    let m = sm.m;
                    lemma_quiet_candidate(v, m);
                    lemma_lists_once(b.moves@, b.cur as int, m);
                    assert(b.moves@[b.cur as int].m == m);
                    assert(b.due(v, m));
                    assert(!self.due(v, m));
                    assert forall|x: Move| #[trigger] self.due(v, x) implies o.due(v, x) by {
                        lemma_lists_wider(
                            b.moves@,
                            self.cur as int,
                            self.end_generated as int,
                            b.cur as int,
                            x,
                        );
                        assert(b.due(v, x));
                    }
                    assert forall|x: Move| x != m && #[trigger] o.due(v, x) implies self.due(v, x) by {
                        assert(b.due(v, x));
                        lemma_lists_without(
                            b.moves@,
                            b.cur as int,
                            b.end_generated as int,
                            x,
                        );
                    }
                }
                return Some(sm.m);
            }
            proof {
                assert forall|x: Move| #[trigger] self.due(v, x) <==> b.due(v, x) by {
                    lemma_lists_wider(
                        b.moves@,
                        self.cur as int,
                        self.end_generated as int,
                        b.cur as int,
                        x,
                    );
                    if x != sm.m {
                        lemma_lists_without(
                            b.moves@,
                            b.cur as int,
                            b.end_generated as int,
                            x,
                        );
                    } else {
                        assert(b.moves@[b.cur as int].m == x);
                    }
                }
                assert forall|m: Move| #[trigger] self.due(v, m) implies o.due(v, m) by {
                    assert(b.due(v, m));
                }
                assert forall|m: Move| #[trigger] o.due(v, m) implies self.due(v, m) by {
                    assert(b.due(v, m));
                }
            }
        }
        let ghost b = *self;
        self.cur = 0;
        self.stage = Stage::BadCapture;
        proof {
            assert forall|m: Move| #[trigger] self.due(v, m) <==> b.due(v, m) by {}
            assert forall|m: Move| #[trigger] self.due(v, m) implies o.due(v, m) by {
                assert(b.due(v, m));
            }
            assert forall|m: Move| #[trigger] o.due(v, m) implies self.due(v, m) by {
                assert(b.due(v, m));
            }
        }
        None
    }

    /// The next capture that was parked.
    fn step_bad_capture(&mut self, Ghost(v): Ghost<PosView>) -> (r: Option<Move>)
        requires
            old(self).wf(v),
            old(self).stage is BadCapture,
        ensures
            final(self).wf(v),
            match r {
                Some(m) => final(self).handed_out(old(self), v, m) && final(self).in_turn(v, m),
                None => final(self).continues(old(self), v) && final(self).stage.rank() < old(
                    self,
                ).stage.rank(),
            },
            final(self).moves@ == old(self).moves@,
    {
        let ghost o = *self;
        if self.cur < self.end_bad_captures {
            let m = self.moves[self.cur].m;
            self.cur = self.cur + 1;
            proof {
                assert(capture_moves(v).contains(o.moves@[o.cur as int].m));
                lemma_disjoint(v);
                lemma_capture_candidate(v, m);
                lemma_lists_once(o.moves@, o.cur as int, m);
                assert(o.moves@[o.cur as int].m == m);
                assert(o.due(v, m));
                assert(!self.due(v, m));
                assert forall|x: Move| #[trigger] self.due(v, x) implies o.due(v, x) by {
                    lemma_lists_wider(
                        o.moves@,
                        self.cur as int,
                        self.end_bad_captures as int,
                        o.cur as int,
                        x,
                    );
                }
                assert forall|x: Move| x != m && #[trigger] o.due(v, x) implies self.due(v, x) by {
                    lemma_lists_without(o.moves@, o.cur as int, o.end_bad_captures as int, x);
                }
            }
            return Some(m);
        }
        self.cur = self.end_captures;
        self.stage = Stage::BadQuiet;
        None
    }

    /// The next quiet move with a bad score.
    fn step_bad_quiet(&mut self, Ghost(v): Ghost<PosView>) -> (r: Option<Move>)
        requires
            old(self).wf(v),
            old(self).stage is BadQuiet,
        ensures
            final(self).wf(v),
            match r {
                Some(m) => final(self).handed_out(old(self), v, m) && final(self).in_turn(v, m),
                None => final(self).continues(old(self), v) && final(self).stage.rank() < old(
                    self,
                ).stage.rank(),
            },
            final(self).moves@ == old(self).moves@,
    {
        let ghost o = *self;
        if self.skip_quiets {
            self.stage = Stage::Done;
            proof {
                assert forall|m: Move| #[trigger] o.due(v, m) implies self.waived(v, m) by {
                    let k = choose|k: int|
                        o.cur <= k < o.end_generated && (#[trigger] o.moves@[k]).m == m
                            && o.moves@[k].score <= GOOD_QUIET_THRESHOLD;
                    assert(quiet_moves(v).contains(o.moves@[k].m));
                }
            }
            return None;
        }
        while self.cur < self.end_generated
            invariant
                self.wf(v),
                self.stage is BadQuiet,
                o.stage is BadQuiet,
                o == *old(self),
                self.moves@ == o.moves@,
                self.continues(&o, v),
                !self.skip_quiets,
            decreases self.end_generated - self.cur,
        {
            let ghost b = *self;
            let sm = self.moves[self.cur];
            self.cur = self.cur + 1;
            proof {
                assert(quiet_moves(v).contains(b.moves@[b.cur as int].m));
            }
            if sm.score <= GOOD_QUIET_THRESHOLD {
                proof {
                    let m = sm.m;
                    lemma_quiet_candidate(v, m);
                    assert(b.moves@[b.cur as int].m == m);
                    assert(b.due(v, m));
                    lemma_lists_once(b.moves@, b.cur as int, m);
                    assert(!self.due(v, m));
                    assert forall|x: Move| #[trigger] self.due(v, x) implies o.due(v, x) by {
                        lemma_low_wider(
                            b.moves@,
                            self.cur as int,
                            self.end_generated as int,
                            b.cur as int,
                            x,
                        );
                        assert(b.due(v, x));
                    }
                    assert forall|x: Move| x != m && #[trigger] o.due(v, x) implies self.due(v, x) by {
                        assert(b.due(v, x));
                        lemma_low_without(b.moves@, b.cur as int, b.end_generated as int, x);
                    }
                }
                return Some(sm.m);
            }
            proof {
                assert forall|x: Move| #[trigger] self.due(v, x) <==> b.due(v, x) by {
                    lemma_low_wider(
                        b.moves@,
                        self.cur as int,
                        self.end_generated as int,
                        b.cur as int,
                        x,
                    );
                    if b.due(v, x) {
                        let k = choose|k: int|
                            b.cur <= k < b.end_generated && (#[trigger] b.moves@[k]).m == x
                                && b.moves@[k].score <= GOOD_QUIET_THRESHOLD;
                        assert(k != b.cur);
                        assert(self.moves@[k].m == x);
                    }
                }
                assert forall|m: Move| #[trigger] self.due(v, m) implies o.due(v, m) by {
                    assert(b.due(v, m));
                }
                assert forall|m: Move| #[trigger] o.due(v, m) implies self.due(v, m) by {
                    assert(b.due(v, m));
                }
            }
        }
        let ghost b = *self;
        self.stage = Stage::Done;
        proof {
            assert forall|m: Move| #[trigger] o.due(v, m) implies self.due(v, m) by {
                assert(b.due(v, m));
            }
        }
        None
    }

    /// Generates and sorts the evasions.
    fn step_evasion_init(&mut self, pos: &Position, searcher: &Searcher)
        requires
            searcher.wf(),
            pos.wf(),
            old(self).wf(pos@),
            old(self).stage is EvasionInit,
        ensures
            final(self).wf(pos@),
            final(self).continues(old(self), pos@),
            final(self).stage.rank() < old(self).stage.rank(),
            final(self).priced(old(self), searcher.hist, pos@),
    {
        let ghost v = pos@;
        let ghost o = *self;
        self.generate_evasions(pos, searcher);
        let ghost a = self.moves@;
        let n = self.moves.len();
        sort_range(&mut self.moves, 0, n);
        let ghost b = self.moves@;
        self.cur = 0;
        self.end_generated = n;
        self.stage = Stage::Evasion;
        proof {
            lemma_sorted(a, b, 0, n as int);
            assert forall|k: int| 0 <= k < b.len() implies candidates(v).contains(
                (#[trigger] b[k]).m,
            ) && b[k].m != o.tt_move && b[k].score == self.price(searcher.hist, v, b[k].m) by {
                assert(occurs(a, 0, n as int, b[k]));
                let j = choose|j: int| 0 <= j < n && #[trigger] a[j] == b[k];
                assert(candidates(v).contains(a[j].m));
            }
            assert forall|m: Move| #[trigger] self.due(v, m) implies o.due(v, m) by {
                let k = choose|k: int| 0 <= k < n && (#[trigger] b[k]).m == m;
                assert(candidates(v).contains(b[k].m));
            }
            assert forall|m: Move| #[trigger] o.due(v, m) implies self.due(v, m) by {
                assert(lists(a, 0, n as int, m));
                assert(lists(b, 0, n as int, m));
            }
        }
    }

    /// The next evasion.
    fn step_evasion(&mut self, Ghost(v): Ghost<PosView>) -> (r: Option<Move>)
        requires
            old(self).wf(v),
            old(self).stage is Evasion,
        ensures
            final(self).wf(v),
            match r {
                Some(m) => final(self).handed_out(old(self), v, m) && final(self).in_turn(v, m),
                None => final(self).continues(old(self), v) && final(self).stage.rank() < old(
                    self,
                ).stage.rank(),
            },
            final(self).moves@ == old(self).moves@,
    {
        let ghost o = *self;
        if self.cur < self.end_generated {
            let m = self.moves[self.cur].m;
            self.cur = self.cur + 1;
            proof {
                assert(candidates(v).contains(o.moves@[o.cur as int].m));
                lemma_lists_once(o.moves@, o.cur as int, m);
                assert(o.moves@[o.cur as int].m == m);
                assert(o.due(v, m));
                assert(!self.due(v, m));
                assert forall|x: Move| #[trigger] self.due(v, x) implies o.due(v, x) by {
                    lemma_lists_wider(
                        o.moves@,
                        self.cur as int,
                        self.end_generated as int,
                        o.cur as int,
                        x,
                    );
                }
                assert forall|x: Move| x != m && #[trigger] o.due(v, x) implies self.due(v, x) by {
                    lemma_lists_without(o.moves@, o.cur as int, o.end_generated as int, x);
                }
            }
            return Some(m);
        }
        self.stage = Stage::Done;
        None
    }

    /// The next capture that reaches the threshold.
    fn step_probcut(&mut self, pos: &Position) -> (r: Option<Move>)
        requires
            pos.wf(),
            old(self).wf(pos@),
            old(self).stage is ProbCut,
        ensures
            final(self).wf(pos@),
            match r {
                Some(m) => final(self).handed_out(old(self), pos@, m) && final(self).in_turn(
                    pos@,
                    m,
                ),
                None => final(self).continues(old(self), pos@) && final(self).stage.rank()
                    < old(self).stage.rank(),
            },
            final(self).moves@ == old(self).moves@,
    {
        let ghost v = pos@;
        let ghost o = *self;
        while self.cur < self.end_captures
            invariant
                pos.wf(),
                v == pos@,
                self.wf(v),
                self.stage is ProbCut,
                o.stage is ProbCut,
                o == *old(self),
                self.moves@ == o.moves@,
                self.continues(&o, v),
            decreases self.end_captures - self.cur,
        {
            let ghost b = *self;
            let sm = self.moves[self.cur];
            self.cur = self.cur + 1;
            proof {
                assert(capture_moves(v).contains(b.moves@[b.cur as int].m));
                lemma_disjoint(v);
                lemma_capture_candidate(v, sm.m);
                lemma_lists_once(b.moves@, b.cur as int, sm.m);
                assert forall|x: Move| #[trigger] self.due(v, x) implies o.due(v, x) by {
                    lemma_lists_wider(
                        b.moves@,
                        self.cur as int,
                        self.end_captures as int,
                        b.cur as int,
                        x,
                    );
                    assert(b.due(v, x));
                }
                assert forall|x: Move|
                    x != sm.m && !self.waived(v, x) && #[trigger] o.due(v, x) implies self.due(v, x) by {
                    assert(b.due(v, x));
                    lemma_lists_without(b.moves@, b.cur as int, b.end_captures as int, x);
                }
            }
            if pos.see_ge(sm.m, self.threshold) {
                proof {
                    assert(b.moves@[b.cur as int].m == sm.m);
                    assert(b.due(v, sm.m));
                    assert(!self.due(v, sm.m));
                }
                return Some(sm.m);
            }
        }
        let ghost b = *self;
        self.stage = Stage::Done;
        proof {
            assert forall|m: Move| !self.waived(v, m) && #[trigger] o.due(v, m) implies self.due(v, m) by {
                assert(b.due(v, m));
            }
        }
        None
    }

    /// Next pseudo-legal move, or `None` when exhausted. Every candidate is handed out
    /// exactly once and in its turn; once quiet moves are skipped, some of them are left
    /// out. Legality is the caller's job.
    pub fn next(&mut self, pos: &Position, searcher: &Searcher) -> (r: Option<Move>)
        requires
            searcher.wf(),
            pos.wf(),
            old(self).wf(pos@),
        ensures
            final(self).wf(pos@),
            final(self).drawn_from(old(self), pos@, r),
            final(self).priced(old(self), searcher.hist, pos@),
    {
        let ghost v = pos@;
        let ghost o = *self;
        proof {
            lemma_reorders_itself(o);
        }
        loop
            invariant
                searcher.wf(),
                pos.wf(),
                v == pos@,
                self.wf(v),
                self.continues(&o, v),
                o == *old(self),
                self.priced(&o, searcher.hist, v),
                o.stage is MainTT || o.stage is EvasionTT || o.stage is ProbCutTT ==> self.stage
                    == o.stage,
            decreases self.stage.rank(),
        {
            let ghost b = *self;
            match self.stage {
                Stage::MainTT | Stage::EvasionTT | Stage::ProbCutTT => {
                    let m = self.step_tt(Ghost(v));
                    proof {
                        lemma_handed_on(*self, b, o, v, m);
                        lemma_reorders_itself(b);
                        lemma_priced_on(*self, b, o, searcher.hist, v);
                    }
                    return Some(m);
                },
                Stage::CaptureInit | Stage::ProbCutInit => {
                    self.step_captures(pos, searcher);
                    proof {
                        lemma_goes_on(*self, b, o, v);
                        lemma_priced_on(*self, b, o, searcher.hist, v);
                    }
                },
                Stage::QuietInit => {
                    self.step_quiet_init(pos, searcher);
                    proof {
                        lemma_goes_on(*self, b, o, v);
                        lemma_priced_on(*self, b, o, searcher.hist, v);
                    }
                },
                Stage::EvasionInit => {
                    self.step_evasion_init(pos, searcher);
                    proof {
                        lemma_goes_on(*self, b, o, v);
                        lemma_priced_on(*self, b, o, searcher.hist, v);
                    }
                },
                Stage::Done => {
                    proof {
                        assert forall|m: Move| #[trigger] o.due(v, m) implies o.waived(
                            v,
                            m,
                        ) by {
                            assert(!self.due(v, m));
                        }
                    }
                    return None;
                },
                stage => {
                    let r = match stage {
                        Stage::GoodCapture => self.step_good_capture(pos),
                        Stage::Killer1 | Stage::Killer2 => self.step_killer(pos),
                        Stage::GoodQuiet => self.step_good_quiet(Ghost(v)),
                        Stage::BadCapture => self.step_bad_capture(Ghost(v)),
                        Stage::BadQuiet => self.step_bad_quiet(Ghost(v)),
                        Stage::Evasion => self.step_evasion(Ghost(v)),
                        _ => self.step_probcut(pos),
                    };
                    proof {
                        lemma_reorders_itself(b);
                        assert(self.reorders(&b));
                    }
                    if let Some(m) = r {
                        proof {
                            lemma_handed_on(*self, b, o, v, m);
                            lemma_priced_on(*self, b, o, searcher.hist, v);
                        }
                        return Some(m);
                    }
                    proof {
                        lemma_goes_on(*self, b, o, v);
                        lemma_priced_on(*self, b, o, searcher.hist, v);
                    }
                },
            }
        }
    }
}

/// A run of the picker without skipping: asked until it gives nothing, it hands out each
/// move that was due exactly once and nothing else, the hash move first. To a new picker
/// every candidate is due.
pub proof fn a_run_hands_out_every_move_once(
    v: PosView,
    pickers: Seq<MovePicker>,
    moves: Seq<Move>,
)
    requires
        pickers.len() == moves.len() + 2,
        !pickers[0].skip_quiets,
        forall|i: int|
            0 <= i < moves.len() ==> pickers[i + 1].drawn_from(
                &pickers[i],
                v,
                Some(#[trigger] moves[i]),
            ),
        pickers[moves.len() as int + 1].drawn_from(&pickers[moves.len() as int], v, None),
    ensures
        moves.no_duplicates(),
        forall|m: Move| #[trigger] moves.contains(m) <==> pickers[0].due(v, m),
        pickers[0].stage is MainTT || pickers[0].stage is EvasionTT ==> moves.len() > 0 && moves[0]
            == pickers[0].tt_move,
{
    let n = moves.len() as int;
    lemma_run(v, pickers, moves, n);
    assert forall|m: Move| #[trigger] moves.contains(m) <==> pickers[0].due(v, m) by {
        assert(moves.take(n) =~= moves);
        assert(pickers[n].due(v, m) <==> pickers[0].due(v, m) && !moves.take(n).contains(m));
        if pickers[n].due(v, m) {
            assert(pickers[n].waived(v, m));
        }
    }
    assert(moves.take(n) =~= moves);
}

/// A run of a new picker without skipping hands out the moves that generation lists (all
/// moves, in check the evasions), each once, in another order: the hash move comes first.
pub proof fn a_run_rearranges_the_generated_moves(
    v: PosView,
    pickers: Seq<MovePicker>,
    moves: Seq<Move>,
    list: Seq<Move>,
)
    requires
        pickers.len() == moves.len() + 2,
        !pickers[0].skip_quiets,
        forall|i: int|
            0 <= i < moves.len() ==> pickers[i + 1].drawn_from(
                &pickers[i],
                v,
                Some(#[trigger] moves[i]),
            ),
        pickers[moves.len() as int + 1].drawn_from(&pickers[moves.len() as int], v, None),
        forall|m: Move| #[trigger] pickers[0].due(v, m) <==> candidates(v).contains(m),
        adds(Seq::<Move>::empty(), list, candidates(v)),
    ensures
        moves.to_multiset() == list.to_multiset(),
        pickers[0].stage is MainTT || pickers[0].stage is EvasionTT ==> moves.len() > 0 && moves[0]
            == pickers[0].tt_move,
{
    broadcast use {group_to_multiset_ensures, group_multiset_axioms};

    a_run_hands_out_every_move_once(v, pickers, moves);
    lemma_adds_contains(list, candidates(v));
    moves.lemma_multiset_has_no_duplicates();
    list.lemma_multiset_has_no_duplicates();
    assert forall|m: Move| moves.to_multiset().count(m) == list.to_multiset().count(m) by {
        assert(moves.contains(m) <==> pickers[0].due(v, m));
        assert(list.contains(m) <==> candidates(v).contains(m));
        assert(moves.contains(m) <==> moves.to_multiset().count(m) > 0);
        assert(list.contains(m) <==> list.to_multiset().count(m) > 0);
    }
    assert(moves.to_multiset() =~= list.to_multiset());
}

/// After the first `n` moves of a run those are due that have not been handed out.
proof fn lemma_run(v: PosView, pickers: Seq<MovePicker>, moves: Seq<Move>, n: int)
    requires
        pickers.len() == moves.len() + 2,
        0 <= n <= moves.len(),
        !pickers[0].skip_quiets,
        forall|i: int|
            0 <= i < moves.len() ==> pickers[i + 1].drawn_from(
                &pickers[i],
                v,
                Some(#[trigger] moves[i]),
            ),
    ensures
        !pickers[n].skip_quiets,
        moves.take(n).no_duplicates(),
        forall|m: Move| #[trigger] moves.take(n).contains(m) ==> pickers[0].due(v, m),
        forall|m: Move| #[trigger]
            pickers[n].due(v, m) <==> pickers[0].due(v, m) && !moves.take(n).contains(m),
    decreases n,
{
    if n == 0 {
        assert(moves.take(0) =~= Seq::<Move>::empty());
    } else {
        let k = n - 1;
        lemma_run(v, pickers, moves, k);
        let x = moves[k];
        let (p, q) = (pickers[k], pickers[n]);
        assert(q.handed_out(&p, v, x));
        assert(moves.take(n) =~= moves.take(k).push(x));
        let (a, b) = (moves.take(k), moves.take(n));
        assert(p.due(v, x));
        assert forall|m: Move| #[trigger] b.contains(m) <==> a.contains(m) || m == x by {
            if a.contains(m) {
                let i = choose|i: int| 0 <= i < a.len() && a[i] == m;
                assert(b[i] == m);
            }
            assert(b[k] == x);
            if b.contains(m) && m != x {
                let i = choose|i: int| 0 <= i < b.len() && b[i] == m;
                assert(a[i] == m);
            }
        }
        assert forall|m: Move| #[trigger] q.due(v, m) <==> pickers[0].due(v, m) && !b.contains(
            m,
        ) by {
            assert(b.contains(m) <==> a.contains(m) || m == x);
            if q.due(v, m) {
                assert(p.due(v, m));
            }
            if p.due(v, m) && m != x {
                assert(!q.waived(v, m));
            }
        }
        assert(b.no_duplicates()) by {
            assert forall|i: int, j: int| 0 <= i < j < b.len() implies b[i] != b[j] by {
                if j == k {
                    assert(a[i] == b[i]);
                    assert(a.contains(b[i]));
                } else {
                    assert(a[i] == b[i] && a[j] == b[j]);
                }
            }
        }
    }
}

/// A list is an order of itself.
proof fn lemma_reorders_itself(o: MovePicker)
    ensures
        o.reorders(&o),
{
    assert forall|i: int| 0 <= i < o.moves@.len() implies occurs(
        o.moves@,
        0,
        o.moves@.len() as int,
        #[trigger] o.moves@[i],
    ) by {}
}

/// Exchanging two places leaves the same scored moves.
proof fn lemma_reordered(o: MovePicker, b: MovePicker, a: MovePicker, e: int, c: int)
    requires
        b.reorders(&o),
        0 <= e <= c < b.moves@.len(),
        a.moves@ == b.moves@.update(e, b.moves@[c]).update(c, b.moves@[e]),
    ensures
        a.reorders(&o),
{
    assert forall|i: int| 0 <= i < a.moves@.len() implies occurs(
        o.moves@,
        0,
        o.moves@.len() as int,
        #[trigger] a.moves@[i],
    ) by {
        let x = if i == e {
            c
        } else if i == c {
            e
        } else {
            i
        };
        assert(a.moves@[i] == b.moves@[x]);
    }
}

/// Scores stand through two steps.
proof fn lemma_priced_on(a: MovePicker, b: MovePicker, o: MovePicker, h: Histories, v: PosView)
    requires
        a.reorders(&b) || a.priced(&b, h, v),
        b.priced(&o, h, v),
        a.same_use(&b),
    ensures
        a.priced(&o, h, v),
{
    assert forall|i: int| 0 <= i < a.moves@.len() implies occurs(
        o.moves@,
        0,
        o.moves@.len() as int,
        #[trigger] a.moves@[i],
    ) || a.moves@[i].score == a.price(h, v, a.moves@[i].m) by {
        if occurs(b.moves@, 0, b.moves@.len() as int, a.moves@[i]) {
            let j = choose|j: int| 0 <= j < b.moves@.len() && #[trigger] b.moves@[j] == a.moves@[i];
            assert(b.moves@[j] == a.moves@[i]);
        }
    }
}

/// Two steps without a move in a row.
proof fn lemma_goes_on(a: MovePicker, b: MovePicker, o: MovePicker, v: PosView)
    requires
        a.continues(&b, v),
        b.continues(&o, v),
    ensures
        a.continues(&o, v),
{
    assert forall|m: Move| #[trigger] a.due(v, m) implies o.due(v, m) by {
        assert(b.due(v, m));
    }
    assert forall|m: Move| !a.waived(v, m) && #[trigger] o.due(v, m) implies a.due(v, m) by {
        assert(b.due(v, m));
    }
}

/// A move handed out after steps without one.
proof fn lemma_handed_on(a: MovePicker, b: MovePicker, o: MovePicker, v: PosView, m: Move)
    requires
        a.handed_out(&b, v, m),
        b.continues(&o, v),
    ensures
        a.handed_out(&o, v, m),
{
    assert forall|x: Move| #[trigger] a.due(v, x) implies o.due(v, x) by {
        assert(b.due(v, x));
    }
    assert forall|x: Move| x != m && !a.waived(v, x) && #[trigger] o.due(v, x) implies a.due(v, x) by {
        assert(b.due(v, x));
    }
}

/// Sorting keeps what is listed, and distinctness.
proof fn lemma_sorted(a: Seq<ScoredMove>, b: Seq<ScoredMove>, lo: int, hi: int)
    requires
        rearranged(a, b, lo, hi),
        distinct(a),
        0 <= lo <= hi <= a.len(),
    ensures
        distinct(b),
        forall|m: Move| #[trigger] lists(b, lo, hi, m) <==> lists(a, lo, hi, m),
{
    broadcast use {vstd::seq_lib::group_to_multiset_ensures, vstd::multiset::group_multiset_axioms};

    assert forall|m: Move| #[trigger] lists(b, lo, hi, m) <==> lists(a, lo, hi, m) by {
        if lists(b, lo, hi, m) {
            let i = choose|i: int| lo <= i < hi && (#[trigger] b[i]).m == m;
            assert(occurs(a, lo, hi, b[i]));
            let j = choose|j: int| lo <= j < hi && #[trigger] a[j] == b[i];
            assert(a[j].m == m);
        }
        if lists(a, lo, hi, m) {
            let j = choose|j: int| lo <= j < hi && (#[trigger] a[j]).m == m;
            assert(occurs(b, lo, hi, a[j]));
            let i = choose|i: int| lo <= i < hi && #[trigger] b[i] == a[j];
            assert(b[i].m == m);
        }
    }
    assert(a.no_duplicates()) by {
        assert forall|i: int, j: int| 0 <= i < a.len() && 0 <= j < a.len() && i != j implies a[i]
            != a[j] by {
            if i < j {
                assert(a[i].m != a[j].m);
            } else {
                assert(a[j].m != a[i].m);
            }
        }
    }
    a.lemma_multiset_has_no_duplicates();
    b.lemma_multiset_has_no_duplicates_conv();
    assert forall|i: int, j: int| 0 <= i < j < b.len() implies (#[trigger] b[i]).m
        != (#[trigger] b[j]).m by {
        assert(b[i] != b[j]);
        assert(a.to_multiset().count(b[i]) > 0) by {
            assert(b.contains(b[i]));
        }
        assert(a.to_multiset().count(b[j]) > 0) by {
            assert(b.contains(b[j]));
        }
        assert(a.contains(b[i]) && a.contains(b[j]));
        let x = choose|x: int| 0 <= x < a.len() && a[x] == b[i];
        let y = choose|y: int| 0 <= y < a.len() && a[y] == b[j];
        assert(x != y);
        if x < y {
            assert(a[x].m != a[y].m);
        } else {
            assert(a[y].m != a[x].m);
        }
    }
}

/// A move of a distinct list stands nowhere else.
proof fn lemma_lists_once(s: Seq<ScoredMove>, i: int, m: Move)
    requires
        distinct(s),
        0 <= i < s.len(),
        s[i].m == m,
    ensures
        forall|k: int| 0 <= k < s.len() && k != i ==> (#[trigger] s[k]).m != m,
{
    assert forall|k: int| 0 <= k < s.len() && k != i implies (#[trigger] s[k]).m != m by {
        if k < i {
            assert(s[k].m != s[i].m);
        } else {
            assert(s[i].m != s[k].m);
        }
    }
}

/// A wider range lists no less.
proof fn lemma_lists_wider(s: Seq<ScoredMove>, lo: int, hi: int, low: int, m: Move)
    requires
        low <= lo,
    ensures
        lists(s, lo, hi, m) ==> lists(s, low, hi, m),
{
    if lists(s, lo, hi, m) {
        let i = choose|i: int| lo <= i < hi && (#[trigger] s[i]).m == m;
        assert(low <= i < hi && s[i].m == m);
    }
}

/// Without the first place, every other move is still listed.
proof fn lemma_lists_without(s: Seq<ScoredMove>, lo: int, hi: int, m: Move)
    requires
        s[lo].m != m,
    ensures
        lists(s, lo, hi, m) ==> lists(s, lo + 1, hi, m),
{
    if lists(s, lo, hi, m) {
        let i = choose|i: int| lo <= i < hi && (#[trigger] s[i]).m == m;
        assert(lo + 1 <= i < hi && s[i].m == m);
    }
}

proof fn lemma_lists_same(s: Seq<ScoredMove>, t: Seq<ScoredMove>, lo: int, hi: int, m: Move)
    requires
        forall|i: int| lo <= i < hi ==> #[trigger] s[i] == t[i],
    ensures
        lists(s, lo, hi, m) == lists(t, lo, hi, m),
{
    if lists(s, lo, hi, m) {
        let i = choose|i: int| lo <= i < hi && (#[trigger] s[i]).m == m;
        assert(t[i].m == m);
    }
    if lists(t, lo, hi, m) {
        let i = choose|i: int| lo <= i < hi && (#[trigger] t[i]).m == m;
        assert(s[i].m == m);
    }
}

proof fn lemma_low_wider(s: Seq<ScoredMove>, lo: int, hi: int, low: int, m: Move)
    requires
        low <= lo,
    ensures
        lists_low(s, lo, hi, m) ==> lists_low(s, low, hi, m),
{
    if lists_low(s, lo, hi, m) {
        let i = choose|i: int|
            lo <= i < hi && (#[trigger] s[i]).m == m && s[i].score <= GOOD_QUIET_THRESHOLD;
        assert(low <= i < hi && s[i].m == m);
    }
}

proof fn lemma_low_without(s: Seq<ScoredMove>, lo: int, hi: int, m: Move)
    requires
        s[lo].m != m,
    ensures
        lists_low(s, lo, hi, m) ==> lists_low(s, lo + 1, hi, m),
{
    if lists_low(s, lo, hi, m) {
        let i = choose|i: int|
            lo <= i < hi && (#[trigger] s[i]).m == m && s[i].score <= GOOD_QUIET_THRESHOLD;
        assert(lo + 1 <= i < hi && s[i].m == m);
    }
}

/// One more place adds its move to those of low score, if its score is low.
proof fn lemma_low_grows(s: Seq<ScoredMove>, lo: int, hi: int)
    requires
        lo <= hi,
    ensures
        forall|m: Move| #[trigger]
            lists_low(s, lo, hi + 1, m) <==> lists_low(s, lo, hi, m) || (s[hi].m == m && s[hi].score
                <= GOOD_QUIET_THRESHOLD),
{
    assert forall|m: Move| #[trigger]
        lists_low(s, lo, hi + 1, m) <==> lists_low(s, lo, hi, m) || (s[hi].m == m && s[hi].score
            <= GOOD_QUIET_THRESHOLD) by {
        if lists_low(s, lo, hi + 1, m) {
            let i = choose|i: int|
                lo <= i < hi + 1 && (#[trigger] s[i]).m == m && s[i].score <= GOOD_QUIET_THRESHOLD;
            if i < hi {
                assert(lo <= i < hi && s[i].m == m);
            }
        }
        if lists_low(s, lo, hi, m) {
            let i = choose|i: int|
                lo <= i < hi && (#[trigger] s[i]).m == m && s[i].score <= GOOD_QUIET_THRESHOLD;
            assert(lo <= i < hi + 1 && s[i].m == m);
        }
    }
}

/// Low scores of a range are found in one of its parts.
proof fn lemma_low_split(s: Seq<ScoredMove>, lo: int, mid: int, hi: int, m: Move)
    requires
        lo <= mid,
    ensures
        lists_low(s, lo, hi, m) ==> lists_low(s, lo, mid, m) || lists(s, mid, hi, m),
{
    if lists_low(s, lo, hi, m) {
        let i = choose|i: int|
            lo <= i < hi && (#[trigger] s[i]).m == m && s[i].score <= GOOD_QUIET_THRESHOLD;
        if i < mid {
            assert(lo <= i < mid && s[i].m == m);
        } else {
            assert(mid <= i < hi && s[i].m == m);
        }
    }
}

/// Exchanging two places keeps distinctness.
proof fn lemma_park(s: Seq<ScoredMove>, t: Seq<ScoredMove>, e: int, c: int)
    requires
        distinct(s),
        0 <= e <= c < s.len(),
        t == s.update(e, s[c]).update(c, s[e]),
    ensures
        distinct(t),
{
    assert forall|i: int, j: int| 0 <= i < j < t.len() implies (#[trigger] t[i]).m
        != (#[trigger] t[j]).m by {
        let x = if i == e {
            c
        } else if i == c {
            e
        } else {
            i
        };
        let y = if j == e {
            c
        } else if j == c {
            e
        } else {
            j
        };
        assert(t[i] == s[x] && t[j] == s[y] && x != y);
        if x < y {
            assert(s[x].m != s[y].m);
        } else {
            assert(s[y].m != s[x].m);
        }
    }
}

/// Parking a capture at the front leaves the same captures to come.
proof fn lemma_parked_due(
    s: Seq<ScoredMove>,
    t: Seq<ScoredMove>,
    e: int,
    c: int,
    end: int,
    m: Move,
)
    requires
        0 <= e <= c < end <= s.len(),
        t == s.update(e, s[c]).update(c, s[e]),
    ensures
        (lists(t, c + 1, end, m) || lists(t, 0, e + 1, m)) <==> (lists(s, c, end, m) || lists(
            s,
            0,
            e,
            m,
        )),
{
    if lists(t, c + 1, end, m) {
        let i = choose|i: int| c + 1 <= i < end && (#[trigger] t[i]).m == m;
        assert(s[i].m == m);
    }
    if lists(t, 0, e + 1, m) {
        let i = choose|i: int| 0 <= i < e + 1 && (#[trigger] t[i]).m == m;
        if i == e {
            assert(s[c].m == m);
        } else {
            assert(s[i].m == m);
        }
    }
    if lists(s, c, end, m) {
        let i = choose|i: int| c <= i < end && (#[trigger] s[i]).m == m;
        if i == c {
            assert(t[e].m == m);
        } else {
            assert(t[i].m == m);
        }
    }
    if lists(s, 0, e, m) {
        let i = choose|i: int| 0 <= i < e && (#[trigger] s[i]).m == m;
        assert(t[i].m == m);
    }
}

/// A pseudo-legal move is quiet where it takes nothing and, but for antichess, promotes to
/// no queen.
proof fn lemma_quiet_test(v: PosView, m: Move)
    requires
        v.wf(),
        v.st().checkers == 0,
    ensures
        quiet_moves(v).contains(m) <==> {
            &&& canonical(m)
            &&& v.candidate(m)
            &&& !(v.board[m.to()].0 != 12 && !v.real_castling(m))
            &&& !m.is_en_passant()
            &&& v.variant != Variant::Antichess ==> !(m.is_promotion() && m.promotion()
                == PieceType::Queen)
        },
{
}

/// A capture is worth looking at.
proof fn lemma_capture_candidate(v: PosView, m: Move)
    requires
        capture_moves(v).contains(m),
        v.st().checkers == 0,
    ensures
        candidates(v).contains(m),
{
}

/// A quiet move is worth looking at.
proof fn lemma_quiet_candidate(v: PosView, m: Move)
    requires
        quiet_moves(v).contains(m),
        v.st().checkers == 0,
    ensures
        candidates(v).contains(m),
{
}

/// A longer list lists what the shorter one did, and the new move.
proof fn lemma_lists_push(s: Seq<ScoredMove>, x: ScoredMove)
    ensures
        forall|m: Move| #[trigger]
            lists(s, 0, s.len() as int, m) ==> lists(s.push(x), 0, s.len() as int + 1, m),
        lists(s.push(x), 0, s.len() as int + 1, x.m),
{
    let t = s.push(x);
    assert forall|m: Move| #[trigger] lists(s, 0, s.len() as int, m) implies lists(
        t,
        0,
        s.len() as int + 1,
        m,
    ) by {
        let i = choose|i: int| 0 <= i < s.len() && (#[trigger] s[i]).m == m;
        assert(t[i].m == m);
    }
    assert(t[s.len() as int].m == x.m);
}

/// No move is both a capture and a quiet one.
proof fn lemma_disjoint(v: PosView)
    ensures
        forall|m: Move| #[trigger] capture_moves(v).contains(m) ==> !quiet_moves(v).contains(m),
{
}

/// Out of check the candidates are the captures and the quiet moves.
pub proof fn lemma_candidates(v: PosView)
    ensures
        v.st().checkers == 0 ==> forall|m: Move| #[trigger]
            candidates(v).contains(m) <==> capture_moves(v).contains(m) || quiet_moves(v).contains(
                m,
            ),
{
}

/// The empty move is no candidate.
pub proof fn lemma_no_none(v: PosView)
    ensures
        !v.candidate(Move(0)),
        !candidates(v).contains(Move(0)),
        !capture_moves(v).contains(Move(0)),
        !quiet_moves(v).contains(Move(0)),
{
    let m = Move(0);
    crate::geometry::lemma_lines_differ(0, 0);
    assert(m.from() == 0 && m.to() == 0);
    assert(!v.pseudo(m));
}

} // verus!
