//! Quiescence search, and what it shares with the main search: access to the table, the
//! evaluation of a node, and the search stack.

use vstd::prelude::*;
use vstd::multiset::group_multiset_axioms;
use vstd::seq_lib::group_to_multiset_ensures;

use crate::decisions::{bound_fits, halfway};
use crate::eval::{evaluate, evaluate_without_network};
use crate::journal::{extends, told_to_stop, Event, Journal, QuietCall};
use crate::legality::legal_test_is_exact;
use crate::movegen;
use crate::movegen::candidates;
use crate::movepick::lemma_candidates;
use crate::moves::{capture_moves, lemma_adds_contains};
use crate::ordering::{capture_gain, sort_captures};
use crate::negamax::counted;
use crate::params::{DELTA_MARGIN, HISTORY_MAX, MAX_QSEARCH_DEPTH};
use crate::perft::play_move;
use crate::position::Position;
use crate::records::{
    alpha_after, eased, entry_bound, entry_value, evaluated, has_tried, larger, lemma_quiet_tries,
    lemma_quiet_tries_kept, lemma_top_more, lemma_top_push, lemma_tried_more, poor_capture, pressed,
    probed, lemma_raising_push, quiet_accounted, quiet_outcome, quiet_record, quiet_searched,
    quiet_settled, quiet_stored, quiet_try, raising_move, raw_found, stand_pat, table_entry, top,
    Try,
};
use crate::rules::PosView;
use crate::searcher::{
    terminal_value, value_draw, variant_terminal, Host, NodeType, Searcher, StackEntry, LINES,
    SCORE_LIMIT, STACK_SIZE,
};
use crate::tt::{
    data_depth, decide_store, decode, find, find_from, key32, refresh, refreshed, shave,
    value_from_tt, value_to_tt, Slot, Store, TTData,
};
use crate::types::{
    is_decisive, is_loss, mated_in, Bound, Move, MoveList, Square, Value, MAX_PLY, SQ_NONE,
    VALUE_DRAW, VALUE_EVAL_MAX, VALUE_INFINITE, VALUE_NONE,
};
use crate::variant::Variant;

verus! {

// The table and the evaluation

/// Entries of the journal for a lookup: the bucket and, where the position is found, the
/// generation and the entry brought up to date.
pub open spec fn lookup_events(key: u64, b: Seq<Slot>, g: u8) -> Seq<Event> {
    let i = find_from(b, key32(key), 0);
    let fresh = refreshed(b[i], g);
    seq![Event::Bucket { key, slots: b }] + (if i < 4 {
        seq![Event::Generation(g)] + (if fresh != b[i] {
            seq![Event::Written { key, index: i, slot: fresh }]
        } else {
            seq![]
        })
    } else {
        seq![]
    })
}

/// Looks a position up; an entry that is found counts as used in the current generation.
pub(crate) fn probe<H: Host>(j: &mut Journal, host: &mut H, key: u64) -> (r: Option<TTData>)
    requires
        old(j).wf(),
    ensures
        final(j).wf(),
        exists|b: Seq<Slot>, g: u8|
            final(j)@ == old(j)@ + #[trigger] lookup_events(key, b, g) && r == table_entry(b, key),
        extends(old(j)@, final(j)@),
        probed(final(j)@, old(j)@.len() as int, key, r),
        r matches Some(d) ==> d.ok(),
{
    let ghost a = j@;
    let b = j.bucket(host, key);
    proof {
        assert(j@[a.len() as int] == Event::Bucket { key, slots: b@ });
    }
    match find(&b, key32(key)) {
        Some(i) => {
            let s = b[i];
            let g = j.generation(host);
            let fresh = refresh(s, g);
            if fresh != s {
                j.write(host, key, i, fresh);
            }
            proof {
                assert(j@ =~= a + lookup_events(key, b@, g));
                assert(j@[a.len() as int] == Event::Bucket { key, slots: b@ });
            }
            Some(decode(s))
        },
        None => {
            proof {
                assert(j@ =~= a + lookup_events(key, b@, 0));
            }
            None
        },
    }
}

/// From `a` to `b` the record `s` of a position is put to the table: its bucket and the
/// generation are asked for, and the entry that changes, if one does, is written.
pub open spec fn stores(a: Seq<Event>, b: Seq<Event>, key: u64, s: Store) -> bool {
    exists|slots: Seq<Slot>, g: u8| #[trigger] stores_in(a, b, key, s, slots, g)
}

pub open spec fn stores_in(
    a: Seq<Event>,
    b: Seq<Event>,
    key: u64,
    s: Store,
    slots: Seq<Slot>,
    g: u8,
) -> bool {
    let asked = a.push(Event::Bucket { key, slots }).push(Event::Generation(g));
    let after = s.applied(slots, key32(key), g);
    ||| b == asked && after == slots
    ||| exists|index: int, slot: Slot|
        0 <= index < 4 && after == slots.update(index, slot) && b == asked.push(
            #[trigger] written(key, index, slot),
        )
}

pub open spec fn written(key: u64, index: int, slot: Slot) -> Event {
    Event::Written { key, index, slot }
}

/// Stores a result.
pub(crate) fn store<H: Host>(j: &mut Journal, host: &mut H, key: u64, s: Store)
    requires
        old(j).wf(),
    ensures
        final(j).wf(),
        stores(old(j)@, final(j)@, key, s),
        extends(old(j)@, final(j)@),
{
    let ghost a = j@;
    let b = j.bucket(host, key);
    let g = j.generation(host);
    if let Some((i, slot)) = decide_store(&b, key32(key), g, s) {
        j.write(host, key, i, slot);
        proof {
            assert(j@.last() == written(key, i as int, slot));
        }
    }
    proof {
        assert(stores_in(a, j@, key, s, b@, g));
    }
}

/// Shaves a ply off the entry of a position.
pub(crate) fn penalize<H: Host>(j: &mut Journal, host: &mut H, key: u64)
    requires
        old(j).wf(),
    ensures
        final(j).wf(),
        extends(old(j)@, final(j)@),
        exists|b: Seq<Slot>| #[trigger] penalizes(old(j)@, final(j)@, key, b),
{
    let ghost a = j@;
    let b = j.bucket(host, key);
    if let Some(i) = find(&b, key32(key)) {
        j.write(host, key, i, shave(b[i], 1));
        proof {
            assert(written(key, i as int, j@.last()->slot) == j@.last());
        }
    }
    proof {
        assert(penalizes(a, j@, key, b@));
    }
}

/// From `a` to `b` a ply is shaved off the entry of a position, if it is found.
pub open spec fn penalizes(a: Seq<Event>, b: Seq<Event>, key: u64, slots: Seq<Slot>) -> bool {
    let asked = a.push(Event::Bucket { key, slots });
    let i = find_from(slots, key32(key), 0);
    if i < 4 {
        exists|slot: Slot| {
            &&& b == asked.push(#[trigger] written(key, i, slot))
            &&& slot.extra == slots[i].extra
            &&& slot.data == slots[i].data - (if data_depth(slots[i].data) >= 1 {
                0x1_0000_0000int
            } else {
                0
            })
        }
    } else {
        b == asked
    }
}

/// Static evaluation of a position, with the network where it has a say.
pub(crate) fn evaluate_at<H: Host>(j: &mut Journal, host: &mut H, pos: &Position) -> (r: Value)
    requires
        pos.wf(),
        old(j).wf(),
    ensures
        final(j).wf(),
        -VALUE_EVAL_MAX <= r <= VALUE_EVAL_MAX,
        evaluated(final(j)@, old(j)@.len() as int, pos@, r),
        extends(old(j)@, final(j)@),
{
    let ghost a = j@;
    match evaluate_without_network(pos) {
        Some(v) => v,
        None => {
            let raw = j.network(host, pos);
            proof {
                assert(j@[a.len() as int] == Event::Network { v: pos@, value: raw });
            }
            evaluate(pos, raw)
        },
    }
}

impl PosView {
    /// The position is drawn by the fifty-move rule or by repetition.
    pub open spec fn drawn(self, ply: int) -> bool {
        self.fifty_moves() || self.repeated_within(ply)
    }

    /// A search from here at `ply` stays within the counters.
    pub open spec fn searchable(self, ply: int) -> bool {
        self.playable() && self.room(MAX_PLY - ply + 1)
    }
}

/// What quiescence comes to where no table and no evaluation has a say: in check, or with a
/// capture to be made in antichess, a position without legal moves is lost or won as the
/// rules have it, and beyond the cap on the length of its lines alpha stands.
pub open spec fn settled_quietly(
    v: PosView,
    ply: usize,
    qs_ply: usize,
    alpha: Value,
    r: Value,
) -> bool {
    let pressed = v.in_check() || (v.variant == Variant::Antichess && v.st().must_capture);
    &&& pressed && qs_ply >= MAX_QSEARCH_DEPTH ==> r == alpha
    &&& pressed && qs_ply < MAX_QSEARCH_DEPTH && (forall|m: Move| !v.legal(m)) ==> r == (
    if v.in_check() {
        mated_in(ply) as int
    } else {
        v.terminal_score(ply) as int
    })
}

impl Searcher {
    /// What quiescence comes to: the evaluation at the ply limit, a repetition that is good
    /// enough, a draw or the end of the game, or else, where `settles` says that the node is
    /// searched through, what `settled_quietly` says.
    pub open spec fn quiesces(
        &self,
        v: PosView,
        ply: usize,
        qs_ply: usize,
        alpha: Value,
        beta: Value,
        settles: bool,
        r: Value,
    ) -> bool {
        if ply >= MAX_PLY - 1 {
            v.own_evaluation() matches Some(x) ==> r == x
        } else if self.seen().holds_out(v, ply, alpha, beta) {
            r == value_draw(self.nodes)
        } else if v.drawn(ply as int) {
            r == VALUE_DRAW
        } else {
            match v.variant_result(ply) {
                Some(x) => r == x,
                None => settles ==> settled_quietly(
                    v,
                    ply,
                    qs_ply,
                    self.seen().held(v, ply, alpha),
                    r,
                ),
            }
        }
    }

    /// What a search below `ply` leaves as it was: the set-up and the lines of the plies
    /// above.
    pub open spec fn kept(&self, o: &Searcher, ply: int) -> bool {
        &&& self.wf()
        &&& self.same_setup(o)
        &&& forall|p: int| 0 <= p < ply ==> #[trigger] self.lines@[p] == o.lines@[p]
        &&& self.goes_on_from(o)
    }

    /// What was noted of the plies before `ply` stands; only the reduction of the last of
    /// them may have been used up.
    pub open spec fn stack_kept(&self, o: &Searcher, ply: int) -> bool {
        &&& self.stack@.len() == o.stack@.len()
        &&& forall|p: int| 0 <= p < ply - 1 ==> #[trigger] self.stack@[p] == o.stack@[p]
        &&& 1 <= ply <= o.stack@.len() ==> self.stack@[ply - 1] == (StackEntry {
            reduction: self.stack@[ply - 1].reduction,
            ..o.stack@[ply - 1]
        })
    }

    /// Nothing was learned, and what was noted of the plies before `ply` stands.
    pub open spec fn only_looked(&self, o: &Searcher, ply: int) -> bool {
        &&& self.hist == o.hist
        &&& self.stack@.len() == o.stack@.len()
        &&& forall|p: int| 0 <= p < ply ==> #[trigger] self.stack@[p] == o.stack@[p]
    }

    /// Nodes and journal only grow, and the search stops only where the host says so at a
    /// poll, when the number of nodes reaches a multiple of 4096.
    pub open spec fn goes_on_from(&self, o: &Searcher) -> bool {
        &&& extends(o.journal@, self.journal@)
        &&& o.nodes <= self.nodes
        &&& self.nmp_min_ply == o.nmp_min_ply
        &&& o.stopped ==> self.stopped
        &&& self.stopped && !o.stopped ==> o.nodes / 4096 < self.nodes / 4096 && told_to_stop(
            self.journal@,
            o.journal@.len() as int,
        )
    }

    pub(crate) fn count_node(&mut self)
        requires
            old(self).wf(),
        ensures
            final(self).wf(),
            *final(self) == (Searcher { nodes: final(self).nodes, ..*old(self) }),
            final(self).nodes == (if old(self).nodes < u64::MAX {
                old(self).nodes + 1
            } else {
                old(self).nodes as int
            }),
    {
        if self.nodes < u64::MAX {
            self.nodes = self.nodes + 1;
        }
    }

    /// Replaces one entry of the stack.
    pub(crate) fn put(&mut self, ply: usize, e: StackEntry)
        requires
            old(self).wf(),
            ply < STACK_SIZE,
            e.ok(ply as int),
        ensures
            final(self).wf(),
            *final(self) == (Searcher { stack: final(self).stack, ..*old(self) }),
            final(self).stack@ == old(self).stack@.update(ply as int, e),
    {
        self.stack.set(ply, e);
    }

    pub(crate) fn set_reduction(&mut self, ply: usize, reduction: i32)
        requires
            old(self).wf(),
            ply < STACK_SIZE,
            0 <= reduction <= 1000,
        ensures
            final(self).wf(),
            *final(self) == (Searcher { stack: final(self).stack, ..*old(self) }),
            final(self).stack@ == old(self).stack@.update(
                ply as int,
                StackEntry { reduction, ..old(self).stack@[ply as int] },
            ),
    {
        let mut e = self.stack[ply];
        e.reduction = reduction;
        self.put(ply, e);
    }

    pub(crate) fn set_stat_score(&mut self, ply: usize, stat_score: i32)
        requires
            old(self).wf(),
            ply < STACK_SIZE,
            -HISTORY_MAX <= stat_score <= HISTORY_MAX,
        ensures
            final(self).wf(),
            *final(self) == (Searcher { stack: final(self).stack, ..*old(self) }),
            final(self).stack@ == old(self).stack@.update(
                ply as int,
                StackEntry { stat_score, ..old(self).stack@[ply as int] },
            ),
    {
        let mut e = self.stack[ply];
        e.stat_score = stat_score;
        self.put(ply, e);
    }

    /// What the nodes below will count and remember starts afresh.
    pub(crate) fn reset_below(&mut self, ply: usize)
        requires
            old(self).wf(),
            ply < MAX_PLY,
        ensures
            final(self).wf(),
            *final(self) == (Searcher { stack: final(self).stack, ..*old(self) }),
            final(self).stack@[ply + 1].killers == (Move(0), Move(0)),
            ply + 2 < MAX_PLY ==> final(self).stack@[ply + 2].cutoff_cnt == 0,
            ply + 2 < MAX_PLY ==> final(self).stack@[ply + 2].stat_score == 0,
            ply + 4 < MAX_PLY ==> final(self).stack@[ply + 4].stat_score == 0,
            forall|p: int|
                0 <= p < STACK_SIZE && p != ply + 1 && p != ply + 2 && p != ply + 4
                    ==> #[trigger] final(self).stack@[p] == old(self).stack@[p],
    {
        if ply + 2 < MAX_PLY {
            let mut e = self.stack[ply + 2];
            e.cutoff_cnt = 0;
            e.stat_score = 0;
            self.put(ply + 2, e);
        }
        if ply + 4 < MAX_PLY {
            self.set_stat_score(ply + 4, 0);
        }
        let mut e = self.stack[ply + 1];
        e.killers = (Move::none(), Move::none());
        self.put(ply + 1, e);
    }

    // Quiescence

    /// Search of captures and evasions until the position is quiet. A game that is over and
    /// the ply limit are settled without a search. Unless the search was stopped, the last
    /// entry of the journal is this search, accounted for by the entries before it.
    pub fn qsearch<H: Host>(
        &mut self,
        host: &mut H,
        pos: &mut Position,
        ply: usize,
        qs_ply: usize,
        alpha: Value,
        beta: Value,
        node_type: NodeType,
    ) -> (r: Value)
        requires
            old(self).wf(),
            old(pos).wf(),
            1 <= ply < MAX_PLY,
            old(pos)@.searchable(ply as int),
            -SCORE_LIMIT <= alpha < beta <= SCORE_LIMIT,
        ensures
            final(self).only_looked(old(self), ply as int),
            final(self).kept(old(self), LINES as int),
            final(pos).wf(),
            final(pos)@ == old(pos)@,
            final(pos).keys == old(pos).keys,
            -SCORE_LIMIT <= r <= SCORE_LIMIT,
            old(self).quiesces(
                old(pos)@,
                ply,
                qs_ply,
                alpha,
                beta,
                node_type == NodeType::PV && !final(self).stopped,
                r,
            ),
            !final(self).stopped ==> ({
                let log = final(self).journal@;
                let c = old(self).quiet_call(old(pos)@, ply, qs_ply, alpha, beta, node_type, r);
                &&& log.len() > old(self).journal@.len()
                &&& log.last() == Event::Quiet(c)
                &&& quiet_accounted(log.drop_last(), c)
            }),
            unanswered(old(pos)@) && node_type == NodeType::PV ==> final(self).nodes
                <= counted(old(self).nodes),
        decreases MAX_PLY - ply, 3int,
    {
        let ghost o = *self;
        let ghost v = pos@;
        let r = self.quiet_value(host, pos, ply, qs_ply, alpha, beta, node_type);
        if !self.stopped {
            let ghost c = o.quiet_call(v, ply, qs_ply, alpha, beta, node_type, r);
            let ghost log = self.journal@;
            self.journal.record(Ghost(Event::Quiet(c)));
            proof {
                assert(self.journal@.drop_last() =~= log);
            }
        }
        r
    }

    /// The quiescence search of a position, as the journal has it.
    pub open spec fn quiet_call(
        &self,
        v: PosView,
        ply: usize,
        qs_ply: usize,
        alpha: Value,
        beta: Value,
        node_type: NodeType,
        r: Value,
    ) -> QuietCall {
        QuietCall {
            start: self.journal@.len() as int,
            seen: self.seen(),
            v,
            ply,
            qs_ply,
            alpha,
            beta,
            node_type,
            r,
        }
    }

    #[verifier::rlimit(40)]
    #[verifier::spinoff_prover]
    fn quiet_value<H: Host>(
        &mut self,
        host: &mut H,
        pos: &mut Position,
        ply: usize,
        qs_ply: usize,
        alpha: Value,
        beta: Value,
        node_type: NodeType,
    ) -> (r: Value)
        requires
            old(self).wf(),
            old(pos).wf(),
            1 <= ply < MAX_PLY,
            old(pos)@.searchable(ply as int),
            -SCORE_LIMIT <= alpha < beta <= SCORE_LIMIT,
        ensures
            final(self).only_looked(old(self), ply as int),
            final(self).kept(old(self), LINES as int),
            final(pos).wf(),
            final(pos)@ == old(pos)@,
            final(pos).keys == old(pos).keys,
            -SCORE_LIMIT <= r <= SCORE_LIMIT,
            old(self).quiesces(
                old(pos)@,
                ply,
                qs_ply,
                alpha,
                beta,
                node_type == NodeType::PV && !final(self).stopped,
                r,
            ),
            !final(self).stopped ==> quiet_accounted(
                final(self).journal@,
                old(self).quiet_call(old(pos)@, ply, qs_ply, alpha, beta, node_type, r),
            ),
            unanswered(old(pos)@) && node_type == NodeType::PV ==> final(self).nodes
                <= counted(old(self).nodes),
        decreases MAX_PLY - ply, 2int,
    {
        proof {
            reveal(quiet_accounted);
        }
        let ghost o = *self;
        let ghost call = o.quiet_call(pos@, ply, qs_ply, alpha, beta, node_type, 0);
        let mut alpha = alpha;
        if ply >= MAX_PLY - 1 {
            return evaluate_at(&mut self.journal, host, pos);
        }
        // A reversible move that repeats a position is always available as a draw.
        if alpha < VALUE_DRAW && pos.upcoming_repetition(ply, &self.cuckoo) {
            let draw: Value = value_draw(self.nodes);
            if draw >= beta {
                return draw;
            }
            if draw > alpha {
                alpha = draw;
            }
        }
        self.count_node();
        if self.qnodes < u64::MAX {
            self.qnodes = self.qnodes + 1;
        }
        if ply > self.seldepth {
            self.seldepth = ply;
        }
        if pos.is_draw(ply) {
            return VALUE_DRAW;
        }
        if let Some(x) = variant_terminal(pos, ply) {
            return x;
        }
        if self.check_time(host) {
            return 0;
        }
        let r = self.quiet_down(host, pos, ply, qs_ply, alpha, beta, node_type, Ghost(call));
        proof {
            if !self.stopped {
                let c = o.quiet_call(call.v, ply, qs_ply, call.alpha, beta, node_type, r);
                assert(c == QuietCall { r, ..call });
                assert(alpha == c.seen.held(c.v, ply, c.alpha));
                assert(quiet_accounted(self.journal@, c));
            }
        }
        r
    }

    /// Quiescence search of a position where the game goes on.
    #[verifier::rlimit(80)]
    fn quiet_down<H: Host>(
        &mut self,
        host: &mut H,
        pos: &mut Position,
        ply: usize,
        qs_ply: usize,
        alpha: Value,
        beta: Value,
        node_type: NodeType,
        Ghost(call): Ghost<QuietCall>,
    ) -> (r: Value)
        requires
            old(self).wf(),
            old(pos).wf(),
            1 <= ply < MAX_PLY - 1,
            old(pos)@.searchable(ply as int),
            -SCORE_LIMIT <= alpha < beta <= SCORE_LIMIT,
            call.v == old(pos)@,
            call.ply == ply,
            call.qs_ply == qs_ply,
            call.beta == beta,
            call.node_type == node_type,
            call.seen.hist == old(self).hist,
            call.seen.stack == old(self).stack@,
            0 <= call.start <= old(self).journal@.len(),
        ensures
            final(self).only_looked(old(self), ply as int),
            final(self).kept(old(self), LINES as int),
            final(pos).wf(),
            final(pos)@ == old(pos)@,
            final(pos).keys == old(pos).keys,
            -SCORE_LIMIT <= r <= SCORE_LIMIT,
            !final(self).stopped ==> exists|entry: Option<TTData>, raw: Value|
                probed(final(self).journal@, call.start, old(pos)@.st().key, entry)
                    && #[trigger] quiet_settled(
                    final(self).journal@,
                    QuietCall { r, ..call },
                    alpha,
                    entry,
                    raw,
                ),
            unanswered(old(pos)@) && node_type == NodeType::PV ==> final(self).nodes
                == old(self).nodes,
            node_type == NodeType::PV && !final(self).stopped ==> settled_quietly(
                old(pos)@,
                ply,
                qs_ply,
                alpha,
                r,
            ),
        decreases MAX_PLY - ply, 1int,
    {
        let ghost v = pos@;
        let ghost alpha_in = alpha;
        let mut alpha = alpha;
        let is_pv = node_type == NodeType::PV;
        let in_check = pos.in_check();
        // Antichess: with a capture available standing pat is not an option.
        let forced = pos.captures_forced();
        let key = pos.key();
        let alpha_orig = alpha;
        let rule50 = pos.rule50_count();
        let ghost log0 = self.journal@;
        let entry = probe(&mut self.journal, host, key);
        proof {
            lemma_probed(self.journal@, self.journal@, log0.len() as int, call.start, key, entry);
        }
        let ghost log_probed = self.journal@;
        let tt_hit = entry.is_some();
        let (tt_move, tt_value, tt_eval, tt_bound, pv_hit) = match entry {
            Some(d) => (d.mv, value_from_tt(d.score, ply, rule50), d.eval, d.bound, d.is_pv),
            None => (Move::none(), VALUE_NONE, VALUE_NONE, Bound::Empty, false),
        };
        if !is_pv && tt_hit && tt_value != VALUE_NONE && bound_fits(tt_value, beta, tt_bound) {
            proof {
                assert(quiet_settled(
                    self.journal@,
                    QuietCall { r: tt_value, ..call },
                    alpha_in,
                    entry,
                    0,
                )) by {
                    reveal(quiet_settled);
                }
            }
            return tt_value;
        }
        let prev = self.prev_move_idx(ply);
        let mut unadjusted: Value = VALUE_NONE;
        let mut best: Value = -VALUE_INFINITE;
        if !in_check && !forced {
            let raw: Value = if tt_hit && tt_eval != VALUE_NONE {
                tt_eval
            } else {
                let ghost log1 = self.journal@;
                let e = evaluate_at(&mut self.journal, host, pos);
                proof {
                    lemma_evaluated(
                        self.journal@,
                        self.journal@,
                        log1.len() as int,
                        call.start,
                        v,
                        e,
                    );
                }
                e
            };
            unadjusted = raw;
            best = self.adjusted_eval(pos, raw, prev);
            if tt_hit && tt_value != VALUE_NONE && !is_decisive(tt_value) {
                let fits = if tt_value > best {
                    tt_bound.has_lower()
                } else {
                    tt_bound.has_upper()
                };
                if fits {
                    best = tt_value;
                }
            }
            let ghost stand = best;
            let ghost log1 = self.journal@;
            proof {
                assert(stand == stand_pat(call.seen, v, ply, entry, raw));
                assert(raw_found(log1, call.start, v, entry, raw));
            }
            // Stand pat
            if best >= beta {
                if !is_decisive(best) {
                    best = halfway(best, beta);
                }
                if !tt_hit {
                    store(
                        &mut self.journal,
                        host,
                        key,
                        Store {
                            depth: 0,
                            bound: Bound::Lower,
                            is_pv: false,
                            score: value_to_tt(best, ply),
                            eval: unadjusted,
                            mv: Move::none(),
                        },
                    );
                }
                proof {
                    let log = self.journal@;
                    lemma_probed(log1, log, call.start, call.start, key, entry);
                    lemma_raw_found(log1, log, call.start, v, entry, raw);
                    assert(best == eased(stand, beta));
                    assert(quiet_settled(
                        log,
                        QuietCall { r: best, ..call },
                        alpha_in,
                        entry,
                        raw,
                    )) by {
                    reveal(quiet_settled);
                }
                }
                return best;
            }
            if best > alpha {
                alpha = best;
            }
            if !tt_hit {
                store(
                    &mut self.journal,
                    host,
                    key,
                    Store {
                        depth: 0,
                        bound: Bound::Empty,
                        is_pv: false,
                        score: VALUE_NONE,
                        eval: unadjusted,
                        mv: Move::none(),
                    },
                );
            }
            proof {
                lemma_raw_found(log1, self.journal@, call.start, v, entry, unadjusted);
            }
        }
        let ghost raw = unadjusted;
        let ghost log2 = self.journal@;
        proof {
            lemma_probed(log_probed, log2, call.start, call.start, key, entry);
            if !pressed(v) {
                assert(best == stand_pat(call.seen, v, ply, entry, raw));
                assert(raw_found(log2, call.start, v, entry, raw));
            }
        }
        // Cap check/evasion chains.
        if qs_ply >= MAX_QSEARCH_DEPTH {
            let r = if in_check || forced {
                alpha
            } else {
                best
            };
            proof {
                assert(quiet_settled(log2, QuietCall { r, ..call }, alpha_in, entry, raw)) by {
                    reveal(quiet_settled);
                }
            }
            return r;
        }
        let ghost low = alpha;
        let ghost floor = best;
        let r = self.quiet_moves(
            host,
            pos,
            ply,
            qs_ply,
            alpha,
            beta,
            node_type,
            tt_move,
            best,
            Quieting { key, pv_hit, unadjusted, alpha_orig },
            Ghost(call),
        );
        proof {
            let log = self.journal@;
            lemma_probed(log2, log, call.start, call.start, key, entry);
            if !pressed(v) {
                lemma_raw_found(log2, log, call.start, v, entry, raw);
            }
            if !self.stopped {
                let c = QuietCall { r, ..call };
                lemma_quiet_settled(log, c, alpha_in, entry, raw, low, floor);
                lemma_quiet_answered(log, c, alpha_orig, low, floor, pv_hit, unadjusted);
            }
        }
        r
    }

    /// Searches the moves of a quiescence node from `floor` on and stores the result.
    #[verifier::rlimit(40)]
    #[verifier::spinoff_prover]
    fn quiet_moves<H: Host>(
        &mut self,
        host: &mut H,
        pos: &mut Position,
        ply: usize,
        qs_ply: usize,
        low: Value,
        beta: Value,
        node_type: NodeType,
        tt_move: Move,
        floor: Value,
        known: Quieting,
        Ghost(call): Ghost<QuietCall>,
    ) -> (r: Value)
        requires
            old(self).wf(),
            old(pos).wf(),
            1 <= ply < MAX_PLY - 1,
            qs_ply < MAX_QSEARCH_DEPTH,
            old(pos)@.searchable(ply as int),
            -SCORE_LIMIT <= low < beta <= SCORE_LIMIT,
            -SCORE_LIMIT <= floor <= SCORE_LIMIT,
            pressed(old(pos)@) ==> floor == -VALUE_INFINITE,
            call.v == old(pos)@,
            call.ply == ply,
            call.qs_ply == qs_ply,
            call.beta == beta,
            call.node_type == node_type,
            call.seen.stack == old(self).stack@,
            0 <= call.start <= old(self).journal@.len(),
            known.key == old(pos)@.st().key,
        ensures
            final(self).only_looked(old(self), ply as int),
            final(self).kept(old(self), LINES as int),
            final(pos).wf(),
            final(pos)@ == old(pos)@,
            final(pos).keys == old(pos).keys,
            -SCORE_LIMIT <= r <= SCORE_LIMIT,
            !final(self).stopped ==> quiet_searched(
                final(self).journal@,
                QuietCall { r, ..call },
                known.alpha_orig,
                low,
                floor,
                known.pv_hit,
                known.unadjusted,
            ),
            (forall|m: Move| !#[trigger] old(pos)@.legal(m)) ==> final(self).nodes
                == old(self).nodes,
        decreases MAX_PLY - ply, 0int,
    {
        let ghost v = pos@;
        let ghost o = *self;
        let in_check = pos.in_check();
        let forced = pos.captures_forced();
        let mut alpha = low;
        let mut best = floor;
        let mut best_move = Move::none();
        let list = quiescence_moves(pos, tt_move);
        proof {
            assert forall|k: int| 0 <= k < list@.len() && !v.in_check() implies capture_moves(
                v,
            ).contains(#[trigger] list@[k]) by {
                assert(list@.contains(list@[k]));
            }
        }
        let prev_move = self.stack[ply - 1].current_move;
        let prev_sq: Square = if prev_move.is_ok() {
            prev_move.to_sq()
        } else {
            SQ_NONE
        };
        let mut legal: usize = 0;
        let mut i: usize = 0;
        let mut cut = false;
        let ghost mut tries: Seq<Try> = seq![];
        while i < list.len() && !cut
            invariant
                i <= list@.len(),
                legal <= i,
                (forall|m: Move| !v.legal(m)) ==> legal == 0,
                v == pos@,
                o == *old(self),
                v == old(pos)@,
                pos.wf(),
                pos.keys == old(pos).keys,
                v.searchable(ply as int),
                1 <= ply < MAX_PLY - 1,
                qs_ply < MAX_QSEARCH_DEPTH,
                self.kept(&o, LINES as int),
                self.only_looked(&o, ply as int),
                forall|k: int|
                    0 <= k < list@.len() ==> candidates(v).contains(#[trigger] list@[k]) && (
                    !v.in_check() ==> capture_moves(v).contains(list@[k])),
                best_move == raising_move(tries, tries.len() as int, low, floor),
                -SCORE_LIMIT <= alpha,
                beta <= SCORE_LIMIT,
                !cut ==> alpha < beta,
                -SCORE_LIMIT <= best <= SCORE_LIMIT,
                legal == tries.len(),
                legal == 0 ==> self.nodes == o.nodes,
                call.v == v,
                call.ply == ply,
                call.qs_ply == qs_ply,
                call.beta == beta,
                call.node_type == node_type,
                call.seen.stack == o.stack@,
                0 <= call.start <= o.journal@.len(),
                best == top(tries, tries.len() as int, floor),
                alpha == alpha_after(tries, tries.len() as int, low, floor),
                in_check == v.in_check(),
                forced == (v.variant == Variant::Antichess && v.st().must_capture),
                prev_sq as int == call.seen.last_square(ply),
                cut ==> best >= beta && legal > 0,
                floor <= best,
                forall|k: int|
                    0 <= k < tries.len() ==> #[trigger] quiet_try(
                        self.journal@,
                        call,
                        low,
                        floor,
                        tries,
                        k,
                    ),
                forall|k: int|
                    0 <= k < i && v.legal(#[trigger] list@[k]) ==> has_tried(tries, list@[k]) || (
                    !pressed(v) && poor_capture(call, alpha, floor, list@[k])),
            decreases list@.len() - i,
        {
            let m = list.get(i);
            i += 1;
            let ghost tries0 = tries;
            let ghost alpha0 = alpha;
            let mut tried = true;
            if !in_check && !forced && !is_loss(best) && prev_sq != m.to_sq() {
                // Losing captures never help; nor do ones that cannot reach alpha.
                tried = pos.see_ge(m, 0) && best + capture_gain(pos, m) + DELTA_MARGIN >= alpha;
            }
            if tried && pos.legal(m) {
                proof {
                    legal_test_is_exact(v, m);
                }
                let pc = pos.moved_piece(m);
                let is_capture = pos.is_capture(m);
                let ghost before = self.journal@;
                self.set_ctx(ply, m, pc, in_check, is_capture);
                play_move(pos, m);
                legal += 1;
                let s = self.qsearch(host, pos, ply + 1, qs_ply + 1, -beta, -alpha, node_type);
                let score: Value = -s;
                pos.unmake_move(m);
                if self.stopped {
                    return best;
                }
                let ghost t = Try { m, at: self.journal@.len() - 1, score };
                proof {
                    lemma_top_push(tries, t, tries.len() as int, floor);
                    lemma_top_more(tries, t, floor);
                    lemma_tried_more(tries, t);
                    lemma_raising_push(tries, t, tries.len() as int, low, floor);
                    assert(tries.push(t)[tries.len() as int] == t);
                    assert(quiet_try(
                        self.journal@,
                        call,
                        low,
                        floor,
                        tries.push(t),
                        tries.len() as int,
                    ));
                    lemma_quiet_tries(before, self.journal@, call, low, floor, tries, t);
                    tries = tries.push(t);
                }
                if score > best {
                    best = score;
                    if score > alpha {
                        alpha = score;
                        best_move = m;
                        cut = alpha >= beta;
                    }
                }
            } else {
                proof {
                    legal_test_is_exact(v, m);
                }
            }
            proof {
                assert forall|k: int| 0 <= k < i && v.legal(#[trigger] list@[k]) implies has_tried(
                    tries,
                    list@[k],
                ) || (!pressed(v) && poor_capture(call, alpha, floor, list@[k])) by {
                    if k < i - 1 {
                        assert(has_tried(tries0, list@[k]) || (!pressed(v) && poor_capture(
                            call,
                            alpha0,
                            floor,
                            list@[k],
                        )));
                    }
                }
            }
        }
        if legal == 0 {
            if in_check {
                proof {
                    lemma_quiet_done(v, list@, tries, call, low, floor, alpha, best, cut);
                    assert(quiet_outcome(
                        self.journal@,
                        QuietCall { r: mated_in(ply), ..call },
                        low,
                        floor,
                        tries,
                    ));
                }
                return mated_in(ply);
            }
            if forced {
                let r = terminal_value(pos, ply);
                proof {
                    lemma_quiet_done(v, list@, tries, call, low, floor, alpha, best, cut);
                    assert(quiet_outcome(
                        self.journal@,
                        QuietCall { r, ..call },
                        low,
                        floor,
                        tries,
                    ));
                }
                return r;
            }
        }
        let ghost found = best;
        if !is_decisive(best) && best > beta {
            best = halfway(best, beta);
        }
        let ghost log3 = self.journal@;
        let bound = if best >= beta {
            Bound::Lower
        } else if best <= known.alpha_orig {
            Bound::Upper
        } else {
            Bound::Exact
        };
        store(
            &mut self.journal,
            host,
            known.key,
            Store {
                depth: 0,
                bound,
                is_pv: known.pv_hit,
                score: value_to_tt(best, ply),
                eval: known.unadjusted,
                mv: best_move,
            },
        );
        proof {
            let log = self.journal@;
            let c = QuietCall { r: best, ..call };
            lemma_quiet_done(v, list@, tries, call, low, floor, alpha, found, cut);
            lemma_quiet_tries_kept(log3, log, call, low, floor, tries, best);
            assert(best == eased(found, beta));
            assert(quiet_outcome(log, c, low, floor, tries));
            let s = quiet_record(
                c,
                known.alpha_orig,
                low,
                floor,
                tries,
                known.pv_hit,
                known.unadjusted,
            );
            assert(stores(log3, log, c.v.st().key, s));
            assert(quiet_stored(
                log,
                c,
                known.alpha_orig,
                low,
                floor,
                tries,
                known.pv_hit,
                known.unadjusted,
            ));
        }
        best
    }
}

/// What a quiescence node knows when its moves are searched.
#[derive(Clone, Copy)]
pub struct Quieting {
    pub key: u64,
    /// The table's entry lies on a principal variation.
    pub pv_hit: bool,
    /// Evaluation before the learned correction.
    pub unadjusted: Value,
    pub alpha_orig: Value,
}

/// No reply to the position: there is no legal move and one has to be made.
pub open spec fn unanswered(v: PosView) -> bool {
    pressed(v) && forall|m: Move| !#[trigger] v.legal(m)
}

/// A lookup is still on record in a longer journal, asked for from further back.
pub proof fn lemma_probed(
    a: Seq<Event>,
    b: Seq<Event>,
    from: int,
    back: int,
    key: u64,
    entry: Option<TTData>,
)
    requires
        probed(a, from, key, entry),
        extends(a, b),
        0 <= back <= from,
    ensures
        probed(b, back, key, entry),
{
    let j = choose|j: int|
        from <= j < a.len() && (#[trigger] a[j] matches Event::Bucket { key: k, slots } && k == key
            && entry == table_entry(slots, key));
    assert(b[j] == a[j]);
}

/// An evaluation is still on record in a longer journal, asked for from further back.
pub proof fn lemma_evaluated(
    a: Seq<Event>,
    b: Seq<Event>,
    from: int,
    back: int,
    v: PosView,
    e: Value,
)
    requires
        evaluated(a, from, v, e),
        extends(a, b),
        0 <= back <= from,
    ensures
        evaluated(b, back, v, e),
{
    if v.own_evaluation() is None {
        let j = choose|j: int|
            from <= j < a.len() && (#[trigger] a[j] matches Event::Network { v: w, value } && w == v
                && e == v.evaluation(value as int));
        assert(b[j] == a[j]);
    }
}

pub proof fn lemma_raw_found(
    a: Seq<Event>,
    b: Seq<Event>,
    from: int,
    v: PosView,
    entry: Option<TTData>,
    raw: Value,
)
    requires
        raw_found(a, from, v, entry, raw),
        extends(a, b),
        0 <= from,
    ensures
        raw_found(b, from, v, entry, raw),
{
    if !(entry matches Some(d) && d.eval != VALUE_NONE) {
        lemma_evaluated(a, b, from, from, v, raw);
    }
}

/// A quiescence node is settled by its moves.
proof fn lemma_quiet_settled(
    log: Seq<Event>,
    c: QuietCall,
    alpha: Value,
    entry: Option<TTData>,
    raw: Value,
    low: Value,
    floor: Value,
)
    requires
        c.node_type == NodeType::PV || entry is None || entry_value(entry, c.v, c.ply)
            == VALUE_NONE || !bound_fits(
            entry_value(entry, c.v, c.ply),
            c.beta,
            entry_bound(entry),
        ),
        c.qs_ply < MAX_QSEARCH_DEPTH,
        quiet_searched(
            log,
            c,
            alpha,
            low,
            floor,
            entry matches Some(d) && d.is_pv,
            if pressed(c.v) {
                VALUE_NONE
            } else {
                raw
            },
        ),
        pressed(c.v) ==> low == alpha && floor == -VALUE_INFINITE,
        !pressed(c.v) ==> {
            &&& floor == stand_pat(c.seen, c.v, c.ply, entry, raw)
            &&& floor < c.beta
            &&& low == larger(floor, alpha)
            &&& raw_found(log, c.start, c.v, entry, raw)
        },
    ensures
        quiet_settled(log, c, alpha, entry, raw),
{
    reveal(quiet_settled);
}

/// Without a legal move where one has to be made the node is what the rules say.
proof fn lemma_quiet_answered(
    log: Seq<Event>,
    c: QuietCall,
    alpha: Value,
    low: Value,
    floor: Value,
    is_pv: bool,
    eval: Value,
)
    requires
        quiet_searched(log, c, alpha, low, floor, is_pv, eval),
    ensures
        unanswered(c.v) ==> c.r == (if c.v.in_check() {
            mated_in(c.ply)
        } else {
            c.v.terminal_score(c.ply)
        }),
{
    let tries = choose|tries: Seq<Try>|
        {
            &&& #[trigger] quiet_outcome(log, c, low, floor, tries)
            &&& unanswered(c.v) || quiet_stored(log, c, alpha, low, floor, tries, is_pv, eval)
        };
    if tries.len() > 0 {
        assert(quiet_try(log, c, low, floor, tries, 0));
        assert(c.v.legal(tries[0].m));
    }
}

/// Every legal move that quiescence looks at is accounted for once its list is done.
proof fn lemma_quiet_done(
    v: PosView,
    list: Seq<Move>,
    tries: Seq<Try>,
    c: QuietCall,
    low: Value,
    floor: Value,
    alpha: Value,
    best: Value,
    cut: bool,
)
    requires
        v.sound(),
        c.v == v,
        best == top(tries, tries.len() as int, floor),
        alpha == alpha_after(tries, tries.len() as int, low, floor),
        cut ==> best >= c.beta && tries.len() > 0,
        forall|m: Move| #[trigger]
            list.contains(m) <==> if v.in_check() {
                candidates(v).contains(m)
            } else {
                capture_moves(v).contains(m)
            },
        !cut ==> forall|k: int|
            0 <= k < list.len() && v.legal(#[trigger] list[k]) ==> has_tried(tries, list[k]) || (
            !pressed(v) && poor_capture(c, alpha, floor, list[k])),
    ensures
        pressed(v) && tries.len() == 0 ==> forall|m: Move| !#[trigger] v.legal(m),
        best < c.beta && pressed(v) ==> forall|m: Move| #[trigger]
            v.legal(m) ==> has_tried(tries, m),
        best < c.beta && !pressed(v) ==> forall|m: Move| #[trigger]
            v.legal(m) && capture_moves(v).contains(m) ==> has_tried(tries, m) || poor_capture(
                c,
                alpha,
                floor,
                m,
            ),
{
    if !cut {
        assert forall|m: Move| #[trigger] v.legal(m) && (pressed(v) || capture_moves(v).contains(m))
            implies has_tried(tries, m) || (!pressed(v) && poor_capture(c, alpha, floor, m)) by {
            legal_test_is_exact(v, m);
            assert(list.contains(m));
            let k = choose|k: int| 0 <= k < list.len() && list[k] == m;
            assert(v.legal(list[k]));
        }
    }
}

/// The moves quiescence looks at, best first: evasions in check, captures otherwise.
pub fn quiescence_moves(pos: &Position, tt_move: Move) -> (r: MoveList)
    requires
        pos.wf(),
    ensures
        r@.no_duplicates(),
        forall|m: Move| #[trigger]
            r@.contains(m) <==> if pos@.in_check() {
                candidates(pos@).contains(m)
            } else {
                capture_moves(pos@).contains(m)
            },
        forall|i: int| 0 <= i < r@.len() ==> candidates(pos@).contains(#[trigger] r@[i]),
        forall|i: int, j: int|
            0 <= i < j < r@.len() ==> pos@.capture_rank(#[trigger] r@[i], tt_move)
                >= pos@.capture_rank(#[trigger] r@[j], tt_move),
{
    let ghost v = pos@;
    let mut list = MoveList::new();
    if pos.in_check() {
        movegen::generate_evasions(pos, &mut list);
        proof {
            lemma_adds_contains(list@, candidates(v));
        }
    } else {
        movegen::generate_captures(pos, &mut list);
        proof {
            lemma_adds_contains(list@, capture_moves(v));
        }
    }
    let ghost a = list@;
    sort_captures(pos, &mut list, tt_move);
    proof {
        broadcast use {group_to_multiset_ensures, group_multiset_axioms};

        lemma_candidates(v);
        assert forall|m: Move| #[trigger] list@.contains(m) <==> a.contains(m) by {
            assert(list@.to_multiset().count(m) == a.to_multiset().count(m));
        }
        assert forall|i: int| 0 <= i < list@.len() implies candidates(v).contains(
            #[trigger] list@[i],
        ) by {
            assert(list@.contains(list@[i]));
            assert(a.contains(list@[i]));
        }
        a.lemma_multiset_has_no_duplicates();
        list@.lemma_multiset_has_no_duplicates_conv();
    }
    list
}

} // verus!
