//! Network evaluation along a game: accumulators are kept for every ply and brought up to
//! date lazily, from the ply before or, where the king has changed bucket or side of the
//! board, from a cache holding the last accumulator seen in that bucket.

use vstd::prelude::*;

use crate::bits::group_has;
use crate::eval::{evaluate, evaluate_without_network};
use crate::geometry::on_board;
use crate::network::{
    congruent, first_sum, output_bucket, stack_value, update, update_follows_board,
    update_in_place, Accumulator, Network,
};
use crate::position::Position;
use crate::rules::{is_king_square, king, one_king, Board};
use crate::snapshot::{board_fits, compute, is_pawn, Perspective, Snapshot};
use crate::threats::{king_bucket, king_context, ThreatTables};
use crate::types::{relative_square, Color, PieceType, Square, Value, VALUE_EVAL_MAX};

verus! {

broadcast use group_has;

/// How `p` sees the board with its king on `ksq`.
pub open spec fn perspective(p: Color, ksq: Square) -> Perspective {
    Perspective {
        p,
        bucket: king_bucket(relative_square(p, ksq) as int) as usize,
        flip: if relative_square(p, ksq) % 8 > 3 {
            7
        } else {
            0
        },
    }
}

pub fn perspective_of(p: Color, ksq: Square) -> (r: Perspective)
    requires
        ksq < 64,
    ensures
        r == perspective(p, ksq),
        r.wf(),
{
    let (bucket, flip) = king_context(p, ksq);
    Perspective { p, bucket, flip }
}

/// The 16-bit number congruent to `y`.
pub open spec fn wrapped(y: int) -> i16 {
    ((y + 32768) % 65536 - 32768) as i16
}

/// The accumulator of a board as one side sees it.
pub open spec fn lanes(net: &Network, b: Board, v: Perspective) -> Seq<i16> {
    Seq::new(1024, |i: int| wrapped(net.lane_value(b, v, i)))
}

proof fn lemma_lanes(net: &Network, acc: &Accumulator, b: Board, v: Perspective)
    requires
        net.fits(acc, b, v),
    ensures
        acc.v@ == lanes(net, b, v),
{
    assert forall|i: int| 0 <= i < 1024 implies acc.v@[i] == lanes(net, b, v)[i] by {
        let y = net.lane_value(b, v, i);
        assert(congruent(acc.v@[i] as int, y));
        let x = wrapped(y);
        assert(congruent(x as int, y));
        crate::network::congruent_numbers_agree(acc.v@[i], x, y);
    }
    assert(acc.v@ =~= lanes(net, b, v));
}

/// One ply: what the network sees of it and the accumulators worked out so far.
pub struct AccEntry {
    pub white: Option<Accumulator>,
    pub black: Option<Accumulator>,
    pub snap: Snapshot,
}

impl AccEntry {
    pub open spec fn acc(&self, p: Color) -> Option<Accumulator> {
        if p == Color::White {
            self.white
        } else {
            self.black
        }
    }

    /// How `p` sees this ply.
    pub open spec fn seen(&self, p: Color) -> Perspective {
        perspective(p, self.snap.kings@[p.idx() as int])
    }

    pub open spec fn wf(&self, net: &Network) -> bool {
        &&& self.snap.wf()
        &&& self.snap.threats_ready
        &&& self.snap.kings@[0] < 64
        &&& self.snap.kings@[1] < 64
        &&& self.white matches Some(a) ==> net.fits(&a, self.snap.board@, self.seen(Color::White))
        &&& self.black matches Some(a) ==> net.fits(&a, self.snap.board@, self.seen(Color::Black))
    }

    fn has(&self, p: Color) -> (r: bool)
        ensures
            r == (self.acc(p) is Some),
    {
        match p {
            Color::White => self.white.is_some(),
            Color::Black => self.black.is_some(),
        }
    }

    fn view(&self, p: Color) -> (r: Perspective)
        requires
            self.snap.kings@[0] < 64,
            self.snap.kings@[1] < 64,
        ensures
            r == self.seen(p),
            r.wf(),
    {
        perspective_of(p, self.snap.kings[p.idx()])
    }

    fn put(&mut self, p: Color, a: Accumulator)
        ensures
            final(self).snap == old(self).snap,
            final(self).acc(p) == Some(a),
            final(self).acc(p.flip()) == old(self).acc(p.flip()),
    {
        match p {
            Color::White => {
                self.white = Some(a);
            },
            Color::Black => {
                self.black = Some(a);
            },
        }
    }
}

/// The last accumulator seen in a king bucket on one side of the board.
pub struct CacheEntry {
    pub acc: Accumulator,
    pub snap: Snapshot,
}

/// The perspective cache slot `i` is for.
pub open spec fn slot_view(i: int) -> Perspective {
    Perspective {
        p: if i < 20 {
            Color::White
        } else {
            Color::Black
        },
        bucket: (i % 20 / 2) as usize,
        flip: if i % 2 == 0 {
            0
        } else {
            7
        },
    }
}

impl CacheEntry {
    pub open spec fn wf(&self, net: &Network, i: int) -> bool {
        &&& self.snap.wf()
        &&& self.snap.threats_ready
        &&& net.fits(&self.acc, self.snap.board@, slot_view(i))
    }
}

/// Everything the network needs alongside a position.
pub struct NnueState {
    pub stack: Vec<AccEntry>,
    pub cache: Vec<CacheEntry>,
}

impl NnueState {
    pub open spec fn wf(&self, net: &Network) -> bool {
        &&& self.stack@.len() >= 1
        &&& forall|i: int| 0 <= i < self.stack@.len() ==> (#[trigger] self.stack@[i]).wf(net)
        &&& self.cache@.len() == 40
        &&& forall|i: int| 0 <= i < 40 ==> (#[trigger] self.cache@[i]).wf(net, i)
    }

    /// A state for a game that starts from `snap`.
    pub fn new(net: &Network, snap: Snapshot) -> (r: NnueState)
        requires
            net.wf(),
            snap.wf(),
            snap.kings@[0] < 64,
            snap.kings@[1] < 64,
        ensures
            r.wf(net),
            r.stack@.len() == 1,
            r.stack@[0].snap.board@ == snap.board@,
            r.stack@[0].snap.kings@ == snap.kings@,
    {
        let mut cache: Vec<CacheEntry> = Vec::new();
        let mut i: usize = 0;
        while i < 40
            invariant
                i <= 40,
                net.wf(),
                cache@.len() == i,
                forall|k: int| 0 <= k < i ==> (#[trigger] cache@[k]).wf(net, k),
            decreases 40 - i,
        {
            let empty = Snapshot::empty();
            let v = Perspective {
                p: if i < 20 {
                    Color::White
                } else {
                    Color::Black
                },
                bucket: i % 20 / 2,
                flip: if i % 2 == 0 {
                    0
                } else {
                    7
                },
            };
            let acc = Accumulator::fresh(net, Ghost(empty.board@), v);
            cache.push(CacheEntry { acc, snap: empty });
            i += 1;
        }
        let mut first = snap;
        first.ensure_threats();
        let mut stack: Vec<AccEntry> = Vec::new();
        stack.push(AccEntry { white: None, black: None, snap: first });
        NnueState { stack, cache }
    }

    /// Forgets the game: the board was set up from scratch. The cache stays.
    pub fn reset(&mut self, net: &Network, snap: Snapshot)
        requires
            old(self).wf(net),
            snap.wf(),
            snap.kings@[0] < 64,
            snap.kings@[1] < 64,
        ensures
            final(self).wf(net),
            final(self).cache == old(self).cache,
            final(self).stack@.len() == 1,
            final(self).stack@[0].snap.board@ == snap.board@,
            final(self).stack@[0].snap.kings@ == snap.kings@,
    {
        let mut first = snap;
        first.ensure_threats();
        let mut stack: Vec<AccEntry> = Vec::new();
        stack.push(AccEntry { white: None, black: None, snap: first });
        self.stack = stack;
    }

    /// Opens the ply after a move, given the resulting position.
    pub fn push(&mut self, net: &Network, snap: Snapshot)
        requires
            old(self).wf(net),
            snap.wf(),
            snap.kings@[0] < 64,
            snap.kings@[1] < 64,
        ensures
            final(self).wf(net),
            final(self).cache == old(self).cache,
            final(self).stack@.len() == old(self).stack@.len() + 1,
            final(self).stack@.drop_last() == old(self).stack@,
            final(self).stack@.last().snap.board@ == snap.board@,
            final(self).stack@.last().snap.kings@ == snap.kings@,
    {
        let mut now = snap;
        now.ensure_threats();
        let ghost o = self.stack@;
        self.stack.push(AccEntry { white: None, black: None, snap: now });
        proof {
            assert(self.stack@.drop_last() =~= o);
        }
    }

    /// Opens the ply after a null move: the board is unchanged.
    pub fn push_same(&mut self, net: &Network)
        requires
            old(self).wf(net),
        ensures
            final(self).wf(net),
            final(self).cache == old(self).cache,
            final(self).stack@.len() == old(self).stack@.len() + 1,
            final(self).stack@.drop_last() == old(self).stack@,
            final(self).stack@.last().snap == old(self).stack@.last().snap,
    {
        let snap = self.stack[self.stack.len() - 1].snap;
        let ghost o = self.stack@;
        proof {
            assert(o[o.len() - 1].wf(net));
        }
        self.stack.push(AccEntry { white: None, black: None, snap });
        proof {
            assert(self.stack@.drop_last() =~= o);
        }
    }

    /// Closes the ply opened last.
    pub fn pop(&mut self, net: &Network)
        requires
            old(self).wf(net),
            old(self).stack@.len() >= 2,
        ensures
            final(self).wf(net),
            final(self).cache == old(self).cache,
            final(self).stack@ == old(self).stack@.drop_last(),
    {
        let _ = self.stack.pop();
    }

    /// How to bring `p`'s top accumulator up to date: rebuild it from the cache, or replay
    /// the plies from the given index (whose predecessor is computed).
    fn plan(&self, net: &Network, p: Color) -> (r: Option<usize>)
        requires
            self.wf(net),
        ensures
            r matches Some(i) ==> {
                &&& 1 <= i < self.stack@.len()
                &&& self.stack@[i - 1].acc(p) is Some
                &&& forall|j: int|
                    i - 1 <= j < self.stack@.len() ==> (#[trigger] self.stack@[j]).seen(p)
                        == self.stack@.last().seen(p)
            },
    {
        let mut i = self.stack.len() - 1;
        loop
            invariant
                i < self.stack@.len(),
                self.wf(net),
                forall|j: int|
                    i <= j < self.stack@.len() ==> (#[trigger] self.stack@[j]).seen(p)
                        == self.stack@.last().seen(p),
            decreases i,
        {
            if i == 0 {
                return None;
            }
            proof {
                assert(self.stack@[i - 1].wf(net));
                assert(self.stack@[i as int].wf(net));
            }
            if self.stack[i - 1].view(p) != self.stack[i].view(p) {
                return None;
            }
            if self.stack[i - 1].has(p) {
                return Some(i);
            }
            i -= 1;
        }
    }

    /// Replays the plies from `i` on for `p`.
    #[verifier::spinoff_prover]
    #[verifier::rlimit(40)]
    fn replay(&mut self, net: &Network, tables: &ThreatTables, i: usize, p: Color)
        requires
            old(self).wf(net),
            net.wf(),
            tables.wf(),
            1 <= i < old(self).stack@.len(),
            old(self).stack@[i - 1].acc(p) is Some,
            forall|j: int|
                i - 1 <= j < old(self).stack@.len() ==> (#[trigger] old(self).stack@[j]).seen(p)
                    == old(self).stack@.last().seen(p),
        ensures
            final(self).wf(net),
            final(self).same_game(old(self)),
            final(self).stack@.last().acc(p) is Some,
            final(self).stack@.last().acc(p.flip()) == old(self).stack@.last().acc(p.flip()),
    {
        let ghost o = *self;
        let ghost n = self.stack@.len();
        let ghost v0 = self.stack@.last().seen(p);
        // The plies to replay are taken off and put back one by one.
        let mut off: Vec<AccEntry> = Vec::new();
        while self.stack.len() > i
            invariant
                1 <= i <= self.stack@.len() <= n == o.stack@.len(),
                self.cache == o.cache,
                off@.len() == n - self.stack@.len(),
                forall|k: int| 0 <= k < self.stack@.len() ==> #[trigger] self.stack@[k] == o.stack@[k],
                forall|k: int| 0 <= k < off@.len() ==> #[trigger] off@[k] == o.stack@[n - 1 - k],
            decreases self.stack@.len(),
        {
            if let Some(e) = self.stack.pop() {
                off.push(e);
            }
        }
        while off.len() > 0
            invariant
                net.wf(),
                tables.wf(),
                o.wf(net),
                1 <= i < n,
                n == o.stack@.len(),
                self.cache == o.cache,
                i <= self.stack@.len(),
                off@.len() == n - self.stack@.len(),
                forall|k: int| 0 <= k < off@.len() ==> #[trigger] off@[k] == o.stack@[n - 1 - k],
                forall|k: int|
                    0 <= k < self.stack@.len() ==> (#[trigger] self.stack@[k]).snap
                        == o.stack@[k].snap && self.stack@[k].wf(net) && self.stack@[k].acc(p.flip())
                        == o.stack@[k].acc(p.flip()),
                self.stack@.last().acc(p) is Some,
                forall|j: int| i - 1 <= j < n ==> (#[trigger] o.stack@[j]).seen(p) == v0,
            decreases off@.len(),
        {
            let ghost m = self.stack@.len() as int;
            if let Some(mut e) = off.pop() {
                proof {
                    assert(e == o.stack@[m]);
                    assert(o.stack@[m].wf(net));
                    assert(o.stack@[m - 1].seen(p) == v0);
                    assert(o.stack@[m].seen(p) == v0);
                    assert(self.stack@[m - 1].snap == o.stack@[m - 1].snap);
                }
                let src = &self.stack[self.stack.len() - 1];
                let v = e.view(p);
                let lists = compute(tables, &src.snap, &e.snap, v);
                let acc = match p {
                    Color::White => &src.white,
                    Color::Black => &src.black,
                };
                if let Some(a) = acc {
                    let fresh = update(net, a, &lists);
                    proof {
                        update_follows_board(
                            net,
                            a,
                            &fresh,
                            &lists,
                            src.snap.board@,
                            e.snap.board@,
                            v,
                        );
                    }
                    let ghost e0 = e;
                    e.put(p, fresh);
                    proof {
                        assert(e.acc(p.flip()) == e0.acc(p.flip()));
                        assert(e.wf(net));
                    }
                }
                self.stack.push(e);
            }
        }
    }

    /// The same plies with the same snapshots.
    pub open spec fn same_game(&self, o: &NnueState) -> bool {
        &&& self.stack@.len() == o.stack@.len()
        &&& forall|k: int|
            0 <= k < self.stack@.len() ==> (#[trigger] self.stack@[k]).snap == o.stack@[k].snap
    }

    /// Rebuilds the top accumulator for `p` from the cache entry of its king bucket.
    #[verifier::spinoff_prover]
    #[verifier::rlimit(40)]
    fn refresh(&mut self, net: &Network, tables: &ThreatTables, p: Color)
        requires
            old(self).wf(net),
            net.wf(),
            tables.wf(),
        ensures
            final(self).wf(net),
            final(self).same_game(old(self)),
            final(self).stack@.last().acc(p) is Some,
            final(self).stack@.last().acc(p.flip()) == old(self).stack@.last().acc(p.flip()),
    {
        let ghost o = *self;
        if let Some(mut e) = self.stack.pop() {
            proof {
                assert(e == o.stack@[o.stack@.len() - 1]);
                assert(o.stack@[o.stack@.len() - 1].wf(net));
            }
            let v = e.view(p);
            let slot: usize = p.idx() * 20 + 2 * v.bucket + (if v.flip != 0 {
                1
            } else {
                0
            });
            proof {
                assert(slot_view(slot as int) == v);
                assert(o.cache@[slot as int].wf(net, slot as int));
            }
            let mut c = self.cache.remove(slot);
            let ghost c0 = c;
            let lists = compute(tables, &c.snap, &e.snap, v);
            update_in_place(net, &mut c.acc, &lists);
            proof {
                update_follows_board(
                    net,
                    &c0.acc,
                    &c.acc,
                    &lists,
                    c0.snap.board@,
                    e.snap.board@,
                    v,
                );
            }
            c.snap = e.snap;
            let fresh = c.acc.copy();
            self.cache.insert(slot, c);
            let ghost e0 = e;
            e.put(p, fresh);
            proof {
                assert(e.acc(p.flip()) == e0.acc(p.flip()));
                assert(e.wf(net));
                assert forall|i: int| 0 <= i < 40 implies (#[trigger] self.cache@[i]).wf(
                    net,
                    i,
                ) by {
                    if i != slot {
                        assert(self.cache@[i] == o.cache@[i]);
                        assert(o.cache@[i].wf(net, i));
                    }
                }
            }
            self.stack.push(e);
        }
    }

    /// Brings `p`'s top accumulator up to date.
    fn update_one(&mut self, net: &Network, tables: &ThreatTables, p: Color)
        requires
            old(self).wf(net),
            net.wf(),
            tables.wf(),
        ensures
            final(self).wf(net),
            final(self).same_game(old(self)),
            final(self).stack@.last().acc(p) is Some,
            final(self).stack@.last().acc(p.flip()) == old(self).stack@.last().acc(p.flip()),
    {
        if self.stack[self.stack.len() - 1].has(p) {
            return ;
        }
        match self.plan(net, p) {
            None => self.refresh(net, tables, p),
            Some(i) => self.replay(net, tables, i, p),
        }
    }

    /// Weight sums of the first layer for the position on top. They depend on its board
    /// alone, whatever way the accumulators were brought up to date.
    pub fn first_layer(
        &mut self,
        net: &Network,
        tables: &ThreatTables,
        stm: Color,
        bucket: usize,
    ) -> (r: Vec<i32>)
        requires
            old(self).wf(net),
            net.wf(),
            tables.wf(),
            bucket < 8,
        ensures
            final(self).wf(net),
            final(self).same_game(old(self)),
            r@ == board_sums(net, old(self).stack@.last().snap, stm, bucket as int),
    {
        let ghost o = *self;
        self.update_one(net, tables, Color::White);
        self.update_one(net, tables, Color::Black);
        let e = &self.stack[self.stack.len() - 1];
        let ghost snap = o.stack@.last().snap;
        proof {
            assert(self.stack@[self.stack@.len() - 1].snap == o.stack@[o.stack@.len() - 1].snap);
            assert(e.wf(net));
            assert(Color::White.flip() == Color::Black);
            assert(Color::Black.flip() == Color::White);
        }
        match (&e.white, &e.black) {
            (Some(w), Some(b)) => {
                proof {
                    lemma_lanes(net, w, snap.board@, perspective(Color::White, snap.kings@[0]));
                    lemma_lanes(net, b, snap.board@, perspective(Color::Black, snap.kings@[1]));
                }
                let r = match stm {
                    Color::White => net.first_layer(w, b, bucket),
                    Color::Black => net.first_layer(b, w, bucket),
                };
                proof {
                    assert(r@ =~= board_sums(net, snap, stm, bucket as int));
                }
                r
            },
            _ => {
                proof {
                    assert(e.acc(Color::White) is Some);
                    assert(e.acc(Color::Black) is Some);
                    assert(false);
                }
                Vec::new()
            },
        }
    }

    /// Side-to-move relative evaluation in centipawns with the integer layer stack; `count`
    /// is the number of pieces.
    pub fn evaluate(
        &mut self,
        net: &Network,
        tables: &ThreatTables,
        stm: Color,
        count: i32,
    ) -> (r: i32)
        requires
            old(self).wf(net),
            net.wf(),
            tables.wf(),
        ensures
            final(self).wf(net),
            final(self).same_game(old(self)),
            r == network_value(net, old(self).stack@.last().snap, stm, count),
    {
        let bucket = output_bucket(count);
        let a1 = self.first_layer(net, tables, stm, bucket);
        proof {
            assert(a1@.len() == 32);
        }
        net.stack_int(&a1, bucket)
    }
}

/// Weight sums of the first layer for a board.
pub open spec fn board_sums(net: &Network, snap: Snapshot, stm: Color, bucket: int) -> Seq<i32> {
    let w = lanes(net, snap.board@, perspective(Color::White, snap.kings@[0]));
    let b = lanes(net, snap.board@, perspective(Color::Black, snap.kings@[1]));
    let (us, them) = if stm == Color::White {
        (w, b)
    } else {
        (b, w)
    };
    Seq::new(32, |o: int| first_sum(net, us, them, bucket * 32 + o, 1024) as i32)
}

/// Bucket for a number of pieces.
pub open spec fn bucket_for(count: i32) -> int {
    if count <= 2 {
        0
    } else if (count - 2) / 4 < 8 {
        (count - 2) / 4
    } else {
        7
    }
}

/// The network's value of a board.
pub open spec fn network_value(net: &Network, snap: Snapshot, stm: Color, count: i32) -> i32 {
    let bucket = bucket_for(count);
    stack_value(net, board_sums(net, snap, stm, bucket), bucket) as i32
}

impl Position {
    /// No pawn stands on an end rank.
    fn pawns_inside(&self) -> (r: bool)
        ensures
            r == forall|s: int| #[trigger] is_pawn(self@.board, s) ==> 8 <= s < 56,
    {
        let mut s: u8 = 0;
        while s < 64
            invariant
                s <= 64,
                forall|x: int| 0 <= x < s && #[trigger] is_pawn(self@.board, x) ==> 8 <= x < 56,
            decreases 64 - s,
        {
            let pc = self.board[s as usize];
            if pc.0 < 12 && pc.piece_type() == PieceType::Pawn && (s < 8 || s >= 56) {
                proof {
                    assert(is_pawn(self@.board, s as int));
                }
                return false;
            }
            s = s + 1;
        }
        true
    }

    /// What the network sees of the position; `None` where kings are not royal or a pawn
    /// stands on an end rank, for which it has no inputs.
    pub fn nnue_snapshot(&self) -> (r: Option<Snapshot>)
        requires
            self.wf(),
        ensures
            r is Some <==> self@.variant.royal_king() && board_fits(self@.board),
            r matches Some(snap) ==> {
                &&& snap.wf()
                &&& snap.board@ == self@.board
                &&& snap.kings@[0] == self@.ksq(Color::White)
                &&& snap.kings@[1] == self@.ksq(Color::Black)
                &&& snap.kings@[0] < 64
                &&& snap.kings@[1] < 64
            },
    {
        if !self.variant.royal_king() || !self.pawns_inside() {
            return None;
        }
        let ghost b = self@.board;
        proof {
            assert(one_king(b, Color::White) && one_king(b, Color::Black));
            let w = choose|k: int| #[trigger] is_king_square(b, Color::White, k);
            let k = choose|k: int| #[trigger] is_king_square(b, Color::Black, k);
            assert(b[w] == king(Color::White));
            assert(b[k] == king(Color::Black));
        }
        let kw = self.king_square(Color::White);
        let kb = self.king_square(Color::Black);
        let kings: [Square; 2] = [kw, kb];
        proof {
            assert(is_king_square(b, Color::White, kw as int));
            assert(is_king_square(b, Color::Black, kb as int));
            assert forall|s: int|
                on_board(s) && (#[trigger] b[s]).0 < 12 && b[s].piece_type()
                    == PieceType::King <==> s == kings@[0] || s == kings@[1] by {
                if on_board(s) && b[s].0 < 12 && b[s].piece_type() == PieceType::King {
                    assert(b[s] == king(Color::White) || b[s] == king(Color::Black));
                }
                assert(b[kw as int] == king(Color::White));
                assert(b[kb as int] == king(Color::Black));
            }
        }
        Some(Snapshot::build(&self.board, &self.by_color, kings))
    }

    /// The network's value of the position for the side to move, its last layers computed in
    /// integers; with the same layers in floating point the value may differ by rounding.
    pub fn nnue_evaluate(&self, net: &Network, tables: &ThreatTables, state: &mut NnueState) -> (r:
        i32)
        requires
            self.wf(),
            net.wf(),
            tables.wf(),
            old(state).wf(net),
            old(state).stack@.last().snap.board@ == self@.board,
        ensures
            final(state).wf(net),
            final(state).same_game(old(state)),
            r == network_value(
                net,
                old(state).stack@.last().snap,
                self@.stm,
                crate::bits::size(crate::rules::occ(self@.board)) as i32,
            ),
    {
        let count = self.count_all();
        state.evaluate(net, tables, self.side_to_move, count)
    }

    /// Evaluation from the side to move's perspective, clamped below the mate range. The
    /// network's last layers are computed in integers; with the same layers in floating point
    /// the value may differ by rounding.
    pub fn evaluate(&self, net: &Network, tables: &ThreatTables, state: &mut NnueState) -> (r:
        Value)
        requires
            self.wf(),
            net.wf(),
            tables.wf(),
            old(state).wf(net),
            old(state).stack@.last().snap.board@ == self@.board,
        ensures
            final(state).wf(net),
            final(state).same_game(old(state)),
            r == self@.evaluation(
                network_value(
                    net,
                    old(state).stack@.last().snap,
                    self@.stm,
                    crate::bits::size(crate::rules::occ(self@.board)) as i32,
                ) as int,
            ),
            -VALUE_EVAL_MAX <= r <= VALUE_EVAL_MAX,
    {
        match evaluate_without_network(self) {
            Some(v) => v,
            None => {
                let raw = self.nnue_evaluate(net, tables, state);
                evaluate(self, raw)
            },
        }
    }
}

/// The network's value does not depend on how the game reached the position: two states
/// whose top plies hold the same board give the same value.
pub proof fn evaluation_is_path_independent(
    net: &Network,
    a: &NnueState,
    b: &NnueState,
    stm: Color,
    count: i32,
)
    requires
        a.wf(net),
        b.wf(net),
        a.stack@.last().snap.board@ == b.stack@.last().snap.board@,
        a.stack@.last().snap.kings@ == b.stack@.last().snap.kings@,
    ensures
        network_value(net, a.stack@.last().snap, stm, count) == network_value(
            net,
            b.stack@.last().snap,
            stm,
            count,
        ),
{
    assert(board_sums(net, a.stack@.last().snap, stm, bucket_for(count)) =~= board_sums(
        net,
        b.stack@.last().snap,
        stm,
        bucket_for(count),
    ));
}

} // verus!
