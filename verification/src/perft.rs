//! Counting the legal move tree.

use vstd::prelude::*;

use crate::bits::{has_one, has_or, has_zero, holds, lemma_ext, one};
use crate::makemove::unmake_undoes_make;
use crate::movegen::generate_legal;
use crate::moves::lemma_adds_contains;
use crate::play::{legal_moves_can_be_made, legal_moves_keep_playable};
use crate::position::Position;
use crate::rules::PosView;
use crate::state::StateInfo;
use crate::types::{Move, MoveList};

verus! {

/// The promoted-piece marks below square `n` after a move, as a word.
pub open spec fn marks_word(v: PosView, m: Move, n: nat) -> u64
    decreases n,
{
    if n == 0 {
        0
    } else {
        marks_word(v, m, (n - 1) as nat) | if v.mark_after(m, n - 1) {
            one(n - 1)
        } else {
            0
        }
    }
}

impl PosView {
    /// A pocket after a move.
    pub open spec fn pocket_after(self, m: Move, c: int) -> [u8; 5] {
        [
            self.hand_after(m, c, 0) as u8,
            self.hand_after(m, c, 1) as u8,
            self.hand_after(m, c, 2) as u8,
            self.hand_after(m, c, 3) as u8,
            self.hand_after(m, c, 4) as u8,
        ]
    }

    /// The position after `m`, as far as the rules go on to look at it.
    pub open spec fn successor(self, m: Move) -> PosView {
        let st = StateInfo {
            castling_rights: if m.is_drop() {
                self.st().castling_rights
            } else {
                self.st().castling_rights & !(self.mask[m.from()] | self.mask[self.arrival(m)])
            },
            ep_square: (if self.opens_en_passant(m) {
                m.from() + self.stm.forward()
            } else {
                64
            }) as u8,
            hand: [self.pocket_after(m, 0), self.pocket_after(m, 1)],
            promoted: marks_word(self, m, 64),
            ..self.st()
        };
        PosView {
            board: self.after(m),
            stm: self.stm.flip(),
            game_ply: self.game_ply + 1,
            states: self.states.push(st),
            ..self
        }
    }
}

/// Number of lines of `depth` legal moves whose first move has a code below `n`.
pub open spec fn lines_below(v: PosView, depth: nat, n: nat) -> nat
    decreases depth, n,
{
    if depth == 0 {
        1
    } else if n == 0 {
        0
    } else {
        lines_below(v, depth, (n - 1) as nat) + if v.legal(Move((n - 1) as u16)) {
            lines_below(v.successor(Move((n - 1) as u16)), (depth - 1) as nat, 65536)
        } else {
            0
        }
    }
}

/// Number of lines of `depth` legal moves.
pub open spec fn lines(v: PosView, depth: nat) -> nat {
    lines_below(v, depth, 65536)
}

/// Two positions from which the same games can be played.
pub open spec fn same_game(v: PosView, w: PosView) -> bool {
    &&& v.board == w.board
    &&& v.stm == w.stm
    &&& v.chess960 == w.chess960
    &&& v.variant == w.variant
    &&& v.mask == w.mask
    &&& v.rooks == w.rooks
    &&& v.path == w.path
    &&& v.st().castling_rights == w.st().castling_rights
    &&& v.st().ep_square == w.st().ep_square
    &&& v.st().hand == w.st().hand
    &&& v.st().promoted == w.st().promoted
}

pub proof fn lemma_same_legal(v: PosView, w: PosView, m: Move)
    requires
        same_game(v, w),
    ensures
        v.legal(m) == w.legal(m),
        v.after(m) == w.after(m),
{
    assert(v.after(m) == w.after(m));
    assert(v.pseudo(m) == w.pseudo(m));
    assert(v.castling_path_safe(m) == w.castling_path_safe(m));
    assert(v.can_capture() == w.can_capture()) by {
        if v.can_capture() {
            let (x, t) = choose|x: int, t: int| #[trigger] v.captures(x, t);
            assert(w.captures(x, t));
        }
        if w.can_capture() {
            let (x, t) = choose|x: int, t: int| #[trigger] w.captures(x, t);
            assert(v.captures(x, t));
        }
    }
}

proof fn lemma_same_marks(v: PosView, w: PosView, m: Move, n: nat)
    requires
        same_game(v, w),
    ensures
        marks_word(v, m, n) == marks_word(w, m, n),
    decreases n,
{
    if n > 0 {
        lemma_same_marks(v, w, m, (n - 1) as nat);
        assert(v.mark_after(m, n - 1) == w.mark_after(m, n - 1));
    }
}

proof fn lemma_marks_word(v: PosView, m: Move, n: nat, s: int)
    requires
        n <= 64,
    ensures
        holds(marks_word(v, m, n), s) <==> 0 <= s < n && v.mark_after(m, s),
    decreases n,
{
    if n > 0 {
        lemma_marks_word(v, m, (n - 1) as nat, s);
        let hi = if v.mark_after(m, n - 1) {
            one(n - 1)
        } else {
            0
        };
        has_or(marks_word(v, m, (n - 1) as nat), hi, s);
        has_one(n - 1, s);
        has_zero(s);
    } else {
        has_zero(s);
    }
}

pub proof fn lemma_same_successor(v: PosView, w: PosView, m: Move)
    requires
        same_game(v, w),
    ensures
        same_game(v.successor(m), w.successor(m)),
{
    lemma_same_legal(v, w, m);
    lemma_same_marks(v, w, m, 64);
    assert(v.opens_en_passant(m) == w.opens_en_passant(m));
    assert forall|c: int, p: int| v.hand_after(m, c, p) == w.hand_after(m, c, p) by {}
    assert(v.pocket_after(m, 0) == w.pocket_after(m, 0));
    assert(v.pocket_after(m, 1) == w.pocket_after(m, 1));
}

/// The number of lines depends only on the game.
pub proof fn lemma_same_lines(v: PosView, w: PosView, depth: nat, n: nat)
    requires
        same_game(v, w),
    ensures
        lines_below(v, depth, n) == lines_below(w, depth, n),
    decreases depth, n,
{
    if depth > 0 && n > 0 {
        lemma_same_lines(v, w, depth, (n - 1) as nat);
        let m = Move((n - 1) as u16);
        lemma_same_legal(v, w, m);
        lemma_same_successor(v, w, m);
        lemma_same_lines(v.successor(m), w.successor(m), (depth - 1) as nat, 65536);
    }
}

/// A position reached by making a move is its successor, as far as the rules look.
pub proof fn lemma_made_is_successor(v: PosView, m: Move, g: bool, w: PosView)
    requires
        v.wf(),
        w.wf(),
        v.made(m, g, w),
    ensures
        same_game(w, v.successor(m)),
{
    let s = v.successor(m);
    let st = w.st();
    assert forall|c: int| 0 <= c < 2 implies #[trigger] st.hand@[c] == s.st().hand@[c] by {
        assert forall|p: int| 0 <= p < 5 implies st.hand@[c]@[p] == s.st().hand@[c]@[p] by {
            assert(st.hand@[c]@[p] == v.hand_after(m, c, p));
        }
        assert(st.hand@[c] =~= s.st().hand@[c]);
    }
    assert(st.hand =~= s.st().hand);
    assert forall|x: int| 0 <= x < 64 implies holds(st.promoted, x) == holds(
        s.st().promoted,
        x,
    ) by {
        lemma_marks_word(v, m, 64, x);
    }
    lemma_ext(st.promoted, s.st().promoted);
}

/// Lines over the moves of a list.
pub open spec fn listed(v: PosView, depth: nat, l: Seq<Move>) -> nat
    decreases l.len(),
{
    if l.len() == 0 || depth == 0 {
        0
    } else {
        listed(v, depth, l.drop_last()) + lines(v.successor(l.last()), (depth - 1) as nat)
    }
}

/// Lines whose first move is in `s` and has a code below `n`.
spec fn lines_among(v: PosView, depth: nat, s: Seq<Move>, n: nat) -> nat
    decreases n,
{
    if n == 0 || depth == 0 {
        0
    } else {
        lines_among(v, depth, s, (n - 1) as nat) + if s.contains(Move((n - 1) as u16)) {
            lines(v.successor(Move((n - 1) as u16)), (depth - 1) as nat)
        } else {
            0
        }
    }
}

proof fn lemma_among_all(v: PosView, depth: nat, s: Seq<Move>, n: nat)
    requires
        depth > 0,
        forall|m: Move| #[trigger] s.contains(m) <==> v.legal(m),
    ensures
        lines_among(v, depth, s, n) == lines_below(v, depth, n),
    decreases n,
{
    if n > 0 {
        lemma_among_all(v, depth, s, (n - 1) as nat);
    }
}

proof fn lemma_among_push(v: PosView, depth: nat, s: Seq<Move>, m: Move, n: nat)
    requires
        depth > 0,
        !s.contains(m),
        n <= 65536,
    ensures
        lines_among(v, depth, s.push(m), n) == lines_among(v, depth, s, n) + (if m.0 < n {
            lines(v.successor(m), (depth - 1) as nat)
        } else {
            0
        }),
    decreases n,
{
    if n > 0 {
        lemma_among_push(v, depth, s, m, (n - 1) as nat);
        let c = Move((n - 1) as u16);
        assert(s.push(m).contains(c) <==> s.contains(c) || c == m) by {
            if s.contains(c) {
                let i = choose|i: int| 0 <= i < s.len() && s[i] == c;
                assert(s.push(m)[i] == c);
            }
            if c == m {
                assert(s.push(m)[s.len() as int] == c);
            }
        }
    }
}

proof fn lemma_among_empty(v: PosView, depth: nat, n: nat)
    ensures
        lines_among(v, depth, Seq::<Move>::empty(), n) == 0,
    decreases n,
{
    if n > 0 {
        lemma_among_empty(v, depth, (n - 1) as nat);
    }
}

proof fn lemma_listed(v: PosView, depth: nat, l: Seq<Move>)
    requires
        depth > 0,
        l.no_duplicates(),
    ensures
        listed(v, depth, l) == lines_among(v, depth, l, 65536),
    decreases l.len(),
{
    if l.len() == 0 {
        lemma_among_empty(v, depth, 65536);
        assert(l =~= Seq::<Move>::empty());
    } else {
        let s = l.drop_last();
        let m = l.last();
        lemma_listed(v, depth, s);
        assert(l =~= s.push(m));
        assert(!s.contains(m)) by {
            if s.contains(m) {
                let i = choose|i: int| 0 <= i < s.len() && s[i] == m;
                assert(l[i] == l[l.len() - 1]);
            }
        }
        lemma_among_push(v, depth, s, m, 65536);
    }
}

/// Counting the lines over a complete list of the legal moves counts them all.
pub proof fn lemma_listed_all(v: PosView, depth: nat, l: Seq<Move>)
    requires
        depth > 0,
        l.no_duplicates(),
        forall|m: Move| #[trigger] l.contains(m) <==> v.legal(m),
    ensures
        listed(v, depth, l) == lines(v, depth),
{
    lemma_listed(v, depth, l);
    lemma_among_all(v, depth, l, 65536);
}

proof fn lemma_listed_one(v: PosView, l: Seq<Move>)
    ensures
        listed(v, 1, l) == l.len(),
    decreases l.len(),
{
    if l.len() > 0 {
        lemma_listed_one(v, l.drop_last());
    }
}

proof fn lemma_listed_mono(v: PosView, depth: nat, l: Seq<Move>, i: int)
    requires
        0 <= i <= l.len(),
    ensures
        listed(v, depth, l.subrange(0, i)) <= listed(v, depth, l),
    decreases l.len() - i,
{
    if i < l.len() {
        lemma_listed_mono(v, depth, l, i + 1);
        assert(l.subrange(0, i + 1).drop_last() =~= l.subrange(0, i));
    } else {
        assert(l.subrange(0, i) =~= l);
    }
}

/// Makes one legal move and everything that has to be known for taking it back.
pub(crate) fn play_move(pos: &mut Position, m: Move)
    requires
        old(pos).wf(),
        old(pos)@.playable(),
        old(pos)@.room(1),
        old(pos)@.legal(m),
    ensures
        final(pos).wf(),
        final(pos).keys == old(pos).keys,
        final(pos)@.playable(),
        old(pos)@.made(m, old(pos)@.check_test(m), final(pos)@),
        final(pos)@.undoable(m),
        final(pos)@.undo(m) == old(pos)@,
        same_game(final(pos)@, old(pos)@.successor(m)),
        forall|n: int| n >= 1 && #[trigger] old(pos)@.room(n) ==> final(pos)@.room(n - 1),
        old(pos)@.plays(m, final(pos)@),
        old(pos)@.keys_match() ==> final(pos)@.keys_match(),
{
    let ghost v = pos@;
    proof {
        legal_moves_can_be_made(v, m);
    }
    let gives_check = pos.gives_check(m);
    pos.make_move(m, gives_check);
    proof {
        let w = pos@;
        crate::makemove::lemma_marks_after(v, m, gives_check, w);
        legal_moves_keep_playable(v, m, w);
        unmake_undoes_make(v, m, gives_check, w);
        lemma_made_is_successor(v, m, gives_check, w);
    }
}

/// Node count of the legal move tree to `depth`: the number of lines of that many legal
/// moves. The position is left as it was.
pub fn perft(pos: &mut Position, depth: u32) -> (r: u64)
    requires
        old(pos).wf(),
        old(pos)@.playable(),
        old(pos)@.room(depth as int),
        lines(old(pos)@, depth as nat) <= u64::MAX,
    ensures
        r == lines(old(pos)@, depth as nat),
        final(pos).wf(),
        final(pos)@ == old(pos)@,
        final(pos).keys == old(pos).keys,
    decreases depth,
{
    if depth == 0 {
        return 1;
    }
    let ghost v = pos@;
    let ghost d = depth as nat;
    let mut list = MoveList::new();
    generate_legal(pos, &mut list);
    let ghost l = list@;
    proof {
        lemma_adds_contains(l, Set::new(|m: Move| v.legal(m)));
        lemma_listed_all(v, d, l);
        lemma_listed_one(v, l);
    }
    if depth == 1 {
        return list.len() as u64;
    }
    let mut nodes: u64 = 0;
    let mut i: usize = 0;
    while i < list.len()
        invariant
            i <= l.len(),
            l == list@,
            d == depth,
            depth >= 2,
            pos.wf(),
            pos@ == v,
            pos.keys == old(pos).keys,
            v.playable(),
            v.room(depth as int),
            forall|m: Move| #[trigger] l.contains(m) <==> v.legal(m),
            nodes == listed(v, d, l.subrange(0, i as int)),
            listed(v, d, l) <= u64::MAX,
        decreases l.len() - i,
    {
        let m = list.get(i);
        proof {
            assert(l.contains(m));
            lemma_listed_mono(v, d, l, i + 1);
            assert(l.subrange(0, i + 1).drop_last() =~= l.subrange(0, i as int));
        }
        play_move(pos, m);
        proof {
            lemma_same_lines(pos@, v.successor(m), (d - 1) as nat, 65536);
        }
        let n = perft(pos, depth - 1);
        nodes = nodes + n;
        pos.unmake_move(m);
        i += 1;
    }
    proof {
        assert(l.subrange(0, i as int) =~= l);
    }
    nodes
}

/// Perft with a per-root-move breakdown: every legal move with the number of lines it
/// starts, in the order of generation.
pub fn perft_divide(pos: &mut Position, depth: u32) -> (r: Vec<(Move, u64)>)
    requires
        old(pos).wf(),
        old(pos)@.playable(),
        depth >= 1,
        old(pos)@.room(depth as int),
        lines(old(pos)@, depth as nat) <= u64::MAX,
    ensures
        final(pos).wf(),
        final(pos)@ == old(pos)@,
        forall|m: Move| #[trigger]
            old(pos)@.legal(m) <==> exists|i: int| 0 <= i < r@.len() && (#[trigger] r@[i]).0 == m,
        forall|i: int, j: int|
            0 <= i < j < r@.len() ==> (#[trigger] r@[i]).0 != (#[trigger] r@[j]).0,
        forall|i: int|
            0 <= i < r@.len() ==> (#[trigger] r@[i]).1 == lines(
                old(pos)@.successor(r@[i].0),
                (depth - 1) as nat,
            ),
{
    let ghost v = pos@;
    let ghost d = depth as nat;
    let mut list = MoveList::new();
    generate_legal(pos, &mut list);
    let ghost l = list@;
    proof {
        lemma_adds_contains(l, Set::new(|m: Move| v.legal(m)));
        lemma_listed_all(v, d, l);
    }
    let mut out: Vec<(Move, u64)> = Vec::new();
    let mut i: usize = 0;
    while i < list.len()
        invariant
            i <= l.len(),
            l == list@,
            d == depth,
            depth >= 1,
            pos.wf(),
            pos@ == v,
            v.playable(),
            v.room(depth as int),
            forall|m: Move| #[trigger] l.contains(m) <==> v.legal(m),
            listed(v, d, l) <= u64::MAX,
            out@.len() == i,
            forall|j: int|
                0 <= j < i ==> (#[trigger] out@[j]).0 == l[j] && out@[j].1 == lines(
                    v.successor(l[j]),
                    (d - 1) as nat,
                ),
        decreases l.len() - i,
    {
        let m = list.get(i);
        proof {
            assert(l.contains(m));
            lemma_listed_mono(v, d, l, i + 1);
            assert(l.subrange(0, i + 1).drop_last() =~= l.subrange(0, i as int));
        }
        play_move(pos, m);
        proof {
            lemma_same_lines(pos@, v.successor(m), (d - 1) as nat, 65536);
        }
        let n = perft(pos, depth - 1);
        pos.unmake_move(m);
        out.push((m, n));
        i += 1;
    }
    proof {
        assert forall|m: Move| #[trigger] v.legal(m) <==> exists|i: int|
            0 <= i < out@.len() && (#[trigger] out@[i]).0 == m by {
            if v.legal(m) {
                assert(l.contains(m));
                let j = choose|j: int| 0 <= j < l.len() && l[j] == m;
                assert(out@[j].0 == m);
            }
            if exists|i: int| 0 <= i < out@.len() && (#[trigger] out@[i]).0 == m {
                let j = choose|i: int| 0 <= i < out@.len() && (#[trigger] out@[i]).0 == m;
                assert(l[j] == m);
                assert(l.contains(m));
            }
        }
    }
    out
}

} // verus!
