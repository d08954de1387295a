//! Sorting scored moves, best first.

use vstd::prelude::*;
use vstd::seq_lib::group_to_multiset_ensures;
use vstd::multiset::group_multiset_axioms;

use crate::position::{piece_value, piece_value_of, Position};
use crate::rules::PosView;
use crate::types::{Move, MoveList, PieceType};

verus! {

#[derive(Clone, Copy, PartialEq, Eq, Debug, Structural)]
pub struct ScoredMove {
    pub m: Move,
    pub score: i32,
}

/// A sequence with two places exchanged.
pub open spec fn swapped<A>(s: Seq<A>, i: int, j: int) -> Seq<A> {
    s.update(i, s[j]).update(j, s[i])
}

/// Exchanging two places keeps what a sequence holds.
pub proof fn lemma_swapped<A>(s: Seq<A>, i: int, j: int)
    requires
        0 <= i < s.len(),
        0 <= j < s.len(),
    ensures
        swapped(s, i, j).to_multiset() == s.to_multiset(),
{
    broadcast use {group_to_multiset_ensures, group_multiset_axioms};

    lemma_update_multiset(s, i, s[j]);
    lemma_update_multiset(s.update(i, s[j]), j, s[i]);
    assert(swapped(s, i, j).to_multiset() =~= s.to_multiset()) by {
        let t = s.update(i, s[j]);
        if i == j {
            assert(t =~= s);
            assert(swapped(s, i, j) =~= s);
        } else {
            assert(t[j] == s[j]);
            assert(s.to_multiset().count(s[i]) > 0) by {
                assert(s.contains(s[i]));
            }
            assert(t.to_multiset().count(s[j]) > 0) by {
                assert(t.contains(t[i]));
            }
        }
    }
}

proof fn lemma_update_multiset<A>(s: Seq<A>, i: int, a: A)
    requires
        0 <= i < s.len(),
    ensures
        s.update(i, a).to_multiset() == s.to_multiset().remove(s[i]).insert(a),
{
    assert(s.update(i, a) =~= s.remove(i).insert(i, a));
    vstd::seq_lib::to_multiset_remove(s, i);
    vstd::seq_lib::to_multiset_insert(s.remove(i), i, a);
}

/// Scores fall from `lo` to `hi`.
pub open spec fn falling(s: Seq<ScoredMove>, lo: int, hi: int) -> bool {
    forall|i: int, j: int|
        lo <= i < j < hi ==> (#[trigger] s[i]).score >= (#[trigger] s[j]).score
}

/// `x` stands somewhere from `lo` to `hi`.
pub open spec fn occurs(s: Seq<ScoredMove>, lo: int, hi: int, x: ScoredMove) -> bool {
    exists|j: int| lo <= j < hi && #[trigger] s[j] == x
}

/// `b` is `a` with the places from `lo` to `hi` rearranged.
pub open spec fn rearranged(a: Seq<ScoredMove>, b: Seq<ScoredMove>, lo: int, hi: int) -> bool {
    &&& a.len() == b.len()
    &&& a.to_multiset() == b.to_multiset()
    &&& forall|i: int| 0 <= i < a.len() && !(lo <= i < hi) ==> #[trigger] b[i] == a[i]
    &&& forall|i: int| lo <= i < hi ==> occurs(a, lo, hi, #[trigger] b[i])
    &&& forall|j: int| lo <= j < hi ==> occurs(b, lo, hi, #[trigger] a[j])
}

fn swap_moves(v: &mut Vec<ScoredMove>, i: usize, j: usize)
    requires
        i < old(v)@.len(),
        j < old(v)@.len(),
    ensures
        final(v)@ == swapped(old(v)@, i as int, j as int),
{
    let a = v[i];
    let b = v[j];
    v.set(i, b);
    v.set(j, a);
}

proof fn lemma_rearranged_swap(
    a: Seq<ScoredMove>,
    b: Seq<ScoredMove>,
    lo: int,
    hi: int,
    i: int,
    j: int,
)
    requires
        rearranged(a, b, lo, hi),
        0 <= lo <= i < hi <= a.len(),
        lo <= j < hi,
    ensures
        rearranged(a, swapped(b, i, j), lo, hi),
{
    let c = swapped(b, i, j);
    lemma_swapped(b, i, j);
    assert forall|x: int| lo <= x < hi implies occurs(a, lo, hi, #[trigger] c[x]) by {
        let z = if x == i {
            j
        } else if x == j {
            i
        } else {
            x
        };
        assert(c[x] == b[z]);
        assert(occurs(a, lo, hi, b[z]));
        let y = choose|y: int| lo <= y < hi && #[trigger] a[y] == b[z];
        assert(a[y] == c[x]);
    }
    assert forall|y: int| lo <= y < hi implies occurs(c, lo, hi, #[trigger] a[y]) by {
        assert(occurs(b, lo, hi, a[y]));
        let z = choose|z: int| lo <= z < hi && #[trigger] b[z] == a[y];
        let x = if z == i {
            j
        } else if z == j {
            i
        } else {
            z
        };
        assert(c[x] == b[z]);
    }
}

/// Sorts the places from `lo` to `hi`, best first.
pub fn sort_range(v: &mut Vec<ScoredMove>, lo: usize, hi: usize)
    requires
        lo <= hi <= old(v)@.len(),
    ensures
        rearranged(old(v)@, final(v)@, lo as int, hi as int),
        falling(final(v)@, lo as int, hi as int),
{
    let ghost a = v@;
    let mut i: usize = lo;
    while i < hi
        invariant
            lo <= i <= hi <= a.len(),
            rearranged(a, v@, lo as int, hi as int),
            falling(v@, lo as int, i as int),
            forall|x: int, y: int|
                lo <= x < i && i <= y < hi ==> (#[trigger] v@[x]).score >= (#[trigger] v@[y]).score,
        decreases hi - i,
    {
        let mut best: usize = i;
        let mut j: usize = i + 1;
        while j < hi
            invariant
                lo <= i <= best < j <= hi <= v@.len(),
                forall|y: int| i <= y < j ==> (#[trigger] v@[y]).score <= v@[best as int].score,
            decreases hi - j,
        {
            if v[j].score > v[best].score {
                best = j;
            }
            j += 1;
        }
        let ghost b = v@;
        proof {
            lemma_rearranged_swap(a, b, lo as int, hi as int, i as int, best as int);
        }
        swap_moves(v, i, best);
        i += 1;
    }
}

/// Moves the places from `lo` to `hi` with a score of at least `limit` to the front, best
/// first; returns where they end.
pub fn partial_sort(v: &mut Vec<ScoredMove>, lo: usize, hi: usize, limit: i32) -> (r: usize)
    requires
        lo <= hi <= old(v)@.len(),
    ensures
        lo <= r <= hi,
        rearranged(old(v)@, final(v)@, lo as int, hi as int),
        falling(final(v)@, lo as int, r as int),
        forall|i: int| lo <= i < r ==> (#[trigger] final(v)@[i]).score >= limit,
        forall|i: int| r <= i < hi ==> (#[trigger] final(v)@[i]).score < limit,
{
    let ghost a = v@;
    let mut left: usize = lo;
    let mut i: usize = lo;
    while i < hi
        invariant
            lo <= left <= i <= hi <= a.len(),
            rearranged(a, v@, lo as int, hi as int),
            forall|x: int| lo <= x < left ==> (#[trigger] v@[x]).score >= limit,
            forall|x: int| left <= x < i ==> (#[trigger] v@[x]).score < limit,
        decreases hi - i,
    {
        if v[i].score >= limit {
            proof {
                lemma_rearranged_swap(a, v@, lo as int, hi as int, i as int, left as int);
            }
            swap_moves(v, i, left);
            left += 1;
        }
        i += 1;
    }
    let ghost b = v@;
    sort_range(v, lo, left);
    proof {
        let c = v@;
        let (l, h) = (lo as int, hi as int);
        assert forall|x: int| l <= x < h implies occurs(a, l, h, #[trigger] c[x]) by {
            if x < left {
                assert(occurs(b, l, left as int, c[x]));
                let z = choose|z: int| lo <= z < left && #[trigger] b[z] == c[x];
                assert(occurs(a, l, h, b[z]));
                let y = choose|y: int| lo <= y < hi && #[trigger] a[y] == b[z];
                assert(a[y] == c[x]);
            } else {
                assert(c[x] == b[x]);
                assert(occurs(a, l, h, b[x]));
                let y = choose|y: int| lo <= y < hi && #[trigger] a[y] == b[x];
                assert(a[y] == c[x]);
            }
        }
        assert forall|y: int| l <= y < h implies occurs(c, l, h, #[trigger] a[y]) by {
            assert(occurs(b, l, h, a[y]));
            let z = choose|z: int| lo <= z < hi && #[trigger] b[z] == a[y];
            if z < left {
                assert(occurs(c, l, left as int, b[z]));
                let x = choose|x: int| lo <= x < left && #[trigger] c[x] == b[z];
                assert(c[x] == a[y]);
            } else {
                assert(c[z] == b[z]);
            }
        }
        assert forall|x: int| lo <= x < left implies (#[trigger] c[x]).score >= limit by {
            assert(occurs(b, l, left as int, c[x]));
            let z = choose|z: int| lo <= z < left && #[trigger] b[z] == c[x];
            assert(b[z].score >= limit);
        }
    }
    left
}

// Captures in quiescence

impl PosView {
    /// Exchange value of what a move takes.
    pub open spec fn victim_value(self, m: Move) -> int {
        if m.is_en_passant() {
            100
        } else if self.real_castling(m) || self.board[m.to()].0 == 12 {
            0
        } else {
            piece_value(self.board[m.to()].piece_type()) as int
        }
    }

    /// What a promotion adds to the pawn.
    pub open spec fn promotion_gain(self, m: Move) -> int {
        if m.is_promotion() {
            piece_value(m.promotion()) - 100
        } else {
            0
        }
    }

    /// Most valuable victim, least valuable attacker.
    pub open spec fn capture_key(self, m: Move) -> int {
        (self.victim_value(m) + self.promotion_gain(m)) * 10 - piece_value_of(self.mover(m))
    }

    /// Order of a move in quiescence, the table's move first.
    pub open spec fn capture_rank(self, m: Move, tt_move: Move) -> int {
        if m == tt_move {
            i32::MAX as int
        } else {
            self.capture_key(m)
        }
    }
}

/// Exchange value of what a move takes and of what it promotes to.
pub fn capture_gain(pos: &Position, m: Move) -> (r: i32)
    ensures
        r == pos@.victim_value(m) + pos@.promotion_gain(m),
        0 <= r <= 2000,
{
    let victim: i32 = match pos.captured_type(m) {
        Some(pt) => piece_value(pt),
        None => 0,
    };
    let promo: i32 = if m.is_promotion() {
        piece_value(m.promotion()) - piece_value(PieceType::Pawn)
    } else {
        0
    };
    victim + promo
}

/// MVV-LVA key for quiescence ordering (promotion gain counted as victim value).
pub fn capture_sort_key(pos: &Position, m: Move) -> (r: i32)
    ensures
        r == pos@.capture_key(m),
        -1000 <= r <= 20000,
{
    capture_gain(pos, m) * 10 - piece_value_of(pos.moved_piece(m))
}

/// Sorts a capture list by MVV-LVA, hoisting the TT move to the front if present.
pub fn sort_captures(pos: &Position, list: &mut MoveList, tt_move: Move)
    ensures
        final(list)@.len() == old(list)@.len(),
        final(list)@.to_multiset() == old(list)@.to_multiset(),
        forall|i: int, j: int|
            0 <= i < j < final(list)@.len() ==> pos@.capture_rank(
                #[trigger] final(list)@[i],
                tt_move,
            ) >= pos@.capture_rank(#[trigger] final(list)@[j], tt_move),
{
    let ghost a = list@;
    let ghost v = pos@;
    let n = list.len();
    let mut i: usize = 0;
    while i < n
        invariant
            i <= n == a.len(),
            v == pos@,
            list@.len() == n,
            list@.to_multiset() == a.to_multiset(),
            forall|x: int, y: int|
                0 <= x < i && x < y < n ==> v.capture_rank(#[trigger] list@[x], tt_move)
                    >= v.capture_rank(#[trigger] list@[y], tt_move),
        decreases n - i,
    {
        let mut best: usize = i;
        let mut best_key = if list.get(i) == tt_move {
            i32::MAX
        } else {
            capture_sort_key(pos, list.get(i))
        };
        let mut j: usize = i + 1;
        while j < n
            invariant
                i <= best < j <= n == list@.len(),
                v == pos@,
                best_key == v.capture_rank(list@[best as int], tt_move),
                forall|y: int|
                    i <= y < j ==> v.capture_rank(#[trigger] list@[y], tt_move) <= best_key,
            decreases n - j,
        {
            let m = list.get(j);
            let key = if m == tt_move {
                i32::MAX
            } else {
                capture_sort_key(pos, m)
            };
            if key > best_key {
                best = j;
                best_key = key;
            }
            j += 1;
        }
        let ghost b = list@;
        proof {
            lemma_swapped(b, i as int, best as int);
        }
        list.swap(i, best);
        assert(list@ =~= swapped(b, i as int, best as int));
        i += 1;
    }
}

} // verus!
