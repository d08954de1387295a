//! Threats that appear or vanish during a move, recorded one by one, as an alternative to
//! comparing attack sets.

use vstd::prelude::*;

use crate::bitboard::sq_bb;
use crate::bits::{group_has, holds};
use crate::geometry::{on_board, same_line};
use crate::snapshot::{
    pair_total, pawn_pair_changes, psqt_changes, psqt_total, Lists, Perspective, Snapshot,
};
use crate::threats::{seen_threat, ThreatTables, AUX_FEATURES};
use crate::types::{file, rank, Bitboard, Piece, Square};

verus! {

broadcast use group_has;

/// One threat that appeared or vanished during a move: `attacker` on `from` attacking
/// `target` on `to`. Packed so a ply's list copies cheaply.
#[derive(Clone, Copy, PartialEq, Eq, Debug, Structural)]
pub struct DirtyThreat(pub u32);

impl DirtyThreat {
    #[verifier::allow_in_spec]
    pub fn new(add: bool, attacker: Piece, target: Piece, from: Square, to: Square) -> DirtyThreat
        requires
            attacker.0 < 128,
        returns
            DirtyThreat(
                ((if add {
                    0x8000_0000int
                } else {
                    0
                }) + 0x100_0000 * attacker.0 + 0x1_0000 * target.0 + 0x100 * from + to) as u32,
            ),
    {
        let head: u32 = if add {
            0x8000_0000
        } else {
            0
        };
        DirtyThreat(
            head + 0x100_0000 * attacker.0 as u32 + 0x1_0000 * target.0 as u32 + 0x100 * from as u32
                + to as u32,
        )
    }

    #[verifier::allow_in_spec]
    pub fn add(self) -> bool
        returns
            self.0 >= 0x8000_0000,
    {
        self.0 >= 0x8000_0000
    }

    #[verifier::allow_in_spec]
    pub fn attacker(self) -> Piece
        returns
            Piece((self.0 / 0x100_0000 % 128) as u8),
    {
        Piece((self.0 / 0x100_0000 % 128) as u8)
    }

    #[verifier::allow_in_spec]
    pub fn target(self) -> Piece
        returns
            Piece((self.0 / 0x1_0000 % 256) as u8),
    {
        Piece((self.0 / 0x1_0000 % 256) as u8)
    }

    #[verifier::allow_in_spec]
    pub fn from(self) -> Square
        returns
            (self.0 / 0x100 % 256) as Square,
    {
        (self.0 / 0x100 % 256) as Square
    }

    #[verifier::allow_in_spec]
    pub fn to(self) -> Square
        returns
            (self.0 % 256) as Square,
    {
        (self.0 % 256) as Square
    }
}

/// What is packed, the accessors give back.
pub proof fn packed_threat_reads_back(
    add: bool,
    attacker: Piece,
    target: Piece,
    from: Square,
    to: Square,
)
    requires
        attacker.0 < 128,
    ensures
        ({
            let d = DirtyThreat::new(add, attacker, target, from, to);
            &&& d.add() == add
            &&& d.attacker() == attacker
            &&& d.target() == target
            &&& d.from() == from
            &&& d.to() == to
        }),
{
    let d = DirtyThreat::new(add, attacker, target, from, to);
    let top: int = if add {
        128
    } else {
        0
    };
    let h3 = top + attacker.0;
    let h2 = 256 * h3 + target.0;
    let h1 = 256 * h2 + from;
    lemma_digit(h1, to as int);
    lemma_digit(h2, from as int);
    lemma_digit(h3, target.0 as int);
    assert(d.0 == 256 * h1 + to);
    assert(d.0 / 0x100 == h1);
    assert(d.0 / 0x1_0000 == h2) by {
        assert(d.0 / 0x1_0000 == d.0 / 0x100 / 0x100);
    }
    assert(d.0 / 0x100_0000 == h3) by {
        assert(d.0 / 0x100_0000 == d.0 / 0x1_0000 / 0x100);
    }
    assert(h3 % 128 == attacker.0);
}

proof fn lemma_digit(h: int, l: int)
    requires
        h >= 0,
        0 <= l < 256,
    ensures
        (256 * h + l) / 256 == h,
        (256 * h + l) % 256 == l,
{
}

pub const MAX_DIRTY_THREATS: usize = 96;

/// The threats a move changed, recorded as they change.
pub struct DirtyThreats {
    pub list: Vec<DirtyThreat>,
    /// More changed than fit: the ply falls back to comparing attack sets.
    pub overflow: bool,
}

impl DirtyThreats {
    pub fn new() -> (r: DirtyThreats)
        ensures
            r.list@.len() == 0,
            !r.overflow,
    {
        DirtyThreats { list: Vec::new(), overflow: false }
    }

    pub fn clear(&mut self)
        ensures
            final(self).list@.len() == 0,
            !final(self).overflow,
    {
        self.list.clear();
        self.overflow = false;
    }

    pub fn push(&mut self, add: bool, attacker: Piece, target: Piece, from: Square, to: Square)
        requires
            attacker.0 < 128,
        ensures
            old(self).list@.len() < MAX_DIRTY_THREATS ==> final(self).list@ == old(
                self,
            ).list@.push(DirtyThreat::new(add, attacker, target, from, to)) && final(self).overflow
                == old(self).overflow,
            old(self).list@.len() >= MAX_DIRTY_THREATS ==> final(self).list@ == old(self).list@
                && final(self).overflow,
    {
        if self.list.len() < MAX_DIRTY_THREATS {
            self.list.push(DirtyThreat::new(add, attacker, target, from, to));
        } else {
            self.overflow = true;
        }
    }
}

/// What one recorded threat contributes under the weights `w`.
pub open spec fn dirty_part(d: DirtyThreat, v: Perspective, w: spec_fn(int) -> int) -> int {
    match seen_threat(d.attacker(), d.from(), d.to(), d.target(), v.p, v.flip) {
        Some(f) => if d.add() {
            w(f)
        } else {
            -w(f)
        },
        None => 0,
    }
}

/// Net weight of the first `n` recorded threats.
pub open spec fn dirty_net(
    s: Seq<DirtyThreat>,
    v: Perspective,
    w: spec_fn(int) -> int,
    n: nat,
) -> int
    decreases n,
{
    if n == 0 {
        0
    } else {
        dirty_net(s, v, w, (n - 1) as nat) + dirty_part(s[n - 1], v, w)
    }
}

/// The recorded threat is between pieces on the board and has its input, if any, within the
/// table.
pub open spec fn recordable(d: DirtyThreat, v: Perspective) -> bool {
    &&& d.attacker().0 < 12
    &&& d.target().0 < 12
    &&& d.from() < 64
    &&& d.to() < 64
    &&& seen_threat(d.attacker(), d.from(), d.to(), d.target(), v.p, v.flip) matches Some(f) ==> 0
        <= f < AUX_FEATURES
}

/// Changes of inputs from a move's recorded threat changes and from the pieces and pawns
/// that differ between the snapshots; no attack sets are needed.
pub fn compute_from_dirty(
    tables: &ThreatTables,
    was: &Snapshot,
    now: &Snapshot,
    dirty: &DirtyThreats,
    v: Perspective,
) -> (r: Lists)
    requires
        tables.wf(),
        was.wf(),
        now.wf(),
        v.wf(),
        forall|i: int| 0 <= i < dirty.list@.len() ==> recordable(#[trigger] dirty.list@[i], v),
    ensures
        r.in_range(),
        forall|w: spec_fn(int) -> int| #[trigger]
            r.aux_net(w) == dirty_net(dirty.list@, v, w, dirty.list@.len()) + pair_total(
                now.board@,
                v,
                w,
                4096,
            ) - pair_total(was.board@, v, w, 4096),
        forall|w: spec_fn(int) -> int| #[trigger]
            r.psqt_net(w) == psqt_total(now.board@, v, w, 64) - psqt_total(was.board@, v, w, 64),
{
    let mut lists = Lists::new();
    let ghost l0 = lists;
    psqt_changes(was, now, v, &mut lists);
    let ghost l1 = lists;
    let mut i: usize = 0;
    while i < dirty.list.len()
        invariant
            i <= dirty.list@.len(),
            tables.wf(),
            lists.in_range(),
            lists.psqt_add == l1.psqt_add,
            lists.psqt_sub == l1.psqt_sub,
            forall|k: int| 0 <= k < dirty.list@.len() ==> recordable(#[trigger] dirty.list@[k], v),
            forall|w: spec_fn(int) -> int| #[trigger] l1.aux_net(w) == 0,
            forall|w: spec_fn(int) -> int| #[trigger]
                lists.aux_net(w) == dirty_net(dirty.list@, v, w, i as nat),
        decreases dirty.list@.len() - i,
    {
        let d = dirty.list[i];
        let ghost before = lists;
        proof {
            assert(recordable(dirty.list@[i as int], v));
        }
        if let Some(f) = tables.threat_feature(
            d.attacker(),
            d.from(),
            d.to(),
            d.target(),
            v.p,
            v.flip,
        ) {
            if d.add() {
                lists.add_aux(f);
            } else {
                lists.sub_aux(f);
            }
        }
        proof {
            assert forall|w: spec_fn(int) -> int| #[trigger]
                lists.aux_net(w) == dirty_net(dirty.list@, v, w, (i + 1) as nat) by {
                assert(before.aux_net(w) == dirty_net(dirty.list@, v, w, i as nat));
            }
        }
        i += 1;
    }
    let ghost l2 = lists;
    pawn_pair_changes(was, now, v, &mut lists);
    proof {
        assert forall|w: spec_fn(int) -> int| #[trigger]
            lists.psqt_net(w) == psqt_total(now.board@, v, w, 64) - psqt_total(
                was.board@,
                v,
                w,
                64,
            ) by {
            assert(l0.psqt_net(w) == 0);
            assert(l1.psqt_net(w) == l0.psqt_net(w) + psqt_total(now.board@, v, w, 64)
                - psqt_total(was.board@, v, w, 64));
        }
        assert forall|w: spec_fn(int) -> int| #[trigger]
            lists.aux_net(w) == dirty_net(dirty.list@, v, w, dirty.list@.len()) + pair_total(
                now.board@,
                v,
                w,
                4096,
            ) - pair_total(was.board@, v, w, 4096) by {
            assert(l2.aux_net(w) == dirty_net(dirty.list@, v, w, dirty.list@.len()));
        }
    }
    lists
}

/// -1, 0 or 1 by sign.
pub open spec fn sign(x: int) -> int {
    if x > 0 {
        1
    } else if x < 0 {
        -1
    } else {
        0
    }
}

/// `t` is `k` steps from `a` in the direction of `b`.
pub open spec fn steps_towards(a: int, b: int, t: int, k: int) -> bool {
    &&& k >= 1
    &&& on_board(t)
    &&& file(t) == file(a) + k * sign(file(b) - file(a))
    &&& rank(t) == rank(a) + k * sign(rank(b) - rank(a))
}

/// `t` lies on the line from `a` through `b` to the edge.
pub open spec fn on_ray(a: int, b: int, t: int) -> bool {
    same_line(a, b) && exists|k: int| #[trigger] steps_towards(a, b, t, k)
}

fn step_sign(from: u8, to: u8) -> (r: i32)
    ensures
        r == sign(to - from),
{
    if to > from {
        1
    } else if to < from {
        -1
    } else {
        0
    }
}

/// Squares from `a` (exclusive) through `b` to the edge of the board; none when the two are
/// not aligned.
pub fn ray_pass(a: Square, b: Square) -> (r: Bitboard)
    requires
        a < 64,
        b < 64,
    ensures
        forall|t: int| #[trigger] holds(r, t) <==> on_ray(a as int, b as int, t),
{
    let (fa, ra, fb, rb) = (a % 8, a / 8, b % 8, b / 8);
    let df: i32 = fb as i32 - fa as i32;
    let dr: i32 = rb as i32 - ra as i32;
    let aligned = a != b && (df == 0 || dr == 0 || df == dr || df == -dr);
    proof {
        assert(aligned == same_line(a as int, b as int));
    }
    let mut r: Bitboard = 0;
    if !aligned {
        return r;
    }
    let (sf, sr) = (step_sign(fa, fb), step_sign(ra, rb));
    let mut f: i32 = fa as i32 + sf;
    let mut q: i32 = ra as i32 + sr;
    let mut k: i32 = 1;
    while f >= 0 && f < 8 && q >= 0 && q < 8
        invariant
            1 <= k <= 9,
            -1 <= f <= 8,
            -1 <= q <= 8,
            sf == sign(file(b as int) - file(a as int)),
            sr == sign(rank(b as int) - rank(a as int)),
            sf != 0 || sr != 0,
            fa == file(a as int),
            ra == rank(a as int),
            0 <= fa < 8,
            0 <= ra < 8,
            f == fa + k * sf,
            q == ra + k * sr,
            forall|t: int| #[trigger]
                holds(r, t) <==> exists|j: int|
                    j < k && #[trigger] steps_towards(a as int, b as int, t, j),
        decreases 9 - k,
    {
        let s = (q * 8 + f) as u8;
        let ghost before = r;
        r = r | sq_bb(s);
        proof {
            assert(steps_towards(a as int, b as int, s as int, k as int));
            assert forall|t: int| #[trigger]
                holds(r, t) <==> exists|j: int|
                    j < k + 1 && #[trigger] steps_towards(a as int, b as int, t, j) by {
                if holds(r, t) && t != s {
                    assert(holds(before, t));
                    let j = choose|j: int|
                        j < k && #[trigger] steps_towards(a as int, b as int, t, j);
                    assert(steps_towards(a as int, b as int, t, j) && j < k + 1);
                }
                if exists|j: int| j < k + 1 && #[trigger] steps_towards(a as int, b as int, t, j) {
                    let j = choose|j: int|
                        j < k + 1 && #[trigger] steps_towards(a as int, b as int, t, j);
                    if j == k {
                        assert(t == s);
                    } else {
                        assert(holds(before, t));
                    }
                }
            }
            lemma_next(k as int, sf as int);
            lemma_next(k as int, sr as int);
        }
        f = f + sf;
        q = q + sr;
        k = k + 1;
    }
    proof {
        assert forall|t: int| #[trigger] holds(r, t) <==> on_ray(a as int, b as int, t) by {
            if on_ray(a as int, b as int, t) {
                let j = choose|j: int| #[trigger] steps_towards(a as int, b as int, t, j);
                if j >= k {
                    lemma_further(k as int, j, sf as int);
                    lemma_further(k as int, j, sr as int);
                    assert(false);
                }
                assert(j < k && steps_towards(a as int, b as int, t, j));
            }
        }
    }
    r
}

proof fn lemma_next(k: int, s: int)
    ensures
        (k + 1) * s == k * s + s,
{
    assert((k + 1) * s == k * s + s) by (nonlinear_arith);
}

proof fn lemma_further(k: int, j: int, s: int)
    requires
        1 <= k <= j,
        s == 0 || s == 1 || s == -1,
    ensures
        s == 0 ==> j * s == 0 && k * s == 0,
        s == 1 ==> j * s == j && k * s == k,
        s == -1 ==> j * s == -j && k * s == -k,
{
}

} // verus!
